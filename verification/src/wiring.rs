//! How the link lists of the neurons and the arena of links fit together.
//!
//! `backs[d]` is the incoming list of neuron `d`, `fronts[n]` the outgoing
//! list of neuron `n`, and `ends[id]` the source and the target of link `id`.

use vstd::prelude::*;

verus! {

/// The link lists and the links agree: entry `s` of the incoming list of `d`
/// names the one link from `s` to `d`, every link is listed so, and the
/// outgoing list of `n` names the links from `n` to the neurons that have
/// one, in the order of those neurons, which are the last of the network.
pub open spec fn wired(
    backs: Seq<Seq<usize>>,
    fronts: Seq<Seq<usize>>,
    ends: Seq<(usize, usize)>,
) -> bool {
    let count = backs.len();
    &&& fronts.len() == count
    &&& forall|d: int, s: int|
        0 <= d < count && 0 <= s < backs[d].len() ==> {
            let id = #[trigger] backs[d][s];
            id < ends.len() && ends[id as int].0 == s && ends[id as int].1 == d
        }
    &&& forall|id: int|
        0 <= id < ends.len() ==> {
            let (s, d) = #[trigger] ends[id];
            d < count && s < backs[d as int].len() && backs[d as int][s as int] == id
        }
    &&& forall|n: int| 0 <= n < count ==> (#[trigger] fronts[n]).len() <= count
    &&& forall|n: int, d: int|
        0 <= n < count && 0 <= d < count ==> (n < (#[trigger] backs[d]).len() <==> d >= count - (
        #[trigger] fronts[n]).len())
    &&& forall|n: int, j: int|
        0 <= n < count && 0 <= j < fronts[n].len() ==> #[trigger] fronts[n][j] == backs[count
            - fronts[n].len() + j][n]
}

/// Adding a neuron with a link from each of the first `p` neurons keeps the
/// lists and the links in agreement, if the neurons from `p` on have no
/// outgoing links yet.
pub proof fn lemma_wired_grows(
    backs0: Seq<Seq<usize>>,
    fronts0: Seq<Seq<usize>>,
    ends0: Seq<(usize, usize)>,
    backs1: Seq<Seq<usize>>,
    fronts1: Seq<Seq<usize>>,
    ends1: Seq<(usize, usize)>,
    p: int,
)
    requires
        wired(backs0, fronts0, ends0),
        0 <= p <= backs0.len(),
        forall|x: int| 0 <= x < backs0.len() ==> (#[trigger] backs0[x]).len() <= x,
        forall|n: int| p <= n < backs0.len() ==> (#[trigger] fronts0[n]).len() == 0,
        backs1.len() == backs0.len() + 1,
        forall|x: int| 0 <= x < backs0.len() ==> #[trigger] backs1[x] == backs0[x],
        backs1[backs0.len() as int].len() == p,
        forall|s: int| 0 <= s < p ==> #[trigger] backs1[backs0.len() as int][s] == ends0.len() + s,
        fronts1.len() == backs1.len(),
        forall|n: int|
            0 <= n < p ==> (#[trigger] fronts1[n]).len() == fronts0[n].len() + 1
                && fronts1[n][fronts0[n].len() as int] == ends0.len() + n,
        forall|n: int, j: int|
            0 <= n < p && 0 <= j < fronts0[n].len() ==> #[trigger] fronts1[n][j] == fronts0[n][j],
        forall|n: int| p <= n < backs0.len() ==> #[trigger] fronts1[n] == fronts0[n],
        fronts1[backs0.len() as int].len() == 0,
        ends1.len() == ends0.len() + p,
        forall|id: int| 0 <= id < ends0.len() ==> #[trigger] ends1[id] == ends0[id],
        forall|id: int|
            ends0.len() <= id < ends1.len() ==> (#[trigger] ends1[id]).0 == id - ends0.len()
                && ends1[id].1 == backs0.len(),
    ensures
        wired(backs1, fronts1, ends1),
{
    let count = backs0.len() as int;
    let more = backs1.len() as int;
    assert forall|d: int, s: int| 0 <= d < more && 0 <= s < backs1[d].len() implies {
        let id = #[trigger] backs1[d][s];
        id < ends1.len() && ends1[id as int].0 == s && ends1[id as int].1 == d
    } by {
        if d < count {
            assert(backs1[d] == backs0[d]);
            let id = backs0[d][s];
            assert(ends1[id as int] == ends0[id as int]);
        } else {
            let id = backs1[count][s];
            assert(id == ends0.len() + s);
            assert(ends1[id as int].0 == id - ends0.len());
        }
    }
    assert forall|id: int| 0 <= id < ends1.len() implies {
        let (s, d) = #[trigger] ends1[id];
        d < more && s < backs1[d as int].len() && backs1[d as int][s as int] == id
    } by {
        if id < ends0.len() {
            assert(ends1[id] == ends0[id]);
            let (s, d) = ends0[id];
            assert(backs1[d as int] == backs0[d as int]);
        } else {
            assert(ends1[id].0 == id - ends0.len());
            assert(backs1[count][id - ends0.len()] == id);
        }
    }
    assert forall|n: int| 0 <= n < more implies (#[trigger] fronts1[n]).len() <= more by {
        if n < p {
            assert(fronts0[n].len() <= count);
        } else if n < count {
            assert(fronts1[n] == fronts0[n]);
        }
    }
    assert forall|n: int, d: int| 0 <= n < more && 0 <= d < more implies (n < (
    #[trigger] backs1[d]).len() <==> d >= more - (#[trigger] fronts1[n]).len()) by {
        if d < count {
            assert(backs1[d] == backs0[d]);
            assert(backs0[d].len() <= d);
        }
        if n < p {
            assert(fronts1[n].len() == fronts0[n].len() + 1);
            if d < count {
                assert(n < backs0[d].len() <==> d >= count - fronts0[n].len());
            }
        } else if n < count {
            assert(fronts1[n] == fronts0[n]);
            assert(fronts0[n].len() == 0);
            if d < count {
                assert(n < backs0[d].len() <==> d >= count - fronts0[n].len());
            }
        }
    }
    assert forall|n: int, j: int|
        0 <= n < more && 0 <= j < fronts1[n].len() implies #[trigger] fronts1[n][j] == backs1[more
            - fronts1[n].len() + j][n] by {
        if n < p {
            assert(fronts1[n].len() == fronts0[n].len() + 1);
            let first = count - fronts0[n].len();
            assert(fronts0[n].len() <= count);
            if j < fronts0[n].len() {
                assert(fronts1[n][j] == fronts0[n][j]);
                assert(fronts0[n][j] == backs0[first + j][n]);
                assert(backs1[first + j] == backs0[first + j]);
            } else {
                assert(backs1[count][n] == ends0.len() + n);
            }
        } else if n < count {
            assert(fronts1[n] == fronts0[n]);
            assert(fronts0[n].len() == 0);
        }
    }
}

} // verus!
