//! The revision walker: a parents-first enumeration of every commit
//! reachable from a set of tips.
//!
//! Because the store is append-only and well formed, a commit's parents
//! always carry strictly smaller identifiers, so ascending identifier order
//! is a reverse topological order. The walk therefore marks the reachable
//! set with one descending sweep — each marked commit marks its parents,
//! which lie further down — and then enumerates the marked commits in
//! ascending order.

use vstd::prelude::*;

use crate::store::{commit_at, is_commit_at, obj_wf, store_wf, Object, Store};

verus! {

/// The parent identifiers of the commit at `c`.
pub open spec fn parents_of(s: Seq<Object>, c: int) -> Seq<usize>
    recommends
        is_commit_at(s, c),
{
    commit_at(s, c).parents@
}

/// An enumeration fit for rewriting: commits of the store, in strictly
/// ascending identifier order (hence parents-first), closed under parents.
pub open spec fn order_ok(s: Seq<Object>, out: Seq<usize>) -> bool {
    &&& forall|i: int| 0 <= i < out.len() ==> is_commit_at(s, #[trigger] out[i] as int)
    &&& forall|i: int, j: int| 0 <= i < j < out.len() ==> out[i] < out[j]
    &&& forall|i: int, k: int|
        0 <= i < out.len() && 0 <= k < parents_of(s, out[i] as int).len() ==> out.contains(
            #[trigger] parents_of(s, out[i] as int)[k],
        )
}

/// What the walk yields: exactly the commits reachable from the tips, every
/// parent before any of its children.
///
/// The clauses pin the enumerated set: it is closed under parents, and every
/// member is either a tip or the parent of another member. In a well-formed
/// store — where parent edges always descend — the only such set containing
/// the commit tips is the set of commits reachable from them.
pub open spec fn walk_ok(s: Seq<Object>, tips: Seq<usize>, out: Seq<usize>) -> bool {
    &&& order_ok(s, out)
    &&& forall|t: usize| tips.contains(t) && is_commit_at(s, t as int) ==> out.contains(t)
    &&& forall|i: int|
        0 <= i < out.len() ==> tips.contains(#[trigger] out[i]) || exists|j: int, k: int|
            0 <= j < out.len() && 0 <= k < parents_of(s, out[j] as int).len() && out[i]
                == parents_of(s, out[j] as int)[k]
}

/// In a parents-first enumeration, each parent of the commit at position `j`
/// stands at an earlier position.
pub proof fn lemma_order_parents_first(s: Seq<Object>, out: Seq<usize>, j: int, k: int)
    requires
        store_wf(s),
        order_ok(s, out),
        0 <= j < out.len(),
        0 <= k < parents_of(s, out[j] as int).len(),
    ensures
        exists|i: int| 0 <= i < j && out[i] == parents_of(s, out[j] as int)[k],
{
    let p = parents_of(s, out[j] as int)[k];
    assert(out.contains(p));
    let i = choose|i: int| 0 <= i < out.len() && out[i] == p;
    assert(obj_wf(s, out[j] as int));
    assert(p < out[j]);
    if i > j {
        assert(out[j] < out[i]);
    }
    if i == j {
        assert(out[i] == out[j]);
    }
    assert(0 <= i < j && out[i] == p);
}

/// Enumerate, in parents-first order, every commit of the store reachable
/// from the given tips. Tips that do not name a commit of the store are
/// ignored.
pub fn revwalk(store: &Store, tips: &Vec<usize>) -> (out: Vec<usize>)
    requires
        store.wf(),
    ensures
        walk_ok(store@, tips@, out@),
{
    let ghost s = store@;
    let n = store.len();
    let mut reach: Vec<bool> = Vec::new();
    let mut i: usize = 0;
    while i < n
        invariant
            i <= n,
            reach@.len() == i,
            forall|c: int| 0 <= c < i ==> !reach@[c],
        decreases n - i,
    {
        reach.push(false);
        i += 1;
    }

    let mut ti: usize = 0;
    while ti < tips.len()
        invariant
            ti <= tips@.len(),
            reach@.len() == n,
            n == s.len(),
            forall|t: int| 0 <= t < ti && tips@[t] < n ==> reach@[tips@[t] as int],
            forall|c: int| 0 <= c < n && reach@[c] ==> tips@.contains(c as usize),
        decreases tips@.len() - ti,
    {
        let t = tips[ti];
        if t < n {
            reach.set(t, true);
        }
        ti += 1;
    }

    let mut i: usize = n;
    while i > 0
        invariant
            i <= n,
            reach@.len() == n,
            n == s.len(),
            forall|t: usize| tips@.contains(t) && t < n ==> reach@[t as int],
            forall|c: int, k: int|
                i <= c < n && reach@[c] && is_commit_at(s, c) && 0 <= k < parents_of(s, c).len()
                    ==> reach@[#[trigger] parents_of(s, c)[k] as int],
            forall|c: int|
                0 <= c < n && reach@[c] ==> tips@.contains(c as usize) || exists|d: int, k: int|
                    0 <= d < n && reach@[d] && is_commit_at(s, d) && 0 <= k < parents_of(
                        s,
                        d,
                    ).len() && c == parents_of(s, d)[k],
        decreases i,
    {
        i -= 1;
        if reach[i] {
            if store.is_commit(i) {
                let parents = &store.commit(i).parents;
                let mut k: usize = 0;
                while k < parents.len()
                    invariant
                        k <= parents@.len(),
                        parents@ == parents_of(s, i as int),
                        reach@.len() == n,
                        reach@[i as int],
                        is_commit_at(s, i as int),
                        forall|t: usize| tips@.contains(t) && t < n ==> reach@[t as int],
                        forall|j: int| 0 <= j < k ==> reach@[#[trigger] parents@[j] as int],
                        forall|c: int, k2: int|
                            i < c < n && reach@[c] && is_commit_at(s, c) && 0 <= k2 < parents_of(
                                s,
                                c,
                            ).len() ==> reach@[#[trigger] parents_of(s, c)[k2] as int],
                        forall|c: int|
                            0 <= c < n && reach@[c] ==> tips@.contains(c as usize) || exists|
                                d: int,
                                k2: int,
                            |
                                0 <= d < n && reach@[d] && is_commit_at(s, d) && 0 <= k2
                                    < parents_of(s, d).len() && c == parents_of(s, d)[k2],
                    decreases parents@.len() - k,
                {
                    let p = parents[k];
                    proof {
                        assert(obj_wf(s, i as int));
                        assert(p < i);
                    }
                    let ghost old_reach = reach@;
                    reach.set(p, true);
                    proof {
                        assert(reach@ =~= old_reach.update(p as int, true));
                        assert forall|c: int, k2: int|
                            i < c < n && reach@[c] && is_commit_at(s, c) && 0 <= k2 < parents_of(
                                s,
                                c,
                            ).len() implies reach@[#[trigger] parents_of(s, c)[k2] as int] by {
                            assert(c != p);
                            assert(old_reach[c]);
                            assert(obj_wf(s, c));
                            assert(parents_of(s, c)[k2] < c);
                            assert(old_reach[parents_of(s, c)[k2] as int]);
                        }
                        assert forall|c: int|
                            0 <= c < n && reach@[c] implies tips@.contains(c as usize) || exists|
                            d: int,
                            k2: int,
                        |
                            0 <= d < n && reach@[d] && is_commit_at(s, d) && 0 <= k2 < parents_of(
                                s,
                                d,
                            ).len() && c == parents_of(s, d)[k2] by {
                            if c == p {
                                assert(reach@[i as int]);
                                assert(parents_of(s, i as int)[k as int] == p);
                            } else {
                                assert(old_reach[c]);
                                if !tips@.contains(c as usize) {
                                    let (d, k2) = choose|d: int, k2: int|
                                        0 <= d < n && old_reach[d] && is_commit_at(s, d) && 0 <= k2
                                            < parents_of(s, d).len() && c == parents_of(s, d)[k2];
                                    assert(reach@[d]);
                                }
                            }
                        }
                    }
                    k += 1;
                }
            }
        }
    }

    let mut out: Vec<usize> = Vec::new();
    let mut id: usize = 0;
    while id < n
        invariant
            id <= n,
            n == s.len(),
            reach@.len() == n,
            forall|t: usize| tips@.contains(t) && t < n ==> reach@[t as int],
            forall|c: int, k: int|
                0 <= c < n && reach@[c] && is_commit_at(s, c) && 0 <= k < parents_of(s, c).len()
                    ==> reach@[#[trigger] parents_of(s, c)[k] as int],
            forall|c: int|
                0 <= c < n && reach@[c] ==> tips@.contains(c as usize) || exists|d: int, k: int|
                    0 <= d < n && reach@[d] && is_commit_at(s, d) && 0 <= k < parents_of(
                        s,
                        d,
                    ).len() && c == parents_of(s, d)[k],
            forall|i: int| 0 <= i < out@.len() ==> is_commit_at(s, #[trigger] out@[i] as int),
            forall|i: int| 0 <= i < out@.len() ==> out@[i] < id && reach@[out@[i] as int],
            forall|i: int, j: int| 0 <= i < j < out@.len() ==> out@[i] < out@[j],
            forall|c: int| 0 <= c < id && reach@[c] && is_commit_at(s, c) ==> out@.contains(
                c as usize,
            ),
        decreases n - id,
    {
        if reach[id] {
            if store.is_commit(id) {
                let ghost old_out = out@;
                out.push(id);
                proof {
                    assert forall|c: int|
                        0 <= c < id + 1 && reach@[c] && is_commit_at(s, c) implies out@.contains(
                        c as usize,
                    ) by {
                        if c == id {
                            assert(out@[out@.len() - 1] == id);
                        } else {
                            assert(old_out.contains(c as usize));
                            let w = choose|w: int|
                                0 <= w < old_out.len() && old_out[w] == c as usize;
                            assert(out@[w] == c as usize);
                        }
                    }
                }
            }
        }
        id += 1;
    }

    proof {
        assert forall|t: usize| tips@.contains(t) && is_commit_at(s, t as int) implies out@.contains(
            t,
        ) by {
            assert(t < n);
            assert(reach@[t as int]);
        }
        assert forall|i: int, k: int|
            0 <= i < out@.len() && 0 <= k < parents_of(s, out@[i] as int).len() implies out@.contains(
            #[trigger] parents_of(s, out@[i] as int)[k],
        ) by {
            let c = out@[i];
            let p = parents_of(s, c as int)[k];
            assert(reach@[c as int]);
            assert(is_commit_at(s, c as int));
            assert(reach@[p as int]);
            assert(obj_wf(s, c as int));
            assert(is_commit_at(s, p as int));
        }
        assert forall|i: int|
            0 <= i < out@.len() implies tips@.contains(#[trigger] out@[i]) || exists|j: int, k: int|
            0 <= j < out@.len() && 0 <= k < parents_of(s, out@[j] as int).len() && out@[i]
                == parents_of(s, out@[j] as int)[k] by {
            let c = out@[i];
            assert(reach@[c as int]);
            if !tips@.contains(c) {
                let (d, k) = choose|d: int, k: int|
                    0 <= d < n && reach@[d] && is_commit_at(s, d) && 0 <= k < parents_of(
                        s,
                        d,
                    ).len() && c as int == parents_of(s, d)[k];
                assert(out@.contains(d as usize));
                let j = choose|j: int| 0 <= j < out@.len() && out@[j] == d as usize;
                assert(parents_of(s, out@[j] as int)[k] == c);
            }
        }
    }
    out
}

} // verus!
