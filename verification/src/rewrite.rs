//! The two history rewrites and their companions: rewriting the submodule
//! history under its target directory, auditing the parent history for
//! dangling gitlinks, validating the user mappings, and retargeting branch
//! tips.

use vstd::prelude::*;

use crate::maps::{map_lookup, mappings_lookup, Mappings, RewriteMap};
use crate::store::{
    commit_at, is_commit_at, is_tree_at, obj_wf, store_wf, tree_at, Object, Store, MODE_GITLINK,
    MODE_TREE,
};
use crate::tree_edit::{
    build_prefix_chain, dir_replaced, entry_at_path, get_path, lemma_entry_at_path_extend,
    lemma_entry_at_path_wf, lemma_prefix_chain_at_path, lemma_prefix_chain_extend, path_view,
    prefix_chain_ok, replace_submodule_dir, store_prefix,
};
use crate::walk::{lemma_order_parents_first, order_ok, parents_of};

verus! {

/// Does a vector hold the value?
pub fn vec_contains(v: &Vec<usize>, x: usize) -> (r: bool)
    ensures
        r == v@.contains(x),
{
    let mut i: usize = 0;
    while i < v.len()
        invariant
            i <= v@.len(),
            forall|j: int| 0 <= j < i ==> v@[j] != x,
        decreases v@.len() - i,
    {
        if v[i] == x {
            return true;
        }
        i += 1;
    }
    false
}

/// The submodule commit `c` has been rewritten: the map carries it to a
/// fresh commit with the same author, committer and message, whose parents
/// are the images of `c`'s parents in order, and whose tree holds `c`'s tree
/// relocated under the target directory.
pub open spec fn sub_commit_rewritten(
    s_old: Seq<Object>,
    s_new: Seq<Object>,
    m: Seq<Option<usize>>,
    c: int,
    dir: Seq<Seq<u8>>,
) -> bool {
    &&& is_commit_at(s_old, c)
    &&& 0 <= c < m.len()
    &&& m[c] matches Some(n) && {
        let nc = commit_at(s_new, n as int);
        let oc = commit_at(s_old, c);
        &&& is_commit_at(s_new, n as int)
        &&& n >= s_old.len()
        &&& nc.author == oc.author
        &&& nc.committer == oc.committer
        &&& nc.message == oc.message
        &&& nc.parents@.len() == oc.parents@.len()
        &&& forall|k: int|
            0 <= k < oc.parents@.len() ==> 0 <= #[trigger] oc.parents@[k] < m.len()
                && m[oc.parents@[k] as int] == Some(nc.parents@[k])
        &&& prefix_chain_ok(s_new, nc.tree as int, dir, oc.tree)
    }
}

/// The rewriting of one commit survives later growth of the store and later
/// map entries at other keys.
pub proof fn lemma_sub_rewritten_stable(
    s_old: Seq<Object>,
    s1: Seq<Object>,
    s2: Seq<Object>,
    m1: Seq<Option<usize>>,
    m2: Seq<Option<usize>>,
    c: int,
    dir: Seq<Seq<u8>>,
)
    requires
        sub_commit_rewritten(s_old, s1, m1, c, dir),
        store_prefix(s1, s2),
        m2.len() == m1.len(),
        forall|k: int| 0 <= k < m1.len() && m1[k] is Some ==> m2[k] == m1[k],
    ensures
        sub_commit_rewritten(s_old, s2, m2, c, dir),
{
    let n = m1[c]->Some_0;
    assert(s2[n as int] == s1.subrange(0, s1.len() as int)[n as int]);
    let nc = commit_at(s1, n as int);
    let oc = commit_at(s_old, c);
    assert forall|k: int| 0 <= k < oc.parents@.len() implies 0 <= #[trigger] oc.parents@[k]
        < m2.len() && m2[oc.parents@[k] as int] == Some(nc.parents@[k]) by {
        assert(m1[oc.parents@[k] as int] == Some(nc.parents@[k]));
    }
    lemma_prefix_chain_extend(s1, s2, nc.tree as int, dir, oc.tree);
}

/// Rewrite the submodule history: for each commit of the walk, in
/// parents-first order, write a commit whose tree is the old tree relocated
/// under `dir`, and record the translation in the map. Trees shared between
/// commits are relocated once.
pub fn rewrite_submodule_history(
    store: &mut Store,
    m: &mut RewriteMap,
    order: &Vec<usize>,
    dir: &Vec<Vec<u8>>,
)
    requires
        old(store).wf(),
        order_ok(old(store)@, order@),
        old(m)@.len() == old(store)@.len(),
        forall|k: int| 0 <= k < old(m)@.len() ==> old(m)@[k] is None,
        dir@.len() > 0,
    ensures
        final(store).wf(),
        store_prefix(old(store)@, final(store)@),
        final(m)@.len() == old(m)@.len(),
        forall|i: int|
            0 <= i < order@.len() ==> sub_commit_rewritten(
                old(store)@,
                final(store)@,
                final(m)@,
                #[trigger] order@[i] as int,
                path_view(dir@),
            ),
        forall|i: int, j: int|
            0 <= i < j < order@.len() ==> final(m)@[order@[i] as int]
                != final(m)@[order@[j] as int],
        forall|k: int|
            0 <= k < final(m)@.len() && final(m)@[k] is Some ==> order@.contains(k as usize)
                || is_tree_at(old(store)@, k),
        forall|k: int|
            0 <= k < final(m)@.len() && is_tree_at(old(store)@, k) && final(m)@[k] is Some
                ==> is_tree_at(final(store)@, final(m)@[k]->Some_0 as int) && prefix_chain_ok(
                final(store)@,
                final(m)@[k]->Some_0 as int,
                path_view(dir@),
                k as usize,
            ),
{
    let ghost s0 = store@;
    let ghost pv = path_view(dir@);
    proof {
        assert(store@.subrange(0, s0.len() as int) =~= s0);
    }
    let mut idx: usize = 0;
    while idx < order.len()
        invariant
            idx <= order@.len(),
            store.wf(),
            store_prefix(s0, store@),
            m@.len() == s0.len(),
            order_ok(s0, order@),
            dir@.len() > 0,
            pv == path_view(dir@),
            pv.len() > 0,
            forall|i: int|
                0 <= i < idx ==> sub_commit_rewritten(
                    s0,
                    store@,
                    m@,
                    #[trigger] order@[i] as int,
                    pv,
                ),
            forall|i: int| idx <= i < order@.len() ==> m@[#[trigger] order@[i] as int] is None,
            forall|k: int|
                0 <= k < m@.len() && is_tree_at(s0, k) && m@[k] is Some ==> prefix_chain_ok(
                    store@,
                    m@[k]->Some_0 as int,
                    pv,
                    k as usize,
                ) && is_tree_at(store@, m@[k]->Some_0 as int),
            forall|k: int| 0 <= k < m@.len() && m@[k] is Some ==> m@[k]->Some_0 < store@.len(),
            forall|i: int, j: int|
                0 <= i < j < idx ==> m@[order@[i] as int] != m@[order@[j] as int],
            forall|k: int|
                0 <= k < m@.len() && m@[k] is Some ==> order@.contains(k as usize) || is_tree_at(
                    s0,
                    k,
                ),
        decreases order@.len() - idx,
    {
        let c = order[idx];
        proof {
            assert(is_commit_at(s0, c as int));
            assert(store@[c as int] == s0.subrange(0, s0.len() as int)[c as int]);
            assert(is_commit_at(store@, c as int));
            assert(commit_at(store@, c as int) == commit_at(s0, c as int));
        }
        let tree_old = store.commit(c).tree;
        let author = store.commit(c).author;
        let committer = store.commit(c).committer;
        let message = store.commit(c).message;
        let parents = store.commit_parent_ids(c);
        proof {
            assert(obj_wf(s0, c as int));
            assert(is_tree_at(s0, tree_old as int));
            assert(tree_old < c);
        }

        // Relocate the tree under the target directory, reusing an earlier
        // relocation of the same tree.
        let ghost s_pre = store@;
        let ghost m_pre = m@;
        let new_tree: usize;
        match m.get(tree_old) {
            Some(t) => {
                new_tree = t;
            }
            None => {
                proof {
                    assert(store@[tree_old as int] == s0.subrange(
                        0,
                        s0.len() as int,
                    )[tree_old as int]);
                    assert(is_tree_at(store@, tree_old as int));
                }
                let t = build_prefix_chain(store, dir, tree_old);
                m.set(tree_old, t);
                new_tree = t;
                proof {
                    assert forall|i: int| idx <= i < order@.len() implies m@[#[trigger] order@[i] as int] is None by {
                        assert(is_commit_at(s0, order@[i] as int));
                        assert(!is_tree_at(s0, order@[i] as int));
                    }
                    assert forall|i: int, j: int| 0 <= i < j < idx implies m@[order@[i] as int]
                        != m@[order@[j] as int] by {
                        assert(!is_tree_at(s0, order@[i] as int));
                        assert(!is_tree_at(s0, order@[j] as int));
                    }
                    assert forall|i: int| 0 <= i < idx implies sub_commit_rewritten(
                        s0,
                        store@,
                        m@,
                        #[trigger] order@[i] as int,
                        pv,
                    ) by {
                        assert(!is_tree_at(s0, order@[i] as int));
                        lemma_sub_rewritten_stable(
                            s0,
                            s_pre,
                            store@,
                            m_pre,
                            m@,
                            order@[i] as int,
                            pv,
                        );
                    }
                    assert forall|k: int|
                        0 <= k < m@.len() && is_tree_at(s0, k) && m@[k] is Some implies
                        prefix_chain_ok(store@, m@[k]->Some_0 as int, pv, k as usize)
                        && is_tree_at(store@, m@[k]->Some_0 as int) by {
                        if k == tree_old as int {
                            lemma_prefix_chain_at_path(store@, new_tree as int, pv, tree_old);
                        } else {
                            assert(m_pre[k] == m@[k]);
                            lemma_prefix_chain_extend(
                                s_pre,
                                store@,
                                m@[k]->Some_0 as int,
                                pv,
                                k as usize,
                            );
                            assert(store@[m@[k]->Some_0 as int] == s_pre.subrange(
                                0,
                                s_pre.len() as int,
                            )[m@[k]->Some_0 as int]);
                        }
                    }
                }
            }
        }
        proof {
            assert(prefix_chain_ok(store@, new_tree as int, pv, tree_old));
            assert(is_tree_at(store@, new_tree as int));
        }

        // Map the parents; each stands earlier in the walk, so it is mapped.
        let mut new_parents: Vec<usize> = Vec::new();
        let mut k: usize = 0;
        while k < parents.len()
            invariant
                k <= parents@.len(),
                parents@ == commit_at(s0, c as int).parents@,
                new_parents@.len() == k,
                order_ok(s0, order@),
                store_wf(s0),
                idx < order@.len(),
                c == order@[idx as int],
                is_commit_at(s0, c as int),
                m@.len() == s0.len(),
                store.wf(),
                forall|i: int|
                    0 <= i < idx ==> sub_commit_rewritten(
                        s0,
                        store@,
                        m@,
                        #[trigger] order@[i] as int,
                        pv,
                    ),
                forall|j: int|
                    0 <= j < k ==> 0 <= #[trigger] parents@[j] < m@.len() && m@[parents@[j] as int]
                        == Some(new_parents@[j]) && is_commit_at(store@, new_parents@[j] as int),
            decreases parents@.len() - k,
        {
            let p = parents[k];
            proof {
                lemma_order_parents_first(s0, order@, idx as int, k as int);
                let i = choose|i: int| 0 <= i < idx && order@[i] == parents_of(
                    s0,
                    c as int,
                )[k as int];
                assert(sub_commit_rewritten(s0, store@, m@, order@[i] as int, pv));
                assert(m@[p as int] is Some);
            }
            match m.get(p) {
                Some(np) => {
                    new_parents.push(np);
                    proof {
                        let i = choose|i: int| 0 <= i < idx && order@[i] == parents_of(
                            s0,
                            c as int,
                        )[k as int];
                        assert(sub_commit_rewritten(s0, store@, m@, order@[i] as int, pv));
                        assert(is_commit_at(store@, np as int));
                    }
                }
                None => {
                    vstd::pervasive::unreached::<()>();
                }
            }
            k += 1;
        }

        // Write the rewritten commit and record it.
        let ghost s_mid = store@;
        let ghost m_mid = m@;
        let ghost new_parents_v = new_parents@;
        proof {
            assert(is_tree_at(store@, new_tree as int));
            assert forall|j: int| 0 <= j < new_parents_v.len() implies is_commit_at(
                store@,
                #[trigger] new_parents_v[j] as int,
            ) by {
                assert(m@[parents@[j] as int] == Some(new_parents_v[j]));
            }
        }
        let r = store.add_commit(new_tree, new_parents, author, committer, message);
        let n = match r {
            Some(n) => n,
            None => vstd::pervasive::unreached(),
        };
        m.set(c, n);
        proof {
            assert(store@.subrange(0, s_mid.len() as int) =~= s_mid);
            assert(store@.subrange(0, s0.len() as int) =~= s0);
            assert(m_mid[c as int] is None);
            assert(order@[idx as int] == c);
            assert(order@.contains(c));
            assert forall|i: int| 0 <= i < idx + 1 implies sub_commit_rewritten(
                s0,
                store@,
                m@,
                #[trigger] order@[i] as int,
                pv,
            ) by {
                if i < idx {
                    lemma_sub_rewritten_stable(s0, s_mid, store@, m_mid, m@, order@[i] as int, pv);
                } else {
                    let nc = commit_at(store@, n as int);
                    let oc = commit_at(s0, c as int);
                    assert(nc.parents@ == new_parents_v);
                    assert forall|j: int| 0 <= j < oc.parents@.len() implies 0
                        <= #[trigger] oc.parents@[j] < m@.len() && m@[oc.parents@[j] as int]
                        == Some(nc.parents@[j]) by {
                        assert(m_mid[oc.parents@[j] as int] == Some(new_parents_v[j]));
                        assert(oc.parents@[j] < c);
                    }
                    lemma_prefix_chain_extend(s_mid, store@, new_tree as int, pv, tree_old);
                }
            }
            assert forall|kk: int|
                0 <= kk < m@.len() && is_tree_at(s0, kk) && m@[kk] is Some implies prefix_chain_ok(
                store@,
                m@[kk]->Some_0 as int,
                pv,
                kk as usize,
            ) && is_tree_at(store@, m@[kk]->Some_0 as int) by {
                assert(kk != c as int);
                assert(m_mid[kk] == m@[kk]);
                lemma_prefix_chain_extend(s_mid, store@, m@[kk]->Some_0 as int, pv, kk as usize);
                assert(store@[m@[kk]->Some_0 as int] == s_mid.subrange(
                    0,
                    s_mid.len() as int,
                )[m@[kk]->Some_0 as int]);
            }
            assert forall|i: int| idx + 1 <= i < order@.len() implies m@[#[trigger] order@[i] as int] is None by {
                assert(order@[idx as int] < order@[i]);
            }
            assert forall|i: int, j: int| 0 <= i < j < idx + 1 implies m@[order@[i] as int]
                != m@[order@[j] as int] by {
                if j == idx {
                    assert(m_mid[order@[i] as int] is Some);
                    assert(m@[order@[i] as int] == m_mid[order@[i] as int]);
                    assert(m_mid[order@[i] as int]->Some_0 < s_mid.len());
                    assert(m@[order@[j] as int] == Some(n));
                    assert(n == s_mid.len());
                }
            }
        }
        idx += 1;
    }
}

/// The gitlink target at the submodule path of commit `c`, if one stands
/// there.
pub open spec fn gitlink_at(s: Seq<Object>, c: int, dir: Seq<Seq<u8>>) -> Option<usize> {
    if is_commit_at(s, c) && is_tree_at(s, commit_at(s, c).tree as int) {
        match entry_at_path(s, commit_at(s, c).tree as int, dir) {
            Some(e) => if e.mode == MODE_GITLINK {
                Some(e.id)
            } else {
                None
            },
            None => None,
        }
    } else {
        None
    }
}

/// The commit references a submodule commit that neither the rewriting saw
/// nor the user mappings cover.
pub open spec fn is_dangling(
    s: Seq<Object>,
    m: Seq<Option<usize>>,
    pairs: Seq<(usize, usize)>,
    default: Option<usize>,
    c: int,
    dir: Seq<Seq<u8>>,
) -> bool {
    gitlink_at(s, c, dir) matches Some(g) && map_lookup(m, g) is None && mappings_lookup(pairs, g)
        is None && default is None
}

/// Some enumerated commit dangles with the target `x`.
pub open spec fn dangling_reported(
    s: Seq<Object>,
    m: Seq<Option<usize>>,
    pairs: Seq<(usize, usize)>,
    default: Option<usize>,
    order: Seq<usize>,
    dir: Seq<Seq<u8>>,
    x: usize,
) -> bool {
    exists|i: int|
        0 <= i < order.len() && is_dangling(s, m, pairs, default, #[trigger] order[i] as int, dir)
            && gitlink_at(s, order[i] as int, dir) == Some(x)
}

/// Collect every gitlink target of the enumerated history that is neither a
/// rewritten submodule commit nor covered by a mapping or the default. Each
/// target is reported once.
#[verifier::rlimit(50)]
pub fn find_dangling_references_to_submodule(
    store: &Store,
    m: &RewriteMap,
    mappings: &Mappings,
    default_mapping: Option<usize>,
    order: &Vec<usize>,
    dir: &Vec<Vec<u8>>,
) -> (r: Vec<usize>)
    requires
        store.wf(),
        forall|i: int| 0 <= i < order@.len() ==> is_commit_at(store@, #[trigger] order@[i] as int),
        dir@.len() > 0,
    ensures
        forall|i: int|
            0 <= i < order@.len() && is_dangling(
                store@,
                m@,
                mappings.pairs@,
                default_mapping,
                #[trigger] order@[i] as int,
                path_view(dir@),
            ) ==> r@.contains(gitlink_at(store@, order@[i] as int, path_view(dir@))->Some_0),
        forall|w: int|
            0 <= w < r@.len() ==> dangling_reported(
                store@,
                m@,
                mappings.pairs@,
                default_mapping,
                order@,
                path_view(dir@),
                #[trigger] r@[w],
            ),
{
    let ghost s = store@;
    let ghost pv = path_view(dir@);
    let mut r: Vec<usize> = Vec::new();
    let mut idx: usize = 0;
    while idx < order.len()
        invariant
            idx <= order@.len(),
            forall|i: int|
                0 <= i < idx && is_dangling(
                    s,
                    m@,
                    mappings.pairs@,
                    default_mapping,
                    #[trigger] order@[i] as int,
                    pv,
                ) ==> r@.contains(gitlink_at(s, order@[i] as int, pv)->Some_0),
            forall|w: int|
                0 <= w < r@.len() ==> dangling_reported(
                    s,
                    m@,
                    mappings.pairs@,
                    default_mapping,
                    order@,
                    pv,
                    #[trigger] r@[w],
                ),
        decreases order@.len() - idx,
    {
        let c = order[idx];
        let tree_c = store.commit(c).tree;
        proof {
            assert(obj_wf(s, c as int));
        }
        match get_path(store, tree_c, dir) {
            Some(e) => {
                if e.mode == MODE_GITLINK {
                    let g = e.id;
                    proof {
                        assert(gitlink_at(s, c as int, pv) == Some(g));
                    }
                    if match m.get(g) {
                        Some(_) => false,
                        None => true,
                    } && match mappings.get(g) {
                        Some(_) => false,
                        None => true,
                    } && match default_mapping {
                        Some(_) => false,
                        None => true,
                    } {
                        if !vec_contains(&r, g) {
                            let ghost old_r = r@;
                            r.push(g);
                            proof {
                                assert(r@[r@.len() - 1] == g);
                                assert(r@.contains(g));
                                assert(is_dangling(
                                    s,
                                    m@,
                                    mappings.pairs@,
                                    default_mapping,
                                    order@[idx as int] as int,
                                    pv,
                                ));
                                assert(gitlink_at(s, order@[idx as int] as int, pv) == Some(g));
                                assert(dangling_reported(
                                    s,
                                    m@,
                                    mappings.pairs@,
                                    default_mapping,
                                    order@,
                                    pv,
                                    g,
                                ));
                                assert forall|w: int| 0 <= w < r@.len() implies r@[w] == g
                                    || (0 <= w < old_r.len() && r@[w] == old_r[w]) by {}
                            }
                        }
                    }
                } else {
                    proof {
                        assert(gitlink_at(s, c as int, pv) is None);
                    }
                }
            }
            None => {
                proof {
                    assert(gitlink_at(s, c as int, pv) is None);
                }
            }
        }
        idx += 1;
    }
    r
}

/// The value `x` is asked for by the mappings or the default, yet absent
/// from the enumerated submodule history.
pub open spec fn invalid_mapping_value(
    pairs: Seq<(usize, usize)>,
    default: Option<usize>,
    sub_order: Seq<usize>,
    x: usize,
) -> bool {
    !sub_order.contains(x) && ((exists|j: int|
        0 <= j < pairs.len() && (#[trigger] pairs[j]).1 == x) || default == Some(x))
}

/// Check that every mapping value and the default, if given, stand in the
/// enumerated submodule history. The answer lists each value that does not,
/// once; an empty answer means the mappings are valid.
#[verifier::rlimit(50)]
pub fn are_mappings_valid(
    sub_order: &Vec<usize>,
    mappings: &Mappings,
    default_mapping: Option<usize>,
) -> (r: Vec<usize>)
    ensures
        forall|j: int|
            0 <= j < mappings.pairs@.len() && !sub_order@.contains(
                (#[trigger] mappings.pairs@[j]).1,
            ) ==> r@.contains(mappings.pairs@[j].1),
        match default_mapping {
            Some(d) => !sub_order@.contains(d) ==> r@.contains(d),
            None => true,
        },
        forall|w: int|
            0 <= w < r@.len() ==> invalid_mapping_value(
                mappings.pairs@,
                default_mapping,
                sub_order@,
                #[trigger] r@[w],
            ),
{
    let mut r: Vec<usize> = Vec::new();
    let mut i: usize = 0;
    while i < mappings.pairs.len()
        invariant
            i <= mappings.pairs@.len(),
            forall|j: int|
                0 <= j < i && !sub_order@.contains((#[trigger] mappings.pairs@[j]).1)
                    ==> r@.contains(mappings.pairs@[j].1),
            forall|w: int|
                0 <= w < r@.len() ==> invalid_mapping_value(
                    mappings.pairs@,
                    default_mapping,
                    sub_order@,
                    #[trigger] r@[w],
                ),
        decreases mappings.pairs@.len() - i,
    {
        let v = mappings.pairs[i].1;
        if !vec_contains(sub_order, v) && !vec_contains(&r, v) {
            let ghost old_r = r@;
            r.push(v);
            proof {
                assert(r@[r@.len() - 1] == v);
                assert(r@.contains(v));
                assert((mappings.pairs@[i as int]).1 == v);
                assert(invalid_mapping_value(
                    mappings.pairs@,
                    default_mapping,
                    sub_order@,
                    v,
                )) by {
                    assert((mappings.pairs@[i as int]).1 == v);
                }
                assert forall|w: int| 0 <= w < r@.len() implies r@[w] == v
                    || (0 <= w < old_r.len() && r@[w] == old_r[w]) by {}
            }
        }
        i += 1;
    }
    match default_mapping {
        Some(d) => {
            if !vec_contains(sub_order, d) && !vec_contains(&r, d) {
                let ghost old_r = r@;
                r.push(d);
                proof {
                    assert(r@[r@.len() - 1] == d);
                    assert(r@.contains(d));
                    assert(invalid_mapping_value(
                        mappings.pairs@,
                        default_mapping,
                        sub_order@,
                        d,
                    ));
                    assert forall|w: int| 0 <= w < r@.len() implies r@[w] == d
                        || (0 <= w < old_r.len() && r@[w] == old_r[w]) by {}
                }
            }
        }
        None => {}
    }
    r
}

/// Move each branch tip to its image under the rewrite map. The answer is
/// the retargeted tips, pointwise; nothing, when a tip has no image.
pub fn retarget_branches(m: &RewriteMap, tips: &Vec<usize>) -> (r: Option<Vec<usize>>)
    ensures
        r matches Some(v) ==> v@.len() == tips@.len() && forall|i: int|
            0 <= i < tips@.len() ==> map_lookup(m@, #[trigger] tips@[i]) == Some(v@[i]),
        r is None <==> exists|i: int|
            0 <= i < tips@.len() && map_lookup(m@, #[trigger] tips@[i]) is None,
{
    let mut out: Vec<usize> = Vec::new();
    let mut i: usize = 0;
    while i < tips.len()
        invariant
            i <= tips@.len(),
            out@.len() == i,
            forall|j: int| 0 <= j < i ==> map_lookup(m@, #[trigger] tips@[j]) == Some(out@[j]),
        decreases tips@.len() - i,
    {
        match m.get(tips[i]) {
            Some(n) => {
                out.push(n);
            }
            None => {
                return None;
            }
        }
        i += 1;
    }
    Some(out)
}

/// Why the parent rewrite stopped: a gitlink whose target could not be
/// carried to a rewritten submodule commit.
pub enum RewriteError {
    UnresolvedGitlink(usize),
}

/// The identifier standing at the submodule path of commit `c`, whatever its
/// mode.
pub open spec fn path_id_at(s: Seq<Object>, c: int, dir: Seq<Seq<u8>>) -> Option<usize> {
    if is_commit_at(s, c) && is_tree_at(s, commit_at(s, c).tree as int) {
        match entry_at_path(s, commit_at(s, c).tree as int, dir) {
            Some(e) => Some(e.id),
            None => None,
        }
    } else {
        None
    }
}

/// The commit advances the submodule: its gitlink target differs from the
/// identifier at the submodule path of every one of its parents.
pub open spec fn submodule_updated(s: Seq<Object>, c: int, dir: Seq<Seq<u8>>, g: usize) -> bool {
    forall|k: int|
        0 <= k < parents_of(s, c).len() ==> match #[trigger] path_id_at(
            s,
            parents_of(s, c)[k] as int,
            dir,
        ) {
            Some(id) => id != g,
            None => true,
        }
}

/// Carry a gitlink target towards a rewritten submodule commit: first
/// through the explicit mappings, then through the submodule rewrite map,
/// falling back to the default mapping's image.
pub open spec fn resolve_gitlink(
    sub: Seq<Option<usize>>,
    pairs: Seq<(usize, usize)>,
    default: Option<usize>,
    g: usize,
) -> Option<usize> {
    let s1 = match mappings_lookup(pairs, g) {
        Some(v) => v,
        None => g,
    };
    match map_lookup(sub, s1) {
        Some(n) => Some(n),
        None => match default {
            Some(d) => map_lookup(sub, d),
            None => None,
        },
    }
}

/// A usable submodule image: a commit of the store whose tree carries a
/// subtree at the submodule path.
pub open spec fn sub_image_ok(s: Seq<Object>, n: int, dir: Seq<Seq<u8>>) -> bool {
    &&& is_commit_at(s, n)
    &&& is_tree_at(s, commit_at(s, n).tree as int)
    &&& entry_at_path(s, commit_at(s, n).tree as int, dir) matches Some(te) && te.mode == MODE_TREE
}

/// The gitlink target resolves to a usable submodule image.
pub open spec fn resolution_good(
    s: Seq<Object>,
    sub: Seq<Option<usize>>,
    pairs: Seq<(usize, usize)>,
    default: Option<usize>,
    g: usize,
    dir: Seq<Seq<u8>>,
) -> bool {
    resolve_gitlink(sub, pairs, default, g) matches Some(n) && sub_image_ok(s, n as int, dir)
}

/// The parent-repository commit `c` has been carried over: left untouched
/// when it holds no gitlink at the submodule path, and otherwise rewritten to
/// a fresh commit with the same author, committer and message, whose tree has
/// the gitlink replaced by the resolved submodule image's subtree with the
/// absorbed `.gitmodules` stanza removed, and with the image appended as an
/// extra parent exactly when the commit advanced the submodule.
pub open spec fn parent_commit_rewritten(
    s_old: Seq<Object>,
    s_new: Seq<Object>,
    m: Seq<Option<usize>>,
    sub: Seq<Option<usize>>,
    pairs: Seq<(usize, usize)>,
    default: Option<usize>,
    c: int,
    dir: Seq<Seq<u8>>,
) -> bool {
    &&& is_commit_at(s_old, c)
    &&& 0 <= c < m.len()
    &&& match gitlink_at(s_old, c, dir) {
        None => m[c] == Some(c as usize),
        Some(g) => {
            &&& resolution_good(s_old, sub, pairs, default, g, dir)
            &&& m[c] matches Some(n) && {
                let nc = commit_at(s_new, n as int);
                let oc = commit_at(s_old, c);
                let rsub = resolve_gitlink(sub, pairs, default, g)->Some_0;
                let rte = entry_at_path(
                    s_old,
                    commit_at(s_old, rsub as int).tree as int,
                    dir,
                )->Some_0;
                let upd = submodule_updated(s_old, c, dir, g);
                &&& n >= s_old.len()
                &&& is_commit_at(s_new, n as int)
                &&& nc.author == oc.author
                &&& nc.committer == oc.committer
                &&& nc.message == oc.message
                &&& entry_at_path(s_new, nc.tree as int, dir) matches Some(e2) && e2.mode
                    == MODE_TREE && e2.id == rte.id
                &&& nc.parents@.len() == oc.parents@.len() + (if upd {
                    1int
                } else {
                    0int
                })
                &&& forall|k: int|
                    0 <= k < oc.parents@.len() ==> 0 <= #[trigger] oc.parents@[k] < m.len()
                        && m[oc.parents@[k] as int] == Some(nc.parents@[k])
                &&& (upd ==> nc.parents@.last() == rsub)
                &&& exists|s_a: Seq<Object>, s_b: Seq<Object>|
                    store_prefix(s_old, s_a) && store_prefix(s_b, s_new) && store_wf(s_a)
                        && #[trigger] dir_replaced(
                        s_a,
                        oc.tree as int,
                        dir,
                        rte.id,
                        s_b,
                        nc.tree as int,
                    )
            }
        },
    }
}

/// The carrying-over of one commit survives later growth of the store and a
/// later map entry at a strictly larger key.
proof fn lemma_parent_rewritten_stable(
    s_old: Seq<Object>,
    s1: Seq<Object>,
    s2: Seq<Object>,
    m1: Seq<Option<usize>>,
    m2: Seq<Option<usize>>,
    sub: Seq<Option<usize>>,
    pairs: Seq<(usize, usize)>,
    default: Option<usize>,
    c: int,
    dir: Seq<Seq<u8>>,
)
    requires
        store_wf(s_old),
        store_wf(s1),
        parent_commit_rewritten(s_old, s1, m1, sub, pairs, default, c, dir),
        store_prefix(s1, s2),
        m2.len() == m1.len(),
        forall|k: int| 0 <= k <= c ==> m2[k] == m1[k],
    ensures
        parent_commit_rewritten(s_old, s2, m2, sub, pairs, default, c, dir),
{
    assert(obj_wf(s_old, c));
    match gitlink_at(s_old, c, dir) {
        None => {
            assert(m2[c] == m1[c]);
        }
        Some(g) => {
            let n = m1[c]->Some_0;
            assert(s2[n as int] == s1.subrange(0, s1.len() as int)[n as int]);
            let nc = commit_at(s1, n as int);
            let oc = commit_at(s_old, c);
            assert(obj_wf(s1, n as int));
            assert(is_tree_at(s1, nc.tree as int));
            lemma_entry_at_path_extend(s1, s2, nc.tree as int, dir);
            assert forall|k: int| 0 <= k < oc.parents@.len() implies 0 <= #[trigger] oc.parents@[k]
                < m2.len() && m2[oc.parents@[k] as int] == Some(nc.parents@[k]) by {
                assert(m1[oc.parents@[k] as int] == Some(nc.parents@[k]));
                assert(oc.parents@[k] < c);
            }
            let rsub = resolve_gitlink(sub, pairs, default, g)->Some_0;
            let rte = entry_at_path(
                s_old,
                commit_at(s_old, rsub as int).tree as int,
                dir,
            )->Some_0;
            let (s_a, s_b) = choose|s_a: Seq<Object>, s_b: Seq<Object>|
                store_prefix(s_old, s_a) && store_prefix(s_b, s1) && store_wf(s_a)
                    && #[trigger] dir_replaced(
                    s_a,
                    oc.tree as int,
                    dir,
                    rte.id,
                    s_b,
                    nc.tree as int,
                );
            assert(store_prefix(s_b, s2)) by {
                assert(s2.subrange(0, s_b.len() as int) =~= s1.subrange(0, s_b.len() as int));
            }
        }
    }
}

/// Rewrite the parent history. A commit without the gitlink at the submodule
/// path maps to itself; one with the gitlink is rebuilt: the gitlink becomes
/// the resolved submodule image's subtree, the absorbed `.gitmodules` stanza
/// disappears, and on a genuine submodule advance the image joins the
/// parents. The walk stops at the first gitlink that cannot be resolved.
#[verifier::rlimit(100)]
#[verifier::spinoff_prover]
pub fn rewrite_repo_history(
    store: &mut Store,
    m: &mut RewriteMap,
    sub_map: &RewriteMap,
    mappings: &Mappings,
    default_mapping: Option<usize>,
    order: &Vec<usize>,
    dir: &Vec<Vec<u8>>,
) -> (r: Result<(), RewriteError>)
    requires
        old(store).wf(),
        order_ok(old(store)@, order@),
        forall|i: int| 0 <= i < order@.len() ==> #[trigger] order@[i] < old(m)@.len(),
        dir@.len() > 0,
    ensures
        final(store).wf(),
        store_prefix(old(store)@, final(store)@),
        final(m)@.len() == old(m)@.len(),
        r is Ok <==> (forall|i: int|
            0 <= i < order@.len() ==> match gitlink_at(
                old(store)@,
                #[trigger] order@[i] as int,
                path_view(dir@),
            ) {
                Some(g) => resolution_good(
                    old(store)@,
                    sub_map@,
                    mappings.pairs@,
                    default_mapping,
                    g,
                    path_view(dir@),
                ),
                None => true,
            }),
        r is Ok ==> forall|i: int|
            0 <= i < order@.len() ==> parent_commit_rewritten(
                old(store)@,
                final(store)@,
                final(m)@,
                sub_map@,
                mappings.pairs@,
                default_mapping,
                #[trigger] order@[i] as int,
                path_view(dir@),
            ),
        r matches Err(RewriteError::UnresolvedGitlink(g)) ==> exists|i: int|
            0 <= i < order@.len() && gitlink_at(
                old(store)@,
                #[trigger] order@[i] as int,
                path_view(dir@),
            ) == Some(g) && !resolution_good(
                old(store)@,
                sub_map@,
                mappings.pairs@,
                default_mapping,
                g,
                path_view(dir@),
            ),
{
    let ghost s0 = store@;
    let ghost pv = path_view(dir@);
    let ghost pairs = mappings.pairs@;
    let entry_len = store.len();
    proof {
        assert(store@.subrange(0, s0.len() as int) =~= s0);
    }
    let mut idx: usize = 0;
    while idx < order.len()
        invariant
            idx <= order@.len(),
            store.wf(),
            store_prefix(s0, store@),
            m@.len() == old(m)@.len(),
            entry_len == s0.len(),
            order_ok(s0, order@),
            forall|i: int| 0 <= i < order@.len() ==> #[trigger] order@[i] < m@.len(),
            dir@.len() > 0,
            pv == path_view(dir@),
            pv.len() > 0,
            pairs == mappings.pairs@,
            forall|i: int|
                0 <= i < idx ==> parent_commit_rewritten(
                    s0,
                    store@,
                    m@,
                    sub_map@,
                    pairs,
                    default_mapping,
                    #[trigger] order@[i] as int,
                    pv,
                ),
        decreases order@.len() - idx,
    {
        let c = order[idx];
        proof {
            assert(is_commit_at(s0, c as int));
            assert(store@[c as int] == s0.subrange(0, s0.len() as int)[c as int]);
            assert(commit_at(store@, c as int) == commit_at(s0, c as int));
            assert(obj_wf(s0, c as int));
        }
        let tree_c = store.commit(c).tree;
        let author = store.commit(c).author;
        let committer = store.commit(c).committer;
        let message = store.commit(c).message;
        proof {
            assert(is_tree_at(s0, tree_c as int));
            lemma_entry_at_path_extend(s0, store@, tree_c as int, pv);
        }
        let link = match get_path(store, tree_c, dir) {
            Some(e) => if e.mode == MODE_GITLINK {
                Some(e.id)
            } else {
                None
            },
            None => None,
        };
        let ghost m_pre = m@;
        let ghost s_pre = store@;
        match link {
            None => {
                proof {
                    assert(gitlink_at(s0, c as int, pv) is None);
                }
                m.set(c, c);
                proof {
                    assert(store@.subrange(0, s_pre.len() as int) =~= s_pre);
                    assert forall|i: int| 0 <= i < idx + 1 implies parent_commit_rewritten(
                        s0,
                        store@,
                        m@,
                        sub_map@,
                        pairs,
                        default_mapping,
                        #[trigger] order@[i] as int,
                        pv,
                    ) by {
                        if i < idx {
                            assert(order@[i] < c);
                            lemma_parent_rewritten_stable(
                                s0,
                                s_pre,
                                store@,
                                m_pre,
                                m@,
                                sub_map@,
                                pairs,
                                default_mapping,
                                order@[i] as int,
                                pv,
                            );
                        } else {
                            assert(m@[c as int] == Some(c));
                        }
                    }
                }
            }
            Some(g) => {
                proof {
                    assert(gitlink_at(s0, c as int, pv) == Some(g));
                }
                // Resolve the target to a rewritten submodule commit.
                let s1v = match mappings.get(g) {
                    Some(v) => v,
                    None => g,
                };
                let n_sub_opt: Option<usize> = match sub_map.get(s1v) {
                    Some(n) => Some(n),
                    None => match default_mapping {
                        Some(d) => sub_map.get(d),
                        None => None,
                    },
                };
                proof {
                    assert(n_sub_opt == resolve_gitlink(sub_map@, pairs, default_mapping, g));
                }
                let n_sub = match n_sub_opt {
                    Some(n) => n,
                    None => {
                        proof {
                            assert(!resolution_good(s0, sub_map@, pairs, default_mapping, g, pv));
                        }
                        return Err(RewriteError::UnresolvedGitlink(g));
                    }
                };
                if !(n_sub < entry_len && store.is_commit(n_sub)) {
                    proof {
                        if n_sub < s0.len() {
                            assert(store@[n_sub as int] == s0.subrange(
                                0,
                                s0.len() as int,
                            )[n_sub as int]);
                        }
                        assert(!is_commit_at(s0, n_sub as int));
                        assert(!resolution_good(s0, sub_map@, pairs, default_mapping, g, pv));
                    }
                    return Err(RewriteError::UnresolvedGitlink(g));
                }
                proof {
                    assert(store@[n_sub as int] == s0.subrange(0, s0.len() as int)[n_sub as int]);
                    assert(is_commit_at(s0, n_sub as int));
                    assert(commit_at(store@, n_sub as int) == commit_at(s0, n_sub as int));
                    assert(obj_wf(s0, n_sub as int));
                }
                let rtree = store.commit(n_sub).tree;
                proof {
                    assert(is_tree_at(s0, rtree as int));
                    lemma_entry_at_path_extend(s0, store@, rtree as int, pv);
                }
                let subtree_id = match get_path(store, rtree, dir) {
                    Some(te) => {
                        if te.mode == MODE_TREE {
                            te.id
                        } else {
                            proof {
                                assert(!sub_image_ok(s0, n_sub as int, pv));
                                assert(!resolution_good(
                                    s0,
                                    sub_map@,
                                    pairs,
                                    default_mapping,
                                    g,
                                    pv,
                                ));
                            }
                            return Err(RewriteError::UnresolvedGitlink(g));
                        }
                    }
                    None => {
                        proof {
                            assert(!sub_image_ok(s0, n_sub as int, pv));
                            assert(!resolution_good(s0, sub_map@, pairs, default_mapping, g, pv));
                        }
                        return Err(RewriteError::UnresolvedGitlink(g));
                    }
                };
                proof {
                    assert(sub_image_ok(s0, n_sub as int, pv));
                    assert(resolution_good(s0, sub_map@, pairs, default_mapping, g, pv));
                    assert(entry_at_path(s0, rtree as int, pv)->Some_0.id == subtree_id);
                    lemma_entry_at_path_wf(s0, rtree as int, pv);
                    assert(is_tree_at(s0, subtree_id as int));
                    assert(store@[subtree_id as int] == s0.subrange(
                        0,
                        s0.len() as int,
                    )[subtree_id as int]);
                    assert(is_tree_at(store@, subtree_id as int));
                    assert(store@[tree_c as int] == s0.subrange(0, s0.len() as int)[tree_c as int]);
                    assert(is_tree_at(store@, tree_c as int));
                }
                let new_tree_root = replace_submodule_dir(store, tree_c, dir, subtree_id);
                let ghost s_rep = store@;
                proof {
                    assert(store@.subrange(0, s0.len() as int) =~= s0);
                    assert(store@.subrange(0, s_pre.len() as int) =~= s_pre);
                    assert forall|i: int| 0 <= i < idx implies parent_commit_rewritten(
                        s0,
                        s_rep,
                        m@,
                        sub_map@,
                        pairs,
                        default_mapping,
                        #[trigger] order@[i] as int,
                        pv,
                    ) by {
                        lemma_parent_rewritten_stable(
                            s0,
                            s_pre,
                            s_rep,
                            m_pre,
                            m@,
                            sub_map@,
                            pairs,
                            default_mapping,
                            order@[i] as int,
                            pv,
                        );
                    }
                }

                // Does this commit advance the submodule?
                let parents = store.commit_parent_ids(c);
                proof {
                    assert(parents@ == parents_of(s0, c as int));
                }
                let mut upd = true;
                let mut k: usize = 0;
                while k < parents.len()
                    invariant
                        k <= parents@.len(),
                        parents@ == parents_of(s0, c as int),
                        store.wf(),
                        store_prefix(s0, store@),
                        store@ == s_rep,
                        is_commit_at(s0, c as int),
                        obj_wf(s0, c as int),
                        pv.len() > 0,
                        upd <==> (forall|j: int|
                            0 <= j < k ==> match #[trigger] path_id_at(
                                s0,
                                parents@[j] as int,
                                pv,
                            ) {
                                Some(id) => id != g,
                                None => true,
                            }),
                    decreases parents@.len() - k,
                {
                    let p = parents[k];
                    proof {
                        assert(parents_of(s0, c as int)[k as int] == p);
                        assert(p < c && is_commit_at(s0, p as int));
                        assert(store@[p as int] == s0.subrange(0, s0.len() as int)[p as int]);
                        assert(commit_at(store@, p as int) == commit_at(s0, p as int));
                        assert(obj_wf(s0, p as int));
                    }
                    let ptree = store.commit(p).tree;
                    proof {
                        assert(is_tree_at(s0, ptree as int));
                        lemma_entry_at_path_extend(s0, store@, ptree as int, pv);
                    }
                    match get_path(store, ptree, dir) {
                        Some(pe) => {
                            proof {
                                assert(path_id_at(s0, p as int, pv) == Some(pe.id));
                            }
                            if pe.id == g {
                                upd = false;
                            }
                        }
                        None => {
                            proof {
                                assert(path_id_at(s0, p as int, pv) is None);
                            }
                        }
                    }
                    k += 1;
                }
                proof {
                    assert(upd <==> submodule_updated(s0, c as int, pv, g));
                }

                // Map the parents; each stands earlier in the walk.
                let mut new_parents: Vec<usize> = Vec::new();
                let mut k2: usize = 0;
                while k2 < parents.len()
                    invariant
                        k2 <= parents@.len(),
                        parents@ == parents_of(s0, c as int),
                        new_parents@.len() == k2,
                        order_ok(s0, order@),
                        store_wf(s0),
                        store.wf(),
                        store@ == s_rep,
                        store_prefix(s0, store@),
                        m@ == m_pre,
                        m@.len() == old(m)@.len(),
                        idx < order@.len(),
                        c == order@[idx as int],
                        is_commit_at(s0, c as int),
                        pv.len() > 0,
                        pairs == mappings.pairs@,
                        forall|i: int|
                            0 <= i < idx ==> parent_commit_rewritten(
                                s0,
                                store@,
                                m@,
                                sub_map@,
                                pairs,
                                default_mapping,
                                #[trigger] order@[i] as int,
                                pv,
                            ),
                        forall|j: int|
                            0 <= j < k2 ==> 0 <= #[trigger] parents@[j] < m@.len()
                                && m@[parents@[j] as int] == Some(new_parents@[j]) && is_commit_at(
                                store@,
                                new_parents@[j] as int,
                            ),
                    decreases parents@.len() - k2,
                {
                    let p = parents[k2];
                    proof {
                        lemma_order_parents_first(s0, order@, idx as int, k2 as int);
                        let i = choose|i: int|
                            0 <= i < idx && order@[i] == parents_of(s0, c as int)[k2 as int];
                        assert(parent_commit_rewritten(
                            s0,
                            store@,
                            m@,
                            sub_map@,
                            pairs,
                            default_mapping,
                            order@[i] as int,
                            pv,
                        ));
                        assert(m@[p as int] is Some);
                        if gitlink_at(s0, p as int, pv) is None {
                            assert(m@[p as int] == Some(p));
                            assert(store@[p as int] == s0.subrange(0, s0.len() as int)[p as int]);
                            assert(is_commit_at(store@, p as int));
                        }
                    }
                    match m.get(p) {
                        Some(np) => {
                            new_parents.push(np);
                            proof {
                                let i = choose|i: int|
                                    0 <= i < idx && order@[i] == parents_of(
                                        s0,
                                        c as int,
                                    )[k2 as int];
                                assert(parent_commit_rewritten(
                                    s0,
                                    store@,
                                    m@,
                                    sub_map@,
                                    pairs,
                                    default_mapping,
                                    order@[i] as int,
                                    pv,
                                ));
                                assert(is_commit_at(store@, np as int));
                            }
                        }
                        None => {
                            vstd::pervasive::unreached::<()>();
                        }
                    }
                    k2 += 1;
                }
                if upd {
                    proof {
                        assert(store@[n_sub as int] == s0.subrange(
                            0,
                            s0.len() as int,
                        )[n_sub as int]);
                        assert(is_commit_at(store@, n_sub as int));
                    }
                    new_parents.push(n_sub);
                }

                // Write the rewritten commit and record it.
                let ghost s_mid = store@;
                let ghost new_parents_v = new_parents@;
                proof {
                    assert(is_tree_at(store@, new_tree_root as int));
                    assert forall|j: int| 0 <= j < new_parents_v.len() implies is_commit_at(
                        store@,
                        #[trigger] new_parents_v[j] as int,
                    ) by {
                        if j < parents@.len() {
                            assert(m@[parents@[j] as int] == Some(new_parents_v[j]));
                        } else {
                            assert(new_parents_v[j] == n_sub);
                        }
                    }
                }
                let rr = store.add_commit(new_tree_root, new_parents, author, committer, message);
                let n = match rr {
                    Some(n) => n,
                    None => vstd::pervasive::unreached(),
                };
                m.set(c, n);
                proof {
                    assert(store@.subrange(0, s_mid.len() as int) =~= s_mid);
                    assert(store@.subrange(0, s_rep.len() as int) =~= s_rep);
                    assert(store@.subrange(0, s0.len() as int) =~= s0);
                    assert(m@ =~= m_pre.update(c as int, Some(n)));
                    assert forall|i: int| 0 <= i < idx + 1 implies parent_commit_rewritten(
                        s0,
                        store@,
                        m@,
                        sub_map@,
                        pairs,
                        default_mapping,
                        #[trigger] order@[i] as int,
                        pv,
                    ) by {
                        if i < idx {
                            assert(order@[i] < c);
                            lemma_parent_rewritten_stable(
                                s0,
                                s_rep,
                                store@,
                                m_pre,
                                m@,
                                sub_map@,
                                pairs,
                                default_mapping,
                                order@[i] as int,
                                pv,
                            );
                        } else {
                            let nc = commit_at(store@, n as int);
                            let oc = commit_at(s0, c as int);
                            assert(nc.parents@ == new_parents_v);
                            assert(nc.tree == new_tree_root);
                            assert(obj_wf(store@, n as int));
                            lemma_entry_at_path_extend(s_rep, store@, new_tree_root as int, pv);
                            assert(entry_at_path(store@, new_tree_root as int, pv)
                                matches Some(e2) && e2.mode == MODE_TREE && e2.id == subtree_id);
                            assert forall|j: int| 0 <= j < oc.parents@.len() implies 0
                                <= #[trigger] oc.parents@[j] < m@.len() && m@[oc.parents@[j] as int]
                                == Some(nc.parents@[j]) by {
                                assert(m_pre[oc.parents@[j] as int] == Some(new_parents_v[j]));
                                assert(oc.parents@[j] < c);
                            }
                            assert(store_prefix(s0, s_pre));
                            assert(store_prefix(s_rep, store@));
                            assert(dir_replaced(
                                s_pre,
                                oc.tree as int,
                                pv,
                                subtree_id,
                                s_rep,
                                new_tree_root as int,
                            ));
                            assert(entry_at_path(s0, rtree as int, pv)->Some_0.id == subtree_id);
                        }
                    }
                }
            }
        }
        idx += 1;
    }
    proof {
        assert forall|i: int| 0 <= i < order@.len() implies match gitlink_at(
            s0,
            #[trigger] order@[i] as int,
            pv,
        ) {
            Some(g) => resolution_good(s0, sub_map@, pairs, default_mapping, g, pv),
            None => true,
        } by {
            assert(parent_commit_rewritten(
                s0,
                store@,
                m@,
                sub_map@,
                pairs,
                default_mapping,
                order@[i] as int,
                pv,
            ));
        }
    }
    Ok(())
}

/// A commit that advanced the submodule gains exactly one parent, the
/// resolved submodule image, and the image's tree carries at the submodule
/// path the very subtree that the rewritten commit's own tree carries there.
pub proof fn lemma_update_parent_matches_subtree(
    s_old: Seq<Object>,
    s_new: Seq<Object>,
    m: Seq<Option<usize>>,
    sub: Seq<Option<usize>>,
    pairs: Seq<(usize, usize)>,
    default: Option<usize>,
    c: int,
    dir: Seq<Seq<u8>>,
)
    requires
        store_wf(s_old),
        store_prefix(s_old, s_new),
        parent_commit_rewritten(s_old, s_new, m, sub, pairs, default, c, dir),
        gitlink_at(s_old, c, dir) is Some,
        submodule_updated(s_old, c, dir, gitlink_at(s_old, c, dir)->Some_0),
    ensures
        m[c] matches Some(n) && {
            let nc = commit_at(s_new, n as int);
            let rsub = nc.parents@.last();
            &&& nc.parents@.len() == parents_of(s_old, c).len() + 1
            &&& entry_at_path(s_new, nc.tree as int, dir) matches Some(e2) && (e2.mode == MODE_TREE
                && (entry_at_path(s_new, commit_at(s_new, rsub as int).tree as int, dir)
                matches Some(e3) && e3.id == e2.id))
        },
{
    let g = gitlink_at(s_old, c, dir)->Some_0;
    let n = m[c]->Some_0;
    let nc = commit_at(s_new, n as int);
    let rsub = resolve_gitlink(sub, pairs, default, g)->Some_0;
    assert(sub_image_ok(s_old, rsub as int, dir));
    assert(is_commit_at(s_old, rsub as int));
    assert(s_new[rsub as int] == s_old.subrange(0, s_old.len() as int)[rsub as int]);
    assert(commit_at(s_new, rsub as int) == commit_at(s_old, rsub as int));
    let rt = commit_at(s_old, rsub as int).tree as int;
    assert(is_tree_at(s_old, rt));
    lemma_entry_at_path_extend(s_old, s_new, rt, dir);
    assert(nc.parents@.last() == rsub);
}

/// In every rewritten parent commit, `.gitmodules` lacks the absorbed
/// stanza: the entry is gone entirely, or it is a file whose content
/// concatenates lines among which no header opens `submodule "<basename>"`.
/// Holds when the submodule path does not itself begin with `.gitmodules`
/// and the commit's root tree carries at most one `.gitmodules` entry, a
/// file.
pub proof fn lemma_rewritten_commit_gitmodules(
    s_old: Seq<Object>,
    s_new: Seq<Object>,
    m: Seq<Option<usize>>,
    sub: Seq<Option<usize>>,
    pairs: Seq<(usize, usize)>,
    default: Option<usize>,
    c: int,
    dir: Seq<Seq<u8>>,
)
    requires
        store_wf(s_old),
        store_prefix(s_old, s_new),
        parent_commit_rewritten(s_old, s_new, m, sub, pairs, default, c, dir),
        gitlink_at(s_old, c, dir) is Some,
        dir.len() > 0,
        dir[0] != crate::gitmodules::gitmodules_name(),
        forall|i: int, j: int|
            0 <= i < j < tree_at(s_old, commit_at(s_old, c).tree as int).entries@.len() ==> !((
            #[trigger] tree_at(s_old, commit_at(s_old, c).tree as int).entries@[i]).name@
                == crate::gitmodules::gitmodules_name() && (#[trigger] tree_at(
                s_old,
                commit_at(s_old, c).tree as int,
            ).entries@[j]).name@ == crate::gitmodules::gitmodules_name()),
        forall|i: int|
            0 <= i < tree_at(s_old, commit_at(s_old, c).tree as int).entries@.len() && (
            #[trigger] tree_at(s_old, commit_at(s_old, c).tree as int).entries@[i]).name@
                == crate::gitmodules::gitmodules_name() ==> tree_at(
                s_old,
                commit_at(s_old, c).tree as int,
            ).entries@[i].mode != MODE_TREE && tree_at(
                s_old,
                commit_at(s_old, c).tree as int,
            ).entries@[i].mode != MODE_GITLINK,
    ensures
        m[c] matches Some(n) && {
            let nt = commit_at(s_new, n as int).tree as int;
            let ne = tree_at(s_new, nt).entries@;
            let k = crate::tree_edit::first_index_named(ne, crate::gitmodules::gitmodules_name());
            ||| k == -1
            ||| (0 <= k < ne.len() && crate::store::is_blob_at(s_new, ne[k].id as int) && exists|
                ed: Seq<Seq<u8>>,
            |
                crate::store::blob_at(s_new, ne[k].id as int).data@ == #[trigger] ed.flatten()
                    && !crate::gitmodules::has_target(
                    ed,
                    crate::gitmodules::section_for(dir.last()),
                ))
        },
{
    let g = gitlink_at(s_old, c, dir)->Some_0;
    let n = m[c]->Some_0;
    let nc = commit_at(s_new, n as int);
    let oc = commit_at(s_old, c);
    let rsub = resolve_gitlink(sub, pairs, default, g)->Some_0;
    let rte = entry_at_path(s_old, commit_at(s_old, rsub as int).tree as int, dir)->Some_0;
    let (s_a, s_b) = choose|s_a: Seq<Object>, s_b: Seq<Object>|
        store_prefix(s_old, s_a) && store_prefix(s_b, s_new) && store_wf(s_a)
            && #[trigger] dir_replaced(s_a, oc.tree as int, dir, rte.id, s_b, nc.tree as int);
    assert(obj_wf(s_old, c));
    assert(is_tree_at(s_old, oc.tree as int));
    assert(s_a[oc.tree as int] == s_old.subrange(0, s_old.len() as int)[oc.tree as int]);
    assert(tree_at(s_a, oc.tree as int) == tree_at(s_old, oc.tree as int));
    assert(is_tree_at(s_a, oc.tree as int));
    crate::tree_edit::lemma_dir_replaced_gitmodules(
        s_a,
        oc.tree as int,
        dir,
        rte.id,
        s_b,
        nc.tree as int,
    );
    assert(s_new[nc.tree as int] == s_b.subrange(0, s_b.len() as int)[nc.tree as int]);
    assert(tree_at(s_new, nc.tree as int) == tree_at(s_b, nc.tree as int));
    let ne = tree_at(s_b, nc.tree as int).entries@;
    let k = crate::tree_edit::first_index_named(ne, crate::gitmodules::gitmodules_name());
    if k != -1 {
        crate::tree_edit::lemma_first_index_named(ne, crate::gitmodules::gitmodules_name());
        if 0 <= k < ne.len() && crate::store::is_blob_at(s_b, ne[k].id as int) {
            let b = ne[k].id;
            assert(s_new[b as int] == s_b.subrange(0, s_b.len() as int)[b as int]);
            assert(crate::store::is_blob_at(s_new, b as int));
        }
    }
}

} // verus!
