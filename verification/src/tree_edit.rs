//! Pure tree transformations: looking an entry up along a path, relocating a
//! tree under a directory prefix, and splicing a replacement subtree at a
//! path. Each transformation writes new trees; existing objects are never
//! touched.

use vstd::prelude::*;

use crate::gitmodules::{
    all_blank, edit_gitmodules_blob, edit_lines, gitmodules_name, has_target,
    lemma_edit_removes_target, lemma_lines_flatten_roundtrip, lines_of, section_for, BlobEdit,
};
use crate::store::{
    blob_at, bytes_eq, clone_bytes, clone_entry, entries_ok, entry_wf, is_blob_at, is_tree_at,
    obj_wf, store_wf, tree_at, Blob, Object, Store, TreeEntry, MODE_GITLINK, MODE_TREE,
};

verus! {

/// The views of a list of path segments.
pub open spec fn path_view(p: Seq<Vec<u8>>) -> Seq<Seq<u8>> {
    p.map_values(|v: Vec<u8>| v@)
}

/// Two entries with the same name, mode and child.
pub open spec fn entry_same(a: TreeEntry, b: TreeEntry) -> bool {
    a.name@ == b.name@ && a.mode == b.mode && a.id == b.id
}

/// The position of the first entry called `name`, or -1.
pub open spec fn first_index_named(es: Seq<TreeEntry>, name: Seq<u8>) -> int
    decreases es.len(),
{
    if es.len() == 0 {
        -1
    } else if es[0].name@ == name {
        0
    } else {
        let r = first_index_named(es.drop_first(), name);
        if r == -1 {
            -1
        } else {
            r + 1
        }
    }
}

/// `first_index_named` finds the first entry with the given name, and -1
/// exactly when there is none.
pub proof fn lemma_first_index_named(es: Seq<TreeEntry>, name: Seq<u8>)
    ensures
        first_index_named(es, name) == -1 ==> forall|j: int|
            0 <= j < es.len() ==> (#[trigger] es[j]).name@ != name,
        first_index_named(es, name) != -1 ==> {
            let r = first_index_named(es, name);
            &&& 0 <= r < es.len()
            &&& es[r].name@ == name
            &&& forall|j: int| 0 <= j < r ==> (#[trigger] es[j]).name@ != name
        },
    decreases es.len(),
{
    if es.len() == 0 {
    } else if es[0].name@ == name {
    } else {
        lemma_first_index_named(es.drop_first(), name);
        let r = first_index_named(es.drop_first(), name);
        if r == -1 {
            assert forall|j: int| 0 <= j < es.len() implies (#[trigger] es[j]).name@ != name by {
                if j > 0 {
                    assert(es.drop_first()[j - 1] == es[j]);
                }
            }
        } else {
            assert(es.drop_first()[r] == es[r + 1]);
            assert forall|j: int| 0 <= j < r + 1 implies (#[trigger] es[j]).name@ != name by {
                if j > 0 {
                    assert(es.drop_first()[j - 1] == es[j]);
                }
            }
        }
    }
}

/// The entry a path of segments leads to, descending through subtrees from
/// the tree `t`. The lookup answers nothing when a segment is missing or an
/// intermediate entry is not a subtree.
pub open spec fn entry_at_path(s: Seq<Object>, t: int, path: Seq<Seq<u8>>) -> Option<TreeEntry>
    recommends
        is_tree_at(s, t),
    decreases path.len(),
{
    if path.len() == 0 {
        None
    } else {
        let es = tree_at(s, t).entries@;
        let k = first_index_named(es, path[0]);
        if k == -1 {
            None
        } else {
            let e = es[k];
            if path.len() == 1 {
                Some(e)
            } else if e.mode == MODE_TREE && is_tree_at(s, e.id as int) {
                entry_at_path(s, e.id as int, path.drop_first())
            } else {
                None
            }
        }
    }
}

/// Extending the store does not change what stands at a path of an existing
/// tree.
pub proof fn lemma_entry_at_path_extend(s1: Seq<Object>, s2: Seq<Object>, t: int, path: Seq<Seq<u8>>)
    requires
        store_wf(s1),
        is_tree_at(s1, t),
        s2.len() >= s1.len(),
        s2.subrange(0, s1.len() as int) == s1,
    ensures
        is_tree_at(s2, t),
        entry_at_path(s2, t, path) == entry_at_path(s1, t, path),
    decreases path.len(),
{
    assert(s2[t] == s1.subrange(0, s1.len() as int)[t]);
    if path.len() == 0 {
    } else {
        let es = tree_at(s1, t).entries@;
        let k = first_index_named(es, path[0]);
        if k != -1 {
            lemma_first_index_named(es, path[0]);
            let e = es[k];
            if path.len() == 1 {
            } else if e.mode == MODE_TREE {
                assert(obj_wf(s1, t));
                assert(entry_wf(s1, t, e));
                assert(s2[e.id as int] == s1.subrange(0, s1.len() as int)[e.id as int]);
                lemma_entry_at_path_extend(s1, s2, e.id as int, path.drop_first());
            }
        }
    }
}

/// In a well-formed store, a subtree entry found at a path names a stored
/// tree.
pub proof fn lemma_entry_at_path_wf(s: Seq<Object>, t: int, path: Seq<Seq<u8>>)
    requires
        store_wf(s),
        is_tree_at(s, t),
        entry_at_path(s, t, path) matches Some(e) && e.mode == MODE_TREE,
    ensures
        entry_at_path(s, t, path) matches Some(e) && is_tree_at(s, e.id as int) && e.id < t,
    decreases path.len(),
{
    let es = tree_at(s, t).entries@;
    let k = first_index_named(es, path[0]);
    lemma_first_index_named(es, path[0]);
    let e = es[k];
    assert(obj_wf(s, t));
    if path.len() == 1 {
        assert(entry_wf(s, t, e));
    } else {
        assert(entry_wf(s, t, e));
        lemma_entry_at_path_wf(s, e.id as int, path.drop_first());
    }
}

/// A chain of single-entry trees leading along `path` from `root` down to the
/// tree `inner`.
pub open spec fn prefix_chain_ok(
    s: Seq<Object>,
    root: int,
    path: Seq<Seq<u8>>,
    inner: usize,
) -> bool
    decreases path.len(),
{
    if path.len() == 0 {
        root == inner
    } else {
        &&& is_tree_at(s, root)
        &&& tree_at(s, root).entries@.len() == 1
        &&& {
            let e = tree_at(s, root).entries@[0];
            &&& e.name@ == path[0]
            &&& e.mode == MODE_TREE
            &&& prefix_chain_ok(s, e.id as int, path.drop_first(), inner)
        }
    }
}

/// Extending the store keeps an existing prefix chain intact.
pub proof fn lemma_prefix_chain_extend(
    s1: Seq<Object>,
    s2: Seq<Object>,
    root: int,
    path: Seq<Seq<u8>>,
    inner: usize,
)
    requires
        prefix_chain_ok(s1, root, path, inner),
        s2.len() >= s1.len(),
        s2.subrange(0, s1.len() as int) == s1,
    ensures
        prefix_chain_ok(s2, root, path, inner),
    decreases path.len(),
{
    if path.len() == 0 {
    } else {
        assert(s2[root] == s1.subrange(0, s1.len() as int)[root]);
        let e = tree_at(s1, root).entries@[0];
        lemma_prefix_chain_extend(s1, s2, e.id as int, path.drop_first(), inner);
    }
}

/// A chain leads the path lookup straight to its innermost tree.
pub proof fn lemma_prefix_chain_at_path(s: Seq<Object>, root: int, path: Seq<Seq<u8>>, inner: usize)
    requires
        prefix_chain_ok(s, root, path, inner),
        path.len() > 0,
    ensures
        entry_at_path(s, root, path) matches Some(e) && e.mode == MODE_TREE && e.id == inner
            && e.name@ == path.last(),
    decreases path.len(),
{
    let es = tree_at(s, root).entries@;
    assert(first_index_named(es, path[0]) == 0);
    let e = es[0];
    assert(prefix_chain_ok(s, e.id as int, path.drop_first(), inner));
    if path.len() == 1 {
    } else {
        assert(path.drop_first().len() > 0);
        assert(is_tree_at(s, e.id as int));
        lemma_prefix_chain_at_path(s, e.id as int, path.drop_first(), inner);
        assert(path.drop_first().last() == path.last());
    }
}

/// The tree `new_t` of `s_new` is the tree `old_t` of `s_old` with the entry
/// at `path` replaced by the subtree `new_id`: along the path the first entry
/// with the segment's name is rebuilt, every other entry is untouched, the
/// filemode of each intermediate entry is kept, and the terminal entry
/// becomes a subtree pointing at `new_id`.
pub open spec fn tree_after_splice(
    s_old: Seq<Object>,
    old_t: int,
    path: Seq<Seq<u8>>,
    new_id: usize,
    s_new: Seq<Object>,
    new_t: int,
) -> bool
    decreases path.len(),
{
    if path.len() == 0 {
        false
    } else {
        &&& is_tree_at(s_old, old_t)
        &&& is_tree_at(s_new, new_t)
        &&& {
            let oe = tree_at(s_old, old_t).entries@;
            let ne = tree_at(s_new, new_t).entries@;
            let k = first_index_named(oe, path[0]);
            &&& 0 <= k < oe.len()
            &&& ne.len() == oe.len()
            &&& forall|j: int| 0 <= j < oe.len() && j != k ==> entry_same(#[trigger] ne[j], oe[j])
            &&& ne[k].name@ == path[0]
            &&& if path.len() == 1 {
                ne[k].mode == MODE_TREE && ne[k].id == new_id
            } else {
                &&& oe[k].mode == MODE_TREE
                &&& ne[k].mode == MODE_TREE
                &&& tree_after_splice(
                    s_old,
                    oe[k].id as int,
                    path.drop_first(),
                    new_id,
                    s_new,
                    ne[k].id as int,
                )
            }
        }
    }
}

/// Extending the new store keeps a splice relation intact.
pub proof fn lemma_tree_after_splice_extend(
    s_old: Seq<Object>,
    old_t: int,
    path: Seq<Seq<u8>>,
    new_id: usize,
    s2: Seq<Object>,
    s3: Seq<Object>,
    new_t: int,
)
    requires
        tree_after_splice(s_old, old_t, path, new_id, s2, new_t),
        s3.len() >= s2.len(),
        s3.subrange(0, s2.len() as int) == s2,
    ensures
        tree_after_splice(s_old, old_t, path, new_id, s3, new_t),
    decreases path.len(),
{
    assert(s3[new_t] == s2.subrange(0, s2.len() as int)[new_t]);
    if path.len() > 1 {
        let oe = tree_at(s_old, old_t).entries@;
        let ne = tree_at(s2, new_t).entries@;
        let k = first_index_named(oe, path[0]);
        lemma_tree_after_splice_extend(
            s_old,
            oe[k].id as int,
            path.drop_first(),
            new_id,
            s2,
            s3,
            ne[k].id as int,
        );
    }
}

/// A fresh copy of a tree's entries.
pub fn copy_entries(v: &Vec<TreeEntry>) -> (r: Vec<TreeEntry>)
    ensures
        r@.len() == v@.len(),
        forall|j: int| 0 <= j < v@.len() ==> entry_same(#[trigger] r@[j], v@[j]),
{
    let mut r: Vec<TreeEntry> = Vec::new();
    let mut i: usize = 0;
    while i < v.len()
        invariant
            i <= v@.len(),
            r@.len() == i,
            forall|j: int| 0 <= j < i ==> entry_same(#[trigger] r@[j], v@[j]),
        decreases v@.len() - i,
    {
        r.push(clone_entry(&v[i]));
        i += 1;
    }
    r
}

/// Rebuild the tree `t` so that the entry at `path[pos..]` becomes the
/// subtree `new_id`, descending along the path and rebuilding each level
/// bottom-up. The answer is the rebuilt tree's identifier.
pub fn replace_tree_subdir(
    store: &mut Store,
    t: usize,
    path: &Vec<Vec<u8>>,
    pos: usize,
    new_id: usize,
) -> (r: usize)
    requires
        old(store).wf(),
        is_tree_at(old(store)@, t as int),
        pos < path@.len(),
        entry_at_path(old(store)@, t as int, path_view(path@).skip(pos as int)) is Some,
        is_tree_at(old(store)@, new_id as int),
    ensures
        final(store).wf(),
        final(store)@.len() >= old(store)@.len(),
        final(store)@.subrange(0, old(store)@.len() as int) == old(store)@,
        is_tree_at(final(store)@, r as int),
        tree_after_splice(
            old(store)@,
            t as int,
            path_view(path@).skip(pos as int),
            new_id,
            final(store)@,
            r as int,
        ),
    decreases path@.len() - pos,
{
    let ghost s0 = store@;
    let ghost full = path_view(path@);
    let ghost sub = full.skip(pos as int);
    proof {
        assert(sub[0] == full[pos as int]);
        assert(full[pos as int] == path@[pos as int]@);
        lemma_first_index_named(tree_at(s0, t as int).entries@, sub[0]);
    }
    let k = match find_entry(&store.tree(t).entries, &path[pos]) {
        Some(k) => k,
        None => vstd::pervasive::unreached(),
    };
    let mut new_entries = copy_entries(&store.tree(t).entries);
    let e_mode = new_entries[k].mode;
    let e_id = new_entries[k].id;
    let ghost oe = tree_at(s0, t as int).entries@;
    proof {
        assert(entry_same(new_entries@[k as int], oe[k as int]));
    }
    let last = pos == path.len() - 1;
    let child_id: usize;
    let child_mode: u32;
    if last {
        child_id = new_id;
        child_mode = MODE_TREE;
    } else {
        proof {
            assert(sub.len() > 1);
            assert(oe[k as int].mode == MODE_TREE) by {
                if oe[k as int].mode != MODE_TREE {
                    assert(entry_at_path(s0, t as int, sub) is None);
                }
            }
            assert(obj_wf(s0, t as int));
            assert(entry_wf(s0, t as int, oe[k as int]));
            assert(is_tree_at(s0, oe[k as int].id as int));
            assert(sub.drop_first() =~= full.skip(pos + 1));
            assert(entry_at_path(s0, e_id as int, full.skip(pos + 1)) is Some);
        }
        child_id = replace_tree_subdir(store, e_id, path, pos + 1, new_id);
        child_mode = e_mode;
    }
    let ghost s1 = store@;
    new_entries.set(
        k,
        TreeEntry { name: clone_bytes(&path[pos]), mode: child_mode, id: child_id },
    );
    proof {
        assert(s1.subrange(0, s0.len() as int) == s0);
        assert forall|j: int| 0 <= j < new_entries@.len() implies entry_wf(
            s1,
            s1.len() as int,
            #[trigger] new_entries@[j],
        ) by {
            if j != k {
                let e = oe[j];
                assert(obj_wf(s0, t as int));
                assert(entry_wf(s0, t as int, e));
                assert(entry_same(new_entries@[j], e));
                if e.mode != MODE_GITLINK {
                    assert(s1[e.id as int] == s0.subrange(0, s0.len() as int)[e.id as int]);
                }
            } else {
                assert(new_entries@[j].mode == MODE_TREE);
                assert(is_tree_at(s1, child_id as int)) by {
                    if last {
                        assert(s1[new_id as int] == s0.subrange(0, s0.len() as int)[new_id as int]);
                    }
                }
            }
        }
        assert(entries_ok(s1, new_entries@));
    }
    let ghost ne = new_entries@;
    let r = match store.add_tree(new_entries) {
        Some(id) => id,
        None => vstd::pervasive::unreached(),
    };
    proof {
        assert(store@.subrange(0, s0.len() as int) =~= s0);
        assert(store@.subrange(0, s1.len() as int) =~= s1);
        assert(tree_at(store@, r as int).entries@ == ne);
        if !last {
            lemma_tree_after_splice_extend(
                s0,
                oe[k as int].id as int,
                sub.drop_first(),
                new_id,
                s1,
                store@,
                child_id as int,
            );
        }
        assert(tree_after_splice(s0, t as int, sub, new_id, store@, r as int));
    }
    r
}

/// Sequences of entries equal name for name, mode for mode, child for child.
pub open spec fn entries_same(a: Seq<TreeEntry>, b: Seq<TreeEntry>) -> bool {
    a.len() == b.len() && forall|j: int| 0 <= j < a.len() ==> entry_same(#[trigger] a[j], b[j])
}

/// Entry lists whose names agree position for position give the same answer
/// to a name search.
pub proof fn lemma_first_index_same_names(a: Seq<TreeEntry>, b: Seq<TreeEntry>, name: Seq<u8>)
    requires
        a.len() == b.len(),
        forall|j: int| 0 <= j < a.len() ==> (#[trigger] a[j]).name@ == b[j].name@,
    ensures
        first_index_named(a, name) == first_index_named(b, name),
    decreases a.len(),
{
    if a.len() > 0 {
        assert(a[0].name@ == b[0].name@);
        assert forall|j: int| 0 <= j < a.drop_first().len() implies (#[trigger] a.drop_first()[j]).name@
            == b.drop_first()[j].name@ by {
            assert(a.drop_first()[j] == a[j + 1]);
            assert(b.drop_first()[j] == b[j + 1]);
        }
        lemma_first_index_same_names(a.drop_first(), b.drop_first(), name);
    }
}

/// How a name search shifts when one entry, not the first match, is removed.
pub proof fn lemma_first_index_remove(es: Seq<TreeEntry>, krm: int, name: Seq<u8>)
    requires
        0 <= krm < es.len(),
        first_index_named(es, name) != krm,
    ensures
        ({
            let r = first_index_named(es, name);
            let r2 = first_index_named(es.remove(krm), name);
            &&& r == -1 ==> r2 == -1
            &&& r != -1 && r < krm ==> r2 == r
            &&& r != -1 && r > krm ==> r2 == r - 1
        }),
    decreases es.len(),
{
    let r = first_index_named(es, name);
    let rm = es.remove(krm);
    lemma_first_index_named(es, name);
    lemma_first_index_named(rm, name);
    if krm == 0 {
        assert(es[0].name@ != name);
        assert(rm =~= es.drop_first());
        let r_sub = first_index_named(es.drop_first(), name);
        assert(r == (if r_sub == -1 { -1 } else { r_sub + 1 }));
        assert(first_index_named(rm, name) == r_sub);
    } else {
        assert(rm.len() == es.len() - 1);
        assert(rm[0] == es[0]);
        if es[0].name@ == name {
            assert(r == 0);
            assert(first_index_named(rm, name) == 0);
        } else {
            let r_sub = first_index_named(es.drop_first(), name);
            assert(r == (if r_sub == -1 { -1 } else { r_sub + 1 }));
            assert(rm.drop_first() =~= es.drop_first().remove(krm - 1));
            assert(r_sub != krm - 1) by {
                if r_sub == krm - 1 {
                    assert(r == krm);
                }
            }
            lemma_first_index_remove(es.drop_first(), krm - 1, name);
            let r2_sub = first_index_named(es.drop_first().remove(krm - 1), name);
            assert(first_index_named(rm.drop_first(), name) == r2_sub);
            assert(first_index_named(rm, name) == (if r2_sub == -1 {
                -1
            } else {
                r2_sub + 1
            }));
        }
    }
}

/// After a splice, the path leads to the replacement subtree.
pub proof fn lemma_splice_entry_at_path(
    s_old: Seq<Object>,
    old_t: int,
    path: Seq<Seq<u8>>,
    new_id: usize,
    s_new: Seq<Object>,
    new_t: int,
)
    requires
        tree_after_splice(s_old, old_t, path, new_id, s_new, new_t),
        path.len() > 0,
    ensures
        entry_at_path(s_new, new_t, path) matches Some(e) && e.mode == MODE_TREE && e.id == new_id
            && e.name@ == path.last(),
    decreases path.len(),
{
    let oe = tree_at(s_old, old_t).entries@;
    let ne = tree_at(s_new, new_t).entries@;
    let k = first_index_named(oe, path[0]);
    lemma_first_index_named(oe, path[0]);
    assert forall|j: int| 0 <= j < oe.len() implies (#[trigger] oe[j]).name@ == ne[j].name@ by {
        if j != k {
            assert(entry_same(ne[j], oe[j]));
        }
    }
    lemma_first_index_same_names(oe, ne, path[0]);
    assert(first_index_named(ne, path[0]) == k);
    if path.len() == 1 {
        assert(entry_at_path(s_new, new_t, path) == Some(ne[k]));
    } else {
        assert(tree_after_splice(
            s_old,
            oe[k].id as int,
            path.drop_first(),
            new_id,
            s_new,
            ne[k].id as int,
        ));
        assert(is_tree_at(s_new, ne[k].id as int));
        lemma_splice_entry_at_path(
            s_old,
            oe[k].id as int,
            path.drop_first(),
            new_id,
            s_new,
            ne[k].id as int,
        );
        assert(path.drop_first().last() == path.last());
    }
}

/// Find the first entry with the given name; the answer is its position.
pub fn find_entry(entries: &Vec<TreeEntry>, name: &Vec<u8>) -> (r: Option<usize>)
    ensures
        r is None ==> first_index_named(entries@, name@) == -1,
        r matches Some(k) ==> first_index_named(entries@, name@) == k && k < entries@.len(),
{
    proof {
        lemma_first_index_named(entries@, name@);
    }
    let mut i: usize = 0;
    while i < entries.len()
        invariant
            i <= entries@.len(),
            forall|j: int| 0 <= j < i ==> (#[trigger] entries@[j]).name@ != name@,
        decreases entries@.len() - i,
    {
        if bytes_eq(&entries[i].name, name) {
            proof {
                let r = first_index_named(entries@, name@);
                if r == -1 {
                    assert(entries@[i as int].name@ != name@);
                } else {
                    if r < i {
                        assert(entries@[r].name@ != name@);
                    }
                    if r > i {
                        assert(entries@[i as int].name@ != name@);
                    }
                }
            }
            return Some(i);
        }
        i += 1;
    }
    None
}

/// Look up what stands at `path` below the tree `t`.
pub fn get_path(store: &Store, t: usize, path: &Vec<Vec<u8>>) -> (r: Option<TreeEntry>)
    requires
        store.wf(),
        is_tree_at(store@, t as int),
        path@.len() > 0,
    ensures
        r is None <==> entry_at_path(store@, t as int, path_view(path@)) is None,
        r matches Some(e) ==> entry_at_path(store@, t as int, path_view(path@)) matches Some(se)
            && entry_same(e, se),
{
    let ghost full = path_view(path@);
    let mut cur: usize = t;
    let mut i: usize = 0;
    proof {
        assert(full.skip(0) =~= full);
    }
    while i < path.len()
        invariant
            i < path@.len(),
            is_tree_at(store@, cur as int),
            entry_at_path(store@, t as int, full) == entry_at_path(
                store@,
                cur as int,
                full.skip(i as int),
            ),
        decreases path@.len() - i,
    {
        let entries = &store.tree(cur).entries;
        let ghost sub = full.skip(i as int);
        proof {
            assert(sub[0] == full[i as int]);
            assert(full[i as int] == path@[i as int]@);
        }
        match find_entry(entries, &path[i]) {
            None => {
                return None;
            }
            Some(k) => {
                let e = &entries[k];
                if i == path.len() - 1 {
                    proof {
                        assert(sub.len() == 1);
                        assert(entry_at_path(store@, cur as int, sub) == Some(entries@[k as int]));
                    }
                    return Some(clone_entry(e));
                }
                if e.mode != MODE_TREE {
                    proof {
                        assert(sub.len() > 1);
                        assert(entry_at_path(store@, cur as int, sub) is None);
                    }
                    return None;
                }
                proof {
                    assert(obj_wf(store@, cur as int));
                    assert(entry_wf(store@, cur as int, entries@[k as int]));
                    assert(sub.drop_first() =~= full.skip(i + 1));
                }
                cur = e.id;
            }
        }
        i += 1;
    }
    proof {
        assert(false);
    }
    None
}

/// Build the chain of single-entry trees that places the tree `inner` at
/// `path`: the relocation of a submodule root under its target directory.
pub fn build_prefix_chain(store: &mut Store, path: &Vec<Vec<u8>>, inner: usize) -> (root: usize)
    requires
        old(store).wf(),
        is_tree_at(old(store)@, inner as int),
        path@.len() > 0,
    ensures
        final(store).wf(),
        final(store)@.len() >= old(store)@.len(),
        final(store)@.subrange(0, old(store)@.len() as int) == old(store)@,
        prefix_chain_ok(final(store)@, root as int, path_view(path@), inner),
        root < final(store)@.len(),
    {
    let ghost full = path_view(path@);
    let ghost s0 = store@;
    let mut cur: usize = inner;
    let mut i: usize = path.len();
    proof {
        assert(full.skip(path@.len() as int) =~= Seq::<Seq<u8>>::empty());
    }
    while i > 0
        invariant
            i <= path@.len(),
            store.wf(),
            store@.len() >= s0.len(),
            store@.subrange(0, s0.len() as int) == s0,
            prefix_chain_ok(store@, cur as int, full.skip(i as int), inner),
            cur < store@.len(),
            i < path@.len() ==> is_tree_at(store@, cur as int),
            i == path@.len() ==> cur == inner,
        decreases i,
    {
        i -= 1;
        let ghost s1 = store@;
        let mut entries: Vec<TreeEntry> = Vec::new();
        entries.push(TreeEntry { name: clone_bytes(&path[i]), mode: MODE_TREE, id: cur });
        proof {
            assert(is_tree_at(store@, cur as int));
            assert(entries@[0].mode == MODE_TREE);
            assert(entries_ok(store@, entries@));
        }
        let r = store.add_tree(entries);
        let next = match r {
            Some(id) => id,
            None => vstd::pervasive::unreached(),
        };
        proof {
            assert(store@.subrange(0, s1.len() as int) =~= s1);
            assert(store@.subrange(0, s0.len() as int) =~= s0);
            lemma_prefix_chain_extend(s1, store@, cur as int, full.skip(i + 1), inner);
            assert(tree_at(store@, next as int).entries@[0].name@ == path@[i as int]@);
            assert(full.skip(i as int)[0] == full[i as int]);
            assert(full.skip(i as int).drop_first() =~= full.skip(i + 1));
        }
        cur = next;
    }
    proof {
        assert(full.skip(0) =~= full);
    }
    cur
}

/// `a` stands unchanged at the front of `b`.
pub open spec fn store_prefix(a: Seq<Object>, b: Seq<Object>) -> bool {
    a.len() <= b.len() && b.subrange(0, a.len() as int) == a
}

/// The entry list `es_new` (over the store `s_new`) is `es_old` (over
/// `s_old`) with the `.gitmodules` edit applied: if a `.gitmodules` file
/// entry stands in the list and its content holds the stanza
/// `submodule "<basename>"`, the entry is removed when nothing but blank
/// lines would remain, and otherwise redirected to a fresh blob holding the
/// edited content; in every other case nothing changes.
pub open spec fn gitmodules_applied(
    s_old: Seq<Object>,
    es_old: Seq<TreeEntry>,
    basename: Seq<u8>,
    s_new: Seq<Object>,
    es_new: Seq<TreeEntry>,
) -> bool {
    let gm = gitmodules_name();
    let k = first_index_named(es_old, gm);
    if k == -1 || es_old[k].mode == MODE_TREE || es_old[k].mode == MODE_GITLINK || !is_blob_at(
        s_old,
        es_old[k].id as int,
    ) {
        s_new == s_old && entries_same(es_new, es_old)
    } else {
        let data = blob_at(s_old, es_old[k].id as int).data@;
        let lines = lines_of(data);
        let target = section_for(basename);
        let ed = edit_lines(lines, target, false);
        if !has_target(lines, target) {
            s_new == s_old && entries_same(es_new, es_old)
        } else if all_blank(ed) {
            &&& s_new == s_old
            &&& es_new.len() == es_old.len() - 1
            &&& forall|j: int| 0 <= j < k ==> entry_same(#[trigger] es_new[j], es_old[j])
            &&& forall|j: int| k <= j < es_new.len() ==> entry_same(#[trigger] es_new[j], es_old[j + 1])
        } else {
            &&& s_new.len() == s_old.len() + 1
            &&& s_new.subrange(0, s_old.len() as int) == s_old
            &&& is_blob_at(s_new, s_old.len() as int)
            &&& blob_at(s_new, s_old.len() as int).data@ == ed.flatten()
            &&& es_new.len() == es_old.len()
            &&& forall|j: int|
                0 <= j < es_old.len() && j != k ==> entry_same(#[trigger] es_new[j], es_old[j])
            &&& es_new[k].name@ == gm
            &&& es_new[k].mode == es_old[k].mode
            &&& es_new[k].id == s_old.len()
        }
    }
}

/// Apply the `.gitmodules` edit to the entries of the tree `tree_id`,
/// answering the edited entry list. A new blob is written when the file is
/// replaced.
pub fn update_gitmodules(store: &mut Store, tree_id: usize, basename: &Vec<u8>) -> (r: Vec<
    TreeEntry,
>)
    requires
        old(store).wf(),
        is_tree_at(old(store)@, tree_id as int),
    ensures
        final(store).wf(),
        store_prefix(old(store)@, final(store)@),
        gitmodules_applied(
            old(store)@,
            tree_at(old(store)@, tree_id as int).entries@,
            basename@,
            final(store)@,
            r@,
        ),
{
    let ghost s0 = store@;
    let ghost es_old = tree_at(s0, tree_id as int).entries@;
    let ghost gm = gitmodules_name();
    let mut entries = copy_entries(&store.tree(tree_id).entries);
    let gmname = crate::gitmodules::build_gitmodules_name();
    proof {
        assert(store_prefix(s0, store@)) by {
            assert(store@.subrange(0, s0.len() as int) =~= s0);
        }
        assert forall|j: int| 0 <= j < entries@.len() implies (#[trigger] entries@[j]).name@
            == es_old[j].name@ by {}
        lemma_first_index_same_names(entries@, es_old, gm);
    }
    let k = match find_entry(&entries, &gmname) {
        None => {
            return entries;
        }
        Some(k) => k,
    };
    let mode = entries[k].mode;
    let blob_id = entries[k].id;
    proof {
        assert(entry_same(entries@[k as int], es_old[k as int]));
    }
    if mode == MODE_TREE || mode == MODE_GITLINK {
        return entries;
    }
    if !store.is_blob(blob_id) {
        return entries;
    }
    let edit = edit_gitmodules_blob(&store.blob(blob_id).data, basename);
    match edit {
        BlobEdit::Unchanged => entries,
        BlobEdit::Delete => {
            entries.remove(k);
            proof {
                assert forall|j: int| 0 <= j < k implies entry_same(
                    #[trigger] entries@[j],
                    es_old[j],
                ) by {}
                assert forall|j: int| k <= j < entries@.len() implies entry_same(
                    #[trigger] entries@[j],
                    es_old[j + 1],
                ) by {}
            }
            entries
        }
        BlobEdit::Replace(content) => {
            let new_blob = store.add_blob(content);
            entries.set(k, TreeEntry { name: gmname, mode, id: new_blob });
            proof {
                assert(store@.subrange(0, s0.len() as int) =~= s0);
            }
            entries
        }
    }
}

/// The `.gitmodules` edit keeps every path lookup whose terminal entry is a
/// subtree or a gitlink: the edited entry, a file, is never on such a path.
proof fn lemma_gitmodules_keeps_path(
    s0: Seq<Object>,
    root: int,
    pv: Seq<Seq<u8>>,
    basename: Seq<u8>,
    s2: Seq<Object>,
    es_mid: Seq<TreeEntry>,
    s3: Seq<Object>,
    mid_root: int,
)
    requires
        store_wf(s0),
        is_tree_at(s0, root),
        pv.len() > 0,
        entry_at_path(s0, root, pv) matches Some(te) && (te.mode == MODE_GITLINK || te.mode
            == MODE_TREE),
        gitmodules_applied(s0, tree_at(s0, root).entries@, basename, s2, es_mid),
        store_prefix(s0, s2),
        store_prefix(s2, s3),
        is_tree_at(s3, mid_root),
        tree_at(s3, mid_root).entries@ == es_mid,
    ensures
        entry_at_path(s3, mid_root, pv) is Some,
{
    let es_old = tree_at(s0, root).entries@;
    let k = first_index_named(es_old, pv[0]);
    lemma_first_index_named(es_old, pv[0]);
    assert(k != -1);
    let e = es_old[k];
    let gm = gitmodules_name();
    let k_gm = first_index_named(es_old, gm);
    lemma_first_index_named(es_old, gm);

    // The entry on the path is a subtree (when the path goes deeper) or the
    // terminal subtree/gitlink itself: never the `.gitmodules` file entry.
    assert(e.mode == MODE_TREE || e.mode == MODE_GITLINK) by {
        if pv.len() > 1 {
            if e.mode != MODE_TREE {
                assert(entry_at_path(s0, root, pv) is None);
            }
        }
    }

    // Find the same entry in the edited list.
    let k2 = first_index_named(es_mid, pv[0]);
    assert(0 <= k2 < es_mid.len() && entry_same(es_mid[k2], e)) by {
        if k_gm == -1 || es_old[k_gm].mode == MODE_TREE || es_old[k_gm].mode == MODE_GITLINK
            || !is_blob_at(s0, es_old[k_gm].id as int) {
            assert(entries_same(es_mid, es_old));
            assert forall|j: int| 0 <= j < es_mid.len() implies (#[trigger] es_mid[j]).name@
                == es_old[j].name@ by {}
            lemma_first_index_same_names(es_mid, es_old, pv[0]);
        } else {
            let data = blob_at(s0, es_old[k_gm].id as int).data@;
            let lines = lines_of(data);
            let target = section_for(basename);
            let ed = edit_lines(lines, target, false);
            assert(k != k_gm);
            if !has_target(lines, target) {
                assert(entries_same(es_mid, es_old));
                assert forall|j: int| 0 <= j < es_mid.len() implies (#[trigger] es_mid[j]).name@
                    == es_old[j].name@ by {}
                lemma_first_index_same_names(es_mid, es_old, pv[0]);
            } else if all_blank(ed) {
                let rm = es_old.remove(k_gm);
                assert forall|j: int| 0 <= j < es_mid.len() implies (#[trigger] es_mid[j]).name@
                    == rm[j].name@ by {
                    if j < k_gm {
                        assert(rm[j] == es_old[j]);
                        assert(entry_same(es_mid[j], es_old[j]));
                    } else {
                        assert(rm[j] == es_old[j + 1]);
                        assert(entry_same(es_mid[j], es_old[j + 1]));
                    }
                }
                lemma_first_index_same_names(es_mid, rm, pv[0]);
                lemma_first_index_remove(es_old, k_gm, pv[0]);
                if k < k_gm {
                    assert(rm[k] == es_old[k]);
                    assert(entry_same(es_mid[k], es_old[k]));
                } else {
                    assert(rm[k - 1] == es_old[k]);
                    assert(entry_same(es_mid[k - 1], es_old[k]));
                }
            } else {
                assert forall|j: int| 0 <= j < es_mid.len() implies (#[trigger] es_mid[j]).name@
                    == es_old[j].name@ by {
                    if j != k_gm {
                        assert(entry_same(es_mid[j], es_old[j]));
                    }
                }
                lemma_first_index_same_names(es_mid, es_old, pv[0]);
                assert(entry_same(es_mid[k], es_old[k]));
            }
        }
    }

    if pv.len() == 1 {
        assert(entry_at_path(s3, mid_root, pv) == Some(es_mid[k2]));
    } else {
        assert(e.mode == MODE_TREE);
        assert(obj_wf(s0, root));
        assert(entry_wf(s0, root, e));
        assert(is_tree_at(s0, e.id as int));
        assert(store_prefix(s0, s3)) by {
            assert(s3.subrange(0, s0.len() as int) =~= s0);
        }
        lemma_entry_at_path_extend(s0, s3, e.id as int, pv.drop_first());
        assert(entry_at_path(s3, mid_root, pv) == entry_at_path(s3, e.id as int, pv.drop_first()));
        assert(entry_at_path(s0, root, pv) == entry_at_path(s0, e.id as int, pv.drop_first()));
    }
}

/// Replace the gitlink at `path` below the tree `root` by the subtree
/// `subtree_id`, removing the absorbed stanza from `.gitmodules` on the way.
/// The answer is the rebuilt root tree's identifier.
pub fn replace_submodule_dir(
    store: &mut Store,
    root: usize,
    path: &Vec<Vec<u8>>,
    subtree_id: usize,
) -> (r: usize)
    requires
        old(store).wf(),
        is_tree_at(old(store)@, root as int),
        path@.len() > 0,
        entry_at_path(old(store)@, root as int, path_view(path@)) matches Some(te) && (te.mode
            == MODE_GITLINK || te.mode == MODE_TREE),
        is_tree_at(old(store)@, subtree_id as int),
    ensures
        final(store).wf(),
        store_prefix(old(store)@, final(store)@),
        is_tree_at(final(store)@, r as int),
        entry_at_path(final(store)@, r as int, path_view(path@)) matches Some(e) && e.mode
            == MODE_TREE && e.id == subtree_id,
        dir_replaced(
            old(store)@,
            root as int,
            path_view(path@),
            subtree_id,
            final(store)@,
            r as int,
        ),
{
    let ghost s0 = store@;
    let ghost pv = path_view(path@);
    let ghost es_old = tree_at(s0, root as int).entries@;
    let basename = &path[path.len() - 1];
    proof {
        assert(basename@ == pv.last());
    }
    let es_mid = update_gitmodules(store, root, basename);
    let ghost s2 = store@;
    proof {
        lemma_entries_ok_after_gitmodules(s0, root as int, pv.last(), s2, es_mid@);
    }
    let ghost es_mid_view = es_mid@;
    let mid_root = match store.add_tree(es_mid) {
        Some(id) => id,
        None => vstd::pervasive::unreached(),
    };
    let ghost s3 = store@;
    proof {
        assert(s3.subrange(0, s2.len() as int) =~= s2);
        assert(store_prefix(s2, s3));
        assert(tree_at(s3, mid_root as int).entries@ == es_mid_view);
        lemma_gitmodules_keeps_path(
            s0,
            root as int,
            pv,
            pv.last(),
            s2,
            es_mid_view,
            s3,
            mid_root as int,
        );
        assert(pv.skip(0) =~= pv);
        assert(s3.subrange(0, s0.len() as int) =~= s0);
        assert(is_tree_at(s3, subtree_id as int));
    }
    let r = replace_tree_subdir(store, mid_root, path, 0, subtree_id);
    proof {
        let s4 = store@;
        lemma_splice_entry_at_path(s3, mid_root as int, pv, subtree_id, s4, r as int);
        assert(store_prefix(s0, s4)) by {
            assert(s4.subrange(0, s0.len() as int) =~= s0);
        }
        assert(store_prefix(s3, s4)) by {
            assert(s4.subrange(0, s3.len() as int) =~= s3);
        }
        assert(dir_replaced(s0, root as int, pv, subtree_id, s4, r as int)) by {
            assert(gitmodules_applied(s0, tree_at(s0, root as int).entries@, pv.last(), s2,
                es_mid_view) && store_prefix(s0, s2) && store_prefix(s2, s3) && store_prefix(
                s3,
                s4,
            ) && is_tree_at(s3, mid_root as int) && tree_at(s3, mid_root as int).entries@
                == es_mid_view && tree_after_splice(s3, mid_root as int, pv, subtree_id, s4,
                r as int));
        }
    }
    r
}

/// The rebuilt root: the `.gitmodules` edit applied, then the path entry
/// spliced to the replacement subtree.
pub open spec fn dir_replaced(
    s_old: Seq<Object>,
    root: int,
    path: Seq<Seq<u8>>,
    subtree_id: usize,
    s_new: Seq<Object>,
    new_root: int,
) -> bool {
    exists|s2: Seq<Object>, es_mid: Seq<TreeEntry>, s3: Seq<Object>, mid_root: int|
        {
            &&& #[trigger] gitmodules_applied(
                s_old,
                tree_at(s_old, root).entries@,
                path.last(),
                s2,
                es_mid,
            )
            &&& store_prefix(s_old, s2)
            &&& store_prefix(s2, s3)
            &&& store_prefix(s3, s_new)
            &&& is_tree_at(s3, mid_root)
            &&& tree_at(s3, mid_root).entries@ == es_mid
            &&& #[trigger] tree_after_splice(s3, mid_root, path, subtree_id, s_new, new_root)
        }
}

/// The edited entry list can be stored as a tree: every reference it makes
/// already stands in the store.
proof fn lemma_entries_ok_after_gitmodules(
    s0: Seq<Object>,
    root: int,
    basename: Seq<u8>,
    s2: Seq<Object>,
    es_mid: Seq<TreeEntry>,
)
    requires
        store_wf(s0),
        is_tree_at(s0, root),
        store_prefix(s0, s2),
        gitmodules_applied(s0, tree_at(s0, root).entries@, basename, s2, es_mid),
    ensures
        entries_ok(s2, es_mid),
{
    let es_old = tree_at(s0, root).entries@;
    let gm = gitmodules_name();
    let k_gm = first_index_named(es_old, gm);
    assert(obj_wf(s0, root));
    assert forall|j: int| 0 <= j < es_mid.len() implies entry_wf(
        s2,
        s2.len() as int,
        #[trigger] es_mid[j],
    ) by {
        let in_replace_case = !(k_gm == -1 || es_old[k_gm].mode == MODE_TREE || es_old[k_gm].mode
            == MODE_GITLINK || !is_blob_at(s0, es_old[k_gm].id as int)) && has_target(
            lines_of(blob_at(s0, es_old[k_gm].id as int).data@),
            section_for(basename),
        ) && !all_blank(
            edit_lines(
                lines_of(blob_at(s0, es_old[k_gm].id as int).data@),
                section_for(basename),
                false,
            ),
        );
        if in_replace_case && j == k_gm {
            assert(es_mid[j].id == s0.len());
            assert(is_blob_at(s2, s0.len() as int));
            assert(es_mid[j].mode == es_old[k_gm].mode);
        } else {
            let orig = if in_replace_case {
                es_old[j]
            } else if k_gm != -1 && !(es_old[k_gm].mode == MODE_TREE || es_old[k_gm].mode
                == MODE_GITLINK || !is_blob_at(s0, es_old[k_gm].id as int)) && has_target(
                lines_of(blob_at(s0, es_old[k_gm].id as int).data@),
                section_for(basename),
            ) {
                // the entry was removed; later entries shift down
                if j < k_gm {
                    es_old[j]
                } else {
                    es_old[j + 1]
                }
            } else {
                es_old[j]
            };
            assert(entry_same(es_mid[j], orig));
            assert(entry_wf(s0, root, orig));
            if orig.mode != MODE_GITLINK {
                assert(s2[orig.id as int] == s0.subrange(0, s0.len() as int)[orig.id as int]);
            }
        }
    }
}

/// After the rebuild, the root tree's `.gitmodules` lacks the stanza
/// `submodule "<basename>"`: the entry is gone entirely, or it is a file
/// whose content concatenates lines among which no header opens that
/// stanza. Holds when the submodule path does not itself begin with
/// `.gitmodules` and the original root carries at most one `.gitmodules`
/// entry, a file.
pub proof fn lemma_dir_replaced_gitmodules(
    s_a: Seq<Object>,
    root: int,
    path: Seq<Seq<u8>>,
    subtree_id: usize,
    s_b: Seq<Object>,
    new_root: int,
)
    requires
        store_wf(s_a),
        is_tree_at(s_a, root),
        path.len() > 0,
        path[0] != gitmodules_name(),
        dir_replaced(s_a, root, path, subtree_id, s_b, new_root),
        forall|i: int, j: int|
            0 <= i < j < tree_at(s_a, root).entries@.len() ==> !((
            #[trigger] tree_at(s_a, root).entries@[i]).name@ == gitmodules_name() && (
            #[trigger] tree_at(s_a, root).entries@[j]).name@ == gitmodules_name()),
        forall|i: int|
            0 <= i < tree_at(s_a, root).entries@.len() && (#[trigger] tree_at(
                s_a,
                root,
            ).entries@[i]).name@ == gitmodules_name() ==> tree_at(s_a, root).entries@[i].mode
                != MODE_TREE && tree_at(s_a, root).entries@[i].mode != MODE_GITLINK,
    ensures
        is_tree_at(s_b, new_root),
        ({
            let ne = tree_at(s_b, new_root).entries@;
            let k = first_index_named(ne, gitmodules_name());
            ||| k == -1
            ||| (0 <= k < ne.len() && is_blob_at(s_b, ne[k].id as int) && exists|ed: Seq<Seq<u8>>|
                blob_at(s_b, ne[k].id as int).data@ == #[trigger] ed.flatten() && !has_target(
                    ed,
                    section_for(path.last()),
                ))
        }),
{
    let gm = gitmodules_name();
    let basename = path.last();
    let target = section_for(basename);
    let oe = tree_at(s_a, root).entries@;
    let (s2, es_mid, s3, mid_root) = choose|
        s2: Seq<Object>,
        es_mid: Seq<TreeEntry>,
        s3: Seq<Object>,
        mid_root: int,
    |
        {
            &&& #[trigger] gitmodules_applied(s_a, tree_at(s_a, root).entries@, path.last(), s2,
                es_mid)
            &&& store_prefix(s_a, s2)
            &&& store_prefix(s2, s3)
            &&& store_prefix(s3, s_b)
            &&& is_tree_at(s3, mid_root)
            &&& tree_at(s3, mid_root).entries@ == es_mid
            &&& #[trigger] tree_after_splice(s3, mid_root, path, subtree_id, s_b, new_root)
        };
    let ne = tree_at(s_b, new_root).entries@;
    let k_path = first_index_named(es_mid, path[0]);
    lemma_first_index_named(es_mid, path[0]);
    assert(0 <= k_path < es_mid.len());
    assert(es_mid[k_path].name@ == path[0]);
    assert forall|j: int| 0 <= j < ne.len() implies (#[trigger] ne[j]).name@
        == es_mid[j].name@ by {
        if j != k_path {
            assert(entry_same(ne[j], es_mid[j]));
        }
    }
    lemma_first_index_same_names(ne, es_mid, gm);
    let k_gm = first_index_named(oe, gm);
    lemma_first_index_named(oe, gm);
    let k2 = first_index_named(es_mid, gm);
    lemma_first_index_named(es_mid, gm);
    assert(first_index_named(ne, gm) == k2);
    assert(store_prefix(s_a, s_b)) by {
        assert(s_b.subrange(0, s_a.len() as int) =~= s3.subrange(0, s3.len() as int).subrange(
            0,
            s_a.len() as int,
        ));
        assert(s3.subrange(0, s3.len() as int) =~= s3);
        assert(s3.subrange(0, s_a.len() as int) =~= s2.subrange(0, s2.len() as int).subrange(
            0,
            s_a.len() as int,
        ));
        assert(s2.subrange(0, s2.len() as int) =~= s2);
    }
    if k_gm == -1 {
        // No .gitmodules in the original root: nothing changes names.
        assert(entries_same(es_mid, oe));
        assert forall|j: int| 0 <= j < es_mid.len() implies (#[trigger] es_mid[j]).name@
            == oe[j].name@ by {
            assert(entry_same(es_mid[j], oe[j]));
        }
        lemma_first_index_same_names(es_mid, oe, gm);
        assert(k2 == -1);
    } else {
        assert(obj_wf(s_a, root));
        assert(entry_wf(s_a, root, oe[k_gm]));
        assert(oe[k_gm].mode != MODE_TREE && oe[k_gm].mode != MODE_GITLINK);
        assert(is_blob_at(s_a, oe[k_gm].id as int));
        let data = blob_at(s_a, oe[k_gm].id as int).data@;
        let lines = lines_of(data);
        let ed = edit_lines(lines, target, false);
        if !has_target(lines, target) {
            // The stanza never stood in the file: the entry keeps its blob.
            assert(entries_same(es_mid, oe));
            assert forall|j: int| 0 <= j < es_mid.len() implies (#[trigger] es_mid[j]).name@
                == oe[j].name@ by {
                assert(entry_same(es_mid[j], oe[j]));
            }
            lemma_first_index_same_names(es_mid, oe, gm);
            assert(k2 == k_gm);
            assert(k2 != k_path) by {
                if k2 == k_path {
                    assert(es_mid[k_path].name@ == gm);
                }
            }
            assert(entry_same(ne[k2], es_mid[k2]));
            assert(entry_same(es_mid[k2], oe[k2]));
            let b = oe[k_gm].id;
            assert(ne[k2].id == b);
            assert(s_b[b as int] == s_a.subrange(0, s_a.len() as int)[b as int]);
            assert(is_blob_at(s_b, b as int));
            lemma_lines_flatten_roundtrip(data);
            let edw = lines_of(data);
            assert(blob_at(s_b, ne[k2].id as int).data@ == edw.flatten() && !has_target(
                edw,
                target,
            ));
        } else if all_blank(ed) {
            // The stanza was all there was: the entry is gone.
            let rm = oe.remove(k_gm);
            assert forall|j: int| 0 <= j < es_mid.len() implies (#[trigger] es_mid[j]).name@
                == rm[j].name@ by {
                if j < k_gm {
                    assert(rm[j] == oe[j]);
                    assert(entry_same(es_mid[j], oe[j]));
                } else {
                    assert(rm[j] == oe[j + 1]);
                    assert(entry_same(es_mid[j], oe[j + 1]));
                }
            }
            lemma_first_index_same_names(es_mid, rm, gm);
            let r = first_index_named(rm, gm);
            lemma_first_index_named(rm, gm);
            assert(r == -1) by {
                if r != -1 {
                    if r < k_gm {
                        assert(rm[r] == oe[r]);
                        assert(oe[r].name@ == gm);
                    } else {
                        assert(rm[r] == oe[r + 1]);
                        assert(oe[r + 1].name@ == gm);
                    }
                }
            }
            assert(k2 == -1);
        } else {
            // The stanza is cut out; the entry points at the edited blob.
            assert(es_mid[k_gm].name@ == gm);
            assert forall|j: int| 0 <= j < es_mid.len() implies (#[trigger] es_mid[j]).name@
                == oe[j].name@ by {
                if j != k_gm {
                    assert(entry_same(es_mid[j], oe[j]));
                }
            }
            lemma_first_index_same_names(es_mid, oe, gm);
            assert(k2 == k_gm);
            assert(k2 != k_path) by {
                if k2 == k_path {
                    assert(es_mid[k_path].name@ == gm);
                }
            }
            assert(entry_same(ne[k2], es_mid[k2]));
            let b = es_mid[k_gm].id;
            assert(b == s_a.len());
            assert(is_blob_at(s2, b as int));
            assert(blob_at(s2, b as int).data@ == ed.flatten());
            assert(s_b[b as int] == s2.subrange(0, s2.len() as int)[b as int]) by {
                assert(s_b.subrange(0, s2.len() as int) =~= s3.subrange(
                    0,
                    s3.len() as int,
                ).subrange(0, s2.len() as int));
                assert(s3.subrange(0, s3.len() as int) =~= s3);
            }
            assert(is_blob_at(s_b, b as int));
            lemma_edit_removes_target(lines, target, false);
            assert(blob_at(s_b, ne[k2].id as int).data@ == ed.flatten() && !has_target(
                ed,
                target,
            ));
        }
    }
}

} // verus!
