//! The in-memory model of a git object store.
//!
//! Objects live in an append-only vector; an object's identifier is its
//! index. Well-formedness says that every reference an object makes — a
//! commit's tree and parents, a tree entry's subtree or blob — points at an
//! already-stored object of the right kind, so references always go from
//! higher identifiers to strictly lower ones. Gitlink entries are the one
//! exception: they name commits of a foreign history and may point anywhere.

use vstd::prelude::*;

verus! {

/// Tree-entry mode marking a gitlink: a reference to a commit of another
/// repository, opaque to this store.
pub const MODE_GITLINK: u32 = 0o160000;

/// Tree-entry mode marking a subtree.
pub const MODE_TREE: u32 = 0o040000;

/// One entry of a tree: a name, a mode and the identifier of the child.
pub struct TreeEntry {
    pub name: Vec<u8>,
    pub mode: u32,
    pub id: usize,
}

/// A blob: uninterpreted file content.
pub struct Blob {
    pub data: Vec<u8>,
}

/// A tree: an ordered list of entries.
pub struct Tree {
    pub entries: Vec<TreeEntry>,
}

/// A commit. Author, committer and message are interned handles: the engine
/// only ever copies them, so their content never matters to it.
pub struct Commit {
    pub tree: usize,
    pub parents: Vec<usize>,
    pub author: u64,
    pub committer: u64,
    pub message: u64,
}

/// Any object of the store.
pub enum Object {
    Blob(Blob),
    Tree(Tree),
    Commit(Commit),
}

pub open spec fn is_blob_at(s: Seq<Object>, i: int) -> bool {
    0 <= i < s.len() && match s[i] {
        Object::Blob(_) => true,
        _ => false,
    }
}

pub open spec fn is_tree_at(s: Seq<Object>, i: int) -> bool {
    0 <= i < s.len() && match s[i] {
        Object::Tree(_) => true,
        _ => false,
    }
}

pub open spec fn is_commit_at(s: Seq<Object>, i: int) -> bool {
    0 <= i < s.len() && match s[i] {
        Object::Commit(_) => true,
        _ => false,
    }
}

pub open spec fn blob_at(s: Seq<Object>, i: int) -> Blob
    recommends is_blob_at(s, i),
{
    match s[i] {
        Object::Blob(b) => b,
        _ => arbitrary(),
    }
}

pub open spec fn tree_at(s: Seq<Object>, i: int) -> Tree
    recommends is_tree_at(s, i),
{
    match s[i] {
        Object::Tree(t) => t,
        _ => arbitrary(),
    }
}

pub open spec fn commit_at(s: Seq<Object>, i: int) -> Commit
    recommends is_commit_at(s, i),
{
    match s[i] {
        Object::Commit(c) => c,
        _ => arbitrary(),
    }
}

/// An entry may reference only objects that stand before position `i`.
/// Subtree entries name trees; gitlinks name foreign commits and are
/// unconstrained; every other mode is a file and names a blob.
pub open spec fn entry_wf(s: Seq<Object>, i: int, e: TreeEntry) -> bool {
    if e.mode == MODE_TREE {
        e.id < i && is_tree_at(s, e.id as int)
    } else if e.mode == MODE_GITLINK {
        true
    } else {
        e.id < i && is_blob_at(s, e.id as int)
    }
}

/// The object at position `i` references only earlier objects of the right
/// kind.
pub open spec fn obj_wf(s: Seq<Object>, i: int) -> bool {
    match s[i] {
        Object::Blob(_) => true,
        Object::Tree(t) => forall|k: int|
            0 <= k < t.entries@.len() ==> entry_wf(s, i, #[trigger] t.entries@[k]),
        Object::Commit(c) => {
            &&& c.tree < i
            &&& is_tree_at(s, c.tree as int)
            &&& forall|k: int|
                0 <= k < c.parents@.len()
                    ==> #[trigger] c.parents@[k] < i && is_commit_at(s, c.parents@[k] as int)
        },
    }
}

pub open spec fn store_wf(s: Seq<Object>) -> bool {
    forall|i: int| 0 <= i < s.len() ==> #[trigger] obj_wf(s, i)
}

/// Extending a well-formed store leaves the well-formedness of existing
/// objects untouched: an object only ever looks at the store before it.
pub proof fn lemma_obj_wf_extend(s1: Seq<Object>, s2: Seq<Object>, i: int)
    requires
        s2.len() >= s1.len(),
        s2.subrange(0, s1.len() as int) == s1,
        0 <= i < s1.len(),
        obj_wf(s1, i),
    ensures
        obj_wf(s2, i),
{
    assert(s2[i] == s1.subrange(0, s1.len() as int)[i]);
    assert(s2[i] == s1[i]);
    match s1[i] {
        Object::Blob(_) => {}
        Object::Tree(t) => {
            assert forall|k: int|
                0 <= k < t.entries@.len() implies entry_wf(s2, i, #[trigger] t.entries@[k]) by {
                let e = t.entries@[k];
                assert(entry_wf(s1, i, e));
                if e.mode == MODE_TREE || e.mode != MODE_GITLINK {
                    if e.id < i {
                        assert(s2[e.id as int] == s1.subrange(0, s1.len() as int)[e.id as int]);
                    }
                }
            }
        }
        Object::Commit(c) => {
            assert(s2[c.tree as int] == s1.subrange(0, s1.len() as int)[c.tree as int]);
            assert forall|k: int|
                0 <= k < c.parents@.len() implies #[trigger] c.parents@[k] < i && is_commit_at(
                s2,
                c.parents@[k] as int,
            ) by {
                assert(c.parents@[k] < i && is_commit_at(s1, c.parents@[k] as int));
                assert(s2[c.parents@[k] as int] == s1.subrange(
                    0,
                    s1.len() as int,
                )[c.parents@[k] as int]);
            }
        }
    }
}

/// The append-only object store.
pub struct Store {
    objects: Vec<Object>,
}

impl View for Store {
    type V = Seq<Object>;

    closed spec fn view(&self) -> Seq<Object> {
        self.objects@
    }
}

impl Store {
    pub open spec fn wf(&self) -> bool {
        store_wf(self@)
    }

    /// An empty store.
    pub fn new() -> (s: Store)
        ensures
            s@ == Seq::<Object>::empty(),
            s.wf(),
    {
        let s = Store { objects: Vec::new() };
        proof {
            assert(s@ =~= Seq::<Object>::empty());
        }
        s
    }

    /// The number of objects stored; equivalently, the first unused
    /// identifier.
    pub fn len(&self) -> (n: usize)
        ensures
            n == self@.len(),
    {
        self.objects.len()
    }

    pub fn is_blob(&self, id: usize) -> (r: bool)
        ensures
            r == is_blob_at(self@, id as int),
    {
        if id < self.objects.len() {
            match &self.objects[id] {
                Object::Blob(_) => true,
                _ => false,
            }
        } else {
            false
        }
    }

    pub fn is_tree(&self, id: usize) -> (r: bool)
        ensures
            r == is_tree_at(self@, id as int),
    {
        if id < self.objects.len() {
            match &self.objects[id] {
                Object::Tree(_) => true,
                _ => false,
            }
        } else {
            false
        }
    }

    pub fn is_commit(&self, id: usize) -> (r: bool)
        ensures
            r == is_commit_at(self@, id as int),
    {
        if id < self.objects.len() {
            match &self.objects[id] {
                Object::Commit(_) => true,
                _ => false,
            }
        } else {
            false
        }
    }

    /// Borrow the blob at `id`.
    pub fn blob(&self, id: usize) -> (r: &Blob)
        requires
            is_blob_at(self@, id as int),
        ensures
            *r == blob_at(self@, id as int),
    {
        match &self.objects[id] {
            Object::Blob(b) => b,
            _ => vstd::pervasive::unreached(),
        }
    }

    /// Borrow the tree at `id`.
    pub fn tree(&self, id: usize) -> (r: &Tree)
        requires
            is_tree_at(self@, id as int),
        ensures
            *r == tree_at(self@, id as int),
    {
        match &self.objects[id] {
            Object::Tree(t) => t,
            _ => vstd::pervasive::unreached(),
        }
    }

    /// Borrow the commit at `id`.
    pub fn commit(&self, id: usize) -> (r: &Commit)
        requires
            is_commit_at(self@, id as int),
        ensures
            *r == commit_at(self@, id as int),
    {
        match &self.objects[id] {
            Object::Commit(c) => c,
            _ => vstd::pervasive::unreached(),
        }
    }

    /// Append an object whose references are already in order.
    fn add_object(&mut self, o: Object) -> (id: usize)
        requires
            old(self).wf(),
            obj_wf(old(self)@.push(o), old(self)@.len() as int),
        ensures
            final(self).wf(),
            id == old(self)@.len(),
            final(self)@ == old(self)@.push(o),
    {
        let ghost s1 = self@;
        let id = self.objects.len();
        self.objects.push(o);
        proof {
            assert(self@.subrange(0, s1.len() as int) =~= s1);
            assert forall|i: int| 0 <= i < self@.len() implies #[trigger] obj_wf(self@, i) by {
                if i < s1.len() {
                    lemma_obj_wf_extend(s1, self@, i);
                }
            }
        }
        id
    }

    /// Store a blob; its identifier is the old length of the store.
    pub fn add_blob(&mut self, data: Vec<u8>) -> (id: usize)
        requires
            old(self).wf(),
        ensures
            final(self).wf(),
            id == old(self)@.len(),
            final(self)@ == old(self)@.push(Object::Blob(Blob { data: data })),
    {
        self.add_object(Object::Blob(Blob { data }))
    }

    /// Store a tree. Every subtree entry must name a tree already stored and
    /// every file entry a blob already stored; otherwise nothing is added.
    pub fn add_tree(&mut self, entries: Vec<TreeEntry>) -> (r: Option<usize>)
        requires
            old(self).wf(),
        ensures
            final(self).wf(),
            r is Some <==> entries_ok(old(self)@, entries@),
            r is Some ==> r->Some_0 == old(self)@.len() && final(self)@ == old(self)@.push(
                Object::Tree(Tree { entries: entries }),
            ),
            r is None ==> final(self)@ == old(self)@,
    {
        let n = self.objects.len();
        let mut k: usize = 0;
        while k < entries.len()
            invariant
                self.wf(),
                n == self@.len(),
                k <= entries.len(),
                forall|j: int| 0 <= j < k ==> entry_wf(self@, n as int, #[trigger] entries@[j]),
            decreases entries.len() - k,
        {
            let e = &entries[k];
            let ok = if e.mode == MODE_TREE {
                e.id < n && self.is_tree(e.id)
            } else if e.mode == MODE_GITLINK {
                true
            } else {
                e.id < n && self.is_blob(e.id)
            };
            if !ok {
                return None;
            }
            k += 1;
        }
        let ghost s1 = self@;
        let ghost tree = Tree { entries: entries };
        proof {
            let s2 = s1.push(Object::Tree(tree));
            assert(s2[s1.len() as int] == Object::Tree(tree));
            assert forall|j: int|
                0 <= j < tree.entries@.len() implies entry_wf(
                s2,
                s1.len() as int,
                #[trigger] tree.entries@[j],
            ) by {
                assert(entry_wf(s1, s1.len() as int, tree.entries@[j]));
                let e = tree.entries@[j];
                if e.mode != MODE_GITLINK {
                    assert(s2[e.id as int] == s1[e.id as int]);
                }
            }
        }
        Some(self.add_object(Object::Tree(Tree { entries })))
    }

    /// Store a commit. Its tree must be a tree already stored and its parents
    /// commits already stored; otherwise nothing is added.
    pub fn add_commit(
        &mut self,
        tree: usize,
        parents: Vec<usize>,
        author: u64,
        committer: u64,
        message: u64,
    ) -> (r: Option<usize>)
        requires
            old(self).wf(),
        ensures
            final(self).wf(),
            r is Some <==> commit_ok(
                old(self)@,
                Commit { tree, parents, author, committer, message },
            ),
            r is Some ==> r->Some_0 == old(self)@.len() && final(self)@ == old(self)@.push(
                Object::Commit(Commit { tree, parents, author, committer, message }),
            ),
            r is None ==> final(self)@ == old(self)@,
    {
        let n = self.objects.len();
        if !(tree < n && self.is_tree(tree)) {
            return None;
        }
        let mut k: usize = 0;
        while k < parents.len()
            invariant
                self.wf(),
                n == self@.len(),
                k <= parents.len(),
                forall|j: int|
                    0 <= j < k ==> #[trigger] parents@[j] < n && is_commit_at(
                        self@,
                        parents@[j] as int,
                    ),
            decreases parents.len() - k,
        {
            let p = parents[k];
            if !(p < n && self.is_commit(p)) {
                proof {
                    let c = Commit { tree, parents, author, committer, message };
                    assert(c.parents@[k as int] == parents@[k as int]);
                    assert(!commit_ok(self@, c));
                }
                return None;
            }
            k += 1;
        }
        let ghost s1 = self@;
        let ghost c = Commit { tree, parents, author, committer, message };
        proof {
            let s2 = s1.push(Object::Commit(c));
            assert(s2[s1.len() as int] == Object::Commit(c));
            assert(s2[c.tree as int] == s1[c.tree as int]);
            assert forall|j: int|
                0 <= j < c.parents@.len() implies #[trigger] c.parents@[j] < s1.len()
                && is_commit_at(s2, c.parents@[j] as int) by {
                assert(s2[c.parents@[j] as int] == s1[c.parents@[j] as int]);
            }
        }
        Some(self.add_object(Object::Commit(Commit { tree, parents, author, committer, message })))
    }

    /// The parent identifiers of the commit at `id`, as a fresh vector.
    pub fn commit_parent_ids(&self, id: usize) -> (r: Vec<usize>)
        requires
            is_commit_at(self@, id as int),
        ensures
            r@ == commit_at(self@, id as int).parents@,
    {
        let r = self.commit(id).parents.clone();
        proof {
            assert(r@ =~= commit_at(self@, id as int).parents@);
        }
        r
    }
}

/// All entries reference objects that stand in `s` (a tree added at position
/// `s.len()` would be well formed).
pub open spec fn entries_ok(s: Seq<Object>, entries: Seq<TreeEntry>) -> bool {
    forall|k: int| 0 <= k < entries.len() ==> entry_wf(s, s.len() as int, #[trigger] entries[k])
}

/// The commit's tree and parents reference objects that stand in `s`.
pub open spec fn commit_ok(s: Seq<Object>, c: Commit) -> bool {
    &&& c.tree < s.len()
    &&& is_tree_at(s, c.tree as int)
    &&& forall|k: int|
        0 <= k < c.parents@.len() ==> #[trigger] c.parents@[k] < s.len() && is_commit_at(
            s,
            c.parents@[k] as int,
        )
}

/// Byte-for-byte equality of two byte vectors.
pub fn bytes_eq(a: &Vec<u8>, b: &Vec<u8>) -> (r: bool)
    ensures
        r == (a@ == b@),
{
    if a.len() != b.len() {
        proof {
            assert(a@ != b@);
        }
        return false;
    }
    let mut i: usize = 0;
    while i < a.len()
        invariant
            i <= a.len(),
            a@.len() == b@.len(),
            forall|j: int| 0 <= j < i ==> a@[j] == b@[j],
        decreases a.len() - i,
    {
        if a[i] != b[i] {
            return false;
        }
        i += 1;
    }
    proof {
        assert(a@ =~= b@);
    }
    true
}

/// A fresh copy of a byte vector.
pub fn clone_bytes(v: &Vec<u8>) -> (r: Vec<u8>)
    ensures
        r@ == v@,
{
    let r = v.clone();
    proof {
        assert(r@ =~= v@);
    }
    r
}

/// A fresh copy of a tree entry.
pub fn clone_entry(e: &TreeEntry) -> (r: TreeEntry)
    ensures
        r.name@ == e.name@,
        r.mode == e.mode,
        r.id == e.id,
{
    TreeEntry { name: clone_bytes(&e.name), mode: e.mode, id: e.id }
}

} // verus!
