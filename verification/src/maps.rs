//! The rewrite map and the user-supplied gitlink mappings.
//!
//! The rewrite map translates pre-rewrite object identifiers to their
//! post-rewrite images. Keys are identifiers of the store as it stood before
//! the run, so the map is a dense table indexed by old identifier. It grows
//! monotonically: entries are set while rewriting and never cleared.

use vstd::prelude::*;

verus! {

/// The old-to-new identifier table.
pub struct RewriteMap {
    entries: Vec<Option<usize>>,
}

impl View for RewriteMap {
    type V = Seq<Option<usize>>;

    closed spec fn view(&self) -> Seq<Option<usize>> {
        self.entries@
    }
}

/// What a lookup of `k` answers: the entry where `k` is a key of the table,
/// and nothing everywhere else.
pub open spec fn map_lookup(m: Seq<Option<usize>>, k: usize) -> Option<usize> {
    if k < m.len() {
        m[k as int]
    } else {
        None
    }
}

impl RewriteMap {
    /// A table for old identifiers `0 .. len`, with no entry set.
    pub fn new(len: usize) -> (m: RewriteMap)
        ensures
            m@.len() == len,
            forall|k: int| 0 <= k < len ==> m@[k] is None,
    {
        let mut entries: Vec<Option<usize>> = Vec::new();
        let mut i: usize = 0;
        while i < len
            invariant
                i <= len,
                entries@.len() == i,
                forall|k: int| 0 <= k < i ==> entries@[k] is None,
            decreases len - i,
        {
            entries.push(None);
            i += 1;
        }
        RewriteMap { entries }
    }

    pub fn len(&self) -> (n: usize)
        ensures
            n == self@.len(),
    {
        self.entries.len()
    }

    pub fn get(&self, k: usize) -> (r: Option<usize>)
        ensures
            r == map_lookup(self@, k),
    {
        if k < self.entries.len() {
            self.entries[k]
        } else {
            None
        }
    }

    /// A copy of the table as it stands.
    pub fn snapshot(&self) -> (r: RewriteMap)
        ensures
            r@ == self@,
    {
        let mut entries: Vec<Option<usize>> = Vec::new();
        let mut i: usize = 0;
        while i < self.entries.len()
            invariant
                i <= self@.len(),
                entries@.len() == i,
                forall|k: int| 0 <= k < i ==> entries@[k] == self@[k],
            decreases self@.len() - i,
        {
            entries.push(self.entries[i]);
            i += 1;
        }
        let r = RewriteMap { entries };
        proof {
            assert(r@ =~= self@);
        }
        r
    }

    pub fn set(&mut self, k: usize, v: usize)
        requires
            k < old(self)@.len(),
        ensures
            final(self)@ == old(self)@.update(k as int, Some(v)),
    {
        self.entries.set(k, Some(v));
    }
}

/// The user-supplied explicit gitlink mappings: whenever the parent history
/// references the first identifier of a pair, treat it as a reference to the
/// second. The first pair whose key matches wins.
pub struct Mappings {
    pub pairs: Vec<(usize, usize)>,
}

/// First-match lookup among the mapping pairs.
pub open spec fn mappings_lookup(pairs: Seq<(usize, usize)>, k: usize) -> Option<usize>
    decreases pairs.len(),
{
    if pairs.len() == 0 {
        None
    } else if pairs[0].0 == k {
        Some(pairs[0].1)
    } else {
        mappings_lookup(pairs.drop_first(), k)
    }
}

impl Mappings {
    pub fn new() -> (m: Mappings)
        ensures
            m.pairs@ == Seq::<(usize, usize)>::empty(),
    {
        let m = Mappings { pairs: Vec::new() };
        proof {
            assert(m.pairs@ =~= Seq::<(usize, usize)>::empty());
        }
        m
    }

    pub fn push(&mut self, from: usize, to: usize)
        ensures
            final(self).pairs@ == old(self).pairs@.push((from, to)),
    {
        self.pairs.push((from, to));
    }

    pub fn get(&self, k: usize) -> (r: Option<usize>)
        ensures
            r == mappings_lookup(self.pairs@, k),
    {
        let mut i: usize = 0;
        proof {
            assert(self.pairs@.skip(0) =~= self.pairs@);
        }
        while i < self.pairs.len()
            invariant
                i <= self.pairs@.len(),
                mappings_lookup(self.pairs@, k) == mappings_lookup(self.pairs@.skip(i as int), k),
            decreases self.pairs@.len() - i,
        {
            if self.pairs[i].0 == k {
                proof {
                    assert(self.pairs@.skip(i as int)[0] == self.pairs@[i as int]);
                }
                return Some(self.pairs[i].1);
            }
            proof {
                assert(self.pairs@.skip(i as int)[0] == self.pairs@[i as int]);
                assert(self.pairs@.skip(i as int).drop_first() =~= self.pairs@.skip(i + 1));
            }
            i += 1;
        }
        proof {
            assert(self.pairs@.skip(i as int).len() == 0);
        }
        None
    }
}

} // verus!
