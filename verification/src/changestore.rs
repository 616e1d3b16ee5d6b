//! Where changes are stored: a store gives the change of a hash.
use vstd::prelude::*;
use crate::change::Change;
use crate::pristine::ChangeHash;

verus! {

/// A store of changes, which gives each change it holds by its hash.
pub trait ChangeStore {
    type Error;

    /// The hashes of the changes that this store holds.
    spec fn stored(&self) -> Set<ChangeHash>;

    /// The dependencies of the change of hash `h` that this store holds.
    spec fn dependencies_of(&self, h: ChangeHash) -> Seq<ChangeHash>;

    /// A store holds finitely many changes.
    proof fn lemma_stored_finite(&self)
        ensures
            self.stored().finite(),
    ;

    /// The change of hash `h`. Only a change that the store holds is given,
    /// with the dependencies that the store records for it.
    fn get_change(&self, h: &ChangeHash) -> (r: Result<Change, Self::Error>)
        ensures
            r is Ok ==> self.stored().contains(*h),
            r matches Ok(c) ==> c.dependencies@ == self.dependencies_of(*h),
    ;
}

/// The error of a store that does not hold the requested change.
#[derive(Clone, Copy, Debug, PartialEq, Eq, Structural)]
pub struct ChangeNotFound {
    pub hash: ChangeHash,
}

/// A store of changes held in memory.
#[derive(Clone, Debug)]
pub struct MemoryChangeStore {
    pub changes: Vec<(ChangeHash, Change)>,
}

/// The dependencies of the first change of hash `h` in `s`.
pub open spec fn first_dependencies(s: Seq<(ChangeHash, Change)>, h: ChangeHash) -> Seq<ChangeHash>
    decreases s.len(),
{
    if s.len() == 0 {
        Seq::empty()
    } else if s[0].0 == h {
        s[0].1.dependencies@
    } else {
        first_dependencies(s.drop_first(), h)
    }
}

/// A copy of the hashes `v`.
fn copy_hashes(v: &Vec<ChangeHash>) -> (r: Vec<ChangeHash>)
    ensures
        r@ == v@,
{
    let mut r: Vec<ChangeHash> = Vec::new();
    let mut i: usize = 0;
    while i < v.len()
        invariant
            0 <= i <= v@.len(),
            r@ == v@.take(i as int),
        decreases v.len() - i,
    {
        r.push(v[i]);
        assert(r@ == v@.take(i + 1));
        i = i + 1;
    }
    assert(v@.take(v@.len() as int) == v@);
    r
}

impl MemoryChangeStore {
    pub fn new() -> (r: MemoryChangeStore)
        ensures
            r.changes@.len() == 0,
    {
        MemoryChangeStore { changes: Vec::new() }
    }

    /// Adds the change `c` of hash `h` to the store.
    pub fn insert(&mut self, h: ChangeHash, c: Change)
        ensures
            final(self).changes@ == old(self).changes@.push((h, c)),
    {
        self.changes.push((h, c));
    }
}

impl ChangeStore for MemoryChangeStore {
    type Error = ChangeNotFound;

    open spec fn stored(&self) -> Set<ChangeHash> {
        self.changes@.map_values(|x: (ChangeHash, Change)| x.0).to_set()
    }

    open spec fn dependencies_of(&self, h: ChangeHash) -> Seq<ChangeHash> {
        first_dependencies(self.changes@, h)
    }

    proof fn lemma_stored_finite(&self) {
        vstd::seq_lib::seq_to_set_is_finite(self.changes@.map_values(|x: (ChangeHash, Change)| x.0));
    }

    fn get_change(&self, h: &ChangeHash) -> (r: Result<Change, ChangeNotFound>)
        ensures
            r is Ok <==> self.stored().contains(*h),
            r matches Err(e) ==> e.hash == *h,
    {
        let ghost hs = self.changes@.map_values(|x: (ChangeHash, Change)| x.0);
        let mut i: usize = 0;
        assert(self.changes@.skip(0) == self.changes@);
        while i < self.changes.len()
            invariant
                0 <= i <= self.changes@.len(),
                hs == self.changes@.map_values(|x: (ChangeHash, Change)| x.0),
                forall|j: int| 0 <= j < i ==> hs[j] != *h,
                first_dependencies(self.changes@, *h) == first_dependencies(self.changes@.skip(i as int), *h),
            decreases self.changes.len() - i,
        {
            assert(self.changes@.skip(i as int)[0] == self.changes@[i as int]);
            if self.changes[i].0 == *h {
                assert(hs[i as int] == *h);
                assert(hs.to_set().contains(*h));
                let c = &self.changes[i].1;
                return Ok(Change {
                    dependencies: copy_hashes(&c.dependencies),
                    extra_known: c.extra_known.clone(),
                    changes: c.changes.clone(),
                });
            }
            assert(self.changes@.skip(i as int).drop_first() == self.changes@.skip(i + 1));
            i = i + 1;
        }
        assert(!hs.to_set().contains(*h)) by {
            if hs.to_set().contains(*h) {
                assert(hs.contains(*h));
                let j = choose|j: int| 0 <= j < hs.len() && hs[j] == *h;
                assert(hs[j] != *h);
            }
        }
        Err(ChangeNotFound { hash: *h })
    }
}

} // verus!
