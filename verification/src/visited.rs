//! The set of directories already entered during one traversal.

use crate::text::{list_contains, texts};
use vstd::prelude::*;
use vstd::string::*;

verus! {

/// Canonical paths of the directories a traversal has entered. Distinct paths
/// may resolve to one physical directory; the canonical path tells them apart.
pub struct VisitedSet {
    paths: Vec<String>,
}

impl View for VisitedSet {
    type V = Set<Seq<char>>;

    closed spec fn view(&self) -> Set<Seq<char>> {
        texts(self.paths@).to_set()
    }
}

impl VisitedSet {
    /// A set that holds no path.
    pub fn new() -> (r: VisitedSet)
        ensures
            r@ == Set::<Seq<char>>::empty(),
    {
        let r = VisitedSet { paths: Vec::new() };
        assert(texts(r.paths@).to_set() =~= Set::<Seq<char>>::empty());
        r
    }

    /// Whether `canonical` was inserted before.
    pub fn contains(&self, canonical: &str) -> (r: bool)
        ensures
            r == self@.contains(canonical@),
    {
        list_contains(&self.paths, canonical)
    }

    /// Records `canonical`. Returns whether it is new to the set.
    pub fn insert(&mut self, canonical: String) -> (r: bool)
        ensures
            r == !old(self)@.contains(canonical@),
            final(self)@ == old(self)@.insert(canonical@),
    {
        if list_contains(&self.paths, canonical.as_str()) {
            assert(self@.insert(canonical@) =~= self@);
            false
        } else {
            let ghost before = texts(self.paths@);
            self.paths.push(canonical);
            proof {
                let after = texts(self.paths@);
                assert(after == before.push(canonical@));
                assert(after.to_set() =~= before.to_set().insert(canonical@)) by {
                    assert forall|x: Seq<char>| after.to_set().contains(x) implies before.to_set().insert(
                        canonical@,
                    ).contains(x) by {
                        let i = choose|i: int| 0 <= i < after.len() && after[i] == x;
                        if i < before.len() {
                            assert(before[i] == x);
                        }
                    }
                    assert forall|x: Seq<char>|
                        before.to_set().insert(canonical@).contains(x) implies after.to_set().contains(
                        x,
                    ) by {
                        if x == canonical@ {
                            assert(after[before.len() as int] == x);
                        } else {
                            let i = choose|i: int| 0 <= i < before.len() && before[i] == x;
                            assert(after[i] == x);
                        }
                    }
                }
            }
            true
        }
    }
}

} // verus!
