//! The identities that are registered: the set that keeps an identity from
//! being registered twice.

use crate::identity::{IdentityView, ServiceIdentity};
use vstd::prelude::*;

verus! {

/// A set of identities.
pub struct KnownSet {
    ids: Vec<ServiceIdentity>,
}

/// Whether `id` stands in the list.
spec fn listed(ids: Seq<ServiceIdentity>, id: IdentityView) -> bool {
    exists|i: int| 0 <= i < ids.len() && (#[trigger] ids[i])@ == id
}

impl View for KnownSet {
    type V = Set<IdentityView>;

    closed spec fn view(&self) -> Set<IdentityView> {
        Set::new(|id: IdentityView| listed(self.ids@, id))
    }
}

impl KnownSet {
    /// No identity is held twice.
    pub closed spec fn wf(&self) -> bool {
        forall|i: int, j: int|
            0 <= i < j < self.ids@.len() ==> (#[trigger] self.ids@[i])@ != (#[trigger] self.ids@[j])@
    }

    /// The empty set.
    pub fn new() -> (known: KnownSet)
        ensures
            known.wf(),
            known@ == Set::<IdentityView>::empty(),
    {
        let known = KnownSet { ids: Vec::new() };
        assert(known@ =~= Set::<IdentityView>::empty());
        known
    }

    /// Where `id` stands in the list.
    fn find(&self, id: &ServiceIdentity) -> (at: Option<usize>)
        ensures
            match at {
                Some(i) => i < self.ids@.len() && self.ids@[i as int]@ == id@,
                None => !listed(self.ids@, id@),
            },
    {
        let mut i: usize = 0;
        while i < self.ids.len()
            invariant
                i <= self.ids@.len(),
                forall|k: int| 0 <= k < i ==> (#[trigger] self.ids@[k])@ != id@,
            decreases self.ids@.len() - i,
        {
            if self.ids[i].same_as(id) {
                return Some(i);
            }
            i += 1;
        }
        None
    }

    /// Whether `id` is in the set.
    pub fn contains(&self, id: &ServiceIdentity) -> (found: bool)
        ensures
            found == self@.contains(id@),
    {
        self.find(id).is_some()
    }

    /// Puts `id` into the set. It returns whether the identity is new to it.
    pub fn insert(&mut self, id: ServiceIdentity) -> (fresh: bool)
        requires
            old(self).wf(),
        ensures
            final(self).wf(),
            fresh == !old(self)@.contains(id@),
            final(self)@ == old(self)@.insert(id@),
    {
        if self.find(&id).is_some() {
            assert(self@ =~= old(self)@.insert(id@));
            return false;
        }
        self.ids.push(id);
        proof {
            let before = old(self).ids@;
            let after = self.ids@;
            assert forall|x: IdentityView| listed(after, x) <==> listed(before, x) || x == id@ by {
                if listed(before, x) {
                    let i = choose|i: int| 0 <= i < before.len() && before[i]@ == x;
                    assert(after[i]@ == x);
                }
                if x == id@ {
                    assert(after[before.len() as int]@ == x);
                }
                if listed(after, x) {
                    let i = choose|i: int| 0 <= i < after.len() && after[i]@ == x;
                    if i < before.len() {
                        assert(before[i]@ == x);
                    }
                }
            }
            assert(self@ =~= old(self)@.insert(id@));
            assert forall|i: int, j: int| 0 <= i < j < after.len() implies (#[trigger] after[i])@ != (
            #[trigger] after[j])@ by {
                if j == before.len() {
                    assert(before[i]@ == after[i]@);
                }
            }
        }
        true
    }

    /// Takes `id` out of the set. It returns whether the identity was in it.
    pub fn remove(&mut self, id: &ServiceIdentity) -> (found: bool)
        requires
            old(self).wf(),
        ensures
            final(self).wf(),
            found == old(self)@.contains(id@),
            final(self)@ == old(self)@.remove(id@),
    {
        let at = match self.find(id) {
            Some(at) => at,
            None => {
                assert(self@ =~= old(self)@.remove(id@));
                return false;
            },
        };
        self.ids.remove(at);
        proof {
            let before = old(self).ids@;
            let after = self.ids@;
            assert forall|x: IdentityView| listed(after, x) <==> listed(before, x) && x != id@ by {
                if listed(before, x) && x != id@ {
                    let i = choose|i: int| 0 <= i < before.len() && before[i]@ == x;
                    if i < at {
                        assert(after[i]@ == x);
                    } else {
                        assert(after[i - 1]@ == x);
                    }
                }
                if listed(after, x) {
                    let i = choose|i: int| 0 <= i < after.len() && after[i]@ == x;
                    if i < at {
                        assert(before[i]@ == x);
                    } else {
                        assert(before[i + 1]@ == x);
                    }
                }
            }
            assert(self@ =~= old(self)@.remove(id@));
            assert forall|i: int, j: int| 0 <= i < j < after.len() implies (#[trigger] after[i])@ != (
            #[trigger] after[j])@ by {
                let a = if i < at {
                    i
                } else {
                    i + 1
                };
                let b = if j < at {
                    j
                } else {
                    j + 1
                };
                assert(after[i] == before[a]);
                assert(after[j] == before[b]);
            }
        }
        true
    }
}

} // verus!
