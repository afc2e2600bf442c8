//! Named, versioned collections of trusted root members.
//!
//! Serialization and signature verification of root sets happen outside this
//! library; a `RootSet` here is the already-verified content.

use vstd::prelude::*;
use crate::address::Identity;
use crate::endpoint::Endpoint;

verus! {

/// One member of a root set: a root's identity and the endpoints it is
/// reachable at.
#[derive(Debug)]
pub struct RootSetMember {
    pub identity: Identity,
    pub endpoints: Vec<Endpoint>,
}

/// A named, versioned collection of root members. Sets with equal names are
/// ordered by `should_replace` (monotone in `revision`).
#[derive(Debug)]
pub struct RootSet {
    pub name: String,
    pub revision: u64,
    pub members: Vec<RootSetMember>,
}

/// Two members carry the same content.
pub open spec fn same_member(a: RootSetMember, b: RootSetMember) -> bool {
    a.identity == b.identity && a.endpoints@ == b.endpoints@
}

/// Two root sets carry the same content.
pub open spec fn same_root_set(a: RootSet, b: RootSet) -> bool {
    &&& a.name@ == b.name@
    &&& a.revision == b.revision
    &&& a.members@.len() == b.members@.len()
    &&& forall|j: int|
        0 <= j < a.members@.len() ==> same_member(#[trigger] a.members@[j], b.members@[j])
}

impl Clone for RootSetMember {
    fn clone(&self) -> (res: Self)
        ensures
            same_member(res, *self),
    {
        let mut endpoints: Vec<Endpoint> = Vec::new();
        let mut i: usize = 0;
        while i < self.endpoints.len()
            invariant
                i <= self.endpoints.len(),
                endpoints@ =~= self.endpoints@.subrange(0, i as int),
            decreases self.endpoints.len() - i,
        {
            endpoints.push(self.endpoints[i]);
            i = i + 1;
        }
        proof {
            assert(endpoints@ =~= self.endpoints@);
        }
        RootSetMember { identity: self.identity, endpoints }
    }
}

impl Clone for RootSet {
    fn clone(&self) -> (res: Self)
        ensures
            same_root_set(res, *self),
    {
        let mut members: Vec<RootSetMember> = Vec::new();
        let mut i: usize = 0;
        while i < self.members.len()
            invariant
                i <= self.members.len(),
                members@.len() == i,
                forall|j: int| 0 <= j < i ==> same_member(#[trigger] members@[j], self.members@[j]),
            decreases self.members.len() - i,
        {
            members.push(self.members[i].clone());
            i = i + 1;
        }
        RootSet { name: self.name.clone(), revision: self.revision, members }
    }
}

impl RootSet {
    /// Whether this set should replace `existing`: same name, newer revision.
    pub open spec fn spec_should_replace(self, existing: RootSet) -> bool {
        self.name@ == existing.name@ && self.revision > existing.revision
    }

    /// Whether this set should replace `existing` under the same name.
    pub fn should_replace(&self, existing: &RootSet) -> (r: bool)
        ensures
            r == self.spec_should_replace(*existing),
    {
        self.name == existing.name && self.revision > existing.revision
    }

    /// Whether `id` is one of this set's members.
    pub fn has_member(&self, id: &Identity) -> (r: bool)
        ensures
            r == exists|j: int| 0 <= j < self.members@.len() && self.members@[j].identity == *id,
    {
        let mut i: usize = 0;
        while i < self.members.len()
            invariant
                i <= self.members.len(),
                forall|j: int| 0 <= j < i ==> self.members@[j].identity != *id,
            decreases self.members.len() - i,
        {
            if self.members[i].identity == *id {
                return true;
            }
            i = i + 1;
        }
        false
    }
}

} // verus!
