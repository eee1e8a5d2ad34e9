//! Who registers and what proves it: the identity of a service and the session
//! that the registry hands out for it.

use uuid::Uuid;
use vstd::prelude::*;
use vstd::utf8::*;

verus! {

/// The pair that a service registers under.
#[derive(Clone, Debug, PartialEq, Eq, Hash)]
pub struct ServiceIdentity {
    pub protocol: String,
    pub address: String,
}

/// An identity as contracts see it.
pub struct IdentityView {
    pub protocol: Seq<char>,
    pub address: Seq<char>,
}

impl View for ServiceIdentity {
    type V = IdentityView;

    open spec fn view(&self) -> IdentityView {
        IdentityView { protocol: self.protocol@, address: self.address@ }
    }
}

/// The credential of one registration: 128 bits that nobody can guess.
#[derive(Clone, Copy, Debug, PartialEq, Eq, Hash, Structural)]
pub struct Session {
    pub token: u128,
}

/// `Uuid::new_v4` draws a random version-4 UUID from the system's generator,
/// and `as_u128` gives its sixteen bytes as one number. The draw is random:
/// nothing is promised of the session. Where the system cannot give random
/// bytes, the draw panics.
#[verifier::external_body]
pub(crate) fn new_v4_session() -> (session: Session) {
    Session { token: Uuid::new_v4().as_u128() }
}

/// Whether two texts hold the same characters.
pub fn same_text(left: &str, right: &str) -> (same: bool)
    ensures
        same == (left@ == right@),
{
    let a = left.as_bytes();
    let b = right.as_bytes();
    proof {
        encode_utf8_decode_utf8(left@);
        encode_utf8_decode_utf8(right@);
    }
    if a.len() != b.len() {
        return false;
    }
    let mut i: usize = 0;
    while i < a.len()
        invariant
            i <= a@.len(),
            a@.len() == b@.len(),
            a@ == encode_utf8(left@),
            b@ == encode_utf8(right@),
            forall|k: int| 0 <= k < i ==> a@[k] == b@[k],
        decreases a@.len() - i,
    {
        if a[i] != b[i] {
            assert(a@[i as int] != b@[i as int]);
            return false;
        }
        i += 1;
    }
    proof {
        assert(a@ =~= b@);
    }
    true
}

impl ServiceIdentity {
    /// A copy of this identity.
    pub fn duplicate(&self) -> (copy: ServiceIdentity)
        ensures
            copy@ == self@,
    {
        ServiceIdentity { protocol: self.protocol.clone(), address: self.address.clone() }
    }

    /// Whether two identities name the same protocol at the same address.
    pub fn same_as(&self, other: &ServiceIdentity) -> (same: bool)
        ensures
            same == (self@ == other@),
    {
        same_text(self.protocol.as_str(), other.protocol.as_str()) && same_text(
            self.address.as_str(),
            other.address.as_str(),
        )
    }
}

} // verus!
