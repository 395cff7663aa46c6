//! The failures the registry reports. Each carries the values it speaks of
//! and renders its own single-line diagnostic.

use vstd::prelude::*;

use crate::text::{append_dec, dec_digits};

verus! {

/// `add` was given a `(user, host)` pair the registry already holds.
#[derive(Debug)]
pub struct DuplicateError {
    pub user: String,
    pub host: String,
}

impl DuplicateError {
    /// The single-line diagnostic for this failure.
    pub fn message(&self) -> (r: String)
        ensures
            r@ == "Server with host "@ + self.host@ + " and user "@ + self.user@
                + " already exists"@,
    {
        let mut s = String::from_str("Server with host ");
        s.append(self.host.as_str());
        s.append(" and user ");
        s.append(self.user.as_str());
        s.append(" already exists");
        s
    }
}

/// `remove` or `use` named an id that no profile carries.
#[derive(Debug)]
pub struct NotFoundError {
    pub id: u32,
}

impl NotFoundError {
    /// The single-line diagnostic for this failure.
    pub fn message(&self) -> (r: String)
        ensures
            r@ == "Server with ID "@ + dec_digits(self.id as nat) + " not found"@,
    {
        let mut s = String::from_str("Server with ID ");
        append_dec(&mut s, self.id);
        s.append(" not found");
        s
    }
}

/// The persisted snapshot exists but does not hold a well-formed registry.
#[derive(Debug)]
pub struct CorruptStateError {
}

impl CorruptStateError {
    /// The single-line diagnostic for this failure.
    pub fn message(&self) -> (r: String)
        ensures
            r@ == "SSH registry file is corrupt"@,
    {
        String::from_str("SSH registry file is corrupt")
    }
}

} // verus!
