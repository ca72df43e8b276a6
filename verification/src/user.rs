//! Users: an address and a display name.
use crate::Address;
use vstd::prelude::*;

verus! {

/// A user: the address identifies them, the name is for display.
#[derive(Debug)]
pub struct User {
    pub address: Address,
    pub name: String,
}

impl User {
    /// Builds a user value from an address and a name.
    pub fn new(address: Address, name: String) -> (r: User)
        ensures
            r.address@ == address@,
            r.name@ == name@,
    {
        User { address, name }
    }

    /// Gives the user a new display name.
    pub fn rename(&mut self, new_name: String) -> (r: Result<(), String>)
        ensures
            final(self).name@ == new_name@,
            final(self).address == old(self).address,
            r is Ok,
    {
        self.name = new_name;
        Ok(())
    }
}

} // verus!
