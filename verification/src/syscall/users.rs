//! Who the programs run as.

use vstd::prelude::*;

verus! {

/// The user and the group that programs act for.
#[derive(Debug, Clone, Copy, PartialEq, Eq, Structural)]
pub struct Users {
    pub uid: u64,
    pub gid: u64,
}

impl Users {
    /// Makes programs act for user `uid`. The environment that they are given is not kept here.
    pub fn setuid(&mut self, uid: u64) -> (r: i64)
        ensures
            *final(self) == (Users { uid, ..*old(self) }),
            r == 0,
    {
        self.uid = uid;
        0
    }

    pub fn geteuid(&self) -> (r: i64)
        ensures
            r == self.uid as i64,
    {
        #[verifier::truncate]
        (self.uid as i64)
    }

    pub fn setgid(&mut self, gid: u64) -> (r: i64)
        ensures
            *final(self) == (Users { gid, ..*old(self) }),
            r == 0,
    {
        self.gid = gid;
        0
    }

    pub fn getegid(&self) -> (r: i64)
        ensures
            r == self.gid as i64,
    {
        #[verifier::truncate]
        (self.gid as i64)
    }
}

} // verus!
