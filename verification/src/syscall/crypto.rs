//! The keys of users.

use std::collections::BTreeMap;
use vstd::prelude::*;

verus! {

/// The keys of all users, at most one of each.
pub struct UserKeys {
    pub keys: BTreeMap<u32, [u8; 32]>,
}

impl UserKeys {
    /// The key that each user has.
    pub open spec fn key_of(&self, uid: u32) -> Option<Seq<u8>> {
        if self.keys@.contains_key(uid) {
            Some(self.keys@[uid]@)
        } else {
            None
        }
    }

    pub fn new() -> (r: Self)
        ensures
            forall|u: u32| (#[trigger] r.key_of(u)) is None,
    {
        UserKeys { keys: BTreeMap::new() }
    }

    /// Gives a user a key, in the place of an earlier one. A key has 32 bytes.
    pub fn sys_add_user_key(&mut self, uid: u32, key: &[u8]) -> (r: i64)
        ensures
            key@.len() != 32 ==> r == -1 && *final(self) == *old(self),
            key@.len() == 32 ==> r == 0 && final(self).key_of(uid) == Some(key@) && forall|u: u32|
                u != uid ==> #[trigger] final(self).key_of(u) == old(self).key_of(u),
    {
        if key.len() != 32 {
            return -1;
        }
        let mut copy: [u8; 32] = [0u8; 32];
        let mut i: usize = 0;
        while i < 32
            invariant
                i <= 32,
                key@.len() == 32,
                forall|k: int| 0 <= k < i ==> copy@[k] == key@[k],
            decreases 32 - i,
        {
            copy[i] = key[i];
            i = i + 1;
        }
        proof {
            assert(copy@ =~= key@);
        }
        self.keys.insert(uid, copy);
        0
    }

    /// The key of a user.
    pub fn get(&self, uid: u32) -> (r: Option<[u8; 32]>)
        ensures
            match r {
                Some(k) => self.key_of(uid) == Some(k@),
                None => self.key_of(uid) is None,
            },
    {
        match self.keys.get(&uid) {
            Some(k) => Some(*k),
            None => None,
        }
    }
}

/// The key of a user.
pub fn get_user_key(keys: &UserKeys, uid: u32) -> (r: Option<[u8; 32]>)
    ensures
        match r {
            Some(k) => keys.key_of(uid) == Some(k@),
            None => keys.key_of(uid) is None,
        },
{
    keys.get(uid)
}

} // verus!
