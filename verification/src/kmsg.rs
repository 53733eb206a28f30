//! The device through which programs see the messages of the kernel.

use vstd::prelude::*;

verus! {

pub struct KmsgDev;

impl KmsgDev {
    /// There is always something to read.
    pub fn poll(&self) -> (r: Result<bool, ()>)
        ensures
            r == Ok::<bool, ()>(true),
    {
        Ok(true)
    }

    /// Answers the question where the oldest message is; any other gets zero.
    pub fn ioctl(&mut self, cmd: u64, get_head: u64, head: i64) -> (r: Result<i64, ()>)
        ensures
            *final(self) == *old(self),
            r == Ok::<i64, ()>(
                if cmd == get_head {
                    head
                } else {
                    0
                },
            ),
    {
        if cmd == get_head {
            Ok(head)
        } else {
            Ok(0)
        }
    }

    /// The device cannot be removed.
    pub fn unlink(&mut self) -> (r: Result<i32, ()>)
        ensures
            *final(self) == *old(self),
            r == Ok::<i32, ()>(-1i32),
    {
        Ok(-1)
    }
}

} // verus!
