//! The console: text on the screen.

pub mod framebuffer;
pub mod laws;

use vstd::prelude::*;

verus! {

/// The programs of which the first that is there is started.
pub open spec fn init_programs() -> Seq<Seq<char>> {
    seq!["/sbin/twinit"@, "/bin/twinit"@, "/bin/init"@]
}

/// The program to look for after `tried` others were not there.
pub fn init_program(tried: usize) -> (r: Option<&'static str>)
    ensures
        match r {
            Some(p) => tried < init_programs().len() && p@ == init_programs()[tried as int],
            None => tried >= init_programs().len(),
        },
{
    if tried == 0 {
        Some("/sbin/twinit")
    } else if tried == 1 {
        Some("/bin/twinit")
    } else if tried == 2 {
        Some("/bin/init")
    } else {
        None
    }
}

} // verus!
