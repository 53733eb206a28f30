//! Processes.

pub mod elf;
pub mod fork;
pub mod image_laws;
pub mod launch;
pub mod laws;
pub mod lives;
pub mod map_laws;
pub mod mem;
pub mod process;
pub mod regs;
pub mod sched;
pub mod signals;
pub mod space_laws;
pub mod stack;
pub mod table;
