//! The verified core of the Twilight kernel: file systems, memory bookkeeping,
//! processes, sockets and the rules behind the system calls.

pub mod acpi;
pub mod block;
pub mod bytes;
pub mod console;
pub mod disk;
pub mod errno;
pub mod fs;
pub mod iso9660;
pub mod kmsg;
pub mod memfd;
pub mod memory;
pub mod net;
pub mod partition;
pub mod paths;
pub mod preempt;
pub mod proc;
pub mod store_laws;
pub mod syscall;
pub mod twilight_fs;
pub mod vfs;
