//! The rules behind the system calls.

pub mod call_laws;
pub mod crypto;
pub mod dirent;
pub mod dispatch;
pub mod exec;
pub mod file_laws;
pub mod files;
pub mod homes;
pub mod laws;
pub mod memory;
pub mod misc;
pub mod misc_laws;
pub mod path_laws;
pub mod pathname;
pub mod pathops;
pub mod poll;
pub mod queries;
pub mod route;
pub mod signal;
pub mod sleep;
pub mod sockaddr;
pub mod socket_laws;
pub mod sockets;
pub mod stat;
pub mod task_laws;
pub mod time;
pub mod user_laws;
pub mod users;
pub mod utils;
pub mod vectors;
pub mod wait;
