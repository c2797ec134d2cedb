//! The hardware-independent parts of the RustyPI kernel and of its user programs' runtime:
//! protocols, data structures, file system and message encoding, each with a contract.

pub mod abi;
pub mod block;
pub mod bytes;
pub mod console;
pub mod elf;
pub mod executables;
pub mod fat;
pub mod frames;
pub mod graphics;
pub mod heap;
pub mod keys;
pub mod line;
pub mod link;
pub mod lock;
pub mod mailbox;
pub mod mbr;
pub mod net;
pub mod paging;
pub mod path;
pub mod runtime;
pub mod sched;
pub mod sd;
pub mod session;
pub mod text;
pub mod time;
pub mod update;
pub mod usb;
pub mod user;
pub mod version;
