//! FAT16 and FAT32 filesystems.
//!
//! A FAT volume is: a boot sector describing the layout, the file allocation table (a linked
//! list of clusters per file, one entry per cluster), the root directory (a fixed region on
//! FAT16, a cluster chain on FAT32), and the data area of equally sized clusters. Directories
//! are arrays of 32-byte entries; long names are stored in extra entries before the 8.3 one.
//!
//! Every chain is checked as it is followed, so a corrupt volume gives an error rather than a
//! hang or garbage.

pub mod change;
pub mod counts;
pub mod cuts;
pub mod entries;
pub mod failures;
pub mod foreign;
pub mod given;
pub mod laws;
pub mod listings;
pub mod names;
pub mod neat;
pub mod order;
pub mod others;
pub mod paths;
pub mod read;
pub mod refused;
pub mod replaced;
pub mod stored;
pub mod upkeep;
pub mod volume;
pub mod write;

pub use entries::{Cluster, DirEntry, EntryKind, FatType, Stamp};
pub use read::Fat;
pub use volume::FatError;
