//! SpaceTree's verified core: the scan tree and its size rollup, NTFS
//! on-disk structure decoding, filename search, number formatting and
//! the text reports built from a scan.

pub mod ai;
pub mod csr;
pub mod digest;
pub mod dto;
pub mod export;
pub mod flags;
pub mod ntfs;
pub mod fmt;
pub mod mounts;
pub mod search;
pub mod settings;
pub mod sort;
pub mod text;
pub mod tree;
pub mod volume;
pub mod volumes;
pub mod walker;

pub use flags::NodeFlags;
