//! Reading and writing the tagged binary container in which the Quest3D
//! engine keeps its channel groups.
//!
//! A file is a sequence of tags: a four-byte name, then, for most tags, a
//! little-endian `u32` length and that many payload bytes. A wrapped file
//! hides its tag stream behind zlib compression and an XOR mask; the
//! innermost stream opens with a fixed header.

pub mod channelgroups;
pub mod codec;
pub mod errors;
pub mod header;
pub mod quest3d;
pub mod transform;

pub use channelgroups::{parse_file, ChannelGroup, ContainerKind};
pub use codec::Tag;
pub use errors::ParseError;
pub use header::{parse_group_header, GroupHeader, Guid};
pub use quest3d::Quest3DFile;
pub use transform::{decompress, unprotect, xor_mask};
