//! Codec for the binary index (staging-area) file format.

pub mod bytes;
pub mod error;
pub mod header;
pub mod path;
pub mod entry;
pub mod extension;
pub mod checksum;
pub mod index;

pub use crate::checksum::{CHECKSUM_LEN, checksum_matches, digest_prefix};
pub use crate::entry::{IndexEntry, ENTRY_FIXED_LEN, FLAG_EXTENDED, NAME_MASK, NAME_SENTINEL, encode_entry, parse_index_entry};
pub use crate::error::{Component, DecodeError, ErrorKind};
pub use crate::extension::{IndexExtension, EXTENSION_HEADER_LEN, encode_extension, parse_extensions, parse_index_extension};
pub use crate::header::{IndexHeader, HEADER_LEN, encode_header, magic_bytes, parse_header};
pub use crate::index::{Index, decode, decode_with, encode, entries_in_order, path_less};
pub use crate::path::{common_prefix, decode_path};
