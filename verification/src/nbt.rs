//! Named Binary Tag trees and their little-endian encoding.
pub mod codec;
pub mod compound_tag;
pub mod error;
pub mod list_tag;
pub mod reader_tracker;
pub mod roundtrip;
pub mod serializer;
pub mod tag;
pub mod tag_io;
pub mod tree_root;

pub use compound_tag::CompoundTag;
pub use error::{NbtError, NbtErrorKind};
pub use list_tag::ListTag;
pub use tag_io::create_tag;
pub use tree_root::TreeRoot;
pub use serializer::LittleEndianNbtSerializer;
pub use tag::{
    ByteArrayTag, ByteTag, IntArrayTag, IntTag, LongTag, NbtValue, ShortTag, StringTag, Tag,
    TagType,
};
