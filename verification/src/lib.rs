//! Verified core of a Bedrock server: colours, facings, NBT trees and the RakNet wire protocol.
pub mod binary;
pub mod color;
pub mod log;
pub mod math;
pub mod nbt;
pub mod raklib;
pub mod text;
