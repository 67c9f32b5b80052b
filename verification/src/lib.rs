//! Conversion engine for Minecraft-style schematic files.
//!
//! The crate decodes a gzip-compressed tagged binary container into a
//! format-agnostic intermediate representation — a spatial block
//! collection plus a palette of distinct block descriptions — and
//! re-encodes that representation into the dense-grid region target,
//! including the variable-bit-width packed long array the game's own
//! world storage uses.

pub mod block;
pub mod convert;
pub mod create_schematic;
pub mod error;
pub mod gz;
pub mod litematica;
pub mod nbt;
pub mod nbt_bytes;
pub mod pack;
pub mod schematic;
pub mod strcmp;
