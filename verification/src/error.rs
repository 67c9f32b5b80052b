//! Error taxonomy shared by every decode and encode step.

use vstd::prelude::*;

verus! {

/// The structural violation that made a document unacceptable.
#[derive(Clone, Copy, Debug, PartialEq, Eq, Structural)]
pub enum InvalidReason {
    /// The root of the parsed document is not a compound node.
    RootNotCompound,
    /// The `blocks` field is missing or is not a list.
    BlocksNotList,
    /// The `size` field is missing or is not a list.
    SizeNotList,
    /// The `size` list does not hold exactly three integers.
    SizeWrongShape,
    /// The `palette` field is missing or is not a list.
    PaletteNotList,
    /// The `entities` field is missing or is not a list.
    EntitiesNotList,
    /// A palette slot is not a compound node.
    PaletteEntryNotCompound,
    /// A block entry is not a compound node.
    BlockEntryNotCompound,
    /// A block entry has no `pos` field.
    MissingPos,
    /// A `pos` field is neither a list nor an integer array.
    InvalidPosType,
    /// A position does not have exactly three integer coordinates.
    WrongCoordinateCount,
    /// A block entry has no `state` field.
    MissingState,
    /// A `state` field is not an integer.
    StateNotInt,
    /// The binary document ended before a value was complete.
    TruncatedDocument,
    /// The binary document used a tag id outside the NBT tag range.
    UnknownTag,
    /// A string payload was not valid UTF-8.
    BadString,
    /// An identifier held no namespace separator.
    NamespaceWithoutColon,
    /// A length prefix was negative.
    NegativeLength,
    /// Bytes remained after the root value ended.
    TrailingBytes,
    /// The root tag carried a non-empty name.
    RootNameNotEmpty,
}

/// Every way a conversion can fail; each decode or encode step returns
/// this type, and a conversion either fully succeeds or fails as a whole.
#[derive(Clone, Copy, Debug, PartialEq, Eq, Structural)]
pub enum SchematicError {
    /// The input stream could not be read or decompressed.
    IoFailure,
    /// The document violates the expected shape.
    InvalidFormat(InvalidReason),
    /// A state id has no corresponding palette entry.
    PaletteIndexOutOfRange,
    /// The orchestrator was given an unknown format selector.
    UnsupportedTargetFormat,
}

impl SchematicError {
    /// A user-visible description of the failure.
    pub fn message(&self) -> String {
        match self {
            SchematicError::IoFailure => "failed to read or decompress the input".to_string(),
            SchematicError::InvalidFormat(_) => "the document is not in the expected format".to_string(),
            SchematicError::PaletteIndexOutOfRange => "a state id has no palette entry".to_string(),
            SchematicError::UnsupportedTargetFormat => "unknown schematic type".to_string(),
        }
    }
}

} // verus!
