//! The intermediate representation handed from an importer to an exporter.

use vstd::prelude::*;

use crate::block::BlockStatePosList;
use crate::nbt::NbtValue;

verus! {

/// The declared extent of a structure.
#[derive(Clone, Copy, Debug, PartialEq, Eq, Structural)]
pub struct SchematicSize {
    pub width: i32,
    pub height: i32,
    pub length: i32,
}

/// Per-position block-entity payloads, carried through unchanged.
#[derive(Debug)]
pub struct TileEntitiesList {
    pub elements: Vec<NbtValue>,
}

impl Default for TileEntitiesList {
    /// An empty list.
    fn default() -> (r: Self)
        ensures
            r.elements@.len() == 0,
    {
        TileEntitiesList { elements: Vec::new() }
    }
}

/// The sole hand-off type between import and export: every non-default
/// block, the declared size, and the auxiliary block-entity payloads.
#[derive(Debug)]
pub struct SchematicData {
    pub blocks: BlockStatePosList,
    pub size: SchematicSize,
    pub tile_entities: TileEntitiesList,
}

impl SchematicData {
    /// Assembles the intermediate representation.
    pub fn new(
        blocks: BlockStatePosList,
        size: SchematicSize,
        tile_entities: TileEntitiesList,
    ) -> (r: SchematicData)
        ensures
            r.blocks == blocks,
            r.size == size,
            r.tile_entities == tile_entities,
    {
        SchematicData { blocks, size, tile_entities }
    }
}

} // verus!
