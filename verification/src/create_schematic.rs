//! Import of the source container format.
//!
//! A parsed document must be a compound holding the `blocks`, `size`,
//! `palette` and `entities` lists. Each palette slot becomes a shared
//! block description; each block entry resolves a three-coordinate
//! position and a state id into that palette. Every violation of the
//! expected shape yields a typed error; nothing panics.

use std::sync::Arc;
use vstd::prelude::*;

use crate::block::{props_insert, spec_props_insert, props_sorted, prop_views, BlockData, BlockDataV, BlockId, BlockPos, BlockStatePosList};
use crate::error::{InvalidReason, SchematicError};
use crate::litematica::arc_views;
use crate::nbt::{compound_get, spec_compound_get, NbtValue};
use crate::schematic::{SchematicData, SchematicSize, TileEntitiesList};
use vstd::string::StringSliceAdditionalSpecFns;

verus! {

/// A parsed source document whose root is a compound.
#[derive(Debug)]
pub struct CreateSchematic {
    pub nbt: NbtValue,
}

/// The property pairs a slot's `Properties` compound contributes, taken
/// in field order with a later key replacing an earlier equal key; only
/// string-valued properties are copied.
pub open spec fn spec_props_fold(pf: Seq<(String, NbtValue)>) -> Seq<(Seq<char>, Seq<char>)>
    decreases pf.len(),
{
    if pf.len() == 0 {
        Seq::empty()
    } else {
        let rest = spec_props_fold(pf.drop_last());
        match pf.last().1 {
            NbtValue::Text(v) => spec_props_insert(rest, pf.last().0@, v@),
            _ => rest,
        }
    }
}

/// The folded properties are always sorted by key.
pub proof fn lemma_props_fold_sorted(pf: Seq<(String, NbtValue)>)
    ensures
        props_sorted(spec_props_fold(pf)),
    decreases pf.len(),
{
    if pf.len() > 0 {
        lemma_props_fold_sorted(pf.drop_last());
        match pf.last().1 {
            NbtValue::Text(v) => {
                crate::block::lemma_props_insert_sorted(
                    spec_props_fold(pf.drop_last()),
                    pf.last().0@,
                    v@,
                );
            },
            _ => {},
        }
    }
}

/// The sorted properties of a palette slot.
pub open spec fn spec_palette_props(fields: Seq<(String, NbtValue)>) -> Seq<(Seq<char>, Seq<char>)> {
    match spec_compound_get(fields, "Properties"@) {
        Some(NbtValue::Compound(pf)) => spec_props_fold(pf@),
        _ => Seq::empty(),
    }
}

/// What one palette slot denotes, or nothing when it is not a compound:
/// its name and sorted string properties, or — for a slot carrying no
/// usable name — plain air with no properties.
pub open spec fn spec_palette_entry(v: NbtValue) -> Option<BlockDataV> {
    match v {
        NbtValue::Compound(fields) => match spec_compound_get(fields@, "Name"@) {
            Some(NbtValue::Text(s)) => Some(
                BlockDataV { id: s@, properties: spec_palette_props(fields@) },
            ),
            _ => Some(BlockDataV { id: "minecraft:air"@, properties: Seq::empty() }),
        },
        _ => None,
    }
}

/// The whole palette, or the typed error a malformed slot raises.
pub open spec fn spec_palette_fold(entries: Seq<NbtValue>) -> Result<Seq<BlockDataV>, SchematicError>
    decreases entries.len(),
{
    if entries.len() == 0 {
        Ok(Seq::empty())
    } else {
        match spec_palette_fold(entries.drop_last()) {
            Err(e) => Err(e),
            Ok(s) => match spec_palette_entry(entries.last()) {
                Some(b) => Ok(s.push(b)),
                None => Err(
                    SchematicError::InvalidFormat(InvalidReason::PaletteEntryNotCompound),
                ),
            },
        }
    }
}

/// The integer elements of a list, in order; other elements are dropped.
pub open spec fn int_values(items: Seq<NbtValue>) -> Seq<i32>
    decreases items.len(),
{
    if items.len() == 0 {
        Seq::empty()
    } else {
        let rest = int_values(items.drop_last());
        match items.last() {
            NbtValue::Int(n) => rest.push(n),
            _ => rest,
        }
    }
}

/// Three coordinates out of a list of tags, when exactly three of its
/// elements are integers.
pub open spec fn spec_parse_coord_list(items: Seq<NbtValue>) -> Option<(i32, i32, i32)> {
    let ints = int_values(items);
    if ints.len() == 3 {
        Some((ints[0], ints[1], ints[2]))
    } else {
        None
    }
}

/// A position: a list of integers or a native integer array, either way
/// with exactly three coordinates.
pub open spec fn spec_parse_pos(v: NbtValue) -> Result<(i32, i32, i32), SchematicError> {
    match v {
        NbtValue::List(l) => match spec_parse_coord_list(l@) {
            Some(c) => Ok(c),
            None => Err(SchematicError::InvalidFormat(InvalidReason::WrongCoordinateCount)),
        },
        NbtValue::IntArray(a) => if a@.len() == 3 {
            Ok((a@[0], a@[1], a@[2]))
        } else {
            Err(SchematicError::InvalidFormat(InvalidReason::WrongCoordinateCount))
        },
        _ => Err(SchematicError::InvalidFormat(InvalidReason::InvalidPosType)),
    }
}

/// One block entry: its position and its resolved palette slot, or the
/// first violation in the order the fields are examined.
pub open spec fn spec_parse_entry(v: NbtValue, palette_len: int) -> Result<
    ((i32, i32, i32), int),
    SchematicError,
> {
    match v {
        NbtValue::Compound(fields) => match spec_compound_get(fields@, "pos"@) {
            None => Err(SchematicError::InvalidFormat(InvalidReason::MissingPos)),
            Some(pv) => match spec_parse_pos(pv) {
                Err(e) => Err(e),
                Ok(c) => match spec_compound_get(fields@, "state"@) {
                    None => Err(SchematicError::InvalidFormat(InvalidReason::MissingState)),
                    Some(NbtValue::Int(n)) => if 0 <= n < palette_len {
                        Ok((c, n as int))
                    } else {
                        Err(SchematicError::PaletteIndexOutOfRange)
                    },
                    Some(_) => Err(SchematicError::InvalidFormat(InvalidReason::StateNotInt)),
                },
            },
        },
        _ => Err(SchematicError::InvalidFormat(InvalidReason::BlockEntryNotCompound)),
    }
}

/// Every block entry in file order, or the first entry's error.
pub open spec fn spec_entries_fold(entries: Seq<NbtValue>, palette_len: int) -> Result<
    Seq<((i32, i32, i32), int)>,
    SchematicError,
>
    decreases entries.len(),
{
    if entries.len() == 0 {
        Ok(Seq::empty())
    } else {
        match spec_entries_fold(entries.drop_last(), palette_len) {
            Err(e) => Err(e),
            Ok(s) => match spec_parse_entry(entries.last(), palette_len) {
                Ok(x) => Ok(s.push(x)),
                Err(e) => Err(e),
            },
        }
    }
}

/// An error in a fold prefix is the fold's result.
proof fn lemma_palette_fold_err(entries: Seq<NbtValue>, j: int, e: SchematicError)
    requires
        0 <= j <= entries.len(),
        spec_palette_fold(entries.take(j)) == Err::<Seq<BlockDataV>, SchematicError>(e),
    ensures
        spec_palette_fold(entries) == Err::<Seq<BlockDataV>, SchematicError>(e),
    decreases entries.len() - j,
{
    if j < entries.len() {
        assert(entries.take(j + 1).drop_last() =~= entries.take(j));
        lemma_palette_fold_err(entries, j + 1, e);
    } else {
        assert(entries.take(j) =~= entries);
    }
}

/// An error in an entry-fold prefix is the fold's result.
proof fn lemma_entries_fold_err(entries: Seq<NbtValue>, palette_len: int, j: int, e: SchematicError)
    requires
        0 <= j <= entries.len(),
        spec_entries_fold(entries.take(j), palette_len) == Err::<
            Seq<((i32, i32, i32), int)>,
            SchematicError,
        >(e),
    ensures
        spec_entries_fold(entries, palette_len) == Err::<
            Seq<((i32, i32, i32), int)>,
            SchematicError,
        >(e),
    decreases entries.len() - j,
{
    if j < entries.len() {
        assert(entries.take(j + 1).drop_last() =~= entries.take(j));
        lemma_entries_fold_err(entries, palette_len, j + 1, e);
    } else {
        assert(entries.take(j) =~= entries);
    }
}

/// Everything an import determines: the resolved entries, the palette
/// they index, and the declared size.
pub ghost struct ImportView {
    pub entries: Seq<((i32, i32, i32), int)>,
    pub palette: Seq<BlockDataV>,
    pub size: (i32, i32, i32),
}

impl CreateSchematic {
    /// The root is a compound.
    pub open spec fn wf(&self) -> bool {
        self.nbt matches NbtValue::Compound(_)
    }

    /// The root's fields, for a well-formed document.
    pub open spec fn root_fields(&self) -> Seq<(String, NbtValue)> {
        match self.nbt {
            NbtValue::Compound(f) => f@,
            _ => Seq::empty(),
        }
    }

    /// The named top-level list, or the error naming the field.
    pub open spec fn spec_get_list(&self, key: Seq<char>, err: InvalidReason) -> Result<
        Seq<NbtValue>,
        SchematicError,
    > {
        if !self.wf() {
            Err(SchematicError::InvalidFormat(InvalidReason::RootNotCompound))
        } else {
            match spec_compound_get(self.root_fields(), key) {
                Some(NbtValue::List(l)) => Ok(l@),
                _ => Err(SchematicError::InvalidFormat(err)),
            }
        }
    }

    /// What this document imports to, or the first violation found, with
    /// the fields examined in the order blocks, size, palette, entities,
    /// then each block entry in file order.
    pub open spec fn spec_import(&self) -> Result<ImportView, SchematicError> {
        match self.spec_get_list("blocks"@, InvalidReason::BlocksNotList) {
            Err(e) => Err(e),
            Ok(entries) => match self.spec_get_list("size"@, InvalidReason::SizeNotList) {
                Err(e) => Err(e),
                Ok(sitems) => match spec_parse_coord_list(sitems) {
                    None => Err(SchematicError::InvalidFormat(InvalidReason::SizeWrongShape)),
                    Some(sz) => match self.spec_get_list(
                        "palette"@,
                        InvalidReason::PaletteNotList,
                    ) {
                        Err(e) => Err(e),
                        Ok(pitems) => match spec_palette_fold(pitems) {
                            Err(e) => Err(e),
                            Ok(pal) => match self.spec_get_list(
                                "entities"@,
                                InvalidReason::EntitiesNotList,
                            ) {
                                Err(e) => Err(e),
                                Ok(_) => match spec_entries_fold(entries, pal.len() as int) {
                                    Err(e) => Err(e),
                                    Ok(resolved) => Ok(
                                        ImportView { entries: resolved, palette: pal, size: sz },
                                    ),
                                },
                            },
                        },
                    },
                },
            },
        }
    }

    /// Opens a gzip-compressed source container: decompresses the
    /// stream, decodes the tagged binary document, and rejects any
    /// non-compound root. A stream that does not decompress (or whose
    /// plain form a machine cannot index) is the one input that carries
    /// the stream-failure error; a decoded non-compound root carries its
    /// own reason.
    pub fn from_bytes(bytes: &[u8]) -> (r: Result<CreateSchematic, SchematicError>)
        ensures
            r matches Ok(cs) ==> {
                &&& cs.wf()
                &&& crate::gz::gunzip_of(bytes@) matches Some(plain)
                &&& crate::nbt_bytes::doc_bytes(cs.nbt) == plain
            },
            crate::gz::gunzip_of(bytes@) is None ==> r == Err::<CreateSchematic, SchematicError>(
                SchematicError::IoFailure,
            ),
            r == Err::<CreateSchematic, SchematicError>(SchematicError::IoFailure) ==> (
            crate::gz::gunzip_of(bytes@) is None || (crate::gz::gunzip_of(bytes@) matches Some(
                plain,
            ) && plain.len() > 0x7fff_ffff)),
            r == Err::<CreateSchematic, SchematicError>(
                SchematicError::InvalidFormat(InvalidReason::RootNotCompound),
            ) ==> (crate::gz::gunzip_of(bytes@) matches Some(plain) && exists|v: NbtValue|
                #[trigger] crate::nbt_bytes::doc_wf(v) && crate::nbt_bytes::doc_bytes(v) == plain
                    && !(v matches NbtValue::Compound(_))),
    {
        let plain = match crate::gz::decompress_schematic(bytes) {
            Ok(p) => p,
            Err(e) => {
                return Err(e);
            },
        };
        if plain.len() > 0x7fff_ffff {
            return Err(SchematicError::IoFailure);
        }
        let doc = match crate::nbt_bytes::parse_document(plain.as_slice()) {
            Ok(d) => d,
            Err(e) => {
                return Err(e);
            },
        };
        Self::new(doc)
    }

    /// Wraps a parsed document, rejecting any non-compound root. Reading
    /// the container's bytes happens at the caller's edge.
    pub fn new(nbt: NbtValue) -> (r: Result<CreateSchematic, SchematicError>)
        ensures
            match r {
                Ok(cs) => cs.wf() && cs.nbt == nbt,
                Err(e) => !(nbt matches NbtValue::Compound(_)) && e
                    == SchematicError::InvalidFormat(InvalidReason::RootNotCompound),
            },
    {
        match &nbt {
            NbtValue::Compound(_) => Ok(CreateSchematic { nbt }),
            _ => Err(SchematicError::InvalidFormat(InvalidReason::RootNotCompound)),
        }
    }

    /// The `blocks` list: the block entries of the document.
    pub fn get_pos_list(&self) -> (r: Result<&Vec<NbtValue>, SchematicError>)
        ensures
            (r matches Ok(l) ==> self.spec_get_list("blocks"@, InvalidReason::BlocksNotList)
                == Ok::<Seq<NbtValue>, SchematicError>(l@)),
            (r matches Err(e) ==> self.spec_get_list("blocks"@, InvalidReason::BlocksNotList)
                == Err::<Seq<NbtValue>, SchematicError>(e)),
    {
        self.get_list_field("blocks", InvalidReason::BlocksNotList)
    }

    /// The `size` list: the declared extent of the structure.
    pub fn get_size(&self) -> (r: Result<&Vec<NbtValue>, SchematicError>)
        ensures
            (r matches Ok(l) ==> self.spec_get_list("size"@, InvalidReason::SizeNotList)
                == Ok::<Seq<NbtValue>, SchematicError>(l@)),
            (r matches Err(e) ==> self.spec_get_list("size"@, InvalidReason::SizeNotList)
                == Err::<Seq<NbtValue>, SchematicError>(e)),
    {
        self.get_list_field("size", InvalidReason::SizeNotList)
    }

    /// The `palette` list: the distinct block descriptions of the source.
    pub fn get_palette(&self) -> (r: Result<&Vec<NbtValue>, SchematicError>)
        ensures
            (r matches Ok(l) ==> self.spec_get_list("palette"@, InvalidReason::PaletteNotList)
                == Ok::<Seq<NbtValue>, SchematicError>(l@)),
            (r matches Err(e) ==> self.spec_get_list("palette"@, InvalidReason::PaletteNotList)
                == Err::<Seq<NbtValue>, SchematicError>(e)),
    {
        self.get_list_field("palette", InvalidReason::PaletteNotList)
    }

    /// The `entities` list, required by the format but otherwise unused
    /// by this import path.
    pub fn get_entities(&self) -> (r: Result<&Vec<NbtValue>, SchematicError>)
        ensures
            (r matches Ok(l) ==> self.spec_get_list("entities"@, InvalidReason::EntitiesNotList)
                == Ok::<Seq<NbtValue>, SchematicError>(l@)),
            (r matches Err(e) ==> self.spec_get_list("entities"@, InvalidReason::EntitiesNotList)
                == Err::<Seq<NbtValue>, SchematicError>(e)),
    {
        self.get_list_field("entities", InvalidReason::EntitiesNotList)
    }

    /// Fetches a top-level field that must be a list.
    fn get_list_field(&self, key: &str, err: InvalidReason) -> (r: Result<
        &Vec<NbtValue>,
        SchematicError,
    >)
        ensures
            (r matches Ok(l) ==> self.spec_get_list(key@, err) == Ok::<
                Seq<NbtValue>,
                SchematicError,
            >(l@)),
            (r matches Err(e) ==> self.spec_get_list(key@, err) == Err::<
                Seq<NbtValue>,
                SchematicError,
            >(e)),
    {
        match &self.nbt {
            NbtValue::Compound(fields) => match compound_get(fields, key) {
                Some(v) => match v {
                    NbtValue::List(l) => Ok(l),
                    _ => Err(SchematicError::InvalidFormat(err)),
                },
                None => Err(SchematicError::InvalidFormat(err)),
            },
            _ => Err(SchematicError::InvalidFormat(InvalidReason::RootNotCompound)),
        }
    }

    /// Decodes every palette slot into a shared block description, slot
    /// order preserved so state ids can index directly.
    pub fn parse_palette(&self) -> (r: Result<Vec<Arc<BlockData>>, SchematicError>)
        ensures
            (r matches Ok(pal) ==> {
                &&& self.spec_get_list("palette"@, InvalidReason::PaletteNotList) matches Ok(
                    pitems,
                ) && spec_palette_fold(pitems) == Ok::<Seq<BlockDataV>, SchematicError>(
                    arc_views(pal@),
                )
                &&& forall|i: int| 0 <= i < pal@.len() ==> (*#[trigger] pal@[i]).wf()
            }),
            (r matches Err(e) ==> {
                ||| self.spec_get_list("palette"@, InvalidReason::PaletteNotList) == Err::<
                    Seq<NbtValue>,
                    SchematicError,
                >(e)
                ||| (self.spec_get_list("palette"@, InvalidReason::PaletteNotList) matches Ok(
                    pitems,
                ) && spec_palette_fold(pitems) == Err::<Seq<BlockDataV>, SchematicError>(e))
            }),
    {
        let palette_list = match self.get_palette() {
            Ok(l) => l,
            Err(e) => {
                return Err(e);
            },
        };
        let ghost pitems = palette_list@;
        let n = palette_list.len();
        let mut palette: Vec<Arc<BlockData>> = Vec::new();
        proof {
            assert(pitems.take(0) =~= Seq::<NbtValue>::empty());
            assert(arc_views(palette@) =~= Seq::<BlockDataV>::empty());
        }
        let mut i: usize = 0;
        while i < n
            invariant
                i <= n,
                n == pitems.len(),
                palette_list@ == pitems,
                self.spec_get_list("palette"@, InvalidReason::PaletteNotList) == Ok::<
                    Seq<NbtValue>,
                    SchematicError,
                >(pitems),
                spec_palette_fold(pitems.take(i as int)) == Ok::<Seq<BlockDataV>, SchematicError>(
                    arc_views(palette@),
                ),
                arc_views(palette@).len() == i,
                forall|j: int| 0 <= j < palette@.len() ==> (*#[trigger] palette@[j]).wf(),
            decreases n - i,
        {
            proof {
                assert(pitems.take(i as int + 1).drop_last() =~= pitems.take(i as int));
                assert(pitems.take(i as int + 1).last() == pitems[i as int]);
            }
            let entry = &palette_list[i];
            match entry {
                NbtValue::Compound(root) => {
                    let bd: BlockData = match compound_get(root, "Name") {
                        Some(NbtValue::Text(s)) => {
                            let name = s.clone();
                            let mut properties: Vec<(String, String)> = Vec::new();
                            match compound_get(root, "Properties") {
                                Some(pv) => match pv {
                                    NbtValue::Compound(prop_map) => {
                                        let m = prop_map.len();
                                        let mut j: usize = 0;
                                        while j < m
                                            invariant
                                                j <= m,
                                                m == prop_map@.len(),
                                                props_sorted(prop_views(properties@)),
                                                prop_views(properties@) == spec_props_fold(
                                                    prop_map@.take(j as int),
                                                ),
                                            decreases m - j,
                                        {
                                            proof {
                                                assert(prop_map@.take(j as int + 1).drop_last()
                                                    =~= prop_map@.take(j as int));
                                                assert(prop_map@.take(j as int + 1).last()
                                                    == prop_map@[j as int]);
                                            }
                                            let kv = &prop_map[j];
                                            match &kv.1 {
                                                NbtValue::Text(sv) => {
                                                    props_insert(
                                                        &mut properties,
                                                        kv.0.clone(),
                                                        sv.clone(),
                                                    );
                                                },
                                                _ => {},
                                            }
                                            j = j + 1;
                                        }
                                        proof {
                                            assert(prop_map@.take(m as int) =~= prop_map@);
                                        }
                                    },
                                    _ => {},
                                },
                                None => {},
                            }
                            BlockData { id: BlockId { name }, properties }
                        },
                        _ => BlockData {
                            id: BlockId { name: "minecraft:air".to_owned() },
                            properties: Vec::new(),
                        },
                    };
                    let ghost bv = bd@;
                    proof {
                        assert(bv.properties =~= spec_palette_entry(
                            pitems[i as int],
                        ).unwrap().properties);
                        assert(bv =~~= spec_palette_entry(pitems[i as int]).unwrap());
                    }
                    let ghost pre = arc_views(palette@);
                    palette.push(Arc::new(bd));
                    proof {
                        assert(arc_views(palette@) =~= pre.push(bv));
                    }
                },
                _ => {
                    proof {
                        assert(pitems.take(i as int + 1).drop_last() =~= pitems.take(i as int));
                        assert(pitems.take(i as int + 1).last() == pitems[i as int]);
                        assert(spec_palette_entry(pitems[i as int]) is None);
                        assert(spec_palette_fold(pitems.take(i as int + 1)) == Err::<
                            Seq<BlockDataV>,
                            SchematicError,
                        >(SchematicError::InvalidFormat(InvalidReason::PaletteEntryNotCompound)));
                        lemma_palette_fold_err(
                            pitems,
                            i as int + 1,
                            SchematicError::InvalidFormat(InvalidReason::PaletteEntryNotCompound),
                        );
                        assert(spec_palette_fold(pitems) == Err::<Seq<BlockDataV>, SchematicError>(
                            SchematicError::InvalidFormat(InvalidReason::PaletteEntryNotCompound),
                        ));
                        assert(self.spec_get_list("palette"@, InvalidReason::PaletteNotList)
                            matches Ok(p2) && p2 == pitems);
                    }
                    return Err(
                        SchematicError::InvalidFormat(InvalidReason::PaletteEntryNotCompound),
                    );
                },
            }
            i = i + 1;
        }
        proof {
            assert(pitems.take(n as int) =~= pitems);
        }
        Ok(palette)
    }
}


/// Collects the integer elements of a list of tags.
fn collect_ints(items: &Vec<NbtValue>) -> (r: Vec<i32>)
    ensures
        r@ == int_values(items@),
{
    let mut out: Vec<i32> = Vec::new();
    let n = items.len();
    let mut j: usize = 0;
    while j < n
        invariant
            j <= n,
            n == items@.len(),
            out@ == int_values(items@.take(j as int)),
        decreases n - j,
    {
        proof {
            assert(items@.take(j as int + 1).drop_last() =~= items@.take(j as int));
            assert(items@.take(j as int + 1).last() == items@[j as int]);
        }
        match &items[j] {
            NbtValue::Int(n0) => {
                out.push(*n0);
            },
            _ => {},
        }
        j = j + 1;
    }
    proof {
        assert(items@.take(n as int) =~= items@);
    }
    out
}

/// Reads exactly three integer coordinates out of a list of tags.
fn parse_coord_list(items: &Vec<NbtValue>) -> (r: Option<(i32, i32, i32)>)
    ensures
        r == spec_parse_coord_list(items@),
{
    let ints = collect_ints(items);
    if ints.len() == 3 {
        Some((ints[0], ints[1], ints[2]))
    } else {
        None
    }
}

/// Reads a position out of a `pos` field value.
fn parse_pos(v: &NbtValue) -> (r: Result<(i32, i32, i32), SchematicError>)
    ensures
        r == spec_parse_pos(*v),
{
    match v {
        NbtValue::List(l) => match parse_coord_list(l) {
            Some(c) => Ok(c),
            None => Err(SchematicError::InvalidFormat(InvalidReason::WrongCoordinateCount)),
        },
        NbtValue::IntArray(a) => {
            if a.len() == 3 {
                Ok((a[0], a[1], a[2]))
            } else {
                Err(SchematicError::InvalidFormat(InvalidReason::WrongCoordinateCount))
            }
        },
        _ => Err(SchematicError::InvalidFormat(InvalidReason::InvalidPosType)),
    }
}

impl CreateSchematic {
    /// Decodes the whole document into the intermediate representation:
    /// every block entry resolved against the palette, in file order,
    /// with the declared size and an empty tile-entity list.
    pub fn get_blocks_pos(&self) -> (r: Result<SchematicData, SchematicError>)
        ensures
            (r matches Ok(sd) ==> self.spec_import() matches Ok(iv) && {
                &&& sd.blocks.elements@.len() == iv.entries.len()
                &&& forall|k: int|
                    0 <= k < iv.entries.len() ==> {
                        let ent = #[trigger] sd.blocks.elements@[k];
                        &&& ent.pos.x == iv.entries[k].0.0
                        &&& ent.pos.y == iv.entries[k].0.1
                        &&& ent.pos.z == iv.entries[k].0.2
                        &&& 0 <= iv.entries[k].1 < iv.palette.len()
                        &&& ent.block@ == iv.palette[iv.entries[k].1]
                        &&& (*ent.block).wf()
                    }
                &&& sd.size.width == iv.size.0
                &&& sd.size.height == iv.size.1
                &&& sd.size.length == iv.size.2
                &&& sd.tile_entities.elements@.len() == 0
            }),
            (r matches Err(e) ==> self.spec_import() == Err::<ImportView, SchematicError>(e)),
    {
        let blocks = match self.get_pos_list() {
            Ok(l) => l,
            Err(e) => {
                return Err(e);
            },
        };
        let size_items = match self.get_size() {
            Ok(l) => l,
            Err(e) => {
                return Err(e);
            },
        };
        let size3 = match parse_coord_list(size_items) {
            Some(c) => c,
            None => {
                return Err(SchematicError::InvalidFormat(InvalidReason::SizeWrongShape));
            },
        };
        let palette = match self.parse_palette() {
            Ok(p) => p,
            Err(e) => {
                return Err(e);
            },
        };
        match self.get_entities() {
            Ok(_) => {},
            Err(e) => {
                return Err(e);
            },
        }
        let ghost entries = blocks@;
        let ghost pal = arc_views(palette@);
        let ghost plen = pal.len() as int;
        let mut block_list = BlockStatePosList::default();
        let tile_entities = TileEntitiesList::default();
        let n = blocks.len();
        proof {
            assert(entries.take(0) =~= Seq::<NbtValue>::empty());
        }
        let mut i: usize = 0;
        while i < n
            invariant
                i <= n,
                n == entries.len(),
                blocks@ == entries,
                pal == arc_views(palette@),
                plen == pal.len() as int,
                self.spec_get_list("blocks"@, InvalidReason::BlocksNotList) == Ok::<
                    Seq<NbtValue>,
                    SchematicError,
                >(entries),
                self.spec_get_list("size"@, InvalidReason::SizeNotList) matches Ok(sitems)
                    && spec_parse_coord_list(sitems) == Some((size3.0, size3.1, size3.2)),
                self.spec_get_list("palette"@, InvalidReason::PaletteNotList) matches Ok(pitems)
                    && spec_palette_fold(pitems) == Ok::<Seq<BlockDataV>, SchematicError>(pal),
                self.spec_get_list("entities"@, InvalidReason::EntitiesNotList) is Ok,
                forall|j: int| 0 <= j < palette@.len() ==> (*#[trigger] palette@[j]).wf(),
                spec_entries_fold(entries.take(i as int), plen) matches Ok(pref) && {
                    &&& pref.len() == i
                    &&& block_list.elements@.len() == i
                    &&& forall|k: int|
                        0 <= k < i ==> {
                            let ent = #[trigger] block_list.elements@[k];
                            &&& ent.pos.x == pref[k].0.0
                            &&& ent.pos.y == pref[k].0.1
                            &&& ent.pos.z == pref[k].0.2
                            &&& 0 <= pref[k].1 < pal.len()
                            &&& ent.block@ == pal[pref[k].1]
                            &&& (*ent.block).wf()
                        }
                },
                tile_entities.elements@.len() == 0,
            decreases n - i,
        {
            proof {
                assert(entries.take(i as int + 1).drop_last() =~= entries.take(i as int));
                assert(entries.take(i as int + 1).last() == entries[i as int]);
            }
            let entry = &blocks[i];
            match entry {
                NbtValue::Compound(compound) => {
                    let pos_values = match compound_get(compound, "pos") {
                        Some(v) => v,
                        None => {
                            proof {
                                lemma_entries_fold_err(
                                    entries,
                                    plen,
                                    i as int + 1,
                                    SchematicError::InvalidFormat(InvalidReason::MissingPos),
                                );
                            }
                            return Err(SchematicError::InvalidFormat(InvalidReason::MissingPos));
                        },
                    };
                    let coords = match parse_pos(pos_values) {
                        Ok(c) => c,
                        Err(e) => {
                            proof {
                                lemma_entries_fold_err(entries, plen, i as int + 1, e);
                            }
                            return Err(e);
                        },
                    };
                    let state_value = match compound_get(compound, "state") {
                        Some(v) => v,
                        None => {
                            proof {
                                lemma_entries_fold_err(
                                    entries,
                                    plen,
                                    i as int + 1,
                                    SchematicError::InvalidFormat(InvalidReason::MissingState),
                                );
                            }
                            return Err(SchematicError::InvalidFormat(InvalidReason::MissingState));
                        },
                    };
                    let state_id: usize = match state_value {
                        NbtValue::Int(sn) => {
                            if *sn >= 0 && (*sn as usize) < palette.len() {
                                *sn as usize
                            } else {
                                proof {
                                    lemma_entries_fold_err(
                                        entries,
                                        plen,
                                        i as int + 1,
                                        SchematicError::PaletteIndexOutOfRange,
                                    );
                                }
                                return Err(SchematicError::PaletteIndexOutOfRange);
                            }
                        },
                        _ => {
                            proof {
                                lemma_entries_fold_err(
                                    entries,
                                    plen,
                                    i as int + 1,
                                    SchematicError::InvalidFormat(InvalidReason::StateNotInt),
                                );
                            }
                            return Err(SchematicError::InvalidFormat(InvalidReason::StateNotInt));
                        },
                    };
                    let pos = BlockPos { x: coords.0, y: coords.1, z: coords.2 };
                    let block = crate::block::share_block(&palette[state_id]);
                    block_list.add(pos, block);
                },
                _ => {
                    proof {
                        lemma_entries_fold_err(
                            entries,
                            plen,
                            i as int + 1,
                            SchematicError::InvalidFormat(InvalidReason::BlockEntryNotCompound),
                        );
                    }
                    return Err(
                        SchematicError::InvalidFormat(InvalidReason::BlockEntryNotCompound),
                    );
                },
            }
            i = i + 1;
        }
        proof {
            assert(entries.take(n as int) =~= entries);
        }
        Ok(
            SchematicData::new(
                block_list,
                SchematicSize { width: size3.0, height: size3.1, length: size3.2 },
                tile_entities,
            ),
        )
    }
}

/// Splits a namespaced identifier at its first colon. The two halves and
/// the colon reassemble to the input's UTF-8 bytes, and the namespace
/// half holds no colon; an input without a colon is rejected.
pub fn extract_namespace<'a>(input: &'a str) -> (r: Result<(&'a str, &'a str), SchematicError>)
    ensures
        (r matches Ok(p) ==> {
            &&& p.0.spec_bytes() + seq![58u8] + p.1.spec_bytes() == input.spec_bytes()
            &&& !p.0.spec_bytes().contains(58u8)
        }),
        (r matches Err(e) ==> !input.spec_bytes().contains(58u8) && e
            == SchematicError::InvalidFormat(InvalidReason::NamespaceWithoutColon)),
{
    let bytes = input.as_bytes();
    let n = bytes.len();
    let mut i: usize = 0;
    while i < n
        invariant
            i <= n,
            n == input.spec_bytes().len(),
            bytes@ == input.spec_bytes(),
            forall|j: int| 0 <= j < i ==> input.spec_bytes()[j] != 58u8,
        decreases n - i,
    {
        if bytes[i] == 58u8 {
            proof {
                vstd::utf8::encode_utf8_valid_utf8(input@);
                vstd::utf8::is_char_boundary_iff_not_is_continuation_byte(
                    input.spec_bytes(),
                    i as int,
                );
                assert(!vstd::utf8::is_continuation_byte(58u8));
            }
            let (pre, rest) = input.split_at(i);
            proof {
                vstd::utf8::encode_utf8_valid_utf8(rest@);
                let rb = rest.spec_bytes();
                assert(rb[0] == 58u8);
                assert(vstd::utf8::is_leading_byte_width_1(rb[0]));
                assert(vstd::utf8::length_of_first_scalar(rb) == 1);
                assert(vstd::utf8::valid_utf8(vstd::utf8::pop_first_scalar(rb)));
                assert(vstd::utf8::is_char_boundary(vstd::utf8::pop_first_scalar(rb), 0));
                assert(vstd::utf8::is_char_boundary(rb, 1));
            }
            let (_, post) = rest.split_at(1);
            proof {
                assert(pre.spec_bytes() + seq![58u8] + post.spec_bytes() =~= input.spec_bytes());
                assert forall|j: int| 0 <= j < pre.spec_bytes().len() implies pre.spec_bytes()[j]
                    != 58u8 by {
                    assert(pre.spec_bytes()[j] == input.spec_bytes()[j]);
                }
                if pre.spec_bytes().contains(58u8) {
                    let j = choose|j: int|
                        0 <= j < pre.spec_bytes().len() && pre.spec_bytes()[j] == 58u8;
                }
            }
            return Ok((pre, post));
        }
        i = i + 1;
    }
    proof {
        if input.spec_bytes().contains(58u8) {
            let j = choose|j: int|
                0 <= j < input.spec_bytes().len() && input.spec_bytes()[j] == 58u8;
        }
    }
    Err(SchematicError::InvalidFormat(InvalidReason::NamespaceWithoutColon))
}

} // verus!
