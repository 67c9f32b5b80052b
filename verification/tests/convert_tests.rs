use std::io::Write;
use std::sync::Arc;

use schem_convert::block::{BlockData, BlockId, BlockPos, BlockStatePosList};
use schem_convert::convert::convert_schematic;
use schem_convert::create_schematic::CreateSchematic;
use schem_convert::error::{InvalidReason, SchematicError};
use schem_convert::litematica::ToLmSchematic;
use schem_convert::nbt::NbtValue;
use schem_convert::nbt_bytes::{encode_document, parse_document};
use schem_convert::pack::decode_packed;
use schem_convert::schematic::{SchematicData, SchematicSize, TileEntitiesList};

fn text(s: &str) -> NbtValue {
    NbtValue::Text(s.to_string())
}

fn comp(fields: Vec<(&str, NbtValue)>) -> NbtValue {
    NbtValue::Compound(fields.into_iter().map(|(k, v)| (k.to_string(), v)).collect())
}

fn int_list(v: Vec<i32>) -> NbtValue {
    NbtValue::List(v.into_iter().map(NbtValue::Int).collect())
}

fn palette_entry(name: &str, props: Vec<(&str, &str)>) -> NbtValue {
    let mut fields = vec![("Name", text(name))];
    if !props.is_empty() {
        let pv: Vec<(String, NbtValue)> =
            props.into_iter().map(|(k, v)| (k.to_string(), text(v))).collect();
        fields.push(("Properties", NbtValue::Compound(pv)));
    }
    comp(fields)
}

fn block_entry(pos: Vec<i32>, state: i32) -> NbtValue {
    comp(vec![("pos", int_list(pos)), ("state", NbtValue::Int(state))])
}

fn source_doc(blocks: Vec<NbtValue>, size: Vec<i32>, palette: Vec<NbtValue>) -> NbtValue {
    comp(vec![
        ("blocks", NbtValue::List(blocks)),
        ("size", int_list(size)),
        ("palette", NbtValue::List(palette)),
        ("entities", NbtValue::List(vec![])),
    ])
}

fn import(doc: NbtValue) -> Result<SchematicData, SchematicError> {
    CreateSchematic::new(doc)?.get_blocks_pos()
}

#[test]
fn import_minimal_document() {
    let doc = source_doc(
        vec![block_entry(vec![0, 0, 0], 0)],
        vec![1, 1, 1],
        vec![palette_entry("minecraft:stone", vec![])],
    );
    let sd = import(doc).unwrap();
    assert_eq!(sd.blocks.elements.len(), 1);
    assert_eq!(sd.blocks.elements[0].pos, BlockPos { x: 0, y: 0, z: 0 });
    assert_eq!(sd.blocks.elements[0].block.id.name, "minecraft:stone");
    assert_eq!(sd.size, SchematicSize { width: 1, height: 1, length: 1 });
    assert!(sd.tile_entities.elements.is_empty());
}

#[test]
fn import_accepts_int_array_positions() {
    let doc = source_doc(
        vec![comp(vec![
            ("pos", NbtValue::IntArray(vec![2, 3, 4])),
            ("state", NbtValue::Int(0)),
        ])],
        vec![5, 5, 5],
        vec![palette_entry("minecraft:dirt", vec![])],
    );
    let sd = import(doc).unwrap();
    assert_eq!(sd.blocks.elements[0].pos, BlockPos { x: 2, y: 3, z: 4 });
}

#[test]
fn import_rejects_non_compound_root() {
    let r = CreateSchematic::new(NbtValue::Int(3));
    assert!(matches!(
        r,
        Err(SchematicError::InvalidFormat(InvalidReason::RootNotCompound))
    ));
}

#[test]
fn import_rejects_missing_palette() {
    let doc = comp(vec![
        ("blocks", NbtValue::List(vec![])),
        ("size", int_list(vec![1, 1, 1])),
        ("entities", NbtValue::List(vec![])),
    ]);
    let r = import(doc);
    assert!(matches!(
        r,
        Err(SchematicError::InvalidFormat(InvalidReason::PaletteNotList))
    ));
}

#[test]
fn import_rejects_missing_blocks() {
    let doc = comp(vec![
        ("size", int_list(vec![1, 1, 1])),
        ("palette", NbtValue::List(vec![])),
        ("entities", NbtValue::List(vec![])),
    ]);
    assert!(matches!(
        import(doc),
        Err(SchematicError::InvalidFormat(InvalidReason::BlocksNotList))
    ));
}

#[test]
fn import_rejects_missing_entities() {
    let doc = comp(vec![
        ("blocks", NbtValue::List(vec![])),
        ("size", int_list(vec![1, 1, 1])),
        ("palette", NbtValue::List(vec![])),
    ]);
    assert!(matches!(
        import(doc),
        Err(SchematicError::InvalidFormat(InvalidReason::EntitiesNotList))
    ));
}

#[test]
fn import_rejects_two_coordinate_position() {
    let doc = source_doc(
        vec![block_entry(vec![0, 0], 0)],
        vec![1, 1, 1],
        vec![palette_entry("minecraft:stone", vec![])],
    );
    assert!(matches!(
        import(doc),
        Err(SchematicError::InvalidFormat(InvalidReason::WrongCoordinateCount))
    ));
}

#[test]
fn import_rejects_bad_position_type() {
    let doc = source_doc(
        vec![comp(vec![("pos", text("nope")), ("state", NbtValue::Int(0))])],
        vec![1, 1, 1],
        vec![palette_entry("minecraft:stone", vec![])],
    );
    assert!(matches!(
        import(doc),
        Err(SchematicError::InvalidFormat(InvalidReason::InvalidPosType))
    ));
}

#[test]
fn import_rejects_missing_pos_field() {
    let doc = source_doc(
        vec![comp(vec![("state", NbtValue::Int(0))])],
        vec![1, 1, 1],
        vec![palette_entry("minecraft:stone", vec![])],
    );
    assert!(matches!(
        import(doc),
        Err(SchematicError::InvalidFormat(InvalidReason::MissingPos))
    ));
}

#[test]
fn import_rejects_missing_state_field() {
    let doc = source_doc(
        vec![comp(vec![("pos", int_list(vec![0, 0, 0]))])],
        vec![1, 1, 1],
        vec![palette_entry("minecraft:stone", vec![])],
    );
    assert!(matches!(
        import(doc),
        Err(SchematicError::InvalidFormat(InvalidReason::MissingState))
    ));
}

#[test]
fn import_rejects_non_integer_state() {
    let doc = source_doc(
        vec![comp(vec![("pos", int_list(vec![0, 0, 0])), ("state", text("x"))])],
        vec![1, 1, 1],
        vec![palette_entry("minecraft:stone", vec![])],
    );
    assert!(matches!(
        import(doc),
        Err(SchematicError::InvalidFormat(InvalidReason::StateNotInt))
    ));
}

#[test]
fn import_rejects_out_of_range_state() {
    let doc = source_doc(
        vec![block_entry(vec![0, 0, 0], 7)],
        vec![1, 1, 1],
        vec![palette_entry("minecraft:stone", vec![])],
    );
    assert!(matches!(import(doc), Err(SchematicError::PaletteIndexOutOfRange)));
}

#[test]
fn import_rejects_non_compound_block_entry() {
    let doc = source_doc(
        vec![NbtValue::Int(1)],
        vec![1, 1, 1],
        vec![palette_entry("minecraft:stone", vec![])],
    );
    assert!(matches!(
        import(doc),
        Err(SchematicError::InvalidFormat(InvalidReason::BlockEntryNotCompound))
    ));
}

#[test]
fn import_rejects_non_compound_palette_entry() {
    let doc = source_doc(vec![], vec![1, 1, 1], vec![NbtValue::Int(1)]);
    assert!(matches!(
        import(doc),
        Err(SchematicError::InvalidFormat(InvalidReason::PaletteEntryNotCompound))
    ));
}

#[test]
fn import_rejects_malformed_size() {
    let doc = comp(vec![
        ("blocks", NbtValue::List(vec![])),
        ("size", int_list(vec![1, 1])),
        ("palette", NbtValue::List(vec![])),
        ("entities", NbtValue::List(vec![])),
    ]);
    assert!(matches!(
        import(doc),
        Err(SchematicError::InvalidFormat(InvalidReason::SizeWrongShape))
    ));
}

#[test]
fn palette_slot_without_name_defaults_to_air() {
    let cs = CreateSchematic::new(source_doc(
        vec![],
        vec![1, 1, 1],
        vec![
            comp(vec![("Properties", comp(vec![("axis", text("y"))]))]),
            palette_entry("minecraft:stone", vec![]),
        ],
    ))
    .unwrap();
    let pal = cs.parse_palette().unwrap();
    assert_eq!(pal.len(), 2);
    // a slot with no usable name is plain air: its stray properties drop
    assert_eq!(pal[0].id.name, "minecraft:air");
    assert!(pal[0].properties.is_empty());
    assert_eq!(pal[1].id.name, "minecraft:stone");
}

#[test]
fn palette_properties_sorted_and_strings_only() {
    let cs = CreateSchematic::new(source_doc(
        vec![],
        vec![1, 1, 1],
        vec![comp(vec![
            ("Name", text("minecraft:log")),
            (
                "Properties",
                comp(vec![
                    ("facing", text("north")),
                    ("axis", text("y")),
                    ("power", NbtValue::Int(3)),
                ]),
            ),
        ])],
    ))
    .unwrap();
    let pal = cs.parse_palette().unwrap();
    let props: Vec<(String, String)> = pal[0].properties.clone();
    assert_eq!(
        props,
        vec![
            ("axis".to_string(), "y".to_string()),
            ("facing".to_string(), "north".to_string()),
        ]
    );
}

fn shared(name: &str) -> Arc<BlockData> {
    Arc::new(BlockData { id: BlockId { name: name.to_string() }, properties: Vec::new() })
}

fn schematic_of(entries: Vec<(i32, i32, i32, Arc<BlockData>)>, size: (i32, i32, i32)) -> SchematicData {
    let mut blocks = BlockStatePosList::default();
    for (x, y, z, b) in entries {
        blocks.add(BlockPos { x, y, z }, b);
    }
    SchematicData::new(
        blocks,
        SchematicSize { width: size.0, height: size.1, length: size.2 },
        TileEntitiesList::default(),
    )
}

#[test]
fn palette_round_trip_no_duplicates() {
    let doc = source_doc(
        vec![
            block_entry(vec![0, 0, 0], 0),
            block_entry(vec![1, 0, 0], 1),
            block_entry(vec![0, 0, 1], 0),
        ],
        vec![2, 1, 2],
        vec![
            palette_entry("minecraft:stone", vec![("variant", "smooth")]),
            palette_entry("minecraft:dirt", vec![]),
        ],
    );
    let sd = import(doc).unwrap();
    let lm = ToLmSchematic::new(&sd);
    let names: Vec<String> =
        lm.unique_block_states.iter().map(|b| b.id.name.clone()).collect();
    assert_eq!(names, vec!["minecraft:air", "minecraft:stone", "minecraft:dirt"]);
    // each description appears exactly once
    for i in 0..names.len() {
        for j in (i + 1)..names.len() {
            assert_ne!(names[i], names[j]);
        }
    }
    assert_eq!(lm.unique_block_states[1].properties.len(), 1);
}

fn decoded_grid(lm: &ToLmSchematic) -> Vec<u64> {
    let words = lm.encode_block_states();
    let total = (lm.width * lm.height * lm.length) as usize;
    decode_packed(&words, lm.bits, total)
}

#[test]
fn padding_shell_geometry() {
    let sd = schematic_of(
        vec![
            (0, 0, 0, shared("minecraft:stone")),
            (1, 0, 1, shared("minecraft:stone")),
        ],
        (2, 1, 2),
    );
    let lm = ToLmSchematic::new(&sd);
    assert_eq!((lm.width, lm.height, lm.length), (4, 1, 4));
    assert_eq!(lm.start_pos, BlockPos { x: -1, y: 0, z: -1 });
    let grid = decoded_grid(&lm);
    // every perimeter cell of the 4 x 4 layer is air (slot 0)
    for dz in 0..4i32 {
        for dx in 0..4i32 {
            let id = (dz * 4 + dx) as usize;
            let on_rim = dx == 0 || dx == 3 || dz == 0 || dz == 3;
            if on_rim {
                assert_eq!(grid[id], 0, "cell {} {}", dx, dz);
            }
        }
    }
    // the two occupied interior cells hold the stone slot
    let stone = 1u64;
    assert_eq!(grid[(1 * 4 + 1) as usize], stone);
    assert_eq!(grid[(2 * 4 + 2) as usize], stone);
}

#[test]
fn grid_and_packing_deterministic() {
    let sd = schematic_of(
        vec![
            (0, 0, 0, shared("minecraft:stone")),
            (3, 2, 1, shared("minecraft:dirt")),
        ],
        (4, 3, 2),
    );
    let lm = ToLmSchematic::new(&sd);
    let a = lm.encode_block_states();
    let b = lm.encode_block_states();
    assert_eq!(a, b);
    assert_eq!(lm.get_block_id_list(), lm.get_block_id_list());
}

#[test]
fn convert_rejects_unknown_target() {
    let sd = schematic_of(vec![(0, 0, 0, shared("minecraft:stone"))], (1, 1, 1));
    assert!(matches!(
        convert_schematic(&sd, 9, 6),
        Err(SchematicError::UnsupportedTargetFormat)
    ));
    let sd2 = schematic_of(vec![(0, 0, 0, shared("minecraft:stone"))], (1, 1, 1));
    assert!(matches!(
        convert_schematic(&sd2, 1, 6),
        Err(SchematicError::UnsupportedTargetFormat)
    ));
}

fn field<'a>(v: &'a NbtValue, key: &str) -> &'a NbtValue {
    match v {
        NbtValue::Compound(fields) => {
            for (k, val) in fields {
                if k.as_str() == key {
                    return val;
                }
            }
            panic!("missing field {}", key);
        }
        _ => panic!("not a compound"),
    }
}

fn int_of(v: &NbtValue) -> i32 {
    match v {
        NbtValue::Int(n) => *n,
        _ => panic!("not an int"),
    }
}

#[test]
fn end_to_end_single_block() {
    let doc = source_doc(
        vec![block_entry(vec![0, 0, 0], 0)],
        vec![1, 1, 1],
        vec![palette_entry("minecraft:stone", vec![])],
    );
    let sd = import(doc).unwrap();
    let out = convert_schematic(&sd, 2, 6).unwrap();

    assert_eq!(int_of(field(&out, "MinecraftDataVersion")), 3465);
    assert_eq!(int_of(field(&out, "Version")), 6);
    assert_eq!(int_of(field(&out, "SubVersion")), 1);

    let region = field(field(&out, "Regions"), "null");
    let size = field(region, "Size");
    assert_eq!(
        (int_of(field(&size, "x")), int_of(field(&size, "y")), int_of(field(&size, "z"))),
        (3, 1, 3)
    );

    let pal = match field(region, "BlockStatePalette") {
        NbtValue::List(items) => items,
        _ => panic!("palette is not a list"),
    };
    assert_eq!(pal.len(), 2);
    match field(&pal[0], "Name") {
        NbtValue::Text(s) => assert_eq!(s, "minecraft:air"),
        _ => panic!("air name"),
    }
    match field(&pal[1], "Name") {
        NbtValue::Text(s) => assert_eq!(s, "minecraft:stone"),
        _ => panic!("stone name"),
    }

    let words: Vec<u64> = match field(region, "BlockStates") {
        NbtValue::LongArray(a) => a.iter().map(|v| *v as u64).collect(),
        _ => panic!("block states"),
    };
    let grid = decode_packed(&words, 2, 9);
    for (i, cell) in grid.iter().enumerate() {
        if i == 4 {
            assert_eq!(*cell, 1, "center cell holds the stone slot");
        } else {
            assert_eq!(*cell, 0, "cell {} is air", i);
        }
    }

    let tiles = field(region, "TileEntities");
    assert!(matches!(tiles, NbtValue::List(t) if t.is_empty()));
}

#[test]
fn metadata_fields_are_fixed() {
    let sd = schematic_of(vec![(0, 0, 0, shared("minecraft:stone"))], (1, 1, 1));
    let lm = ToLmSchematic::new(&sd);
    let md = lm.lm_metadata();
    assert_eq!(int_of(field(&md, "RegionCount")), 1);
    let es = field(&md, "EnclosingSize");
    assert_eq!(
        (int_of(field(&es, "x")), int_of(field(&es, "y")), int_of(field(&es, "z"))),
        (3, 1, 3)
    );
    match field(&md, "Author") {
        NbtValue::Text(s) => assert_eq!(s, "www.mcschematic.top"),
        _ => panic!("author"),
    }
}

#[test]
fn declared_size_under_padding_is_preserved_behavior() {
    // the padded box is derived from the declared size, not the true
    // occupied maximum: a block outside the declared size is under-padded
    let sd = schematic_of(
        vec![
            (0, 0, 0, shared("minecraft:stone")),
            (2, 0, 0, shared("minecraft:stone")),
        ],
        (1, 1, 1),
    );
    let lm = ToLmSchematic::new(&sd);
    // the declared 1 x 1 x 1 box yields a 3 x 1 x 3 region even though the
    // structure actually spans three cells on x
    assert_eq!((lm.width, lm.height, lm.length), (3, 1, 3));
}

#[test]
fn encoded_document_reads_back_with_the_nbt_crate() {
    let doc = comp(vec![
        ("Name", text("minecraft:stone")),
        ("Count", NbtValue::Int(513)),
        ("Ids", NbtValue::IntArray(vec![1, -2, 70000])),
    ]);
    let bytes = encode_document(&doc).unwrap();
    let parsed: fastnbt::Value = fastnbt::from_bytes(&bytes).unwrap();
    match parsed {
        fastnbt::Value::Compound(m) => {
            assert_eq!(m.len(), 3);
            assert!(matches!(m.get("Name"), Some(fastnbt::Value::String(s)) if s == "minecraft:stone"));
            assert!(matches!(m.get("Count"), Some(fastnbt::Value::Int(513))));
            match m.get("Ids") {
                Some(fastnbt::Value::IntArray(a)) => {
                    assert_eq!(a.iter().copied().collect::<Vec<i32>>(), vec![1, -2, 70000]);
                }
                _ => panic!("Ids"),
            }
        }
        _ => panic!("root"),
    }
}

#[test]
fn encoded_export_parses_as_a_container() {
    let doc = source_doc(
        vec![block_entry(vec![0, 0, 0], 0)],
        vec![1, 1, 1],
        vec![palette_entry("minecraft:stone", vec![])],
    );
    let sd = import(doc).unwrap();
    let out = convert_schematic(&sd, 2, 6).unwrap();
    let bytes = encode_document(&out).unwrap();
    let parsed: fastnbt::Value = fastnbt::from_bytes(&bytes).unwrap();
    match parsed {
        fastnbt::Value::Compound(m) => {
            assert!(matches!(m.get("MinecraftDataVersion"), Some(fastnbt::Value::Int(3465))));
            match m.get("Regions") {
                Some(fastnbt::Value::Compound(regions)) => {
                    assert!(regions.contains_key("null"));
                }
                _ => panic!("regions"),
            }
        }
        _ => panic!("root"),
    }
}

#[test]
fn encoder_rejects_heterogeneous_lists() {
    let doc = NbtValue::List(vec![NbtValue::Int(1), text("x")]);
    assert!(encode_document(&doc).is_err());
}

#[test]
fn document_encoding_round_trips() {
    let doc = source_doc(
        vec![block_entry(vec![1, 2, 3], 1)],
        vec![4, 5, 6],
        vec![
            palette_entry("minecraft:stone", vec![("axis", "y")]),
            palette_entry("minecraft:dirt", vec![]),
        ],
    );
    let bytes = encode_document(&doc).unwrap();
    let back = parse_document(&bytes).unwrap();
    let bytes2 = encode_document(&back).unwrap();
    assert_eq!(bytes, bytes2);
    assert_eq!(format!("{:?}", doc), format!("{:?}", back));
}

#[test]
fn import_from_reference_writer_bytes() {
    // the same source document, written by the reference NBT crate and
    // gzip-compressed, decodes through the library's own byte path
    let mut palette_slot = std::collections::HashMap::new();
    palette_slot.insert("Name".to_string(), fastnbt::Value::String("minecraft:stone".to_string()));
    let mut entry = std::collections::HashMap::new();
    entry.insert(
        "pos".to_string(),
        fastnbt::Value::List(vec![
            fastnbt::Value::Int(0),
            fastnbt::Value::Int(0),
            fastnbt::Value::Int(0),
        ]),
    );
    entry.insert("state".to_string(), fastnbt::Value::Int(0));
    let mut root = std::collections::HashMap::new();
    root.insert(
        "blocks".to_string(),
        fastnbt::Value::List(vec![fastnbt::Value::Compound(entry)]),
    );
    root.insert(
        "size".to_string(),
        fastnbt::Value::List(vec![
            fastnbt::Value::Int(1),
            fastnbt::Value::Int(1),
            fastnbt::Value::Int(1),
        ]),
    );
    root.insert(
        "palette".to_string(),
        fastnbt::Value::List(vec![fastnbt::Value::Compound(palette_slot)]),
    );
    root.insert("entities".to_string(), fastnbt::Value::List(vec![]));
    let bytes = fastnbt::to_bytes(&fastnbt::Value::Compound(root)).unwrap();
    let mut enc = flate2::write::GzEncoder::new(Vec::new(), flate2::Compression::default());
    enc.write_all(&bytes).unwrap();
    let packed = enc.finish().unwrap();

    let cs = CreateSchematic::from_bytes(&packed).unwrap();
    let sd = cs.get_blocks_pos().unwrap();
    assert_eq!(sd.blocks.elements.len(), 1);
    assert_eq!(sd.blocks.elements[0].block.id.name, "minecraft:stone");
    assert_eq!(sd.size, SchematicSize { width: 1, height: 1, length: 1 });
}

#[test]
fn parser_rejects_truncated_document() {
    let doc = source_doc(vec![], vec![1, 1, 1], vec![]);
    let bytes = encode_document(&doc).unwrap();
    let r = parse_document(&bytes[..bytes.len() - 1]);
    assert!(matches!(
        r,
        Err(SchematicError::InvalidFormat(InvalidReason::TruncatedDocument))
    ));
}

#[test]
fn parser_rejects_trailing_bytes() {
    let doc = source_doc(vec![], vec![1, 1, 1], vec![]);
    let mut bytes = encode_document(&doc).unwrap();
    bytes.push(0);
    assert!(matches!(
        parse_document(&bytes),
        Err(SchematicError::InvalidFormat(InvalidReason::TrailingBytes))
    ));
}
