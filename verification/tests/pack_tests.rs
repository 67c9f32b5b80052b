use schem_convert::error::SchematicError;
use schem_convert::gz::decompress_schematic;
use schem_convert::pack::{bits_per_entry, decode_packed, encode_packed};
use schem_convert::strcmp::{str_cmp, KeyOrder};
use schem_convert::create_schematic::extract_namespace;
use std::io::Write;

#[test]
fn bit_width_formula() {
    let cases: Vec<(usize, u32)> = vec![
        (1, 2),
        (2, 2),
        (3, 2),
        (4, 2),
        (5, 3),
        (16, 4),
        (17, 5),
        (256, 8),
        (257, 9),
    ];
    for (n, expected) in cases {
        assert_eq!(bits_per_entry(n), expected, "palette size {}", n);
    }
}

#[test]
fn bit_width_empty_palette_falls_back() {
    assert_eq!(bits_per_entry(0), 32);
}

#[test]
fn pack_known_words() {
    // five 2-bit entries: 1, 2, 3, 0, 1 -> 0b01_00_11_10_01
    let ids: Vec<u64> = vec![1, 2, 3, 0, 1];
    let words = encode_packed(&ids, 2);
    assert_eq!(words, vec![0b01_00_11_10_01u64]);
}

#[test]
fn pack_roundtrip_straddles_word_boundary() {
    // 5-bit entries straddle the 64-bit boundary at entry 12
    let ids: Vec<u64> = (0..40u64).map(|i| (i * 7) % 32).collect();
    let words = encode_packed(&ids, 5);
    assert_eq!(words.len(), (40 * 5 + 63) / 64);
    let back = decode_packed(&words, 5, 40);
    assert_eq!(back, ids);
}

#[test]
fn pack_roundtrip_wide_entries() {
    let ids: Vec<u64> = vec![0xFFFF_FFFF, 0, 0x1234_5678, 0x8000_0001, 7];
    for bits in [32u32, 31, 17] {
        let masked: Vec<u64> = ids.iter().map(|v| v & ((1u64 << bits) - 1)).collect();
        let words = encode_packed(&masked, bits);
        let back = decode_packed(&words, bits, masked.len());
        assert_eq!(back, masked, "bits {}", bits);
    }
}

#[test]
fn pack_deterministic_across_runs() {
    let ids: Vec<u64> = (0..100u64).map(|i| i % 16).collect();
    let a = encode_packed(&ids, 4);
    let b = encode_packed(&ids, 4);
    assert_eq!(a, b);
}

#[test]
fn str_cmp_orders_by_bytes() {
    assert!(matches!(str_cmp("axis", "facing"), KeyOrder::Less));
    assert!(matches!(str_cmp("facing", "axis"), KeyOrder::Greater));
    assert!(matches!(str_cmp("axis", "axis"), KeyOrder::Equal));
    assert!(matches!(str_cmp("ab", "abc"), KeyOrder::Less));
    assert!(matches!(str_cmp("", "a"), KeyOrder::Less));
}

#[test]
fn extract_namespace_splits_at_first_colon() {
    let (ns, name) = extract_namespace("minecraft:stone").unwrap();
    assert_eq!(ns, "minecraft");
    assert_eq!(name, "stone");
    let (ns2, name2) = extract_namespace("a:b:c").unwrap();
    assert_eq!(ns2, "a");
    assert_eq!(name2, "b:c");
}

#[test]
fn extract_namespace_rejects_plain_name() {
    assert!(extract_namespace("stone").is_err());
}

#[test]
fn gz_decompress_restores_original_bytes() {
    let payload = b"a small schematic payload";
    let mut enc = flate2::write::GzEncoder::new(Vec::new(), flate2::Compression::default());
    enc.write_all(payload).unwrap();
    let packed = enc.finish().unwrap();
    assert_ne!(packed, payload.to_vec());
    let out = decompress_schematic(&packed).unwrap();
    assert_eq!(out, payload.to_vec());
}

#[test]
fn gz_rejects_garbage() {
    let r = decompress_schematic(b"definitely not a gzip stream");
    assert!(matches!(r, Err(SchematicError::IoFailure)));
}
