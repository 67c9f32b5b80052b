//! The binary encoding of a document tree.
//!
//! This is the tagged binary container format itself: big-endian scalar
//! payloads, length-prefixed strings and arrays, homogeneous lists with
//! one element tag, and compounds of named tags closed by an end tag.
//! Because compounds keep their field order, a document has exactly one
//! encoding and re-encoding identical logical content is reproducible
//! byte for byte.

use vstd::prelude::*;
use vstd::string::StringSliceAdditionalSpecFns;
use vstd::utf8::encode_utf8;

use crate::error::{InvalidReason, SchematicError};
use crate::nbt::NbtValue;

verus! {

broadcast use vstd::std_specs::vec::axiom_vec_index_decreases;

/// A 16-bit value, big-endian.
pub open spec fn be16(n: u16) -> Seq<u8> {
    seq![(n >> 8) as u8, n as u8]
}

/// A 32-bit value, big-endian.
pub open spec fn be32(n: u32) -> Seq<u8> {
    seq![(n >> 24) as u8, (n >> 16) as u8, (n >> 8) as u8, n as u8]
}

/// A 64-bit value, big-endian.
pub open spec fn be64(n: u64) -> Seq<u8> {
    seq![
        (n >> 56) as u8,
        (n >> 48) as u8,
        (n >> 40) as u8,
        (n >> 32) as u8,
        (n >> 24) as u8,
        (n >> 16) as u8,
        (n >> 8) as u8,
        n as u8,
    ]
}

/// The tag id of a value.
pub open spec fn tag_of(v: NbtValue) -> u8 {
    match v {
        NbtValue::Byte(_) => 1,
        NbtValue::Short(_) => 2,
        NbtValue::Int(_) => 3,
        NbtValue::Long(_) => 4,
        NbtValue::Float(_) => 5,
        NbtValue::Double(_) => 6,
        NbtValue::ByteArray(_) => 7,
        NbtValue::Text(_) => 8,
        NbtValue::List(_) => 9,
        NbtValue::Compound(_) => 10,
        NbtValue::IntArray(_) => 11,
        NbtValue::LongArray(_) => 12,
    }
}

/// The element tag of a list; an empty list carries the end tag.
pub open spec fn elem_tag_of(items: Vec<NbtValue>) -> u8 {
    if items@.len() == 0 {
        0
    } else {
        tag_of(items@[0])
    }
}

/// The raw bytes of a signed byte array.
pub open spec fn i8s_bytes(s: Seq<i8>) -> Seq<u8> {
    Seq::new(s.len(), |i: int| s[i] as u8)
}

/// The big-endian bytes of the first `i` elements of an integer array.
pub open spec fn i32s_bytes(s: Seq<i32>, i: int) -> Seq<u8>
    decreases i,
{
    if i <= 0 {
        Seq::empty()
    } else {
        i32s_bytes(s, i - 1) + be32(s[i - 1] as u32)
    }
}

/// The big-endian bytes of the first `i` elements of a long array.
pub open spec fn i64s_bytes(s: Seq<i64>, i: int) -> Seq<u8>
    decreases i,
{
    if i <= 0 {
        Seq::empty()
    } else {
        i64s_bytes(s, i - 1) + be64(s[i - 1] as u64)
    }
}

/// The payload bytes of a value, after its tag and name.
pub open spec fn payload_bytes(v: NbtValue) -> Seq<u8>
    decreases v,
{
    match v {
        NbtValue::Byte(b) => seq![b as u8],
        NbtValue::Short(n) => be16(n as u16),
        NbtValue::Int(n) => be32(n as u32),
        NbtValue::Long(n) => be64(n as u64),
        NbtValue::Float(bits) => be32(bits),
        NbtValue::Double(bits) => be64(bits),
        NbtValue::ByteArray(a) => be32(a@.len() as u32) + i8s_bytes(a@),
        NbtValue::Text(s) => be16(encode_utf8(s@).len() as u16) + encode_utf8(s@),
        NbtValue::List(items) => seq![elem_tag_of(items)] + be32(items@.len() as u32)
            + list_payloads(items@, items@.len() as int),
        NbtValue::Compound(fields) => compound_payloads(fields@, fields@.len() as int)
            + seq![0u8],
        NbtValue::IntArray(a) => be32(a@.len() as u32) + i32s_bytes(a@, a@.len() as int),
        NbtValue::LongArray(a) => be32(a@.len() as u32) + i64s_bytes(a@, a@.len() as int),
    }
}

/// The concatenated payloads of the first `i` list elements.
pub open spec fn list_payloads(items: Seq<NbtValue>, i: int) -> Seq<u8>
    decreases items, i,
{
    if i <= 0 || i > items.len() {
        Seq::empty()
    } else {
        list_payloads(items, i - 1) + payload_bytes(items[i - 1])
    }
}

/// The bytes of the first `i` named fields of a compound: each field's
/// tag, its length-prefixed name, then its payload.
pub open spec fn compound_payloads(fields: Seq<(String, NbtValue)>, i: int) -> Seq<u8>
    decreases fields, i,
{
    if i <= 0 || i > fields.len() {
        Seq::empty()
    } else {
        compound_payloads(fields, i - 1) + seq![tag_of(fields[i - 1].1)] + be16(
            encode_utf8(fields[i - 1].0@).len() as u16,
        ) + encode_utf8(fields[i - 1].0@) + payload_bytes(fields[i - 1].1)
    }
}

/// A whole document: the root's tag, an empty root name, and the root's
/// payload.
pub open spec fn doc_bytes(v: NbtValue) -> Seq<u8> {
    seq![tag_of(v)] + be16(0) + payload_bytes(v)
}

/// Every size the encoding length-prefixes fits its prefix, and every
/// list is homogeneous.
pub open spec fn doc_wf(v: NbtValue) -> bool
    decreases v,
{
    match v {
        NbtValue::ByteArray(a) => a@.len() <= 0x7fff_ffff,
        NbtValue::Text(s) => encode_utf8(s@).len() <= 0xffff,
        NbtValue::List(items) => {
            &&& items@.len() <= 0x7fff_ffff
            &&& forall|i: int|
                0 <= i < items@.len() ==> tag_of(#[trigger] items@[i]) == elem_tag_of(items)
            &&& forall|i: int| 0 <= i < items@.len() ==> doc_wf(#[trigger] items@[i])
        },
        NbtValue::Compound(fields) => {
            &&& fields@.len() <= 0x7fff_ffff
            &&& forall|i: int|
                0 <= i < fields@.len() ==> encode_utf8((#[trigger] fields@[i]).0@).len() <= 0xffff
            &&& forall|i: int| 0 <= i < fields@.len() ==> doc_wf((#[trigger] fields@[i]).1)
        },
        NbtValue::IntArray(a) => a@.len() <= 0x7fff_ffff,
        NbtValue::LongArray(a) => a@.len() <= 0x7fff_ffff,
        _ => true,
    }
}

/// Appends a big-endian 16-bit value.
fn write_be16(out: &mut Vec<u8>, n: u16)
    ensures
        final(out)@ == old(out)@ + be16(n),
{
    out.push((n >> 8) as u8);
    out.push(n as u8);
    proof {
        assert(final(out)@ =~= old(out)@ + be16(n));
    }
}

/// Appends a big-endian 32-bit value.
fn write_be32(out: &mut Vec<u8>, n: u32)
    ensures
        final(out)@ == old(out)@ + be32(n),
{
    out.push((n >> 24) as u8);
    out.push((n >> 16) as u8);
    out.push((n >> 8) as u8);
    out.push(n as u8);
    proof {
        assert(final(out)@ =~= old(out)@ + be32(n));
    }
}

/// Appends a big-endian 64-bit value.
fn write_be64(out: &mut Vec<u8>, n: u64)
    ensures
        final(out)@ == old(out)@ + be64(n),
{
    out.push((n >> 56) as u8);
    out.push((n >> 48) as u8);
    out.push((n >> 40) as u8);
    out.push((n >> 32) as u8);
    out.push((n >> 24) as u8);
    out.push((n >> 16) as u8);
    out.push((n >> 8) as u8);
    out.push(n as u8);
    proof {
        assert(final(out)@ =~= old(out)@ + be64(n));
    }
}

/// Appends a string's UTF-8 bytes.
fn write_str_bytes(out: &mut Vec<u8>, s: &str)
    ensures
        final(out)@ == old(out)@ + s.spec_bytes(),
{
    let bytes = s.as_bytes();
    let n = bytes.len();
    let mut i: usize = 0;
    while i < n
        invariant
            i <= n,
            n == bytes@.len(),
            bytes@ == s.spec_bytes(),
            out@ == old(out)@ + bytes@.take(i as int),
        decreases n - i,
    {
        out.push(bytes[i]);
        proof {
            assert(old(out)@ + bytes@.take(i as int + 1) =~= (old(out)@ + bytes@.take(i as int)).push(
                bytes@[i as int],
            ));
        }
        i = i + 1;
    }
    proof {
        assert(bytes@.take(n as int) =~= bytes@);
    }
}

/// Appends a length-prefixed name, or reports one that cannot fit.
fn write_name(out: &mut Vec<u8>, s: &str) -> (r: Result<(), SchematicError>)
    ensures
        (r is Ok) == (s.spec_bytes().len() <= 0xffff),
        r is Ok ==> final(out)@ == old(out)@ + be16(s.spec_bytes().len() as u16)
            + s.spec_bytes(),
        r is Err ==> final(out)@ == old(out)@,
{
    let len = s.as_bytes().len();
    if len > 0xffff {
        return Err(SchematicError::InvalidFormat(InvalidReason::BadString));
    }
    write_be16(out, len as u16);
    write_str_bytes(out, s);
    proof {
        assert(final(out)@ =~= old(out)@ + be16(s.spec_bytes().len() as u16) + s.spec_bytes());
    }
    Ok(())
}

/// Appends a value's payload; a value whose sizes cannot be
/// length-prefixed, or a heterogeneous list, is rejected whole.
pub fn write_payload(v: &NbtValue, out: &mut Vec<u8>) -> (r: Result<(), SchematicError>)
    ensures
        (r is Ok) == doc_wf(*v),
        r is Ok ==> final(out)@ == old(out)@ + payload_bytes(*v),
    decreases *v,
{
    match v {
        NbtValue::Byte(b) => {
            out.push(*b as u8);
            proof {
                assert(final(out)@ =~= old(out)@ + payload_bytes(*v));
            }
            Ok(())
        },
        NbtValue::Short(n) => {
            write_be16(out, *n as u16);
            Ok(())
        },
        NbtValue::Int(n) => {
            write_be32(out, *n as u32);
            Ok(())
        },
        NbtValue::Long(n) => {
            write_be64(out, *n as u64);
            Ok(())
        },
        NbtValue::Float(bits) => {
            write_be32(out, *bits);
            Ok(())
        },
        NbtValue::Double(bits) => {
            write_be64(out, *bits);
            Ok(())
        },
        NbtValue::ByteArray(a) => {
            if a.len() > 0x7fff_ffff {
                return Err(SchematicError::InvalidFormat(InvalidReason::BadString));
            }
            write_be32(out, a.len() as u32);
            let ghost base = out@;
            let n = a.len();
            let mut i: usize = 0;
            while i < n
                invariant
                    i <= n,
                    n == a@.len(),
                    out@ == base + i8s_bytes(a@).take(i as int),
                decreases n - i,
            {
                out.push(a[i] as u8);
                proof {
                    assert(base + i8s_bytes(a@).take(i as int + 1) =~= (base + i8s_bytes(
                        a@,
                    ).take(i as int)).push(i8s_bytes(a@)[i as int]));
                }
                i = i + 1;
            }
            proof {
                assert(i8s_bytes(a@).take(n as int) =~= i8s_bytes(a@));
                assert(final(out)@ =~= old(out)@ + payload_bytes(*v));
            }
            Ok(())
        },
        NbtValue::Text(s) => {
            match write_name(out, s.as_str()) {
                Ok(_) => Ok(()),
                Err(e) => Err(e),
            }
        },
        NbtValue::List(items) => {
            if items.len() > 0x7fff_ffff {
                return Err(SchematicError::InvalidFormat(InvalidReason::BadString));
            }
            let etag: u8 = if items.len() == 0 {
                0
            } else {
                tag_byte(&items[0])
            };
            out.push(etag);
            write_be32(out, items.len() as u32);
            let ghost base = out@;
            let n = items.len();
            let mut i: usize = 0;
            while i < n
                invariant
                    *v == NbtValue::List(*items),
                    i <= n,
                    n == items@.len(),
                    etag == elem_tag_of(*items),
                    out@ == base + list_payloads(items@, i as int),
                    forall|j: int|
                        0 <= j < i ==> tag_of(#[trigger] items@[j]) == elem_tag_of(*items),
                    forall|j: int| 0 <= j < i ==> doc_wf(#[trigger] items@[j]),
                decreases n - i,
            {
                if tag_byte(&items[i]) != etag {
                    return Err(SchematicError::InvalidFormat(InvalidReason::UnknownTag));
                }
                proof {
                    assert(decreases_to!(*v => v->List_0));
                    assert(decreases_to!(*items => items@));
                    assert(decreases_to!(items@ => items@[i as int]));
                }
                match write_payload(&items[i], out) {
                    Ok(_) => {},
                    Err(e) => {
                        return Err(e);
                    },
                }
                i = i + 1;
            }
            proof {
                assert(final(out)@ =~= old(out)@ + payload_bytes(*v));
            }
            Ok(())
        },
        NbtValue::Compound(fields) => {
            if fields.len() > 0x7fff_ffff {
                return Err(SchematicError::InvalidFormat(InvalidReason::BadString));
            }
            let ghost base = out@;
            let n = fields.len();
            let mut i: usize = 0;
            while i < n
                invariant
                    *v == NbtValue::Compound(*fields),
                    i <= n,
                    n == fields@.len(),
                    out@ == base + compound_payloads(fields@, i as int),
                    forall|j: int|
                        0 <= j < i ==> encode_utf8((#[trigger] fields@[j]).0@).len() <= 0xffff,
                    forall|j: int| 0 <= j < i ==> doc_wf((#[trigger] fields@[j]).1),
                decreases n - i,
            {
                proof {
                    assert(decreases_to!(*v => v->Compound_0));
                    assert(decreases_to!(*fields => fields@));
                    assert(decreases_to!(fields@ => fields@[i as int]));
                    assert(decreases_to!(fields@[i as int] => fields@[i as int].1));
                }
                out.push(tag_byte(&fields[i].1));
                match write_name(out, fields[i].0.as_str()) {
                    Ok(_) => {},
                    Err(e) => {
                        return Err(e);
                    },
                }
                match write_payload(&fields[i].1, out) {
                    Ok(_) => {},
                    Err(e) => {
                        return Err(e);
                    },
                }
                proof {
                    assert(out@ =~= base + compound_payloads(fields@, i as int + 1));
                }
                i = i + 1;
            }
            out.push(0u8);
            proof {
                assert(final(out)@ =~= old(out)@ + payload_bytes(*v));
            }
            Ok(())
        },
        NbtValue::IntArray(a) => {
            if a.len() > 0x7fff_ffff {
                return Err(SchematicError::InvalidFormat(InvalidReason::BadString));
            }
            write_be32(out, a.len() as u32);
            let ghost base = out@;
            let n = a.len();
            let mut i: usize = 0;
            while i < n
                invariant
                    i <= n,
                    n == a@.len(),
                    out@ == base + i32s_bytes(a@, i as int),
                decreases n - i,
            {
                write_be32(out, a[i] as u32);
                i = i + 1;
            }
            proof {
                assert(final(out)@ =~= old(out)@ + payload_bytes(*v));
            }
            Ok(())
        },
        NbtValue::LongArray(a) => {
            if a.len() > 0x7fff_ffff {
                return Err(SchematicError::InvalidFormat(InvalidReason::BadString));
            }
            write_be32(out, a.len() as u32);
            let ghost base = out@;
            let n = a.len();
            let mut i: usize = 0;
            while i < n
                invariant
                    i <= n,
                    n == a@.len(),
                    out@ == base + i64s_bytes(a@, i as int),
                decreases n - i,
            {
                write_be64(out, a[i] as u64);
                i = i + 1;
            }
            proof {
                assert(final(out)@ =~= old(out)@ + payload_bytes(*v));
            }
            Ok(())
        },
    }
}

/// The tag id of a value.
pub fn tag_byte(v: &NbtValue) -> (r: u8)
    ensures
        r == tag_of(*v),
{
    match v {
        NbtValue::Byte(_) => 1,
        NbtValue::Short(_) => 2,
        NbtValue::Int(_) => 3,
        NbtValue::Long(_) => 4,
        NbtValue::Float(_) => 5,
        NbtValue::Double(_) => 6,
        NbtValue::ByteArray(_) => 7,
        NbtValue::Text(_) => 8,
        NbtValue::List(_) => 9,
        NbtValue::Compound(_) => 10,
        NbtValue::IntArray(_) => 11,
        NbtValue::LongArray(_) => 12,
    }
}

/// Encodes a whole document: root tag, empty root name, root payload.
/// A document whose sizes cannot be length-prefixed is rejected whole,
/// and nothing is produced for it.
pub fn encode_document(v: &NbtValue) -> (r: Result<Vec<u8>, SchematicError>)
    ensures
        (r is Ok) == doc_wf(*v),
        r matches Ok(bytes) ==> bytes@ == doc_bytes(*v),
{
    let mut out: Vec<u8> = Vec::new();
    out.push(tag_byte(v));
    write_be16(&mut out, 0);
    match write_payload(v, &mut out) {
        Ok(_) => {
            proof {
                assert(out@ =~= doc_bytes(*v));
            }
            Ok(out)
        },
        Err(e) => Err(e),
    }
}


/// Every payload is at least one byte long.
proof fn lemma_payload_nonempty(v: NbtValue)
    ensures
        payload_bytes(v).len() >= 1,
{
}

/// Payloads of a prefix do not change when the sequence grows.
proof fn lemma_list_payloads_push(s: Seq<NbtValue>, e: NbtValue, j: int)
    requires
        0 <= j <= s.len(),
    ensures
        list_payloads(s.push(e), j) == list_payloads(s, j),
    decreases j,
{
    if j > 0 {
        lemma_list_payloads_push(s, e, j - 1);
    }
}

/// Field bytes of a prefix do not change when the sequence grows.
proof fn lemma_compound_payloads_push(s: Seq<(String, NbtValue)>, e: (String, NbtValue), j: int)
    requires
        0 <= j <= s.len(),
    ensures
        compound_payloads(s.push(e), j) == compound_payloads(s, j),
    decreases j,
{
    if j > 0 {
        lemma_compound_payloads_push(s, e, j - 1);
    }
}

/// Relies on std's `str::from_utf8`: it accepts exactly valid UTF-8 and
/// the returned slice views the given bytes.
#[verifier::external_body]
fn bytes_to_str(v: &[u8]) -> (r: Option<&str>)
    ensures
        (r matches Some(s) ==> s.spec_bytes() == v@),
        (r is None ==> !vstd::utf8::valid_utf8(v@)),
{
    std::str::from_utf8(v).ok()
}

/// Reads one byte.
fn read_u8(bytes: &[u8], pos: usize) -> (r: Result<(u8, usize), SchematicError>)
    requires
        pos <= bytes@.len(),
    ensures
        (r matches Ok(p) ==> p.1 == pos + 1 && p.1 <= bytes@.len() && seq![p.0]
            == bytes@.subrange(pos as int, pos as int + 1)),
        (r is Err ==> r == Err::<(u8, usize), SchematicError>(
            SchematicError::InvalidFormat(InvalidReason::TruncatedDocument),
        )),
{
    if pos < bytes.len() {
        let b = bytes[pos];
        proof {
            assert(seq![b] =~= bytes@.subrange(pos as int, pos as int + 1));
        }
        Ok((b, pos + 1))
    } else {
        Err(SchematicError::InvalidFormat(InvalidReason::TruncatedDocument))
    }
}

/// Reads a big-endian 16-bit value.
fn read_be16(bytes: &[u8], pos: usize) -> (r: Result<(u16, usize), SchematicError>)
    requires
        pos <= bytes@.len(),
    ensures
        (r matches Ok(p) ==> p.1 == pos + 2 && p.1 <= bytes@.len() && be16(p.0)
            == bytes@.subrange(pos as int, pos as int + 2)),
        (r is Err ==> r == Err::<(u16, usize), SchematicError>(
            SchematicError::InvalidFormat(InvalidReason::TruncatedDocument),
        )),
{
    if bytes.len() >= 2 && pos <= bytes.len() - 2 {
        let b0 = bytes[pos];
        let b1 = bytes[pos + 1];
        let v: u16 = ((b0 as u16) << 8) | (b1 as u16);
        proof {
            let x0 = b0 as u16;
            let x1 = b1 as u16;
            assert((((x0 << 8) | x1) >> 8) as u8 == x0 as u8 && (((x0 << 8) | x1)) as u8 == x1
                as u8) by (bit_vector)
                requires
                    x0 < 256,
                    x1 < 256,
            ;
            assert(be16(v) =~= bytes@.subrange(pos as int, pos as int + 2));
        }
        Ok((v, pos + 2))
    } else {
        Err(SchematicError::InvalidFormat(InvalidReason::TruncatedDocument))
    }
}

/// Reads a big-endian 32-bit value.
fn read_be32(bytes: &[u8], pos: usize) -> (r: Result<(u32, usize), SchematicError>)
    requires
        pos <= bytes@.len(),
    ensures
        (r matches Ok(p) ==> p.1 == pos + 4 && p.1 <= bytes@.len() && be32(p.0)
            == bytes@.subrange(pos as int, pos as int + 4)),
        (r is Err ==> r == Err::<(u32, usize), SchematicError>(
            SchematicError::InvalidFormat(InvalidReason::TruncatedDocument),
        )),
{
    let (hi, mid) = match read_be16(bytes, pos) {
        Ok(p) => p,
        Err(e) => {
            return Err(e);
        },
    };
    let (lo, end) = match read_be16(bytes, mid) {
        Ok(p) => p,
        Err(e) => {
            return Err(e);
        },
    };
    let v: u32 = ((hi as u32) << 16) | (lo as u32);
    proof {
        let h = hi as u32;
        let l = lo as u32;
        let x = ((h << 16) | l) as u32;
        assert((x >> 24) as u8 == ((h >> 8) as u16) as u8 && (x >> 16) as u8 == (h as u16) as u8
            && (x >> 8) as u8 == ((l >> 8) as u16) as u8 && x as u8 == (l as u16) as u8)
            by (bit_vector)
            requires
                h < 0x1_0000,
                l < 0x1_0000,
                x == ((h << 16) | l) as u32,
        ;
        assert((hi >> 8) as u8 == ((h >> 8) as u16) as u8) by (bit_vector)
            requires
                h == hi as u32,
        ;
        assert((hi) as u8 == (h as u16) as u8) by (bit_vector)
            requires
                h == hi as u32,
        ;
        assert((lo >> 8) as u8 == ((l >> 8) as u16) as u8) by (bit_vector)
            requires
                l == lo as u32,
        ;
        assert((lo) as u8 == (l as u16) as u8) by (bit_vector)
            requires
                l == lo as u32,
        ;
        assert(be32(v) =~= be16(hi) + be16(lo));
        assert(be32(v) =~= bytes@.subrange(pos as int, pos as int + 4));
    }
    Ok((v, end))
}

/// Reads a big-endian 64-bit value.
fn read_be64(bytes: &[u8], pos: usize) -> (r: Result<(u64, usize), SchematicError>)
    requires
        pos <= bytes@.len(),
    ensures
        (r matches Ok(p) ==> p.1 == pos + 8 && p.1 <= bytes@.len() && be64(p.0)
            == bytes@.subrange(pos as int, pos as int + 8)),
        (r is Err ==> r == Err::<(u64, usize), SchematicError>(
            SchematicError::InvalidFormat(InvalidReason::TruncatedDocument),
        )),
{
    let (hi, mid) = match read_be32(bytes, pos) {
        Ok(p) => p,
        Err(e) => {
            return Err(e);
        },
    };
    let (lo, end) = match read_be32(bytes, mid) {
        Ok(p) => p,
        Err(e) => {
            return Err(e);
        },
    };
    let v: u64 = ((hi as u64) << 32) | (lo as u64);
    proof {
        let h = hi as u64;
        let l = lo as u64;
        let x = ((h << 32) | l) as u64;
        assert((x >> 56) as u8 == ((h >> 24) as u32) as u8 && (x >> 48) as u8 == ((h >> 16)
            as u32) as u8 && (x >> 40) as u8 == ((h >> 8) as u32) as u8 && (x >> 32) as u8 == (h
            as u32) as u8 && (x >> 24) as u8 == ((l >> 24) as u32) as u8 && (x >> 16) as u8 == ((l
            >> 16) as u32) as u8 && (x >> 8) as u8 == ((l >> 8) as u32) as u8 && x as u8 == (l
            as u32) as u8) by (bit_vector)
            requires
                h < 0x1_0000_0000,
                l < 0x1_0000_0000,
                x == ((h << 32) | l) as u64,
        ;
        assert((hi >> 24) as u8 == ((h >> 24) as u32) as u8 && (hi >> 16) as u8 == ((h >> 16)
            as u32) as u8 && (hi >> 8) as u8 == ((h >> 8) as u32) as u8 && hi as u8 == (h
            as u32) as u8) by (bit_vector)
            requires
                h == hi as u64,
        ;
        assert((lo >> 24) as u8 == ((l >> 24) as u32) as u8 && (lo >> 16) as u8 == ((l >> 16)
            as u32) as u8 && (lo >> 8) as u8 == ((l >> 8) as u32) as u8 && lo as u8 == (l
            as u32) as u8) by (bit_vector)
            requires
                l == lo as u64,
        ;
        assert(be64(v) =~= be32(hi) + be32(lo));
        assert(be64(v) =~= bytes@.subrange(pos as int, pos as int + 8));
    }
    Ok((v, end))
}

/// Copies a byte range.
fn copy_bytes(bytes: &[u8], start: usize, end: usize) -> (r: Vec<u8>)
    requires
        start <= end <= bytes@.len(),
    ensures
        r@ == bytes@.subrange(start as int, end as int),
{
    let mut out: Vec<u8> = Vec::new();
    let mut i: usize = start;
    while i < end
        invariant
            start <= i <= end <= bytes@.len(),
            out@ == bytes@.subrange(start as int, i as int),
        decreases end - i,
    {
        out.push(bytes[i]);
        proof {
            assert(bytes@.subrange(start as int, i as int + 1) =~= bytes@.subrange(
                start as int,
                i as int,
            ).push(bytes@[i as int]));
        }
        i = i + 1;
    }
    out
}

/// The structural reasons a payload decode can raise.
pub open spec fn payload_error(e: SchematicError) -> bool {
    e matches SchematicError::InvalidFormat(why) && (why == InvalidReason::TruncatedDocument
        || why == InvalidReason::UnknownTag || why == InvalidReason::NegativeLength || why
        == InvalidReason::BadString)
}

/// Decodes the payload of one tagged value; accepted input re-encodes to
/// exactly the consumed bytes, and a rejection carries one of the
/// decoder's own structural reasons.
#[verifier::rlimit(60)]
pub fn parse_payload(bytes: &[u8], pos: usize, tag: u8) -> (r: Result<
    (NbtValue, usize),
    SchematicError,
>)
    requires
        pos <= bytes@.len(),
        bytes@.len() <= 0x7fff_ffff,
    ensures
        r matches Ok(p) ==> {
            &&& pos < p.1 <= bytes@.len()
            &&& tag_of(p.0) == tag
            &&& doc_wf(p.0)
            &&& payload_bytes(p.0) == bytes@.subrange(pos as int, p.1 as int)
        },
        r matches Err(e) ==> payload_error(e),
    decreases bytes@.len() - pos,
{
    if tag == 1 {
        let (b, end) = match read_u8(bytes, pos) {
            Ok(p) => p,
            Err(e) => {
                return Err(e);
            },
        };
        let v = NbtValue::Byte(b as i8);
        proof {
            assert((b as i8) as u8 == b) by (bit_vector);
            assert(payload_bytes(v) =~= bytes@.subrange(pos as int, end as int));
        }
        Ok((v, end))
    } else if tag == 2 {
        let (n, end) = match read_be16(bytes, pos) {
            Ok(p) => p,
            Err(e) => {
                return Err(e);
            },
        };
        let v = NbtValue::Short(n as i16);
        proof {
            assert((n as i16) as u16 == n) by (bit_vector);
        }
        Ok((v, end))
    } else if tag == 3 {
        let (n, end) = match read_be32(bytes, pos) {
            Ok(p) => p,
            Err(e) => {
                return Err(e);
            },
        };
        let v = NbtValue::Int(n as i32);
        proof {
            assert((n as i32) as u32 == n) by (bit_vector);
        }
        Ok((v, end))
    } else if tag == 4 {
        let (n, end) = match read_be64(bytes, pos) {
            Ok(p) => p,
            Err(e) => {
                return Err(e);
            },
        };
        let v = NbtValue::Long(n as i64);
        proof {
            assert((n as i64) as u64 == n) by (bit_vector);
        }
        Ok((v, end))
    } else if tag == 5 {
        let (n, end) = match read_be32(bytes, pos) {
            Ok(p) => p,
            Err(e) => {
                return Err(e);
            },
        };
        Ok((NbtValue::Float(n), end))
    } else if tag == 6 {
        let (n, end) = match read_be64(bytes, pos) {
            Ok(p) => p,
            Err(e) => {
                return Err(e);
            },
        };
        Ok((NbtValue::Double(n), end))
    } else if tag == 7 {
        let (n, mid) = match read_be32(bytes, pos) {
            Ok(p) => p,
            Err(e) => {
                return Err(e);
            },
        };
        if (n as i32) < 0 {
            return Err(SchematicError::InvalidFormat(InvalidReason::NegativeLength));
        }
        let count = n as usize;
        if count > bytes.len() || mid > bytes.len() - count {
            return Err(SchematicError::InvalidFormat(InvalidReason::TruncatedDocument));
        }
        let end = mid + count;
        let raw = copy_bytes(bytes, mid, end);
        let mut a: Vec<i8> = Vec::new();
        let mut i: usize = 0;
        while i < count
            invariant
                i <= count,
                raw@.len() == count,
                a@.len() == i,
                forall|j: int| 0 <= j < i ==> (#[trigger] a@[j]) as u8 == raw@[j],
            decreases count - i,
        {
            let b = raw[i];
            a.push(b as i8);
            proof {
                assert((b as i8) as u8 == b) by (bit_vector);
            }
            i = i + 1;
        }
        let v = NbtValue::ByteArray(a);
        proof {
            assert(n as i32 >= 0);
            assert(n < 0x8000_0000);
            assert(i8s_bytes(a@) =~= raw@);
            assert(payload_bytes(v) =~= bytes@.subrange(pos as int, end as int));
        }
        Ok((v, end))
    } else if tag == 8 {
        let (ln, mid) = match read_be16(bytes, pos) {
            Ok(p) => p,
            Err(e) => {
                return Err(e);
            },
        };
        let count = ln as usize;
        if count > bytes.len() || mid > bytes.len() - count {
            return Err(SchematicError::InvalidFormat(InvalidReason::TruncatedDocument));
        }
        let end = mid + count;
        let raw = copy_bytes(bytes, mid, end);
        let s = match bytes_to_str(raw.as_slice()) {
            Some(s) => s,
            None => {
                return Err(SchematicError::InvalidFormat(InvalidReason::BadString));
            },
        };
        let owned = s.to_owned();
        let v = NbtValue::Text(owned);
        proof {
            assert(encode_utf8(s@) == raw@);
            assert(payload_bytes(v) =~= bytes@.subrange(pos as int, end as int));
        }
        Ok((v, end))
    } else if tag == 9 {
        let (etag, p1) = match read_u8(bytes, pos) {
            Ok(p) => p,
            Err(e) => {
                return Err(e);
            },
        };
        let (n, p2) = match read_be32(bytes, p1) {
            Ok(p) => p,
            Err(e) => {
                return Err(e);
            },
        };
        if (n as i32) < 0 {
            return Err(SchematicError::InvalidFormat(InvalidReason::NegativeLength));
        }
        let count = n as usize;
        if count == 0 && etag != 0 {
            return Err(SchematicError::InvalidFormat(InvalidReason::UnknownTag));
        }
        let mut items: Vec<NbtValue> = Vec::new();
        let mut cur: usize = p2;
        let mut k: usize = 0;
        proof {
            assert(list_payloads(items@, 0) =~= bytes@.subrange(p2 as int, cur as int));
        }
        while k < count
            invariant
                bytes@.len() <= 0x7fff_ffff,
                pos < p2 <= cur <= bytes@.len(),
                p2 == pos + 5,
                k <= count,
                items@.len() == k,
                list_payloads(items@, k as int) == bytes@.subrange(p2 as int, cur as int),
                forall|j: int| 0 <= j < k ==> tag_of(#[trigger] items@[j]) == etag,
                forall|j: int| 0 <= j < k ==> doc_wf(#[trigger] items@[j]),
            decreases count - k,
        {
            let (elem, nxt) = match parse_payload(bytes, cur, etag) {
                Ok(p) => p,
                Err(e) => {
                    return Err(e);
                },
            };
            let ghost pre = items@;
            items.push(elem);
            proof {
                lemma_list_payloads_push(pre, elem, k as int);
                assert(list_payloads(items@, k as int + 1) == list_payloads(pre, k as int)
                    + payload_bytes(elem));
                assert(bytes@.subrange(p2 as int, cur as int) + bytes@.subrange(
                    cur as int,
                    nxt as int,
                ) =~= bytes@.subrange(p2 as int, nxt as int));
            }
            cur = nxt;
            k = k + 1;
        }
        let v = NbtValue::List(items);
        proof {
            assert(n < 0x8000_0000u32) by (bit_vector)
                requires
                    !((n as i32) < 0),
            ;
            assert(payload_bytes(v) =~= bytes@.subrange(pos as int, cur as int));
        }
        Ok((v, cur))
    } else if tag == 10 {
        let mut fields: Vec<(String, NbtValue)> = Vec::new();
        let mut cur: usize = pos;
        proof {
            assert(compound_payloads(fields@, 0) =~= bytes@.subrange(pos as int, cur as int));
        }
        loop
            invariant
                tag == 10,
                bytes@.len() <= 0x7fff_ffff,
                pos <= cur <= bytes@.len(),
                fields@.len() <= cur - pos,
                compound_payloads(fields@, fields@.len() as int) == bytes@.subrange(
                    pos as int,
                    cur as int,
                ),
                forall|j: int|
                    0 <= j < fields@.len() ==> encode_utf8((#[trigger] fields@[j]).0@).len()
                        <= 0xffff,
                forall|j: int| 0 <= j < fields@.len() ==> doc_wf((#[trigger] fields@[j]).1),
            decreases bytes@.len() - cur,
        {
            let (t, p1) = match read_u8(bytes, cur) {
                Ok(p) => p,
                Err(e) => {
                    return Err(e);
                },
            };
            if t == 0 {
                let ghost fsnap = fields@;
                let v = NbtValue::Compound(fields);
                proof {
                    assert(v->Compound_0@ == fsnap);
                    assert(doc_wf(v));
                    assert(bytes@.subrange(pos as int, cur as int) + seq![0u8] =~= bytes@.subrange(
                        pos as int,
                        p1 as int,
                    ));
                    assert(payload_bytes(v) =~= bytes@.subrange(pos as int, p1 as int));
                }
                return Ok((v, p1));
            }
            let (ln, p2) = match read_be16(bytes, p1) {
                Ok(p) => p,
                Err(e) => {
                    return Err(e);
                },
            };
            let ncount = ln as usize;
            if ncount > bytes.len() || p2 > bytes.len() - ncount {
                return Err(SchematicError::InvalidFormat(InvalidReason::TruncatedDocument));
            }
            let p3 = p2 + ncount;
            let raw = copy_bytes(bytes, p2, p3);
            let name = match bytes_to_str(raw.as_slice()) {
                Some(s) => s,
                None => {
                    return Err(SchematicError::InvalidFormat(InvalidReason::BadString));
                },
            };
            let (val, nxt) = match parse_payload(bytes, p3, t) {
                Ok(p) => p,
                Err(e) => {
                    return Err(e);
                },
            };
            let ghost pre = fields@;
            let owned = name.to_owned();
            fields.push((owned, val));
            proof {
                lemma_compound_payloads_push(pre, (owned, val), pre.len() as int);
                assert(encode_utf8(owned@) == raw@);
                assert(compound_payloads(fields@, fields@.len() as int) == compound_payloads(
                    pre,
                    pre.len() as int,
                ) + seq![tag_of(val)] + be16(encode_utf8(owned@).len() as u16) + encode_utf8(
                    owned@,
                ) + payload_bytes(val));
                assert(bytes@.subrange(pos as int, cur as int) + seq![t] =~= bytes@.subrange(
                    pos as int,
                    p1 as int,
                ));
                assert(bytes@.subrange(pos as int, p1 as int) + bytes@.subrange(
                    p1 as int,
                    p2 as int,
                ) =~= bytes@.subrange(pos as int, p2 as int));
                assert(bytes@.subrange(pos as int, p2 as int) + raw@ =~= bytes@.subrange(
                    pos as int,
                    p3 as int,
                ));
                assert(bytes@.subrange(pos as int, p3 as int) + bytes@.subrange(
                    p3 as int,
                    nxt as int,
                ) =~= bytes@.subrange(pos as int, nxt as int));
                assert(compound_payloads(fields@, fields@.len() as int) =~= bytes@.subrange(
                    pos as int,
                    nxt as int,
                ));
            }
            cur = nxt;
        }
    } else if tag == 11 {
        let (n, mid) = match read_be32(bytes, pos) {
            Ok(p) => p,
            Err(e) => {
                return Err(e);
            },
        };
        if (n as i32) < 0 {
            return Err(SchematicError::InvalidFormat(InvalidReason::NegativeLength));
        }
        let count = n as usize;
        let mut a: Vec<i32> = Vec::new();
        let mut cur: usize = mid;
        let mut k: usize = 0;
        proof {
            assert(i32s_bytes(a@, 0) =~= bytes@.subrange(mid as int, cur as int));
        }
        while k < count
            invariant
                pos < mid <= cur <= bytes@.len(),
                k <= count,
                a@.len() == k,
                i32s_bytes(a@, k as int) == bytes@.subrange(mid as int, cur as int),
            decreases count - k,
        {
            let (e32, nxt) = match read_be32(bytes, cur) {
                Ok(p) => p,
                Err(e) => {
                    return Err(e);
                },
            };
            let ghost pre = a@;
            a.push(e32 as i32);
            proof {
                assert((e32 as i32) as u32 == e32) by (bit_vector);
                assert(i32s_bytes(a@, k as int) == i32s_bytes(pre, k as int)) by {
                    lemma_i32s_prefix(pre, a@, k as int);
                }
                assert(bytes@.subrange(mid as int, cur as int) + bytes@.subrange(
                    cur as int,
                    nxt as int,
                ) =~= bytes@.subrange(mid as int, nxt as int));
            }
            cur = nxt;
            k = k + 1;
        }
        let v = NbtValue::IntArray(a);
        proof {
            assert(n < 0x8000_0000u32) by (bit_vector)
                requires
                    !((n as i32) < 0),
            ;
            assert(payload_bytes(v) =~= bytes@.subrange(pos as int, cur as int));
        }
        Ok((v, cur))
    } else if tag == 12 {
        let (n, mid) = match read_be32(bytes, pos) {
            Ok(p) => p,
            Err(e) => {
                return Err(e);
            },
        };
        if (n as i32) < 0 {
            return Err(SchematicError::InvalidFormat(InvalidReason::NegativeLength));
        }
        let count = n as usize;
        let mut a: Vec<i64> = Vec::new();
        let mut cur: usize = mid;
        let mut k: usize = 0;
        proof {
            assert(i64s_bytes(a@, 0) =~= bytes@.subrange(mid as int, cur as int));
        }
        while k < count
            invariant
                pos < mid <= cur <= bytes@.len(),
                k <= count,
                a@.len() == k,
                i64s_bytes(a@, k as int) == bytes@.subrange(mid as int, cur as int),
            decreases count - k,
        {
            let (e64, nxt) = match read_be64(bytes, cur) {
                Ok(p) => p,
                Err(e) => {
                    return Err(e);
                },
            };
            let ghost pre = a@;
            a.push(e64 as i64);
            proof {
                assert((e64 as i64) as u64 == e64) by (bit_vector);
                assert(i64s_bytes(a@, k as int) == i64s_bytes(pre, k as int)) by {
                    lemma_i64s_prefix(pre, a@, k as int);
                }
                assert(bytes@.subrange(mid as int, cur as int) + bytes@.subrange(
                    cur as int,
                    nxt as int,
                ) =~= bytes@.subrange(mid as int, nxt as int));
            }
            cur = nxt;
            k = k + 1;
        }
        let v = NbtValue::LongArray(a);
        proof {
            assert(n < 0x8000_0000u32) by (bit_vector)
                requires
                    !((n as i32) < 0),
            ;
            assert(payload_bytes(v) =~= bytes@.subrange(pos as int, cur as int));
        }
        Ok((v, cur))
    } else {
        Err(SchematicError::InvalidFormat(InvalidReason::UnknownTag))
    }
}

/// Prefix bytes of an integer array are stable under push.
proof fn lemma_i32s_prefix(pre: Seq<i32>, post: Seq<i32>, j: int)
    requires
        0 <= j <= pre.len(),
        post.len() == pre.len() + 1,
        forall|m: int| 0 <= m < pre.len() ==> post[m] == pre[m],
    ensures
        i32s_bytes(post, j) == i32s_bytes(pre, j),
    decreases j,
{
    if j > 0 {
        lemma_i32s_prefix(pre, post, j - 1);
    }
}

/// Prefix bytes of a long array are stable under push.
proof fn lemma_i64s_prefix(pre: Seq<i64>, post: Seq<i64>, j: int)
    requires
        0 <= j <= pre.len(),
        post.len() == pre.len() + 1,
        forall|m: int| 0 <= m < pre.len() ==> post[m] == pre[m],
    ensures
        i64s_bytes(post, j) == i64s_bytes(pre, j),
    decreases j,
{
    if j > 0 {
        lemma_i64s_prefix(pre, post, j - 1);
    }
}

/// Decodes a whole document: the root's tag, an empty root name, then
/// the root payload, with nothing following. What is accepted re-encodes
/// to exactly the input, and a rejection carries a structural reason of
/// the decoder's own.
pub fn parse_document(bytes: &[u8]) -> (r: Result<NbtValue, SchematicError>)
    requires
        bytes@.len() <= 0x7fff_ffff,
    ensures
        r matches Ok(v) ==> doc_bytes(v) == bytes@ && doc_wf(v),
        r matches Err(e) ==> (payload_error(e) || e == SchematicError::InvalidFormat(
            InvalidReason::RootNameNotEmpty,
        ) || e == SchematicError::InvalidFormat(InvalidReason::TrailingBytes)),
{
    let (tag, p1) = match read_u8(bytes, 0) {
        Ok(p) => p,
        Err(e) => {
            return Err(e);
        },
    };
    let (nl, p2) = match read_be16(bytes, p1) {
        Ok(p) => p,
        Err(e) => {
            return Err(e);
        },
    };
    if nl != 0 {
        return Err(SchematicError::InvalidFormat(InvalidReason::RootNameNotEmpty));
    }
    let (v, end) = match parse_payload(bytes, p2, tag) {
        Ok(p) => p,
        Err(e) => {
            return Err(e);
        },
    };
    if end != bytes.len() {
        return Err(SchematicError::InvalidFormat(InvalidReason::TrailingBytes));
    }
    proof {
        assert(doc_bytes(v) =~= bytes@);
    }
    Ok(v)
}

} // verus!
