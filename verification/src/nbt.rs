//! A format-agnostic tagged document tree.
//!
//! This is the in-memory shape of an NBT document: nested named compounds,
//! homogeneous lists, integers, strings and fixed-width integer arrays.
//! Compounds keep their fields in order, so a document has exactly one
//! representation and re-encoding is reproducible. Floating-point payloads
//! are carried through untouched as their raw bit patterns.

use vstd::prelude::*;

use crate::strcmp::{str_cmp, KeyOrder};

verus! {

/// One tagged value of a document tree.
#[derive(Debug)]
pub enum NbtValue {
    /// A signed 8-bit integer.
    Byte(i8),
    /// A signed 16-bit integer.
    Short(i16),
    /// A signed 32-bit integer.
    Int(i32),
    /// A signed 64-bit integer.
    Long(i64),
    /// A 32-bit floating-point payload, kept as its raw bits.
    Float(u32),
    /// A 64-bit floating-point payload, kept as its raw bits.
    Double(u64),
    /// A packed array of signed 8-bit integers.
    ByteArray(Vec<i8>),
    /// A UTF-8 string.
    Text(String),
    /// A homogeneous, ordered list of values.
    List(Vec<NbtValue>),
    /// An ordered sequence of named fields.
    Compound(Vec<(String, NbtValue)>),
    /// A packed array of signed 32-bit integers.
    IntArray(Vec<i32>),
    /// A packed array of signed 64-bit integers.
    LongArray(Vec<i64>),
}

/// The first field of `fields` named `key`, if any.
pub open spec fn spec_compound_get(fields: Seq<(String, NbtValue)>, key: Seq<char>) -> Option<
    NbtValue,
>
    decreases fields.len(),
{
    if fields.len() == 0 {
        None
    } else if fields[0].0@ == key {
        Some(fields[0].1)
    } else {
        spec_compound_get(fields.drop_first(), key)
    }
}

/// Skipping fields whose names all differ from `key` does not change the
/// result of a lookup.
proof fn lemma_compound_get_skip(fields: Seq<(String, NbtValue)>, key: Seq<char>, i: int)
    requires
        0 <= i <= fields.len(),
        forall|j: int| 0 <= j < i ==> fields[j].0@ != key,
    ensures
        spec_compound_get(fields, key) == spec_compound_get(fields.skip(i), key),
    decreases i,
{
    if i > 0 {
        assert(fields.drop_first().skip(i - 1) =~= fields.skip(i));
        lemma_compound_get_skip(fields.drop_first(), key, i - 1);
    } else {
        assert(fields.skip(0) =~= fields);
    }
}

/// Looks a field up by name; the first field with that name wins.
pub fn compound_get<'a>(fields: &'a Vec<(String, NbtValue)>, key: &str) -> (r: Option<
    &'a NbtValue,
>)
    ensures
        match r {
            Some(v) => spec_compound_get(fields@, key@) == Some(*v),
            None => spec_compound_get(fields@, key@) is None,
        },
{
    let n = fields.len();
    let mut i: usize = 0;
    while i < n
        invariant
            n == fields.len(),
            i <= n,
            forall|j: int| 0 <= j < i ==> fields@[j].0@ != key@,
        decreases n - i,
    {
        let ord = str_cmp(fields[i].0.as_str(), key);
        match ord {
            KeyOrder::Equal => {
                proof {
                    lemma_compound_get_skip(fields@, key@, i as int);
                    assert(fields@.skip(i as int)[0] == fields@[i as int]);
                }
                return Some(&fields[i].1);
            },
            _ => {
                i = i + 1;
            },
        }
    }
    proof {
        lemma_compound_get_skip(fields@, key@, i as int);
        assert(fields@.skip(i as int).len() == 0);
    }
    None
}

} // verus!
