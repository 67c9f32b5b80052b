//! Block identity and the spatial block collection.
//!
//! A block description is a namespaced name plus string properties; the
//! property keys are kept strictly sorted so that two logically equal
//! descriptions have identical representations and serialize identically.

use std::sync::Arc;
use vstd::prelude::*;

use crate::strcmp::{lemma_lex_trichotomy, lemma_str_key_lt_strict, lemma_str_key_lt_trans};
use crate::strcmp::{str_cmp, str_key_lt, KeyOrder};
use vstd::utf8::{encode_utf8, encode_utf8_decode_utf8};

verus! {

/// Relies on std's `Arc::clone`: the clone is a handle to the same value.
#[verifier::external_body]
pub fn share_block(v: &Arc<BlockData>) -> (res: Arc<BlockData>)
    ensures
        res == *v,
{
    Arc::clone(v)
}

/// A position in the structure's grid, totally ordered by field order.
#[derive(Clone, Copy, Debug, PartialEq, Eq, Structural)]
pub struct BlockPos {
    pub x: i32,
    pub y: i32,
    pub z: i32,
}

/// An immutable namespaced block name such as `minecraft:stone`.
#[derive(Debug)]
pub struct BlockId {
    pub name: String,
}

/// One distinct block description: a name plus its string properties,
/// stored in strictly increasing key order.
#[derive(Debug)]
pub struct BlockData {
    pub id: BlockId,
    pub properties: Vec<(String, String)>,
}

/// The mathematical content of a `BlockData`: the name's characters and
/// the ordered property pairs.
#[verifier::ext_equal]
pub struct BlockDataV {
    pub id: Seq<char>,
    pub properties: Seq<(Seq<char>, Seq<char>)>,
}

/// The views of a sequence of owned property pairs.
pub open spec fn prop_views(s: Seq<(String, String)>) -> Seq<(Seq<char>, Seq<char>)> {
    Seq::new(s.len(), |i: int| (s[i].0@, s[i].1@))
}

impl View for BlockData {
    type V = BlockDataV;

    open spec fn view(&self) -> BlockDataV {
        BlockDataV { id: self.id.name@, properties: prop_views(self.properties@) }
    }
}

/// Keys strictly increase: each key occurs once and iteration is in
/// lexicographic key order.
pub open spec fn props_sorted(p: Seq<(Seq<char>, Seq<char>)>) -> bool {
    forall|i: int, j: int| 0 <= i < j < p.len() ==> str_key_lt(p[i].0, p[j].0)
}

impl BlockData {
    /// A block description is well formed when its property keys are
    /// strictly sorted.
    pub open spec fn wf(&self) -> bool {
        props_sorted(self@.properties)
    }
}

/// Some slot of `s` carries the key `k`.
pub open spec fn has_key(s: Seq<(Seq<char>, Seq<char>)>, k: Seq<char>) -> bool {
    exists|m: int| 0 <= m < s.len() && s[m].0 == k
}

/// Where a key/value pair lands in a sorted property sequence: before the
/// first larger key, replacing an equal key.
pub open spec fn spec_props_insert(
    s: Seq<(Seq<char>, Seq<char>)>,
    k: Seq<char>,
    v: Seq<char>,
) -> Seq<(Seq<char>, Seq<char>)>
    decreases s.len(),
{
    if s.len() == 0 {
        seq![(k, v)]
    } else if str_key_lt(k, s[0].0) {
        seq![(k, v)] + s
    } else if k == s[0].0 {
        seq![(k, v)] + s.drop_first()
    } else {
        seq![s[0]] + spec_props_insert(s.drop_first(), k, v)
    }
}

/// Keys are comparable: two keys are equal or one is strictly smaller.
pub proof fn lemma_str_key_connex(a: Seq<char>, b: Seq<char>)
    ensures
        a == b || str_key_lt(a, b) || str_key_lt(b, a),
{
    if !str_key_lt(a, b) && !str_key_lt(b, a) {
        lemma_lex_trichotomy(encode_utf8(a), encode_utf8(b));
        encode_utf8_decode_utf8(a);
        encode_utf8_decode_utf8(b);
        assert(encode_utf8(a) == encode_utf8(b));
    }
}

/// Every key of an inserted sequence is the new key or one of the old keys.
proof fn lemma_props_insert_keys(s: Seq<(Seq<char>, Seq<char>)>, k: Seq<char>, v: Seq<char>)
    ensures
        forall|j: int|
            0 <= j < spec_props_insert(s, k, v).len() ==> (#[trigger] spec_props_insert(
                s,
                k,
                v,
            )[j]).0 == k || has_key(s, spec_props_insert(s, k, v)[j].0),
    decreases s.len(),
{
    let r = spec_props_insert(s, k, v);
    if s.len() == 0 {
    } else if str_key_lt(k, s[0].0) {
        assert forall|j: int| 0 <= j < r.len() implies (#[trigger] r[j]).0 == k || has_key(
            s,
            r[j].0,
        ) by {
            if j > 0 {
                assert(r[j] == s[j - 1]);
            }
        }
    } else if k == s[0].0 {
        assert forall|j: int| 0 <= j < r.len() implies (#[trigger] r[j]).0 == k || has_key(
            s,
            r[j].0,
        ) by {
            if j > 0 {
                assert(r[j] == s[j]);
            }
        }
    } else {
        lemma_props_insert_keys(s.drop_first(), k, v);
        let d = s.drop_first();
        let rd = spec_props_insert(d, k, v);
        assert forall|j: int| 0 <= j < r.len() implies (#[trigger] r[j]).0 == k || has_key(
            s,
            r[j].0,
        ) by {
            if j > 0 {
                assert(r[j] == rd[j - 1]);
                if rd[j - 1].0 != k {
                    let m = choose|m: int| 0 <= m < d.len() && d[m].0 == rd[j - 1].0;
                    assert(s[m + 1].0 == r[j].0);
                }
            }
        }
    }
}

/// Inserting into a sorted property sequence keeps it sorted.
pub proof fn lemma_props_insert_sorted(s: Seq<(Seq<char>, Seq<char>)>, k: Seq<char>, v: Seq<char>)
    requires
        props_sorted(s),
    ensures
        props_sorted(spec_props_insert(s, k, v)),
    decreases s.len(),
{
    let r = spec_props_insert(s, k, v);
    if s.len() == 0 {
    } else if str_key_lt(k, s[0].0) {
        assert forall|i: int, j: int| 0 <= i < j < r.len() implies str_key_lt(r[i].0, r[j].0) by {
            if i == 0 && j > 1 {
                assert(r[j] == s[j - 1]);
                lemma_str_key_lt_trans(k, s[0].0, s[j - 1].0);
            } else if i > 0 {
                assert(r[i] == s[i - 1] && r[j] == s[j - 1]);
            }
        }
    } else if k == s[0].0 {
        assert forall|i: int, j: int| 0 <= i < j < r.len() implies str_key_lt(r[i].0, r[j].0) by {
            if i == 0 {
                assert(r[j] == s[j]);
                assert(str_key_lt(s[0].0, s[j].0));
            } else {
                assert(r[i] == s[i] && r[j] == s[j]);
            }
        }
    } else {
        lemma_str_key_connex(k, s[0].0);
        assert(str_key_lt(s[0].0, k));
        lemma_props_insert_sorted(s.drop_first(), k, v);
        lemma_props_insert_keys(s.drop_first(), k, v);
        let d = s.drop_first();
        let rd = spec_props_insert(d, k, v);
        assert forall|i: int, j: int| 0 <= i < j < r.len() implies str_key_lt(r[i].0, r[j].0) by {
            if i == 0 {
                assert(r[j] == rd[j - 1]);
                if rd[j - 1].0 == k {
                    assert(str_key_lt(s[0].0, k));
                } else {
                    assert(has_key(d, rd[j - 1].0));
                    let m = choose|m: int| 0 <= m < d.len() && d[m].0 == rd[j - 1].0;
                    assert(str_key_lt(s[0].0, s[m + 1].0));
                }
            } else {
                assert(r[i] == rd[i - 1] && r[j] == rd[j - 1]);
            }
        }
    }
}

/// Unrolls `spec_props_insert` to the position where a sorted scan stops.
proof fn lemma_props_insert_at(s: Seq<(Seq<char>, Seq<char>)>, k: Seq<char>, v: Seq<char>, i: int)
    requires
        props_sorted(s),
        0 <= i <= s.len(),
        forall|j: int| 0 <= j < i ==> str_key_lt(s[j].0, k),
        i < s.len() ==> !str_key_lt(s[i].0, k),
    ensures
        i == s.len() ==> spec_props_insert(s, k, v) =~= s.push((k, v)),
        i < s.len() && k == s[i].0 ==> spec_props_insert(s, k, v) =~= s.update(i, (k, v)),
        i < s.len() && k != s[i].0 ==> spec_props_insert(s, k, v) =~= s.insert(i, (k, v)),
    decreases s.len(),
{
    if s.len() == 0 {
    } else if i == 0 {
        if !str_key_lt(s[0].0, k) && k != s[0].0 {
            lemma_str_key_connex(k, s[0].0);
            assert(str_key_lt(k, s[0].0));
            assert(seq![(k, v)] + s =~= s.insert(0, (k, v)));
        } else if k == s[0].0 {
            lemma_str_key_lt_strict(k, s[0].0);
            assert(seq![(k, v)] + s.drop_first() =~= s.update(0, (k, v)));
        }
    } else {
        assert(str_key_lt(s[0].0, k));
        lemma_str_key_lt_strict(s[0].0, k);
        lemma_props_insert_at(s.drop_first(), k, v, i - 1);
        let d = s.drop_first();
        if i == s.len() {
            assert(seq![s[0]] + d.push((k, v)) =~= s.push((k, v)));
        } else if k == s[i].0 {
            assert(d[i - 1] == s[i]);
            assert(seq![s[0]] + d.update(i - 1, (k, v)) =~= s.update(i, (k, v)));
        } else {
            assert(d[i - 1] == s[i]);
            assert(seq![s[0]] + d.insert(i - 1, (k, v)) =~= s.insert(i, (k, v)));
        }
    }
}

/// Inserts a string-valued property, replacing the value of an equal key,
/// keeping keys strictly sorted.
pub fn props_insert(props: &mut Vec<(String, String)>, key: String, value: String)
    requires
        props_sorted(prop_views(old(props)@)),
    ensures
        prop_views(final(props)@) == spec_props_insert(prop_views(old(props)@), key@, value@),
        props_sorted(prop_views(final(props)@)),
{
    let ghost s = prop_views(old(props)@);
    let mut i: usize = 0;
    loop
        invariant
            props_sorted(s),
            i <= props.len(),
            props@ == old(props)@,
            s == prop_views(old(props)@),
            forall|j: int| 0 <= j < i ==> str_key_lt(s[j].0, key@),
        decreases props.len() - i,
    {
        if i == props.len() {
            proof {
                lemma_props_insert_sorted(s, key@, value@);
                lemma_props_insert_at(s, key@, value@, i as int);
            }
            props.push((key, value));
            proof {
                assert(prop_views(props@) =~= spec_props_insert(s, key@, value@));
            }
            return ;
        }
        let ord = str_cmp(key.as_str(), props[i].0.as_str());
        match ord {
            KeyOrder::Less => {
                proof {
                    lemma_props_insert_sorted(s, key@, value@);
                    lemma_str_key_lt_strict(key@, s[i as int].0);
                    lemma_props_insert_at(s, key@, value@, i as int);
                }
                props.insert(i, (key, value));
                proof {
                    assert(prop_views(props@) =~= spec_props_insert(s, key@, value@));
                }
                return ;
            },
            KeyOrder::Equal => {
                proof {
                    lemma_props_insert_sorted(s, key@, value@);
                    lemma_str_key_lt_strict(s[i as int].0, key@);
                    lemma_props_insert_at(s, key@, value@, i as int);
                }
                props.set(i, (key, value));
                proof {
                    assert(prop_views(props@) =~= spec_props_insert(s, key@, value@));
                }
                return ;
            },
            KeyOrder::Greater => {
                i = i + 1;
            },
        }
    }
}

/// Structural equality of two block descriptions, by content.
pub fn block_data_eq(a: &BlockData, b: &BlockData) -> (r: bool)
    ensures
        r == (a@ == b@),
{
    if !(a.id.name == b.id.name) {
        return false;
    }
    if a.properties.len() != b.properties.len() {
        proof {
            assert(prop_views(a.properties@).len() != prop_views(b.properties@).len());
        }
        return false;
    }
    let n = a.properties.len();
    let mut i: usize = 0;
    while i < n
        invariant
            n == a.properties.len(),
            n == b.properties.len(),
            a@.id == b@.id,
            i <= n,
            forall|j: int| 0 <= j < i ==> prop_views(a.properties@)[j] == prop_views(
                b.properties@,
            )[j],
        decreases n - i,
    {
        if !(a.properties[i].0 == b.properties[i].0) {
            proof {
                assert(a@.properties[i as int] != b@.properties[i as int]);
            }
            return false;
        }
        if !(a.properties[i].1 == b.properties[i].1) {
            proof {
                assert(a@.properties[i as int] != b@.properties[i as int]);
            }
            return false;
        }
        i = i + 1;
    }
    proof {
        assert(a@.properties =~= b@.properties);
        assert(a@ =~~= b@);
    }
    true
}

/// One occupied cell: a position and a shared block description.
#[derive(Debug)]
pub struct BlockStatePos {
    pub pos: BlockPos,
    pub block: Arc<BlockData>,
}

impl BlockStatePos {
    /// Pairs a position with a shared block description.
    pub fn new(pos: BlockPos, block: Arc<BlockData>) -> (r: BlockStatePos)
        ensures
            r.pos == pos,
            r.block == block,
    {
        BlockStatePos { pos, block }
    }
}

/// The ordered collection of every non-default block of a structure,
/// insertion order preserved, with bulk prepend for border padding.
#[derive(Debug)]
pub struct BlockStatePosList {
    pub elements: Vec<BlockStatePos>,
}

impl Default for BlockStatePosList {
    /// An empty collection.
    fn default() -> (r: Self)
        ensures
            r.elements@.len() == 0,
    {
        BlockStatePosList { elements: Vec::new() }
    }
}

impl BlockStatePosList {
    /// Appends one resolved (position, block) pair.
    pub fn add(&mut self, pos: BlockPos, block: Arc<BlockData>)
        ensures
            final(self).elements@ == old(self).elements@.push((BlockStatePos { pos, block })),
    {
        self.elements.push(BlockStatePos { pos, block });
    }

    /// Inserts a batch of entries at the front; existing entries keep
    /// their order after the batch.
    pub fn bulk_prepend(&mut self, front: Vec<BlockStatePos>)
        ensures
            final(self).elements@ == front@ + old(self).elements@,
    {
        let mut f = front;
        f.append(&mut self.elements);
        self.elements = f;
    }

    /// The number of entries.
    pub fn len(&self) -> (r: usize)
        ensures
            r == self.elements@.len(),
    {
        self.elements.len()
    }
}

} // verus!
