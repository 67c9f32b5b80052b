//! Export to the dense-grid region format.
//!
//! The exporter pads the structure with a one-block horizontal air margin,
//! builds a first-seen palette of distinct block descriptions, flattens
//! the blocks into a dense grid of palette indices, and packs the grid
//! into the variable-bit-width long array.

use std::sync::Arc;
use vstd::arithmetic::div_mod::lemma_fundamental_div_mod_converse;
use vstd::prelude::*;

use crate::block::{block_data_eq, share_block, BlockData, BlockDataV, BlockId, BlockPos, BlockStatePos};
use crate::pack::{bits_for, bits_per_entry, encode_packed, extract_entry, mask64};
use crate::schematic::{SchematicData, SchematicSize};
use crate::nbt::NbtValue;

verus! {

/// The description of plain air: the default filler block.
pub open spec fn air_view() -> BlockDataV {
    BlockDataV { id: "minecraft:air"@, properties: Seq::empty() }
}

/// Builds a shared air block description.
pub fn make_air() -> (r: Arc<BlockData>)
    ensures
        r@ == air_view(),
        (*r).wf(),
{
    let b = BlockData {
        id: BlockId { name: "minecraft:air".to_owned() },
        properties: Vec::new(),
    };
    proof {
        assert(b@.properties =~= Seq::<(Seq<char>, Seq<char>)>::empty());
        assert(b@ =~~= air_view());
    }
    Arc::new(b)
}

/// The component-wise minimum of two positions.
pub open spec fn combine_min(a: BlockPos, b: BlockPos) -> BlockPos {
    BlockPos {
        x: if a.x < b.x { a.x } else { b.x },
        y: if a.y < b.y { a.y } else { b.y },
        z: if a.z < b.z { a.z } else { b.z },
    }
}

/// The component-wise minimum corner over every occupied position, folded
/// from the identity corner.
pub open spec fn min_corner(blocks: Seq<BlockStatePos>) -> BlockPos
    decreases blocks.len(),
{
    if blocks.len() == 0 {
        BlockPos { x: i32::MAX, y: i32::MAX, z: i32::MAX }
    } else {
        combine_min(blocks[0].pos, min_corner(blocks.drop_first()))
    }
}

/// The minimum-corner reduction splits over concatenation: partial
/// results over disjoint sub-ranges combine to the whole, so worker
/// count and scheduling order cannot affect the reduction's result.
pub proof fn lemma_min_corner_concat(a: Seq<BlockStatePos>, b: Seq<BlockStatePos>)
    ensures
        min_corner(a + b) == combine_min(min_corner(a), min_corner(b)),
    decreases a.len(),
{
    if a.len() == 0 {
        assert(a + b =~= b);
    } else {
        assert((a + b).drop_first() =~= a.drop_first() + b);
        lemma_min_corner_concat(a.drop_first(), b);
    }
}

/// Computes the minimum corner of a non-empty block collection.
pub fn compute_min_corner(blocks: &Vec<BlockStatePos>) -> (r: BlockPos)
    ensures
        r == min_corner(blocks@),
{
    let mut acc = BlockPos { x: i32::MAX, y: i32::MAX, z: i32::MAX };
    let mut i: usize = blocks.len();
    while i > 0
        invariant
            i <= blocks@.len(),
            acc == min_corner(blocks@.skip(i as int)),
        decreases i,
    {
        i = i - 1;
        let p = blocks[i].pos;
        let nx = if p.x < acc.x { p.x } else { acc.x };
        let ny = if p.y < acc.y { p.y } else { acc.y };
        let nz = if p.z < acc.z { p.z } else { acc.z };
        acc = BlockPos { x: nx, y: ny, z: nz };
        proof {
            assert(blocks@.skip(i as int).drop_first() =~= blocks@.skip(i as int + 1));
        }
    }
    proof {
        assert(blocks@.skip(0) =~= blocks@);
    }
    acc
}

/// One unit down, held at the representable minimum.
pub open spec fn sat_sub_one(v: i32) -> i32 {
    if v == i32::MIN {
        v
    } else {
        (v - 1) as i32
    }
}

/// The views of the blocks referenced by a collection, in order.
pub open spec fn block_views(s: Seq<BlockStatePos>) -> Seq<BlockDataV> {
    Seq::new(s.len(), |i: int| s[i].block@)
}

/// The palette a single scan builds: each distinct description once, in
/// first-seen order.
pub open spec fn dedup_first_seen(s: Seq<BlockDataV>) -> Seq<BlockDataV>
    decreases s.len(),
{
    if s.len() == 0 {
        Seq::empty()
    } else {
        let rest = dedup_first_seen(s.drop_last());
        if rest.contains(s.last()) {
            rest
        } else {
            rest.push(s.last())
        }
    }
}

/// Every element of a sequence appears in its first-seen palette, and the
/// palette holds nothing else; each description appears exactly once.
pub proof fn lemma_dedup_first_seen_set(s: Seq<BlockDataV>)
    ensures
        forall|i: int| 0 <= i < s.len() ==> dedup_first_seen(s).contains(#[trigger] s[i]),
        forall|j: int|
            0 <= j < dedup_first_seen(s).len() ==> s.contains(#[trigger] dedup_first_seen(s)[j]),
        forall|j: int, k: int|
            0 <= j < k < dedup_first_seen(s).len() ==> dedup_first_seen(s)[j]
                != dedup_first_seen(s)[k],
    decreases s.len(),
{
    if s.len() > 0 {
        lemma_dedup_first_seen_set(s.drop_last());
        let d = dedup_first_seen(s);
        let rest = dedup_first_seen(s.drop_last());
        assert forall|i: int| 0 <= i < s.len() implies d.contains(#[trigger] s[i]) by {
            if i < s.len() - 1 {
                assert(s.drop_last()[i] == s[i]);
                assert(rest.contains(s[i]));
                let j = choose|j: int| 0 <= j < rest.len() && rest[j] == s[i];
                assert(d[j] == s[i]);
            } else {
                if rest.contains(s.last()) {
                } else {
                    assert(d[d.len() - 1] == s.last());
                }
            }
        }
        assert forall|j: int| 0 <= j < d.len() implies s.contains(#[trigger] d[j]) by {
            if j < rest.len() {
                assert(rest[j] == d[j]);
                assert(s.drop_last().contains(d[j]));
                let i = choose|i: int| 0 <= i < s.drop_last().len() && s.drop_last()[i] == d[j];
                assert(s[i] == d[j]);
            } else {
                assert(d[j] == s.last());
                assert(s[s.len() - 1] == s.last());
            }
        }
        assert forall|j: int, k: int| 0 <= j < k < d.len() implies d[j] != d[k] by {
            if k < rest.len() {
            } else if j < rest.len() && k == rest.len() {
                assert(d[k] == s.last());
                assert(!rest.contains(s.last()));
                assert(rest[j] == d[j]);
                if d[j] == d[k] {
                    assert(rest.contains(s.last()));
                }
            }
        }
    }
}

/// The slot of `v` in the palette: its first occurrence, or the palette
/// length when it is absent.
pub open spec fn first_index(pal: Seq<BlockDataV>, v: BlockDataV) -> int
    decreases pal.len(),
{
    if pal.len() == 0 {
        0
    } else if pal[0] == v {
        0
    } else {
        1 + first_index(pal.drop_first(), v)
    }
}

/// The palette index written into the grid for a description: its first
/// palette slot, or the default slot 0 when it is absent.
pub open spec fn state_of(pal: Seq<BlockDataV>, v: BlockDataV) -> int {
    if pal.contains(v) {
        first_index(pal, v)
    } else {
        0
    }
}

/// A first occurrence is an occurrence, at or before every other one.
pub proof fn lemma_first_index(pal: Seq<BlockDataV>, v: BlockDataV)
    requires
        pal.contains(v),
    ensures
        0 <= first_index(pal, v) < pal.len(),
        pal[first_index(pal, v)] == v,
        forall|j: int| 0 <= j < first_index(pal, v) ==> pal[j] != v,
    decreases pal.len(),
{
    if pal.len() > 0 && pal[0] != v {
        let i = choose|i: int| 0 <= i < pal.len() && pal[i] == v;
        assert(pal.drop_first()[i - 1] == v);
        assert(pal.drop_first().contains(v));
        lemma_first_index(pal.drop_first(), v);
        assert forall|j: int| 0 <= j < first_index(pal, v) implies pal[j] != v by {
            if j > 0 {
                assert(pal.drop_first()[j - 1] == pal[j]);
            }
        }
    }
}


/// The two x-wall cells of a layer for each z step, in z order.
pub open spec fn zwall_cells(y: i32, x0: i32, x1: i32, z0: i32, cnt: nat) -> Seq<BlockPos>
    decreases cnt,
{
    if cnt == 0 {
        Seq::empty()
    } else {
        zwall_cells(y, x0, x1, z0, (cnt - 1) as nat).push(
            BlockPos { x: x0, y, z: (z0 + cnt - 1) as i32 },
        ).push(BlockPos { x: x1, y, z: (z0 + cnt - 1) as i32 })
    }
}

/// The two z-wall cells of a layer for each interior x step, in x order.
pub open spec fn xwall_cells(y: i32, z0: i32, z1: i32, xs: i32, cnt: nat) -> Seq<BlockPos>
    decreases cnt,
{
    if cnt == 0 {
        Seq::empty()
    } else {
        xwall_cells(y, z0, z1, xs, (cnt - 1) as nat).push(
            BlockPos { x: (xs + cnt - 1) as i32, y, z: z0 },
        ).push(BlockPos { x: (xs + cnt - 1) as i32, y, z: z1 })
    }
}

/// Every perimeter cell of one y layer of the box `[x0, x1] x [z0, z1]`:
/// the two x walls, then the two z walls without their corner cells.
pub open spec fn ring_cells(y: i32, x0: i32, x1: i32, z0: i32, z1: i32) -> Seq<BlockPos> {
    zwall_cells(y, x0, x1, z0, (z1 - z0 + 1) as nat) + xwall_cells(
        y,
        z0,
        z1,
        (x0 + 1) as i32,
        (x1 - x0 - 1) as nat,
    )
}

/// The whole padding shell: each layer's ring, in layer order.
pub open spec fn shell_cells(start: BlockPos, end: BlockPos, layers: nat) -> Seq<BlockPos>
    decreases layers,
{
    if layers == 0 {
        Seq::empty()
    } else {
        shell_cells(start, end, (layers - 1) as nat) + ring_cells(
            (start.y + layers - 1) as i32,
            start.x,
            end.x,
            start.z,
            end.z,
        )
    }
}

/// A cell lies on the horizontal perimeter of the box, at some layer.
pub open spec fn on_perimeter(p: BlockPos, start: BlockPos, end: BlockPos) -> bool {
    &&& start.y <= p.y < end.y
    &&& start.x <= p.x <= end.x
    &&& start.z <= p.z <= end.z
    &&& (p.x == start.x || p.x == end.x || p.z == start.z || p.z == end.z)
}

/// Every generated shell cell lies on the box perimeter.
pub proof fn lemma_shell_cells_on_perimeter(start: BlockPos, end: BlockPos, layers: nat)
    requires
        start.x < end.x,
        start.z < end.z,
        start.y + layers <= end.y,
        start.y + layers <= i32::MAX + 1,
    ensures
        forall|k: int|
            0 <= k < shell_cells(start, end, layers).len() ==> on_perimeter(
                #[trigger] shell_cells(start, end, layers)[k],
                start,
                end,
            ),
    decreases layers,
{
    if layers > 0 {
        lemma_shell_cells_on_perimeter(start, end, (layers - 1) as nat);
        let y = (start.y + layers - 1) as i32;
        lemma_zwall_cells(y, start.x, end.x, start.z, (end.z - start.z + 1) as nat);
        lemma_xwall_cells(y, start.z, end.z, (start.x + 1) as i32, (end.x - start.x - 1) as nat);
        let prev = shell_cells(start, end, (layers - 1) as nat);
        let ring = ring_cells(y, start.x, end.x, start.z, end.z);
        assert forall|k: int| 0 <= k < shell_cells(start, end, layers).len() implies on_perimeter(
            #[trigger] shell_cells(start, end, layers)[k],
            start,
            end,
        ) by {
            if k < prev.len() {
                assert(shell_cells(start, end, layers)[k] == prev[k]);
            } else {
                assert(shell_cells(start, end, layers)[k] == ring[k - prev.len()]);
            }
        }
    }
}

/// Positions of an x-wall run: fixed x at either wall, z within the run.
proof fn lemma_zwall_cells(y: i32, x0: i32, x1: i32, z0: i32, cnt: nat)
    requires
        z0 + cnt <= i32::MAX + 1,
    ensures
        zwall_cells(y, x0, x1, z0, cnt).len() == 2 * cnt,
        forall|k: int|
            0 <= k < 2 * cnt ==> {
                let c = #[trigger] zwall_cells(y, x0, x1, z0, cnt)[k];
                c.y == y && (c.x == x0 || c.x == x1) && z0 <= c.z < z0 + cnt
            },
    decreases cnt,
{
    if cnt > 0 {
        lemma_zwall_cells(y, x0, x1, z0, (cnt - 1) as nat);
    }
}

/// Positions of a z-wall run: fixed z at either wall, x within the run.
proof fn lemma_xwall_cells(y: i32, z0: i32, z1: i32, xs: i32, cnt: nat)
    requires
        xs + cnt <= i32::MAX + 1,
    ensures
        xwall_cells(y, z0, z1, xs, cnt).len() == 2 * cnt,
        forall|k: int|
            0 <= k < 2 * cnt ==> {
                let c = #[trigger] xwall_cells(y, z0, z1, xs, cnt)[k];
                c.y == y && (c.z == z0 || c.z == z1) && xs <= c.x < xs + cnt
            },
    decreases cnt,
{
    if cnt > 0 {
        lemma_xwall_cells(y, z0, z1, xs, (cnt - 1) as nat);
    }
}

/// Builds the air entries for the whole padding shell, layer-ordered.
fn build_shell(start: BlockPos, end: BlockPos, air: &Arc<BlockData>) -> (r: Vec<BlockStatePos>)
    requires
        start.x < end.x,
        start.z < end.z,
        start.y <= end.y,
        end.x - start.x < 0x1000_0000,
        end.z - start.z < 0x1000_0000,
        end.y - start.y < 0x1000_0000,
    ensures
        r@.len() == shell_cells(start, end, (end.y - start.y) as nat).len(),
        forall|k: int|
            0 <= k < r@.len() ==> (#[trigger] r@[k]).pos == shell_cells(
                start,
                end,
                (end.y - start.y) as nat,
            )[k] && r@[k].block == *air,
{
    let layers: usize = (end.y - start.y) as usize;
    let zcnt: usize = (end.z - start.z + 1) as usize;
    let xcnt: usize = (end.x - start.x - 1) as usize;
    let mut out: Vec<BlockStatePos> = Vec::new();
    let mut ly: usize = 0;
    while ly < layers
        invariant
            ly <= layers,
            layers == end.y - start.y,
            zcnt == end.z - start.z + 1,
            xcnt == end.x - start.x - 1,
            start.x < end.x,
            start.z < end.z,
            end.x - start.x < 0x1000_0000,
            end.z - start.z < 0x1000_0000,
            end.y - start.y < 0x1000_0000,
            out@.len() == shell_cells(start, end, ly as nat).len(),
            forall|k: int|
                0 <= k < out@.len() ==> (#[trigger] out@[k]).pos == shell_cells(
                    start,
                    end,
                    ly as nat,
                )[k] && out@[k].block == *air,
        decreases layers - ly,
    {
        let y: i32 = start.y + (ly as i32);
        let ghost ring_start = out@.len();
        let mut jz: usize = 0;
        while jz < zcnt
            invariant
                jz <= zcnt,
                zcnt == end.z - start.z + 1,
                start.x < end.x,
                start.z < end.z,
                end.z - start.z < 0x1000_0000,
                y == start.y + ly,
                out@.len() == ring_start + 2 * jz,
                ring_start == shell_cells(start, end, ly as nat).len(),
                forall|k: int|
                    0 <= k < ring_start ==> (#[trigger] out@[k]).pos == shell_cells(
                        start,
                        end,
                        ly as nat,
                    )[k] && out@[k].block == *air,
                forall|k: int|
                    ring_start <= k < out@.len() ==> (#[trigger] out@[k]).pos == zwall_cells(
                        y,
                        start.x,
                        end.x,
                        start.z,
                        jz as nat,
                    )[k - ring_start] && out@[k].block == *air,
            decreases zcnt - jz,
        {
            let z: i32 = start.z + (jz as i32);
            out.push(BlockStatePos { pos: BlockPos { x: start.x, y, z }, block: share_block(air) });
            out.push(BlockStatePos { pos: BlockPos { x: end.x, y, z }, block: share_block(air) });
            proof {
                let c = (jz + 1) as nat;
                lemma_zwall_len(y, start.x, end.x, start.z, jz as nat);
                assert(zwall_cells(y, start.x, end.x, start.z, c) == zwall_cells(
                    y,
                    start.x,
                    end.x,
                    start.z,
                    jz as nat,
                ).push((BlockPos { x: start.x, y, z: (start.z + c - 1) as i32 })).push(
                    (BlockPos { x: end.x, y, z: (start.z + c - 1) as i32 }),
                ));
                assert((start.z + c - 1) as i32 == z);
            }
            jz = jz + 1;
        }
        let mut jx: usize = 0;
        while jx < xcnt
            invariant
                jx <= xcnt,
                zcnt == end.z - start.z + 1,
                xcnt == end.x - start.x - 1,
                start.x < end.x,
                start.z < end.z,
                end.x - start.x < 0x1000_0000,
                y == start.y + ly,
                out@.len() == ring_start + 2 * zcnt + 2 * jx,
                ring_start == shell_cells(start, end, ly as nat).len(),
                forall|k: int|
                    0 <= k < ring_start ==> (#[trigger] out@[k]).pos == shell_cells(
                        start,
                        end,
                        ly as nat,
                    )[k] && out@[k].block == *air,
                forall|k: int|
                    ring_start <= k < ring_start + 2 * zcnt ==> (#[trigger] out@[k]).pos
                        == zwall_cells(y, start.x, end.x, start.z, zcnt as nat)[k - ring_start]
                        && out@[k].block == *air,
                forall|k: int|
                    ring_start + 2 * zcnt <= k < out@.len() ==> (#[trigger] out@[k]).pos
                        == xwall_cells(y, start.z, end.z, (start.x + 1) as i32, jx as nat)[k
                        - ring_start - 2 * zcnt] && out@[k].block == *air,
            decreases xcnt - jx,
        {
            let x: i32 = start.x + 1 + (jx as i32);
            out.push(BlockStatePos { pos: BlockPos { x, y, z: start.z }, block: share_block(air) });
            out.push(BlockStatePos { pos: BlockPos { x, y, z: end.z }, block: share_block(air) });
            proof {
                let c = (jx + 1) as nat;
                let xs = (start.x + 1) as i32;
                lemma_xwall_len(y, start.z, end.z, xs, jx as nat);
                assert(xwall_cells(y, start.z, end.z, xs, c) == xwall_cells(
                    y,
                    start.z,
                    end.z,
                    xs,
                    jx as nat,
                ).push((BlockPos { x: (xs + c - 1) as i32, y, z: start.z })).push(
                    (BlockPos { x: (xs + c - 1) as i32, y, z: end.z }),
                ));
                assert((xs + c - 1) as i32 == x);
            }
            jx = jx + 1;
        }
        proof {
            lemma_zwall_len(y, start.x, end.x, start.z, zcnt as nat);
            lemma_xwall_len(y, start.z, end.z, (start.x + 1) as i32, xcnt as nat);
            assert(shell_cells(start, end, (ly + 1) as nat) == shell_cells(start, end, ly as nat)
                + ring_cells(y, start.x, end.x, start.z, end.z));
            assert forall|k: int|
                0 <= k < out@.len() implies (#[trigger] out@[k]).pos == shell_cells(
                start,
                end,
                (ly + 1) as nat,
            )[k] && out@[k].block == *air by {
                let whole = shell_cells(start, end, (ly + 1) as nat);
                let ring = ring_cells(y, start.x, end.x, start.z, end.z);
                if k < ring_start {
                    assert(whole[k] == shell_cells(start, end, ly as nat)[k]);
                } else if k < ring_start + 2 * zcnt {
                    assert(whole[k] == ring[k - ring_start]);
                    assert(ring[k - ring_start] == zwall_cells(
                        y,
                        start.x,
                        end.x,
                        start.z,
                        zcnt as nat,
                    )[k - ring_start]);
                } else {
                    assert(whole[k] == ring[k - ring_start]);
                    assert(ring[k - ring_start] == xwall_cells(
                        y,
                        start.z,
                        end.z,
                        (start.x + 1) as i32,
                        xcnt as nat,
                    )[k - ring_start - 2 * zcnt]);
                }
            }
        }
        ly = ly + 1;
    }
    out
}

/// The total cell count of the shell: each layer contributes both walls.
pub proof fn lemma_shell_cells_len(start: BlockPos, end: BlockPos, layers: nat)
    requires
        start.x < end.x,
        start.z < end.z,
    ensures
        shell_cells(start, end, layers).len() == layers * (2 * (end.z - start.z + 1) + 2 * (end.x
            - start.x - 1)),
    decreases layers,
{
    if layers > 0 {
        lemma_shell_cells_len(start, end, (layers - 1) as nat);
        let y = (start.y + layers - 1) as i32;
        lemma_zwall_len(y, start.x, end.x, start.z, (end.z - start.z + 1) as nat);
        lemma_xwall_len(y, start.z, end.z, (start.x + 1) as i32, (end.x - start.x - 1) as nat);
        assert(shell_cells(start, end, layers) == shell_cells(start, end, (layers - 1) as nat)
            + ring_cells(y, start.x, end.x, start.z, end.z));
        assert(ring_cells(y, start.x, end.x, start.z, end.z).len() == 2 * (end.z - start.z + 1) + 2
            * (end.x - start.x - 1));
        assert(layers * (2 * (end.z - start.z + 1) + 2 * (end.x - start.x - 1)) == (layers - 1) * (
        2 * (end.z - start.z + 1) + 2 * (end.x - start.x - 1)) + (2 * (end.z - start.z + 1) + 2 * (
        end.x - start.x - 1))) by (nonlinear_arith);
        assert(shell_cells(start, end, layers).len() == layers * (2 * (end.z - start.z + 1) + 2 * (
        end.x - start.x - 1)));
    } else {
        assert(shell_cells(start, end, layers).len() == 0);
        assert(layers * (2 * (end.z - start.z + 1) + 2 * (end.x - start.x - 1)) == 0);
    }
}

/// The length of an x-wall run.
proof fn lemma_zwall_len(y: i32, x0: i32, x1: i32, z0: i32, cnt: nat)
    ensures
        zwall_cells(y, x0, x1, z0, cnt).len() == 2 * cnt,
    decreases cnt,
{
    if cnt > 0 {
        lemma_zwall_len(y, x0, x1, z0, (cnt - 1) as nat);
    }
}

/// The length of a z-wall run.
proof fn lemma_xwall_len(y: i32, z0: i32, z1: i32, xs: i32, cnt: nat)
    ensures
        xwall_cells(y, z0, z1, xs, cnt).len() == 2 * cnt,
    decreases cnt,
{
    if cnt > 0 {
        lemma_xwall_len(y, z0, z1, xs, (cnt - 1) as nat);
    }
}


/// The views of the shared descriptions of a palette, in slot order.
pub open spec fn arc_views(s: Seq<Arc<BlockData>>) -> Seq<BlockDataV> {
    Seq::new(s.len(), |i: int| s[i]@)
}

/// The lower corner of the padded box: the minimum occupied corner,
/// shifted one unit outward on x and z only.
pub open spec fn spec_start(blocks: Seq<BlockStatePos>) -> BlockPos {
    let mn = min_corner(blocks);
    BlockPos { x: sat_sub_one(mn.x), y: mn.y, z: sat_sub_one(mn.z) }
}

/// The upper corner, derived from the declared size rather than the true
/// occupied maximum: an oversized structure is under-padded.
pub open spec fn spec_end(blocks: Seq<BlockStatePos>, size: SchematicSize) -> BlockPos {
    let s = spec_start(blocks);
    BlockPos {
        x: (s.x + size.width + 1) as i32,
        y: (s.y + size.height) as i32,
        z: (s.z + size.length + 1) as i32,
    }
}

/// What a machine must be able to represent for an export to proceed:
/// a non-empty collection, coordinates whose padded box fits in 32 bits,
/// and a grid and palette small enough to address.
pub open spec fn export_bounds_ok(blocks: Seq<BlockStatePos>, size: SchematicSize) -> bool {
    let mn = min_corner(blocks);
    let s = spec_start(blocks);
    &&& blocks.len() > 0
    &&& 0 <= size.width <= 0x0400_0000
    &&& 0 <= size.height <= 0x0400_0000
    &&& 0 <= size.length <= 0x0400_0000
    &&& s.x + size.width + 1 <= i32::MAX
    &&& s.y + size.height <= i32::MAX
    &&& s.z + size.length + 1 <= i32::MAX
    &&& size.height * ((size.width + 2) * (size.length + 2)) <= 0x0400_0000
    &&& (size.width + 2) * (size.length + 2) <= 0x0400_0000
    &&& blocks.len() + size.height * (2 * (size.width + 2) + 2 * (size.length + 2))
        <= 0x7fff_ffff
}

/// Copies a block list, sharing each block description.
fn clone_blocks(src: &Vec<BlockStatePos>) -> (r: Vec<BlockStatePos>)
    ensures
        r@ == src@,
{
    let mut out: Vec<BlockStatePos> = Vec::new();
    let mut i: usize = 0;
    while i < src.len()
        invariant
            i <= src@.len(),
            out@.len() == i,
            forall|j: int| 0 <= j < i ==> out@[j] == src@[j],
        decreases src@.len() - i,
    {
        out.push(BlockStatePos { pos: src[i].pos, block: share_block(&src[i].block) });
        i = i + 1;
    }
    proof {
        assert(out@ =~= src@);
    }
    out
}

/// Finds the first palette slot holding a description, if any.
pub fn palette_lookup(pal: &Vec<Arc<BlockData>>, b: &Arc<BlockData>) -> (r: Option<usize>)
    ensures
        match r {
            Some(ix) => arc_views(pal@).contains(b@) && ix == first_index(arc_views(pal@), b@),
            None => !arc_views(pal@).contains(b@),
        },
{
    let n = pal.len();
    let mut i: usize = 0;
    while i < n
        invariant
            n == pal@.len(),
            i <= n,
            forall|j: int| 0 <= j < i ==> arc_views(pal@)[j] != b@,
        decreases n - i,
    {
        if block_data_eq(&pal[i], b) {
            proof {
                let views = arc_views(pal@);
                assert(views[i as int] == b@);
                lemma_first_index(views, b@);
                if first_index(views, b@) < i {
                    assert(views[first_index(views, b@)] == b@);
                }
            }
            return Some(i);
        }
        i = i + 1;
    }
    proof {
        if arc_views(pal@).contains(b@) {
            let j = choose|j: int| 0 <= j < pal@.len() && arc_views(pal@)[j] == b@;
            assert(arc_views(pal@)[j] != b@);
        }
    }
    None
}

/// An exporter correctly prepared from a schematic: internally
/// consistent, its box derived from the minimum occupied corner and the
/// declared size, its block list the air shell followed by the original
/// entries unchanged, its palette and bit width as the well-formedness
/// predicate demands of that list.
pub open spec fn lm_from(r: ToLmSchematic, schematic: SchematicData) -> bool {
    &&& r.wf()
    &&& r.start_pos == spec_start(schematic.blocks.elements@)
    &&& r.end_pos == spec_end(schematic.blocks.elements@, schematic.size)
    &&& r.width == schematic.size.width + 2
    &&& r.height == schematic.size.height
    &&& r.length == schematic.size.length + 2
    &&& r.blocks@.len() == shell_cells(r.start_pos, r.end_pos, r.height as nat).len()
        + schematic.blocks.elements@.len()
    &&& forall|k: int|
        0 <= k < shell_cells(r.start_pos, r.end_pos, r.height as nat).len()
            ==> (#[trigger] r.blocks@[k]).pos == shell_cells(
            r.start_pos,
            r.end_pos,
            r.height as nat,
        )[k] && r.blocks@[k].block@ == air_view()
    &&& forall|k: int|
        0 <= k < schematic.blocks.elements@.len() ==> r.blocks@[shell_cells(
            r.start_pos,
            r.end_pos,
            r.height as nat,
        ).len() + k] == schematic.blocks.elements@[k]
}

/// The exporter's working state: the padded block list, the box corners
/// and dimensions, the chosen bit width, and the first-seen palette.
#[derive(Debug)]
pub struct ToLmSchematic {
    pub blocks: Vec<BlockStatePos>,
    pub start_pos: BlockPos,
    pub end_pos: BlockPos,
    pub width: i32,
    pub height: i32,
    pub length: i32,
    pub bits: u32,
    pub unique_block_states: Vec<Arc<BlockData>>,
}

impl ToLmSchematic {
    /// The internal consistency every constructed exporter has.
    pub open spec fn wf(&self) -> bool {
        &&& self.start_pos.x < self.end_pos.x
        &&& self.start_pos.y <= self.end_pos.y
        &&& self.start_pos.z < self.end_pos.z
        &&& self.width == self.end_pos.x - self.start_pos.x + 1
        &&& self.height == self.end_pos.y - self.start_pos.y
        &&& self.length == self.end_pos.z - self.start_pos.z + 1
        &&& 2 <= self.width
        &&& 0 <= self.height
        &&& 2 <= self.length
        &&& self.height * (self.width * self.length) <= 0x0400_0000
        &&& self.width * self.length <= 0x0400_0000
        &&& arc_views(self.unique_block_states@) == dedup_first_seen(block_views(self.blocks@))
        &&& self.unique_block_states@.len() <= self.blocks@.len()
        &&& self.blocks@.len() <= 0x7fff_ffff
        &&& self.bits == bits_for(self.unique_block_states@.len() as nat)
        &&& 2 <= self.bits <= 32
    }

    /// Pads the structure with its one-block horizontal air margin and
    /// prepares the palette, dimensions and bit width for encoding.
    pub fn new(schematic: &SchematicData) -> (r: ToLmSchematic)
        requires
            export_bounds_ok(schematic.blocks.elements@, schematic.size),
        ensures
            lm_from(r, *schematic),
    {
        let list = clone_blocks(&schematic.blocks.elements);
        let mn = compute_min_corner(&list);
        let sx: i32 = if mn.x == i32::MIN {
            mn.x
        } else {
            mn.x - 1
        };
        let sz: i32 = if mn.z == i32::MIN {
            mn.z
        } else {
            mn.z - 1
        };
        let start = BlockPos { x: sx, y: mn.y, z: sz };
        let size = schematic.size;
        let end = BlockPos {
            x: start.x + size.width + 1,
            y: start.y + size.height,
            z: start.z + size.length + 1,
        };
        let air = make_air();
        let shell = build_shell(start, end, &air);
        let ghost shell_len = shell@.len();
        let mut all = shell;
        let mut tail = list;
        all.append(&mut tail);
        let width = end.x - start.x + 1;
        let height = end.y - start.y;
        let length = end.z - start.z + 1;
        let mut unique: Vec<Arc<BlockData>> = Vec::new();
        let mut i: usize = 0;
        while i < all.len()
            invariant
                i <= all@.len(),
                arc_views(unique@) == dedup_first_seen(block_views(all@.take(i as int))),
                unique@.len() <= i,
            decreases all@.len() - i,
        {
            let hit = palette_lookup(&unique, &all[i].block);
            let ghost pre = arc_views(unique@);
            proof {
                assert(block_views(all@.take(i as int + 1)).drop_last() =~= block_views(
                    all@.take(i as int),
                ));
                assert(block_views(all@.take(i as int + 1)).last() == all@[i as int].block@);
            }
            match hit {
                Some(_) => {
                    proof {
                        assert(arc_views(unique@) == dedup_first_seen(
                            block_views(all@.take(i as int + 1)),
                        ));
                    }
                },
                None => {
                    unique.push(share_block(&all[i].block));
                    proof {
                        assert(arc_views(unique@) =~= pre.push(all@[i as int].block@));
                    }
                },
            }
            i = i + 1;
        }
        proof {
            assert(all@.take(all@.len() as int) =~= all@);
            lemma_shell_cells_len(start, end, height as nat);
            let w2 = size.width + 2;
            let l2 = size.length + 2;
            let h = size.height as int;
            assert(shell_len == h * (2 * l2 + 2 * (w2 - 2)));
            assert(h * (2 * l2 + 2 * (w2 - 2)) <= h * (2 * w2 + 2 * l2)) by (nonlinear_arith)
                requires
                    h >= 0,
                    w2 >= 2,
                    l2 >= 2,
            ;
            assert(all@.len() <= 0x7fff_ffff);
        }
        let bits = bits_per_entry(unique.len());
        ToLmSchematic {
            blocks: all,
            start_pos: start,
            end_pos: end,
            width,
            height,
            length,
            bits,
            unique_block_states: unique,
        }
    }
}


/// The flattened grid slot of a position relative to the box corner.
pub open spec fn grid_cell_index(start: BlockPos, w: int, l: int, p: BlockPos) -> int {
    (p.y - start.y) * w * l + (p.z - start.z) * w + (p.x - start.x)
}

/// The dense grid after writing every block in order: each in-range slot
/// takes the palette index of the last block flattened onto it; slots no
/// block reaches keep the default index 0.
pub open spec fn spec_grid(
    start: BlockPos,
    w: int,
    l: int,
    total: nat,
    blocks: Seq<BlockStatePos>,
    pal: Seq<BlockDataV>,
) -> Seq<i32>
    decreases blocks.len(),
{
    if blocks.len() == 0 {
        Seq::new(total, |c: int| 0i32)
    } else {
        let g = spec_grid(start, w, l, total, blocks.drop_last(), pal);
        let id = grid_cell_index(start, w, l, blocks.last().pos);
        if 0 <= id < total {
            g.update(id, state_of(pal, blocks.last().block@) as i32)
        } else {
            g
        }
    }
}

/// Every grid slot holds a palette index: zero, or the slot of some
/// description the palette contains.
pub proof fn lemma_spec_grid_range(
    start: BlockPos,
    w: int,
    l: int,
    total: nat,
    blocks: Seq<BlockStatePos>,
    pal: Seq<BlockDataV>,
)
    requires
        pal.len() <= 0x7fff_ffff,
    ensures
        spec_grid(start, w, l, total, blocks, pal).len() == total,
        forall|c: int|
            0 <= c < total ==> 0 <= #[trigger] spec_grid(start, w, l, total, blocks, pal)[c]
                < if pal.len() == 0 {
                    1int
                } else {
                    pal.len() as int
                },
    decreases blocks.len(),
{
    if blocks.len() > 0 {
        lemma_spec_grid_range(start, w, l, total, blocks.drop_last(), pal);
        let v = blocks.last().block@;
        if pal.contains(v) {
            lemma_first_index(pal, v);
        }
        let g = spec_grid(start, w, l, total, blocks.drop_last(), pal);
        let bound: int = if pal.len() == 0 {
            1int
        } else {
            pal.len() as int
        };
        let id = grid_cell_index(start, w, l, blocks.last().pos);
        if 0 <= id < total {
            assert(spec_grid(start, w, l, total, blocks, pal) == g.update(
                id,
                state_of(pal, v) as i32,
            ));
            assert(0 <= state_of(pal, v) < bound);
        } else {
            assert(spec_grid(start, w, l, total, blocks, pal) == g);
        }
        assert forall|c: int|
            0 <= c < total implies 0 <= #[trigger] spec_grid(start, w, l, total, blocks, pal)[c]
            < bound by {
            assert(0 <= g[c] < bound);
        }
    }
}

impl ToLmSchematic {
    /// The number of grid cells of the padded box.
    pub open spec fn spec_total(&self) -> nat {
        (self.height * (self.width * self.length)) as nat
    }

    /// The grid this exporter flattens its blocks onto.
    pub open spec fn spec_grid_of(&self) -> Seq<i32> {
        spec_grid(
            self.start_pos,
            self.width as int,
            self.length as int,
            self.spec_total(),
            self.blocks@,
            arc_views(self.unique_block_states@),
        )
    }

    /// Flattens every block onto the dense grid of palette indices;
    /// an index outside the grid is silently dropped.
    pub fn get_block_id_list(&self) -> (r: Vec<i32>)
        requires
            self.wf(),
        ensures
            r@ == self.spec_grid_of(),
    {
        let w_us: usize = self.width as usize;
        let l_us: usize = self.length as usize;
        let h_us: usize = self.height as usize;
        let total: usize = grid_total(self.width, self.length, self.height);
        let mut grid: Vec<i32> = Vec::new();
        let mut c: usize = 0;
        while c < total
            invariant
                c <= total,
                grid@.len() == c,
                forall|j: int| 0 <= j < c ==> grid@[j] == 0i32,
            decreases total - c,
        {
            grid.push(0i32);
            c = c + 1;
        }
        proof {
            assert(grid@ =~= spec_grid(
                self.start_pos,
                self.width as int,
                self.length as int,
                self.spec_total(),
                self.blocks@.take(0),
                arc_views(self.unique_block_states@),
            ));
        }
        let n = self.blocks.len();
        let mut i: usize = 0;
        while i < n
            invariant
                self.wf(),
                i <= n,
                n == self.blocks@.len(),
                w_us == self.width,
                l_us == self.length,
                h_us == self.height,
                total == self.spec_total(),
                grid@.len() == total,
                grid@ == spec_grid(
                    self.start_pos,
                    self.width as int,
                    self.length as int,
                    self.spec_total(),
                    self.blocks@.take(i as int),
                    arc_views(self.unique_block_states@),
                ),
            decreases n - i,
        {
            let b = &self.blocks[i];
            let dx: i128 = b.pos.x as i128 - self.start_pos.x as i128;
            let dy: i128 = b.pos.y as i128 - self.start_pos.y as i128;
            let dz: i128 = b.pos.z as i128 - self.start_pos.z as i128;
            proof {
                let wv = self.width as int;
                let lv = self.length as int;
                assert(-0x8000_0000_0000_0000 <= dy * wv <= 0x8000_0000_0000_0000)
                    by (nonlinear_arith)
                    requires
                        -0x1_0000_0000 <= dy <= 0x1_0000_0000,
                        0 <= wv <= 0x8000_0000,
                ;
                assert(-0x4000_0000_0000_0000_0000_0000 <= (dy * wv) * lv
                    <= 0x4000_0000_0000_0000_0000_0000) by (nonlinear_arith)
                    requires
                        -0x8000_0000_0000_0000 <= dy * wv <= 0x8000_0000_0000_0000,
                        0 <= lv <= 0x8000_0000,
                ;
                assert(-0x8000_0000_0000_0000 <= dz * wv <= 0x8000_0000_0000_0000)
                    by (nonlinear_arith)
                    requires
                        -0x1_0000_0000 <= dz <= 0x1_0000_0000,
                        0 <= wv <= 0x8000_0000,
                ;
            }
            let id: i128 = dy * (self.width as i128) * (self.length as i128) + dz * (self.width
                as i128) + dx;
            proof {
                assert(self.blocks@.take(i as int + 1).drop_last() =~= self.blocks@.take(i as int));
                assert(self.blocks@.take(i as int + 1).last() == self.blocks@[i as int]);
            }
            if 0 <= id && id < total as i128 {
                let st: i32 = match palette_lookup(&self.unique_block_states, &b.block) {
                    Some(ix) => {
                        proof {
                            lemma_first_index(arc_views(self.unique_block_states@), b.block@);
                        }
                        ix as i32
                    },
                    None => 0i32,
                };
                grid.set(id as usize, st);
            }
            i = i + 1;
        }
        proof {
            assert(self.blocks@.take(n as int) =~= self.blocks@);
        }
        grid
    }

    /// Packs the grid of palette indices into the 64-bit word array that
    /// the region format stores, entries straddling words as needed.
    pub fn encode_block_states(&self) -> (r: Vec<u64>)
        requires
            self.wf(),
        ensures
            r@.len() == (self.spec_total() * self.bits + 63) / 64,
            forall|c: int|
                0 <= c < self.spec_total() ==> extract_entry(r@, self.bits as u64, c)
                    == self.spec_grid_of()[c] as u64,
            forall|p: int|
                self.spec_total() * self.bits <= p < r@.len() * 64 ==> !crate::pack::stream_bit(
                    r@,
                    p,
                ),
    {
        let state_ids = self.get_block_id_list();
        let n = state_ids.len();
        proof {
            lemma_spec_grid_range(
                self.start_pos,
                self.width as int,
                self.length as int,
                self.spec_total(),
                self.blocks@,
                arc_views(self.unique_block_states@),
            );
            lemma_palette_fits(self.unique_block_states@.len() as nat, self.bits as nat);
        }
        let mut ids: Vec<u64> = Vec::new();
        let mut i: usize = 0;
        while i < n
            invariant
                self.wf(),
                i <= n,
                n == state_ids@.len(),
                n == self.spec_total(),
                forall|c: int|
                    0 <= c < n ==> 0 <= #[trigger] state_ids@[c] && (state_ids@[c] as int)
                        < ((1u64 << (self.bits as u64)) as int),
                state_ids@ == self.spec_grid_of(),
                ids@.len() == i,
                forall|c: int| 0 <= c < i ==> ids@[c] == #[trigger] state_ids@[c] as u64,
            decreases n - i,
        {
            ids.push(state_ids[i] as u64);
            i = i + 1;
        }
        proof {
            vstd::arithmetic::mul::lemma_mul_inequality(
                n as int,
                0x0400_0000,
                self.bits as int,
            );
        }
        let packed = encode_packed(&ids, self.bits);
        proof {
            assert forall|c: int|
                0 <= c < self.spec_total() implies extract_entry(packed@, self.bits as u64, c)
                == self.spec_grid_of()[c] as u64 by {
                let v = ids@[c];
                let b = self.bits as u64;
                assert(v < (1u64 << b) ==> v & (((1u64 << b) as u64) - 1) as u64 == v)
                    by (bit_vector);
                assert(extract_entry(packed@, b, c) == v & mask64(b));
            }
        }
        packed
    }
}

/// A palette always fits its chosen bit width: with `bits_for(n)` bits,
/// every index below `n` is representable.
pub proof fn lemma_palette_fits(n: nat, bits: nat)
    requires
        bits == bits_for(n),
        n <= 0x1_0000_0000,
    ensures
        n <= (1u64 << (bits as u64)),
        1 <= (1u64 << (bits as u64)),
        2 <= bits <= 32,
{
    vstd::arithmetic::power2::lemma2_to64();
    vstd::arithmetic::power2::lemma_pow2_pos(bits);
    if n == 0 {
        vstd::bits::lemma_u64_shl_is_mul(1u64, 32u64);
    } else {
        crate::pack::lemma_bit_len_le((n - 1) as nat, 32);
        lemma_bit_len_lower((n - 1) as nat);
        let bl = crate::pack::bit_len((n - 1) as nat);
        if bl < bits {
            vstd::arithmetic::power2::lemma_pow2_strictly_increases(bl, bits);
        }
        if bits < 32 {
            vstd::arithmetic::power2::lemma_pow2_strictly_increases(bits, 32);
        }
        vstd::bits::lemma_u64_shl_is_mul(1u64, bits as u64);
    }
}

/// Every number is below two to its bit length.
proof fn lemma_bit_len_lower(m: nat)
    ensures
        m < vstd::arithmetic::power2::pow2(crate::pack::bit_len(m)),
    decreases m,
{
    if m > 0 {
        vstd::arithmetic::power2::lemma_pow2_unfold(crate::pack::bit_len(m));
        lemma_bit_len_lower(m / 2);
    } else {
        assert(vstd::arithmetic::power2::pow2(0) == 1) by {
            vstd::arithmetic::power2::lemma2_to64();
        }
    }
}


/// The cell count of a box with the given dimensions.
fn grid_total(w: i32, l: i32, h: i32) -> (r: usize)
    requires
        0 <= w,
        0 <= l,
        0 <= h,
        w * l <= 0x0400_0000,
        h * (w * l) <= 0x0400_0000,
    ensures
        r == h * (w * l),
{
    let a = w as usize;
    let b = l as usize;
    let c = h as usize;
    proof {
        assert(a * b <= 0x0400_0000 && c * (a * b) <= 0x0400_0000) by (nonlinear_arith)
            requires
                a == w,
                b == l,
                c == h,
                0 <= w,
                0 <= l,
                0 <= h,
                w * l <= 0x0400_0000,
                h * (w * l) <= 0x0400_0000,
        ;
    }
    c * (a * b)
}


/// The metadata compound's shape: the enclosing size and the fixed
/// generator strings, in field order.
pub open spec fn metadata_repr(v: NbtValue, width: i32, height: i32, length: i32) -> bool {
    v matches NbtValue::Compound(fields) && {
        &&& fields@.len() == 5
        &&& is_xyz_field(fields@[0], "EnclosingSize"@, width, height, length)
        &&& is_text_field(
            fields@[1],
            "Description"@,
            "来自蓝图站www.mcschematic.top自动转换,不保留实体"@,
        )
        &&& is_int_field(fields@[2], "RegionCount"@, 1)
        &&& is_text_field(fields@[3], "Name"@, "null"@)
        &&& is_text_field(fields@[4], "Author"@, "www.mcschematic.top"@)
    }
}

/// The regions compound's shape for an exporter: one region holding the
/// packed block states of its grid, the origin position, its box size,
/// its palette, and an empty tile-entity list.
pub open spec fn region_repr(v: NbtValue, lm: ToLmSchematic) -> bool {
    v matches NbtValue::Compound(regions) && regions@.len() == 1 && regions@[0].0@ == "null"@ && (
    regions@[0].1 matches NbtValue::Compound(reg) && {
        &&& reg@.len() == 5
        &&& reg@[0].0@ == "BlockStates"@
        &&& (reg@[0].1 matches NbtValue::LongArray(words) && {
            &&& as_u64s(words@).len() == (lm.spec_total() * lm.bits + 63) / 64
            &&& forall|c: int|
                0 <= c < lm.spec_total() ==> extract_entry(as_u64s(words@), lm.bits as u64, c)
                    == lm.spec_grid_of()[c] as u64
            &&& forall|p: int|
                lm.spec_total() * lm.bits <= p < as_u64s(words@).len() * 64
                    ==> !crate::pack::stream_bit(as_u64s(words@), p)
        })
        &&& is_xyz_field(reg@[1], "Position"@, 0, 0, 0)
        &&& is_xyz_field(reg@[2], "Size"@, lm.width, lm.height, lm.length)
        &&& reg@[3].0@ == "BlockStatePalette"@
        &&& palette_repr(reg@[3].1, arc_views(lm.unique_block_states@))
        &&& reg@[4].0@ == "TileEntities"@
        &&& (reg@[4].1 matches NbtValue::List(t) && t@.len() == 0)
    })
}

/// The shape of a finished document for the dense-grid target: its five
/// top-level fields in order, the format versions pinned, the metadata
/// describing the exporter's box, and the region holding its packed
/// grid and palette.
pub open spec fn lm_doc_repr(r: NbtValue, lm: ToLmSchematic, version: i32) -> bool {
    r matches NbtValue::Compound(fields) && {
        &&& fields@.len() == 5
        &&& is_int_field(fields@[0], "MinecraftDataVersion"@, 3465)
        &&& is_int_field(fields@[1], "Version"@, version)
        &&& fields@[2].0@ == "Metadata"@
        &&& metadata_repr(fields@[2].1, lm.width, lm.height, lm.length)
        &&& fields@[3].0@ == "Regions"@
        &&& region_repr(fields@[3].1, lm)
        &&& is_int_field(fields@[4], "SubVersion"@, 1)
    }
}

/// A field holding a 32-bit integer value.
pub open spec fn is_int_field(f: (String, NbtValue), name: Seq<char>, v: i32) -> bool {
    f.0@ == name && (f.1 matches NbtValue::Int(n) && n == v)
}

/// A field holding a string value.
pub open spec fn is_text_field(f: (String, NbtValue), name: Seq<char>, s: Seq<char>) -> bool {
    f.0@ == name && (f.1 matches NbtValue::Text(t) && t@ == s)
}

/// A field holding a compound of the three named coordinates.
pub open spec fn is_xyz_field(f: (String, NbtValue), name: Seq<char>, x: i32, y: i32, z: i32) -> bool {
    f.0@ == name && (f.1 matches NbtValue::Compound(c) && c@.len() == 3 && is_int_field(
        c@[0],
        "x"@,
        x,
    ) && is_int_field(c@[1], "y"@, y) && is_int_field(c@[2], "z"@, z))
}

/// A properties compound mirroring the ordered property pairs.
pub open spec fn props_repr(props: Seq<(String, NbtValue)>, pv: Seq<(Seq<char>, Seq<char>)>) -> bool {
    props.len() == pv.len() && forall|i: int|
        0 <= i < props.len() ==> (#[trigger] props[i]).0@ == pv[i].0 && (props[i].1 matches
        NbtValue::Text(t) && t@ == pv[i].1)
}

/// A palette slot: the block name, and its properties when it has any.
pub open spec fn palette_entry_repr(v: NbtValue, b: BlockDataV) -> bool {
    v matches NbtValue::Compound(fields) && {
        if b.properties.len() == 0 {
            fields@.len() == 1 && is_text_field(fields@[0], "Name"@, b.id)
        } else {
            fields@.len() == 2 && is_text_field(fields@[0], "Name"@, b.id) && fields@[1].0@
                == "Properties"@ && (fields@[1].1 matches NbtValue::Compound(props) && props_repr(
                props@,
                b.properties,
            ))
        }
    }
}

/// The palette list: one slot per distinct description, in palette order.
pub open spec fn palette_repr(v: NbtValue, pal: Seq<BlockDataV>) -> bool {
    v matches NbtValue::List(items) && items@.len() == pal.len() && forall|i: int|
        0 <= i < pal.len() ==> palette_entry_repr(#[trigger] items@[i], pal[i])
}

/// The signed view of the packed words, as the document stores them.
pub open spec fn as_u64s(s: Seq<i64>) -> Seq<u64> {
    Seq::new(s.len(), |i: int| s[i] as u64)
}

impl ToLmSchematic {
    /// Serializes the palette into the document's palette list.
    pub fn lm_palette(&self) -> (r: NbtValue)
        ensures
            palette_repr(r, arc_views(self.unique_block_states@)),
    {
        let mut palette: Vec<NbtValue> = Vec::new();
        let n = self.unique_block_states.len();
        let mut i: usize = 0;
        while i < n
            invariant
                i <= n,
                n == self.unique_block_states@.len(),
                palette@.len() == i,
                forall|j: int|
                    0 <= j < i ==> palette_entry_repr(
                        #[trigger] palette@[j],
                        arc_views(self.unique_block_states@)[j],
                    ),
            decreases n - i,
        {
            let block: &BlockData = &self.unique_block_states[i];
            let mut compound: Vec<(String, NbtValue)> = Vec::new();
            compound.push(("Name".to_owned(), NbtValue::Text(block.id.name.clone())));
            if block.properties.len() > 0 {
                let mut props: Vec<(String, NbtValue)> = Vec::new();
                let m = block.properties.len();
                let mut j: usize = 0;
                while j < m
                    invariant
                        j <= m,
                        m == block.properties@.len(),
                        props@.len() == j,
                        forall|k: int|
                            0 <= k < j ==> (#[trigger] props@[k]).0@ == block@.properties[k].0 && (
                            props@[k].1 matches NbtValue::Text(t) && t@ == block@.properties[k].1),
                    decreases m - j,
                {
                    props.push(
                        (block.properties[j].0.clone(), NbtValue::Text(
                            block.properties[j].1.clone(),
                        )),
                    );
                    j = j + 1;
                }
                compound.push(("Properties".to_owned(), NbtValue::Compound(props)));
            }
            palette.push(NbtValue::Compound(compound));
            proof {
                assert(palette@[i as int] == palette@.last());
            }
            i = i + 1;
        }
        NbtValue::List(palette)
    }

    /// The metadata compound: enclosing size, description, region count,
    /// name and author, in that order.
    pub fn lm_metadata(&self) -> (r: NbtValue)
        ensures
            metadata_repr(r, self.width, self.height, self.length),
    {
        let mut enclosing: Vec<(String, NbtValue)> = Vec::new();
        enclosing.push(("x".to_owned(), NbtValue::Int(self.width)));
        enclosing.push(("y".to_owned(), NbtValue::Int(self.height)));
        enclosing.push(("z".to_owned(), NbtValue::Int(self.length)));
        let mut metadata: Vec<(String, NbtValue)> = Vec::new();
        metadata.push(("EnclosingSize".to_owned(), NbtValue::Compound(enclosing)));
        metadata.push(
            ("Description".to_owned(), NbtValue::Text(
                "来自蓝图站www.mcschematic.top自动转换,不保留实体".to_owned(),
            )),
        );
        metadata.push(("RegionCount".to_owned(), NbtValue::Int(1)));
        metadata.push(("Name".to_owned(), NbtValue::Text("null".to_owned())));
        metadata.push(("Author".to_owned(), NbtValue::Text("www.mcschematic.top".to_owned())));
        NbtValue::Compound(metadata)
    }

    /// The single region: packed block states, origin position, size,
    /// palette, and an empty tile-entity list.
    pub fn lm_regions(&self) -> (r: NbtValue)
        requires
            self.wf(),
        ensures
            region_repr(r, *self),
    {
        let encoded = self.encode_block_states();
        let mut long_array: Vec<i64> = Vec::new();
        let n = encoded.len();
        let mut i: usize = 0;
        while i < n
            invariant
                i <= n,
                n == encoded@.len(),
                long_array@.len() == i,
                forall|j: int| 0 <= j < i ==> #[trigger] long_array@[j] == encoded@[j] as i64,
            decreases n - i,
        {
            long_array.push(encoded[i] as i64);
            i = i + 1;
        }
        proof {
            assert forall|j: int| 0 <= j < n implies as_u64s(long_array@)[j] == encoded@[j] by {
                let x = encoded@[j];
                assert((x as i64) as u64 == x) by (bit_vector);
            }
            assert(as_u64s(long_array@) =~= encoded@);
        }
        let mut region: Vec<(String, NbtValue)> = Vec::new();
        region.push(("BlockStates".to_owned(), NbtValue::LongArray(long_array)));
        let mut position: Vec<(String, NbtValue)> = Vec::new();
        position.push(("x".to_owned(), NbtValue::Int(0)));
        position.push(("y".to_owned(), NbtValue::Int(0)));
        position.push(("z".to_owned(), NbtValue::Int(0)));
        region.push(("Position".to_owned(), NbtValue::Compound(position)));
        let mut size: Vec<(String, NbtValue)> = Vec::new();
        size.push(("x".to_owned(), NbtValue::Int(self.width)));
        size.push(("y".to_owned(), NbtValue::Int(self.height)));
        size.push(("z".to_owned(), NbtValue::Int(self.length)));
        region.push(("Size".to_owned(), NbtValue::Compound(size)));
        region.push(("BlockStatePalette".to_owned(), self.lm_palette()));
        region.push(("TileEntities".to_owned(), NbtValue::List(Vec::new())));
        let mut regions: Vec<(String, NbtValue)> = Vec::new();
        regions.push(("null".to_owned(), NbtValue::Compound(region)));
        NbtValue::Compound(regions)
    }

    /// The whole document for the dense-grid target: format versions,
    /// metadata and the single region.
    pub fn lm_schematic(&self, version: i32) -> (r: NbtValue)
        requires
            self.wf(),
        ensures
            lm_doc_repr(r, *self, version),
    {
        let mut nbt: Vec<(String, NbtValue)> = Vec::new();
        nbt.push(("MinecraftDataVersion".to_owned(), NbtValue::Int(3465)));
        nbt.push(("Version".to_owned(), NbtValue::Int(version)));
        nbt.push(("Metadata".to_owned(), self.lm_metadata()));
        nbt.push(("Regions".to_owned(), self.lm_regions()));
        nbt.push(("SubVersion".to_owned(), NbtValue::Int(1)));
        NbtValue::Compound(nbt)
    }
}


/// The first description a scan sees keeps palette slot zero.
pub proof fn lemma_dedup_first(s: Seq<BlockDataV>)
    requires
        s.len() > 0,
    ensures
        dedup_first_seen(s).len() > 0,
        dedup_first_seen(s)[0] == s[0],
    decreases s.len(),
{
    if s.len() > 1 {
        assert(s.drop_last()[0] == s[0]);
        lemma_dedup_first(s.drop_last());
    } else {
        assert(s.drop_last().len() == 0);
        assert(dedup_first_seen(s.drop_last()) =~= Seq::<BlockDataV>::empty());
        assert(dedup_first_seen(s) == dedup_first_seen(s.drop_last()).push(s.last()));
        assert(s.last() == s[0]);
    }
}

/// Palette round trip: after an export palette is built, every block of
/// the collection appears in it, everything in it is some block's
/// description, no description appears twice, and slots are dense from
/// zero by construction.
pub proof fn lemma_palette_round_trip(lm: ToLmSchematic)
    requires
        lm.wf(),
    ensures
        forall|k: int|
            0 <= k < lm.blocks@.len() ==> arc_views(lm.unique_block_states@).contains(
                (#[trigger] lm.blocks@[k]).block@,
            ),
        forall|j: int|
            #![trigger arc_views(lm.unique_block_states@)[j]]
            0 <= j < lm.unique_block_states@.len() ==> exists|k: int|
                0 <= k < lm.blocks@.len() && (#[trigger] lm.blocks@[k]).block@ == arc_views(
                    lm.unique_block_states@,
                )[j],
        forall|j: int, k: int|
            0 <= j < k < lm.unique_block_states@.len() ==> arc_views(lm.unique_block_states@)[j]
                != arc_views(lm.unique_block_states@)[k],
{
    let views = block_views(lm.blocks@);
    lemma_dedup_first_seen_set(views);
    assert forall|k: int|
        0 <= k < lm.blocks@.len() implies arc_views(lm.unique_block_states@).contains(
        (#[trigger] lm.blocks@[k]).block@,
    ) by {
        assert(views[k] == lm.blocks@[k].block@);
        assert(dedup_first_seen(views).contains(views[k]));
    }
    assert forall|j: int|
        #![trigger arc_views(lm.unique_block_states@)[j]]
        0 <= j < lm.unique_block_states@.len() implies exists|k: int|
        0 <= k < lm.blocks@.len() && (#[trigger] lm.blocks@[k]).block@ == arc_views(
        lm.unique_block_states@,
    )[j] by {
        assert(views.contains(dedup_first_seen(views)[j]));
        let k = choose|k: int| 0 <= k < views.len() && views[k] == dedup_first_seen(views)[j];
        assert(lm.blocks@[k].block@ == arc_views(lm.unique_block_states@)[j]);
    }
}

/// Padding shell geometry, grid side: a cell only air blocks flatten
/// onto decodes to slot zero, which the shell's air holds whenever the
/// collection leads with air.
pub proof fn lemma_padding_cell_air(lm: ToLmSchematic, c: int)
    requires
        lm.wf(),
        lm.blocks@.len() > 0,
        lm.blocks@[0].block@ == air_view(),
        0 <= c < lm.spec_total(),
        forall|k: int|
            0 <= k < lm.blocks@.len() && grid_cell_index(
                lm.start_pos,
                lm.width as int,
                lm.length as int,
                (#[trigger] lm.blocks@[k]).pos,
            ) == c ==> lm.blocks@[k].block@ == air_view(),
    ensures
        lm.spec_grid_of()[c] == 0,
{
    let pal = arc_views(lm.unique_block_states@);
    lemma_dedup_first(block_views(lm.blocks@));
    assert(block_views(lm.blocks@)[0] == lm.blocks@[0].block@);
    assert(pal[0] == air_view());
    assert(pal.contains(air_view()));
    assert(first_index(pal, air_view()) == 0);
    assert(state_of(pal, air_view()) == 0);
    lemma_grid_air_cell(
        lm.start_pos,
        lm.width as int,
        lm.length as int,
        lm.spec_total(),
        lm.blocks@,
        pal,
        c,
    );
}

/// A grid cell every writer of which writes slot zero stays at zero.
proof fn lemma_grid_air_cell(
    start: BlockPos,
    w: int,
    l: int,
    total: nat,
    blocks: Seq<BlockStatePos>,
    pal: Seq<BlockDataV>,
    c: int,
)
    requires
        0 <= c < total,
        pal.len() <= 0x7fff_ffff,
        forall|k: int|
            0 <= k < blocks.len() && grid_cell_index(start, w, l, (#[trigger] blocks[k]).pos) == c
                ==> state_of(pal, blocks[k].block@) == 0,
    ensures
        spec_grid(start, w, l, total, blocks, pal)[c] == 0,
    decreases blocks.len(),
{
    lemma_spec_grid_range(start, w, l, total, blocks, pal);
    if blocks.len() > 0 {
        assert forall|k: int|
            0 <= k < blocks.drop_last().len() && grid_cell_index(
                start,
                w,
                l,
                (#[trigger] blocks.drop_last()[k]).pos,
            ) == c implies state_of(pal, blocks.drop_last()[k].block@) == 0 by {
            assert(blocks.drop_last()[k] == blocks[k]);
        }
        lemma_grid_air_cell(start, w, l, total, blocks.drop_last(), pal, c);
        lemma_spec_grid_range(start, w, l, total, blocks.drop_last(), pal);
        let g = spec_grid(start, w, l, total, blocks.drop_last(), pal);
        let id = grid_cell_index(start, w, l, blocks.last().pos);
        if 0 <= id < total {
            assert(spec_grid(start, w, l, total, blocks, pal) == g.update(
                id,
                state_of(pal, blocks.last().block@) as i32,
            ));
            if id == c {
                assert(blocks[blocks.len() - 1] == blocks.last());
                assert(state_of(pal, blocks.last().block@) == 0);
            }
        } else {
            assert(spec_grid(start, w, l, total, blocks, pal) == g);
        }
    }
}


/// The given position lies inside the declared-size box whose lower
/// corner is the minimum occupied corner.
pub open spec fn in_declared_box(p: BlockPos, mn: BlockPos, size: SchematicSize) -> bool {
    &&& mn.x <= p.x < mn.x + size.width
    &&& mn.y <= p.y < mn.y + size.height
    &&& mn.z <= p.z < mn.z + size.length
}

/// Some entry of the collection flattens onto the given grid slot.
pub open spec fn some_entry_maps_to(
    blocks: Seq<BlockStatePos>,
    start: BlockPos,
    w: int,
    l: int,
    c: int,
) -> bool {
    exists|k: int|
        0 <= k < blocks.len() && grid_cell_index(start, w, l, (#[trigger] blocks[k]).pos) == c
}

/// A position whose relative coordinates lie inside the box flattens
/// into the grid's range.
proof fn lemma_flatten_in_range(start: BlockPos, wv: int, hv: int, lv: int, p: BlockPos)
    requires
        0 < wv,
        0 < lv,
        0 <= p.x - start.x < wv,
        0 <= p.y - start.y < hv,
        0 <= p.z - start.z < lv,
    ensures
        0 <= grid_cell_index(start, wv, lv, p) < hv * (wv * lv),
{
    let dx = p.x - start.x;
    let dy = p.y - start.y;
    let dz = p.z - start.z;
    assert(0 <= dz * wv <= (lv - 1) * wv && dy * wv * lv == dy * (wv * lv) && 0 <= dy * (wv * lv)
        <= (hv - 1) * (wv * lv) && (lv - 1) * wv + wv == lv * wv && lv * wv == wv * lv && (hv - 1)
        * (wv * lv) + (wv * lv) == hv * (wv * lv)) by (nonlinear_arith)
        requires
            0 < wv,
            0 < lv,
            0 <= dx < wv,
            0 <= dy < hv,
            0 <= dz < lv,
    ;
}

/// Flattening is injective on the box: two in-box positions with the
/// same grid slot are the same position.
proof fn lemma_flatten_injective(start: BlockPos, wv: int, hv: int, lv: int, p: BlockPos, q: BlockPos)
    requires
        0 < wv,
        0 < lv,
        0 <= p.x - start.x < wv,
        0 <= p.y - start.y < hv,
        0 <= p.z - start.z < lv,
        0 <= q.x - start.x < wv,
        0 <= q.y - start.y < hv,
        0 <= q.z - start.z < lv,
        grid_cell_index(start, wv, lv, p) == grid_cell_index(start, wv, lv, q),
    ensures
        p == q,
{
    let dxp = p.x - start.x;
    let dyp = p.y - start.y;
    let dzp = p.z - start.z;
    let dxq = q.x - start.x;
    let dyq = q.y - start.y;
    let dzq = q.z - start.z;
    let id = grid_cell_index(start, wv, lv, p);
    assert(dyp * wv * lv == dyp * (wv * lv) && dyq * wv * lv == dyq * (wv * lv) && 0 <= dzp * wv
        + dxp < wv * lv && 0 <= dzq * wv + dxq < wv * lv) by (nonlinear_arith)
        requires
            0 < wv,
            0 < lv,
            0 <= dxp < wv,
            0 <= dzp < lv,
            0 <= dxq < wv,
            0 <= dzq < lv,
    ;
    lemma_fundamental_div_mod_converse(id, wv * lv, dyp, dzp * wv + dxp);
    lemma_fundamental_div_mod_converse(id, wv * lv, dyq, dzq * wv + dxq);
    assert(dyp == dyq && dzp * wv + dxp == dzq * wv + dxq);
    lemma_fundamental_div_mod_converse(dzp * wv + dxp, wv, dzp, dxp);
    lemma_fundamental_div_mod_converse(dzq * wv + dxq, wv, dzq, dxq);
    assert(dzp == dzq && dxp == dxq);
}

/// A grid slot all of whose writers carry one palette slot, and that at
/// least one in-range entry writes, holds that slot.
proof fn lemma_grid_cell_value(
    start: BlockPos,
    w: int,
    l: int,
    total: nat,
    blocks: Seq<BlockStatePos>,
    pal: Seq<BlockDataV>,
    c: int,
    s: int,
)
    requires
        0 <= c < total,
        0 <= s <= 0x7fff_ffff,
        pal.len() <= 0x7fff_ffff,
        forall|k: int|
            0 <= k < blocks.len() && grid_cell_index(start, w, l, (#[trigger] blocks[k]).pos) == c
                ==> state_of(pal, blocks[k].block@) == s,
        some_entry_maps_to(blocks, start, w, l, c),
    ensures
        spec_grid(start, w, l, total, blocks, pal)[c] == s,
    decreases blocks.len(),
{
    lemma_spec_grid_range(start, w, l, total, blocks, pal);
    let kw = choose|k: int|
        0 <= k < blocks.len() && grid_cell_index(start, w, l, (#[trigger] blocks[k]).pos) == c;
    lemma_spec_grid_range(start, w, l, total, blocks.drop_last(), pal);
    let g = spec_grid(start, w, l, total, blocks.drop_last(), pal);
    let id = grid_cell_index(start, w, l, blocks.last().pos);
    assert(blocks[blocks.len() - 1] == blocks.last());
    if id == c {
        assert(state_of(pal, blocks.last().block@) == s);
        assert(spec_grid(start, w, l, total, blocks, pal) == g.update(id, s as i32));
    } else {
        assert(kw < blocks.len() - 1);
        assert(blocks.drop_last()[kw] == blocks[kw]);
        assert forall|k: int|
            0 <= k < blocks.drop_last().len() && grid_cell_index(
                start,
                w,
                l,
                (#[trigger] blocks.drop_last()[k]).pos,
            ) == c implies state_of(pal, blocks.drop_last()[k].block@) == s by {
            assert(blocks.drop_last()[k] == blocks[k]);
        }
        lemma_grid_cell_value(start, w, l, total, blocks.drop_last(), pal, c, s);
        if 0 <= id < total {
            assert(spec_grid(start, w, l, total, blocks, pal) == g.update(
                id,
                state_of(pal, blocks.last().block@) as i32,
            ));
        } else {
            assert(spec_grid(start, w, l, total, blocks, pal) == g);
        }
    }
}

/// Padding shell geometry, whole: for an exporter prepared from a
/// schematic whose occupied positions are pairwise distinct, lie in the
/// declared-size box over an unsaturated minimum corner — the padded box
/// is two cells wider on each horizontal axis and unchanged vertically;
/// each occupied position's grid slot holds its description's palette
/// slot; and every other cell of the grid, the whole horizontal
/// perimeter included, holds the air slot zero.
pub proof fn lemma_padding_shell_geometry(lm: ToLmSchematic, sd: SchematicData)
    requires
        lm_from(lm, sd),
        min_corner(sd.blocks.elements@).x > i32::MIN,
        min_corner(sd.blocks.elements@).z > i32::MIN,
        forall|a: int, b: int|
            0 <= a < b < sd.blocks.elements@.len() ==> (#[trigger] sd.blocks.elements@[a]).pos != (
            #[trigger] sd.blocks.elements@[b]).pos,
        forall|k: int|
            0 <= k < sd.blocks.elements@.len() ==> in_declared_box(
                (#[trigger] sd.blocks.elements@[k]).pos,
                min_corner(sd.blocks.elements@),
                sd.size,
            ),
    ensures
        lm.width == sd.size.width + 2,
        lm.height == sd.size.height,
        lm.length == sd.size.length + 2,
        forall|k: int|
            0 <= k < sd.blocks.elements@.len() ==> {
                let id = grid_cell_index(
                    lm.start_pos,
                    lm.width as int,
                    lm.length as int,
                    (#[trigger] sd.blocks.elements@[k]).pos,
                );
                &&& 0 <= id < lm.spec_total()
                &&& lm.spec_grid_of()[id] == state_of(
                    arc_views(lm.unique_block_states@),
                    sd.blocks.elements@[k].block@,
                )
            },
        forall|c: int|
            #![trigger lm.spec_grid_of()[c]]
            0 <= c < lm.spec_total() && !some_entry_maps_to(
                sd.blocks.elements@,
                lm.start_pos,
                lm.width as int,
                lm.length as int,
                c,
            ) ==> lm.spec_grid_of()[c] == 0,
{
    let orig = sd.blocks.elements@;
    let mn = min_corner(orig);
    let start = lm.start_pos;
    let end = lm.end_pos;
    let wv = lm.width as int;
    let hv = lm.height as int;
    let lv = lm.length as int;
    let pal = arc_views(lm.unique_block_states@);
    let shell_len = shell_cells(start, end, lm.height as nat).len();
    lemma_shell_cells_on_perimeter(start, end, lm.height as nat);
    lemma_shell_cells_len(start, end, lm.height as nat);
    // every entry of the padded list has in-box relative coordinates,
    // the shell entries on the perimeter, the originals strictly inside
    assert(start.x == mn.x - 1 && start.z == mn.z - 1 && start.y == mn.y);
    assert forall|j: int|
        0 <= j < lm.blocks@.len() implies {
        let p = (#[trigger] lm.blocks@[j]).pos;
        &&& 0 <= p.x - start.x < wv
        &&& 0 <= p.y - start.y < hv
        &&& 0 <= p.z - start.z < lv
    } by {
        if j < shell_len {
            assert(on_perimeter(lm.blocks@[j].pos, start, end));
        } else {
            assert(lm.blocks@[j] == orig[j - shell_len]);
            assert(in_declared_box(orig[j - shell_len].pos, mn, sd.size));
        }
    }
    // each occupied position's slot holds its description's palette slot
    assert forall|k: int|
        0 <= k < orig.len() implies {
        let id = grid_cell_index(start, wv, lv, (#[trigger] orig[k]).pos);
        &&& 0 <= id < lm.spec_total()
        &&& lm.spec_grid_of()[id] == state_of(pal, orig[k].block@)
    } by {
        let p = orig[k].pos;
        assert(lm.blocks@[shell_len + k] == orig[k]);
        let id = grid_cell_index(start, wv, lv, p);
        lemma_flatten_in_range(start, wv, hv, lv, p);
        let s = state_of(pal, orig[k].block@);
        assert(0 <= s < pal.len() || s == 0) by {
            if pal.contains(orig[k].block@) {
                lemma_first_index(pal, orig[k].block@);
            }
        }
        assert forall|j: int|
            0 <= j < lm.blocks@.len() && grid_cell_index(
                start,
                wv,
                lv,
                (#[trigger] lm.blocks@[j]).pos,
            ) == id implies state_of(pal, lm.blocks@[j].block@) == s by {
            lemma_flatten_injective(start, wv, hv, lv, lm.blocks@[j].pos, p);
            if j < shell_len {
                assert(on_perimeter(lm.blocks@[j].pos, start, end));
                assert(in_declared_box(p, mn, sd.size));
                assert(false);
            } else {
                assert(lm.blocks@[j] == orig[j - shell_len]);
                if j - shell_len != k {
                    assert(orig[j - shell_len].pos != orig[k].pos);
                    assert(false);
                }
            }
        }
        assert(some_entry_maps_to(lm.blocks@, start, wv, lv, id)) by {
            assert(grid_cell_index(start, wv, lv, (lm.blocks@[shell_len + k]).pos) == id);
        }
        lemma_grid_cell_value(
            start,
            wv,
            lv,
            lm.spec_total(),
            lm.blocks@,
            pal,
            id,
            s,
        );
    }
    // every cell no occupied position flattens onto holds the air slot
    assert forall|c: int|
        #![trigger lm.spec_grid_of()[c]]
        0 <= c < lm.spec_total() && !some_entry_maps_to(orig, start, wv, lv, c) implies lm
        .spec_grid_of()[c] == 0 by {
        assert(hv > 0) by {
            assert(lm.spec_total() > 0);
        }
        assert(shell_len > 0);
        assert(lm.blocks@[0].block@ == air_view());
        assert forall|j: int|
            0 <= j < lm.blocks@.len() && grid_cell_index(
                start,
                wv,
                lv,
                (#[trigger] lm.blocks@[j]).pos,
            ) == c implies lm.blocks@[j].block@ == air_view() by {
            if j >= shell_len {
                assert(lm.blocks@[j] == orig[j - shell_len]);
                assert(grid_cell_index(start, wv, lv, orig[j - shell_len].pos) == c);
                assert(some_entry_maps_to(orig, start, wv, lv, c));
                assert(false);
            }
        }
        lemma_padding_cell_air(lm, c);
    }
}

} // verus!
