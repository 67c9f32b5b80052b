//! The variable-bit-width packed integer array.
//!
//! Entry `i` of the conceptual bitstream occupies bits
//! `[i*bits, i*bits + bits)`, packed low-to-high across 64-bit words with
//! no padding, so an entry may straddle a word boundary. This replicates
//! the dense block-state storage of the game's own region format.

use vstd::arithmetic::div_mod::{lemma_fundamental_div_mod, lemma_fundamental_div_mod_converse};
use vstd::arithmetic::mul::lemma_mul_inequality;
use vstd::arithmetic::power2::{lemma2_to64, pow2};
use vstd::prelude::*;

verus! {

/// The number of binary digits of `n`.
pub open spec fn bit_len(n: nat) -> nat
    decreases n,
{
    if n == 0 {
        0
    } else {
        bit_len(n / 2) + 1
    }
}

/// Bits per packed entry for a palette of `n` entries:
/// `max(2, ceil(log2(n)))`, with an empty palette falling back to the
/// full 32-bit width.
pub open spec fn bits_for(n: nat) -> nat {
    if n == 0 {
        32
    } else if bit_len((n - 1) as nat) < 2 {
        2
    } else {
        bit_len((n - 1) as nat)
    }
}

/// A number below `pow2(k)` has at most `k` binary digits.
pub proof fn lemma_bit_len_le(n: nat, k: nat)
    requires
        n < pow2(k),
    ensures
        bit_len(n) <= k,
    decreases n,
{
    lemma2_to64();
    if n > 0 {
        vstd::arithmetic::power2::lemma_pow2_unfold(k);
        lemma_bit_len_le(n / 2, (k - 1) as nat);
    }
}

/// The bit width chosen for a palette: `max(2, ceil(log2(size)))`.
pub fn bits_per_entry(palette_len: usize) -> (r: u32)
    requires
        palette_len <= 0xffff_ffff,
    ensures
        r == bits_for(palette_len as nat),
        2 <= r <= 32,
{
    if palette_len == 0 {
        return 32;
    }
    let n0 = palette_len - 1;
    proof {
        lemma2_to64();
        lemma_bit_len_le(n0 as nat, 32);
    }
    let mut m: usize = n0;
    let mut b: u32 = 0;
    while m > 0
        invariant
            b + bit_len(m as nat) == bit_len(n0 as nat),
            bit_len(n0 as nat) <= 32,
        decreases m,
    {
        m = m / 2;
        b = b + 1;
    }
    if b < 2 {
        2
    } else {
        b
    }
}

/// The low `bits` bits set, for `bits < 64`.
pub open spec fn mask64(bits: u64) -> u64 {
    (((1u64 << bits) as u64) - 1) as u64
}

/// Bit `p` of the conceptual bitstream laid low-to-high across `words`.
pub open spec fn stream_bit(words: Seq<u64>, p: int) -> bool {
    0 <= p && p / 64 < words.len() && ((words[p / 64] >> ((p % 64) as u64)) & 1u64) == 1u64
}

/// Entry `i` read back out of the packed words: the `bits` bits starting
/// at stream position `i*bits`, possibly spanning two words.
pub open spec fn extract_entry(words: Seq<u64>, bits: u64, i: int) -> u64 {
    let start = i * bits;
    let w = start / 64;
    let off = (start % 64) as u64;
    if 0 <= i && 0 < bits && (i + 1) * bits <= words.len() * 64 {
        if off + bits <= 64 {
            (words[w] >> off) & mask64(bits)
        } else {
            ((words[w] >> off) | (words[w + 1] << ((64 - off) as u64))) & mask64(bits)
        }
    } else {
        0
    }
}

proof fn bv_fit_new(w: u64, v: u64, off: u64, bits: u64)
    requires
        off + bits <= 64,
        1 <= bits < 64,
        v & mask64(bits) == v,
        w >> off == 0,
    ensures
        ((w | (v << off)) >> off) & mask64(bits) == v,
{
    assert(((w | (v << off)) >> off) & (((1u64 << bits) as u64) - 1) as u64 == v) by (bit_vector)
        requires
            off + bits <= 64,
            1 <= bits < 64,
            v & (((1u64 << bits) as u64) - 1) as u64 == v,
            w >> off == 0,
    ;
}

proof fn bv_fit_preserve(w: u64, v: u64, off: u64, bits: u64, offk: u64)
    requires
        offk + bits <= off,
        off < 64,
        1 <= bits < 64,
        v & mask64(bits) == v,
    ensures
        ((w | (v << off)) >> offk) & mask64(bits) == (w >> offk) & mask64(bits),
{
    assert(((w | (v << off)) >> offk) & (((1u64 << bits) as u64) - 1) as u64 == (w >> offk) & (((
    1u64 << bits) as u64) - 1) as u64) by (bit_vector)
        requires
            offk + bits <= off,
            off < 64,
            1 <= bits < 64,
            v & (((1u64 << bits) as u64) - 1) as u64 == v,
    ;
}

proof fn bv_straddle_preserve(lo: u64, w: u64, v: u64, off: u64, bits: u64, s: u64)
    requires
        0 < s < 64,
        bits <= s + off,
        off < 64,
        1 <= bits < 64,
        v & mask64(bits) == v,
    ensures
        ((lo | ((w | (v << off)) << s)) & mask64(bits)) == ((lo | (w << s)) & mask64(bits)),
{
    assert(((lo | ((w | (v << off)) << s)) & (((1u64 << bits) as u64) - 1) as u64) == ((lo | (w
        << s)) & (((1u64 << bits) as u64) - 1) as u64)) by (bit_vector)
        requires
            0 < s < 64,
            bits <= s + off,
            off < 64,
            1 <= bits < 64,
            v & (((1u64 << bits) as u64) - 1) as u64 == v,
    ;
}

proof fn bv_straddle_new(w1: u64, v: u64, off: u64, bits: u64)
    requires
        off + bits > 64,
        off < 64,
        1 <= bits < 64,
        v & mask64(bits) == v,
        w1 >> off == 0,
    ensures
        ((((w1 | (v << off)) >> off) | ((v >> ((64 - off) as u64)) << ((64 - off) as u64))) & mask64(
            bits,
        )) == v,
{
    assert(((((w1 | (v << off)) >> off) | ((v >> ((64 - off) as u64)) << ((64 - off) as u64))) & ((
    (1u64 << bits) as u64) - 1) as u64) == v) by (bit_vector)
        requires
            off + bits > 64,
            off < 64,
            1 <= bits < 64,
            v & (((1u64 << bits) as u64) - 1) as u64 == v,
            w1 >> off == 0,
    ;
}

proof fn bv_clean_fit(w: u64, v: u64, off: u64, bits: u64)
    requires
        off + bits <= 64,
        1 <= bits < 64,
        v & mask64(bits) == v,
        w >> off == 0,
    ensures
        off + bits < 64 ==> (w | (v << off)) >> ((off + bits) as u64) == 0,
{
    assert(off + bits < 64 ==> (w | (v << off)) >> ((off + bits) as u64) == 0) by (bit_vector)
        requires
            off + bits <= 64,
            1 <= bits < 64,
            v & (((1u64 << bits) as u64) - 1) as u64 == v,
            w >> off == 0,
    ;
}

proof fn bv_clean_straddle(v: u64, off: u64, bits: u64)
    requires
        off + bits > 64,
        off < 64,
        1 <= bits < 64,
        v & mask64(bits) == v,
    ensures
        (v >> ((64 - off) as u64)) >> ((off + bits - 64) as u64) == 0,
{
    assert((v >> ((64 - off) as u64)) >> ((off + bits - 64) as u64) == 0) by (bit_vector)
        requires
            off + bits > 64,
            off < 64,
            1 <= bits < 64,
            v & (((1u64 << bits) as u64) - 1) as u64 == v,
    ;
}

proof fn bv_high_bits_zero(w: u64, off: u64, b: u64)
    requires
        w >> off == 0,
        off <= b < 64,
    ensures
        (w >> b) & 1u64 == 0u64,
{
    assert((w >> b) & 1u64 == 0u64) by (bit_vector)
        requires
            w >> off == 0,
            off <= b < 64,
    ;
}

/// After the packed prefix for entries below `i`, every word from the
/// word holding stream position `i*bits` on is clear above that position.
pub open spec fn clean_from(words: Seq<u64>, pos: int) -> bool {
    &&& (pos / 64 < words.len() ==> words[pos / 64] >> ((pos % 64) as u64) == 0)
    &&& (forall|w: int| pos / 64 < w < words.len() ==> words[w] == 0)
}

/// Packs each value's low `bits` bits into a contiguous little-endian
/// bitstream across 64-bit words; entries may straddle word boundaries.
pub fn encode_packed(ids: &Vec<u64>, bits: u32) -> (r: Vec<u64>)
    requires
        2 <= bits <= 32,
        ids@.len() * bits + 63 <= usize::MAX,
    ensures
        r@.len() == (ids@.len() * bits + 63) / 64,
        forall|i: int|
            0 <= i < ids@.len() ==> extract_entry(r@, bits as u64, i) == ids@[i] & mask64(
                bits as u64,
            ),
        forall|p: int| ids@.len() * bits <= p < r@.len() * 64 ==> !stream_bit(r@, p),
{
    let n = ids.len();
    let bits_us: usize = bits as usize;
    proof {
        lemma_mul_inequality(n as int, n as int, bits as int);
    }
    let total_bits: usize = n * bits_us;
    let longs_needed: usize = (total_bits + 63) / 64;
    let mut words: Vec<u64> = Vec::new();
    let mut j: usize = 0;
    while j < longs_needed
        invariant
            j <= longs_needed,
            words@.len() == j,
            forall|w: int| 0 <= w < j ==> words@[w] == 0,
        decreases longs_needed - j,
    {
        words.push(0u64);
        j = j + 1;
    }
    proof {
        lemma_fundamental_div_mod(total_bits as int + 63, 64);
        assert(total_bits <= longs_needed * 64);
    }
    let mask: u64 = u64::MAX >> (64 - bits);
    proof {
        let b = bits as u64;
        assert(u64::MAX >> ((64 - b) as u64) == (((1u64 << b) as u64) - 1) as u64) by (bit_vector)
            requires
                2 <= b <= 32,
        ;
        assert(mask == mask64(bits as u64));
        if longs_needed > 0 {
            let w0 = words@[0];
            assert(w0 >> 0u64 == w0) by (bit_vector);
        }
        assert(clean_from(words@, 0));
    }
    let mut i: usize = 0;
    while i < n
        invariant
            i <= n,
            n == ids@.len(),
            bits_us == bits,
            2 <= bits <= 32,
            mask == mask64(bits as u64),
            total_bits == n * bits_us,
            total_bits + 63 <= usize::MAX,
            longs_needed == (total_bits + 63) / 64,
            total_bits <= longs_needed * 64,
            words@.len() == longs_needed,
            forall|k: int|
                0 <= k < i ==> extract_entry(words@, bits as u64, k) == ids@[k] & mask64(
                    bits as u64,
                ),
            clean_from(words@, i * bits),
        decreases n - i,
    {
        proof {
            lemma_mul_inequality(i as int + 1, n as int, bits as int);
            assert((i + 1) * bits == i * bits + bits) by (nonlinear_arith);
        }
        let start_bit: usize = i * bits_us;
        let wi: usize = start_bit / 64;
        let off: u32 = (start_bit % 64) as u32;
        proof {
            lemma_fundamental_div_mod(start_bit as int, 64);
            assert(start_bit + bits_us <= total_bits);
            assert(64 * wi <= start_bit);
            assert(wi < longs_needed);
        }
        let mv: u64 = ids[i] & mask;
        proof {
            let v0 = ids@[i as int];
            assert((v0 & mask) & mask == v0 & mask) by (bit_vector);
        }
        let ghost old_words = words@;
        if off as usize + bits_us <= 64 {
            let w0 = words[wi];
            words.set(wi, w0 | (mv << off));
            proof {
                lemma_encode_step_fit(old_words, words@, ids@, bits as u64, i as int, wi as int, off as u64, mv);
            }
        } else {
            proof {
                assert(64 * (wi + 1) < start_bit + bits_us);
                assert(wi + 1 < longs_needed);
            }
            let w0 = words[wi];
            words.set(wi, w0 | (mv << off));
            let w1 = words[wi + 1];
            words.set(wi + 1, w1 | (mv >> (64 - off)));
            proof {
                lemma_encode_step_straddle(old_words, words@, ids@, bits as u64, i as int, wi as int, off as u64, mv);
            }
        }
        i = i + 1;
    }
    proof {
        assert forall|p: int| n * bits <= p < words@.len() * 64 implies !stream_bit(words@, p) by {
            lemma_trailing_zero(words@, n * bits, p);
        }
    }
    words
}

/// A clean region has no set stream bits.
proof fn lemma_trailing_zero(words: Seq<u64>, pos: int, p: int)
    requires
        0 <= pos <= p < words.len() * 64,
        clean_from(words, pos),
    ensures
        !stream_bit(words, p),
{
    lemma_fundamental_div_mod(pos, 64);
    lemma_fundamental_div_mod(p, 64);
    let wp = p / 64;
    let bp = (p % 64) as u64;
    assert(wp < words.len()) by {
        assert(p < words.len() * 64);
        assert(64 * wp <= p);
    }
    if wp == pos / 64 {
        bv_high_bits_zero(words[wp], (pos % 64) as u64, bp);
    } else {
        assert(wp > pos / 64);
        assert(words[wp] == 0);
        assert((0u64 >> bp) & 1u64 == 0u64) by (bit_vector);
    }
}

/// One packing step where the entry fits inside a single word.
proof fn lemma_encode_step_fit(
    old_words: Seq<u64>,
    new_words: Seq<u64>,
    ids: Seq<u64>,
    bits: u64,
    i: int,
    wi: int,
    off: u64,
    mv: u64,
)
    requires
        2 <= bits <= 32,
        0 <= i < ids.len(),
        (i + 1) * bits <= old_words.len() * 64,
        i * bits == 64 * wi + off,
        0 <= off < 64,
        off + bits <= 64,
        mv == ids[i] & mask64(bits),
        new_words == old_words.update(wi, old_words[wi] | (mv << off)),
        forall|k: int|
            0 <= k < i ==> extract_entry(old_words, bits, k) == ids[k] & mask64(bits),
        clean_from(old_words, i * bits),
    ensures
        forall|k: int|
            0 <= k <= i ==> extract_entry(new_words, bits, k) == ids[k] & mask64(bits),
        clean_from(new_words, (i + 1) * bits),
{
    let m = mask64(bits);
    let v0 = ids[i];
    assert((v0 & m) & m == v0 & m) by (bit_vector)
        requires
            m == (((1u64 << bits) as u64) - 1) as u64,
            2 <= bits <= 32,
    ;
    lemma_fundamental_div_mod_converse(i * bits, 64, wi, off as int);
    assert(wi == (i * bits) / 64 && off == (i * bits) % 64);
    assert((i + 1) * bits == i * bits + bits) by (nonlinear_arith);
    assert(wi < old_words.len()) by {
        assert(64 * wi < old_words.len() * 64);
    }
    // the new entry reads back
    assert(extract_entry(new_words, bits, i) == mv) by {
        bv_fit_new(old_words[wi], mv, off, bits);
    }
    // earlier entries are untouched
    assert forall|k: int| 0 <= k < i implies extract_entry(new_words, bits, k) == ids[k] & mask64(
        bits,
    ) by {
        lemma_entry_preserved(old_words, new_words, bits, k, i, wi, off, mv);
    }
    // the clean region shrinks by one entry
    let pos2 = i * bits + bits;
    if off + bits < 64 {
        lemma_fundamental_div_mod_converse(pos2, 64, wi, off + bits);
        assert(pos2 / 64 == wi && pos2 % 64 == off + bits);
        bv_clean_fit(old_words[wi], mv, off, bits);
        assert(clean_from(new_words, pos2));
    } else {
        assert(pos2 == 64 * (wi + 1));
        lemma_fundamental_div_mod_converse(pos2, 64, wi + 1, 0);
        assert(pos2 / 64 == wi + 1);
        if wi + 1 < new_words.len() {
            assert(old_words[wi + 1] == 0);
            assert(new_words[wi + 1] == 0);
            assert(0u64 >> 0u64 == 0u64) by (bit_vector);
        }
        assert(clean_from(new_words, pos2));
    }
}

/// One packing step where the entry straddles two words.
proof fn lemma_encode_step_straddle(
    old_words: Seq<u64>,
    new_words: Seq<u64>,
    ids: Seq<u64>,
    bits: u64,
    i: int,
    wi: int,
    off: u64,
    mv: u64,
)
    requires
        2 <= bits <= 32,
        0 <= i < ids.len(),
        (i + 1) * bits <= old_words.len() * 64,
        i * bits == 64 * wi + off,
        0 <= off < 64,
        off + bits > 64,
        mv == ids[i] & mask64(bits),
        new_words == old_words.update(wi, old_words[wi] | (mv << off)).update(
            wi + 1,
            old_words.update(wi, old_words[wi] | (mv << off))[wi + 1] | (mv >> ((64 - off) as u64)),
        ),
        forall|k: int|
            0 <= k < i ==> extract_entry(old_words, bits, k) == ids[k] & mask64(bits),
        clean_from(old_words, i * bits),
    ensures
        forall|k: int|
            0 <= k <= i ==> extract_entry(new_words, bits, k) == ids[k] & mask64(bits),
        clean_from(new_words, (i + 1) * bits),
{
    let m = mask64(bits);
    let v0 = ids[i];
    assert((v0 & m) & m == v0 & m) by (bit_vector)
        requires
            m == (((1u64 << bits) as u64) - 1) as u64,
            2 <= bits <= 32,
    ;
    lemma_fundamental_div_mod_converse(i * bits, 64, wi, off as int);
    assert(wi == (i * bits) / 64 && off == (i * bits) % 64);
    assert((i + 1) * bits == i * bits + bits) by (nonlinear_arith);
    assert(wi + 1 < old_words.len()) by {
        assert(64 * (wi + 1) < i * bits + bits);
        assert(64 * (wi + 1) < old_words.len() * 64);
    }
    assert(old_words[wi + 1] == 0);
    let mid = old_words.update(wi, old_words[wi] | (mv << off));
    assert(mid[wi + 1] == 0);
    assert((0u64 | (mv >> ((64 - off) as u64))) == mv >> ((64 - off) as u64)) by (bit_vector);
    assert(new_words[wi] == old_words[wi] | (mv << off));
    assert(new_words[wi + 1] == mv >> ((64 - off) as u64));
    assert(new_words.len() == old_words.len());
    // the new entry reads back from its two words
    assert(extract_entry(new_words, bits, i) == mv) by {
        bv_straddle_new(old_words[wi], mv, off, bits);
    }
    // earlier entries never reach word wi + 1
    assert forall|k: int| 0 <= k < i implies extract_entry(new_words, bits, k) == ids[k] & mask64(
        bits,
    ) by {
        lemma_entry_preserved(old_words, new_words, bits, k, i, wi, off, mv);
    }
    // the clean region starts inside word wi + 1
    let pos2 = i * bits + bits;
    assert(64 * (wi + 1) < pos2 < 64 * (wi + 2));
    lemma_fundamental_div_mod_converse(pos2, 64, wi + 1, off + bits - 64);
    assert(pos2 / 64 == wi + 1 && pos2 % 64 == off + bits - 64);
    bv_clean_straddle(mv, off, bits);
    assert(clean_from(new_words, pos2));
}

/// An entry below the write position reads the same value after a write
/// that only sets bits at or above that position.
proof fn lemma_entry_preserved(
    old_words: Seq<u64>,
    new_words: Seq<u64>,
    bits: u64,
    k: int,
    i: int,
    wi: int,
    off: u64,
    mv: u64,
)
    requires
        2 <= bits <= 32,
        0 <= k < i,
        i * bits == 64 * wi + off,
        0 <= off < 64,
        (i + 1) * bits <= old_words.len() * 64,
        mv & mask64(bits) == mv,
        new_words.len() == old_words.len(),
        wi < old_words.len(),
        new_words[wi] == old_words[wi] | (mv << off),
        forall|w: int| 0 <= w < old_words.len() && w != wi && w != wi + 1 ==> new_words[w] == old_words[w],
        wi + 1 < old_words.len() ==> old_words[wi + 1] == 0,
    ensures
        extract_entry(new_words, bits, k) == extract_entry(old_words, bits, k),
{
    let startk = k * bits;
    let wk = startk / 64;
    let offk = (startk % 64) as u64;
    lemma_fundamental_div_mod(startk, 64);
    assert(startk + bits <= i * bits) by {
        lemma_mul_inequality(k + 1, i, bits as int);
        assert((k + 1) * bits == k * bits + bits) by (nonlinear_arith);
    }
    assert((k + 1) * bits <= old_words.len() * 64) by {
        lemma_mul_inequality(k + 1, i + 1, bits as int);
    }
    assert(0 <= startk) by {
        lemma_mul_inequality(0, k, bits as int);
    }
    if offk + bits <= 64 {
        // entry k lies inside word wk
        if wk != wi {
            assert(wk < wi) by {
                assert(64 * wk <= startk);
            }
            assert(new_words[wk] == old_words[wk]);
        } else {
            assert(offk + bits <= off) by {
                assert(startk + bits <= 64 * wi + off);
            }
            bv_fit_preserve(old_words[wk], mv, off, bits, offk);
        }
    } else {
        // entry k straddles words wk and wk + 1
        assert(startk + bits > 64 * (wk + 1));
        assert(wk + 1 <= wi) by {
            assert(64 * (wk + 1) < startk + bits && startk + bits <= 64 * wi + off);
        }
        if wk + 1 < wi {
            assert(new_words[wk] == old_words[wk] && new_words[wk + 1] == old_words[wk + 1]);
        } else {
            assert(wk + 1 == wi);
            assert(new_words[wk] == old_words[wk]);
            let s = (64 - offk) as u64;
            assert(bits <= s + off) by {
                assert(startk == 64 * wk + offk);
                assert(startk + bits <= 64 * wi + off);
            }
            bv_straddle_preserve(old_words[wk] >> offk, old_words[wi], mv, off, bits, s);
        }
    }
}

/// Reads every entry back out of a packed array; the inverse of
/// `encode_packed` on values that fit the bit width.
pub fn decode_packed(words: &Vec<u64>, bits: u32, count: usize) -> (r: Vec<u64>)
    requires
        2 <= bits <= 32,
        count * bits <= words@.len() * 64,
        count * bits + 63 <= usize::MAX,
    ensures
        r@.len() == count,
        forall|i: int| 0 <= i < count ==> r@[i] == extract_entry(words@, bits as u64, i),
{
    let bits_us: usize = bits as usize;
    let mask: u64 = u64::MAX >> (64 - bits);
    proof {
        let b = bits as u64;
        assert(u64::MAX >> ((64 - b) as u64) == (((1u64 << b) as u64) - 1) as u64) by (bit_vector)
            requires
                2 <= b <= 32,
        ;
    }
    let mut out: Vec<u64> = Vec::new();
    let mut i: usize = 0;
    while i < count
        invariant
            i <= count,
            bits_us == bits,
            2 <= bits <= 32,
            mask == mask64(bits as u64),
            count * bits <= words@.len() * 64,
            count * bits + 63 <= usize::MAX,
            out@.len() == i,
            forall|k: int| 0 <= k < i ==> out@[k] == extract_entry(words@, bits as u64, k),
        decreases count - i,
    {
        proof {
            lemma_mul_inequality(i as int + 1, count as int, bits as int);
            assert((i + 1) * bits == i * bits + bits) by (nonlinear_arith);
            lemma_mul_inequality(i as int, count as int, bits as int);
        }
        let start_bit: usize = i * bits_us;
        let wi: usize = start_bit / 64;
        let off: u32 = (start_bit % 64) as u32;
        proof {
            lemma_fundamental_div_mod(start_bit as int, 64);
            assert(64 * wi <= start_bit);
            assert(wi < words@.len());
        }
        let v: u64;
        if off as usize + bits_us <= 64 {
            v = (words[wi] >> off) & mask;
        } else {
            proof {
                assert(start_bit + bits > 64 * (wi + 1));
                assert(wi + 1 < words@.len());
            }
            v = ((words[wi] >> off) | (words[wi + 1] << (64 - off))) & mask;
        }
        out.push(v);
        i = i + 1;
    }
    out
}


proof fn bv_extract_bit_fit(w: u64, off: u64, bits: u64, b: u64)
    requires
        off + bits <= 64,
        1 <= bits < 64,
        b < bits,
    ensures
        ((w >> ((off + b) as u64)) & 1) == ((((w >> off) & mask64(bits)) >> b) & 1),
{
    assert(((w >> ((off + b) as u64)) & 1) == ((((w >> off) & (((1u64 << bits) as u64)
        - 1) as u64) >> b) & 1)) by (bit_vector)
        requires
            off + bits <= 64,
            1 <= bits < 64,
            b < bits,
    ;
}

proof fn bv_extract_bit_straddle_lo(lo: u64, hi: u64, off: u64, bits: u64, b: u64)
    requires
        off + bits > 64,
        off < 64,
        1 <= bits < 64,
        b < 64 - off,
    ensures
        ((lo >> ((off + b) as u64)) & 1) == (((((lo >> off) | (hi << ((64 - off) as u64)))
            & mask64(bits)) >> b) & 1),
{
    assert(((lo >> ((off + b) as u64)) & 1) == (((((lo >> off) | (hi << ((64 - off) as u64))) & ((
    (1u64 << bits) as u64) - 1) as u64) >> b) & 1)) by (bit_vector)
        requires
            off + bits > 64,
            off < 64,
            1 <= bits < 64,
            b < 64 - off,
    ;
}

proof fn bv_extract_bit_straddle_hi(lo: u64, hi: u64, off: u64, bits: u64, b: u64)
    requires
        off + bits > 64,
        off < 64,
        1 <= bits < 64,
        64 - off <= b < bits,
    ensures
        ((hi >> ((b - (64 - off)) as u64)) & 1) == (((((lo >> off) | (hi << ((64 - off) as u64)))
            & mask64(bits)) >> b) & 1),
{
    assert(((hi >> ((b - (64 - off)) as u64)) & 1) == (((((lo >> off) | (hi << ((64
        - off) as u64))) & (((1u64 << bits) as u64) - 1) as u64) >> b) & 1)) by (bit_vector)
        requires
            off + bits > 64,
            off < 64,
            1 <= bits < 64,
            64 - off <= b < bits,
    ;
}

/// Bit `b` of a packed entry is the stream bit at its position.
proof fn lemma_extract_bit(words: Seq<u64>, bits: u64, i: int, b: int)
    requires
        2 <= bits <= 32,
        0 <= i,
        0 <= b < bits,
        (i + 1) * bits <= words.len() * 64,
    ensures
        stream_bit(words, i * bits + b) == (((extract_entry(words, bits, i) >> (b as u64)) & 1)
            == 1),
{
    let start = i * bits;
    let w = start / 64;
    let off = (start % 64) as u64;
    let p = start + b;
    lemma_fundamental_div_mod(start, 64);
    assert(start >= 0) by {
        lemma_mul_inequality(0, i, bits as int);
    }
    assert(start + bits <= words.len() * 64) by {
        assert((i + 1) * bits == i * bits + bits) by (nonlinear_arith);
    }
    if off + bits <= 64 {
        lemma_fundamental_div_mod_converse(p, 64, w, off + b);
        assert(p / 64 == w && p % 64 == off + b);
        assert(64 * w < words.len() * 64 ==> w < words.len());
        bv_extract_bit_fit(words[w], off, bits, b as u64);
    } else {
        assert(w + 1 < words.len()) by {
            assert(64 * (w + 1) < start + bits);
        }
        if b < 64 - off {
            lemma_fundamental_div_mod_converse(p, 64, w, off + b);
            assert(p / 64 == w && p % 64 == off + b);
            bv_extract_bit_straddle_lo(words[w], words[w + 1], off, bits, b as u64);
        } else {
            lemma_fundamental_div_mod_converse(p, 64, w + 1, off + b - 64);
            assert(p / 64 == w + 1 && p % 64 == off + b - 64);
            bv_extract_bit_straddle_hi(words[w], words[w + 1], off, bits, b as u64);
        }
    }
}

/// Two words that agree on every bit are equal.
proof fn lemma_u64_eq_by_bits(x: u64, y: u64)
    requires
        forall|j: u64| j < 64 ==> ((x >> j) & 1) == ((y >> j) & 1),
    ensures
        x == y,
{
    assert((x >> 63u64) & 1 == x >> 63u64 && (y >> 63u64) & 1 == y >> 63u64) by (bit_vector);
    lemma_u64_eq_from(x, y, 63);
}

proof fn lemma_u64_eq_from(x: u64, y: u64, k: u64)
    requires
        k < 64,
        x >> k == y >> k,
        forall|j: u64| j < 64 ==> ((x >> j) & 1) == ((y >> j) & 1),
    ensures
        x == y,
    decreases k,
{
    if k == 0 {
        assert(x >> 0u64 == x && y >> 0u64 == y) by (bit_vector);
    } else {
        let k1 = (k - 1) as u64;
        assert(x >> k1 == ((x >> k) << 1u64) | ((x >> k1) & 1)) by (bit_vector)
            requires
                0 < k < 64,
                k1 == k - 1,
        ;
        assert(y >> k1 == ((y >> k) << 1u64) | ((y >> k1) & 1)) by (bit_vector)
            requires
                0 < k < 64,
                k1 == k - 1,
        ;
        lemma_u64_eq_from(x, y, k1);
    }
}

/// Concurrency determinism of the packed array: any two word arrays that
/// meet the encoding's contract for the same entries and bit width — the
/// same values read back and the trailing bits clear — are bit-for-bit
/// identical, so neither worker count nor write scheduling can show in
/// the output.
pub proof fn lemma_packed_words_unique(a: Seq<u64>, b: Seq<u64>, ids: Seq<u64>, bits: u64)
    requires
        2 <= bits <= 32,
        a.len() == b.len(),
        ids.len() * bits <= a.len() * 64,
        forall|i: int|
            0 <= i < ids.len() ==> extract_entry(a, bits, i) == ids[i] & mask64(bits),
        forall|i: int|
            0 <= i < ids.len() ==> extract_entry(b, bits, i) == ids[i] & mask64(bits),
        forall|p: int| ids.len() * bits <= p < a.len() * 64 ==> !stream_bit(a, p),
        forall|p: int| ids.len() * bits <= p < b.len() * 64 ==> !stream_bit(b, p),
    ensures
        a == b,
{
    let n = ids.len() as int;
    assert forall|w: int| 0 <= w < a.len() implies a[w] == b[w] by {
        let x = a[w];
        let y = b[w];
        assert forall|j: u64| j < 64 implies ((x >> j) & 1) == ((y >> j) & 1) by {
            let p = w * 64 + j;
            lemma_fundamental_div_mod_converse(p, 64, w, j as int);
            assert(p / 64 == w && p % 64 == j);
            assert(p < a.len() * 64);
            assert((x >> j) & 1 == 0 || (x >> j) & 1 == 1) by (bit_vector);
            assert((y >> j) & 1 == 0 || (y >> j) & 1 == 1) by (bit_vector);
            if p < n * bits {
                lemma_fundamental_div_mod(p, bits as int);
                let i = p / (bits as int);
                let bo = p % (bits as int);
                assert(0 <= i) by {
                    if i < 0 {
                        assert(i * bits <= -1 * bits) by (nonlinear_arith)
                            requires
                                i <= -1,
                                bits >= 2,
                        ;
                    }
                }
                assert(i < n) by {
                    if i >= n {
                        lemma_mul_inequality(n, i, bits as int);
                    }
                }
                assert((i + 1) * bits <= n * bits) by {
                    lemma_mul_inequality(i + 1, n, bits as int);
                }
                lemma_extract_bit(a, bits, i, bo);
                lemma_extract_bit(b, bits, i, bo);
                assert(stream_bit(a, p) == stream_bit(b, p));
            } else {
                assert(!stream_bit(a, p) && !stream_bit(b, p));
            }
            assert(((x >> j) & 1 == 1) == stream_bit(a, p));
            assert(((y >> j) & 1 == 1) == stream_bit(b, p));
        }
        lemma_u64_eq_by_bits(x, y);
    }
    assert(a =~= b);
}

} // verus!
