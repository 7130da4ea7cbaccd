//! Palette-compressed chunk storage.
//!
//! Each chunk keeps a small `palette` of the distinct blocks it actually uses
//! and a tightly bit-packed array of indices into that palette. A chunk made
//! of a single block collapses to `bits == 0` and stores no per-voxel data at
//! all; as more block types are introduced the index width grows just enough
//! to address the palette.

use crate::block::BlockId;
use crate::coords::{LocalPos, CHUNK_VOLUME, local_index};
use vstd::prelude::*;
use vstd::arithmetic::power2::{pow2, lemma_pow2_strictly_increases, lemma_pow2_pos, lemma2_to64};
use vstd::bits::{lemma_u64_shl_is_mul, lemma_u64_pow2_no_overflow, lemma_usize_shl_is_mul, lemma_usize_pow2_no_overflow};
use vstd::arithmetic::div_mod::lemma_fundamental_div_mod;
use vstd::relations::injective;
use vstd::bytes::{u16_to_le_bytes, u32_to_le_bytes, u64_to_le_bytes, u16_from_le_bytes, u32_from_le_bytes, u64_from_le_bytes};
use vstd::slice::slice_subrange;
use vstd::layout::{size_of, layout_of_primitives};
use vstd::bytes::{
    spec_u16_to_le_bytes, spec_u16_from_le_bytes, spec_u32_to_le_bytes, spec_u32_from_le_bytes,
    spec_u64_to_le_bytes, spec_u64_from_le_bytes, lemma_auto_spec_u16_to_from_le_bytes,
    lemma_auto_spec_u32_to_from_le_bytes, lemma_auto_spec_u64_to_from_le_bytes,
};
use vstd::set_lib::{set_int_range, lemma_int_range, lemma_len_subset};
use vstd::std_specs::bits::{u64_leading_zeros, axiom_u64_leading_zeros};

verus! {

/// Number of `bits`-wide entries packed into one 64-bit word.
pub open spec fn per_word(bits: int) -> int {
    64int / bits
}

/// Number of words holding `CHUNK_VOLUME` entries of width `bits`.
pub open spec fn words_for(bits: int) -> int {
    if bits == 0 {
        0
    } else {
        (32768 + per_word(bits) - 1) / per_word(bits)
    }
}

/// The low `bits` bits set.
pub open spec fn low_mask(bits: u32) -> u64 {
    ((1u64 << bits) - 1) as u64
}

/// The `bits`-wide field of `word` starting at bit `shift`.
pub open spec fn slot(word: u64, shift: u32, bits: u32) -> u64 {
    (word >> shift) & low_mask(bits)
}

/// Bit offset of entry `i` within its word.
pub open spec fn slot_shift(bits: u32, i: int) -> u32 {
    ((i % per_word(bits as int)) * bits) as u32
}

/// The packed palette index of voxel `i`.
pub open spec fn entry(data: Seq<u64>, bits: u32, i: int) -> u64 {
    slot(data[i / per_word(bits as int)], slot_shift(bits, i), bits)
}

/// `word` with the field at `shift` replaced by `v`.
pub open spec fn put_slot(word: u64, shift: u32, bits: u32, v: u64) -> u64 {
    (word & !(low_mask(bits) << shift)) | (v << shift)
}

/// `b` is the smallest index width able to address `n` palette entries:
/// `0` for at most one entry, otherwise the least `b` with `n <= 2^b`.
pub open spec fn minimal_width(n: nat, b: nat) -> bool {
    if n <= 1 {
        b == 0
    } else {
        b >= 1 && n <= pow2(b) && pow2((b - 1) as nat) < n
    }
}

/// The smallest index width for `n` palette entries.
pub open spec fn width_for(n: nat) -> nat {
    choose|b: nat| minimal_width(n, b)
}

/// At most one width is minimal for a given palette size.
pub proof fn lemma_minimal_width_unique(n: nat, b1: nat, b2: nat)
    requires
        minimal_width(n, b1),
        minimal_width(n, b2),
    ensures
        b1 == b2,
{
    if n > 1 {
        if b1 < b2 {
            if b1 < (b2 - 1) as nat {
                lemma_pow2_strictly_increases(b1, (b2 - 1) as nat);
            }
        } else if b2 < b1 {
            if b2 < (b1 - 1) as nat {
                lemma_pow2_strictly_increases(b2, (b1 - 1) as nat);
            }
        }
    }
}

proof fn lemma_width_for(n: nat, b: nat)
    requires
        minimal_width(n, b),
    ensures
        width_for(n) == b,
{
    let w = width_for(n);
    assert(minimal_width(n, w));
    lemma_minimal_width_unique(n, b, w);
}

/// A duplicate-free palette that lacks `b` has room for it below the
/// 65536 distinct block ids.
proof fn lemma_palette_room(p: Seq<BlockId>, b: BlockId)
    requires
        p.no_duplicates(),
        !p.contains(b),
    ensures
        p.len() < 65536,
{
    let q = p.push(b);
    assert forall|i: int, j: int| 0 <= i < q.len() && 0 <= j < q.len() && i != j implies q[i]
        != q[j] by {
        if i == p.len() as int {
            assert(p[j] == q[j]);
        } else if j == p.len() as int {
            assert(p[i] == q[i]);
        }
    }
    let f = |x: BlockId| x.0 as int;
    assert(injective(f));
    q.lemma_no_duplicates_injective(f);
    let m = q.map_values(f);
    m.unique_seq_to_set();
    assert(m.to_set().subset_of(set_int_range(0, 65536)));
    lemma_int_range(0, 65536);
    lemma_len_subset(m.to_set(), set_int_range(0, 65536));
}

// ---------------------------------------------------------------------------
// Byte encoding.

/// Little-endian `u16` encodings of the ids, concatenated.
pub open spec fn ids_le(s: Seq<BlockId>) -> Seq<u8>
    decreases s.len(),
{
    if s.len() == 0 {
        Seq::empty()
    } else {
        ids_le(s.drop_last()) + spec_u16_to_le_bytes(s.last().0)
    }
}

/// Little-endian encodings of the words, concatenated.
pub open spec fn words_le(s: Seq<u64>) -> Seq<u8>
    decreases s.len(),
{
    if s.len() == 0 {
        Seq::empty()
    } else {
        words_le(s.drop_last()) + spec_u64_to_le_bytes(s.last())
    }
}

/// The serialised form `[bits u32][palette_len u32][palette: u16…][data_len
/// u32][data: u64…]`, all little-endian.
pub open spec fn encode_parts(bits: u32, palette: Seq<BlockId>, data: Seq<u64>) -> Seq<u8> {
    spec_u32_to_le_bytes(bits) + spec_u32_to_le_bytes(palette.len() as u32) + ids_le(palette)
        + spec_u32_to_le_bytes(data.len() as u32) + words_le(data)
}

proof fn lemma_ids_le(s: Seq<BlockId>)
    ensures
        ids_le(s).len() == 2 * s.len(),
        forall|k: int|
            0 <= k < s.len() ==> #[trigger] ids_le(s).subrange(2 * k, 2 * k + 2)
                == spec_u16_to_le_bytes(s[k].0),
    decreases s.len(),
{
    lemma_auto_spec_u16_to_from_le_bytes();
    if s.len() > 0 {
        let t = s.drop_last();
        lemma_ids_le(t);
        let a = ids_le(t);
        let b = spec_u16_to_le_bytes(s.last().0);
        assert forall|k: int| 0 <= k < s.len() implies #[trigger] ids_le(s).subrange(
            2 * k,
            2 * k + 2,
        ) == spec_u16_to_le_bytes(s[k].0) by {
            if k < t.len() {
                assert(ids_le(s).subrange(2 * k, 2 * k + 2) =~= a.subrange(2 * k, 2 * k + 2));
                assert(t[k] == s[k]);
            } else {
                assert(ids_le(s).subrange(2 * k, 2 * k + 2) =~= b);
            }
        }
    }
}

proof fn lemma_words_le(s: Seq<u64>)
    ensures
        words_le(s).len() == 8 * s.len(),
        forall|k: int|
            0 <= k < s.len() ==> #[trigger] words_le(s).subrange(8 * k, 8 * k + 8)
                == spec_u64_to_le_bytes(s[k]),
    decreases s.len(),
{
    lemma_auto_spec_u64_to_from_le_bytes();
    if s.len() > 0 {
        let t = s.drop_last();
        lemma_words_le(t);
        let a = words_le(t);
        let b = spec_u64_to_le_bytes(s.last());
        assert forall|k: int| 0 <= k < s.len() implies #[trigger] words_le(s).subrange(
            8 * k,
            8 * k + 8,
        ) == spec_u64_to_le_bytes(s[k]) by {
            if k < t.len() {
                assert(words_le(s).subrange(8 * k, 8 * k + 8) =~= a.subrange(8 * k, 8 * k + 8));
                assert(t[k] == s[k]);
            } else {
                assert(words_le(s).subrange(8 * k, 8 * k + 8) =~= b);
            }
        }
    }
}

/// Field-by-field reading of an encoding that is a prefix of `bytes`.
proof fn lemma_read_encoding(bits: u32, palette: Seq<BlockId>, data: Seq<u64>, bytes: Seq<u8>)
    requires
        palette.len() <= u32::MAX,
        data.len() <= 32768,
        encode_parts(bits, palette, data).len() <= bytes.len(),
        bytes.subrange(0, encode_parts(bits, palette, data).len() as int) == encode_parts(
            bits,
            palette,
            data,
        ),
    ensures
        encode_parts(bits, palette, data).len() == 12 + 2 * palette.len() + 8 * data.len(),
        spec_u32_from_le_bytes(bytes.subrange(0, 4)) == bits,
        spec_u32_from_le_bytes(bytes.subrange(4, 8)) == palette.len(),
        forall|k: int|
            0 <= k < palette.len() ==> spec_u16_from_le_bytes(
                #[trigger] bytes.subrange(8 + 2 * k, 8 + 2 * k + 2),
            ) == palette[k].0,
        spec_u32_from_le_bytes(bytes.subrange(8 + 2 * (palette.len() as int), 12 + 2 * (palette.len() as int)))
            == data.len(),
        forall|k: int|
            0 <= k < data.len() ==> spec_u64_from_le_bytes(
                #[trigger] bytes.subrange(12 + 2 * (palette.len() as int) + 8 * k, 12 + 2 * (palette.len() as int) + 8 * k + 8),
            ) == data[k],
{
    lemma_auto_spec_u16_to_from_le_bytes();
    lemma_auto_spec_u32_to_from_le_bytes();
    lemma_auto_spec_u64_to_from_le_bytes();
    lemma_ids_le(palette);
    lemma_words_le(data);
    let e = encode_parts(bits, palette, data);
    let p = palette.len() as int;
    let a = spec_u32_to_le_bytes(bits);
    let b = spec_u32_to_le_bytes(palette.len() as u32);
    let c = ids_le(palette);
    let d = spec_u32_to_le_bytes(data.len() as u32);
    let f = words_le(data);
    assert(e == a + b + c + d + f);
    assert(e.len() == 12 + 2 * p + 8 * data.len());
    assert(bytes.subrange(0, 4) =~= e.subrange(0, 4));
    assert(e.subrange(0, 4) =~= a);
    assert(bytes.subrange(4, 8) =~= e.subrange(4, 8));
    assert(e.subrange(4, 8) =~= b);
    assert forall|k: int| 0 <= k < p implies spec_u16_from_le_bytes(
        #[trigger] bytes.subrange(8 + 2 * k, 8 + 2 * k + 2),
    ) == palette[k].0 by {
        assert(bytes.subrange(8 + 2 * k, 8 + 2 * k + 2) =~= e.subrange(8 + 2 * k, 8 + 2 * k + 2));
        assert(e.subrange(8 + 2 * k, 8 + 2 * k + 2) =~= c.subrange(2 * k, 2 * k + 2));
    }
    assert(bytes.subrange(8 + 2 * p, 12 + 2 * p) =~= e.subrange(8 + 2 * p, 12 + 2 * p));
    assert(e.subrange(8 + 2 * p, 12 + 2 * p) =~= d);
    assert forall|k: int| 0 <= k < data.len() implies spec_u64_from_le_bytes(
        #[trigger] bytes.subrange(12 + 2 * p + 8 * k, 12 + 2 * p + 8 * k + 8),
    ) == data[k] by {
        assert(bytes.subrange(12 + 2 * p + 8 * k, 12 + 2 * p + 8 * k + 8) =~= e.subrange(
            12 + 2 * p + 8 * k,
            12 + 2 * p + 8 * k + 8,
        ));
        assert(e.subrange(12 + 2 * p + 8 * k, 12 + 2 * p + 8 * k + 8) =~= f.subrange(
            8 * k,
            8 * k + 8,
        ));
    }
}


// ---------------------------------------------------------------------------
// Facts about filtering the palette.

/// The blocks of `view` that appear in it at least once.
pub open spec fn occurs_in(view: Seq<BlockId>) -> spec_fn(BlockId) -> bool {
    |b: BlockId| view.contains(b)
}

proof fn lemma_filter_step(s: Seq<BlockId>, pred: spec_fn(BlockId) -> bool, k: int)
    requires
        0 <= k < s.len(),
    ensures
        s.take(k + 1).filter(pred) == (if pred(s[k]) {
            s.take(k).filter(pred).push(s[k])
        } else {
            s.take(k).filter(pred)
        }),
{
    reveal(Seq::filter);
    assert(s.take(k + 1).drop_last() =~= s.take(k));
    assert(s.take(k + 1).last() == s[k]);
}

proof fn lemma_filter_members(s: Seq<BlockId>, pred: spec_fn(BlockId) -> bool)
    ensures
        forall|i: int|
            0 <= i < s.filter(pred).len() ==> pred(#[trigger] s.filter(pred)[i]) && s.contains(
                s.filter(pred)[i],
            ),
        forall|i: int| 0 <= i < s.len() && pred(s[i]) ==> #[trigger] s.filter(pred).contains(s[i]),
        s.no_duplicates() ==> s.filter(pred).no_duplicates(),
    decreases s.len(),
{
    reveal(Seq::filter);
    if s.len() > 0 {
        let t = s.drop_last();
        lemma_filter_members(t, pred);
        let ft = t.filter(pred);
        let fs = s.filter(pred);
        assert forall|i: int| 0 <= i < fs.len() implies pred(#[trigger] fs[i]) && s.contains(
            fs[i],
        ) by {
            if i < ft.len() {
                assert(fs[i] == ft[i]);
                let m = choose|m: int| 0 <= m < t.len() && t[m] == ft[i];
                assert(s[m] == t[m]);
            } else {
                assert(fs[i] == s.last());
                assert(s[s.len() - 1] == s.last());
            }
        }
        assert forall|i: int| 0 <= i < s.len() && pred(s[i]) implies #[trigger] fs.contains(s[i]) by {
            if i < t.len() {
                assert(t[i] == s[i]);
                assert(ft.contains(t[i]));
                let m = choose|m: int| 0 <= m < ft.len() && ft[m] == t[i];
                assert(fs[m] == ft[m]);
            } else {
                assert(fs[fs.len() - 1] == s[i]);
            }
        }
        if s.no_duplicates() {
            assert(t.no_duplicates());
            if pred(s.last()) {
                assert(!ft.contains(s.last())) by {
                    if ft.contains(s.last()) {
                        let m = choose|m: int| 0 <= m < ft.len() && ft[m] == s.last();
                        let q = choose|q: int| 0 <= q < t.len() && t[q] == ft[m];
                        assert(s[q] == s[s.len() - 1]);
                    }
                }
                assert forall|a: int, b: int| 0 <= a < b < fs.len() implies fs[a] != fs[b] by {
                    if b == fs.len() - 1 {
                        assert(fs[a] == ft[a]);
                        assert(ft.contains(ft[a]));
                    } else {
                        assert(fs[a] == ft[a]);
                        assert(fs[b] == ft[b]);
                    }
                }
            }
        }
    }
}

proof fn lemma_filter_all(s: Seq<BlockId>, pred: spec_fn(BlockId) -> bool)
    requires
        forall|i: int| 0 <= i < s.len() ==> pred(#[trigger] s[i]),
    ensures
        s.filter(pred) == s,
    decreases s.len(),
{
    reveal(Seq::filter);
    if s.len() > 0 {
        let t = s.drop_last();
        assert forall|i: int| 0 <= i < t.len() implies pred(#[trigger] t[i]) by {
            assert(t[i] == s[i]);
        }
        lemma_filter_all(t, pred);
        assert(pred(s[s.len() - 1]));
        assert(t.push(s.last()) =~= s);
    }
}

// ---------------------------------------------------------------------------
// Bit-level facts about packed fields.

proof fn lemma_put_slot_same(w: u64, s: u32, b: u32, v: u64)
    requires
        1 <= b <= 63,
        s + b <= 64,
        v < (1u64 << b),
    ensures
        slot(put_slot(w, s, b, v), s, b) == v,
{
    assert(((((w & !((((1u64 << b) - 1) as u64) << s)) | (v << s)) >> s) & (((1u64 << b)
        - 1) as u64)) == v) by (bit_vector)
        requires
            1 <= b <= 63,
            s + b <= 64,
            v < (1u64 << b),
    ;
}

proof fn lemma_put_slot_other(w: u64, s: u32, t: u32, b: u32, v: u64)
    requires
        1 <= b <= 63,
        s + b <= 64,
        t + b <= 64,
        s + b <= t || t + b <= s,
        v < (1u64 << b),
    ensures
        slot(put_slot(w, s, b, v), t, b) == slot(w, t, b),
{
    assert(((((w & !((((1u64 << b) - 1) as u64) << s)) | (v << s)) >> t) & (((1u64 << b)
        - 1) as u64)) == ((w >> t) & (((1u64 << b) - 1) as u64))) by (bit_vector)
        requires
            1 <= b <= 63,
            s + b <= 64,
            t + b <= 64,
            s + b <= t || t + b <= s,
            v < (1u64 << b),
    ;
}

proof fn lemma_or_into_empty_slot(w: u64, s: u32, b: u32, v: u64)
    requires
        1 <= b <= 63,
        s + b <= 64,
        v < (1u64 << b),
        slot(w, s, b) == 0,
    ensures
        w | (v << s) == put_slot(w, s, b, v),
{
    assert(w | (v << s) == ((w & !((((1u64 << b) - 1) as u64) << s)) | (v << s))) by (bit_vector)
        requires
            1 <= b <= 63,
            s + b <= 64,
            v < (1u64 << b),
            ((w >> s) & (((1u64 << b) - 1) as u64)) == 0,
    ;
}

proof fn lemma_slot_bounds(w: u64, s: u32, b: u32)
    requires
        1 <= b <= 63,
    ensures
        slot(w, s, b) < (1u64 << b),
        slot(0, s, b) == 0,
        (1u64 << b) as nat == pow2(b as nat),
        (1u64 << b) >= 2,
{
    assert(((w >> s) & (((1u64 << b) - 1) as u64)) < (1u64 << b)) by (bit_vector)
        requires
            1 <= b <= 63,
    ;
    assert(((0u64 >> s) & (((1u64 << b) - 1) as u64)) == 0) by (bit_vector);
    assert((1u64 << b) >= 2) by (bit_vector)
        requires
            1 <= b <= 63,
    ;
    lemma_u64_pow2_no_overflow(b as nat);
    lemma_u64_shl_is_mul(1, b as u64);
    assert((1u64 << b) == (1u64 << (b as u64))) by (bit_vector)
        requires
            b <= 63,
    ;
}

/// Slot geometry: entry `i` sits in word `i / e` at offset `(i % e) * b`,
/// inside the word and inside the data.
proof fn lemma_slot_geometry(b: u32, i: int)
    requires
        1 <= b <= 63,
        0 <= i < 32768,
    ensures
        per_word(b as int) >= 1,
        0 <= i / per_word(b as int) < words_for(b as int),
        (i % per_word(b as int)) * b + b <= 64,
        slot_shift(b, i) as int == (i % per_word(b as int)) * b,
{
    let e = per_word(b as int);
    assert(e >= 1 && e * b <= 64) by (nonlinear_arith)
        requires
            1 <= b <= 63,
            e == 64int / (b as int),
    ;
    assert(0 <= i % e < e);
    assert((i % e) * b + b <= 64) by (nonlinear_arith)
        requires
            0 <= i % e < e,
            e * b <= 64,
            b >= 1,
    ;
    assert(0 <= i / e < (32768 + e - 1) / e) by (nonlinear_arith)
        requires
            e >= 1,
            0 <= i < 32768,
    ;
    assert(0 <= (i % e) * b) by (nonlinear_arith)
        requires
            0 <= i % e,
            b >= 1,
    ;
}

proof fn lemma_words_for_bound(b: u32)
    requires
        b <= 64,
    ensures
        0 <= words_for(b as int) <= 32768,
{
    if b > 0 {
        let e = per_word(b as int);
        assert(e >= 1) by (nonlinear_arith)
            requires
                1 <= b <= 64,
                e == 64int / (b as int),
        ;
        assert((32768 + e - 1) / e <= 32768) by (nonlinear_arith)
            requires
                e >= 1,
        ;
    }
}

/// Two distinct entries in the same word occupy disjoint fields.
proof fn lemma_slots_disjoint(b: u32, i: int, j: int)
    requires
        1 <= b <= 63,
        0 <= i < 32768,
        0 <= j < 32768,
        i != j,
        i / per_word(b as int) == j / per_word(b as int),
    ensures
        slot_shift(b, i) + b <= slot_shift(b, j) || slot_shift(b, j) + b <= slot_shift(b, i),
{
    lemma_slot_geometry(b, i);
    lemma_slot_geometry(b, j);
    let e = per_word(b as int);
    assert(i % e != j % e) by {
        lemma_fundamental_div_mod(i, e);
        lemma_fundamental_div_mod(j, e);
    }
    let ki = i % e;
    let kj = j % e;
    assert(ki * b + b <= kj * b || kj * b + b <= ki * b) by (nonlinear_arith)
        requires
            ki != kj,
            ki >= 0,
            kj >= 0,
            b >= 1,
    ;
}

// ---------------------------------------------------------------------------

/// Storage for the blocks of one chunk.
///
/// Invariants (see [`ChunkStorage::wf`]):
/// * `palette` is never empty and holds no block twice; `palette[0]` is the
///   fill block.
/// * `bits` is the smallest width addressing the palette: `bits == 0` ⇔
///   `data` is empty ⇔ the palette has exactly one entry, and then every
///   voxel is `palette[0]`.
/// * otherwise `data` holds `CHUNK_VOLUME` indices of `bits` width each,
///   packed into `u64` words without straddling word boundaries, and every
///   index addresses the palette.
#[derive(Clone)]
pub struct ChunkStorage {
    palette: Vec<BlockId>,
    data: Vec<u64>,
    bits: u32,
}

impl View for ChunkStorage {
    type V = Seq<BlockId>;

    /// The block of every voxel, by linear index.
    closed spec fn view(&self) -> Seq<BlockId> {
        Seq::new(32768, |i: int| self.block_spec(i))
    }
}

fn entries_per_word(bits: u32) -> (r: usize)
    requires
        bits > 0,
    ensures
        r == per_word(bits as int),
{
    (64 / bits) as usize
}

fn words_needed(bits: u32) -> (r: usize)
    requires
        bits <= 64,
    ensures
        r == words_for(bits as int),
{
    if bits == 0 {
        0
    } else {
        let epw = entries_per_word(bits);
        assert(epw >= 1) by (nonlinear_arith)
            requires
                epw == 64int / (bits as int),
                1 <= bits <= 64,
        ;
        (CHUNK_VOLUME + epw - 1) / epw
    }
}

/// Smallest index width that can address `palette_len` distinct entries.
fn bits_for(palette_len: usize) -> (r: u32)
    requires
        palette_len <= 0x8000_0000_0000_0000,
    ensures
        minimal_width(palette_len as nat, r as nat),
        r as nat == width_for(palette_len as nat),
        r <= 63,
{
    let r = bits_for_impl(palette_len);
    proof {
        lemma_width_for(palette_len as nat, r as nat);
    }
    r
}

fn bits_for_impl(palette_len: usize) -> (r: u32)
    requires
        palette_len <= 0x8000_0000_0000_0000,
    ensures
        minimal_width(palette_len as nat, r as nat),
        r <= 63,
{
    if palette_len <= 1 {
        0
    } else {
        let x = (palette_len - 1) as u64;
        let lz = x.leading_zeros();
        let b = 64 - lz;
        proof {
            lemma_width_of_leading_zeros(x, lz, b);
        }
        if b > 1 {
            b
        } else {
            1
        }
    }
}

proof fn lemma_width_of_leading_zeros(x: u64, lz: u32, b: u32)
    requires
        1 <= x < 0x8000_0000_0000_0000,
        lz as int == u64_leading_zeros(x),
        b == 64 - lz,
    ensures
        1 <= b <= 63,
        x + 1 <= pow2(b as nat),
        pow2((b - 1) as nat) < x + 1,
{
    axiom_u64_leading_zeros(x);
    let l = lz as u64;
    let hi = (64 - l) as u64;
    let top = (63 - l) as u64;
    assert(l < 64);
    assert((x >> top) & 1u64 != 0u64);
    assert(x >> hi == 0);
    assert(1 <= l <= 63 && x < (1u64 << hi) && (1u64 << top) <= x) by (bit_vector)
        requires
            1 <= x < 0x8000_0000_0000_0000,
            l < 64,
            hi == 64 - l,
            top == 63 - l,
            (x >> top) & 1u64 != 0u64,
            x >> hi == 0,
    ;
    lemma_u64_pow2_no_overflow(hi as nat);
    lemma_u64_pow2_no_overflow(top as nat);
    lemma_u64_shl_is_mul(1, hi);
    lemma_u64_shl_is_mul(1, top);
}


/// `s` is a decodable storage whose encoding begins `bytes`.
pub open spec fn encodes_prefix(s: ChunkStorage, bytes: Seq<u8>) -> bool {
    &&& s.decodable()
    &&& s.encoding().len() <= bytes.len()
    &&& bytes.subrange(0, s.encoding().len() as int) == s.encoding()
}

/// The bytes that a palette reserving `pc` entries and packed words
/// reserving `dc` words occupy.
pub open spec fn reserved_bytes(pc: int, dc: int) -> int {
    pc * size_of::<BlockId>() + dc * 8
}

/// `r` is a possible footprint of `s`: the bytes of some palette capacity
/// and word capacity that cover the palette and the words the index width
/// needs, each within `isize::MAX` bytes.
pub open spec fn footprint_of(s: ChunkStorage, r: int) -> bool {
    exists|pc: int, dc: int|
        #[trigger] reserved_bytes(pc, dc) == r && pc >= s.palette_spec().len() && dc >= words_for(
            s.bits_spec() as int,
        ) && pc * size_of::<BlockId>() <= isize::MAX && dc * 8 <= isize::MAX
}

/// Calls `Vec::capacity`. The capacity is whatever the allocator reserved;
/// what is stated is only what std guarantees of every vector: it covers the
/// length, and the reserved bytes never exceed `isize::MAX`.
#[verifier::external_body]
fn capacity_of<T>(v: &Vec<T>) -> (r: usize)
    ensures
        r >= v@.len(),
        r * size_of::<T>() <= isize::MAX,
{
    v.capacity()
}

/// No block occurs twice in the palette.
fn palette_is_distinct(palette: &Vec<BlockId>) -> (r: bool)
    requires
        palette@.len() <= 65536,
    ensures
        r == palette@.no_duplicates(),
{
    let mut seen: Vec<bool> = vec![false; 65536];
    let mut k: usize = 0;
    while k < palette.len()
        invariant
            k <= palette@.len(),
            seen@.len() == 65536,
            forall|v: int|
                0 <= v < 65536 ==> (#[trigger] seen@[v] <==> exists|m: int|
                    0 <= m < k && palette@[m].0 == v),
            forall|a: int, b: int| 0 <= a < b < k ==> palette@[a] != palette@[b],
        decreases palette@.len() - k,
    {
        let v = palette[k].0 as usize;
        if seen[v] {
            proof {
                let m = choose|m: int| 0 <= m < k && palette@[m].0 == v;
                assert(palette@[m] == palette@[k as int]);
            }
            return false;
        }
        seen.set(v, true);
        proof {
            assert forall|a: int, b: int| 0 <= a < b < k + 1 implies palette@[a] != palette@[b] by {
                if b == k as int {
                    if palette@[a] == palette@[b] {
                        assert(seen@[v as int] == false);
                    }
                }
            }
            assert forall|u: int| 0 <= u < 65536 implies (#[trigger] seen@[u] <==> exists|m: int|
                0 <= m < k + 1 && palette@[m].0 == u) by {
                if u == v as int {
                    assert(palette@[k as int].0 == u);
                } else {
                    if exists|m: int| 0 <= m < k + 1 && palette@[m].0 == u {
                        let m = choose|m: int| 0 <= m < k + 1 && palette@[m].0 == u;
                        assert(m != k as int);
                    }
                }
            }
        }
        k = k + 1;
    }
    true
}

impl ChunkStorage {
    /// The palette, in slot order.
    pub closed spec fn palette_spec(&self) -> Seq<BlockId> {
        self.palette@
    }

    /// The current index width in bits.
    pub closed spec fn bits_spec(&self) -> nat {
        self.bits as nat
    }

    /// The packed index words.
    pub closed spec fn data_spec(&self) -> Seq<u64> {
        self.data@
    }

    /// The block of voxel `i` under the current representation.
    closed spec fn block_spec(&self, i: int) -> BlockId {
        if self.bits == 0 {
            self.palette@[0]
        } else {
            self.palette@[entry(self.data@, self.bits, i) as int]
        }
    }

    closed spec fn entries_valid(&self) -> bool {
        forall|i: int| 0 <= i < 32768 ==> #[trigger] entry(self.data@, self.bits, i) < self.palette@.len()
    }

    /// Representation invariant.
    pub closed spec fn wf(&self) -> bool {
        &&& 1 <= self.palette@.len() <= 65536
        &&& self.palette@.no_duplicates()
        &&& self.bits <= 63
        &&& minimal_width(self.palette@.len(), self.bits as nat)
        &&& self.bits == 0 ==> self.data@.len() == 0 && self.palette@.len() == 1
        &&& self.bits > 0 ==> {
            &&& self.data@.len() == words_for(self.bits as int)
            &&& self.palette@.len() <= pow2(self.bits as nat)
            &&& self.entries_valid()
        }
    }

    /// Every voxel can be read: the storage is well formed, or at least
    /// decodable with an index width below 64 and every packed index inside
    /// the palette.
    pub open spec fn readable(&self) -> bool {
        self.wf() || self.indices_readable()
    }

    /// Decodable, with an index width below 64 and every packed index
    /// inside the palette.
    pub closed spec fn indices_readable(&self) -> bool {
        &&& self.decodable()
        &&& self.bits <= 63
        &&& self.bits > 0 ==> self.entries_valid()
    }

    /// A chunk entirely filled with `fill` (no per-voxel allocation).
    pub fn filled(fill: BlockId) -> (r: Self)
        ensures
            r.wf(),
            r@ == Seq::new(32768, |i: int| fill),
            r.palette_spec() == seq![fill],
            r.bits_spec() == 0,
    {
        let r = ChunkStorage { palette: vec![fill], data: Vec::new(), bits: 0 };
        assert(r.palette@.no_duplicates());
        assert(r@ =~= Seq::new(32768, |i: int| fill));
        r
    }

    /// An all-air chunk.
    pub fn empty() -> (r: Self)
        ensures
            r.wf(),
            r@ == Seq::new(32768, |i: int| BlockId(0)),
            r.palette_spec() == seq![BlockId(0)],
            r.bits_spec() == 0,
    {
        Self::filled(BlockId(0))
    }

    /// True when the storage is in its uniform (single-block, no per-voxel
    /// data) representation; every voxel is then the same block.
    pub fn is_uniform(&self) -> (r: bool)
        requires
            self.readable(),
        ensures
            r == (self.bits_spec() == 0),
            r ==> forall|i: int| 0 <= i < 32768 ==> self@[i] == self.palette_spec()[0],
    {
        self.bits == 0
    }

    /// If uniform, the single block; otherwise `None`.
    pub fn uniform_block(&self) -> (r: Option<BlockId>)
        requires
            self.readable(),
        ensures
            r == (if self.bits_spec() == 0 {
                Some(self.palette_spec()[0])
            } else {
                None
            }),
            r matches Some(b) ==> forall|i: int| 0 <= i < 32768 ==> self@[i] == b,
    {
        if self.bits == 0 {
            Some(self.palette[0])
        } else {
            None
        }
    }

    pub fn get(&self, pos: LocalPos) -> (r: BlockId)
        requires
            self.readable(),
            pos.wf(),
        ensures
            r == self@[local_index(pos.x as int, pos.y as int, pos.z as int)],
    {
        self.get_index(pos.index())
    }

    /// The block of voxel `i`.
    pub fn get_index(&self, i: usize) -> (r: BlockId)
        requires
            self.readable(),
            i < CHUNK_VOLUME,
        ensures
            r == self@[i as int],
    {
        if self.bits == 0 {
            return self.palette[0];
        }
        let epw = entries_per_word(self.bits);
        proof {
            lemma_slot_geometry(self.bits, i as int);
            lemma_slot_bounds(0, 0, self.bits);
        }
        let word = self.data[i / epw];
        let shift = (i % epw) as u32 * self.bits;
        let mask = (1u64 << self.bits) - 1;
        let palette_idx = ((word >> shift) & mask) as usize;
        assert(palette_idx == entry(self.data@, self.bits, i as int));
        assert(entry(self.data@, self.bits, i as int) < self.palette@.len());
        self.palette[palette_idx]
    }


    /// The serialised form of this storage (see [`encode_parts`]).
    pub closed spec fn encoding(&self) -> Seq<u8> {
        encode_parts(self.bits, self.palette@, self.data@)
    }

    /// What the byte layout alone demands of a storage: a non-empty palette
    /// whose length fits its `u32` field, an index width of at most 64 bits,
    /// and exactly as many data words as that width needs.
    pub closed spec fn decodable(&self) -> bool {
        &&& 1 <= self.palette@.len() <= u32::MAX
        &&& self.bits <= 64
        &&& self.data@.len() == words_for(self.bits as int)
    }

    /// Number of distinct block types currently in the palette.
    pub fn palette_len(&self) -> (r: usize)
        ensures
            r == self.palette_spec().len(),
    {
        self.palette.len()
    }

    pub fn bits_per_voxel(&self) -> (r: u32)
        ensures
            r == self.bits_spec(),
    {
        self.bits
    }

    /// Approximate heap footprint of this chunk's voxel data, in bytes: the
    /// reserved capacity of the palette and the packed words. The capacities
    /// are whatever the allocator reserved; what holds of every outcome is
    /// stated by [`footprint_of`].
    pub fn memory_bytes(&self) -> (r: usize)
        requires
            self.wf(),
        ensures
            footprint_of(*self, r as int),
            r >= self.palette_spec().len() * size_of::<BlockId>() + words_for(
                self.bits_spec() as int,
            ) * 8,
            r < usize::MAX,
    {
        let pc = capacity_of(&self.palette);
        let dc = capacity_of(&self.data);
        proof {
            broadcast use layout_of_primitives;
        }
        let ps = std::mem::size_of::<BlockId>();
        let ds = std::mem::size_of::<u64>();
        assert(pc * ps >= self.palette@.len() * ps) by (nonlinear_arith)
            requires
                pc >= self.palette@.len(),
        ;
        let r = pc * ps + dc * ds;
        assert(reserved_bytes(pc as int, dc as int) == r);
        r
    }

    /// Serialise to a compact little-endian byte buffer:
    /// `[bits u32][palette_len u32][palette: u16…][data_len u32][data: u64…]`.
    pub fn to_bytes(&self) -> (r: Vec<u8>)
        requires
            self.decodable(),
        ensures
            r@ == self.encoding(),
            r@.len() == 12 + 2 * self.palette_spec().len() + 8 * words_for(self.bits_spec() as int),
    {
        proof {
            lemma_words_for_bound(self.bits);
            lemma_encoding_len(*self);
        }
        let mut out: Vec<u8> = Vec::new();
        let mut b = u32_to_le_bytes(self.bits);
        out.append(&mut b);
        let mut b = u32_to_le_bytes(self.palette.len() as u32);
        out.append(&mut b);
        let ghost head = out@;
        let mut k: usize = 0;
        while k < self.palette.len()
            invariant
                k <= self.palette@.len(),
                out@ == head + ids_le(self.palette@.take(k as int)),
            decreases self.palette@.len() - k,
        {
            let mut b = u16_to_le_bytes(self.palette[k].0);
            out.append(&mut b);
            assert(self.palette@.take(k + 1).drop_last() =~= self.palette@.take(k as int));
            k = k + 1;
        }
        assert(self.palette@.take(k as int) =~= self.palette@);
        let mut b = u32_to_le_bytes(self.data.len() as u32);
        out.append(&mut b);
        let ghost mid = out@;
        let mut k: usize = 0;
        while k < self.data.len()
            invariant
                k <= self.data@.len(),
                out@ == mid + words_le(self.data@.take(k as int)),
            decreases self.data@.len() - k,
        {
            let mut b = u64_to_le_bytes(self.data[k]);
            out.append(&mut b);
            assert(self.data@.take(k + 1).drop_last() =~= self.data@.take(k as int));
            k = k + 1;
        }
        assert(self.data@.take(k as int) =~= self.data@);
        assert(out@ =~= self.encoding());
        out
    }

    /// Deserialise from [`ChunkStorage::to_bytes`], returning the storage and
    /// the number of bytes consumed, or `None` if the buffer is malformed:
    /// truncated, with an empty palette, or with a data length other than
    /// the index width needs. Only the layout is checked: the storage read
    /// back may break the representation invariant (duplicate palette
    /// entries, a wider index than needed, indices past the palette), which
    /// [`ChunkStorage::is_well_formed`] tells.
    pub fn from_bytes(bytes: &[u8]) -> (r: Option<(ChunkStorage, usize)>)
        ensures
            match r {
                Some((s, n)) => encodes_prefix(s, bytes@) && n == s.encoding().len(),
                None => forall|s: ChunkStorage| !encodes_prefix(s, bytes@),
            },
    {
        let ghost has_w = exists|s: ChunkStorage| encodes_prefix(s, bytes@);
        let ghost w = choose|s: ChunkStorage| encodes_prefix(s, bytes@);
        proof {
            lemma_auto_spec_u16_to_from_le_bytes();
            lemma_auto_spec_u32_to_from_le_bytes();
            lemma_auto_spec_u64_to_from_le_bytes();
            if has_w {
                lemma_words_for_bound(w.bits);
                lemma_read_encoding(w.bits, w.palette@, w.data@, bytes@);
            }
        }
        let len = bytes.len();
        if len < 4 {
            return None;
        }
        let bits = u32_from_le_bytes(slice_subrange(bytes, 0, 4));
        if len - 4 < 4 {
            return None;
        }
        let palette_len = u32_from_le_bytes(slice_subrange(bytes, 4, 8)) as usize;
        assert(has_w ==> bits == w.bits && palette_len == w.palette@.len());
        let mut c: usize = 8;
        let mut palette: Vec<BlockId> = Vec::new();
        let mut k: usize = 0;
        while k < palette_len
            invariant
                len == bytes@.len(),
                8 <= c <= len,
                k <= palette_len,
                c == 8 + 2 * k,
                palette@.len() == k,
                ids_le(palette@) == bytes@.subrange(8, c as int),
                has_w == exists|s: ChunkStorage| encodes_prefix(s, bytes@),
                has_w ==> bits == w.bits && palette_len == w.palette@.len() && palette@
                    == w.palette@.take(k as int),
                has_w ==> encodes_prefix(w, bytes@),
                has_w ==> w.encoding().len() == 12 + 2 * w.palette@.len() + 8 * w.data@.len(),
                has_w ==> forall|m: int|
                    0 <= m < w.palette@.len() ==> spec_u16_from_le_bytes(
                        #[trigger] bytes@.subrange(8 + 2 * m, 8 + 2 * m + 2),
                    ) == w.palette@[m].0,
            decreases palette_len - k,
        {
            if len - c < 2 {
                assert(!has_w);
                return None;
            }
            proof {
                lemma_auto_spec_u16_to_from_le_bytes();
            }
            let ghost piece = bytes@.subrange(c as int, c + 2);
            let v = u16_from_le_bytes(slice_subrange(bytes, c, c + 2));
            assert(spec_u16_to_le_bytes(spec_u16_from_le_bytes(piece)) == piece);
            let ghost before = palette@;
            palette.push(BlockId(v));
            proof {
                assert(palette@.drop_last() == before);
                assert(spec_u16_to_le_bytes(v) == bytes@.subrange(c as int, c + 2));
                assert(bytes@.subrange(8, c + 2) =~= bytes@.subrange(8, c as int) + bytes@.subrange(
                    c as int,
                    c + 2,
                ));
                if has_w {
                    assert(palette@ =~= w.palette@.take(k + 1));
                }
            }
            c = c + 2;
            k = k + 1;
        }
        if len - c < 4 {
            return None;
        }
        let data_len = u32_from_le_bytes(slice_subrange(bytes, c, c + 4)) as usize;
        let ghost pal_end = c as int;
        c = c + 4;
        proof {
            if has_w {
                assert(palette@ =~= w.palette@);
                assert(data_len == w.data@.len());
            }
        }
        // A width past 64 bits leaves no whole entry in a 64-bit word.
        if bits > 64 {
            return None;
        }
        // Sanity: data length must match the bit width.
        if data_len != words_needed(bits) || palette.len() == 0 {
            return None;
        }
        proof {
            lemma_words_for_bound(bits);
        }
        let mut data: Vec<u64> = Vec::new();
        let mut k: usize = 0;
        while k < data_len
            invariant
                len == bytes@.len(),
                pal_end + 4 <= c <= len,
                k <= data_len,
                data_len <= 32768,
                c == pal_end + 4 + 8 * k,
                pal_end == 8 + 2 * palette@.len(),
                data@.len() == k,
                words_le(data@) == bytes@.subrange(pal_end + 4, c as int),
                has_w == exists|s: ChunkStorage| encodes_prefix(s, bytes@),
                has_w ==> bits == w.bits && palette@ == w.palette@ && data_len == w.data@.len()
                    && data@ == w.data@.take(k as int),
                has_w ==> encodes_prefix(w, bytes@),
                has_w ==> w.encoding().len() == 12 + 2 * w.palette@.len() + 8 * w.data@.len(),
                has_w ==> forall|m: int|
                    0 <= m < w.data@.len() ==> spec_u64_from_le_bytes(
                        #[trigger] bytes@.subrange(pal_end + 4 + 8 * m, pal_end + 4 + 8 * m + 8),
                    ) == w.data@[m],
            decreases data_len - k,
        {
            if len - c < 8 {
                assert(!has_w);
                return None;
            }
            proof {
                lemma_auto_spec_u64_to_from_le_bytes();
            }
            let ghost piece = bytes@.subrange(c as int, c + 8);
            let v = u64_from_le_bytes(slice_subrange(bytes, c, c + 8));
            assert(spec_u64_to_le_bytes(spec_u64_from_le_bytes(piece)) == piece);
            let ghost before = data@;
            data.push(v);
            proof {
                assert(data@.drop_last() == before);
                assert(spec_u64_to_le_bytes(v) == bytes@.subrange(c as int, c + 8));
                assert(bytes@.subrange(pal_end + 4, c + 8) =~= bytes@.subrange(
                    pal_end + 4,
                    c as int,
                ) + bytes@.subrange(c as int, c + 8));
                if has_w {
                    assert(data@ =~= w.data@.take(k + 1));
                }
            }
            c = c + 8;
            k = k + 1;
        }
        proof {
            if has_w {
                assert(data@ =~= w.data@);
            }
        }
        let candidate = ChunkStorage { palette, data, bits };
        proof {
            let e = candidate.encoding();
            let a = spec_u32_to_le_bytes(bits);
            let b = spec_u32_to_le_bytes(candidate.palette@.len() as u32);
            let d = spec_u32_to_le_bytes(data_len as u32);
            assert(a == bytes@.subrange(0, 4));
            assert(b == bytes@.subrange(4, 8));
            assert(d == bytes@.subrange(pal_end, pal_end + 4));
            lemma_ids_le(candidate.palette@);
            lemma_words_le(candidate.data@);
            assert(bytes@.subrange(0, c as int) =~= a + b + ids_le(candidate.palette@) + d
                + words_le(candidate.data@));
        }
        Some((candidate, c))
    }

    /// Whether the storage satisfies its representation invariant: a
    /// palette of 1 to 65536 distinct blocks, the smallest index width that
    /// addresses it, the matching number of data words, and every packed
    /// index inside the palette. Storages built by this type always do; one
    /// read by [`ChunkStorage::from_bytes`] may not.
    pub fn is_well_formed(&self) -> (r: bool)
        ensures
            r == self.wf(),
    {
        let n = self.palette.len();
        if n < 1 || n > 65536 {
            return false;
        }
        if !palette_is_distinct(&self.palette) {
            return false;
        }
        let b = bits_for(n);
        if self.bits != b {
            proof {
                if self.wf() {
                    lemma_minimal_width_unique(n as nat, b as nat, self.bits as nat);
                }
            }
            return false;
        }
        proof {
            if b > 17 {
                lemma_pow2_strictly_increases(16, (b - 1) as nat);
            }
            lemma2_to64();
        }
        if self.data.len() != words_needed(self.bits) {
            return false;
        }
        if self.bits == 0 {
            return true;
        }
        self.indices_in_range()
    }

    /// Whether every voxel can be read (see [`ChunkStorage::readable`]).
    pub fn is_readable(&self) -> (r: bool)
        ensures
            r == self.readable(),
    {
        if self.is_well_formed() {
            return true;
        }
        let n = self.palette.len();
        if n < 1 || n > 0xFFFF_FFFF || self.bits > 63 {
            return false;
        }
        if self.data.len() != words_needed(self.bits) {
            return false;
        }
        if self.bits == 0 {
            return true;
        }
        self.indices_in_range()
    }

    /// A well-formed storage with the same voxels: the representation that
    /// writing every voxel into a fresh chunk builds. It turns a storage read
    /// by [`ChunkStorage::from_bytes`] (duplicate palette entries, a wider
    /// index than needed) into one the rest of the library takes.
    pub fn normalized(&self) -> (r: ChunkStorage)
        requires
            self.readable(),
        ensures
            r.wf(),
            r@ == self@,
    {
        let fill = self.get_index(0);
        let mut out = ChunkStorage::filled(fill);
        let mut i: usize = 0;
        while i < CHUNK_VOLUME
            invariant
                self.readable(),
                i <= CHUNK_VOLUME,
                out.wf(),
                out@ == Seq::new(32768, |j: int| if j < i { self@[j] } else { fill }),
            decreases CHUNK_VOLUME - i,
        {
            let b = self.get_index(i);
            out.set_index(i, b);
            assert(out@ =~= Seq::new(32768, |j: int| if j < i + 1 { self@[j] } else { fill }));
            i += 1;
        }
        assert(out@ =~= self@);
        out
    }

    /// Every packed index addresses the palette.
    fn indices_in_range(&self) -> (r: bool)
        requires
            1 <= self.bits <= 63,
            self.data@.len() == words_for(self.bits as int),
        ensures
            r == self.entries_valid(),
    {
        let epw = entries_per_word(self.bits);
        proof {
            lemma_slot_bounds(0, 0, self.bits);
        }
        let mask = (1u64 << self.bits) - 1;
        let mut i: usize = 0;
        while i < CHUNK_VOLUME
            invariant
                i <= CHUNK_VOLUME,
                1 <= self.bits <= 63,
                epw == per_word(self.bits as int),
                mask == low_mask(self.bits),
                self.data@.len() == words_for(self.bits as int),
                forall|j: int| 0 <= j < i ==> #[trigger] entry(self.data@, self.bits, j) < self.palette@.len(),
            decreases CHUNK_VOLUME - i,
        {
            proof {
                lemma_slot_geometry(self.bits, i as int);
            }
            let word = self.data[i / epw];
            let shift = (i % epw) as u32 * self.bits;
            let idx = (word >> shift) & mask;
            if idx >= self.palette.len() as u64 {
                assert(idx == entry(self.data@, self.bits, i as int));
                return false;
            }
            i = i + 1;
        }
        true
    }

    /// A slot is in use exactly when its block occurs in the chunk.
    proof fn lemma_slot_used(&self, k: int)
        requires
            self.wf(),
            self.bits > 0,
            0 <= k < self.palette@.len(),
        ensures
            (exists|j: int| 0 <= j < 32768 && entry(self.data@, self.bits, j) == k) <==> self@.contains(
                self.palette@[k],
            ),
    {
        if exists|j: int| 0 <= j < 32768 && entry(self.data@, self.bits, j) == k {
            let j = choose|j: int| 0 <= j < 32768 && entry(self.data@, self.bits, j) == k;
            assert(self@[j] == self.block_spec(j));
        }
        if self@.contains(self.palette@[k]) {
            let j = choose|j: int| 0 <= j < self@.len() && self@[j] == self.palette@[k];
            assert(self@[j] == self.block_spec(j));
            assert(self.entries_valid());
            assert(entry(self.data@, self.bits, j) < self.palette@.len());
        }
    }

    /// Every palette entry occurs in some voxel.
    pub open spec fn palette_is_tight(&self) -> bool {
        forall|k: int| 0 <= k < self.palette_spec().len() ==> self@.contains(#[trigger] self.palette_spec()[k])
    }

    /// Drop the palette down to only blocks that are still referenced, and
    /// re-collapse to uniform when a single block remains. The voxels are
    /// unchanged.
    pub fn shrink_palette(&mut self)
        requires
            old(self).wf(),
        ensures
            final(self).wf(),
            final(self)@ == old(self)@,
            final(self).palette_spec() == old(self).palette_spec().filter(occurs_in(old(self)@)),
            final(self).bits_spec() == width_for(final(self).palette_spec().len()),
            final(self).palette_is_tight(),
            old(self).palette_is_tight() ==> final(self).palette_spec() == old(self).palette_spec()
                && final(self).bits_spec() == old(self).bits_spec(),
    {
        if self.bits == 0 {
            proof {
                assert(self@[0] == self.block_spec(0));
                assert(occurs_in(self@)(self.palette@[0]));
                lemma_filter_all(self.palette@, occurs_in(self@));
                lemma_shrink_outcome(*self, *self);
            }
            return;
        }
        let ghost pred = occurs_in(self@);
        let ghost filtered = self.palette@.filter(pred);
        let plen = self.palette.len();
        // Collect which palette slots are actually used.
        let mut used: Vec<bool> = vec![false; plen];
        let epw = entries_per_word(self.bits);
        proof {
            lemma_slot_bounds(0, 0, self.bits);
        }
        let mask = (1u64 << self.bits) - 1;
        let mut i: usize = 0;
        while i < CHUNK_VOLUME
            invariant
                i <= CHUNK_VOLUME,
                self.wf(),
                self.bits > 0,
                plen == self.palette@.len(),
                epw == per_word(self.bits as int),
                mask == low_mask(self.bits),
                used@.len() == plen,
                forall|k: int|
                    0 <= k < plen ==> (#[trigger] used@[k] <==> exists|j: int|
                        0 <= j < i && entry(self.data@, self.bits, j) == k),
            decreases CHUNK_VOLUME - i,
        {
            proof {
                lemma_slot_geometry(self.bits, i as int);
                assert(self.entries_valid());
                assert(entry(self.data@, self.bits, i as int) < plen);
            }
            let word = self.data[i / epw];
            let shift = (i % epw) as u32 * self.bits;
            let e = ((word >> shift) & mask) as usize;
            let ghost before = used@;
            used.set(e, true);
            proof {
                assert forall|k: int| 0 <= k < plen implies (#[trigger] used@[k] <==> exists|j: int|
                    0 <= j < i + 1 && entry(self.data@, self.bits, j) == k) by {
                    if k == e as int {
                        assert(entry(self.data@, self.bits, i as int) == k);
                    } else {
                        assert(used@[k] == before[k]);
                        if exists|j: int| 0 <= j < i + 1 && entry(self.data@, self.bits, j) == k {
                            let j = choose|j: int|
                                0 <= j < i + 1 && entry(self.data@, self.bits, j) == k;
                            assert(j != i as int);
                        }
                    }
                }
            }
            i = i + 1;
        }
        proof {
            assert forall|k: int| 0 <= k < plen implies (#[trigger] used@[k] <==> pred(
                self.palette@[k],
            )) by {
                self.lemma_slot_used(k);
            }
        }
        // How many slots are in use.
        let mut count: usize = 0;
        let mut k: usize = 0;
        while k < plen
            invariant
                k <= plen,
                plen == self.palette@.len(),
                used@.len() == plen,
                forall|m: int| 0 <= m < plen ==> (#[trigger] used@[m] <==> pred(self.palette@[m])),
                count == self.palette@.take(k as int).filter(pred).len(),
                count <= k,
            decreases plen - k,
        {
            proof {
                lemma_filter_step(self.palette@, pred, k as int);
            }
            if used[k] {
                count = count + 1;
            }
            k = k + 1;
        }
        proof {
            assert(self.palette@.take(plen as int) =~= self.palette@);
            lemma_filter_members(self.palette@, pred);
            assert(self.entries_valid());
            assert(entry(self.data@, self.bits, 0) < plen);
            assert(self@[0] == self.block_spec(0));
            assert(pred(self.palette@[entry(self.data@, self.bits, 0) as int]));
        }
        if count <= 1 {
            // One block remains — collapse to uniform.
            let mut only: usize = 0;
            let mut found = false;
            let mut k: usize = 0;
            while k < plen
                invariant
                    k <= plen,
                    only < plen,
                    plen == self.palette@.len(),
                    used@.len() == plen,
                    found ==> used@[only as int],
                    !found ==> forall|m: int| 0 <= m < k ==> !used@[m],
                decreases plen - k,
            {
                if !found && used[k] {
                    only = k;
                    found = true;
                }
                k = k + 1;
            }
            let ghost e0 = entry(self.data@, self.bits, 0) as int;
            proof {
                assert(used@[e0]);
                assert(found);
                assert(pred(self.palette@[only as int]));
                assert(filtered.contains(self.palette@[only as int]));
                assert(filtered.len() == 1);
                assert(filtered =~= seq![self.palette@[only as int]]);
            }
            let ghost old_view = self@;
            let ghost old_self = *self;
            *self = ChunkStorage::filled(self.palette[only]);
            proof {
                assert(self@ =~= old_view) by {
                    assert forall|j: int| 0 <= j < 32768 implies self@[j] == old_view[j] by {
                        assert(old_view[j] == old_self.block_spec(j));
                        assert(old_self.entries_valid());
                        let ej = entry(old_self.data@, old_self.bits, j);
                        assert(ej < plen);
                        assert(pred(old_self.palette@[ej as int]));
                        assert(filtered.contains(old_self.palette@[ej as int]));
                    }
                }
                lemma_shrink_outcome(old_self, *self);
            }
            return;
        }
        // Re-pack with a compacted palette if any slot is now unused.
        let mut all = true;
        let mut k: usize = 0;
        while k < plen
            invariant
                k <= plen,
                used@.len() == plen,
                all == (forall|m: int| 0 <= m < k ==> used@[m]),
            decreases plen - k,
        {
            if !used[k] {
                all = false;
            }
            k = k + 1;
        }
        if all {
            proof {
                assert forall|m: int| 0 <= m < plen implies pred(#[trigger] self.palette@[m]) by {
                    assert(used@[m]);
                }
                lemma_filter_all(self.palette@, pred);
                lemma_shrink_outcome(*self, *self);
            }
            return;
        }
        let mut remap: Vec<usize> = vec![0usize; plen];
        let mut new_palette: Vec<BlockId> = Vec::new();
        let mut old: usize = 0;
        while old < plen
            invariant
                old <= plen,
                plen == self.palette@.len(),
                used@.len() == plen,
                remap@.len() == plen,
                forall|m: int| 0 <= m < plen ==> (#[trigger] used@[m] <==> pred(self.palette@[m])),
                new_palette@ == self.palette@.take(old as int).filter(pred),
                new_palette@.len() <= old,
                forall|m: int|
                    0 <= m < old && used@[m] ==> #[trigger] remap@[m] < new_palette@.len()
                        && new_palette@[remap@[m] as int] == self.palette@[m],
            decreases plen - old,
        {
            proof {
                lemma_filter_step(self.palette@, pred, old as int);
            }
            if used[old] {
                remap.set(old, new_palette.len());
                new_palette.push(self.palette[old]);
            }
            old = old + 1;
        }
        proof {
            assert(self.palette@.take(plen as int) =~= self.palette@);
            assert(new_palette@ == filtered);
            assert(new_palette@.len() == count);
        }
        let new_bits = bits_for(new_palette.len());
        proof {
            if new_bits > 17 {
                lemma_pow2_strictly_increases(16, (new_bits - 1) as nat);
            }
            lemma2_to64();
        }
        let old_bits = self.bits;
        let old_epw = entries_per_word(old_bits);
        let old_mask = (1u64 << old_bits) - 1;
        proof {
            lemma_words_for_bound(new_bits);
            lemma_slot_bounds(0, 0, new_bits);
        }
        let new_words = words_needed(new_bits);
        let new_epw = entries_per_word(new_bits);
        let mut new_data: Vec<u64> = vec![0u64; new_words];
        assert forall|j: int| 0 <= j < 32768 implies #[trigger] entry(new_data@, new_bits, j) == 0 by {
            lemma_slot_geometry(new_bits, j);
            assert(new_data@[j / per_word(new_bits as int)] == 0);
            lemma_slot_bounds(0, slot_shift(new_bits, j), new_bits);
        }
        let mut i: usize = 0;
        while i < CHUNK_VOLUME
            invariant
                i <= CHUNK_VOLUME,
                self.wf(),
                old_bits == self.bits,
                1 <= old_bits <= 63,
                1 <= new_bits <= 16,
                plen == self.palette@.len(),
                old_epw == per_word(old_bits as int),
                new_epw == per_word(new_bits as int),
                old_mask == low_mask(old_bits),
                new_data@.len() == new_words,
                new_words == words_for(new_bits as int),
                remap@.len() == plen,
                new_palette@.len() <= pow2(new_bits as nat),
                forall|m: int| 0 <= m < plen ==> (#[trigger] used@[m] <==> pred(self.palette@[m])),
                forall|m: int|
                    0 <= m < plen && used@[m] ==> #[trigger] remap@[m] < new_palette@.len()
                        && new_palette@[remap@[m] as int] == self.palette@[m],
                forall|m: int|
                    0 <= m < plen ==> (#[trigger] used@[m] <==> exists|j: int|
                        0 <= j < 32768 && entry(self.data@, self.bits, j) == m),
                forall|j: int|
                    0 <= j < 32768 ==> #[trigger] entry(new_data@, new_bits, j) == (if j < i {
                        remap@[entry(self.data@, old_bits, j) as int] as u64
                    } else {
                        0
                    }),
            decreases CHUNK_VOLUME - i,
        {
            proof {
                lemma_slot_geometry(old_bits, i as int);
                lemma_slot_geometry(new_bits, i as int);
                assert(self.entries_valid());
                assert(entry(self.data@, old_bits, i as int) < plen);
            }
            let ow = self.data[i / old_epw];
            let oshift = (i % old_epw) as u32 * old_bits;
            let old_idx = ((ow >> oshift) & old_mask) as usize;
            proof {
                assert(old_idx == entry(self.data@, old_bits, i as int));
                assert(used@[old_idx as int]);
                lemma_slot_bounds(0, 0, new_bits);
            }
            let new_idx = remap[old_idx] as u64;
            let nshift = (i % new_epw) as u32 * new_bits;
            let w = i / new_epw;
            let cur = new_data[w];
            proof {
                assert(new_idx < (1u64 << new_bits));
                assert(slot(cur, nshift, new_bits) == 0) by {
                    assert(entry(new_data@, new_bits, i as int) == 0);
                }
                lemma_or_into_empty_slot(cur, nshift, new_bits, new_idx);
            }
            let ghost prev = new_data@;
            new_data.set(w, cur | (new_idx << nshift));
            proof {
                assert forall|j: int| 0 <= j < 32768 implies #[trigger] entry(
                    new_data@,
                    new_bits,
                    j,
                ) == (if j < i + 1 {
                    remap@[entry(self.data@, old_bits, j) as int] as u64
                } else {
                    0
                }) by {
                    lemma_slot_geometry(new_bits, j);
                    assert(entry(prev, new_bits, j) == (if j < i {
                        remap@[entry(self.data@, old_bits, j) as int] as u64
                    } else {
                        0
                    }));
                    if j / per_word(new_bits as int) == w as int {
                        if j == i as int {
                            lemma_put_slot_same(cur, nshift, new_bits, new_idx);
                        } else {
                            lemma_slots_disjoint(new_bits, i as int, j);
                            lemma_put_slot_other(
                                cur,
                                nshift,
                                slot_shift(new_bits, j),
                                new_bits,
                                new_idx,
                            );
                        }
                    }
                }
            }
            i = i + 1;
        }
        let ghost old_self = *self;
        self.palette = new_palette;
        self.data = new_data;
        self.bits = new_bits;
        proof {
            lemma_filter_members(old_self.palette@, pred);
            assert forall|j: int| 0 <= j < 32768 implies #[trigger] entry(self.data@, self.bits, j)
                < self.palette@.len() && self.palette@[entry(self.data@, self.bits, j) as int]
                == old_self.palette@[entry(old_self.data@, old_self.bits, j) as int] by {
                assert(old_self.entries_valid());
                let e = entry(old_self.data@, old_self.bits, j);
                assert(e < plen);
                assert(used@[e as int]);
            }
            assert(self.entries_valid());
            assert(self@ =~= old_self@) by {
                assert forall|j: int| 0 <= j < 32768 implies self@[j] == old_self@[j] by {
                    assert(self@[j] == self.block_spec(j));
                    assert(old_self@[j] == old_self.block_spec(j));
                }
            }
            lemma_shrink_outcome(old_self, *self);
        }
    }

    pub fn set(&mut self, pos: LocalPos, block: BlockId)
        requires
            old(self).wf(),
            pos.wf(),
        ensures
            final(self).wf(),
            final(self)@ == old(self)@.update(
                local_index(pos.x as int, pos.y as int, pos.z as int),
                block,
            ),
            old(self).palette_spec().contains(block) ==> final(self).palette_spec()
                == old(self).palette_spec() && final(self).bits_spec() == old(self).bits_spec(),
            !old(self).palette_spec().contains(block) ==> final(self).palette_spec()
                == old(self).palette_spec().push(block) && final(self).bits_spec() == width_for(
                final(self).palette_spec().len(),
            ),
            final(self).palette_spec().len() <= old(self).palette_spec().len() + 1,
            final(self).bits_spec() == width_for(final(self).palette_spec().len()),
            final(self).bits_spec() == 0 <==> final(self).palette_spec().len() == 1,
            old(self).bits_spec() == 0 && old(self).palette_spec()[0] == block ==> final(self)@ == old(self)@
                && final(self).palette_spec() == old(self).palette_spec() && final(self).bits_spec() == 0,
    {
        self.set_index(pos.index(), block)
    }

    /// Overwrite voxel `i` with `block`. A block not yet in the palette is
    /// appended to it, widening the index width when the palette outgrows it.
    pub fn set_index(&mut self, i: usize, block: BlockId)
        requires
            old(self).wf(),
            i < CHUNK_VOLUME,
        ensures
            final(self).wf(),
            final(self)@ == old(self)@.update(i as int, block),
            old(self).palette_spec().contains(block) ==> final(self).palette_spec()
                == old(self).palette_spec() && final(self).bits_spec() == old(self).bits_spec(),
            !old(self).palette_spec().contains(block) ==> final(self).palette_spec()
                == old(self).palette_spec().push(block) && final(self).bits_spec() == width_for(
                final(self).palette_spec().len(),
            ),
            final(self).palette_spec().len() <= old(self).palette_spec().len() + 1,
            final(self).bits_spec() == width_for(final(self).palette_spec().len()),
            final(self).bits_spec() == 0 <==> final(self).palette_spec().len() == 1,
            old(self).bits_spec() == 0 && old(self).palette_spec()[0] == block ==> final(self)@ == old(self)@
                && final(self).palette_spec() == old(self).palette_spec() && final(self).bits_spec() == 0,
    {
        let ghost old_view = self@;
        proof {
            if self.bits == 0 && self.palette@[0] == block {
                assert(self.palette@.contains(block));
                assert(old_view =~= old_view.update(i as int, block)) by {
                    assert(old_view[i as int] == self.block_spec(i as int));
                }
            }
        }
        let palette_idx = self.palette_index_of_or_insert(block);
        if self.bits == 0 {
            // Still uniform: the block is the fill block already.
            assert(self@ =~= old_view.update(i as int, block));
            proof {
                lemma_width_is_minimal(*self);
            }
            return;
        }
        let ghost mid = *self;
        self.write_index(i, palette_idx);
        assert(self.entries_valid()) by {
            assert forall|j: int| 0 <= j < 32768 implies #[trigger] entry(self.data@, self.bits, j)
                < self.palette@.len() by {
                assert(mid.entries_valid());
                assert(entry(mid.data@, mid.bits, j) < mid.palette@.len());
            }
        }
        assert(self@ =~= old_view.update(i as int, block)) by {
            assert forall|j: int| 0 <= j < 32768 implies #[trigger] self@[j] == old_view.update(
                i as int,
                block,
            )[j] by {
                assert(mid@[j] == old_view[j]);
                assert(mid.block_spec(j) == mid@[j]);
            }
        }
        proof {
            lemma_width_is_minimal(*self);
        }
    }

    /// Linear search of the palette; append the block if missing, growing
    /// the index width (and materialising `data`) as required.
    fn palette_index_of_or_insert(&mut self, block: BlockId) -> (r: usize)
        requires
            old(self).wf(),
        ensures
            final(self).wf(),
            final(self)@ == old(self)@,
            r < final(self).palette@.len(),
            final(self).palette@[r as int] == block,
            old(self).palette@.contains(block) ==> final(self).palette@ == old(self).palette@
                && final(self).bits == old(self).bits && final(self).data@ == old(self).data@,
            !old(self).palette@.contains(block) ==> final(self).palette@ == old(self).palette@.push(
                block,
            ) && final(self).bits as nat == width_for(final(self).palette@.len()),
    {
        let mut k: usize = 0;
        while k < self.palette.len()
            invariant
                *self == *old(self),
                self.wf(),
                k <= self.palette@.len(),
                forall|m: int| 0 <= m < k ==> self.palette@[m] != block,
            decreases self.palette@.len() - k,
        {
            if self.palette[k] == block {
                return k;
            }
            k = k + 1;
        }
        let ghost old_self = *self;
        assert(!self.palette@.contains(block));
        proof {
            lemma_palette_room(self.palette@, block);
        }
        let new_idx = self.palette.len();
        self.palette.push(block);
        assert(self.palette@.no_duplicates()) by {
            assert forall|a: int, c: int|
                0 <= a < self.palette@.len() && 0 <= c < self.palette@.len() && a != c implies
                self.palette@[a] != self.palette@[c] by {
                if a == new_idx as int {
                    assert(old_self.palette@[c] == self.palette@[c]);
                } else if c == new_idx as int {
                    assert(old_self.palette@[a] == self.palette@[a]);
                } else {
                    assert(old_self.palette@[a] == self.palette@[a]);
                    assert(old_self.palette@[c] == self.palette@[c]);
                }
            }
        }
        let needed = bits_for(self.palette.len());
        proof {
            // A longer palette never needs a narrower index.
            if needed < self.bits && needed < (self.bits - 1) as u32 {
                lemma_pow2_strictly_increases(needed as nat, (self.bits - 1) as nat);
            }
        }
        if needed > self.bits {
            self.grow_to(needed);
        }
        assert(self.entries_valid()) by {
            if self.bits > 0 {
                assert forall|j: int| 0 <= j < 32768 implies #[trigger] entry(
                    self.data@,
                    self.bits,
                    j,
                ) < self.palette@.len() by {
                    if old_self.bits > 0 {
                        assert(old_self.entries_valid());
                        assert(entry(old_self.data@, old_self.bits, j) < old_self.palette@.len());
                    }
                }
            }
        }
        assert(self@ =~= old_self@) by {
            assert forall|j: int| 0 <= j < 32768 implies #[trigger] self@[j] == old_self@[j] by {
                assert(self@[j] == self.block_spec(j));
                assert(old_self@[j] == old_self.block_spec(j));
                if old_self.bits > 0 {
                    assert(old_self.entries_valid());
                    assert(entry(old_self.data@, old_self.bits, j) < old_self.palette@.len());
                }
            }
        }
        new_idx
    }

    /// Re-pack existing indices into a wider layout. From the uniform state
    /// the new data is simply all-zero, which already means "every voxel is
    /// `palette[0]`".
    fn grow_to(&mut self, new_bits: u32)
        requires
            old(self).bits < new_bits <= 63,
            old(self).bits == 0 ==> old(self).data@.len() == 0,
            old(self).bits > 0 ==> old(self).data@.len() == words_for(old(self).bits as int),
        ensures
            final(self).palette@ == old(self).palette@,
            final(self).bits == new_bits,
            final(self).data@.len() == words_for(new_bits as int),
            forall|j: int|
                0 <= j < 32768 ==> #[trigger] entry(final(self).data@, new_bits, j) == (if old(self).bits == 0 {
                    0
                } else {
                    entry(old(self).data@, old(self).bits, j)
                }),
    {
        let new_words = words_needed(new_bits);
        proof {
            lemma_slot_bounds(0, 0, new_bits);
        }
        if self.bits == 0 {
            self.data = vec![0u64; new_words];
            self.bits = new_bits;
            assert forall|j: int| 0 <= j < 32768 implies #[trigger] entry(self.data@, new_bits, j)
                == 0 by {
                lemma_slot_geometry(new_bits, j);
                assert(self.data@[j / per_word(new_bits as int)] == 0);
                lemma_slot_bounds(0, slot_shift(new_bits, j), new_bits);
            }
            return;
        }
        let old_bits = self.bits;
        let old_epw = entries_per_word(old_bits);
        proof {
            lemma_slot_bounds(0, 0, old_bits);
        }
        let old_mask = (1u64 << old_bits) - 1;
        let mut new_data = vec![0u64; new_words];
        let new_epw = entries_per_word(new_bits);
        assert forall|j: int| 0 <= j < 32768 implies #[trigger] entry(new_data@, new_bits, j) == 0 by {
            lemma_slot_geometry(new_bits, j);
            assert(new_data@[j / per_word(new_bits as int)] == 0);
            lemma_slot_bounds(0, slot_shift(new_bits, j), new_bits);
        }
        let mut i: usize = 0;
        while i < CHUNK_VOLUME
            invariant
                0 <= i <= CHUNK_VOLUME,
                1 <= old_bits < new_bits <= 63,
                old_bits == self.bits,
                old_epw == per_word(old_bits as int),
                new_epw == per_word(new_bits as int),
                old_mask == low_mask(old_bits),
                self.data@.len() == words_for(old_bits as int),
                new_data@.len() == new_words,
                new_words == words_for(new_bits as int),
                forall|j: int|
                    0 <= j < 32768 ==> #[trigger] entry(new_data@, new_bits, j) == (if j < i {
                        entry(self.data@, old_bits, j)
                    } else {
                        0
                    }),
            decreases CHUNK_VOLUME - i,
        {
            proof {
                lemma_slot_geometry(old_bits, i as int);
                lemma_slot_geometry(new_bits, i as int);
            }
            let ow = self.data[i / old_epw];
            let oshift = (i % old_epw) as u32 * old_bits;
            let val = (ow >> oshift) & old_mask;
            let nshift = (i % new_epw) as u32 * new_bits;
            let w = i / new_epw;
            let cur = new_data[w];
            proof {
                lemma_slot_bounds(ow, oshift, old_bits);
                assert(val < (1u64 << new_bits)) by (bit_vector)
                    requires
                        val < (1u64 << old_bits),
                        1 <= old_bits < new_bits <= 63,
                ;
                assert(slot(cur, nshift, new_bits) == 0) by {
                    assert(entry(new_data@, new_bits, i as int) == 0);
                }
                lemma_or_into_empty_slot(cur, nshift, new_bits, val);
            }
            let ghost prev = new_data@;
            new_data.set(w, cur | (val << nshift));
            proof {
                assert forall|j: int| 0 <= j < 32768 implies #[trigger] entry(
                    new_data@,
                    new_bits,
                    j,
                ) == (if j < i + 1 {
                    entry(self.data@, old_bits, j)
                } else {
                    0
                }) by {
                    lemma_slot_geometry(new_bits, j);
                    assert(entry(prev, new_bits, j) == (if j < i {
                        entry(self.data@, old_bits, j)
                    } else {
                        0
                    }));
                    if j / per_word(new_bits as int) == w as int {
                        if j == i as int {
                            lemma_put_slot_same(cur, nshift, new_bits, val);
                        } else {
                            lemma_slots_disjoint(new_bits, i as int, j);
                            lemma_put_slot_other(cur, nshift, slot_shift(new_bits, j), new_bits, val);
                        }
                    }
                }
            }
            i = i + 1;
        }
        self.data = new_data;
        self.bits = new_bits;
    }

    /// Store palette index `palette_idx` for voxel `i`.
    fn write_index(&mut self, i: usize, palette_idx: usize)
        requires
            1 <= old(self).bits <= 63,
            old(self).data@.len() == words_for(old(self).bits as int),
            i < CHUNK_VOLUME,
            palette_idx < pow2(old(self).bits as nat),
        ensures
            final(self).palette@ == old(self).palette@,
            final(self).bits == old(self).bits,
            final(self).data@.len() == old(self).data@.len(),
            forall|j: int|
                0 <= j < 32768 ==> #[trigger] entry(final(self).data@, final(self).bits, j) == (
                if j == i {
                    palette_idx as u64
                } else {
                    entry(old(self).data@, old(self).bits, j)
                }),
    {
        let epw = entries_per_word(self.bits);
        proof {
            lemma_slot_geometry(self.bits, i as int);
            lemma_slot_bounds(0, 0, self.bits);
        }
        let shift = (i % epw) as u32 * self.bits;
        let mask = (1u64 << self.bits) - 1;
        let w = i / epw;
        let word = self.data[w];
        let v = palette_idx as u64;
        let ghost prev = self.data@;
        self.data.set(w, (word & !(mask << shift)) | (v << shift));
        proof {
            assert forall|j: int| 0 <= j < 32768 implies #[trigger] entry(self.data@, self.bits, j)
                == (if j == i {
                v
            } else {
                entry(prev, self.bits, j)
            }) by {
                lemma_slot_geometry(self.bits, j);
                if j / per_word(self.bits as int) == w as int {
                    if j == i as int {
                        lemma_put_slot_same(word, shift, self.bits, v);
                    } else {
                        lemma_slots_disjoint(self.bits, i as int, j);
                        lemma_put_slot_other(word, shift, slot_shift(self.bits, j), self.bits, v);
                    }
                }
            }
        }
    }
}

/// What `shrink_palette` promises, from a well-formed result with the same
/// voxels whose palette keeps the entries that occur.
proof fn lemma_shrink_outcome(before: ChunkStorage, after: ChunkStorage)
    requires
        before.wf(),
        after.wf(),
        after@ == before@,
        after.palette@ == before.palette@.filter(occurs_in(before@)),
    ensures
        after.bits_spec() == width_for(after.palette_spec().len()),
        after.palette_is_tight(),
        before.palette_is_tight() ==> after.palette_spec() == before.palette_spec()
            && after.bits_spec() == before.bits_spec(),
{
    lemma_width_is_minimal(after);
    lemma_width_is_minimal(before);
    lemma_filter_members(before.palette@, occurs_in(before@));
    assert forall|k: int| 0 <= k < after.palette_spec().len() implies after@.contains(
        #[trigger] after.palette_spec()[k],
    ) by {
        assert(occurs_in(before@)(after.palette@[k]));
    }
    if before.palette_is_tight() {
        assert forall|i: int| 0 <= i < before.palette@.len() implies occurs_in(before@)(
            #[trigger] before.palette@[i],
        ) by {
            assert(before@.contains(before.palette_spec()[i]));
        }
        lemma_filter_all(before.palette@, occurs_in(before@));
    }
}

/// A well-formed storage whose palette entries all occur (as
/// `shrink_palette` leaves it) has as palette exactly the set of blocks in
/// its voxels, one entry per distinct block, and the smallest index width
/// for that many blocks: width `0`, the uniform form, exactly when a single
/// block remains.
pub proof fn lemma_tight_palette(s: ChunkStorage)
    requires
        s.wf(),
        s.palette_is_tight(),
    ensures
        s.palette_spec().to_set() == s@.to_set(),
        s.palette_spec().len() == s@.to_set().len(),
        s.bits_spec() == width_for(s@.to_set().len()),
        s.bits_spec() == 0 <==> s@.to_set().len() == 1,
{
    lemma_width_is_minimal(s);
    assert forall|b: BlockId| s@.to_set().contains(b) implies s.palette_spec().to_set().contains(b) by {
        let j = choose|j: int| 0 <= j < s@.len() && s@[j] == b;
        assert(s@[j] == s.block_spec(j));
        if s.bits > 0 {
            assert(s.entries_valid());
            assert(entry(s.data@, s.bits, j) < s.palette@.len());
            assert(s.palette@[entry(s.data@, s.bits, j) as int] == b);
        } else {
            assert(s.palette@[0] == b);
        }
    }
    assert forall|b: BlockId| s.palette_spec().to_set().contains(b) implies s@.to_set().contains(b) by {
        let k = choose|k: int| 0 <= k < s.palette_spec().len() && s.palette_spec()[k] == b;
        assert(s@.contains(s.palette_spec()[k]));
    }
    assert(s.palette_spec().to_set() =~= s@.to_set());
    s.palette@.unique_seq_to_set();
}

/// Every storage covers the whole chunk volume.
pub proof fn lemma_view_len(s: &ChunkStorage)
    ensures
        s@.len() == 32768,
{
}

/// The byte layout of a storage's encoding (see [`encode_parts`]): its
/// width, palette length, palette ids, word count and words, all
/// little-endian; and the word count of a decodable storage is the one its
/// width needs.
pub proof fn lemma_encoding_layout(s: ChunkStorage)
    ensures
        s.bits_spec() <= u32::MAX,
        s.encoding() == encode_parts(s.bits_spec() as u32, s.palette_spec(), s.data_spec()),
        s.decodable() ==> s.data_spec().len() == words_for(s.bits_spec() as int),
{
}

/// A storage is decodable exactly when its palette has 1 to `u32::MAX`
/// entries, its index width is at most 64 bits, and its encoding carries
/// as many data words as that width needs.
pub proof fn lemma_decodable(s: ChunkStorage)
    ensures
        s.decodable() <==> (1 <= s.palette_spec().len() <= u32::MAX && s.bits_spec() <= 64
            && s.encoding().len() == 12 + 2 * s.palette_spec().len() + 8 * words_for(
            s.bits_spec() as int,
        )),
{
    lemma_ids_le(s.palette@);
    lemma_words_le(s.data@);
    lemma_auto_spec_u32_to_from_le_bytes();
}

/// Every well-formed storage is decodable.
pub proof fn lemma_wf_decodable(s: ChunkStorage)
    requires
        s.wf(),
    ensures
        s.decodable(),
{
}

/// The invariant keeps the index width minimal: it is the smallest width
/// addressing the palette, `0` exactly when the palette has a single entry.
pub proof fn lemma_width_is_minimal(s: ChunkStorage)
    requires
        s.wf(),
    ensures
        s.palette_spec().len() >= 1,
        s.palette_spec().no_duplicates(),
        minimal_width(s.palette_spec().len(), s.bits_spec()),
        s.bits_spec() == width_for(s.palette_spec().len()),
        s.bits_spec() == 0 <==> s.palette_spec().len() == 1,
        s.bits_spec() <= 16,
{
    lemma_width_for(s.palette@.len(), s.bits as nat);
    if s.bits > 17 {
        lemma_pow2_strictly_increases(16, (s.bits - 1) as nat);
    }
    lemma2_to64();
}

/// The encoding is `12 + 2·palette + 8·words` bytes long; for a well-formed
/// storage that is at most 400 000 bytes.
pub proof fn lemma_encoding_len(s: ChunkStorage)
    requires
        s.decodable(),
    ensures
        s.encoding().len() == 12 + 2 * s.palette_spec().len() + 8 * words_for(s.bits_spec() as int),
        s.wf() ==> s.encoding().len() <= 400000,
{
    lemma_words_for_bound(s.bits);
    lemma_ids_le(s.palette@);
    lemma_words_le(s.data@);
    lemma_auto_spec_u32_to_from_le_bytes();
}

/// Two storages whose encodings both begin the same bytes have the same
/// voxels, palette, index width and encoding, and one is well formed
/// exactly when the other is.
pub proof fn lemma_encodes_prefix_unique(s: ChunkStorage, t: ChunkStorage, bytes: Seq<u8>)
    requires
        encodes_prefix(s, bytes),
        encodes_prefix(t, bytes),
    ensures
        t@ == s@,
        t.palette_spec() == s.palette_spec(),
        t.bits_spec() == s.bits_spec(),
        t.encoding() == s.encoding(),
        t.wf() == s.wf(),
{
    let rest = bytes.subrange(s.encoding().len() as int, bytes.len() as int);
    assert(bytes =~= s.encoding() + rest);
    lemma_encoding_roundtrip(s, t, rest);
}

/// Serialisation round-trips: the encoding of a decodable storage (every
/// well-formed one is), followed by any further bytes, decodes (as
/// `from_bytes` does) to a storage with the same voxels, palette, index
/// width and well-formedness, consuming exactly the encoding; and no other
/// decoding of those bytes exists.
pub proof fn lemma_encoding_roundtrip(s: ChunkStorage, t: ChunkStorage, rest: Seq<u8>)
    requires
        s.decodable(),
        encodes_prefix(t, s.encoding() + rest),
    ensures
        encodes_prefix(s, s.encoding() + rest),
        t@ == s@,
        t.palette_spec() == s.palette_spec(),
        t.bits_spec() == s.bits_spec(),
        t.encoding() == s.encoding(),
        t.wf() == s.wf(),
{
    let bytes = s.encoding() + rest;
    assert(bytes.subrange(0, s.encoding().len() as int) =~= s.encoding());
    lemma_words_for_bound(s.bits);
    lemma_words_for_bound(t.bits);
    lemma_read_encoding(s.bits, s.palette@, s.data@, bytes);
    lemma_read_encoding(t.bits, t.palette@, t.data@, bytes);
    assert(t.palette@ =~= s.palette@) by {
        assert forall|k: int| 0 <= k < s.palette@.len() implies t.palette@[k] == s.palette@[k] by {
            assert(spec_u16_from_le_bytes(bytes.subrange(8 + 2 * k, 8 + 2 * k + 2)) == s.palette@[k].0);
        }
    }
    assert(t.data@ =~= s.data@) by {
        let p = s.palette@.len() as int;
        assert forall|k: int| 0 <= k < s.data@.len() implies t.data@[k] == s.data@[k] by {
            assert(spec_u64_from_le_bytes(bytes.subrange(12 + 2 * p + 8 * k, 12 + 2 * p + 8 * k + 8))
                == s.data@[k]);
        }
    }
    assert(t@ =~= s@) by {
        assert forall|j: int| 0 <= j < 32768 implies t@[j] == s@[j] by {
            assert(t@[j] == t.block_spec(j));
            assert(s@[j] == s.block_spec(j));
        }
    }
    assert(t.entries_valid() == s.entries_valid());
}

impl Default for ChunkStorage {
    fn default() -> (r: Self)
        ensures
            r.wf(),
            r@ == Seq::new(32768, |i: int| BlockId(0)),
            r.palette_spec() == seq![BlockId(0)],
            r.bits_spec() == 0,
    {
        Self::empty()
    }
}

} // verus!
