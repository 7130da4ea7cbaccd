//! Saving and loading a game session to a compact binary blob.
//!
//! The world is infinite and deterministic from its seed, so generated
//! terrain is never stored — only the seed plus the player's edits (modified
//! chunk storages) and session state (position, inventory, quest progress,
//! time of day). Real-valued session state travels as the raw bits of its
//! `f32` values.
//!
//! Layout, all little-endian: `"PXC1"`, seed `u64`, time of day, clock,
//! player x, y, z, yaw, pitch (each `u32` bits), selected slot `u32`, count
//! table length `u32` and the counts (`u32` each), completed quests `u32`,
//! quest progress `u32`, edit count `u32`, then per edit the chunk position
//! (`i32` x, y, z), the storage byte length `u32` and the storage bytes.

use crate::chunk::{encodes_prefix, lemma_encodes_prefix_unique, lemma_encoding_len, lemma_wf_decodable, ChunkStorage};
use crate::coords::ChunkPos;
use vstd::bytes::{
    spec_u32_from_le_bytes, spec_u32_to_le_bytes, spec_u64_from_le_bytes, spec_u64_to_le_bytes,
    lemma_auto_spec_u32_to_from_le_bytes, lemma_auto_spec_u64_to_from_le_bytes, u32_from_le_bytes,
    u32_to_le_bytes, u64_from_le_bytes, u64_to_le_bytes,
};
use vstd::prelude::*;
use vstd::slice::slice_subrange;

verus! {

/// Everything a save holds.
pub struct SaveState {
    pub seed: u64,
    pub time_of_day_bits: u32,
    pub time_bits: u32,
    pub px_bits: u32,
    pub py_bits: u32,
    pub pz_bits: u32,
    pub yaw_bits: u32,
    pub pitch_bits: u32,
    pub selected: u32,
    pub counts: Vec<u32>,
    pub completed: u32,
    pub progress: u32,
    pub edits: Vec<(ChunkPos, ChunkStorage)>,
}

/// The four magic bytes `"PXC1"`.
pub open spec fn magic() -> Seq<u8> {
    seq![80u8, 88u8, 67u8, 49u8]
}

/// A `u32`, little-endian.
pub open spec fn le32(v: u32) -> Seq<u8> {
    spec_u32_to_le_bytes(v)
}

/// The `u32` read at offset `at`.
pub open spec fn u32_at(b: Seq<u8>, at: int) -> u32 {
    spec_u32_from_le_bytes(b.subrange(at, at + 4))
}

/// The `u64` read at offset `at`.
pub open spec fn u64_at(b: Seq<u8>, at: int) -> u64 {
    spec_u64_from_le_bytes(b.subrange(at, at + 8))
}

/// A table of counts, each as a little-endian `u32`.
pub open spec fn counts_le(c: Seq<u32>) -> Seq<u8>
    decreases c.len(),
{
    if c.len() == 0 {
        Seq::empty()
    } else {
        counts_le(c.drop_last()) + le32(c.last())
    }
}

/// One edit: position, storage length and storage bytes.
pub open spec fn edit_le(pos: ChunkPos, blob: Seq<u8>) -> Seq<u8> {
    le32(pos.x as u32) + le32(pos.y as u32) + le32(pos.z as u32) + le32(blob.len() as u32) + blob
}

/// The edits, in order.
pub open spec fn edits_le(e: Seq<(ChunkPos, ChunkStorage)>) -> Seq<u8>
    decreases e.len(),
{
    if e.len() == 0 {
        Seq::empty()
    } else {
        edit_le(e[0].0, e[0].1.encoding()) + edits_le(e.drop_first())
    }
}

/// The bytes a save is written as.
pub open spec fn save_encoding(st: SaveState) -> Seq<u8> {
    magic() + spec_u64_to_le_bytes(st.seed) + le32(st.time_of_day_bits) + le32(st.time_bits) + le32(
        st.px_bits,
    ) + le32(st.py_bits) + le32(st.pz_bits) + le32(st.yaw_bits) + le32(st.pitch_bits) + le32(
        st.selected,
    ) + le32(st.counts@.len() as u32) + counts_le(st.counts@) + le32(st.completed) + le32(
        st.progress,
    ) + le32(st.edits@.len() as u32) + edits_le(st.edits@)
}

/// Whether a save can be written: its tables fit their `u32` lengths and
/// its storages are well formed.
pub open spec fn writable(st: SaveState) -> bool {
    &&& st.counts@.len() <= u32::MAX
    &&& st.edits@.len() <= u32::MAX
    &&& forall|k: int| 0 <= k < st.edits@.len() ==> (#[trigger] st.edits@[k]).1.wf()
}

/// `b` begins with one edit whose position is `e.0` and whose storage bytes
/// begin with the encoding of `e.1`.
pub open spec fn edit_parses(b: Seq<u8>, e: (ChunkPos, ChunkStorage)) -> bool {
    &&& b.len() >= 16
    &&& b.len() >= 16 + u32_at(b, 12)
    &&& e.0.x == u32_at(b, 0) as i32
    &&& e.0.y == u32_at(b, 4) as i32
    &&& e.0.z == u32_at(b, 8) as i32
    &&& encodes_prefix(e.1, b.subrange(16, 16 + u32_at(b, 12)))
}

/// The bytes after the first edit of `b`.
pub open spec fn after_edit(b: Seq<u8>) -> Seq<u8> {
    b.subrange(16 + u32_at(b, 12), b.len() as int)
}

/// `b` begins with the edits `e`, one after the other.
pub open spec fn edits_parse(b: Seq<u8>, e: Seq<(ChunkPos, ChunkStorage)>) -> bool
    decreases e.len(),
{
    if e.len() == 0 {
        true
    } else {
        edit_parses(b, e[0]) && edits_parse(after_edit(b), e.drop_first())
    }
}

/// `b` begins with a save of `st`, reading each storage from the bytes its
/// edit gives it.
pub open spec fn parses(b: Seq<u8>, st: SaveState) -> bool {
    let n = st.counts@.len() as int;
    &&& n <= u32::MAX
    &&& st.edits@.len() <= u32::MAX
    &&& b.len() >= 60 + 4 * n
    &&& b.subrange(0, 4) == magic()
    &&& u64_at(b, 4) == st.seed
    &&& u32_at(b, 12) == st.time_of_day_bits
    &&& u32_at(b, 16) == st.time_bits
    &&& u32_at(b, 20) == st.px_bits
    &&& u32_at(b, 24) == st.py_bits
    &&& u32_at(b, 28) == st.pz_bits
    &&& u32_at(b, 32) == st.yaw_bits
    &&& u32_at(b, 36) == st.pitch_bits
    &&& u32_at(b, 40) == st.selected
    &&& u32_at(b, 44) == n
    &&& forall|k: int| 0 <= k < n ==> #[trigger] st.counts@[k] == u32_at(b, 48 + 4 * k)
    &&& u32_at(b, 48 + 4 * n) == st.completed
    &&& u32_at(b, 52 + 4 * n) == st.progress
    &&& u32_at(b, 56 + 4 * n) == st.edits@.len()
    &&& edits_parse(b.subrange(60 + 4 * n, b.len() as int), st.edits@)
}

/// Two saves hold the same session: equal fields, and edits at the same
/// positions with the same voxels, palettes and index widths.
pub open spec fn same_save(a: SaveState, b: SaveState) -> bool {
    &&& a.seed == b.seed
    &&& a.time_of_day_bits == b.time_of_day_bits
    &&& a.time_bits == b.time_bits
    &&& a.px_bits == b.px_bits
    &&& a.py_bits == b.py_bits
    &&& a.pz_bits == b.pz_bits
    &&& a.yaw_bits == b.yaw_bits
    &&& a.pitch_bits == b.pitch_bits
    &&& a.selected == b.selected
    &&& a.counts@ == b.counts@
    &&& a.completed == b.completed
    &&& a.progress == b.progress
    &&& a.edits@.len() == b.edits@.len()
    &&& forall|k: int|
        0 <= k < a.edits@.len() ==> {
            &&& (#[trigger] a.edits@[k]).0 == b.edits@[k].0
            &&& a.edits@[k].1@ == b.edits@[k].1@
            &&& a.edits@[k].1.palette_spec() == b.edits@[k].1.palette_spec()
            &&& a.edits@[k].1.bits_spec() == b.edits@[k].1.bits_spec()
        }
}

proof fn lemma_counts_le(c: Seq<u32>)
    ensures
        counts_le(c).len() == 4 * c.len(),
        forall|k: int|
            0 <= k < c.len() ==> #[trigger] counts_le(c).subrange(4 * k, 4 * k + 4) == le32(c[k]),
    decreases c.len(),
{
    lemma_auto_spec_u32_to_from_le_bytes();
    if c.len() > 0 {
        let init = c.drop_last();
        lemma_counts_le(init);
        assert forall|k: int| 0 <= k < c.len() implies #[trigger] counts_le(c).subrange(4 * k, 4 * k + 4)
            == le32(c[k]) by {
            if k < init.len() {
                assert(counts_le(c).subrange(4 * k, 4 * k + 4) =~= counts_le(init).subrange(4 * k, 4 * k + 4));
                assert(init[k] == c[k]);
            } else {
                assert(counts_le(c).subrange(4 * k, 4 * k + 4) =~= le32(c.last()));
            }
        }
    }
}

proof fn lemma_i32_bits(x: i32)
    ensures
        (x as u32) as i32 == x,
{
    assert((x as u32) as i32 == x) by (bit_vector);
}

/// The written edits parse back as themselves, whatever follows them.
proof fn lemma_edits_roundtrip(e: Seq<(ChunkPos, ChunkStorage)>, rest: Seq<u8>)
    requires
        forall|k: int| 0 <= k < e.len() ==> (#[trigger] e[k]).1.wf(),
    ensures
        edits_parse(edits_le(e) + rest, e),
    decreases e.len(),
{
    lemma_auto_spec_u32_to_from_le_bytes();
    if e.len() > 0 {
        let tail = e.drop_first();
        assert forall|k: int| 0 <= k < tail.len() implies (#[trigger] tail[k]).1.wf() by {
            assert(tail[k] == e[k + 1]);
        }
        lemma_edits_roundtrip(tail, rest);
        let s = e[0].1;
        assert(s.wf());
        lemma_wf_decodable(s);
        lemma_encoding_len(s);
        let enc = s.encoding();
        let b = edits_le(e) + rest;
        let n = enc.len() as u32;
        assert(b =~= le32(e[0].0.x as u32) + le32(e[0].0.y as u32) + le32(e[0].0.z as u32) + le32(n) + enc
            + (edits_le(tail) + rest));
        assert(b.subrange(0, 4) =~= le32(e[0].0.x as u32));
        assert(b.subrange(4, 8) =~= le32(e[0].0.y as u32));
        assert(b.subrange(8, 12) =~= le32(e[0].0.z as u32));
        assert(b.subrange(12, 16) =~= le32(n));
        lemma_i32_bits(e[0].0.x);
        lemma_i32_bits(e[0].0.y);
        lemma_i32_bits(e[0].0.z);
        assert(b.subrange(16, 16 + n) =~= enc);
        assert(b.subrange(16, 16 + n).subrange(0, enc.len() as int) =~= enc);
        assert(after_edit(b) =~= edits_le(tail) + rest);
    }
}

/// Two parses of the same edit bytes agree, edit by edit.
proof fn lemma_edits_unique(b: Seq<u8>, e1: Seq<(ChunkPos, ChunkStorage)>, e2: Seq<(ChunkPos, ChunkStorage)>)
    requires
        edits_parse(b, e1),
        edits_parse(b, e2),
        e1.len() == e2.len(),
    ensures
        forall|k: int|
            0 <= k < e1.len() ==> {
                &&& (#[trigger] e1[k]).0 == e2[k].0
                &&& e1[k].1@ == e2[k].1@
                &&& e1[k].1.palette_spec() == e2[k].1.palette_spec()
                &&& e1[k].1.bits_spec() == e2[k].1.bits_spec()
            },
    decreases e1.len(),
{
    if e1.len() > 0 {
        lemma_edits_unique(after_edit(b), e1.drop_first(), e2.drop_first());
        lemma_encodes_prefix_unique(e1[0].1, e2[0].1, b.subrange(16, 16 + u32_at(b, 12)));
        assert forall|k: int| 0 <= k < e1.len() implies {
            &&& (#[trigger] e1[k]).0 == e2[k].0
            &&& e1[k].1@ == e2[k].1@
            &&& e1[k].1.palette_spec() == e2[k].1.palette_spec()
            &&& e1[k].1.bits_spec() == e2[k].1.bits_spec()
        } by {
            if k > 0 {
                assert(e1[k] == e1.drop_first()[k - 1]);
                assert(e2[k] == e2.drop_first()[k - 1]);
            }
        }
    }
}

/// A written save, followed by any bytes, parses as that save.
pub proof fn lemma_save_parses(st: SaveState, rest: Seq<u8>)
    requires
        writable(st),
    ensures
        parses(save_encoding(st) + rest, st),
{
    lemma_auto_spec_u32_to_from_le_bytes();
    lemma_auto_spec_u64_to_from_le_bytes();
    let c = st.counts@;
    let n = c.len() as int;
    lemma_counts_le(c);
    let b = save_encoding(st) + rest;
    let head = magic() + spec_u64_to_le_bytes(st.seed) + le32(st.time_of_day_bits) + le32(st.time_bits)
        + le32(st.px_bits) + le32(st.py_bits) + le32(st.pz_bits) + le32(st.yaw_bits) + le32(
        st.pitch_bits,
    ) + le32(st.selected) + le32(n as u32);
    let tail = le32(st.completed) + le32(st.progress) + le32(st.edits@.len() as u32) + edits_le(
        st.edits@,
    ) + rest;
    assert(b =~= head + counts_le(c) + tail);
    assert(head.len() == 48);
    assert(b.subrange(0, 4) =~= magic());
    assert(b.subrange(4, 12) =~= spec_u64_to_le_bytes(st.seed));
    assert(b.subrange(12, 16) =~= le32(st.time_of_day_bits));
    assert(b.subrange(16, 20) =~= le32(st.time_bits));
    assert(b.subrange(20, 24) =~= le32(st.px_bits));
    assert(b.subrange(24, 28) =~= le32(st.py_bits));
    assert(b.subrange(28, 32) =~= le32(st.pz_bits));
    assert(b.subrange(32, 36) =~= le32(st.yaw_bits));
    assert(b.subrange(36, 40) =~= le32(st.pitch_bits));
    assert(b.subrange(40, 44) =~= le32(st.selected));
    assert(b.subrange(44, 48) =~= le32(n as u32));
    assert forall|k: int| 0 <= k < n implies #[trigger] c[k] == u32_at(b, 48 + 4 * k) by {
        assert(b.subrange(48 + 4 * k, 48 + 4 * k + 4) =~= counts_le(c).subrange(4 * k, 4 * k + 4));
    }
    assert(b.subrange(48 + 4 * n, 52 + 4 * n) =~= le32(st.completed));
    assert(b.subrange(52 + 4 * n, 56 + 4 * n) =~= le32(st.progress));
    assert(b.subrange(56 + 4 * n, 60 + 4 * n) =~= le32(st.edits@.len() as u32));
    assert(b.subrange(60 + 4 * n, b.len() as int) =~= edits_le(st.edits@) + rest);
    lemma_edits_roundtrip(st.edits@, rest);
}

/// Saving round-trips: whatever a written save (followed by any bytes) is
/// read back as holds the same session.
pub proof fn lemma_save_roundtrip(st: SaveState, rest: Seq<u8>, back: SaveState)
    requires
        writable(st),
        parses(save_encoding(st) + rest, back),
    ensures
        same_save(st, back),
{
    lemma_save_parses(st, rest);
    let b = save_encoding(st) + rest;
    let n = st.counts@.len() as int;
    assert(back.counts@.len() == n);
    assert(st.counts@ =~= back.counts@) by {
        assert forall|k: int| 0 <= k < n implies st.counts@[k] == back.counts@[k] by {
            assert(st.counts@[k] == u32_at(b, 48 + 4 * k));
            assert(back.counts@[k] == u32_at(b, 48 + 4 * k));
        }
    }
    lemma_edits_unique(b.subrange(60 + 4 * n, b.len() as int), st.edits@, back.edits@);
}

fn push_u32(out: &mut Vec<u8>, v: u32)
    ensures
        final(out)@ == old(out)@ + le32(v),
{
    let mut b = u32_to_le_bytes(v);
    out.append(&mut b);
}

/// Serialise a save.
pub fn encode_save(st: &SaveState) -> (r: Vec<u8>)
    requires
        writable(*st),
    ensures
        r@ == save_encoding(*st),
{
    let mut out: Vec<u8> = Vec::new();
    out.push(80u8);
    out.push(88u8);
    out.push(67u8);
    out.push(49u8);
    let mut b = u64_to_le_bytes(st.seed);
    out.append(&mut b);
    push_u32(&mut out, st.time_of_day_bits);
    push_u32(&mut out, st.time_bits);
    push_u32(&mut out, st.px_bits);
    push_u32(&mut out, st.py_bits);
    push_u32(&mut out, st.pz_bits);
    push_u32(&mut out, st.yaw_bits);
    push_u32(&mut out, st.pitch_bits);
    push_u32(&mut out, st.selected);
    push_u32(&mut out, st.counts.len() as u32);
    let ghost head = out@;
    let mut k: usize = 0;
    while k < st.counts.len()
        invariant
            k <= st.counts@.len(),
            out@ == head + counts_le(st.counts@.take(k as int)),
        decreases st.counts@.len() - k,
    {
        push_u32(&mut out, st.counts[k]);
        proof {
            assert(st.counts@.take(k as int + 1).drop_last() =~= st.counts@.take(k as int));
        }
        k += 1;
    }
    proof {
        assert(st.counts@.take(k as int) =~= st.counts@);
    }
    push_u32(&mut out, st.completed);
    push_u32(&mut out, st.progress);
    push_u32(&mut out, st.edits.len() as u32);
    let ghost mid = out@;
    let mut k: usize = 0;
    proof {
        assert(st.edits@.subrange(0, st.edits@.len() as int) =~= st.edits@);
    }
    while k < st.edits.len()
        invariant
            writable(*st),
            k <= st.edits@.len(),
            out@ + edits_le(st.edits@.subrange(k as int, st.edits@.len() as int)) == mid + edits_le(
                st.edits@,
            ),
        decreases st.edits@.len() - k,
    {
        let (pos, storage) = &st.edits[k];
        assert(st.edits@[k as int].1.wf());
        proof {
            lemma_wf_decodable(*storage);
            lemma_encoding_len(*storage);
        }
        let mut blob = storage.to_bytes();
        push_u32(&mut out, pos.x as u32);
        push_u32(&mut out, pos.y as u32);
        push_u32(&mut out, pos.z as u32);
        push_u32(&mut out, blob.len() as u32);
        out.append(&mut blob);
        proof {
            let rem = st.edits@.subrange(k as int, st.edits@.len() as int);
            assert(rem.drop_first() =~= st.edits@.subrange(k as int + 1, st.edits@.len() as int));
            assert(rem[0] == st.edits@[k as int]);
        }
        k += 1;
    }
    proof {
        assert(st.edits@.subrange(k as int, st.edits@.len() as int) =~= Seq::<(ChunkPos, ChunkStorage)>::empty());
        assert(mid == head + counts_le(st.counts@) + le32(st.completed) + le32(st.progress) + le32(
            st.edits@.len() as u32,
        ));
        assert(out@ =~= save_encoding(*st));
    }
    out
}

fn read_u32(b: &[u8], at: usize) -> (r: u32)
    requires
        at + 4 <= b@.len(),
    ensures
        r == u32_at(b@, at as int),
{
    let l = b.len();
    u32_from_le_bytes(slice_subrange(b, at, at + 4))
}

/// Read a save back. Returns `None` exactly when the bytes do not begin with
/// any save.
pub fn decode_save(bytes: &[u8]) -> (r: Option<SaveState>)
    ensures
        match r {
            Some(st) => parses(bytes@, st),
            None => forall|st: SaveState| !parses(bytes@, st),
        },
{
    let ghost has_w = exists|st: SaveState| parses(bytes@, st);
    let ghost w = choose|st: SaveState| parses(bytes@, st);
    let len = bytes.len();
    if len < 48 {
        return None;
    }
    if bytes[0] != 80u8 || bytes[1] != 88u8 || bytes[2] != 67u8 || bytes[3] != 49u8 {
        proof {
            if has_w {
                assert(bytes@.subrange(0, 4)[0] == bytes@[0]);
                assert(bytes@.subrange(0, 4)[1] == bytes@[1]);
                assert(bytes@.subrange(0, 4)[2] == bytes@[2]);
                assert(bytes@.subrange(0, 4)[3] == bytes@[3]);
            }
        }
        return None;
    }
    proof {
        assert(bytes@.subrange(0, 4) =~= magic());
    }
    let seed = u64_from_le_bytes(slice_subrange(bytes, 4, 12));
    let time_of_day_bits = read_u32(bytes, 12);
    let time_bits = read_u32(bytes, 16);
    let px_bits = read_u32(bytes, 20);
    let py_bits = read_u32(bytes, 24);
    let pz_bits = read_u32(bytes, 28);
    let yaw_bits = read_u32(bytes, 32);
    let pitch_bits = read_u32(bytes, 36);
    let selected = read_u32(bytes, 40);
    let n = read_u32(bytes, 44);
    let need: u64 = 60 + 4 * (n as u64);
    if (len as u64) < need {
        return None;
    }
    let n = n as usize;
    let mut counts: Vec<u32> = Vec::new();
    let mut k: usize = 0;
    while k < n
        invariant
            len == bytes@.len(),
            60 + 4 * n <= len,
            k <= n,
            counts@.len() == k,
            forall|q: int| 0 <= q < k ==> #[trigger] counts@[q] == u32_at(bytes@, 48 + 4 * q),
        decreases n - k,
    {
        counts.push(read_u32(bytes, 48 + 4 * k));
        k += 1;
    }
    let completed = read_u32(bytes, 48 + 4 * n);
    let progress = read_u32(bytes, 52 + 4 * n);
    let edit_count = read_u32(bytes, 56 + 4 * n);
    let start = 60 + 4 * n;
    let ghost suffix = |c: int| bytes@.subrange(c, len as int);
    proof {
        if has_w {
            assert(w.counts@.len() == n);
            assert(w.edits@.subrange(0, w.edits@.len() as int) =~= w.edits@);
            assert(w.edits@.len() == edit_count);
        }
    }
    let mut edits: Vec<(ChunkPos, ChunkStorage)> = Vec::new();
    let mut c: usize = start;
    let mut e: u32 = 0;
    while e < edit_count
        invariant
            len == bytes@.len(),
            start <= c <= len,
            e <= edit_count,
            edits@.len() == e,
            suffix == (|c: int| bytes@.subrange(c, len as int)),
            forall|rest: Seq<(ChunkPos, ChunkStorage)>|
                edits_parse(#[trigger] suffix(c as int), rest) ==> edits_parse(
                    suffix(start as int),
                    edits@ + rest,
                ),
            has_w == (exists|st: SaveState| parses(bytes@, st)),
            has_w ==> w.edits@.len() == edit_count && edits_parse(
                suffix(c as int),
                w.edits@.subrange(e as int, edit_count as int),
            ),
        decreases edit_count - e,
    {
        let ghost sc = suffix(c as int);
        let ghost wrest = w.edits@.subrange(e as int, edit_count as int);
        if len - c < 16 {
            proof {
                if has_w {
                    assert(wrest.len() > 0);
                    assert(sc.len() == len - c);
                    assert(edit_parses(sc, wrest[0]));
                }
            }
            return None;
        }
        let x = read_u32(bytes, c) as i32;
        let y = read_u32(bytes, c + 4) as i32;
        let z = read_u32(bytes, c + 8) as i32;
        let bl = read_u32(bytes, c + 12) as usize;
        proof {
            assert(sc.subrange(0, 4) =~= bytes@.subrange(c as int, c + 4));
            assert(sc.subrange(4, 8) =~= bytes@.subrange(c + 4, c + 8));
            assert(sc.subrange(8, 12) =~= bytes@.subrange(c + 8, c + 12));
            assert(sc.subrange(12, 16) =~= bytes@.subrange(c + 12, c + 16));
        }
        if len - c - 16 < bl {
            proof {
                if has_w {
                    assert(wrest.len() > 0);
                    assert(sc.len() == len - c);
                    assert(edit_parses(sc, wrest[0]));
                    assert(u32_at(sc, 12) == bl);
                }
            }
            return None;
        }
        let blob = slice_subrange(bytes, c + 16, c + 16 + bl);
        proof {
            assert(blob@ =~= sc.subrange(16, 16 + bl));
        }
        match ChunkStorage::from_bytes(blob) {
            None => {
                proof {
                    if has_w {
                        assert(wrest.len() > 0);
                        assert(edit_parses(sc, wrest[0]));
                    }
                }
                return None;
            },
            Some((storage, _used)) => {
                let ghost item = (ChunkPos { x, y, z }, storage);
                proof {
                    assert(edit_parses(sc, item));
                    assert(after_edit(sc) =~= suffix(c + 16 + bl));
                    assert forall|rest: Seq<(ChunkPos, ChunkStorage)>|
                        edits_parse(#[trigger] suffix(c + 16 + bl), rest) implies edits_parse(
                        suffix(start as int),
                        edits@.push(item) + rest,
                    ) by {
                        let r2 = seq![item] + rest;
                        assert(r2.drop_first() =~= rest);
                        assert(r2[0] == item);
                        assert(edits_parse(sc, r2));
                        assert(edits@ + r2 =~= edits@.push(item) + rest);
                    }
                    if has_w {
                        assert(wrest.drop_first() =~= w.edits@.subrange(e + 1, edit_count as int));
                    }
                }
                edits.push((ChunkPos::new(x, y, z), storage));
                c = c + 16 + bl;
                e = e + 1;
            },
        }
    }
    let st = SaveState {
        seed,
        time_of_day_bits,
        time_bits,
        px_bits,
        py_bits,
        pz_bits,
        yaw_bits,
        pitch_bits,
        selected,
        counts,
        completed,
        progress,
        edits,
    };
    proof {
        assert(edits_parse(suffix(c as int), Seq::<(ChunkPos, ChunkStorage)>::empty()));
        assert(edits@ + Seq::<(ChunkPos, ChunkStorage)>::empty() =~= edits@);
        assert(parses(bytes@, st));
    }
    Some(st)
}

} // verus!
