//! In-memory world: a sparse map of loaded chunks keyed by chunk position.
//!
//! The world is conceptually infinite; only chunks near players are
//! resident. Storage is an `ahash` hash map because chunk lookups happen
//! constantly (physics, neighbour queries in meshing, block edits).

use crate::block::BlockId;
use crate::chunk::{footprint_of, ChunkStorage, words_for};
use crate::coords::{BlockPos, ChunkPos, LocalPos, chunk_coord, local_coord, local_index};
use ahash::{AHashMap, RandomState};
use vstd::prelude::*;
use vstd::layout::size_of;
use vstd::set::fold::{is_fun_commutative, lemma_fold_insert};
use vstd::seq_lib::seq_to_set_is_finite;

verus! {

#[verifier::external_type_specification]
#[verifier::external_body]
#[verifier::reject_recursive_types(K)]
#[verifier::reject_recursive_types(V)]
#[verifier::reject_recursive_types(S)]
pub struct ExAHashMap<K, V, S>(AHashMap<K, V, S>);

#[verifier::external_type_specification]
#[verifier::external_body]
pub struct ExRandomState(RandomState);

/// The hash-map key of a chunk position.
pub type ChunkKey = (i32, i32, i32);

pub open spec fn key_of(p: ChunkPos) -> ChunkKey {
    (p.x, p.y, p.z)
}

/// The hash map that holds the loaded chunks.
pub type ChunkTable = AHashMap<ChunkKey, Chunk>;

/// The chunks held by a chunk table, by key.
pub uninterp spec fn table_contents(m: ChunkTable) -> Map<ChunkKey, Chunk>;

/// The table with no chunk in it.
pub open spec fn no_chunks() -> Map<ChunkKey, Chunk> {
    Map::empty()
}

/// Calls `AHashMap::new`: an empty table.
#[verifier::external_body]
fn table_new() -> (r: ChunkTable)
    ensures
        table_contents(r) == no_chunks(),
{
    AHashMap::new()
}

/// Calls `len` (through `AHashMap`'s deref to `HashMap`): the number of keys.
#[verifier::external_body]
fn table_len(m: &ChunkTable) -> (r: usize)
    ensures
        r == table_contents(*m).dom().len(),
{
    m.len()
}

/// Calls `contains_key` (through deref): whether the key is present.
#[verifier::external_body]
fn table_contains(m: &ChunkTable, k: ChunkKey) -> (r: bool)
    ensures
        r == table_contents(*m).contains_key(k),
{
    m.contains_key(&k)
}

/// Calls `AHashMap::get`: the value under the key, if present.
#[verifier::external_body]
fn table_get<'a>(m: &'a ChunkTable, k: ChunkKey) -> (r: Option<&'a Chunk>)
    ensures
        r is Some <==> table_contents(*m).contains_key(k),
        r matches Some(c) ==> *c == table_contents(*m)[k],
{
    m.get(&k)
}

/// Calls `AHashMap::get_mut`: a mutable borrow of the value under the key, if
/// present; what is written through it is what the table holds afterwards.
#[verifier::external_body]
fn table_get_mut<'a>(m: &'a mut ChunkTable, k: ChunkKey) -> (r: Option<
    &'a mut Chunk,
>)
    ensures
        r is Some <==> table_contents(*old(m)).contains_key(k),
        match r {
            Some(c) => *c == table_contents(*old(m))[k] && table_contents(*final(m))
                == table_contents(*old(m)).insert(k, *final(c)),
            None => table_contents(*final(m)) == table_contents(*old(m)),
        },
{
    m.get_mut(&k)
}

/// Calls `AHashMap::insert`: the key now maps to the value; the previous
/// value, if any, is returned.
#[verifier::external_body]
fn table_insert(m: &mut ChunkTable, k: ChunkKey, v: Chunk) -> (r: Option<Chunk>)
    ensures
        table_contents(*final(m)) == table_contents(*old(m)).insert(k, v),
        r == (if table_contents(*old(m)).contains_key(k) {
            Some(table_contents(*old(m))[k])
        } else {
            None
        }),
{
    m.insert(k, v)
}

/// Calls `AHashMap::remove`: the key is gone; its value, if any, is returned.
#[verifier::external_body]
fn table_remove(m: &mut ChunkTable, k: ChunkKey) -> (r: Option<Chunk>)
    ensures
        table_contents(*final(m)) == table_contents(*old(m)).remove(k),
        r == (if table_contents(*old(m)).contains_key(k) {
            Some(table_contents(*old(m))[k])
        } else {
            None
        }),
{
    m.remove(&k)
}

/// Calls `keys` (through deref) and copies each key out: every key exactly
/// once, in the table's unspecified iteration order.
#[verifier::external_body]
fn table_keys(m: &ChunkTable) -> (r: Vec<ChunkKey>)
    ensures
        r@.no_duplicates(),
        r@.to_set() == table_contents(*m).dom(),
{
    m.keys().map(|k| *k).collect()
}

/// A resident chunk plus bookkeeping for the streaming/meshing pipeline.
pub struct Chunk {
    pub pos: ChunkPos,
    pub storage: ChunkStorage,
    /// Set when the voxels changed and the GPU mesh is stale.
    pub dirty: bool,
}

impl Chunk {
    /// A freshly loaded chunk: dirty, so it gets meshed.
    pub fn new(pos: ChunkPos, storage: ChunkStorage) -> (r: Self)
        ensures
            r.pos == pos,
            r.storage == storage,
            r.dirty,
    {
        Chunk { pos, storage, dirty: true }
    }
}

/// The collection of currently-loaded chunks.
pub struct World {
    chunks: ChunkTable,
}

impl View for World {
    type V = Map<ChunkKey, Chunk>;

    closed spec fn view(&self) -> Map<ChunkKey, Chunk> {
        table_contents(self.chunks)
    }
}

/// The chunk containing a block position.
pub open spec fn chunk_of(p: BlockPos) -> ChunkKey {
    (chunk_coord(p.x as int) as i32, chunk_coord(p.y as int) as i32, chunk_coord(p.z as int) as i32)
}

/// The linear in-chunk index of a block position.
pub open spec fn index_in_chunk(p: BlockPos) -> int {
    local_index(local_coord(p.x as int), local_coord(p.y as int), local_coord(p.z as int))
}

/// The block at a world position: air where no chunk is loaded.
pub open spec fn block_in(m: Map<ChunkKey, Chunk>, p: BlockPos) -> BlockId {
    if m.contains_key(chunk_of(p)) {
        m[chunk_of(p)].storage@[index_in_chunk(p)]
    } else {
        BlockId(0)
    }
}

/// Keys of the loaded neighbours across the faces of the chunk that a block
/// position lies on the border of.
pub open spec fn border_neighbours(p: BlockPos) -> Set<ChunkKey> {
    let c = chunk_of(p);
    let lx = local_coord(p.x as int);
    let ly = local_coord(p.y as int);
    let lz = local_coord(p.z as int);
    Set::new(
        |k: ChunkKey|
            (lx == 0 && k == ((c.0 - 1) as i32, c.1, c.2)) || (lx == 31 && k == ((c.0 + 1) as i32, c.1, c.2))
                || (ly == 0 && k == (c.0, (c.1 - 1) as i32, c.2)) || (ly == 31 && k == (c.0, (c.1
                + 1) as i32, c.2)) || (lz == 0 && k == (c.0, c.1, (c.2 - 1) as i32)) || (lz == 31
                && k == (c.0, c.1, (c.2 + 1) as i32)),
    )
}

/// The world after writing `b` at `p` into a loaded chunk that held another
/// block: that chunk gets the new voxel and turns dirty, as do the loaded
/// neighbours across the border the block lies on.
pub open spec fn after_edit(m: Map<ChunkKey, Chunk>, p: BlockPos, b: BlockId, storage: ChunkStorage) -> Map<
    ChunkKey,
    Chunk,
> {
    Map::new(
        |k: ChunkKey| m.contains_key(k),
        |k: ChunkKey|
            if k == chunk_of(p) {
                Chunk { pos: m[k].pos, storage, dirty: true }
            } else if border_neighbours(p).contains(k) {
                Chunk { pos: m[k].pos, storage: m[k].storage, dirty: true }
            } else {
                m[k]
            },
    )
}

impl World {
    /// Every chunk sits under the key of its own position and holds
    /// well-formed storage.
    pub closed spec fn wf(&self) -> bool {
        forall|k: ChunkKey|
            #[trigger] self@.contains_key(k) ==> key_of(self@[k].pos) == k && self@[k].storage.wf()
    }

    /// A loaded chunk of a well-formed world sits under its own key and has
    /// well-formed storage.
    pub proof fn lemma_loaded_chunk(&self, k: ChunkKey)
        requires
            self.wf(),
            self@.contains_key(k),
        ensures
            key_of(self@[k].pos) == k,
            self@[k].storage.wf(),
    {
    }

    pub fn new() -> (r: Self)
        ensures
            r@ == Map::<ChunkKey, Chunk>::empty(),
            r.wf(),
    {
        World { chunks: table_new() }
    }

    pub fn chunk_count(&self) -> (r: usize)
        ensures
            r == self@.dom().len(),
    {
        table_len(&self.chunks)
    }

    pub fn contains_chunk(&self, pos: ChunkPos) -> (r: bool)
        ensures
            r == self@.contains_key(key_of(pos)),
    {
        table_contains(&self.chunks, (pos.x, pos.y, pos.z))
    }

    pub fn get_chunk(&self, pos: ChunkPos) -> (r: Option<&Chunk>)
        ensures
            r is Some <==> self@.contains_key(key_of(pos)),
            r matches Some(c) ==> *c == self@[key_of(pos)],
    {
        table_get(&self.chunks, (pos.x, pos.y, pos.z))
    }

    /// A mutable borrow of a loaded chunk; what is written through it is
    /// what the world holds afterwards.
    pub fn get_chunk_mut(&mut self, pos: ChunkPos) -> (r: Option<&mut Chunk>)
        ensures
            r is Some <==> old(self)@.contains_key(key_of(pos)),
            match r {
                Some(c) => *c == old(self)@[key_of(pos)] && final(self)@ == old(self)@.insert(
                    key_of(pos),
                    *final(c),
                ),
                None => final(self)@ == old(self)@,
            },
    {
        table_get_mut(&mut self.chunks, (pos.x, pos.y, pos.z))
    }

    /// Insert (or replace) a chunk's storage; the chunk starts dirty.
    pub fn insert_chunk(&mut self, pos: ChunkPos, storage: ChunkStorage)
        requires
            old(self).wf(),
            storage.wf(),
        ensures
            final(self).wf(),
            final(self)@ == old(self)@.insert(key_of(pos), Chunk { pos, storage, dirty: true }),
    {
        let ghost m0 = self@;
        let _ = table_insert(&mut self.chunks, (pos.x, pos.y, pos.z), Chunk::new(pos, storage));
        proof {
            assert forall|k: ChunkKey| #[trigger] self@.contains_key(k) implies key_of(self@[k].pos)
                == k && self@[k].storage.wf() by {
                if k != key_of(pos) {
                    assert(m0.contains_key(k));
                }
            }
        }
    }

    /// Remove a chunk, returning it so the caller can persist it.
    pub fn remove_chunk(&mut self, pos: ChunkPos) -> (r: Option<Chunk>)
        requires
            old(self).wf(),
        ensures
            final(self).wf(),
            final(self)@ == old(self)@.remove(key_of(pos)),
            r == (if old(self)@.contains_key(key_of(pos)) {
                Some(old(self)@[key_of(pos)])
            } else {
                None
            }),
    {
        let ghost m0 = self@;
        let r = table_remove(&mut self.chunks, (pos.x, pos.y, pos.z));
        proof {
            assert forall|k: ChunkKey| #[trigger] self@.contains_key(k) implies key_of(self@[k].pos)
                == k && self@[k].storage.wf() by {
                assert(m0.contains_key(k));
            }
        }
        r
    }

    /// Block at a world position. Returns air for unloaded regions.
    pub fn block_at(&self, pos: BlockPos) -> (r: BlockId)
        requires
            self.wf(),
        ensures
            r == block_in(self@, pos),
    {
        let c = pos.chunk();
        match table_get(&self.chunks, (c.x, c.y, c.z)) {
            Some(ch) => {
                assert(self@.contains_key(key_of(c)));
                ch.storage.get(pos.local())
            },
            None => BlockId::AIR(),
        }
    }

    /// Set a block, marking its chunk dirty. Returns `false` if the chunk is
    /// not loaded (the edit is dropped). Writing the block already there
    /// changes nothing; otherwise neighbouring loaded chunks across the
    /// border the block lies on are marked dirty too.
    pub fn set_block(&mut self, pos: BlockPos, block: BlockId) -> (r: bool)
        requires
            old(self).wf(),
        ensures
            final(self).wf(),
            r == old(self)@.contains_key(chunk_of(pos)),
            !r ==> final(self)@ == old(self)@,
            r && block_in(old(self)@, pos) == block ==> final(self)@ == old(self)@,
            r && block_in(old(self)@, pos) != block ==> final(self)@ == after_edit(
                old(self)@,
                pos,
                block,
                final(self)@[chunk_of(pos)].storage,
            ) && final(self)@[chunk_of(pos)].storage@ == old(self)@[chunk_of(
                pos,
            )].storage@.update(index_in_chunk(pos), block),
    {
        let cpos = pos.chunk();
        let ghost ck = chunk_of(pos);
        let ghost m0 = self@;
        let chunk = match table_get_mut(&mut self.chunks, (cpos.x, cpos.y, cpos.z)) {
            Some(c) => c,
            None => {
                return false;
            },
        };
        let local = pos.local();
        if chunk.storage.get(local) == block {
            return true;  // no change, no dirtying
        }
        chunk.storage.set(local, block);
        chunk.dirty = true;
        let ghost m1 = self@;
        assert(m1 == m0.insert(ck, Chunk { pos: m0[ck].pos, storage: m1[ck].storage, dirty: true }));
        self.mark_border_neighbours_dirty(pos, cpos);
        assert(self@ =~= after_edit(m0, pos, block, self@[ck].storage));
        true
    }

    fn mark_border_neighbours_dirty(&mut self, pos: BlockPos, cpos: ChunkPos)
        requires
            old(self).wf(),
            key_of(cpos) == chunk_of(pos),
        ensures
            final(self).wf(),
            final(self)@ == Map::new(
                |k: ChunkKey| old(self)@.contains_key(k),
                |k: ChunkKey|
                    if border_neighbours(pos).contains(k) {
                        Chunk { pos: old(self)@[k].pos, storage: old(self)@[k].storage, dirty: true }
                    } else {
                        old(self)@[k]
                    },
            ),
    {
        let l = pos.local();
        let edge: u8 = 31;
        let ghost m0 = self@;
        assert(-0x400_0000 <= cpos.x < 0x400_0000);
        assert(-0x400_0000 <= cpos.y < 0x400_0000);
        assert(-0x400_0000 <= cpos.z < 0x400_0000);
        if l.x == 0 {
            self.dirty_neighbour(cpos.offset(-1, 0, 0));
        }
        if l.x == edge {
            self.dirty_neighbour(cpos.offset(1, 0, 0));
        }
        if l.y == 0 {
            self.dirty_neighbour(cpos.offset(0, -1, 0));
        }
        if l.y == edge {
            self.dirty_neighbour(cpos.offset(0, 1, 0));
        }
        if l.z == 0 {
            self.dirty_neighbour(cpos.offset(0, 0, -1));
        }
        if l.z == edge {
            self.dirty_neighbour(cpos.offset(0, 0, 1));
        }
        assert(self@ =~= Map::new(
            |k: ChunkKey| m0.contains_key(k),
            |k: ChunkKey|
                if border_neighbours(pos).contains(k) {
                    Chunk { pos: m0[k].pos, storage: m0[k].storage, dirty: true }
                } else {
                    m0[k]
                },
        ));
    }

    /// Mark a loaded chunk dirty; no-op if it is not loaded.
    pub fn dirty_neighbour(&mut self, n: ChunkPos)
        requires
            old(self).wf(),
        ensures
            final(self).wf(),
            final(self)@ == (if old(self)@.contains_key(key_of(n)) {
                old(self)@.insert(
                    key_of(n),
                    Chunk {
                        pos: old(self)@[key_of(n)].pos,
                        storage: old(self)@[key_of(n)].storage,
                        dirty: true,
                    },
                )
            } else {
                old(self)@
            }),
    {
        let ghost m0 = self@;
        if let Some(c) = table_get_mut(&mut self.chunks, (n.x, n.y, n.z)) {
            c.dirty = true;
        }
        proof {
            assert forall|k: ChunkKey| #[trigger] self@.contains_key(k) implies key_of(self@[k].pos)
                == k && self@[k].storage.wf() by {
                assert(m0.contains_key(k));
            }
        }
    }

    /// The loaded chunks, each exactly once, in the table's iteration order.
    pub fn iter_chunks(&self) -> (r: Vec<&Chunk>)
        requires
            self.wf(),
        ensures
            r@.len() == self@.dom().len(),
            forall|i: int|
                0 <= i < r@.len() ==> self@.contains_key(key_of(#[trigger] r@[i].pos)) && self@[key_of(
                    r@[i].pos,
                )] == *r@[i],
            forall|i: int, j: int| 0 <= i < j < r@.len() ==> r@[i].pos != r@[j].pos,
            forall|k: ChunkKey|
                #[trigger] self@.contains_key(k) ==> exists|i: int|
                    0 <= i < r@.len() && key_of(#[trigger] r@[i].pos) == k,
    {
        let keys = table_keys(&self.chunks);
        proof {
            keys@.unique_seq_to_set();
        }
        let mut out: Vec<&Chunk> = Vec::new();
        let mut i: usize = 0;
        while i < keys.len()
            invariant
                self.wf(),
                i <= keys@.len(),
                keys@.no_duplicates(),
                keys@.to_set() == self@.dom(),
                out@.len() == i,
                forall|q: int| 0 <= q < i ==> key_of(#[trigger] out@[q].pos) == keys@[q] && self@.contains_key(
                    keys@[q],
                ) && self@[keys@[q]] == *out@[q],
            decreases keys@.len() - i,
        {
            let k = keys[i];
            assert(keys@.to_set().contains(k));
            match table_get(&self.chunks, k) {
                Some(c) => {
                    out.push(c);
                },
                None => {
                    assert(false);
                },
            }
            i = i + 1;
        }
        proof {
            assert forall|a: int, b: int| 0 <= a < b < out@.len() implies out@[a].pos
                != out@[b].pos by {
                assert(key_of(out@[a].pos) == keys@[a]);
                assert(key_of(out@[b].pos) == keys@[b]);
            }
            assert forall|k: ChunkKey| #[trigger] self@.contains_key(k) implies exists|i: int|
                0 <= i < out@.len() && key_of(#[trigger] out@[i].pos) == k by {
                assert(keys@.to_set().contains(k));
                let q = choose|q: int| 0 <= q < keys@.len() && keys@[q] == k;
                assert(key_of(out@[q].pos) == keys@[q]);
            }
        }
        out
    }

    /// Total approximate heap used by resident voxel data, saturating at
    /// `usize::MAX`: the sum, over the loaded chunks, of one possible
    /// footprint of each (see [`footprint_of`]); `0` for an empty world.
    pub fn voxel_memory_bytes(&self) -> (r: usize)
        requires
            self.wf(),
        ensures
            exists|keys: Seq<ChunkKey>, f: Seq<int>|
                #[trigger] footprints(self@, keys, f) && r == saturated(sum_of(f)),
            self@.dom() == Set::<ChunkKey>::empty() ==> r == 0,
            r >= voxel_floor(self@) || r == usize::MAX,
    {
        let keys = table_keys(&self.chunks);
        let ghost f = floor_step(self@);
        let ghost mut fs: Seq<int> = Seq::empty();
        let mut total: usize = 0;
        let mut i: usize = 0;
        proof {
            lemma_floor_step_commutes(self@);
            assert(keys@.subrange(0, 0).to_set() =~= Set::<ChunkKey>::empty());
            vstd::set::fold::lemma_fold_empty::<ChunkKey, int>(0int, f);
        }
        while i < keys.len()
            invariant
                self.wf(),
                f == floor_step(self@),
                is_fun_commutative(f),
                i <= keys@.len(),
                keys@.no_duplicates(),
                keys@.to_set() == self@.dom(),
                total >= keys@.subrange(0, i as int).to_set().fold(0int, f) || total == usize::MAX,
                fs.len() == i,
                forall|j: int| 0 <= j < i ==> footprint_of(self@[keys@[j]].storage, #[trigger] fs[j]),
                total == saturated(sum_of(fs)),
            decreases keys@.len() - i,
        {
            let k = keys[i];
            assert(keys@.to_set().contains(k));
            let ghost before = keys@.subrange(0, i as int).to_set();
            proof {
                assert(keys@.subrange(0, i as int + 1).to_set() =~= before.insert(k)) by {
                    assert(keys@.subrange(0, i as int + 1) =~= keys@.subrange(0, i as int).push(k));
                    keys@.subrange(0, i as int).lemma_push_to_set_commute(k);
                }
                assert(!before.contains(k)) by {
                    if before.contains(k) {
                        let q = choose|q: int| 0 <= q < i && keys@.subrange(0, i as int)[q] == k;
                        assert(keys@[q] == keys@[i as int]);
                    }
                }
                seq_to_set_is_finite(keys@.subrange(0, i as int));
                lemma_fold_insert(before, 0int, f, k);
            }
            match table_get(&self.chunks, k) {
                Some(c) => {
                    let m = c.storage.memory_bytes();
                    proof {
                        assert(fs.push(m as int).drop_last() =~= fs);
                        assert(sum_of(fs.push(m as int)) == sum_of(fs) + m);
                        fs = fs.push(m as int);
                    }
                    total = total.saturating_add(m);
                },
                None => {
                    assert(false);
                },
            }
            i = i + 1;
        }
        proof {
            assert(keys@.subrange(0, keys@.len() as int) =~= keys@);
            assert(footprints(self@, keys@, fs));
            if self@.dom() == Set::<ChunkKey>::empty() {
                keys@.unique_seq_to_set();
                assert(fs.len() == 0);
            }
        }
        total
    }
}

/// A write reads back: after an edit of a loaded chunk, the edited position
/// holds the new block and every other position holds what it held before.
pub proof fn lemma_edit_reads_back(m: Map<ChunkKey, Chunk>, p: BlockPos, b: BlockId, s: ChunkStorage, q: BlockPos)
    requires
        m.contains_key(chunk_of(p)),
        s@ == m[chunk_of(p)].storage@.update(index_in_chunk(p), b),
        m[chunk_of(p)].storage@.len() == 32768,
    ensures
        block_in(after_edit(m, p, b, s), p) == b,
        q != p ==> block_in(after_edit(m, p, b, s), q) == block_in(m, q),
{
    lemma_local_in_range(p);
    if q != p {
        lemma_local_in_range(q);
        if chunk_of(q) == chunk_of(p) {
            lemma_index_distinct(p, q);
        }
    }
}

/// An edit is undone by writing the old block back: after both, every
/// position reads as it did before (only the chunks' stale-mesh flags
/// remember the round trip).
pub proof fn lemma_edit_undone(
    m: Map<ChunkKey, Chunk>,
    p: BlockPos,
    b: BlockId,
    s1: ChunkStorage,
    s2: ChunkStorage,
    q: BlockPos,
)
    requires
        m.contains_key(chunk_of(p)),
        m[chunk_of(p)].storage@.len() == 32768,
        s1@ == m[chunk_of(p)].storage@.update(index_in_chunk(p), b),
        s2@ == s1@.update(index_in_chunk(p), block_in(m, p)),
    ensures
        block_in(after_edit(after_edit(m, p, b, s1), p, block_in(m, p), s2), q) == block_in(m, q),
{
    let m1 = after_edit(m, p, b, s1);
    lemma_edit_reads_back(m, p, b, s1, q);
    assert(m1.contains_key(chunk_of(p)) && m1[chunk_of(p)].storage == s1);
    lemma_edit_reads_back(m1, p, block_in(m, p), s2, q);
}

proof fn lemma_local_in_range(p: BlockPos)
    ensures
        0 <= index_in_chunk(p) < 32768,
{
    let x = local_coord(p.x as int);
    let y = local_coord(p.y as int);
    let z = local_coord(p.z as int);
    assert(0 <= x < 32 && 0 <= y < 32 && 0 <= z < 32);
}

/// Two distinct positions in the same chunk have distinct in-chunk indices.
proof fn lemma_index_distinct(p: BlockPos, q: BlockPos)
    requires
        p != q,
        chunk_of(p) == chunk_of(q),
    ensures
        index_in_chunk(p) != index_in_chunk(q),
{
    let (px, py, pz) = (p.x as int, p.y as int, p.z as int);
    let (qx, qy, qz) = (q.x as int, q.y as int, q.z as int);
    vstd::arithmetic::div_mod::lemma_fundamental_div_mod(px, 32);
    vstd::arithmetic::div_mod::lemma_fundamental_div_mod(qx, 32);
    vstd::arithmetic::div_mod::lemma_fundamental_div_mod(py, 32);
    vstd::arithmetic::div_mod::lemma_fundamental_div_mod(qy, 32);
    vstd::arithmetic::div_mod::lemma_fundamental_div_mod(pz, 32);
    vstd::arithmetic::div_mod::lemma_fundamental_div_mod(qz, 32);
    assert(chunk_coord(px) == chunk_coord(qx)) by {
        assert(chunk_of(p).0 == chunk_of(q).0);
        lemma_chunk_coord_fits(px);
        lemma_chunk_coord_fits(qx);
    }
    assert(chunk_coord(py) == chunk_coord(qy)) by {
        assert(chunk_of(p).1 == chunk_of(q).1);
        lemma_chunk_coord_fits(py);
        lemma_chunk_coord_fits(qy);
    }
    assert(chunk_coord(pz) == chunk_coord(qz)) by {
        assert(chunk_of(p).2 == chunk_of(q).2);
        lemma_chunk_coord_fits(pz);
        lemma_chunk_coord_fits(qz);
    }
    if index_in_chunk(p) == index_in_chunk(q) {
        let (lx, ly, lz) = (local_coord(px), local_coord(py), local_coord(pz));
        let (mx, my, mz) = (local_coord(qx), local_coord(qy), local_coord(qz));
        assert(lz == mz && ly == my && lx == mx) by (nonlinear_arith)
            requires
                0 <= lx < 32, 0 <= ly < 32, 0 <= lz < 32, 0 <= mx < 32, 0 <= my < 32, 0 <= mz < 32,
                lx + lz * 32 + ly * 1024 == mx + mz * 32 + my * 1024,
        ;
        assert(px == qx && py == qy && pz == qz);
    }
}

proof fn lemma_chunk_coord_fits(v: int)
    requires
        i32::MIN <= v <= i32::MAX,
    ensures
        i32::MIN <= chunk_coord(v) <= i32::MAX,
        (chunk_coord(v) as i32) as int == chunk_coord(v),
{
}

impl Default for World {
    fn default() -> (r: Self)
        ensures
            r@ == no_chunks(),
            r.wf(),
    {
        World::new()
    }
}

/// The sum of `f`.
pub open spec fn sum_of(f: Seq<int>) -> int
    decreases f.len(),
{
    if f.len() == 0 {
        0
    } else {
        sum_of(f.drop_last()) + f.last()
    }
}

/// `v`, or `usize::MAX` where it does not fit below it.
pub open spec fn saturated(v: int) -> int {
    if v >= usize::MAX {
        usize::MAX as int
    } else {
        v
    }
}

/// `f` gives one possible footprint for each loaded chunk of `m`, in the
/// order of `keys`, which lists every key once.
pub open spec fn footprints(m: Map<ChunkKey, Chunk>, keys: Seq<ChunkKey>, f: Seq<int>) -> bool {
    &&& keys.no_duplicates()
    &&& keys.to_set() == m.dom()
    &&& f.len() == keys.len()
    &&& forall|j: int| 0 <= j < f.len() ==> footprint_of(m[keys[j]].storage, #[trigger] f[j])
}

/// What a chunk's palette and packed words occupy at the least.
pub open spec fn chunk_floor(c: Chunk) -> int {
    c.storage.palette_spec().len() * size_of::<BlockId>() + words_for(c.storage.bits_spec() as int)
        * 8
}

/// One step of the sum of chunk floors over the keys of a world.
pub open spec fn floor_step(m: Map<ChunkKey, Chunk>) -> spec_fn(int, ChunkKey) -> int {
    |acc: int, k: ChunkKey| acc + chunk_floor(m[k])
}

/// The sum of the chunk floors over all loaded chunks.
pub open spec fn voxel_floor(m: Map<ChunkKey, Chunk>) -> int {
    m.dom().fold(0int, floor_step(m))
}

proof fn lemma_floor_step_commutes(m: Map<ChunkKey, Chunk>)
    ensures
        is_fun_commutative(floor_step(m)),
{
}

} // verus!
