//! Seedable pseudo-randomness for world generation: a SplitMix64 generator,
//! per-column hashing, and the seeded permutation table behind the gradient
//! noise used for terrain.
//!
//! Everything here is integer arithmetic, so it is a deterministic function
//! of the seed on every machine.

use vstd::prelude::*;

verus! {

/// The SplitMix64 increment (the golden ratio in 64-bit fixed point).
pub const GOLDEN: u64 = 0x9E37_79B9_7F4A_7C15;

/// Advance a SplitMix64 state.
pub open spec fn mix_step(state: u64) -> u64 {
    state.wrapping_add(GOLDEN)
}

/// The SplitMix64 output for an (already advanced) state.
pub open spec fn mix_out(s: u64) -> u64 {
    let z1 = (s ^ (s >> 30u64)).wrapping_mul(0xBF58_476D_1CE4_E5B9);
    let z2 = (z1 ^ (z1 >> 27u64)).wrapping_mul(0x94D0_49BB_1331_11EB);
    z2 ^ (z2 >> 31u64)
}

/// The state of a generator seeded with `seed` after `k` draws.
pub open spec fn state_after(seed: u64, k: nat) -> u64
    decreases k,
{
    if k == 0 {
        seed
    } else {
        mix_step(state_after(seed, (k - 1) as nat))
    }
}

/// Draw number `k` (counting from `0`) of a generator seeded with `seed`.
pub open spec fn draw(seed: u64, k: nat) -> u64 {
    mix_out(state_after(seed, k + 1))
}

/// The draws walk the state in even steps: after `k` draws the state is the
/// seed plus `k` increments modulo 2^64, so draw `k` is the output mix of
/// `seed + (k + 1)·GOLDEN` modulo 2^64.
pub proof fn lemma_draws(seed: u64, k: nat)
    ensures
        state_after(seed, k) as int == (seed as int + k * GOLDEN as int) % 0x1_0000_0000_0000_0000,
        draw(seed, k) == mix_out(((seed as int + (k + 1) * GOLDEN as int) % 0x1_0000_0000_0000_0000) as u64),
{
    if k == 0 {
        vstd::arithmetic::div_mod::lemma_small_mod(seed as nat, 0x1_0000_0000_0000_0000nat);
    } else {
        lemma_draws_next(seed, (k - 1) as nat);
    }
    lemma_draws_next(seed, k);
}

proof fn lemma_draws_next(seed: u64, k: nat)
    ensures
        state_after(seed, k + 1) as int == (seed as int + (k + 1) * GOLDEN as int) % 0x1_0000_0000_0000_0000,
    decreases k + 1,
{
    let m = 0x1_0000_0000_0000_0000int;
    let prev = state_after(seed, k);
    let a = seed as int + k * GOLDEN as int;
    if k == 0 {
        vstd::arithmetic::div_mod::lemma_small_mod(seed as nat, m as nat);
    } else {
        lemma_draws_next(seed, (k - 1) as nat);
    }
    assert(prev as int == a % m);
    assert(mix_step(prev) as int == (prev as int + GOLDEN as int) % m);
    vstd::arithmetic::div_mod::lemma_add_mod_noop(a, GOLDEN as int, m);
    vstd::arithmetic::div_mod::lemma_small_mod(GOLDEN as nat, m as nat);
    assert(a + GOLDEN as int == seed as int + (k + 1) * GOLDEN as int) by (nonlinear_arith)
        requires
            a == seed as int + k * GOLDEN as int,
    ;
}

/// Tiny fast PRNG used to seed the permutation table and for scatter
/// decisions. Deterministic given a seed.
#[derive(Clone, Debug)]
pub struct SplitMix64 {
    state: u64,
}

impl SplitMix64 {
    /// The generator's state.
    pub closed spec fn state_spec(&self) -> u64 {
        self.state
    }

    pub fn new(seed: u64) -> (r: Self)
        ensures
            r.state_spec() == seed,
    {
        SplitMix64 { state: seed }
    }

    /// The next 64 random bits.
    pub fn next_u64(&mut self) -> (r: u64)
        ensures
            final(self).state_spec() == mix_step(old(self).state_spec()),
            r == mix_out(final(self).state_spec()),
            forall|seed: u64, k: nat|
                old(self).state_spec() == #[trigger] state_after(seed, k) ==> r == draw(seed, k)
                    && final(self).state_spec() == state_after(seed, k + 1),
    {
        self.state = self.state.wrapping_add(GOLDEN);
        let mut z = self.state;
        z = (z ^ (z >> 30)).wrapping_mul(0xBF58_476D_1CE4_E5B9);
        z = (z ^ (z >> 27)).wrapping_mul(0x94D0_49BB_1331_11EB);
        z ^ (z >> 31)
    }
}

/// `v` rotated left by 31 bits.
pub open spec fn rotl31(v: u64) -> u64 {
    (v << 31u64) | (v >> 33u64)
}

/// The per-column seed: the seed mixed with both coordinates, then one
/// SplitMix64 step.
pub open spec fn hash_coords_spec(seed: u64, x: i32, z: i32) -> u64 {
    let h1 = seed ^ ((x as u32) as u64).wrapping_mul(0x9E37_79B1);
    let h2 = rotl31(h1);
    let h3 = h2 ^ ((z as u32) as u64).wrapping_mul(0x85EB_CA77);
    mix_out(mix_step(h3))
}

/// Deterministically derive a per-coordinate seed, so decoration decisions at
/// a given world column are reproducible regardless of generation order.
pub fn hash_coords(seed: u64, x: i32, z: i32) -> (r: u64)
    ensures
        r == hash_coords_spec(seed, x, z),
{
    let mut h = seed;
    h ^= (x as u32 as u64).wrapping_mul(0x9E37_79B1);
    h = (h << 31) | (h >> 33);
    h ^= (z as u32 as u64).wrapping_mul(0x85EB_CA77);
    let mut m = SplitMix64::new(h);
    m.next_u64()
}

/// `s` with entries `i` and `j` exchanged.
pub open spec fn swapped(s: Seq<u8>, i: int, j: int) -> Seq<u8> {
    s.update(i, s[j]).update(j, s[i])
}

/// The Fisher–Yates shuffle of `p` for positions `i` down to `1`, drawing
/// from SplitMix64 state `state`: each step swaps position `i` with the draw
/// taken modulo `i + 1`.
pub open spec fn shuffle(p: Seq<u8>, state: u64, i: int) -> Seq<u8>
    decreases i,
{
    if i < 1 {
        p
    } else {
        let st = mix_step(state);
        let j = (mix_out(st) % ((i + 1) as u64)) as int;
        shuffle(swapped(p, i, j), st, i - 1)
    }
}

/// The identity table `0, 1, …, 255`.
pub open spec fn identity_table() -> Seq<u8> {
    Seq::new(256, |k: int| k as u8)
}

/// The permutation table of a seed.
pub open spec fn permutation(seed: u64) -> Seq<u8> {
    shuffle(identity_table(), seed, 255)
}

/// Permutation-table gradient noise: the seeded table, doubled to avoid
/// index wrapping. The noise functions themselves read it through
/// [`Perlin::perm_at`].
#[derive(Clone, Debug)]
pub struct Perlin {
    perm: Vec<u8>,
}

impl View for Perlin {
    type V = Seq<u8>;

    closed spec fn view(&self) -> Seq<u8> {
        self.perm@
    }
}

proof fn lemma_swapped_distinct(s: Seq<u8>, i: int, j: int)
    requires
        s.no_duplicates(),
        0 <= i < s.len(),
        0 <= j < s.len(),
    ensures
        swapped(s, i, j).no_duplicates(),
        swapped(s, i, j).len() == s.len(),
{
    let t = swapped(s, i, j);
    assert forall|a: int, b: int| 0 <= a < t.len() && 0 <= b < t.len() && a != b implies t[a] != t[b] by {
        let sa = if a == j {
            i
        } else if a == i {
            j
        } else {
            a
        };
        let sb = if b == j {
            i
        } else if b == i {
            j
        } else {
            b
        };
        assert(t[a] == s[sa]);
        assert(t[b] == s[sb]);
    }
}

/// The shuffle keeps a table's length and distinct entries.
proof fn lemma_shuffle_distinct(p: Seq<u8>, state: u64, i: int)
    requires
        p.no_duplicates(),
        i < p.len(),
        p.len() <= 256,
    ensures
        shuffle(p, state, i).no_duplicates(),
        shuffle(p, state, i).len() == p.len(),
    decreases i,
{
    if i >= 1 {
        let st = mix_step(state);
        let m = (i + 1) as u64;
        assert(m as int == i + 1);
        let j = (mix_out(st) % m) as int;
        assert(j < i + 1);
        lemma_swapped_distinct(p, i, j);
        lemma_shuffle_distinct(swapped(p, i, j), st, i - 1);
    }
}

/// A seed's permutation table holds every byte value exactly once.
pub proof fn lemma_permutation_is_permutation(seed: u64)
    ensures
        permutation(seed).len() == 256,
        permutation(seed).no_duplicates(),
{
    assert(identity_table().no_duplicates()) by {
        assert forall|a: int, b: int|
            0 <= a < 256 && 0 <= b < 256 && a != b implies identity_table()[a] != identity_table()[b] by {
            assert(identity_table()[a] == a as u8);
            assert(identity_table()[b] == b as u8);
        }
    }
    lemma_shuffle_distinct(identity_table(), seed, 255);
}

impl Perlin {
    /// Build the table for a seed: a Fisher–Yates shuffle of `0..256` driven
    /// by SplitMix64, then doubled.
    pub fn new(seed: u64) -> (r: Self)
        ensures
            r@ == Seq::new(512, |k: int| permutation(seed)[k % 256]),
    {
        let mut p: Vec<u8> = Vec::new();
        let mut k: usize = 0;
        while k < 256
            invariant
                k <= 256,
                p@ == identity_table().take(k as int),
            decreases 256 - k,
        {
            p.push(k as u8);
            proof {
                assert(identity_table().take(k as int + 1) =~= identity_table().take(k as int).push(
                    k as u8,
                ));
            }
            k += 1;
        }
        proof {
            assert(identity_table().take(256) =~= identity_table());
        }
        let mut rng = SplitMix64::new(seed);
        let mut i: usize = 255;
        while i >= 1
            invariant
                i <= 255,
                p@.len() == 256,
                shuffle(p@, rng.state_spec(), i as int) == permutation(seed),
            decreases i,
        {
            let ghost before = p@;
            let r = rng.next_u64();
            let j = (r % (i as u64 + 1)) as usize;
            let a = p[i];
            let b = p[j];
            p.set(i, b);
            p.set(j, a);
            proof {
                assert(p@ =~= swapped(before, i as int, j as int));
            }
            i -= 1;
        }
        proof {
            assert(shuffle(p@, rng.state_spec(), 0) == p@);
        }
        let mut perm: Vec<u8> = Vec::new();
        let mut k: usize = 0;
        while k < 512
            invariant
                k <= 512,
                p@ == permutation(seed),
                p@.len() == 256,
                perm@ == Seq::new(k as nat, |q: int| permutation(seed)[q % 256]),
            decreases 512 - k,
        {
            proof {
                assert((k & 255) == k % 256) by (bit_vector);
            }
            perm.push(p[k & 255]);
            proof {
                assert(perm@ =~= Seq::new((k + 1) as nat, |q: int| permutation(seed)[q % 256]));
            }
            k += 1;
        }
        Perlin { perm }
    }

    /// Entry `i` of the doubled table.
    pub fn perm_at(&self, i: usize) -> (r: u8)
        requires
            i < self@.len(),
        ensures
            r == self@[i as int],
    {
        self.perm[i]
    }

    /// Length of the doubled table.
    pub fn table_len(&self) -> (r: usize)
        ensures
            r == self@.len(),
    {
        self.perm.len()
    }
}

} // verus!
