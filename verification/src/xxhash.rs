//! Streaming non-cryptographic hash, 32-bit and 64-bit variants.
//!
//! Each hasher buffers input until a full stripe (16 bytes for the 32-bit
//! variant, 32 bytes for the 64-bit one) is available, folds full stripes
//! into four accumulator lanes, and finalizes by combining the lanes,
//! consuming the buffered remainder and applying an avalanche mix.
//!
//! The exec code is verified bit-for-bit against the spec functions
//! `spec_xxh32` and `spec_xxh64`: `finish` returns exactly the spec digest of
//! the concatenation of all bytes fed so far, which makes incremental
//! feeding in any chunking agree with one-shot hashing.
use vstd::prelude::*;
use vstd::wrapping::{u32_specs, u64_specs};

verus! {

pub const PRIME32_1: u32 = 0x9E3779B1;

pub const PRIME32_2: u32 = 0x85EBCA77;

pub const PRIME32_3: u32 = 0xC2B2AE3D;

pub const PRIME32_4: u32 = 0x27D4EB2F;

pub const PRIME32_5: u32 = 0x165667B1;

/// The bits of `x` rotated left by `k` positions.
pub open spec fn spec_rotl32(x: u32, k: u32) -> u32
    recommends
        1 <= k < 32,
{
    (x << k) | (x >> ((32 - k) as u32))
}

fn rotl32(x: u32, k: u32) -> (r: u32)
    requires
        1 <= k < 32,
    ensures
        r == spec_rotl32(x, k),
{
    (x << k) | (x >> (32 - k))
}

/// The 32-bit little-endian lane starting at index `i` of `b`.
pub open spec fn spec_lane32(b: Seq<u8>, i: int) -> u32
    recommends
        0 <= i,
        i + 4 <= b.len(),
{
    (b[i] + b[i + 1] * 0x100 + b[i + 2] * 0x1_0000 + b[i + 3] * 0x100_0000) as u32
}

fn lane32_at(data: &[u8], i: usize) -> (r: u32)
    requires
        i + 4 <= data@.len(),
    ensures
        r == spec_lane32(data@, i as int),
{
    let b0 = data[i] as u32;
    let b1 = data[i + 1] as u32;
    let b2 = data[i + 2] as u32;
    let b3 = data[i + 3] as u32;
    b0 + b1 * 0x100 + b2 * 0x1_0000 + b3 * 0x100_0000
}

/// The accumulator lanes at the start of hashing, derived from the seed.
pub open spec fn spec_init32(seed: u32) -> (u32, u32, u32, u32) {
    (
        u32_specs::wrapping_add(u32_specs::wrapping_add(seed, PRIME32_1), PRIME32_2),
        u32_specs::wrapping_add(seed, PRIME32_2),
        seed,
        u32_specs::wrapping_sub(seed, PRIME32_1),
    )
}

/// One lane folded into one accumulator.
pub open spec fn spec_round32(acc: u32, lane: u32) -> u32 {
    u32_specs::wrapping_mul(
        spec_rotl32(u32_specs::wrapping_add(acc, u32_specs::wrapping_mul(lane, PRIME32_2)), 13),
        PRIME32_1,
    )
}

/// One full 16-byte stripe of `b` starting at `off` folded into the four
/// accumulators.
pub open spec fn spec_stripe32(a: (u32, u32, u32, u32), b: Seq<u8>, off: int) -> (
    u32,
    u32,
    u32,
    u32,
)
    recommends
        0 <= off,
        off + 16 <= b.len(),
{
    (
        spec_round32(a.0, spec_lane32(b, off)),
        spec_round32(a.1, spec_lane32(b, off + 4)),
        spec_round32(a.2, spec_lane32(b, off + 8)),
        spec_round32(a.3, spec_lane32(b, off + 12)),
    )
}

/// The accumulators after folding the first `n` full stripes of `b`.
#[verifier::opaque]
pub open spec fn spec_accs32(b: Seq<u8>, n: int, seed: u32) -> (u32, u32, u32, u32)
    recommends
        16 * n <= b.len(),
    decreases n,
{
    if n <= 0 {
        spec_init32(seed)
    } else {
        spec_stripe32(spec_accs32(b, n - 1, seed), b, 16 * (n - 1))
    }
}

/// The accumulators only depend on the bytes of the stripes they fold.
proof fn lemma_accs32_prefix(b1: Seq<u8>, b2: Seq<u8>, n: int, seed: u32)
    requires
        16 * n <= b1.len(),
        16 * n <= b2.len(),
        forall|i: int| 0 <= i < 16 * n ==> b1[i] == #[trigger] b2[i],
    ensures
        spec_accs32(b1, n, seed) == spec_accs32(b2, n, seed),
    decreases n,
{
    reveal(spec_accs32);
    if n > 0 {
        lemma_accs32_prefix(b1, b2, n - 1, seed);
        assert(spec_lane32(b1, 16 * (n - 1)) == spec_lane32(b2, 16 * (n - 1)));
        assert(spec_lane32(b1, 16 * (n - 1) + 4) == spec_lane32(b2, 16 * (n - 1) + 4));
        assert(spec_lane32(b1, 16 * (n - 1) + 8) == spec_lane32(b2, 16 * (n - 1) + 8));
        assert(spec_lane32(b1, 16 * (n - 1) + 12) == spec_lane32(b2, 16 * (n - 1) + 12));
    }
}

/// Folding the stripe that starts at a 16-aligned offset `done` advances
/// the accumulators by exactly one recursion step.
proof fn lemma_accs32_step(b: Seq<u8>, done: int, seed: u32)
    requires
        done % 16 == 0,
        0 <= done,
        done + 16 <= b.len(),
    ensures
        spec_stripe32(spec_accs32(b, done / 16, seed), b, done) == spec_accs32(
            b,
            done / 16 + 1,
            seed,
        ),
{
    reveal(spec_accs32);
    assert(16 * (done / 16) == done);
    assert(spec_accs32(b, done / 16 + 1, seed) == spec_stripe32(
        spec_accs32(b, done / 16, seed),
        b,
        16 * (done / 16 + 1 - 1),
    ));
}

/// A stripe read from one byte sequence equals the stripe read from another
/// wherever the underlying 16 bytes agree.
proof fn lemma_stripe_lanes_eq(data: Seq<u8>, off: int, b: Seq<u8>, boff: int)
    requires
        0 <= off,
        off + 16 <= data.len(),
        0 <= boff,
        boff + 16 <= b.len(),
        forall|k: int| 0 <= k < 16 ==> data[off + k] == #[trigger] b[boff + k],
    ensures
        spec_lane32(data, off) == spec_lane32(b, boff),
        spec_lane32(data, off + 4) == spec_lane32(b, boff + 4),
        spec_lane32(data, off + 8) == spec_lane32(b, boff + 8),
        spec_lane32(data, off + 12) == spec_lane32(b, boff + 12),
{
    assert(data[off + 0] == b[boff + 0]);
    assert(data[off + 1] == b[boff + 1]);
    assert(data[off + 2] == b[boff + 2]);
    assert(data[off + 3] == b[boff + 3]);
    assert(data[off + 4] == b[boff + 4]);
    assert(data[off + 5] == b[boff + 5]);
    assert(data[off + 6] == b[boff + 6]);
    assert(data[off + 7] == b[boff + 7]);
    assert(data[off + 8] == b[boff + 8]);
    assert(data[off + 9] == b[boff + 9]);
    assert(data[off + 10] == b[boff + 10]);
    assert(data[off + 11] == b[boff + 11]);
    assert(data[off + 12] == b[boff + 12]);
    assert(data[off + 13] == b[boff + 13]);
    assert(data[off + 14] == b[boff + 14]);
    assert(data[off + 15] == b[boff + 15]);
}

/// The four accumulators combined into a single word at finalization.
pub open spec fn spec_converge32(a: (u32, u32, u32, u32)) -> u32 {
    u32_specs::wrapping_add(
        u32_specs::wrapping_add(
            u32_specs::wrapping_add(spec_rotl32(a.0, 1), spec_rotl32(a.1, 7)),
            spec_rotl32(a.2, 12),
        ),
        spec_rotl32(a.3, 18),
    )
}

/// One 4-byte lane of the buffered remainder folded into the hash.
pub open spec fn spec_fin4_32(h: u32, lane: u32) -> u32 {
    u32_specs::wrapping_mul(
        spec_rotl32(u32_specs::wrapping_add(h, u32_specs::wrapping_mul(lane, PRIME32_3)), 17),
        PRIME32_4,
    )
}

/// One trailing byte folded into the hash.
pub open spec fn spec_fin1_32(h: u32, byte: u8) -> u32 {
    u32_specs::wrapping_mul(
        spec_rotl32(
            u32_specs::wrapping_add(h, u32_specs::wrapping_mul(byte as u32, PRIME32_5)),
            11,
        ),
        PRIME32_1,
    )
}

/// The hash after consuming the remainder `b[i..]` in 4-byte lanes followed
/// by single bytes.
pub open spec fn spec_tail32(h: u32, b: Seq<u8>, i: int) -> u32
    recommends
        0 <= i <= b.len(),
    decreases b.len() - i,
{
    if i < 0 || i > b.len() {
        h
    } else if b.len() - i >= 4 {
        spec_tail32(spec_fin4_32(h, spec_lane32(b, i)), b, i + 4)
    } else if b.len() - i >= 1 {
        spec_tail32(spec_fin1_32(h, b[i]), b, i + 1)
    } else {
        h
    }
}

/// The final avalanche mix.
pub open spec fn spec_avalanche32(h: u32) -> u32 {
    let h1 = h ^ (h >> 15);
    let h2 = u32_specs::wrapping_mul(h1, PRIME32_2);
    let h3 = h2 ^ (h2 >> 13);
    let h4 = u32_specs::wrapping_mul(h3, PRIME32_3);
    h4 ^ (h4 >> 16)
}

/// The 32-bit digest of `input` under `seed`.
pub open spec fn spec_xxh32(input: Seq<u8>, seed: u32) -> u32 {
    let n = input.len() as int;
    let ns = n / 16;
    let base = if n >= 16 {
        spec_converge32(spec_accs32(input, ns, seed))
    } else {
        u32_specs::wrapping_add(seed, PRIME32_5)
    };
    let h0 = u32_specs::wrapping_add(base, (n % 0x1_0000_0000) as u32);
    spec_avalanche32(spec_tail32(h0, input, 16 * ns))
}

/// Streaming 32-bit hasher: four accumulator lanes, a 16-byte stripe buffer
/// holding the unprocessed tail, and a running total-length counter.
pub struct XxHash32 {
    seed: u32,
    acc1: u32,
    acc2: u32,
    acc3: u32,
    acc4: u32,
    buffer: Vec<u8>,
    buffer_len: usize,
    total_len: u64,
    fed: Ghost<Seq<u8>>,
}

impl XxHash32 {
    /// All bytes fed to this hasher so far, in order.
    pub closed spec fn fed(&self) -> Seq<u8> {
        self.fed@
    }

    /// The seed this hasher was created with.
    pub closed spec fn seed(&self) -> u32 {
        self.seed
    }

    /// The hasher state is exactly the state reached by feeding `fed()`:
    /// every full 16-byte stripe has been folded into the accumulators and
    /// the remainder sits at the front of the buffer.
    pub closed spec fn wf(&self) -> bool {
        &&& self.buffer@.len() == 16
        &&& self.buffer_len < 16
        &&& self.total_len == self.fed@.len()
        &&& self.fed@.len() % 16 == self.buffer_len
        &&& (forall|j: int|
            0 <= j < self.buffer_len ==> self.buffer@[j] == self.fed@[self.fed@.len()
                - self.buffer_len + j])
        &&& (self.acc1, self.acc2, self.acc3, self.acc4) == spec_accs32(
            self.fed@,
            self.fed@.len() as int / 16,
            self.seed,
        )
    }

    pub fn new(seed: u32) -> (h: Self)
        ensures
            h.wf(),
            h.fed() == Seq::<u8>::empty(),
            h.seed() == seed,
    {
        let h = Self {
            seed,
            acc1: seed.wrapping_add(PRIME32_1).wrapping_add(PRIME32_2),
            acc2: seed.wrapping_add(PRIME32_2),
            acc3: seed,
            acc4: seed.wrapping_sub(PRIME32_1),
            buffer: vec![0u8; 16],
            buffer_len: 0,
            total_len: 0,
            fed: Ghost(Seq::empty()),
        };
        proof {
            assert(h.fed@.len() as int / 16 == 0);
            assert((h.acc1, h.acc2, h.acc3, h.acc4) == spec_accs32(h.fed@, 0, seed)) by {
                reveal(spec_accs32);
            }
        }
        h
    }

    /// Folds the 16 bytes `data[off..off + 16]` into the accumulators.
    /// `b` and `boff` name the same bytes inside the full fed sequence, so
    /// that callers can state the effect against that sequence directly.
    fn process_stripe(&mut self, data: &[u8], off: usize, b: Ghost<Seq<u8>>, boff: Ghost<int>)
        requires
            off + 16 <= data@.len(),
            0 <= boff@,
            boff@ + 16 <= b@.len(),
            forall|k: int| 0 <= k < 16 ==> data@[off + k] == #[trigger] b@[boff@ + k],
        ensures
            (final(self).acc1, final(self).acc2, final(self).acc3, final(self).acc4)
                == spec_stripe32((old(self).acc1, old(self).acc2, old(self).acc3, old(self).acc4), b@, boff@),
            final(self).seed == old(self).seed,
            final(self).buffer == old(self).buffer,
            final(self).buffer_len == old(self).buffer_len,
            final(self).total_len == old(self).total_len,
            final(self).fed == old(self).fed,
    {
        let dlen: usize = data.len();
        proof {
            assert(off + 16 <= dlen);
        }
        let lane1 = lane32_at(data, off);
        let lane2 = lane32_at(data, off + 4);
        let lane3 = lane32_at(data, off + 8);
        let lane4 = lane32_at(data, off + 12);
        proof {
            lemma_stripe_lanes_eq(data@, off as int, b@, boff@);
        }
        self.acc1 = rotl32(self.acc1.wrapping_add(lane1.wrapping_mul(PRIME32_2)), 13).wrapping_mul(
            PRIME32_1,
        );
        self.acc2 = rotl32(self.acc2.wrapping_add(lane2.wrapping_mul(PRIME32_2)), 13).wrapping_mul(
            PRIME32_1,
        );
        self.acc3 = rotl32(self.acc3.wrapping_add(lane3.wrapping_mul(PRIME32_2)), 13).wrapping_mul(
            PRIME32_1,
        );
        self.acc4 = rotl32(self.acc4.wrapping_add(lane4.wrapping_mul(PRIME32_2)), 13).wrapping_mul(
            PRIME32_1,
        );
    }

    /// Copies `input[src..src + count]` into the stripe buffer starting at
    /// `dst`, leaving every other byte and every other field unchanged.
    fn copy_into_buffer(&mut self, input: &[u8], src: usize, dst: usize, count: usize)
        requires
            src + count <= input@.len(),
            dst + count <= old(self).buffer@.len(),
        ensures
            final(self).buffer@.len() == old(self).buffer@.len(),
            forall|t: int|
                0 <= t < count ==> final(self).buffer@[dst + t] == #[trigger] input@[src + t],
            forall|t: int|
                0 <= t < old(self).buffer@.len() && !(dst <= t < dst + count)
                    ==> final(self).buffer@[t] == old(self).buffer@[t],
            final(self).seed == old(self).seed,
            final(self).acc1 == old(self).acc1,
            final(self).acc2 == old(self).acc2,
            final(self).acc3 == old(self).acc3,
            final(self).acc4 == old(self).acc4,
            final(self).buffer_len == old(self).buffer_len,
            final(self).total_len == old(self).total_len,
            final(self).fed == old(self).fed,
    {
        let ilen: usize = input.len();
        let blen: usize = self.buffer.len();
        let mut j: usize = 0;
        while j < count
            invariant
                j <= count,
                ilen == input@.len(),
                src + count <= ilen,
                blen == self.buffer@.len(),
                dst + count <= blen,
                self.buffer@.len() == old(self).buffer@.len(),
                forall|t: int|
                    0 <= t < j ==> self.buffer@[dst + t] == #[trigger] input@[src + t],
                forall|t: int|
                    0 <= t < old(self).buffer@.len() && !(dst <= t < dst + j) ==> self.buffer@[t]
                        == old(self).buffer@[t],
                self.seed == old(self).seed,
                self.acc1 == old(self).acc1,
                self.acc2 == old(self).acc2,
                self.acc3 == old(self).acc3,
                self.acc4 == old(self).acc4,
                self.buffer_len == old(self).buffer_len,
                self.total_len == old(self).total_len,
                self.fed == old(self).fed,
            decreases count - j,
        {
            self.buffer[dst + j] = input[src + j];
            j += 1;
        }
    }

    /// Consumes `input[start..]`, whose length relative to `fedg` leaves the
    /// already-consumed prefix 16-aligned: folds full stripes and parks the
    /// remainder at the front of the buffer.
    fn absorb_aligned(
        &mut self,
        input: &[u8],
        start: usize,
        fedg: Ghost<Seq<u8>>,
        doneg: Ghost<int>,
    )
        requires
            start <= input@.len(),
            old(self).buffer@.len() == 16,
            old(self).fed@ == fedg@,
            doneg@ % 16 == 0,
            0 <= doneg@,
            fedg@.len() - doneg@ == input@.len() - start,
            forall|k: int|
                start <= k < input@.len() ==> input@[k] == #[trigger] fedg@[doneg@ + (k - start)],
            (old(self).acc1, old(self).acc2, old(self).acc3, old(self).acc4) == spec_accs32(
                fedg@,
                doneg@ / 16,
                old(self).seed,
            ),
        ensures
            final(self).buffer@.len() == 16,
            final(self).buffer_len < 16,
            final(self).fed@.len() % 16 == final(self).buffer_len,
            forall|j: int|
                0 <= j < final(self).buffer_len
                    ==> final(self).buffer@[j]
                        == final(self).fed@[final(self).fed@.len() - final(self).buffer_len + j],
            (final(self).acc1, final(self).acc2, final(self).acc3, final(self).acc4)
                == spec_accs32(final(self).fed@, final(self).fed@.len() as int / 16, final(self).seed),
            final(self).seed == old(self).seed,
            final(self).total_len == old(self).total_len,
            final(self).fed == old(self).fed,
    {
        let n: usize = input.len();
        let mut pos: usize = start;
        let ghost mut done: int = doneg@;
        while n - pos >= 16
            invariant
                start <= pos <= n,
                n == input@.len(),
                self.buffer@.len() == 16,
                self.fed@ == fedg@,
                self.seed == old(self).seed,
                self.total_len == old(self).total_len,
                done % 16 == 0,
                0 <= done,
                fedg@.len() - done == n - pos,
                forall|k: int|
                    start <= k < n ==> input@[k] == #[trigger] fedg@[doneg@ + (k - start)],
                done - doneg@ == pos - start,
                (self.acc1, self.acc2, self.acc3, self.acc4) == spec_accs32(
                    fedg@,
                    done / 16,
                    self.seed,
                ),
            decreases n - pos,
        {
            proof {
                assert forall|k: int|
                    0 <= k < 16 implies input@[pos + k] == #[trigger] fedg@[done + k] by {
                    assert(input@[pos + k] == fedg@[doneg@ + ((pos + k) - start)]);
                }
            }
            self.process_stripe(input, pos, Ghost(fedg@), Ghost(done));
            proof {
                lemma_accs32_step(fedg@, done, self.seed);
                done = done + 16;
                assert(done / 16 == (done - 16) / 16 + 1);
            }
            pos = pos + 16;
        }
        let rem: usize = n - pos;
        self.copy_into_buffer(input, pos, 0, rem);
        self.buffer_len = rem;
        proof {
            assert(fedg@.len() == done + rem);
            assert(fedg@.len() % 16 == rem) by {
                vstd::arithmetic::div_mod::lemma_add_mod_noop(done, rem as int, 16);
            }
            assert(fedg@.len() as int / 16 == done / 16) by {
                vstd::arithmetic::div_mod::lemma_div_multiples_vanish_fancy(
                    done / 16,
                    rem as int,
                    16,
                );
                assert(16 * (done / 16) + rem == fedg@.len());
            }
            assert forall|j: int|
                0 <= j < self.buffer_len implies self.buffer@[j] == self.fed@[self.fed@.len()
                - self.buffer_len + j] by {
                assert(self.buffer@[0 + j] == input@[pos + j]);
                assert(input@[pos + j] == fedg@[doneg@ + ((pos + j) - start)]);
            }
        }
    }

    /// Feeds `input` to the hasher.  Feeding a sequence of chunks leaves the
    /// hasher in exactly the state reached by feeding their concatenation.
    pub fn write(&mut self, input: &[u8])
        requires
            old(self).wf(),
            old(self).fed().len() + input@.len() <= u64::MAX,
        ensures
            final(self).wf(),
            final(self).fed() == old(self).fed() + input@,
            final(self).seed() == old(self).seed(),
    {
        let n: usize = input.len();
        let ghost oldfed: Seq<u8> = self.fed@;
        let ghost newfed: Seq<u8> = oldfed + input@;
        let ghost bl0: int = self.buffer_len as int;
        let ghost seed: u32 = self.seed;
        self.fed = Ghost(newfed);
        self.total_len = self.total_len + (n as u64);
        let mut pos: usize = 0;
        let ghost mut done: int = oldfed.len() - bl0;
        proof {
            assert(oldfed.len() % 16 == bl0);
            assert(done == 16 * (oldfed.len() as int / 16));
            lemma_accs32_prefix(oldfed, newfed, oldfed.len() as int / 16, seed);
            assert((self.acc1, self.acc2, self.acc3, self.acc4) == spec_accs32(
                newfed,
                done / 16,
                seed,
            ));
        }
        if self.buffer_len > 0 {
            let bl: usize = self.buffer_len;
            let fill: usize = 16 - bl;
            if n >= fill {
                self.copy_into_buffer(input, 0, bl, fill);
                proof {
                    assert forall|k: int|
                        0 <= k < 16 implies self.buffer@[k] == #[trigger] newfed[done + k] by {
                        if k < bl {
                            assert(self.buffer@[k] == oldfed[oldfed.len() - bl + k]);
                            assert(oldfed[oldfed.len() - bl + k] == newfed[done + k]);
                        } else {
                            assert(self.buffer@[bl + (k - bl)] == input@[0 + (k - bl)]);
                            assert(input@[k - bl] == newfed[oldfed.len() + (k - bl)]);
                        }
                    }
                }
                let stripe: Vec<u8> = vstd::slice::slice_to_vec(self.buffer.as_slice());
                self.process_stripe(stripe.as_slice(), 0, Ghost(newfed), Ghost(done));
                pos = fill;
                self.buffer_len = 0;
                proof {
                    lemma_accs32_step(newfed, done, seed);
                    done = done + 16;
                    assert(done / 16 == (done - 16) / 16 + 1);
                }
            } else {
                self.copy_into_buffer(input, 0, bl, n);
                self.buffer_len = bl + n;
                proof {
                    assert(newfed.len() == done + bl + n);
                    assert(newfed.len() % 16 == bl + n) by {
                        vstd::arithmetic::div_mod::lemma_add_mod_noop(done, bl + n as int, 16);
                    }
                    assert(newfed.len() as int / 16 == done / 16) by {
                        vstd::arithmetic::div_mod::lemma_div_multiples_vanish_fancy(
                            done / 16,
                            bl + n as int,
                            16,
                        );
                        assert(16 * (done / 16) + (bl + n as int) == newfed.len());
                    }
                    assert forall|j: int|
                        0 <= j < self.buffer_len implies self.buffer@[j] == self.fed@[self.fed@.len()
                        - self.buffer_len + j] by {
                        if j < bl {
                            assert(self.buffer@[j] == oldfed[oldfed.len() - bl + j]);
                            assert(oldfed[oldfed.len() - bl + j] == newfed[done + j]);
                        } else {
                            assert(self.buffer@[bl + (j - bl)] == input@[0 + (j - bl)]);
                            assert(input@[j - bl] == newfed[oldfed.len() + (j - bl)]);
                        }
                    }
                }
                return ;
            }
        }
        proof {
            assert(newfed.len() - done == n - pos);
            assert forall|k: int|
                pos <= k < n implies input@[k] == #[trigger] newfed[done + (k - pos)] by {
                assert(newfed[oldfed.len() + (k - (pos - (done - (oldfed.len() - 0))))] == newfed[
                    done + (k - pos)
                ]);
                assert(done + (k - pos) == oldfed.len() + (k - pos) + (done - oldfed.len()));
                assert(input@[k] == newfed[oldfed.len() + k]);
            }
        }
        self.absorb_aligned(input, pos, Ghost(newfed), Ghost(done));
    }

    /// Returns the digest of all bytes fed so far, without mutating state:
    /// further writes may follow and the hasher keeps accumulating.
    pub fn finish(&self) -> (r: u32)
        requires
            self.wf(),
        ensures
            r == spec_xxh32(self.fed(), self.seed()),
    {
        let ghost fed: Seq<u8> = self.fed@;
        let ghost n: int = fed.len() as int;
        let ghost base_off: int = 16 * (n / 16);
        proof {
            assert(base_off == n - self.buffer_len);
        }
        let mut hash: u32;
        if self.total_len >= 16 {
            hash = rotl32(self.acc1, 1).wrapping_add(rotl32(self.acc2, 7)).wrapping_add(
                rotl32(self.acc3, 12),
            ).wrapping_add(rotl32(self.acc4, 18));
        } else {
            hash = self.seed.wrapping_add(PRIME32_5);
        }
        hash = hash.wrapping_add((self.total_len % 0x1_0000_0000) as u32);
        let ghost h0: u32 = hash;
        let mut i: usize = 0;
        while self.buffer_len - i >= 4
            invariant
                i <= self.buffer_len,
                self.wf(),
                fed == self.fed@,
                n == fed.len(),
                base_off == n - self.buffer_len,
                spec_tail32(hash, fed, base_off + i) == spec_tail32(h0, fed, base_off),
            decreases self.buffer_len - i,
        {
            proof {
                assert(self.buffer@[i + 0] == fed[base_off + i + 0]);
                assert(self.buffer@[i + 1] == fed[base_off + i + 1]);
                assert(self.buffer@[i + 2] == fed[base_off + i + 2]);
                assert(self.buffer@[i + 3] == fed[base_off + i + 3]);
            }
            let lane = lane32_at(self.buffer.as_slice(), i);
            proof {
                assert(lane == spec_lane32(fed, base_off + i));
                assert(fed.len() - (base_off + i) >= 4);
            }
            hash = rotl32(hash.wrapping_add(lane.wrapping_mul(PRIME32_3)), 17).wrapping_mul(
                PRIME32_4,
            );
            i += 4;
        }
        while i < self.buffer_len
            invariant
                i <= self.buffer_len,
                self.buffer_len - i < 4,
                self.wf(),
                fed == self.fed@,
                n == fed.len(),
                base_off == n - self.buffer_len,
                spec_tail32(hash, fed, base_off + i) == spec_tail32(h0, fed, base_off),
            decreases self.buffer_len - i,
        {
            proof {
                assert(self.buffer@[i as int] == fed[base_off + i]);
                assert(1 <= fed.len() - (base_off + i) < 4);
            }
            let byte = self.buffer[i];
            hash = rotl32(hash.wrapping_add((byte as u32).wrapping_mul(PRIME32_5)), 11)
                .wrapping_mul(PRIME32_1);
            i += 1;
        }
        proof {
            assert(base_off + i == fed.len());
            assert(spec_tail32(hash, fed, base_off + i) == hash);
        }
        hash = hash ^ (hash >> 15);
        hash = hash.wrapping_mul(PRIME32_2);
        hash = hash ^ (hash >> 13);
        hash = hash.wrapping_mul(PRIME32_3);
        hash = hash ^ (hash >> 16);
        hash
    }

    /// The digest of `input` under `seed`, computed in one call.
    pub fn oneshot(input: &[u8], seed: u32) -> (r: u32)
        ensures
            r == spec_xxh32(input@, seed),
    {
        let n: usize = input.len();
        proof {
            assert(input@.len() <= u64::MAX);
        }
        let mut hasher = Self::new(seed);
        hasher.write(input);
        proof {
            assert(hasher.fed() =~= input@);
        }
        hasher.finish()
    }
}

pub const PRIME64_1: u64 = 0x9E3779B185EBCA87;

pub const PRIME64_2: u64 = 0xC2B2AE3D27D4EB4F;

pub const PRIME64_3: u64 = 0x165667B19E3779F9;

pub const PRIME64_4: u64 = 0x85EBCA77C2B2AE63;

pub const PRIME64_5: u64 = 0x27D4EB2F165667C5;

/// The bits of `x` rotated left by `k` positions.
pub open spec fn spec_rotl64(x: u64, k: u64) -> u64
    recommends
        1 <= k < 64,
{
    (x << k) | (x >> ((64 - k) as u64))
}

fn rotl64(x: u64, k: u64) -> (r: u64)
    requires
        1 <= k < 64,
    ensures
        r == spec_rotl64(x, k),
{
    (x << k) | (x >> (64 - k))
}

/// The 64-bit little-endian lane starting at index `i` of `b`.
pub open spec fn spec_lane64(b: Seq<u8>, i: int) -> u64
    recommends
        0 <= i,
        i + 8 <= b.len(),
{
    (b[i] + b[i + 1] * 0x100 + b[i + 2] * 0x1_0000 + b[i + 3] * 0x100_0000 + b[i + 4]
        * 0x1_0000_0000 + b[i + 5] * 0x100_0000_0000 + b[i + 6] * 0x1_0000_0000_0000 + b[i + 7]
        * 0x100_0000_0000_0000) as u64
}

fn lane64_at(data: &[u8], i: usize) -> (r: u64)
    requires
        i + 8 <= data@.len(),
    ensures
        r == spec_lane64(data@, i as int),
{
    let b0 = data[i] as u64;
    let b1 = data[i + 1] as u64;
    let b2 = data[i + 2] as u64;
    let b3 = data[i + 3] as u64;
    let b4 = data[i + 4] as u64;
    let b5 = data[i + 5] as u64;
    let b6 = data[i + 6] as u64;
    let b7 = data[i + 7] as u64;
    b0 + b1 * 0x100 + b2 * 0x1_0000 + b3 * 0x100_0000 + b4 * 0x1_0000_0000 + b5 * 0x100_0000_0000
        + b6 * 0x1_0000_0000_0000 + b7 * 0x100_0000_0000_0000
}

/// The accumulator lanes at the start of hashing, derived from the seed.
pub open spec fn spec_init64(seed: u64) -> (u64, u64, u64, u64) {
    (
        u64_specs::wrapping_add(u64_specs::wrapping_add(seed, PRIME64_1), PRIME64_2),
        u64_specs::wrapping_add(seed, PRIME64_2),
        seed,
        u64_specs::wrapping_sub(seed, PRIME64_1),
    )
}

/// One lane folded into one accumulator.
pub open spec fn spec_round64(acc: u64, lane: u64) -> u64 {
    u64_specs::wrapping_mul(
        spec_rotl64(u64_specs::wrapping_add(acc, u64_specs::wrapping_mul(lane, PRIME64_2)), 31),
        PRIME64_1,
    )
}

/// One full 32-byte stripe of `b` starting at `off` folded into the four
/// accumulators.
pub open spec fn spec_stripe64(a: (u64, u64, u64, u64), b: Seq<u8>, off: int) -> (
    u64,
    u64,
    u64,
    u64,
)
    recommends
        0 <= off,
        off + 32 <= b.len(),
{
    (
        spec_round64(a.0, spec_lane64(b, off)),
        spec_round64(a.1, spec_lane64(b, off + 8)),
        spec_round64(a.2, spec_lane64(b, off + 16)),
        spec_round64(a.3, spec_lane64(b, off + 24)),
    )
}

/// The accumulators after folding the first `n` full stripes of `b`.
#[verifier::opaque]
pub open spec fn spec_accs64(b: Seq<u8>, n: int, seed: u64) -> (u64, u64, u64, u64)
    recommends
        32 * n <= b.len(),
    decreases n,
{
    if n <= 0 {
        spec_init64(seed)
    } else {
        spec_stripe64(spec_accs64(b, n - 1, seed), b, 32 * (n - 1))
    }
}

/// The accumulators only depend on the bytes of the stripes they fold.
proof fn lemma_accs64_prefix(b1: Seq<u8>, b2: Seq<u8>, n: int, seed: u64)
    requires
        32 * n <= b1.len(),
        32 * n <= b2.len(),
        forall|i: int| 0 <= i < 32 * n ==> b1[i] == #[trigger] b2[i],
    ensures
        spec_accs64(b1, n, seed) == spec_accs64(b2, n, seed),
    decreases n,
{
    reveal(spec_accs64);
    if n > 0 {
        lemma_accs64_prefix(b1, b2, n - 1, seed);
        lemma_stripe64_lanes_eq(b1, 32 * (n - 1), b2, 32 * (n - 1));
    }
}

/// Folding the stripe that starts at a 32-aligned offset `done` advances
/// the accumulators by exactly one recursion step.
proof fn lemma_accs64_step(b: Seq<u8>, done: int, seed: u64)
    requires
        done % 32 == 0,
        0 <= done,
        done + 32 <= b.len(),
    ensures
        spec_stripe64(spec_accs64(b, done / 32, seed), b, done) == spec_accs64(
            b,
            done / 32 + 1,
            seed,
        ),
{
    reveal(spec_accs64);
    assert(32 * (done / 32) == done);
    assert(spec_accs64(b, done / 32 + 1, seed) == spec_stripe64(
        spec_accs64(b, done / 32, seed),
        b,
        32 * (done / 32 + 1 - 1),
    ));
}

/// A stripe read from one byte sequence equals the stripe read from another
/// wherever the underlying 32 bytes agree.
proof fn lemma_stripe64_lanes_eq(data: Seq<u8>, off: int, b: Seq<u8>, boff: int)
    requires
        0 <= off,
        off + 32 <= data.len(),
        0 <= boff,
        boff + 32 <= b.len(),
        forall|k: int| 0 <= k < 32 ==> data[off + k] == #[trigger] b[boff + k],
    ensures
        spec_lane64(data, off) == spec_lane64(b, boff),
        spec_lane64(data, off + 8) == spec_lane64(b, boff + 8),
        spec_lane64(data, off + 16) == spec_lane64(b, boff + 16),
        spec_lane64(data, off + 24) == spec_lane64(b, boff + 24),
{
    assert(data[off + 0] == b[boff + 0]);
    assert(data[off + 1] == b[boff + 1]);
    assert(data[off + 2] == b[boff + 2]);
    assert(data[off + 3] == b[boff + 3]);
    assert(data[off + 4] == b[boff + 4]);
    assert(data[off + 5] == b[boff + 5]);
    assert(data[off + 6] == b[boff + 6]);
    assert(data[off + 7] == b[boff + 7]);
    assert(data[off + 8] == b[boff + 8]);
    assert(data[off + 9] == b[boff + 9]);
    assert(data[off + 10] == b[boff + 10]);
    assert(data[off + 11] == b[boff + 11]);
    assert(data[off + 12] == b[boff + 12]);
    assert(data[off + 13] == b[boff + 13]);
    assert(data[off + 14] == b[boff + 14]);
    assert(data[off + 15] == b[boff + 15]);
    assert(data[off + 16] == b[boff + 16]);
    assert(data[off + 17] == b[boff + 17]);
    assert(data[off + 18] == b[boff + 18]);
    assert(data[off + 19] == b[boff + 19]);
    assert(data[off + 20] == b[boff + 20]);
    assert(data[off + 21] == b[boff + 21]);
    assert(data[off + 22] == b[boff + 22]);
    assert(data[off + 23] == b[boff + 23]);
    assert(data[off + 24] == b[boff + 24]);
    assert(data[off + 25] == b[boff + 25]);
    assert(data[off + 26] == b[boff + 26]);
    assert(data[off + 27] == b[boff + 27]);
    assert(data[off + 28] == b[boff + 28]);
    assert(data[off + 29] == b[boff + 29]);
    assert(data[off + 30] == b[boff + 30]);
    assert(data[off + 31] == b[boff + 31]);
}

/// One accumulator merged into the running hash at finalization.
pub open spec fn spec_merge64(h: u64, acc: u64) -> u64 {
    let folded = u64_specs::wrapping_mul(
        spec_rotl64(u64_specs::wrapping_mul(acc, PRIME64_2), 31),
        PRIME64_1,
    );
    u64_specs::wrapping_add(u64_specs::wrapping_mul(h ^ folded, PRIME64_1), PRIME64_4)
}

/// The four accumulators combined and merged into a single word.
pub open spec fn spec_converge64(a: (u64, u64, u64, u64)) -> u64 {
    let h = u64_specs::wrapping_add(
        u64_specs::wrapping_add(
            u64_specs::wrapping_add(spec_rotl64(a.0, 1), spec_rotl64(a.1, 7)),
            spec_rotl64(a.2, 12),
        ),
        spec_rotl64(a.3, 18),
    );
    spec_merge64(spec_merge64(spec_merge64(spec_merge64(h, a.0), a.1), a.2), a.3)
}

/// One 8-byte lane of the buffered remainder folded into the hash.
pub open spec fn spec_fin8_64(h: u64, lane: u64) -> u64 {
    let h1 = h ^ u64_specs::wrapping_mul(
        spec_rotl64(u64_specs::wrapping_mul(lane, PRIME64_2), 31),
        PRIME64_1,
    );
    u64_specs::wrapping_add(u64_specs::wrapping_mul(spec_rotl64(h1, 27), PRIME64_1), PRIME64_4)
}

/// One 4-byte lane of the buffered remainder folded into the hash.
pub open spec fn spec_fin4_64(h: u64, lane: u32) -> u64 {
    let h1 = h ^ u64_specs::wrapping_mul(lane as u64, PRIME64_1);
    u64_specs::wrapping_add(u64_specs::wrapping_mul(spec_rotl64(h1, 23), PRIME64_2), PRIME64_3)
}

/// One trailing byte folded into the hash.
pub open spec fn spec_fin1_64(h: u64, byte: u8) -> u64 {
    let h1 = h ^ u64_specs::wrapping_mul(byte as u64, PRIME64_5);
    u64_specs::wrapping_mul(spec_rotl64(h1, 11), PRIME64_1)
}

/// The hash after consuming the remainder `b[i..]` in 8-byte lanes, then
/// 4-byte lanes, then single bytes.
pub open spec fn spec_tail64(h: u64, b: Seq<u8>, i: int) -> u64
    recommends
        0 <= i <= b.len(),
    decreases b.len() - i,
{
    if i < 0 || i > b.len() {
        h
    } else if b.len() - i >= 8 {
        spec_tail64(spec_fin8_64(h, spec_lane64(b, i)), b, i + 8)
    } else if b.len() - i >= 4 {
        spec_tail64(spec_fin4_64(h, spec_lane32(b, i)), b, i + 4)
    } else if b.len() - i >= 1 {
        spec_tail64(spec_fin1_64(h, b[i]), b, i + 1)
    } else {
        h
    }
}

/// The final avalanche mix.
pub open spec fn spec_avalanche64(h: u64) -> u64 {
    let h1 = h ^ (h >> 33);
    let h2 = u64_specs::wrapping_mul(h1, PRIME64_2);
    let h3 = h2 ^ (h2 >> 29);
    let h4 = u64_specs::wrapping_mul(h3, PRIME64_3);
    h4 ^ (h4 >> 32)
}

/// The 64-bit digest of `input` under `seed`.
pub open spec fn spec_xxh64(input: Seq<u8>, seed: u64) -> u64 {
    let n = input.len() as int;
    let ns = n / 32;
    let base = if n >= 32 {
        spec_converge64(spec_accs64(input, ns, seed))
    } else {
        u64_specs::wrapping_add(seed, PRIME64_5)
    };
    let h0 = u64_specs::wrapping_add(base, (n % 0x1_0000_0000_0000_0000) as u64);
    spec_avalanche64(spec_tail64(h0, input, 32 * ns))
}

/// Streaming 64-bit hasher: four accumulator lanes, a 32-byte stripe buffer
/// holding the unprocessed tail, and a running total-length counter.
pub struct XxHash64 {
    seed: u64,
    acc1: u64,
    acc2: u64,
    acc3: u64,
    acc4: u64,
    buffer: Vec<u8>,
    buffer_len: usize,
    total_len: u64,
    fed: Ghost<Seq<u8>>,
}

impl XxHash64 {
    /// All bytes fed to this hasher so far, in order.
    pub closed spec fn fed(&self) -> Seq<u8> {
        self.fed@
    }

    /// The seed this hasher was created with.
    pub closed spec fn seed(&self) -> u64 {
        self.seed
    }

    /// The hasher state is exactly the state reached by feeding `fed()`:
    /// every full 32-byte stripe has been folded into the accumulators and
    /// the remainder sits at the front of the buffer.
    pub closed spec fn wf(&self) -> bool {
        &&& self.buffer@.len() == 32
        &&& self.buffer_len < 32
        &&& self.total_len == self.fed@.len()
        &&& self.fed@.len() % 32 == self.buffer_len
        &&& (forall|j: int|
            0 <= j < self.buffer_len ==> self.buffer@[j] == self.fed@[self.fed@.len()
                - self.buffer_len + j])
        &&& (self.acc1, self.acc2, self.acc3, self.acc4) == spec_accs64(
            self.fed@,
            self.fed@.len() as int / 32,
            self.seed,
        )
    }

    pub fn new(seed: u64) -> (h: Self)
        ensures
            h.wf(),
            h.fed() == Seq::<u8>::empty(),
            h.seed() == seed,
    {
        let h = Self {
            seed,
            acc1: seed.wrapping_add(PRIME64_1).wrapping_add(PRIME64_2),
            acc2: seed.wrapping_add(PRIME64_2),
            acc3: seed,
            acc4: seed.wrapping_sub(PRIME64_1),
            buffer: vec![0u8; 32],
            buffer_len: 0,
            total_len: 0,
            fed: Ghost(Seq::empty()),
        };
        proof {
            assert(h.fed@.len() as int / 32 == 0);
            assert((h.acc1, h.acc2, h.acc3, h.acc4) == spec_accs64(h.fed@, 0, seed)) by {
                reveal(spec_accs64);
            }
        }
        h
    }

    /// Folds the 32 bytes `data[off..off + 32]` into the accumulators.
    /// `b` and `boff` name the same bytes inside the full fed sequence, so
    /// that callers can state the effect against that sequence directly.
    fn process_stripe(&mut self, data: &[u8], off: usize, b: Ghost<Seq<u8>>, boff: Ghost<int>)
        requires
            off + 32 <= data@.len(),
            0 <= boff@,
            boff@ + 32 <= b@.len(),
            forall|k: int| 0 <= k < 32 ==> data@[off + k] == #[trigger] b@[boff@ + k],
        ensures
            (final(self).acc1, final(self).acc2, final(self).acc3, final(self).acc4)
                == spec_stripe64((old(self).acc1, old(self).acc2, old(self).acc3, old(self).acc4), b@, boff@),
            final(self).seed == old(self).seed,
            final(self).buffer == old(self).buffer,
            final(self).buffer_len == old(self).buffer_len,
            final(self).total_len == old(self).total_len,
            final(self).fed == old(self).fed,
    {
        let dlen: usize = data.len();
        proof {
            assert(off + 32 <= dlen);
        }
        let lane1 = lane64_at(data, off);
        let lane2 = lane64_at(data, off + 8);
        let lane3 = lane64_at(data, off + 16);
        let lane4 = lane64_at(data, off + 24);
        proof {
            lemma_stripe64_lanes_eq(data@, off as int, b@, boff@);
        }
        self.acc1 = rotl64(self.acc1.wrapping_add(lane1.wrapping_mul(PRIME64_2)), 31).wrapping_mul(
            PRIME64_1,
        );
        self.acc2 = rotl64(self.acc2.wrapping_add(lane2.wrapping_mul(PRIME64_2)), 31).wrapping_mul(
            PRIME64_1,
        );
        self.acc3 = rotl64(self.acc3.wrapping_add(lane3.wrapping_mul(PRIME64_2)), 31).wrapping_mul(
            PRIME64_1,
        );
        self.acc4 = rotl64(self.acc4.wrapping_add(lane4.wrapping_mul(PRIME64_2)), 31).wrapping_mul(
            PRIME64_1,
        );
    }

    /// Copies `input[src..src + count]` into the stripe buffer starting at
    /// `dst`, leaving every other byte and every other field unchanged.
    fn copy_into_buffer(&mut self, input: &[u8], src: usize, dst: usize, count: usize)
        requires
            src + count <= input@.len(),
            dst + count <= old(self).buffer@.len(),
        ensures
            final(self).buffer@.len() == old(self).buffer@.len(),
            forall|t: int|
                0 <= t < count ==> final(self).buffer@[dst + t] == #[trigger] input@[src + t],
            forall|t: int|
                0 <= t < old(self).buffer@.len() && !(dst <= t < dst + count)
                    ==> final(self).buffer@[t] == old(self).buffer@[t],
            final(self).seed == old(self).seed,
            final(self).acc1 == old(self).acc1,
            final(self).acc2 == old(self).acc2,
            final(self).acc3 == old(self).acc3,
            final(self).acc4 == old(self).acc4,
            final(self).buffer_len == old(self).buffer_len,
            final(self).total_len == old(self).total_len,
            final(self).fed == old(self).fed,
    {
        let ilen: usize = input.len();
        let blen: usize = self.buffer.len();
        let mut j: usize = 0;
        while j < count
            invariant
                j <= count,
                ilen == input@.len(),
                src + count <= ilen,
                blen == self.buffer@.len(),
                dst + count <= blen,
                self.buffer@.len() == old(self).buffer@.len(),
                forall|t: int|
                    0 <= t < j ==> self.buffer@[dst + t] == #[trigger] input@[src + t],
                forall|t: int|
                    0 <= t < old(self).buffer@.len() && !(dst <= t < dst + j) ==> self.buffer@[t]
                        == old(self).buffer@[t],
                self.seed == old(self).seed,
                self.acc1 == old(self).acc1,
                self.acc2 == old(self).acc2,
                self.acc3 == old(self).acc3,
                self.acc4 == old(self).acc4,
                self.buffer_len == old(self).buffer_len,
                self.total_len == old(self).total_len,
                self.fed == old(self).fed,
            decreases count - j,
        {
            self.buffer[dst + j] = input[src + j];
            j += 1;
        }
    }

    /// Consumes `input[start..]`, whose length relative to `fedg` leaves the
    /// already-consumed prefix 32-aligned: folds full stripes and parks the
    /// remainder at the front of the buffer.
    fn absorb_aligned(
        &mut self,
        input: &[u8],
        start: usize,
        fedg: Ghost<Seq<u8>>,
        doneg: Ghost<int>,
    )
        requires
            start <= input@.len(),
            old(self).buffer@.len() == 32,
            old(self).fed@ == fedg@,
            doneg@ % 32 == 0,
            0 <= doneg@,
            fedg@.len() - doneg@ == input@.len() - start,
            forall|k: int|
                start <= k < input@.len() ==> input@[k] == #[trigger] fedg@[doneg@ + (k - start)],
            (old(self).acc1, old(self).acc2, old(self).acc3, old(self).acc4) == spec_accs64(
                fedg@,
                doneg@ / 32,
                old(self).seed,
            ),
        ensures
            final(self).buffer@.len() == 32,
            final(self).buffer_len < 32,
            final(self).fed@.len() % 32 == final(self).buffer_len,
            forall|j: int|
                0 <= j < final(self).buffer_len
                    ==> final(self).buffer@[j]
                        == final(self).fed@[final(self).fed@.len() - final(self).buffer_len + j],
            (final(self).acc1, final(self).acc2, final(self).acc3, final(self).acc4)
                == spec_accs64(final(self).fed@, final(self).fed@.len() as int / 32, final(self).seed),
            final(self).seed == old(self).seed,
            final(self).total_len == old(self).total_len,
            final(self).fed == old(self).fed,
    {
        let n: usize = input.len();
        let mut pos: usize = start;
        let ghost mut done: int = doneg@;
        while n - pos >= 32
            invariant
                start <= pos <= n,
                n == input@.len(),
                self.buffer@.len() == 32,
                self.fed@ == fedg@,
                self.seed == old(self).seed,
                self.total_len == old(self).total_len,
                done % 32 == 0,
                0 <= done,
                fedg@.len() - done == n - pos,
                forall|k: int|
                    start <= k < n ==> input@[k] == #[trigger] fedg@[doneg@ + (k - start)],
                done - doneg@ == pos - start,
                (self.acc1, self.acc2, self.acc3, self.acc4) == spec_accs64(
                    fedg@,
                    done / 32,
                    self.seed,
                ),
            decreases n - pos,
        {
            proof {
                assert forall|k: int|
                    0 <= k < 32 implies input@[pos + k] == #[trigger] fedg@[done + k] by {
                    assert(input@[pos + k] == fedg@[doneg@ + ((pos + k) - start)]);
                }
            }
            self.process_stripe(input, pos, Ghost(fedg@), Ghost(done));
            proof {
                lemma_accs64_step(fedg@, done, self.seed);
                done = done + 32;
                assert(done / 32 == (done - 32) / 32 + 1);
            }
            pos = pos + 32;
        }
        let rem: usize = n - pos;
        self.copy_into_buffer(input, pos, 0, rem);
        self.buffer_len = rem;
        proof {
            assert(fedg@.len() == done + rem);
            assert(fedg@.len() % 32 == rem) by {
                vstd::arithmetic::div_mod::lemma_add_mod_noop(done, rem as int, 32);
            }
            assert(fedg@.len() as int / 32 == done / 32) by {
                vstd::arithmetic::div_mod::lemma_div_multiples_vanish_fancy(
                    done / 32,
                    rem as int,
                    32,
                );
                assert(32 * (done / 32) + rem == fedg@.len());
            }
            assert forall|j: int|
                0 <= j < self.buffer_len implies self.buffer@[j] == self.fed@[self.fed@.len()
                - self.buffer_len + j] by {
                assert(self.buffer@[0 + j] == input@[pos + j]);
                assert(input@[pos + j] == fedg@[doneg@ + ((pos + j) - start)]);
            }
        }
    }

    /// Feeds `input` to the hasher.  Feeding a sequence of chunks leaves the
    /// hasher in exactly the state reached by feeding their concatenation.
    pub fn write(&mut self, input: &[u8])
        requires
            old(self).wf(),
            old(self).fed().len() + input@.len() <= u64::MAX,
        ensures
            final(self).wf(),
            final(self).fed() == old(self).fed() + input@,
            final(self).seed() == old(self).seed(),
    {
        let n: usize = input.len();
        let ghost oldfed: Seq<u8> = self.fed@;
        let ghost newfed: Seq<u8> = oldfed + input@;
        let ghost bl0: int = self.buffer_len as int;
        let ghost seed: u64 = self.seed;
        self.fed = Ghost(newfed);
        self.total_len = self.total_len + (n as u64);
        let mut pos: usize = 0;
        let ghost mut done: int = oldfed.len() - bl0;
        proof {
            assert(oldfed.len() % 32 == bl0);
            assert(done == 32 * (oldfed.len() as int / 32));
            lemma_accs64_prefix(oldfed, newfed, oldfed.len() as int / 32, seed);
            assert((self.acc1, self.acc2, self.acc3, self.acc4) == spec_accs64(
                newfed,
                done / 32,
                seed,
            ));
        }
        if self.buffer_len > 0 {
            let bl: usize = self.buffer_len;
            let fill: usize = 32 - bl;
            if n >= fill {
                self.copy_into_buffer(input, 0, bl, fill);
                proof {
                    assert forall|k: int|
                        0 <= k < 32 implies self.buffer@[k] == #[trigger] newfed[done + k] by {
                        if k < bl {
                            assert(self.buffer@[k] == oldfed[oldfed.len() - bl + k]);
                            assert(oldfed[oldfed.len() - bl + k] == newfed[done + k]);
                        } else {
                            assert(self.buffer@[bl + (k - bl)] == input@[0 + (k - bl)]);
                            assert(input@[k - bl] == newfed[oldfed.len() + (k - bl)]);
                        }
                    }
                }
                let stripe: Vec<u8> = vstd::slice::slice_to_vec(self.buffer.as_slice());
                self.process_stripe(stripe.as_slice(), 0, Ghost(newfed), Ghost(done));
                pos = fill;
                self.buffer_len = 0;
                proof {
                    lemma_accs64_step(newfed, done, seed);
                    done = done + 32;
                    assert(done / 32 == (done - 32) / 32 + 1);
                }
            } else {
                self.copy_into_buffer(input, 0, bl, n);
                self.buffer_len = bl + n;
                proof {
                    assert(newfed.len() == done + bl + n);
                    assert(newfed.len() % 32 == bl + n) by {
                        vstd::arithmetic::div_mod::lemma_add_mod_noop(done, bl + n as int, 32);
                    }
                    assert(newfed.len() as int / 32 == done / 32) by {
                        vstd::arithmetic::div_mod::lemma_div_multiples_vanish_fancy(
                            done / 32,
                            bl + n as int,
                            32,
                        );
                        assert(32 * (done / 32) + (bl + n as int) == newfed.len());
                    }
                    assert forall|j: int|
                        0 <= j < self.buffer_len implies self.buffer@[j] == self.fed@[self.fed@.len()
                        - self.buffer_len + j] by {
                        if j < bl {
                            assert(self.buffer@[j] == oldfed[oldfed.len() - bl + j]);
                            assert(oldfed[oldfed.len() - bl + j] == newfed[done + j]);
                        } else {
                            assert(self.buffer@[bl + (j - bl)] == input@[0 + (j - bl)]);
                            assert(input@[j - bl] == newfed[oldfed.len() + (j - bl)]);
                        }
                    }
                }
                return ;
            }
        }
        proof {
            assert(newfed.len() - done == n - pos);
            assert forall|k: int|
                pos <= k < n implies input@[k] == #[trigger] newfed[done + (k - pos)] by {
                assert(done + (k - pos) == oldfed.len() + (k - pos) + (done - oldfed.len()));
                assert(input@[k] == newfed[oldfed.len() + k]);
            }
        }
        self.absorb_aligned(input, pos, Ghost(newfed), Ghost(done));
    }

    /// Returns the digest of all bytes fed so far, without mutating state:
    /// further writes may follow and the hasher keeps accumulating.
    pub fn finish(&self) -> (r: u64)
        requires
            self.wf(),
        ensures
            r == spec_xxh64(self.fed(), self.seed()),
    {
        let ghost fed: Seq<u8> = self.fed@;
        let ghost n: int = fed.len() as int;
        let ghost base_off: int = 32 * (n / 32);
        proof {
            assert(base_off == n - self.buffer_len);
        }
        let mut hash: u64;
        if self.total_len >= 32 {
            let mut h = rotl64(self.acc1, 1).wrapping_add(rotl64(self.acc2, 7)).wrapping_add(
                rotl64(self.acc3, 12),
            ).wrapping_add(rotl64(self.acc4, 18));
            h = self.merge_accumulator(h, self.acc1);
            h = self.merge_accumulator(h, self.acc2);
            h = self.merge_accumulator(h, self.acc3);
            h = self.merge_accumulator(h, self.acc4);
            hash = h;
            proof {
                assert(hash == spec_converge64(spec_accs64(fed, n / 32, self.seed)));
            }
        } else {
            hash = self.seed.wrapping_add(PRIME64_5);
        }
        hash = hash.wrapping_add(self.total_len);
        let ghost h0: u64 = hash;
        proof {
            assert(self.total_len as int == n % 0x1_0000_0000_0000_0000);
        }
        let mut i: usize = 0;
        while self.buffer_len - i >= 8
            invariant
                i <= self.buffer_len,
                self.wf(),
                fed == self.fed@,
                n == fed.len(),
                base_off == n - self.buffer_len,
                spec_tail64(hash, fed, base_off + i) == spec_tail64(h0, fed, base_off),
            decreases self.buffer_len - i,
        {
            proof {
                assert(self.buffer@[i + 0] == fed[base_off + i + 0]);
                assert(self.buffer@[i + 1] == fed[base_off + i + 1]);
                assert(self.buffer@[i + 2] == fed[base_off + i + 2]);
                assert(self.buffer@[i + 3] == fed[base_off + i + 3]);
                assert(self.buffer@[i + 4] == fed[base_off + i + 4]);
                assert(self.buffer@[i + 5] == fed[base_off + i + 5]);
                assert(self.buffer@[i + 6] == fed[base_off + i + 6]);
                assert(self.buffer@[i + 7] == fed[base_off + i + 7]);
            }
            let lane = lane64_at(self.buffer.as_slice(), i);
            proof {
                assert(lane == spec_lane64(fed, base_off + i));
                assert(fed.len() - (base_off + i) >= 8);
            }
            hash = hash ^ rotl64(lane.wrapping_mul(PRIME64_2), 31).wrapping_mul(PRIME64_1);
            hash = rotl64(hash, 27).wrapping_mul(PRIME64_1).wrapping_add(PRIME64_4);
            i += 8;
        }
        while self.buffer_len - i >= 4
            invariant
                i <= self.buffer_len,
                self.buffer_len - i < 8,
                self.wf(),
                fed == self.fed@,
                n == fed.len(),
                base_off == n - self.buffer_len,
                spec_tail64(hash, fed, base_off + i) == spec_tail64(h0, fed, base_off),
            decreases self.buffer_len - i,
        {
            proof {
                assert(self.buffer@[i + 0] == fed[base_off + i + 0]);
                assert(self.buffer@[i + 1] == fed[base_off + i + 1]);
                assert(self.buffer@[i + 2] == fed[base_off + i + 2]);
                assert(self.buffer@[i + 3] == fed[base_off + i + 3]);
            }
            let lane = lane32_at(self.buffer.as_slice(), i);
            proof {
                assert(lane == spec_lane32(fed, base_off + i));
                assert(4 <= fed.len() - (base_off + i) < 8);
            }
            hash = hash ^ (lane as u64).wrapping_mul(PRIME64_1);
            hash = rotl64(hash, 23).wrapping_mul(PRIME64_2).wrapping_add(PRIME64_3);
            i += 4;
        }
        while i < self.buffer_len
            invariant
                i <= self.buffer_len,
                self.buffer_len - i < 4,
                self.wf(),
                fed == self.fed@,
                n == fed.len(),
                base_off == n - self.buffer_len,
                spec_tail64(hash, fed, base_off + i) == spec_tail64(h0, fed, base_off),
            decreases self.buffer_len - i,
        {
            proof {
                assert(self.buffer@[i as int] == fed[base_off + i]);
                assert(1 <= fed.len() - (base_off + i) < 4);
            }
            let byte = self.buffer[i];
            hash = hash ^ (byte as u64).wrapping_mul(PRIME64_5);
            hash = rotl64(hash, 11).wrapping_mul(PRIME64_1);
            i += 1;
        }
        proof {
            assert(base_off + i == fed.len());
            assert(spec_tail64(hash, fed, base_off + i) == hash);
        }
        hash = hash ^ (hash >> 33);
        hash = hash.wrapping_mul(PRIME64_2);
        hash = hash ^ (hash >> 29);
        hash = hash.wrapping_mul(PRIME64_3);
        hash = hash ^ (hash >> 32);
        hash
    }

    /// Merges one accumulator into the running finalization hash.
    fn merge_accumulator(&self, acc: u64, acc_n: u64) -> (r: u64)
        ensures
            r == spec_merge64(acc, acc_n),
    {
        let folded = rotl64(acc_n.wrapping_mul(PRIME64_2), 31).wrapping_mul(PRIME64_1);
        (acc ^ folded).wrapping_mul(PRIME64_1).wrapping_add(PRIME64_4)
    }

    /// The digest of `input` under `seed`, computed in one call.
    pub fn oneshot(input: &[u8], seed: u64) -> (r: u64)
        ensures
            r == spec_xxh64(input@, seed),
    {
        let n: usize = input.len();
        proof {
            assert(input@.len() <= u64::MAX);
        }
        let mut hasher = Self::new(seed);
        hasher.write(input);
        proof {
            assert(hasher.fed() =~= input@);
        }
        hasher.finish()
    }
}

impl Default for XxHash32 {
    /// The default hasher uses seed zero.
    fn default() -> (h: Self)
        ensures
            h.wf(),
            h.fed() == Seq::<u8>::empty(),
            h.seed() == 0,
    {
        Self::new(0)
    }
}

impl Default for XxHash64 {
    /// The default hasher uses seed zero.
    fn default() -> (h: Self)
        ensures
            h.wf(),
            h.fed() == Seq::<u8>::empty(),
            h.seed() == 0,
    {
        Self::new(0)
    }
}

} // verus!
