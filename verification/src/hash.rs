//! MurmurHash3 (x64, 128-bit): a stable, well-spread hash for consistent hashing.
//!
//! The hash of a byte string is the same in every process and on every platform: words are read
//! little-endian and nothing is seeded at random. The two words of the result are used as two
//! hashes of one pass.
use vstd::prelude::*;

verus! {

/// The multiplier that scrambles low words first.
pub const C1: u64 = 0x87c3_7b91_1142_53d5;

/// The multiplier that scrambles low words second.
pub const C2: u64 = 0x4cf5_ad43_2745_937f;

/// The first multiplier of the finalizer.
pub const FMIX_1: u64 = 0xff51_afd7_ed55_8ccd;

/// The second multiplier of the finalizer.
pub const FMIX_2: u64 = 0xc4ce_b9fe_1a85_ec53;

/// `x` rotated left by `r` bits, for `0 < r < 64`.
pub open spec fn rotl(x: u64, r: u64) -> u64 {
    (x << r) | (x >> ((64 - r) as u64))
}

/// The number that `bytes` writes in base 256, least significant byte first.
pub open spec fn le_word(bytes: Seq<u8>) -> int
    decreases bytes.len(),
{
    if bytes.len() == 0 {
        0
    } else {
        bytes[0] + 256 * le_word(bytes.skip(1))
    }
}

/// The finalizer of one word.
pub open spec fn fmixed(k: u64) -> u64 {
    let a = (k ^ (k >> 33)).wrapping_mul(FMIX_1);
    let b = (a ^ (a >> 33)).wrapping_mul(FMIX_2);
    b ^ (b >> 33)
}

/// A low word of input, scrambled.
pub open spec fn scrambled_low(k: u64) -> u64 {
    rotl(k.wrapping_mul(C1), 31).wrapping_mul(C2)
}

/// A high word of input, scrambled.
pub open spec fn scrambled_high(k: u64) -> u64 {
    rotl(k.wrapping_mul(C2), 33).wrapping_mul(C1)
}

/// The state after one full block whose words are `k1` and `k2`.
pub open spec fn block_mixed(h: (u64, u64), k1: u64, k2: u64) -> (u64, u64) {
    let h1 = rotl(h.0 ^ scrambled_low(k1), 27).wrapping_add(h.1).wrapping_mul(5).wrapping_add(
        0x52dc_e729,
    );
    let h2 = rotl(h.1 ^ scrambled_high(k2), 31).wrapping_add(h1).wrapping_mul(5).wrapping_add(
        0x3849_5ab5,
    );
    (h1, h2)
}

/// The state after the first `n` full blocks of `data`.
pub open spec fn absorbed(data: Seq<u8>, seed: u64, n: nat) -> (u64, u64)
    decreases n,
{
    if n == 0 {
        (seed, seed)
    } else {
        let base = 16 * (n - 1);
        block_mixed(
            absorbed(data, seed, (n - 1) as nat),
            le_word(data.subrange(base, base + 8)) as u64,
            le_word(data.subrange(base + 8, base + 16)) as u64,
        )
    }
}

/// The state after the bytes that fill no block: they count as one last block padded with zeros.
pub open spec fn tail_absorbed(h: (u64, u64), tail: Seq<u8>) -> (u64, u64) {
    if tail.len() <= 8 {
        (h.0 ^ scrambled_low(le_word(tail) as u64), h.1)
    } else {
        (
            h.0 ^ scrambled_low(le_word(tail.take(8)) as u64),
            h.1 ^ scrambled_high(le_word(tail.skip(8)) as u64),
        )
    }
}

/// The result for a final state and the number of bytes that were hashed.
pub open spec fn finished(h: (u64, u64), len: u64) -> (u64, u64) {
    let a = (h.0 ^ len).wrapping_add(h.1 ^ len);
    let b = (h.1 ^ len).wrapping_add(a);
    let low = fmixed(a).wrapping_add(fmixed(b));
    (low, fmixed(b).wrapping_add(low))
}

/// `MurmurHash3_x64_128` of `data`, as its low and high word.
pub open spec fn murmur3(data: Seq<u8>, seed: u64) -> (u64, u64) {
    let blocks = data.len() / 16;
    finished(
        tail_absorbed(absorbed(data, seed, blocks), data.skip(16 * blocks as int)),
        data.len() as u64,
    )
}

/// Rotates left by `r` bits.
fn rotate(x: u64, r: u64) -> (y: u64)
    requires
        0 < r < 64,
    ensures
        y == rotl(x, r),
{
    (x << r) | (x >> (64 - r))
}

/// Scrambles a low word.
fn scramble_low(k: u64) -> (r: u64)
    ensures
        r == scrambled_low(k),
{
    rotate(k.wrapping_mul(C1), 31).wrapping_mul(C2)
}

/// Scrambles a high word.
fn scramble_high(k: u64) -> (r: u64)
    ensures
        r == scrambled_high(k),
{
    rotate(k.wrapping_mul(C2), 33).wrapping_mul(C1)
}

/// Reads `data[from..to]`, at most eight bytes, as a little-endian word.
fn read_word(data: &[u8], from: usize, to: usize) -> (r: u64)
    requires
        from <= to <= data@.len(),
        to - from <= 8,
    ensures
        r == le_word(data@.subrange(from as int, to as int)),
{
    let mut word: u64 = 0;
    let mut at: usize = to;
    proof {
        assert(data@.subrange(to as int, to as int) =~= Seq::<u8>::empty());
        lemma_word_bound(data@.subrange(to as int, to as int));
    }
    while at > from
        invariant
            from <= at <= to <= data@.len(),
            to - from <= 8,
            word == le_word(data@.subrange(at as int, to as int)),
        decreases at,
    {
        let ghost rest = data@.subrange(at as int, to as int);
        proof {
            lemma_word_bound(rest);
            lemma_power_bound(rest.len());
        }
        at = at - 1;
        proof {
            let longer = data@.subrange(at as int, to as int);
            assert(longer.skip(1) =~= rest);
            assert(longer[0] == data@[at as int]);
        }
        word = word * 256 + data[at] as u64;
    }
    word
}

/// MurmurHash3's 64-bit finalizer.
pub fn fmix64(k: u64) -> (r: u64)
    ensures
        r == fmixed(k),
{
    let a: u64 = (k ^ (k >> 33)).wrapping_mul(FMIX_1);
    let b: u64 = (a ^ (a >> 33)).wrapping_mul(FMIX_2);
    b ^ (b >> 33)
}

/// `MurmurHash3_x64_128`: hashes `data` to 128 bits, given as the low and the high word.
pub fn murmur3_x64_128(data: &[u8], seed: u64) -> (r: (u64, u64))
    ensures
        r == murmur3(data@, seed),
{
    let len: usize = data.len();
    let blocks: usize = len / 16;
    let mut h1: u64 = seed;
    let mut h2: u64 = seed;
    let mut i: usize = 0;
    while i < blocks
        invariant
            len == data@.len(),
            blocks == len / 16,
            i <= blocks,
            (h1, h2) == absorbed(data@, seed, i as nat),
        decreases blocks - i,
    {
        let base: usize = i * 16;
        let k1: u64 = read_word(data, base, base + 8);
        let k2: u64 = read_word(data, base + 8, base + 16);
        h1 = rotate(h1 ^ scramble_low(k1), 27).wrapping_add(h2).wrapping_mul(5).wrapping_add(
            0x52dc_e729,
        );
        h2 = rotate(h2 ^ scramble_high(k2), 31).wrapping_add(h1).wrapping_mul(5).wrapping_add(
            0x3849_5ab5,
        );
        i = i + 1;
    }
    let start: usize = blocks * 16;
    let ghost tail = data@.skip(start as int);
    if len - start > 8 {
        let k2: u64 = read_word(data, start + 8, len);
        h2 = h2 ^ scramble_high(k2);
        let k1: u64 = read_word(data, start, start + 8);
        h1 = h1 ^ scramble_low(k1);
        proof {
            assert(tail.take(8) =~= data@.subrange(start as int, start + 8));
            assert(tail.skip(8) =~= data@.subrange(start + 8, len as int));
        }
    } else {
        let k1: u64 = read_word(data, start, len);
        h1 = h1 ^ scramble_low(k1);
        proof {
            assert(tail =~= data@.subrange(start as int, len as int));
        }
    }
    let total: u64 = len as u64;
    h1 = h1 ^ total;
    h2 = h2 ^ total;
    h1 = h1.wrapping_add(h2);
    h2 = h2.wrapping_add(h1);
    h1 = fmix64(h1);
    h2 = fmix64(h2);
    h1 = h1.wrapping_add(h2);
    h2 = h2.wrapping_add(h1);
    (h1, h2)
}

/// A single 64-bit hash of `data`: the low word of the 128-bit hash under seed zero. It maps a
/// request key to a slot of a lookup table.
pub fn hash64(data: &[u8]) -> (r: u64)
    ensures
        r == murmur3(data@, 0).0,
{
    murmur3_x64_128(data, 0).0
}

proof fn lemma_word_bound(bytes: Seq<u8>)
    ensures
        0 <= le_word(bytes) < vstd::arithmetic::power::pow(256, bytes.len()),
    decreases bytes.len(),
{
    reveal(vstd::arithmetic::power::pow);
    if bytes.len() > 0 {
        lemma_word_bound(bytes.skip(1));
    }
}

proof fn lemma_power_bound(n: nat)
    requires
        n < 8,
    ensures
        256 * vstd::arithmetic::power::pow(256, n) <= 0x1_0000_0000_0000_0000,
{
    reveal_with_fuel(vstd::arithmetic::power::pow, 9);
}

proof fn lemma_rotl_is_injective(x: u64, y: u64)
    ensures
        rotl(x, 27) == rotl(y, 27) ==> x == y,
        rotl(x, 31) == rotl(y, 31) ==> x == y,
        rotl(x, 33) == rotl(y, 33) ==> x == y,
{
    assert(((x << 27u64) | (x >> 37u64)) == ((y << 27u64) | (y >> 37u64)) ==> x == y)
        by (bit_vector);
    assert(((x << 31u64) | (x >> 33u64)) == ((y << 31u64) | (y >> 33u64)) ==> x == y)
        by (bit_vector);
    assert(((x << 33u64) | (x >> 31u64)) == ((y << 33u64) | (y >> 31u64)) ==> x == y)
        by (bit_vector);
}

proof fn lemma_xor_is_injective(h: u64, x: u64, y: u64)
    ensures
        h ^ x == h ^ y ==> x == y,
        x ^ h == y ^ h ==> x == y,
{
    assert(h ^ x == h ^ y ==> x == y) by (bit_vector);
    assert(x ^ h == y ^ h ==> x == y) by (bit_vector);
}

/// Multiplication by either multiplier is one-to-one.
#[verifier::spinoff_prover]
#[verifier::rlimit(60)]
proof fn lemma_multipliers_are_injective(x: u64, y: u64)
    ensures
        x.wrapping_mul(C1) == y.wrapping_mul(C1) ==> x == y,
        x.wrapping_mul(C2) == y.wrapping_mul(C2) ==> x == y,
{
    if x.wrapping_mul(C1) == y.wrapping_mul(C1) {
        crate::rng::lemma_odd_multiplication_is_injective(x, y, C1, 0xa984_09e8_82ce_4d7d);
    }
    if x.wrapping_mul(C2) == y.wrapping_mul(C2) {
        crate::rng::lemma_odd_multiplication_is_injective(x, y, C2, 0xa81e_14ed_d9de_2c7f);
    }
}

proof fn lemma_scrambling_is_injective(x: u64, y: u64)
    ensures
        scrambled_low(x) == scrambled_low(y) ==> x == y,
        scrambled_high(x) == scrambled_high(y) ==> x == y,
{
    let (xl, yl) = (x.wrapping_mul(C1), y.wrapping_mul(C1));
    let (xh, yh) = (x.wrapping_mul(C2), y.wrapping_mul(C2));
    lemma_multipliers_are_injective(x, y);
    lemma_rotl_is_injective(xl, yl);
    lemma_rotl_is_injective(xh, yh);
    lemma_multipliers_are_injective(rotl(xl, 31), rotl(yl, 31));
    lemma_multipliers_are_injective(rotl(xh, 33), rotl(yh, 33));
}

/// The finalizer gives distinct words distinct images.
pub proof fn lemma_fmix_is_injective(x: u64, y: u64)
    requires
        fmixed(x) == fmixed(y),
    ensures
        x == y,
{
    let ax = (x ^ (x >> 33)).wrapping_mul(FMIX_1);
    let ay = (y ^ (y >> 33)).wrapping_mul(FMIX_1);
    let bx = (ax ^ (ax >> 33)).wrapping_mul(FMIX_2);
    let by_ = (ay ^ (ay >> 33)).wrapping_mul(FMIX_2);
    assert((bx ^ (bx >> 33)) == (by_ ^ (by_ >> 33)) ==> bx == by_) by (bit_vector);
    crate::rng::lemma_odd_multiplication_is_injective(
        ax ^ (ax >> 33),
        ay ^ (ay >> 33),
        FMIX_2,
        0x9cb4b2f8129337db,
    );
    assert((ax ^ (ax >> 33)) == (ay ^ (ay >> 33)) ==> ax == ay) by (bit_vector);
    crate::rng::lemma_odd_multiplication_is_injective(
        x ^ (x >> 33),
        y ^ (y >> 33),
        FMIX_1,
        0x4f74430c22a54005,
    );
    assert((x ^ (x >> 33)) == (y ^ (y >> 33)) ==> x == y) by (bit_vector);
}

/// A block is absorbed one-to-one: into one state no two blocks lead to the same state, and no two
/// states lead to the same one under a block.
proof fn lemma_block_is_injective(
    h: (u64, u64),
    g: (u64, u64),
    k1: u64,
    k2: u64,
    l1: u64,
    l2: u64,
)
    requires
        block_mixed(h, k1, k2) == block_mixed(g, l1, l2),
        h == g || (k1 == l1 && k2 == l2),
    ensures
        h == g,
        k1 == l1,
        k2 == l2,
{
    let p = rotl(h.0 ^ scrambled_low(k1), 27);
    let q = rotl(g.0 ^ scrambled_low(l1), 27);
    let (h1, h2) = block_mixed(h, k1, k2);
    let r = rotl(h.1 ^ scrambled_high(k2), 31);
    let s = rotl(g.1 ^ scrambled_high(l2), 31);
    crate::rng::lemma_odd_multiplication_is_injective(
        p.wrapping_add(h.1),
        q.wrapping_add(g.1),
        5,
        0xcccc_cccc_cccc_cccd,
    );
    crate::rng::lemma_odd_multiplication_is_injective(
        r.wrapping_add(h1),
        s.wrapping_add(h1),
        5,
        0xcccc_cccc_cccc_cccd,
    );
    lemma_rotl_is_injective(h.1 ^ scrambled_high(k2), g.1 ^ scrambled_high(l2));
    lemma_rotl_is_injective(h.0 ^ scrambled_low(k1), g.0 ^ scrambled_low(l1));
    if h == g {
        lemma_xor_is_injective(h.0, scrambled_low(k1), scrambled_low(l1));
        lemma_xor_is_injective(h.1, scrambled_high(k2), scrambled_high(l2));
        lemma_scrambling_is_injective(k1, l1);
        lemma_scrambling_is_injective(k2, l2);
    } else {
        lemma_xor_is_injective(scrambled_high(k2), h.1, g.1);
        lemma_xor_is_injective(scrambled_low(k1), h.0, g.0);
    }
}

proof fn lemma_word_is_injective(a: Seq<u8>, b: Seq<u8>)
    requires
        a.len() == b.len(),
        le_word(a) == le_word(b),
    ensures
        a == b,
    decreases a.len(),
{
    if a.len() > 0 {
        lemma_word_is_injective(a.skip(1), b.skip(1));
        assert(a[0] == b[0]);
        assert forall|i: int| 0 <= i < a.len() implies a[i] == b[i] by {
            if i > 0 {
                assert(a.skip(1)[i - 1] == b.skip(1)[i - 1]);
            }
        }
    }
    assert(a =~= b);
}

proof fn lemma_short_word_fits(a: Seq<u8>)
    requires
        a.len() <= 8,
    ensures
        le_word(a) as u64 == le_word(a),
{
    lemma_word_bound(a);
    reveal_with_fuel(vstd::arithmetic::power::pow, 9);
}

proof fn lemma_tail_is_injective(h: (u64, u64), g: (u64, u64), t: Seq<u8>, u: Seq<u8>)
    requires
        t.len() == u.len(),
        t.len() < 16,
        tail_absorbed(h, t) == tail_absorbed(g, u),
        h == g || t == u,
    ensures
        h == g,
        t == u,
{
    if t.len() <= 8 {
        lemma_xor_is_injective(h.0, scrambled_low(le_word(t) as u64), scrambled_low(le_word(u) as u64));
        lemma_xor_is_injective(scrambled_low(le_word(t) as u64), h.0, g.0);
        lemma_scrambling_is_injective(le_word(t) as u64, le_word(u) as u64);
        lemma_short_word_fits(t);
        lemma_short_word_fits(u);
        if h == g {
            lemma_word_is_injective(t, u);
        }
    } else {
        let (a, b) = (t.take(8), u.take(8));
        let (c, d) = (t.skip(8), u.skip(8));
        lemma_xor_is_injective(h.0, scrambled_low(le_word(a) as u64), scrambled_low(le_word(b) as u64));
        lemma_xor_is_injective(scrambled_low(le_word(a) as u64), h.0, g.0);
        lemma_xor_is_injective(h.1, scrambled_high(le_word(c) as u64), scrambled_high(le_word(d) as u64));
        lemma_xor_is_injective(scrambled_high(le_word(c) as u64), h.1, g.1);
        lemma_scrambling_is_injective(le_word(a) as u64, le_word(b) as u64);
        lemma_scrambling_is_injective(le_word(c) as u64, le_word(d) as u64);
        lemma_short_word_fits(a);
        lemma_short_word_fits(b);
        lemma_short_word_fits(c);
        lemma_short_word_fits(d);
        if h == g {
            lemma_word_is_injective(a, b);
            lemma_word_is_injective(c, d);
            assert(t =~= a + c);
            assert(u =~= b + d);
        }
    }
}

proof fn lemma_finish_is_injective(h: (u64, u64), g: (u64, u64), len: u64)
    requires
        finished(h, len) == finished(g, len),
    ensures
        h == g,
{
    lemma_finish_words(h, len, g, len);
    lemma_xor_is_injective(len, h.0, g.0);
    lemma_xor_is_injective(len, h.1, g.1);
}

/// The finalization of a state and a length gives back both words with the length mixed in.
proof fn lemma_finish_words(h: (u64, u64), m: u64, g: (u64, u64), n: u64)
    requires
        finished(h, m) == finished(g, n),
    ensures
        h.0 ^ m == g.0 ^ n,
        h.1 ^ m == g.1 ^ n,
{
    let a = (h.0 ^ m).wrapping_add(h.1 ^ m);
    let b = (h.1 ^ m).wrapping_add(a);
    let c = (g.0 ^ n).wrapping_add(g.1 ^ n);
    let d = (g.1 ^ n).wrapping_add(c);
    assert(fmixed(b) == fmixed(d));
    lemma_fmix_is_injective(b, d);
    lemma_fmix_is_injective(a, c);
}

/// Equal prefixes are absorbed alike.
proof fn lemma_absorbed_prefix(a: Seq<u8>, b: Seq<u8>, seed: u64, n: nat)
    requires
        16 * n <= a.len(),
        16 * n <= b.len(),
        forall|i: int| 0 <= i < 16 * n ==> a[i] == b[i],
    ensures
        absorbed(a, seed, n) == absorbed(b, seed, n),
    decreases n,
{
    if n > 0 {
        let base = 16 * (n - 1);
        lemma_absorbed_prefix(a, b, seed, (n - 1) as nat);
        assert(a.subrange(base, base + 8) =~= b.subrange(base, base + 8));
        assert(a.subrange(base + 8, base + 16) =~= b.subrange(base + 8, base + 16));
    }
}

/// From equal states after some blocks one can go back over blocks that are equal.
proof fn lemma_absorbed_back(a: Seq<u8>, b: Seq<u8>, s: u64, t: u64, from: nat, n: nat)
    requires
        from <= n,
        16 * n <= a.len(),
        16 * n <= b.len(),
        forall|i: int| 16 * from <= i < 16 * n ==> a[i] == b[i],
        absorbed(a, s, n) == absorbed(b, t, n),
    ensures
        absorbed(a, s, from) == absorbed(b, t, from),
    decreases n - from,
{
    if from < n {
        let base = 16 * (n - 1);
        assert(a.subrange(base, base + 8) =~= b.subrange(base, base + 8));
        assert(a.subrange(base + 8, base + 16) =~= b.subrange(base + 8, base + 16));
        let k1 = le_word(a.subrange(base, base + 8)) as u64;
        let k2 = le_word(a.subrange(base + 8, base + 16)) as u64;
        lemma_block_is_injective(
            absorbed(a, s, (n - 1) as nat),
            absorbed(b, t, (n - 1) as nat),
            k1,
            k2,
            k1,
            k2,
        );
        lemma_absorbed_back(a, b, s, t, from, (n - 1) as nat);
    }
}

/// Equal hashes of strings of one length come from equal states before the last partial block, where
/// these are equal, and from equal last partial blocks, where the states are.
proof fn lemma_equal_hashes(a: Seq<u8>, b: Seq<u8>, s: u64, t: u64)
    requires
        a.len() == b.len(),
        murmur3(a, s) == murmur3(b, t),
    ensures
        ({
            let n = a.len() / 16;
            let x = a.skip(16 * n as int);
            let y = b.skip(16 * n as int);
            absorbed(a, s, n) == absorbed(b, t, n) <==> x == y
        }),
{
    let n = a.len() / 16;
    let x = a.skip(16 * n as int);
    let y = b.skip(16 * n as int);
    let h = absorbed(a, s, n);
    let g = absorbed(b, t, n);
    lemma_finish_is_injective(tail_absorbed(h, x), tail_absorbed(g, y), a.len() as u64);
    if h == g || x == y {
        lemma_tail_is_injective(h, g, x, y);
    }
}

/// Blocks at one place that lead from one state to the same state are equal.
proof fn lemma_equal_blocks(a: Seq<u8>, b: Seq<u8>, seed: u64, n: nat)
    requires
        16 * n + 16 <= a.len(),
        16 * n + 16 <= b.len(),
        absorbed(a, seed, n) == absorbed(b, seed, n),
        absorbed(a, seed, n + 1) == absorbed(b, seed, n + 1),
    ensures
        forall|i: int| 16 * n <= i < 16 * n + 16 ==> a[i] == b[i],
{
    let base = 16 * n as int;
    let (a1, a2) = (a.subrange(base, base + 8), a.subrange(base + 8, base + 16));
    let (b1, b2) = (b.subrange(base, base + 8), b.subrange(base + 8, base + 16));
    lemma_block_is_injective(
        absorbed(a, seed, n),
        absorbed(b, seed, n),
        le_word(a1) as u64,
        le_word(a2) as u64,
        le_word(b1) as u64,
        le_word(b2) as u64,
    );
    lemma_short_word_fits(a1);
    lemma_short_word_fits(a2);
    lemma_short_word_fits(b1);
    lemma_short_word_fits(b2);
    lemma_word_is_injective(a1, b1);
    lemma_word_is_injective(a2, b2);
    assert forall|i: int| base <= i < base + 16 implies a[i] == b[i] by {
        if i < base + 8 {
            assert(a1[i - base] == b1[i - base]);
        } else {
            assert(a2[i - base - 8] == b2[i - base - 8]);
        }
    }
}

/// Every byte counts, whatever its place: byte strings of one length that differ only within one
/// stretch of sixteen bytes, counted from the start, have different hashes under every seed. In
/// particular, strings of at most sixteen bytes have the same hash only if they are equal.
#[verifier::spinoff_prover]
#[verifier::rlimit(60)]
pub proof fn lemma_every_byte_counts(a: Seq<u8>, b: Seq<u8>, seed: u64, n: nat)
    requires
        a.len() == b.len(),
        forall|i: int| 0 <= i < a.len() && !(16 * n <= i < 16 * n + 16) ==> a[i] == b[i],
        murmur3(a, seed) == murmur3(b, seed),
    ensures
        a == b,
{
    let blocks = a.len() / 16;
    let t = a.skip(16 * blocks as int);
    let u = b.skip(16 * blocks as int);
    lemma_equal_hashes(a, b, seed, seed);
    if n < blocks {
        assert(t =~= u);
        lemma_absorbed_back(a, b, seed, seed, n + 1, blocks);
        lemma_absorbed_prefix(a, b, seed, n);
        lemma_equal_blocks(a, b, seed, n);
    } else {
        lemma_absorbed_prefix(a, b, seed, blocks);
        assert forall|i: int| 0 <= i < a.len() implies a[i] == b[i] by {
            if i >= 16 * blocks {
                assert(t[i - 16 * blocks] == u[i - 16 * blocks]);
            }
        }
    }
    assert(a =~= b);
}

/// The seed counts: a byte string has different hashes under different seeds.
pub proof fn lemma_the_seed_counts(data: Seq<u8>, s: u64, t: u64)
    requires
        murmur3(data, s) == murmur3(data, t),
    ensures
        s == t,
{
    let blocks = data.len() / 16;
    lemma_equal_hashes(data, data, s, t);
    lemma_absorbed_back(data, data, s, t, 0, blocks);
}

proof fn lemma_padded_word(t: Seq<u8>, k: nat)
    ensures
        le_word(t + Seq::new(k, |i: int| 0u8)) == le_word(t),
    decreases t.len() + k,
{
    let padded = t + Seq::new(k, |i: int| 0u8);
    if t.len() > 0 {
        lemma_padded_word(t.skip(1), k);
        assert(padded.skip(1) =~= t.skip(1) + Seq::new(k, |i: int| 0u8));
    } else if k > 0 {
        lemma_padded_word(t, (k - 1) as nat);
        assert(padded.skip(1) =~= t + Seq::new((k - 1) as nat, |i: int| 0u8));
    }
}

/// A last partial block counts as if it were padded with zeros: zeros at its end change nothing
/// before the length is mixed in.
pub proof fn lemma_tail_is_padded(h: (u64, u64), t: Seq<u8>, k: nat)
    requires
        t.len() + k < 16,
    ensures
        tail_absorbed(h, t + Seq::new(k, |i: int| 0u8)) == tail_absorbed(h, t),
{
    let zeros = Seq::new(k, |i: int| 0u8);
    let padded = t + zeros;
    if padded.len() <= 8 {
        lemma_padded_word(t, k);
    } else if t.len() <= 8 {
        let more = (8 - t.len()) as nat;
        assert(padded.take(8) =~= t + Seq::new(more, |i: int| 0u8));
        lemma_padded_word(t, more);
        let rest = (padded.len() - 8) as nat;
        assert(padded.skip(8) =~= Seq::<u8>::empty() + Seq::new(rest, |i: int| 0u8));
        lemma_padded_word(Seq::empty(), rest);
        assert(scrambled_high(0) == 0) by {
            assert(((0u64 << 33u64) | (0u64 >> 31u64)) == 0) by (bit_vector);
        }
        let x = h.1;
        assert(x ^ 0 == x) by (bit_vector);
    } else {
        assert(padded.take(8) =~= t.take(8));
        assert(padded.skip(8) =~= t.skip(8) + zeros);
        lemma_padded_word(t.skip(8), k);
    }
}

/// The length counts: zeros at the end of a byte string that begin no new block change its hash.
pub proof fn lemma_the_length_counts(data: Seq<u8>, seed: u64, k: nat)
    requires
        k > 0,
        data.len() % 16 + k < 16,
        data.len() + k <= u64::MAX,
    ensures
        murmur3(data + Seq::new(k, |i: int| 0u8), seed) != murmur3(data, seed),
{
    let zeros = Seq::new(k, |i: int| 0u8);
    let longer = data + zeros;
    let blocks = data.len() / 16;
    assert(longer.len() / 16 == blocks);
    let tail = data.skip(16 * blocks as int);
    assert(longer.skip(16 * blocks as int) =~= tail + zeros);
    lemma_absorbed_prefix(data, longer, seed, blocks);
    let h = absorbed(data, seed, blocks);
    lemma_tail_is_padded(h, tail, k);
    if murmur3(longer, seed) == murmur3(data, seed) {
        let end = tail_absorbed(h, tail);
        lemma_finish_words(end, data.len() as u64, end, longer.len() as u64);
        lemma_xor_is_injective(end.0, data.len() as u64, longer.len() as u64);
    }
}

/// Blocks are absorbed alike wherever they stand: equal states and equal blocks lead to equal
/// states, whatever came before and however many.
#[verifier::spinoff_prover]
#[verifier::rlimit(60)]
pub proof fn lemma_blocks_are_absorbed_alike(
    a: Seq<u8>,
    b: Seq<u8>,
    s: u64,
    t: u64,
    m: nat,
    n: nat,
)
    requires
        16 * m + 16 <= a.len(),
        16 * n + 16 <= b.len(),
        absorbed(a, s, m) == absorbed(b, t, n),
        a.subrange((16 * m) as int, (16 * m + 16) as int) == b.subrange(
            (16 * n) as int,
            (16 * n + 16) as int,
        ),
    ensures
        absorbed(a, s, m + 1) == absorbed(b, t, n + 1),
{
    let p = (16 * m) as int;
    let q = (16 * n) as int;
    let x = a.subrange(p, p + 16);
    let y = b.subrange(q, q + 16);
    assert(x == y);
    let (a1, b1) = (a.subrange(p, p + 8), b.subrange(q, q + 8));
    let (a2, b2) = (a.subrange(p + 8, p + 16), b.subrange(q + 8, q + 16));
    assert(a1 =~= x.subrange(0, 8));
    assert(b1 =~= y.subrange(0, 8));
    assert(a2 =~= x.subrange(8, 16));
    assert(b2 =~= y.subrange(8, 16));
}

/// The length enters by one exclusive or into both words, and nowhere else in the finalization.
pub proof fn lemma_length_is_mixed_in(h: (u64, u64), len: u64, d: u64)
    ensures
        finished((h.0 ^ d, h.1 ^ d), len ^ d) == finished(h, len),
{
    let (x, y) = h;
    assert((x ^ d) ^ (len ^ d) == x ^ len) by (bit_vector);
    assert((y ^ d) ^ (len ^ d) == y ^ len) by (bit_vector);
}

/// The word that the finalizer takes to `k`.
pub open spec fn unfmixed(k: u64) -> u64 {
    let b = (k ^ (k >> 33)).wrapping_mul(0x9cb4_b2f8_1293_37db);
    let a = (b ^ (b >> 33)).wrapping_mul(0x4f74_430c_22a5_4005);
    a ^ (a >> 33)
}

/// The finalizer can be undone, by the inverse of each of its steps in turn.
#[verifier::spinoff_prover]
#[verifier::rlimit(40)]
pub proof fn lemma_fmix_is_undone(k: u64)
    ensures
        unfmixed(fmixed(k)) == k,
{
    let p = k ^ (k >> 33);
    let a = p.wrapping_mul(FMIX_1);
    let q = a ^ (a >> 33);
    let b = q.wrapping_mul(FMIX_2);
    assert((b ^ (b >> 33)) ^ ((b ^ (b >> 33)) >> 33) == b) by (bit_vector);
    crate::rng::lemma_odd_multiplication_is_undone(q, FMIX_2, 0x9cb4_b2f8_1293_37db);
    assert((a ^ (a >> 33)) ^ ((a ^ (a >> 33)) >> 33) == a) by (bit_vector);
    crate::rng::lemma_odd_multiplication_is_undone(p, FMIX_1, 0x4f74_430c_22a5_4005);
    assert((k ^ (k >> 33)) ^ ((k ^ (k >> 33)) >> 33) == k) by (bit_vector);
}

/// The low word of input that is scrambled to `s`.
pub open spec fn unscrambled_low(s: u64) -> u64 {
    rotl(s.wrapping_mul(0xa81e_14ed_d9de_2c7f), 33).wrapping_mul(0xa984_09e8_82ce_4d7d)
}

/// The high word of input that is scrambled to `s`.
pub open spec fn unscrambled_high(s: u64) -> u64 {
    rotl(s.wrapping_mul(0xa984_09e8_82ce_4d7d), 31).wrapping_mul(0xa81e_14ed_d9de_2c7f)
}

proof fn lemma_rotl_is_undone(x: u64)
    ensures
        rotl(rotl(x, 31), 33) == x,
        rotl(rotl(x, 33), 31) == x,
        rotl(rotl(x, 27), 37) == x,
{
    let y = rotl(x, 31);
    assert(y == (x << 31u64) | (x >> 33u64) ==> ((y << 33u64) | (y >> 31u64)) == x)
        by (bit_vector);
    let z = rotl(x, 33);
    assert(z == (x << 33u64) | (x >> 31u64) ==> ((z << 31u64) | (z >> 33u64)) == x)
        by (bit_vector);
    let w = rotl(x, 27);
    assert(w == (x << 27u64) | (x >> 37u64) ==> ((w << 37u64) | (w >> 27u64)) == x)
        by (bit_vector);
}

proof fn lemma_scrambling_is_undone(k: u64)
    ensures
        unscrambled_low(scrambled_low(k)) == k,
        unscrambled_high(scrambled_high(k)) == k,
{
    let a = k.wrapping_mul(C1);
    let b = k.wrapping_mul(C2);
    crate::rng::lemma_odd_multiplication_is_undone(rotl(a, 31), C2, 0xa81e_14ed_d9de_2c7f);
    crate::rng::lemma_odd_multiplication_is_undone(rotl(b, 33), C1, 0xa984_09e8_82ce_4d7d);
    lemma_rotl_is_undone(a);
    lemma_rotl_is_undone(b);
    crate::rng::lemma_odd_multiplication_is_undone(k, C1, 0xa984_09e8_82ce_4d7d);
    crate::rng::lemma_odd_multiplication_is_undone(k, C2, 0xa81e_14ed_d9de_2c7f);
}

/// The words of the block that leads from one state to another.
pub open spec fn block_between(h: (u64, u64), g: (u64, u64)) -> (u64, u64) {
    let p = g.0.wrapping_sub(0x52dc_e729).wrapping_mul(0xcccc_cccc_cccc_cccd).wrapping_sub(h.1);
    let q = g.1.wrapping_sub(0x3849_5ab5).wrapping_mul(0xcccc_cccc_cccc_cccd).wrapping_sub(g.0);
    (unscrambled_low(rotl(p, 37) ^ h.0), unscrambled_high(rotl(q, 33) ^ h.1))
}

proof fn lemma_step_is_undone(x: u64, y: u64, c: u64)
    ensures
        x.wrapping_add(y).wrapping_mul(5).wrapping_add(c).wrapping_sub(c).wrapping_mul(
            0xcccc_cccc_cccc_cccd,
        ).wrapping_sub(y) == x,
{
    let sum = x.wrapping_add(y);
    crate::rng::lemma_odd_multiplication_is_undone(sum, 5, 0xcccc_cccc_cccc_cccd);
    let five = sum.wrapping_mul(5);
    assert(five.wrapping_add(c).wrapping_sub(c) == five);
    assert(sum.wrapping_sub(y) == x);
}

#[verifier::spinoff_prover]
#[verifier::rlimit(60)]
proof fn lemma_block_is_undone(h: (u64, u64), k1: u64, k2: u64)
    ensures
        block_between(h, block_mixed(h, k1, k2)) == (k1, k2),
{
    let (x, y) = h;
    let s = scrambled_low(k1);
    let t = scrambled_high(k2);
    let (h1, h2) = block_mixed(h, k1, k2);
    lemma_step_is_undone(rotl(x ^ s, 27), y, 0x52dc_e729);
    lemma_step_is_undone(rotl(y ^ t, 31), h1, 0x3849_5ab5);
    lemma_rotl_is_undone(x ^ s);
    lemma_rotl_is_undone(y ^ t);
    assert((x ^ s) ^ x == s) by (bit_vector);
    assert((y ^ t) ^ y == t) by (bit_vector);
    lemma_scrambling_is_undone(k1);
    lemma_scrambling_is_undone(k2);
}

/// The state before the length is mixed in and the result is drawn from it.
pub open spec fn unfinished(r: (u64, u64), len: u64) -> (u64, u64) {
    let high = r.1.wrapping_sub(r.0);
    let a = unfmixed(r.0.wrapping_sub(high));
    let b = unfmixed(high);
    let second = b.wrapping_sub(a);
    (a.wrapping_sub(second) ^ len, second ^ len)
}

#[verifier::spinoff_prover]
#[verifier::rlimit(60)]
proof fn lemma_finish_is_undone(h: (u64, u64), len: u64)
    ensures
        unfinished(finished(h, len), len) == h,
{
    let (x, y) = h;
    let p = x ^ len;
    let q = y ^ len;
    let a = p.wrapping_add(q);
    let b = q.wrapping_add(a);
    let fa = fmixed(a);
    let fb = fmixed(b);
    let low = fa.wrapping_add(fb);
    let r = (low, fb.wrapping_add(low));
    assert(finished(h, len) == r);
    assert(r.1.wrapping_sub(r.0) == fb);
    assert(r.0.wrapping_sub(fb) == fa);
    lemma_fmix_is_undone(a);
    lemma_fmix_is_undone(b);
    assert(b.wrapping_sub(a) == q);
    assert(a.wrapping_sub(q) == p);
    assert((x ^ len) ^ len == x) by (bit_vector);
    assert((y ^ len) ^ len == y) by (bit_vector);
}

/// Eight bytes are read as one number, the first byte counting least.
pub proof fn lemma_word_is_little_endian(b: Seq<u8>)
    requires
        b.len() == 8,
    ensures
        le_word(b) == b[0] + b[1] * 0x100 + b[2] * 0x1_0000 + b[3] * 0x100_0000 + b[4]
            * 0x1_0000_0000 + b[5] * 0x100_0000_0000 + b[6] * 0x1_0000_0000_0000 + b[7]
            * 0x100_0000_0000_0000,
{
    assert(b.skip(8).len() == 0);
    assert(b.skip(0) =~= b);
    assert(b.skip(7).skip(1) =~= b.skip(8));
    assert(le_word(b.skip(7)) == b[7] + 256 * le_word(b.skip(8)));
    assert(b.skip(6).skip(1) =~= b.skip(7));
    assert(le_word(b.skip(6)) == b[6] + 256 * le_word(b.skip(7)));
    assert(b.skip(5).skip(1) =~= b.skip(6));
    assert(le_word(b.skip(5)) == b[5] + 256 * le_word(b.skip(6)));
    assert(b.skip(4).skip(1) =~= b.skip(5));
    assert(le_word(b.skip(4)) == b[4] + 256 * le_word(b.skip(5)));
    assert(b.skip(3).skip(1) =~= b.skip(4));
    assert(le_word(b.skip(3)) == b[3] + 256 * le_word(b.skip(4)));
    assert(b.skip(2).skip(1) =~= b.skip(3));
    assert(le_word(b.skip(2)) == b[2] + 256 * le_word(b.skip(3)));
    assert(b.skip(1).skip(1) =~= b.skip(2));
    assert(le_word(b.skip(1)) == b[1] + 256 * le_word(b.skip(2)));
    assert(b.skip(0).skip(1) =~= b.skip(1));
    assert(le_word(b.skip(0)) == b[0] + 256 * le_word(b.skip(1)));
}

/// Every full block can be read back from the states before and after it, and the first state is the
/// seed in both words.
#[verifier::spinoff_prover]
#[verifier::rlimit(60)]
pub proof fn lemma_blocks_read_back(data: Seq<u8>, seed: u64, n: nat)
    requires
        16 * n + 16 <= data.len(),
    ensures
        absorbed(data, seed, 0) == (seed, seed),
        block_between(absorbed(data, seed, n), absorbed(data, seed, n + 1)).0 == le_word(
            data.subrange(16 * n as int, 16 * n as int + 8),
        ),
        block_between(absorbed(data, seed, n), absorbed(data, seed, n + 1)).1 == le_word(
            data.subrange(16 * n as int + 8, 16 * n as int + 16),
        ),
{
    let first = data.subrange(16 * n as int, 16 * n as int + 8);
    let second = data.subrange(16 * n as int + 8, 16 * n as int + 16);
    lemma_short_word_fits(first);
    lemma_short_word_fits(second);
    lemma_block_is_undone(
        absorbed(data, seed, n),
        le_word(first) as u64,
        le_word(second) as u64,
    );
}

/// The bytes that fill no block can be read back from the hash, the length and the state after the
/// full blocks: the first eight of them, and the rest.
#[verifier::spinoff_prover]
#[verifier::rlimit(60)]
pub proof fn lemma_hash_reads_back(data: Seq<u8>, seed: u64, n: nat)
    requires
        16 * n <= data.len() < 16 * n + 16,
        data.len() <= u64::MAX,
    ensures
        ({
            let end = unfinished(murmur3(data, seed), data.len() as u64);
            let h = absorbed(data, seed, n);
            let full = 16 * n as int;
            &&& data.len() <= full + 8 ==> unscrambled_low(end.0 ^ h.0) == le_word(data.skip(full))
                && end.1 == h.1
            &&& data.len() > full + 8 ==> unscrambled_low(end.0 ^ h.0) == le_word(
                data.subrange(full, full + 8),
            ) && unscrambled_high(end.1 ^ h.1) == le_word(data.skip(full + 8))
        }),
{
    assert(data.len() / 16 == n);
    let full = 16 * n as int;
    let tail = data.skip(full);
    let h = absorbed(data, seed, n);
    let (x, y) = h;
    lemma_finish_is_undone(tail_absorbed(h, tail), data.len() as u64);
    if tail.len() <= 8 {
        let k = le_word(tail) as u64;
        let s = scrambled_low(k);
        lemma_short_word_fits(tail);
        lemma_scrambling_is_undone(k);
        assert((x ^ s) ^ x == s) by (bit_vector);
    } else {
        let first = tail.take(8);
        let rest = tail.skip(8);
        assert(first =~= data.subrange(full, full + 8));
        assert(rest =~= data.skip(full + 8));
        let s = scrambled_low(le_word(first) as u64);
        let t = scrambled_high(le_word(rest) as u64);
        lemma_short_word_fits(first);
        lemma_short_word_fits(rest);
        lemma_scrambling_is_undone(le_word(first) as u64);
        lemma_scrambling_is_undone(le_word(rest) as u64);
        assert((x ^ s) ^ x == s) by (bit_vector);
        assert((y ^ t) ^ y == t) by (bit_vector);
    }
}

} // verus!
