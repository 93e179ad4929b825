//! A small non-cryptographic generator for picking upstream instances.
//!
//! The stream is SplitMix64 (a Weyl sequence fed through a finalizer), and bounded draws use
//! Lemire's multiply-shift method with rejection. Each worker owns one [`SplitMix64`]; there is no
//! shared state and no locking.
use vstd::prelude::*;

use crate::clock::now_nanos;

verus! {

/// SplitMix64's golden-ratio increment, the additive step of the Weyl sequence.
pub const GOLDEN_GAMMA: u64 = 0x9E37_79B9_7F4A_7C15;

/// The first multiplier of the finalizer.
pub const MIX_MUL_1: u64 = 0xBF58_476D_1CE4_E5B9;

/// The second multiplier of the finalizer.
pub const MIX_MUL_2: u64 = 0x94D0_49BB_1331_11EB;

/// The number of 64-bit words.
pub open spec fn two64() -> int {
    0x1_0000_0000_0000_0000
}

/// SplitMix64's finalizer.
pub open spec fn mixed(z: u64) -> u64 {
    let a = (z ^ (z >> 30)).wrapping_mul(MIX_MUL_1);
    let b = (a ^ (a >> 27)).wrapping_mul(MIX_MUL_2);
    b ^ (b >> 31)
}

/// The seed of the worker numbered `counter` that starts at wall-clock nanosecond `nanos`.
pub open spec fn seeded(nanos: u64, counter: u64) -> u64 {
    mixed(nanos ^ counter.wrapping_mul(GOLDEN_GAMMA))
}

/// The state of the Weyl sequence `k` steps after `state`.
pub open spec fn weyl(state: u64, k: nat) -> u64 {
    ((state + k * GOLDEN_GAMMA) % two64()) as u64
}

/// The `k`-th draw (counting from one) of a stream whose state is `state`.
pub open spec fn draw(state: u64, k: nat) -> u64 {
    mixed(weyl(state, k))
}

/// Whether the 64-bit draw `d` may be mapped into `[0, n)`: the low word of `d * n` lies outside
/// the biased remainder `2^64 mod n`.
pub open spec fn accepted(d: u64, n: u32) -> bool {
    (d * n) % two64() >= two64() % (n as int)
}

/// The value of `[0, n)` that an accepted draw `d` stands for: the high word of `d * n`.
pub open spec fn picked(d: u64, n: u32) -> int {
    (d * n) / two64()
}

/// The smallest word that a bounded draw below `n` maps to `r`: the least `d` with
/// `d * n >= r * 2^64 + 2^64 mod n`.
pub open spec fn first_word(n: u32, r: u32) -> int {
    (r * two64() + two64() % (n as int) + n - 1) / (n as int)
}

/// Whether the `k`-th draw is the first one that a bounded draw below `n` accepts.
pub open spec fn first_accepted(state: u64, n: u32, k: nat) -> bool {
    &&& 1 <= k
    &&& accepted(draw(state, k), n)
    &&& forall|i: nat| 1 <= i < k ==> !accepted(#[trigger] draw(state, i), n)
}

/// Whether a bounded draw below `n` from a stream in state `state` gives `r` and leaves the stream
/// in state `end`: `r` stands for the first accepted draw, and `end` is the state of that draw.
pub open spec fn bounded_draw(state: u64, n: u32, end: u64, r: u32) -> bool {
    exists|k: nat|
        {
            &&& #[trigger] first_accepted(state, n, k)
            &&& end == weyl(state, k)
            &&& r == picked(draw(state, k), n)
        }
}

/// Maps a draw `j` below `n - 1` onto the values below `n` other than `i`.
pub open spec fn skipping(i: int, j: int) -> int {
    if j >= i {
        j + 1
    } else {
        j
    }
}

/// SplitMix64's finalizer.
pub fn mix(z: u64) -> (r: u64)
    ensures
        r == mixed(z),
{
    let a: u64 = (z ^ (z >> 30)).wrapping_mul(MIX_MUL_1);
    let b: u64 = (a ^ (a >> 27)).wrapping_mul(MIX_MUL_2);
    b ^ (b >> 31)
}

/// Builds a worker's seed from the wall clock and the worker's number, run through the finalizer
/// so that neighbouring numbers give unrelated streams.
pub fn seed(nanos: u64, counter: u64) -> (r: u64)
    ensures
        r == seeded(nanos, counter),
{
    mix(nanos ^ counter.wrapping_mul(GOLDEN_GAMMA))
}

/// The numbers that workers are given, one after the other.
#[derive(Debug)]
pub struct SeedCounter {
    /// The number of the next worker.
    pub next: u64,
}

impl SeedCounter {
    /// The counter before any worker.
    pub fn new() -> (r: Self)
        ensures
            r.next == 0,
    {
        SeedCounter { next: 0 }
    }

    /// The seed of the next worker, where it starts at wall-clock nanosecond `nanos`. The worker
    /// takes its number, so the one after it gets another.
    pub fn seed_at(&mut self, nanos: u64) -> (r: u64)
        ensures
            r == seeded(nanos, old(self).next),
            final(self).next == old(self).next.wrapping_add(1),
    {
        let counter: u64 = self.next;
        self.next = counter.wrapping_add(1);
        seed(nanos, counter)
    }
}

/// One worker's stream of draws.
#[derive(Debug, Clone, Copy, PartialEq, Eq)]
pub struct SplitMix64 {
    /// The current state of the Weyl sequence.
    pub state: u64,
}

impl SplitMix64 {
    /// The stream that starts from `state`.
    pub fn new(state: u64) -> (r: Self)
        ensures
            r.state == state,
    {
        SplitMix64 { state }
    }

    /// The stream of the next worker, seeded from the wall clock. The state is the seed for the
    /// nanosecond that the clock showed.
    pub fn for_worker(counter: &mut SeedCounter) -> (r: Self)
        ensures
            final(counter).next == old(counter).next.wrapping_add(1),
            exists|elapsed: Option<(u64, u32)>| #[trigger]
                crate::clock::is_time(elapsed) && r.state == seeded(
                    crate::clock::nanos_of(elapsed),
                    old(counter).next,
                ),
    {
        let nanos: u64 = now_nanos();
        SplitMix64 { state: counter.seed_at(nanos) }
    }

    /// One 64-bit draw: advance the state by the golden gamma and return its finalized mix.
    pub fn next_u64(&mut self) -> (r: u64)
        ensures
            final(self).state == weyl(old(self).state, 1),
            r == draw(old(self).state, 1),
    {
        self.state = self.state.wrapping_add(GOLDEN_GAMMA);
        mix(self.state)
    }

    /// A uniform integer in `[0, n)` without modulo bias. The multiply-shift maps a draw into
    /// `[0, n)`; draws whose low word falls into the biased remainder are rejected.
    ///
    /// The result is that of the first accepted draw, and the state ends right after it.
    pub fn below(&mut self, n: u32) -> (r: u32)
        requires
            n > 0,
        ensures
            r < n,
            bounded_draw(old(self).state, n, final(self).state, r),
    {
        let ghost start = self.state;
        let ghost mut k: nat = 1;
        let wide: u64 = n as u64;
        let mut d: u64 = self.next_u64();
        proof {
            lemma_product_fits(d, n);
        }
        let mut m: u128 = (d as u128) * (wide as u128);
        proof {
            lemma_words(m);
        }
        let mut low: u64 = m as u64;
        if low < wide {
            let threshold: u64 = 0u64.wrapping_sub(wide) % wide;
            proof {
                lemma_threshold(n);
            }
            while low < threshold
                invariant
                    n > 0,
                    wide == n,
                    threshold == two64() % (n as int),
                    1 <= k,
                    self.state == weyl(start, k),
                    d == draw(start, k),
                    d == mixed(self.state),
                    m == d * n,
                    low == (d * n) % two64(),
                    forall|i: nat| 1 <= i < k ==> !accepted(#[trigger] draw(start, i), n),
                decreases distance(self.state),
            {
                let ghost before = self.state;
                proof {
                    lemma_home_accepted(n);
                    lemma_step_closer(before);
                    lemma_weyl_next(start, k);
                }
                d = self.next_u64();
                proof {
                    lemma_product_fits(d, n);
                }
                m = (d as u128) * (wide as u128);
                proof {
                    lemma_words(m);
                    k = k + 1;
                }
                low = m as u64;
            }
        } else {
            proof {
                lemma_threshold(n);
            }
        }
        proof {
            lemma_words(m);
            lemma_picked_below(d, n);
            assert(first_accepted(start, n, k));
        }
        (m >> 64) as u32
    }

    /// Two distinct uniform indices in `[0, n)`. The second is drawn below `n - 1` and moved past
    /// the first, so no draw is thrown away for being equal.
    pub fn two_distinct_below(&mut self, n: u32) -> (r: (u32, u32))
        requires
            n >= 2,
        ensures
            r.0 < n,
            r.1 < n,
            r.0 != r.1,
            exists|mid: u64, j: u32|
                {
                    &&& #[trigger] bounded_draw(old(self).state, n, mid, r.0)
                    &&& #[trigger] bounded_draw(mid, (n - 1) as u32, final(self).state, j)
                    &&& r.1 == skipping(r.0 as int, j as int)
                },
    {
        let ghost start = self.state;
        let i: u32 = self.below(n);
        let ghost mid = self.state;
        let second: u32 = self.below(n - 1);
        assert(bounded_draw(start, n, mid, i));
        assert(bounded_draw(mid, (n - 1) as u32, self.state, second));
        let j: u32 = if second >= i {
            second + 1
        } else {
            second
        };
        assert(j == skipping(i as int, second as int));
        assert(exists|m: u64, s: u32|
            {
                &&& #[trigger] bounded_draw(start, n, m, i)
                &&& #[trigger] bounded_draw(m, (n - 1) as u32, self.state, s)
                &&& j == skipping(i as int, s as int)
            });
        (i, j)
    }
}

/// The state whose finalized mix is the largest word; that draw is accepted for every bound.
spec fn home() -> u64 {
    0xcf9a_04af_fa6b_adc0
}

/// The inverse of the golden gamma modulo `2^64`.
spec fn gamma_inverse() -> int {
    0xf1de_83e1_9937_733d
}

/// The number of Weyl steps from `state` to [`home`].
spec fn distance(state: u64) -> int {
    ((home() - state) * gamma_inverse()) % two64()
}

proof fn lemma_product_fits(d: u64, n: u32)
    ensures
        0 <= d * n <= u128::MAX,
        (d as u128) * ((n as u64) as u128) == d * n,
{
    assert(0 <= d * n <= 0xffff_ffff_ffff_ffff * 0xffff_ffff) by (nonlinear_arith)
        requires
            0 <= d <= 0xffff_ffff_ffff_ffff,
            0 <= n <= 0xffff_ffff,
    ;
}

proof fn lemma_words(m: u128)
    ensures
        (m as u64) == m % (0x1_0000_0000_0000_0000u128),
        (m >> 64) == m / (0x1_0000_0000_0000_0000u128),
{
    assert((m as u64) == m % (0x1_0000_0000_0000_0000u128)) by (bit_vector);
    assert((m >> 64) == m / (0x1_0000_0000_0000_0000u128)) by (bit_vector);
}

proof fn lemma_threshold(n: u32)
    requires
        n > 0,
    ensures
        0u64.wrapping_sub(n as u64) == two64() - n,
        (two64() - n) % (n as int) == two64() % (n as int),
        0 <= two64() % (n as int) < n,
{
    vstd::arithmetic::div_mod::lemma_mod_sub_multiples_vanish(two64(), n as int);
    vstd::arithmetic::div_mod::lemma_mod_bound(two64(), n as int);
}

proof fn lemma_picked_below(d: u64, n: u32)
    requires
        n > 0,
    ensures
        0 <= picked(d, n) < n,
{
    assert(0 <= d * n < n * two64()) by (nonlinear_arith)
        requires
            0 <= d < 0x1_0000_0000_0000_0000,
            n > 0,
            two64() == 0x1_0000_0000_0000_0000,
    ;
}

proof fn lemma_weyl_next(state: u64, k: nat)
    ensures
        weyl(weyl(state, k), 1) == weyl(state, k + 1),
{
    let x = state + k * GOLDEN_GAMMA;
    assert(state + (k + 1) * GOLDEN_GAMMA == x + GOLDEN_GAMMA);
    vstd::arithmetic::div_mod::lemma_add_mod_noop_right(GOLDEN_GAMMA as int, x, two64());
}

/// The draw made at [`home`] is accepted for every bound.
proof fn lemma_home_accepted(n: u32)
    requires
        n > 0,
    ensures
        mixed(home()) == u64::MAX,
        accepted(mixed(home()), n),
{
    let z = home();
    assert(0xcf9a_04af_fa6b_adc0u64 ^ (0xcf9a_04af_fa6b_adc0u64 >> 30) == 0xcf9a_04ac_c403_bf7fu64)
        by (bit_vector);
    assert(0xf027_aa8c_721d_fdc7u64 ^ (0xf027_aa8c_721d_fdc7u64 >> 27) == 0xf027_aa92_76e8_ac49u64)
        by (bit_vector);
    assert(0xffff_fffe_0000_0003u64 ^ (0xffff_fffe_0000_0003u64 >> 31) == 0xffff_ffff_ffff_ffffu64)
        by (bit_vector);
    assert(0xcf9a_04ac_c403_bf7fu64.wrapping_mul(MIX_MUL_1) == 0xf027_aa8c_721d_fdc7u64);
    assert(0xf027_aa92_76e8_ac49u64.wrapping_mul(MIX_MUL_2) == 0xffff_fffe_0000_0003u64);
    lemma_threshold(n);
    assert((u64::MAX * n) % two64() == two64() - n) by {
        assert(u64::MAX * n == two64() * (n - 1) + (two64() - n));
    }
}

/// Away from [`home`], one step brings the state one step closer to it.
proof fn lemma_step_closer(state: u64)
    requires
        state != home(),
    ensures
        0 <= distance(weyl(state, 1)) < distance(state),
{
    let w = two64();
    let x = (home() - state) * gamma_inverse();
    let next = weyl(state, 1);
    let y = (home() - next) * gamma_inverse();
    let e: int = if state + GOLDEN_GAMMA >= w {
        1
    } else {
        0
    };
    assert(next == state + GOLDEN_GAMMA - e * w);
    // The product of the golden gamma and its inverse is one more than a multiple of 2^64.
    let q: int = 10771413168148108919;
    assert(GOLDEN_GAMMA * gamma_inverse() == q * w + 1);
    let c = e * gamma_inverse() - q;
    assert(y == w * c + (x - 1));
    vstd::arithmetic::div_mod::lemma_mod_multiples_vanish(c, x - 1, w);
    vstd::arithmetic::div_mod::lemma_fundamental_div_mod(x, w);
    vstd::arithmetic::div_mod::lemma_mod_bound(x, w);
    if x % w == 0 {
        let t = x / w;
        assert(x * GOLDEN_GAMMA == (home() - state) * (q * w + 1));
        assert(home() - state == w * (t * GOLDEN_GAMMA - q * (home() - state)));
        assert(false);
    }
    vstd::arithmetic::div_mod::lemma_fundamental_div_mod_converse(x - 1, w, x / w, x % w - 1);
}

/// Bounded draws carry no modulo bias: the words that a bounded draw accepts and maps to `r` are
/// one run of exactly `2^64 / n` consecutive words, the same number for every `r` below `n`.
pub proof fn lemma_below_is_unbiased(n: u32, r: u32)
    requires
        r < n,
    ensures
        0 <= first_word(n, r),
        first_word(n, r) + two64() / (n as int) <= two64(),
        forall|d: u64|
            (#[trigger] accepted(d, n) && picked(d, n) == r) <==> (first_word(n, r) <= d
                < first_word(n, r) + two64() / (n as int)),
{
    let w = two64();
    let nn = n as int;
    let t = w % nn;
    let q = w / nn;
    vstd::arithmetic::div_mod::lemma_fundamental_div_mod(w, nn);
    vstd::arithmetic::div_mod::lemma_mod_bound(w, nn);
    assert(q >= 0) by {
        vstd::arithmetic::div_mod::lemma_div_pos_is_pos(w, nn);
    }
    let x = r * w + t;
    let first = (x + nn - 1) / nn;
    vstd::arithmetic::div_mod::lemma_fundamental_div_mod(x + nn - 1, nn);
    vstd::arithmetic::div_mod::lemma_mod_bound(x + nn - 1, nn);
    assert(x <= first * nn < x + nn) by (nonlinear_arith)
        requires
            x + nn - 1 == nn * first + (x + nn - 1) % nn,
            0 <= (x + nn - 1) % nn < nn,
    ;
    assert(0 <= first) by (nonlinear_arith)
        requires
            x <= first * nn,
            x >= 0,
            nn > 0,
    ;
    assert(x + q * nn == (r + 1) * w) by (nonlinear_arith)
        requires
            x == r * w + t,
            w == nn * q + t,
    ;
    assert((r + 1) * w <= nn * w) by (nonlinear_arith)
        requires
            r + 1 <= nn,
            w >= 0,
    ;
    assert(first + q <= w) by (nonlinear_arith)
        requires
            first * nn < x + nn,
            x + q * nn <= nn * w,
            nn > 0,
    ;
    assert forall|d: u64|
        (#[trigger] accepted(d, n) && picked(d, n) == r) <==> (first <= d < first + q) by {
        let p = d * n;
        vstd::arithmetic::div_mod::lemma_fundamental_div_mod(p, w);
        if accepted(d, n) && picked(d, n) == r {
            assert(x <= p < x + q * nn);
            assert(first <= d) by (nonlinear_arith)
                requires
                    x <= d * nn,
                    first * nn < x + nn,
                    nn > 0,
            ;
            assert(d < first + q) by (nonlinear_arith)
                requires
                    d * nn < x + q * nn,
                    x <= first * nn,
                    nn > 0,
            ;
        }
        if first <= d < first + q {
            assert(x <= d * nn) by (nonlinear_arith)
                requires
                    first <= d,
                    x <= first * nn,
                    nn > 0,
            ;
            assert(d * nn < x + q * nn) by (nonlinear_arith)
                requires
                    d <= first + q - 1,
                    first * nn < x + nn,
                    nn > 0,
            ;
            assert(p == r * w + (p - r * w));
            vstd::arithmetic::div_mod::lemma_fundamental_div_mod_converse(p, w, r as int, p - r * w);
        }
    }
}

/// A pair of distinct indices loses no uniformity to the second draw being moved past the first:
/// for a first index `i`, every other index below `n` stands for exactly one second draw.
pub proof fn lemma_pairs_are_unbiased(n: u32, i: u32, b: u32)
    requires
        i < n,
        b < n,
        b != i,
    ensures
        exists|j: int| 0 <= j < n - 1 && #[trigger] skipping(i as int, j) == b,
        forall|j: int, k: int|
            #[trigger] skipping(i as int, j) == b && #[trigger] skipping(i as int, k) == b ==> j
                == k,
{
    let j = if b > i {
        b - 1
    } else {
        b as int
    };
    assert(skipping(i as int, j) == b);
}

/// A bounded draw depends on the state and the bound alone.
pub proof fn lemma_bounded_draw_is_determined(
    state: u64,
    n: u32,
    end1: u64,
    r1: u32,
    end2: u64,
    r2: u32,
)
    requires
        bounded_draw(state, n, end1, r1),
        bounded_draw(state, n, end2, r2),
    ensures
        end1 == end2,
        r1 == r2,
{
    let k1 = choose|k: nat|
        #[trigger] first_accepted(state, n, k) && end1 == weyl(state, k) && r1 == picked(
            draw(state, k),
            n,
        );
    let k2 = choose|k: nat|
        #[trigger] first_accepted(state, n, k) && end2 == weyl(state, k) && r2 == picked(
            draw(state, k),
            n,
        );
    if k1 < k2 {
        assert(!accepted(draw(state, k1), n));
    }
    if k2 < k1 {
        assert(!accepted(draw(state, k2), n));
    }
}

/// The finalizer gives distinct words distinct images.
pub proof fn lemma_mix_is_injective(x: u64, y: u64)
    requires
        mixed(x) == mixed(y),
    ensures
        x == y,
{
    let ax = (x ^ (x >> 30)).wrapping_mul(MIX_MUL_1);
    let ay = (y ^ (y >> 30)).wrapping_mul(MIX_MUL_1);
    let bx = (ax ^ (ax >> 27)).wrapping_mul(MIX_MUL_2);
    let by_ = (ay ^ (ay >> 27)).wrapping_mul(MIX_MUL_2);
    assert((bx ^ (bx >> 31)) == (by_ ^ (by_ >> 31)) ==> bx == by_) by (bit_vector);
    lemma_odd_multiplication_is_injective(
        ax ^ (ax >> 27),
        ay ^ (ay >> 27),
        MIX_MUL_2,
        0x3196_42b2_d24d_8ec3,
    );
    assert((ax ^ (ax >> 27)) == (ay ^ (ay >> 27)) ==> ax == ay) by (bit_vector);
    lemma_odd_multiplication_is_injective(
        x ^ (x >> 30),
        y ^ (y >> 30),
        MIX_MUL_1,
        0x96de_1b17_3f11_9089,
    );
    assert((x ^ (x >> 30)) == (y ^ (y >> 30)) ==> x == y) by (bit_vector);
}

/// Two workers that start in the same nanosecond under different numbers get different seeds.
#[verifier::spinoff_prover]
#[verifier::rlimit(40)]
pub proof fn lemma_seeds_differ(nanos: u64, counter1: u64, counter2: u64)
    requires
        counter1 != counter2,
    ensures
        seeded(nanos, counter1) != seeded(nanos, counter2),
{
    let a = counter1.wrapping_mul(GOLDEN_GAMMA);
    let b = counter2.wrapping_mul(GOLDEN_GAMMA);
    if seeded(nanos, counter1) == seeded(nanos, counter2) {
        lemma_mix_is_injective(nanos ^ a, nanos ^ b);
        assert((nanos ^ a) == (nanos ^ b) ==> a == b) by (bit_vector);
        lemma_odd_multiplication_is_injective(
            counter1,
            counter2,
            GOLDEN_GAMMA,
            gamma_inverse(),
        );
    }
}

/// Workers that are numbered by one counter and start in the same nanosecond get different seeds,
/// however many come between them, until the counter has gone round.
pub proof fn lemma_workers_differ(nanos: u64, first: u64, steps: nat)
    requires
        0 < steps < two64(),
    ensures
        seeded(nanos, first) != seeded(nanos, ((first + steps) % two64()) as u64),
{
    if first + steps >= two64() {
        vstd::arithmetic::div_mod::lemma_mod_sub_multiples_vanish(first + steps, two64());
    }
    lemma_seeds_differ(nanos, first, ((first + steps) % two64()) as u64);
}

/// A stream repeats after `2^64` draws and not before: until then no state and no word comes
/// twice.
pub proof fn lemma_stream_has_full_period(state: u64, i: nat, j: nat)
    requires
        i < j < i + two64(),
    ensures
        weyl(state, i) != weyl(state, j),
        draw(state, i) != draw(state, j),
        weyl(state, (i + two64()) as nat) == weyl(state, i),
        draw(state, (i + two64()) as nat) == draw(state, i),
{
    let w = two64();
    let g = GOLDEN_GAMMA as int;
    let x = state + i * g;
    let y = state + j * g;
    if weyl(state, i) == weyl(state, j) {
        let steps = (j - i) as u64;
        assert(y - x == steps * g) by (nonlinear_arith)
            requires
                x == state + i * g,
                y == state + j * g,
                steps == j - i,
        ;
        vstd::arithmetic::div_mod::lemma_sub_mod_noop(y, x, w);
        assert(steps.wrapping_mul(GOLDEN_GAMMA) == 0u64.wrapping_mul(GOLDEN_GAMMA));
        lemma_odd_multiplication_is_injective(steps, 0, GOLDEN_GAMMA, gamma_inverse());
    }
    if draw(state, i) == draw(state, j) {
        lemma_mix_is_injective(weyl(state, i), weyl(state, j));
    }
    assert(state + (i + w) * g == w * g + x) by (nonlinear_arith)
        requires
            x == state + i * g,
    ;
    vstd::arithmetic::div_mod::lemma_mod_multiples_vanish(g, x, w);
}

/// Multiplication by a word that has an inverse modulo `2^64` is injective.
pub(crate) proof fn lemma_odd_multiplication_is_injective(x: u64, y: u64, c: u64, inverse: int)
    requires
        x.wrapping_mul(c) == y.wrapping_mul(c),
        (c * inverse) % two64() == 1,
    ensures
        x == y,
{
    let w = two64();
    assert((x * c) % w == (y * c) % w);
    vstd::arithmetic::div_mod::lemma_mul_mod_noop_left(x * c, inverse, w);
    vstd::arithmetic::div_mod::lemma_mul_mod_noop_left(y * c, inverse, w);
    assert((x * c) * inverse == x * (c * inverse)) by (nonlinear_arith);
    assert((y * c) * inverse == y * (c * inverse)) by (nonlinear_arith);
    vstd::arithmetic::div_mod::lemma_mul_mod_noop_right(x as int, c * inverse, w);
    vstd::arithmetic::div_mod::lemma_mul_mod_noop_right(y as int, c * inverse, w);
}

/// The generator steps by the golden gamma, and the first draw of a stream is the mix of its state
/// after one step.
pub proof fn lemma_draws_step_by_step(state: u64, k: nat)
    ensures
        weyl(state, 0) == state,
        weyl(state, k + 1) == weyl(state, k).wrapping_add(0x9E37_79B9_7F4A_7C15),
        draw(state, k) == mixed(weyl(state, k)),
{
    lemma_weyl_next(state, k);
}

/// A bounded draw takes the next word of the stream where the low half of its product with the bound
/// is not less than the remainder of `2^64` by the bound, and the result is then the high half.
/// Otherwise the draw goes on as one from the next state.
pub proof fn lemma_bounded_draw_takes_the_next_word(state: u64, n: u32, end: u64, r: u32)
    requires
        n > 0,
        bounded_draw(state, n, end, r),
    ensures
        ({
            let next = state.wrapping_add(0x9E37_79B9_7F4A_7C15);
            let product = mixed(next) * n;
            if product % 0x1_0000_0000_0000_0000 >= 0x1_0000_0000_0000_0000int % (n as int) {
                end == next && r == product / 0x1_0000_0000_0000_0000
            } else {
                bounded_draw(next, n, end, r)
            }
        }),
{
    let next = state.wrapping_add(GOLDEN_GAMMA);
    lemma_draws_step_by_step(state, 0);
    assert(weyl(state, 1) == next);
    let k = choose|k: nat|
        #[trigger] first_accepted(state, n, k) && end == weyl(state, k) && r == picked(
            draw(state, k),
            n,
        );
    if accepted(draw(state, 1), n) {
        if k > 1 {
            assert(!accepted(draw(state, 1), n));
        }
    } else {
        assert(k > 1);
        let rest = (k - 1) as nat;
        assert forall|i: nat| weyl(next, i) == #[trigger] weyl(state, i + 1) by {
            lemma_weyl_shift(state, i);
        }
        lemma_weyl_shift(state, rest);
        assert forall|i: nat| 1 <= i < rest implies !accepted(#[trigger] draw(next, i), n) by {
            lemma_weyl_shift(state, i);
            assert(!accepted(draw(state, i + 1), n));
        }
        assert(first_accepted(next, n, rest));
    }
}

proof fn lemma_weyl_shift(state: u64, i: nat)
    ensures
        weyl(weyl(state, 1), i) == weyl(state, i + 1),
    decreases i,
{
    if i == 0 {
        lemma_draws_step_by_step(weyl(state, 1), 0);
    } else {
        lemma_weyl_shift(state, (i - 1) as nat);
        lemma_weyl_next(weyl(state, 1), (i - 1) as nat);
        lemma_weyl_next(state, i);
    }
}

/// Multiplication by a word is undone by multiplication with its inverse modulo `2^64`.
pub(crate) proof fn lemma_odd_multiplication_is_undone(x: u64, c: u64, inverse: u64)
    requires
        (c * inverse) % two64() == 1,
    ensures
        x.wrapping_mul(c).wrapping_mul(inverse) == x,
{
    let w = two64();
    let y = x.wrapping_mul(c);
    assert(y == (x * c) % w);
    vstd::arithmetic::div_mod::lemma_mul_mod_noop_left(x * c, inverse as int, w);
    assert((x * c) * inverse == x * (c * inverse)) by (nonlinear_arith);
    vstd::arithmetic::div_mod::lemma_mul_mod_noop_right(x as int, c * inverse, w);
    assert((y * inverse) % w == x);
}

/// The word that the finalizer takes to `z`.
pub open spec fn unmixed(z: u64) -> u64 {
    let b = (z ^ (z >> 31) ^ (z >> 62)).wrapping_mul(0x3196_42b2_d24d_8ec3);
    let a = (b ^ (b >> 27) ^ (b >> 54)).wrapping_mul(0x96de_1b17_3f11_9089);
    a ^ (a >> 30) ^ (a >> 60)
}

/// The finalizer can be undone, by the inverse of each of its steps in turn.
#[verifier::spinoff_prover]
#[verifier::rlimit(40)]
pub proof fn lemma_mix_is_undone(z: u64)
    ensures
        unmixed(mixed(z)) == z,
{
    let p = z ^ (z >> 30);
    let a = p.wrapping_mul(MIX_MUL_1);
    let q = a ^ (a >> 27);
    let b = q.wrapping_mul(MIX_MUL_2);
    let m = b ^ (b >> 31);
    assert((b ^ (b >> 31)) ^ ((b ^ (b >> 31)) >> 31) ^ ((b ^ (b >> 31)) >> 62) == b)
        by (bit_vector);
    lemma_odd_multiplication_is_undone(q, MIX_MUL_2, 0x3196_42b2_d24d_8ec3);
    assert((a ^ (a >> 27)) ^ ((a ^ (a >> 27)) >> 27) ^ ((a ^ (a >> 27)) >> 54) == a)
        by (bit_vector);
    lemma_odd_multiplication_is_undone(p, MIX_MUL_1, 0x96de_1b17_3f11_9089);
    assert((z ^ (z >> 30)) ^ ((z ^ (z >> 30)) >> 30) ^ ((z ^ (z >> 30)) >> 60) == z)
        by (bit_vector);
}

/// A seed can be read back: undoing the finalizer gives the time, with the number of the worker
/// times the golden gamma mixed in by an exclusive or.
pub proof fn lemma_seed_reads_back(nanos: u64, counter: u64)
    ensures
        unmixed(seeded(nanos, counter)) ^ counter.wrapping_mul(0x9E37_79B9_7F4A_7C15) == nanos,
{
    let c = counter.wrapping_mul(GOLDEN_GAMMA);
    lemma_mix_is_undone(nanos ^ c);
    assert((nanos ^ c) ^ c == nanos) by (bit_vector);
}

/// A draw can be read back: undoing the finalizer gives the state, which is as many golden gammas
/// past the start as there were draws.
pub proof fn lemma_draw_reads_back(state: u64, k: nat)
    ensures
        unmixed(draw(state, k)) == (state + k * 0x9E37_79B9_7F4A_7C15) % 0x1_0000_0000_0000_0000,
{
    lemma_mix_is_undone(weyl(state, k));
}

/// The second of two distinct indices is the second draw itself where that is below the first index,
/// and the next number where it is not.
pub proof fn lemma_second_index_steps_over_the_first(i: u32, j: u32)
    ensures
        j < i ==> skipping(i as int, j as int) == j,
        j >= i ==> skipping(i as int, j as int) == j + 1,
{
}

} // verus!
