//! Token-bucket arithmetic. A bucket's state is a pair: the tokens it holds, and the instant up to
//! which refills have been credited.
use vstd::prelude::*;

verus! {

/// The parameters of a token bucket.
#[derive(Debug, Clone, Copy, PartialEq, Eq, Structural)]
pub struct Bucket {
    /// The most tokens it holds.
    pub capacity: u64,
    /// The tokens that each refill adds.
    pub refill_tokens: u64,
    /// The time between two refills.
    pub refill_interval_ms: u64,
}

/// The outcome of asking a bucket for tokens.
#[derive(Debug, Clone, Copy, PartialEq, Eq, Structural)]
pub struct Acquire {
    /// Whether the tokens were there, and were taken.
    pub allowed: bool,
    /// Where they were not: an upper bound on the time until they will be. The largest value where
    /// they never will.
    pub retry_after_ms: u64,
}

/// The refills that fall due between the credited instant and `now`. A clock that went backwards
/// makes none fall due.
pub open spec fn refills_due(stamp: u64, now_ms: u64, interval: u64) -> int {
    if now_ms > stamp {
        (now_ms - stamp) / (interval as int)
    } else {
        0
    }
}

/// A bucket with the refills credited that are due at `now_ms`.
pub open spec fn refilled(cell: (u64, u64), spec: Bucket, now_ms: u64) -> (u64, u64) {
    let due = refills_due(cell.1, now_ms, spec.refill_interval_ms);
    let tokens = cell.0 + due * spec.refill_tokens;
    (
        if tokens > spec.capacity {
            spec.capacity
        } else {
            tokens as u64
        },
        (cell.1 + due * spec.refill_interval_ms) as u64,
    )
}

/// The least number of refills that add up to `deficit` tokens.
pub open spec fn refills_for(deficit: int, refill_tokens: u64) -> int {
    (deficit + refill_tokens - 1) / (refill_tokens as int)
}

/// How far the clock is behind the credited instant.
pub open spec fn lag(stamp: u64, now_ms: u64) -> int {
    if stamp > now_ms {
        stamp - now_ms
    } else {
        0
    }
}

/// The time until a bucket will hold `cost` tokens: whole refill intervals, after what a clock that
/// went backwards has to catch up with. It is capped at the largest value, which also stands for
/// never.
pub open spec fn wait_for(state: (u64, u64), cost: u64, spec: Bucket, now_ms: u64) -> u64 {
    if cost > spec.capacity || spec.refill_tokens == 0 {
        u64::MAX
    } else {
        let wait = refills_for(cost - state.0, spec.refill_tokens) * spec.refill_interval_ms + lag(
            state.1,
            now_ms,
        );
        if wait > u64::MAX {
            u64::MAX
        } else {
            wait as u64
        }
    }
}

/// The state of a bucket that is seen for the first time: full.
pub open spec fn first_sight(spec: Bucket, now_ms: u64) -> (u64, u64) {
    (spec.capacity, now_ms)
}

/// What asking a bucket for `cost` tokens does to it, and the outcome.
pub open spec fn applied(
    cell: (u64, u64),
    cost: u64,
    spec: Bucket,
    now_ms: u64,
) -> ((u64, u64), Acquire) {
    let (tokens, stamp) = refilled(cell, spec, now_ms);
    if tokens >= cost {
        (((tokens - cost) as u64, stamp), Acquire { allowed: true, retry_after_ms: 0 })
    } else {
        (
            (tokens, stamp),
            Acquire { allowed: false, retry_after_ms: wait_for((tokens, stamp), cost, spec, now_ms) },
        )
    }
}

/// Asks a bucket for `cost` tokens at `now_ms`. A bucket without a state is full.
pub fn apply_bucket(
    cell: Option<(u64, u64)>,
    cost: u64,
    spec: Bucket,
    now_ms: u64,
) -> (r: ((u64, u64), Acquire))
    requires
        spec.refill_interval_ms > 0,
    ensures
        r == applied(
            match cell {
                Some(state) => state,
                None => first_sight(spec, now_ms),
            },
            cost,
            spec,
            now_ms,
        ),
{
    let (held, credited) = match cell {
        Some(state) => state,
        None => (spec.capacity, now_ms),
    };
    let interval: u64 = spec.refill_interval_ms;
    let due: u64 = now_ms.saturating_sub(credited) / interval;
    proof {
        lemma_due(credited, now_ms, interval);
        lemma_product(due, spec.refill_tokens);
    }
    let grown: u128 = held as u128 + (due as u128) * (spec.refill_tokens as u128);
    let tokens: u64 = if grown > spec.capacity as u128 {
        spec.capacity
    } else {
        grown as u64
    };
    let stamp: u64 = credited + due * interval;
    if tokens >= cost {
        return ((tokens - cost, stamp), Acquire { allowed: true, retry_after_ms: 0 });
    }
    let retry_after_ms: u64 = if cost > spec.capacity || spec.refill_tokens == 0 {
        u64::MAX
    } else {
        let refill: u128 = spec.refill_tokens as u128;
        let refills: u128 = ((cost - tokens) as u128 + refill - 1) / refill;
        proof {
            lemma_refills_bound(cost - tokens, spec.refill_tokens);
            lemma_product(refills as u64, interval);
        }
        let behind: u64 = stamp.saturating_sub(now_ms);
        let wait: u128 = refills * (interval as u128) + behind as u128;
        if wait > u64::MAX as u128 {
            u64::MAX
        } else {
            wait as u64
        }
    };
    ((tokens, stamp), Acquire { allowed: false, retry_after_ms })
}

proof fn lemma_due(stamp: u64, now_ms: u64, interval: u64)
    requires
        interval > 0,
    ensures
        0 <= refills_due(stamp, now_ms, interval) <= u64::MAX,
        refills_due(stamp, now_ms, interval) == now_ms.saturating_sub(stamp) / interval,
        0 <= refills_due(stamp, now_ms, interval) * interval,
        stamp + refills_due(stamp, now_ms, interval) * interval <= if now_ms > stamp {
            now_ms
        } else {
            stamp
        },
{
    if now_ms > stamp {
        let e = now_ms - stamp;
        let i = interval as int;
        vstd::arithmetic::div_mod::lemma_fundamental_div_mod(e, i);
        vstd::arithmetic::div_mod::lemma_mod_bound(e, i);
        vstd::arithmetic::div_mod::lemma_div_pos_is_pos(e, i);
        vstd::arithmetic::div_mod::lemma_div_nonincreasing(e, i);
        assert((e / i) * i == i * (e / i)) by (nonlinear_arith);
        assert(0 <= (e / i) * i) by (nonlinear_arith)
            requires
                e / i >= 0,
                i > 0,
        ;
    } else {
        vstd::arithmetic::div_mod::lemma_div_basics(interval as int);
        assert(0 * interval == 0);
    }
}

proof fn lemma_product(a: u64, b: u64)
    ensures
        0 <= a * b <= 0xffff_ffff_ffff_ffff * 0xffff_ffff_ffff_ffff,
{
    assert(0 <= a * b <= 0xffff_ffff_ffff_ffff * 0xffff_ffff_ffff_ffff) by (nonlinear_arith)
        requires
            0 <= a <= 0xffff_ffff_ffff_ffff,
            0 <= b <= 0xffff_ffff_ffff_ffff,
    ;
}

/// The least number of refills that covers a deficit: it covers it, and is no larger than it.
proof fn lemma_refills_bound(deficit: int, refill_tokens: u64)
    requires
        deficit > 0,
        refill_tokens > 0,
    ensures
        1 <= refills_for(deficit, refill_tokens) <= deficit,
        refills_for(deficit, refill_tokens) * refill_tokens >= deficit,
{
    let t = refill_tokens as int;
    let x = deficit + t - 1;
    let q = x / t;
    vstd::arithmetic::div_mod::lemma_fundamental_div_mod(x, t);
    vstd::arithmetic::div_mod::lemma_mod_bound(x, t);
    assert(q * t >= deficit && 1 <= q <= deficit) by (nonlinear_arith)
        requires
            x == t * q + x % t,
            0 <= x % t < t,
            x == deficit + t - 1,
            deficit > 0,
            t > 0,
    ;
}

/// A bucket never holds more than its capacity after a request, so a clock that jumps ahead grants
/// at most a full bucket.
pub proof fn lemma_capacity_bounds_tokens(cell: (u64, u64), cost: u64, spec: Bucket, now_ms: u64)
    requires
        spec.refill_interval_ms > 0,
    ensures
        refilled(cell, spec, now_ms).0 <= spec.capacity,
        applied(cell, cost, spec, now_ms).0.0 <= spec.capacity,
{
    lemma_due(cell.1, now_ms, spec.refill_interval_ms);
}

/// A clock that stands still or goes backwards adds nothing: after a request at one instant, a
/// request at that instant or any earlier one finds the tokens that were left, and the credited
/// instant where it was, so the bucket waits for the clock to catch up.
pub proof fn lemma_backward_clock_adds_nothing(
    cell: (u64, u64),
    cost: u64,
    spec: Bucket,
    now_ms: u64,
    earlier_ms: u64,
)
    requires
        spec.refill_interval_ms > 0,
        earlier_ms <= now_ms,
    ensures
        refilled(applied(cell, cost, spec, now_ms).0, spec, earlier_ms) == applied(
            cell,
            cost,
            spec,
            now_ms,
        ).0,
{
    let interval = spec.refill_interval_ms as int;
    let next = applied(cell, cost, spec, now_ms).0;
    lemma_refill_once(cell, spec, now_ms);
    lemma_capacity_bounds_tokens(cell, cost, spec, now_ms);
    if earlier_ms > next.1 {
        vstd::arithmetic::div_mod::lemma_div_is_ordered(
            earlier_ms - next.1,
            now_ms - next.1,
            interval,
        );
        vstd::arithmetic::div_mod::lemma_div_pos_is_pos(earlier_ms - next.1, interval);
    }
    assert(refills_due(next.1, earlier_ms, spec.refill_interval_ms) == 0);
    assert(0 * spec.refill_tokens == 0 && 0 * spec.refill_interval_ms == 0);
}

/// The advice of a refusal is kept: a request repeated after the advised time is granted, where
/// nothing else asked meanwhile. This holds of a clock that went backwards too.
pub proof fn lemma_advice_is_kept(cell: (u64, u64), cost: u64, spec: Bucket, now_ms: u64)
    requires
        spec.refill_interval_ms > 0,
        !applied(cell, cost, spec, now_ms).1.allowed,
        applied(cell, cost, spec, now_ms).1.retry_after_ms < u64::MAX,
        now_ms + applied(cell, cost, spec, now_ms).1.retry_after_ms <= u64::MAX,
    ensures
        ({
            let (next, outcome) = applied(cell, cost, spec, now_ms);
            applied(next, cost, spec, (now_ms + outcome.retry_after_ms) as u64).1.allowed
        }),
{
    let interval = spec.refill_interval_ms as int;
    let refill = spec.refill_tokens as int;
    lemma_due(cell.1, now_ms, spec.refill_interval_ms);
    let (tokens, stamp) = refilled(cell, spec, now_ms);
    let deficit = cost - tokens;
    lemma_refills_bound(deficit, spec.refill_tokens);
    let needed = refills_for(deficit, spec.refill_tokens);
    let wait = needed * interval;
    let later = (now_ms + wait + lag(stamp, now_ms)) as u64;
    assert(wait > 0) by (nonlinear_arith)
        requires
            wait == needed * interval,
            needed >= 1,
            interval > 0,
    ;
    let elapsed = later - stamp;
    assert(elapsed / interval >= needed) by {
        vstd::arithmetic::div_mod::lemma_div_is_ordered(wait, elapsed, interval);
        vstd::arithmetic::div_mod::lemma_div_by_multiple(needed, interval);
    }
    let due = refills_due(stamp, later, spec.refill_interval_ms);
    assert(due * refill >= needed * refill) by (nonlinear_arith)
        requires
            due >= needed,
            refill >= 0,
    ;
}

/// A bucket that cannot give one token, and whose clock is not behind it, advises one refill.
pub proof fn lemma_wait_for_one(cell: (u64, u64), spec: Bucket, now_ms: u64)
    requires
        spec.refill_interval_ms > 0,
        spec.capacity > 0,
        spec.refill_tokens > 0,
        cell.1 <= now_ms,
        !applied(cell, 1, spec, now_ms).1.allowed,
    ensures
        applied(cell, 1, spec, now_ms).1.retry_after_ms == spec.refill_interval_ms,
{
    lemma_due(cell.1, now_ms, spec.refill_interval_ms);
    lemma_refills_bound(1, spec.refill_tokens);
    assert(1 * spec.refill_interval_ms == spec.refill_interval_ms);
}

/// The state of a bucket after `n` requests for one token at one instant.
pub open spec fn drained(cell: (u64, u64), spec: Bucket, now_ms: u64, n: nat) -> (u64, u64)
    decreases n,
{
    if n == 0 {
        cell
    } else {
        applied(drained(cell, spec, now_ms, (n - 1) as nat), 1, spec, now_ms).0
    }
}

/// Of requests for one token at one instant, exactly as many are granted as the bucket holds
/// tokens then: the first ones.
pub proof fn lemma_burst(cell: (u64, u64), spec: Bucket, now_ms: u64, n: nat)
    requires
        spec.refill_interval_ms > 0,
    ensures
        applied(drained(cell, spec, now_ms, n), 1, spec, now_ms).1.allowed <==> n < refilled(
            cell,
            spec,
            now_ms,
        ).0,
{
    lemma_drained(cell, spec, now_ms, n);
}

proof fn lemma_drained(cell: (u64, u64), spec: Bucket, now_ms: u64, n: nat)
    requires
        spec.refill_interval_ms > 0,
    ensures
        ({
            let full = refilled(cell, spec, now_ms);
            let now = refilled(drained(cell, spec, now_ms, n), spec, now_ms);
            &&& now.1 == full.1
            &&& now.0 == if n < full.0 {
                full.0 - n
            } else {
                0
            }
        }),
    decreases n,
{
    if n > 0 {
        lemma_drained(cell, spec, now_ms, (n - 1) as nat);
        let before = drained(cell, spec, now_ms, (n - 1) as nat);
        lemma_refill_once(before, spec, now_ms);
        lemma_due(before.1, now_ms, spec.refill_interval_ms);
        let after = drained(cell, spec, now_ms, n);
        assert(after.1 == refilled(before, spec, now_ms).1);
        lemma_due(after.1, now_ms, spec.refill_interval_ms);
    }
}

/// Once the refills due at an instant are credited, none is due at that instant.
proof fn lemma_refill_once(cell: (u64, u64), spec: Bucket, now_ms: u64)
    requires
        spec.refill_interval_ms > 0,
    ensures
        refills_due(refilled(cell, spec, now_ms).1, now_ms, spec.refill_interval_ms) == 0,
{
    let interval = spec.refill_interval_ms as int;
    lemma_due(cell.1, now_ms, spec.refill_interval_ms);
    if now_ms > cell.1 {
        let e = now_ms - cell.1;
        vstd::arithmetic::div_mod::lemma_fundamental_div_mod(e, interval);
        vstd::arithmetic::div_mod::lemma_mod_bound(e, interval);
        assert((e / interval) * interval == interval * (e / interval)) by (nonlinear_arith);
        let stamp = refilled(cell, spec, now_ms).1;
        assert(now_ms - stamp == e % interval);
        if now_ms > stamp {
            vstd::arithmetic::div_mod::lemma_basic_div(now_ms - stamp, interval);
        }
    }
}

/// A bucket that was never touched reads as full once the clock is far enough past its start.
pub proof fn lemma_zero_cell_reads_as_full(spec: Bucket, now_ms: u64)
    requires
        spec.refill_interval_ms > 0,
        (now_ms as int / spec.refill_interval_ms as int) * spec.refill_tokens >= spec.capacity,
    ensures
        refilled((0, 0), spec, now_ms).0 == spec.capacity,
{
    if now_ms == 0 {
        vstd::arithmetic::div_mod::lemma_div_basics(spec.refill_interval_ms as int);
        assert(0 * spec.refill_tokens == 0);
    }
}

/// The state of a bucket after requests for one token at the given instants, and how many of them
/// were granted.
pub open spec fn served(cell: (u64, u64), spec: Bucket, times: Seq<u64>) -> ((u64, u64), nat)
    decreases times.len(),
{
    if times.len() == 0 {
        (cell, 0)
    } else {
        let (before, granted) = served(cell, spec, times.drop_last());
        let (after, outcome) = applied(before, 1, spec, times.last());
        (
            after,
            if outcome.allowed {
                granted + 1
            } else {
                granted
            },
        )
    }
}

/// The rate is kept: of requests at any instants up to `end`, in any order, no more are granted
/// than the bucket held tokens plus what the refills between its credited instant and `end` add.
pub proof fn lemma_rate_is_kept(cell: (u64, u64), spec: Bucket, times: Seq<u64>, end: u64)
    requires
        spec.refill_interval_ms > 0,
        forall|i: int| 0 <= i < times.len() ==> #[trigger] times[i] <= end,
    ensures
        served(cell, spec, times).1 <= cell.0 + refills_due(cell.1, end, spec.refill_interval_ms)
            * spec.refill_tokens,
{
    lemma_served(cell, spec, times, end);
}

proof fn lemma_served(cell: (u64, u64), spec: Bucket, times: Seq<u64>, end: u64)
    requires
        spec.refill_interval_ms > 0,
        forall|i: int| 0 <= i < times.len() ==> #[trigger] times[i] <= end,
    ensures
        exists|due: int|
            {
                let (state, granted) = served(cell, spec, times);
                &&& 0 <= due <= refills_due(cell.1, end, spec.refill_interval_ms)
                &&& state.1 == cell.1 + #[trigger] (due * spec.refill_interval_ms)
                &&& granted + state.0 <= cell.0 + due * spec.refill_tokens
            },
        served(cell, spec, times).1 <= cell.0 + refills_due(cell.1, end, spec.refill_interval_ms)
            * spec.refill_tokens,
    decreases times.len(),
{
    let interval = spec.refill_interval_ms as int;
    let tokens = spec.refill_tokens as int;
    let limit = refills_due(cell.1, end, spec.refill_interval_ms);
    lemma_due(cell.1, end, spec.refill_interval_ms);
    let (state, granted) = served(cell, spec, times);
    if times.len() == 0 {
        let due: int = 0;
        assert(state.1 == cell.1 + due * spec.refill_interval_ms);
        assert(0 * tokens == 0);
        assert(limit * tokens >= 0) by (nonlinear_arith)
            requires
                limit >= 0,
                tokens >= 0,
        ;
    } else {
        let rest = times.drop_last();
        assert forall|i: int| 0 <= i < rest.len() implies #[trigger] rest[i] <= end by {
            assert(rest[i] == times[i]);
        }
        lemma_served(cell, spec, rest, end);
        let (before, granted_before) = served(cell, spec, rest);
        let d0 = choose|due: int|
            {
                &&& 0 <= due <= limit
                &&& before.1 == cell.1 + #[trigger] (due * spec.refill_interval_ms)
                &&& granted_before + before.0 <= cell.0 + due * spec.refill_tokens
            };
        let now = times.last();
        assert(now <= end);
        let d1 = refills_due(before.1, now, spec.refill_interval_ms);
        lemma_due(before.1, now, spec.refill_interval_ms);
        let due = d0 + d1;
        assert(due * interval == d0 * interval + d1 * interval) by (nonlinear_arith)
            requires
                due == d0 + d1,
        ;
        assert(due * tokens == d0 * tokens + d1 * tokens) by (nonlinear_arith)
            requires
                due == d0 + d1,
        ;
        assert(state.1 == cell.1 + due * spec.refill_interval_ms);
        assert(due <= limit) by {
            if d1 > 0 {
                // every refill credited so far was due by `now`, hence by `end`
                assert(now > before.1);
                assert(d0 * interval >= 0) by (nonlinear_arith)
                    requires
                        d0 >= 0,
                        interval > 0,
                ;
                assert(cell.1 + due * interval <= now);
                assert(end > cell.1);
                vstd::arithmetic::div_mod::lemma_div_is_ordered(
                    due * interval,
                    end - cell.1,
                    interval,
                );
                vstd::arithmetic::div_mod::lemma_div_by_multiple(due, interval);
            }
        }
        assert(granted + state.0 <= cell.0 + due * spec.refill_tokens);
        assert(due * tokens <= limit * tokens) by (nonlinear_arith)
            requires
                due <= limit,
                tokens >= 0,
        ;
    }
}

/// A bucket that is looked at `n` whole intervals, and less than one more, after the instant it is
/// credited up to holds `n` refills more, up to its capacity, and is credited up to the last of them.
pub proof fn lemma_whole_intervals(
    cell: (u64, u64),
    spec: Bucket,
    now_ms: u64,
    n: nat,
    more: nat,
)
    requires
        spec.refill_interval_ms > 0,
        more < spec.refill_interval_ms,
        now_ms == cell.1 + n * spec.refill_interval_ms + more,
    ensures
        refilled(cell, spec, now_ms).0 == if cell.0 + n * spec.refill_tokens > spec.capacity {
            spec.capacity as int
        } else {
            cell.0 + n * spec.refill_tokens
        },
        refilled(cell, spec, now_ms).1 == cell.1 + n * spec.refill_interval_ms,
{
    let interval = spec.refill_interval_ms as int;
    let d = n * interval;
    assert(d >= 0) by (nonlinear_arith)
        requires
            d == n * interval,
            interval > 0,
    ;
    if now_ms > cell.1 {
        vstd::arithmetic::div_mod::lemma_fundamental_div_mod_converse(
            now_ms - cell.1,
            interval,
            n as int,
            more as int,
        );
    } else {
        assert(n == 0) by (nonlinear_arith)
            requires
                n * interval == 0,
                interval > 0,
        ;
    }
    assert(n * spec.refill_tokens >= 0) by (nonlinear_arith);
}

/// It makes no difference in how many steps a bucket is brought up to an instant: looking at it in
/// between neither adds nor loses a token.
pub proof fn lemma_looking_costs_nothing(cell: (u64, u64), spec: Bucket, mid_ms: u64, now_ms: u64)
    requires
        spec.refill_interval_ms > 0,
        cell.1 <= mid_ms <= now_ms,
    ensures
        refilled(refilled(cell, spec, mid_ms), spec, now_ms) == refilled(cell, spec, now_ms),
{
    let interval = spec.refill_interval_ms as int;
    let tokens = spec.refill_tokens as int;
    let e = mid_ms - cell.1;
    let a = e / interval;
    vstd::arithmetic::div_mod::lemma_fundamental_div_mod(e, interval);
    vstd::arithmetic::div_mod::lemma_mod_bound(e, interval);
    vstd::arithmetic::div_mod::lemma_div_pos_is_pos(e, interval);
    let first = refilled(cell, spec, mid_ms);
    assert(mid_ms == cell.1 + a * interval + e % interval) by (nonlinear_arith)
        requires
            e == interval * a + e % interval,
            e == mid_ms - cell.1,
    ;
    lemma_whole_intervals(cell, spec, mid_ms, a as nat, (e % interval) as nat);
    let f = now_ms - first.1;
    let b = f / interval;
    vstd::arithmetic::div_mod::lemma_fundamental_div_mod(f, interval);
    vstd::arithmetic::div_mod::lemma_mod_bound(f, interval);
    vstd::arithmetic::div_mod::lemma_div_pos_is_pos(f, interval);
    assert(now_ms == first.1 + b * interval + f % interval) by (nonlinear_arith)
        requires
            f == interval * b + f % interval,
            f == now_ms - first.1,
    ;
    lemma_whole_intervals(first, spec, now_ms, b as nat, (f % interval) as nat);
    assert((a + b) * interval == a * interval + b * interval) by (nonlinear_arith);
    assert((a + b) * tokens == a * tokens + b * tokens) by (nonlinear_arith);
    assert(a * tokens >= 0 && b * tokens >= 0) by (nonlinear_arith)
        requires
            a >= 0,
            b >= 0,
            tokens >= 0,
    ;
    lemma_whole_intervals(cell, spec, now_ms, (a + b) as nat, (f % interval) as nat);
}

/// A request is granted exactly if the bucket holds its cost, and takes exactly that; a refused one
/// takes nothing.
pub proof fn lemma_a_grant_takes_its_cost(cell: (u64, u64), cost: u64, spec: Bucket, now_ms: u64)
    ensures
        ({
            let held = refilled(cell, spec, now_ms);
            let (next, outcome) = applied(cell, cost, spec, now_ms);
            &&& outcome.allowed <==> held.0 >= cost
            &&& outcome.allowed ==> next.0 + cost == held.0 && outcome.retry_after_ms == 0
            &&& !outcome.allowed ==> next.0 == held.0 && outcome.retry_after_ms > 0
                || spec.refill_interval_ms == 0
            &&& next.1 == held.1
        }),
{
    let held = refilled(cell, spec, now_ms);
    if held.0 < cost && spec.refill_interval_ms > 0 && cost <= spec.capacity && spec.refill_tokens
        > 0 {
        lemma_refills_bound(cost - held.0, spec.refill_tokens);
        let needed = refills_for(cost - held.0, spec.refill_tokens);
        assert(needed * spec.refill_interval_ms > 0) by (nonlinear_arith)
            requires
                needed >= 1,
                spec.refill_interval_ms > 0,
        ;
    }
}

/// The advice is not longer than it has to be: a request that comes a whole interval or more before
/// the advised time is refused.
pub proof fn lemma_advice_is_tight(
    cell: (u64, u64),
    cost: u64,
    spec: Bucket,
    now_ms: u64,
    early_ms: u64,
)
    requires
        spec.refill_interval_ms > 0,
        !applied(cell, cost, spec, now_ms).1.allowed,
        cost <= spec.capacity,
        spec.refill_tokens > 0,
        applied(cell, cost, spec, now_ms).1.retry_after_ms < u64::MAX,
        early_ms + spec.refill_interval_ms <= now_ms + applied(
            cell,
            cost,
            spec,
            now_ms,
        ).1.retry_after_ms,
    ensures
        !applied(applied(cell, cost, spec, now_ms).0, cost, spec, early_ms).1.allowed,
{
    let interval = spec.refill_interval_ms as int;
    let refill = spec.refill_tokens as int;
    lemma_due(cell.1, now_ms, spec.refill_interval_ms);
    lemma_refill_once(cell, spec, now_ms);
    let (tokens, stamp) = refilled(cell, spec, now_ms);
    let deficit = cost - tokens;
    let needed = refills_for(deficit, spec.refill_tokens);
    lemma_refills_bound(deficit, spec.refill_tokens);
    let x = deficit + refill - 1;
    vstd::arithmetic::div_mod::lemma_fundamental_div_mod(x, refill);
    vstd::arithmetic::div_mod::lemma_mod_bound(x, refill);
    assert((needed - 1) * refill < deficit) by (nonlinear_arith)
        requires
            x == refill * needed + x % refill,
            0 <= x % refill < refill,
            x == deficit + refill - 1,
    ;
    // before the last refill that is needed, at most one less is due
    let due = refills_due(stamp, early_ms, spec.refill_interval_ms);
    lemma_due(stamp, early_ms, spec.refill_interval_ms);
    assert(due <= needed - 1) by {
        if early_ms > stamp {
            let e = early_ms - stamp;
            if now_ms > stamp {
                // nothing more was due when the advice was given
                vstd::arithmetic::div_mod::lemma_fundamental_div_mod(now_ms - stamp, interval);
                vstd::arithmetic::div_mod::lemma_mod_bound(now_ms - stamp, interval);
                assert((now_ms - stamp) / interval == 0);
                assert(interval * 0 == 0);
                assert(now_ms - stamp < interval);
            }
            assert(e < needed * interval);
            vstd::arithmetic::div_mod::lemma_fundamental_div_mod(e, interval);
            vstd::arithmetic::div_mod::lemma_mod_bound(e, interval);
            assert(due < needed) by (nonlinear_arith)
                requires
                    e == interval * due + e % interval,
                    0 <= e % interval,
                    e < needed * interval,
                    interval > 0,
            ;
        }
    }
    assert(due * refill <= (needed - 1) * refill) by (nonlinear_arith)
        requires
            due <= needed - 1,
            refill > 0,
    ;
}

/// A clock that is not past the credited instant finds the tokens that the bucket holds, up to its
/// capacity, and leaves the credited instant where it is.
pub proof fn lemma_clock_behind_finds_what_is_held(cell: (u64, u64), spec: Bucket, now_ms: u64)
    requires
        now_ms <= cell.1,
    ensures
        refilled(cell, spec, now_ms).0 == if cell.0 > spec.capacity {
            spec.capacity
        } else {
            cell.0
        },
        refilled(cell, spec, now_ms).1 == cell.1,
{
    assert(0 * spec.refill_tokens == 0 && 0 * spec.refill_interval_ms == 0);
}

/// What can never be granted is said to be never: a cost over the capacity, or any lack of tokens
/// where no refill adds one, is answered with the largest wait.
pub proof fn lemma_never_is_said(cell: (u64, u64), cost: u64, spec: Bucket, now_ms: u64)
    requires
        !applied(cell, cost, spec, now_ms).1.allowed,
        cost > spec.capacity || spec.refill_tokens == 0,
    ensures
        applied(cell, cost, spec, now_ms).1.retry_after_ms == u64::MAX,
{
}

/// A bucket that is seen for the first time holds its capacity and is credited up to that instant.
pub proof fn lemma_first_sight_is_full(spec: Bucket, now_ms: u64)
    ensures
        first_sight(spec, now_ms).0 == spec.capacity,
        first_sight(spec, now_ms).1 == now_ms,
{
}

/// The advice counts whole refills: where `n` refills bring the cost and one less does not, it is
/// `n` intervals, and as much more as the clock is behind the credited instant, up to the largest
/// value.
pub proof fn lemma_advice_counts_the_refills(
    cell: (u64, u64),
    cost: u64,
    spec: Bucket,
    now_ms: u64,
    n: nat,
)
    requires
        n > 0,
        !applied(cell, cost, spec, now_ms).1.allowed,
        cost <= spec.capacity,
        applied(cell, cost, spec, now_ms).0.0 + n * spec.refill_tokens >= cost,
        applied(cell, cost, spec, now_ms).0.0 + (n - 1) * spec.refill_tokens < cost,
    ensures
        ({
            let (next, outcome) = applied(cell, cost, spec, now_ms);
            let behind = if next.1 > now_ms {
                next.1 - now_ms
            } else {
                0
            };
            let wait = n * spec.refill_interval_ms + behind;
            outcome.retry_after_ms == if wait > u64::MAX {
                u64::MAX as int
            } else {
                wait
            }
        }),
{
    let held = applied(cell, cost, spec, now_ms).0.0;
    let rt = spec.refill_tokens as int;
    let deficit = cost - held;
    if rt == 0 {
        assert(n * rt == 0) by (nonlinear_arith)
            requires
                rt == 0,
        ;
    }
    assert((n - 1) * rt == n * rt - rt) by (nonlinear_arith);
    let rest = deficit + rt - 1 - n * rt;
    vstd::arithmetic::div_mod::lemma_fundamental_div_mod_converse(
        deficit + rt - 1,
        rt,
        n as int,
        rest,
    );
}

} // verus!
