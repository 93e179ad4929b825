//! Maglev consistent hashing: a lookup table that maps request keys to upstream instances.
//!
//! Every instance walks the slots of a prime-sized table in an order of its own, which its address
//! fixes through the two words of one hash. The instances take turns, in proportion to their
//! weights, and each turn claims the first slot of the walk that is still free. A request key is
//! then looked up by its hash, so equal keys reach the same instance as long as the table stands.
use vstd::prelude::*;

use crate::hash::{hash64, murmur3_x64_128};

verus! {

/// The largest table that may be configured.
pub const MAX_TABLE_SIZE: u32 = 5_000_011;

/// Where the walk of the instance at `address` starts.
pub open spec fn offset_of(address: Seq<char>, m: int) -> int {
    crate::hash::murmur3(vstd::utf8::encode_utf8(address), 0).0 as int % m
}

/// How far each step of the walk of the instance at `address` goes.
pub open spec fn skip_of(address: Seq<char>, m: int) -> int {
    crate::hash::murmur3(vstd::utf8::encode_utf8(address), 0).1 as int % (m - 1) + 1
}

/// The slot that the instance at `address` prefers in place `j`.
pub open spec fn preference(address: Seq<char>, m: int, j: int) -> int {
    crate::prime::stride(offset_of(address, m), skip_of(address, m), m, j)
}

/// The largest weight among the first `n` entries.
pub open spec fn top_weight(entries: Seq<(Seq<char>, u32)>, n: nat) -> int
    decreases n,
{
    if n == 0 {
        0
    } else {
        let rest = top_weight(entries, (n - 1) as nat);
        if entries[n - 1].1 > rest {
            entries[n - 1].1 as int
        } else {
            rest
        }
    }
}

/// Whether an entry takes a turn in a round (counted from one): over any number of rounds it takes
/// the share `weight / top` of them, rounded down.
pub open spec fn takes_turn(weight: int, top: int, round: int) -> bool {
    (round * weight) / top > ((round - 1) * weight) / top
}

/// The turns that the first `n` entries take in a round, in the order of the entries.
pub open spec fn round_turns(entries: Seq<(Seq<char>, u32)>, round: int, n: nat) -> Seq<int>
    decreases n,
{
    if n == 0 {
        Seq::empty()
    } else {
        let before = round_turns(entries, round, (n - 1) as nat);
        if takes_turn(entries[n - 1].1 as int, top_weight(entries, entries.len()), round) {
            before.push(n - 1)
        } else {
            before
        }
    }
}

/// The turns of the first `rounds` rounds.
pub open spec fn schedule(entries: Seq<(Seq<char>, u32)>, rounds: nat) -> Seq<int>
    decreases rounds,
{
    if rounds == 0 {
        Seq::empty()
    } else {
        schedule(entries, (rounds - 1) as nat) + round_turns(
            entries,
            rounds as int,
            entries.len(),
        )
    }
}

/// Whether place `j` is the first of the walk from `address` whose slot is free.
pub open spec fn is_first_free(
    table: Seq<Option<int>>,
    address: Seq<char>,
    m: int,
    j: int,
) -> bool {
    &&& 0 <= j < m
    &&& table[preference(address, m, j)] is None
    &&& forall|i: int| 0 <= i < j ==> table[#[trigger] preference(address, m, i)] is Some
}

/// The table after the first `k` turns: each turn claims the first free slot of its entry's walk.
pub open spec fn claims(entries: Seq<(Seq<char>, u32)>, m: nat, k: nat) -> Seq<Option<int>>
    decreases k,
{
    if k == 0 {
        Seq::new(m, |s: int| None)
    } else {
        let table = claims(entries, m, (k - 1) as nat);
        let entry = schedule(entries, m)[k - 1];
        let address = entries[entry].0;
        let j = choose|j: int| is_first_free(table, address, m as int, j);
        table.update(preference(address, m as int, j), Some(entry))
    }
}

/// The full table: the entry that owns each slot once there have been as many turns as slots.
pub open spec fn maglev(entries: Seq<(Seq<char>, u32)>, m: nat) -> Seq<int> {
    Seq::new(m, |s: int| claims(entries, m, m)[s]->0)
}

/// Entries and a table size from which a table can be built.
pub open spec fn buildable(entries: Seq<(Seq<char>, u32)>, m: int) -> bool {
    &&& crate::prime::is_prime(m)
    &&& m <= MAX_TABLE_SIZE
    &&& 0 < top_weight(entries, entries.len())
}

/// The entries as plain values.
pub open spec fn entries_view(entries: Seq<(&str, u32)>) -> Seq<(Seq<char>, u32)> {
    entries.map_values(|e: (&str, u32)| (e.0@, e.1))
}

/// A Maglev lookup table: the index of the owning entry for each slot.
#[derive(Debug)]
pub struct MaglevTable {
    slots: Vec<usize>,
}

impl View for MaglevTable {
    type V = Seq<int>;

    closed spec fn view(&self) -> Seq<int> {
        self.slots@.map_values(|e: usize| e as int)
    }
}

/// The slots taken so far; a slot that holds `free` is not.
spec fn table_view(slots: Seq<usize>, free: usize) -> Seq<Option<int>> {
    slots.map_values(
        |e: usize|
            if e == free {
                None::<int>
            } else {
                Some(e as int)
            },
    )
}

/// What holds of the walk of entry `i`: it stands at place `j`, and every slot before is taken.
spec fn walk_at(
    entries: Seq<(Seq<char>, u32)>,
    table: Seq<Option<int>>,
    m: int,
    i: int,
    slot: usize,
    j: int,
) -> bool {
    &&& 0 <= j < m
    &&& slot == preference(entries[i].0, m, j)
    &&& forall|h: int| 0 <= h < j ==> table[#[trigger] preference(entries[i].0, m, h)] is Some
}

/// Walks on from `place`, which stands `j` steps into the walk from `address`, to the first slot
/// that holds `free`.
fn walk_to_free(
    slots: &Vec<usize>,
    free: usize,
    place: usize,
    skip: usize,
    Ghost(address): Ghost<Seq<char>>,
    Ghost(j): Ghost<int>,
) -> (r: (usize, Ghost<int>))
    requires
        crate::prime::is_prime(slots@.len() as int),
        slots@.len() <= MAX_TABLE_SIZE,
        skip == skip_of(address, slots@.len() as int),
        0 <= j < slots@.len(),
        place == preference(address, slots@.len() as int, j),
        forall|h: int|
            0 <= h < j ==> table_view(slots@, free)[#[trigger] preference(
                address,
                slots@.len() as int,
                h,
            )] is Some,
        exists|s: int| 0 <= s < slots@.len() && #[trigger] table_view(slots@, free)[s] is None,
    ensures
        is_first_free(table_view(slots@, free), address, slots@.len() as int, r.1@),
        r.0 == preference(address, slots@.len() as int, r.1@),
{
    let m: usize = slots.len();
    let ghost table = table_view(slots@, free);
    let ghost goal = lemma_free_place(table, address, m as int);
    let mut at: usize = place;
    let ghost mut k = j;
    proof {
        lemma_preferences_in_range(address, m as int);
        lemma_skip_range(address, m as int);
    }
    while slots[at] != free
        invariant
            m == slots@.len(),
            2 <= m <= MAX_TABLE_SIZE,
            table == table_view(slots@, free),
            0 < skip < m,
            skip == skip_of(address, m as int),
            0 <= goal < m,
            table[preference(address, m as int, goal)] is None,
            0 <= k <= goal,
            at < m,
            at == preference(address, m as int, k),
            forall|h: int|
                0 <= h < k ==> table[#[trigger] preference(address, m as int, h)] is Some,
        decreases goal - k,
    {
        proof {
            assert(table[at as int] is Some);
            lemma_walk_step(address, m as int, k);
            k = k + 1;
        }
        at = (at + skip) % m;
    }
    (at, Ghost(k))
}

impl MaglevTable {
    /// Builds the table of `m` slots over the entries, given as addresses and weights.
    #[verifier::spinoff_prover]
    #[verifier::rlimit(60)]
    pub fn build(entries: &Vec<(&str, u32)>, m: usize) -> (r: Self)
        requires
            buildable(entries_view(entries@), m as int),
        ensures
            r@ == maglev(entries_view(entries@), m as nat),
    {
        let ghost view = entries_view(entries@);
        let n: usize = entries.len();
        let mut top: u32 = 0;
        let mut places: Vec<usize> = Vec::new();
        let mut skips: Vec<usize> = Vec::new();
        let mut e: usize = 0;
        while e < n
            invariant
                n == entries@.len(),
                view == entries_view(entries@),
                buildable(view, m as int),
                e <= n,
                top == top_weight(view, e as nat),
                places@.len() == e,
                skips@.len() == e,
                forall|i: int| 0 <= i < e ==> #[trigger] places@[i] == offset_of(view[i].0, m as int),
                forall|i: int| 0 <= i < e ==> #[trigger] skips@[i] == skip_of(view[i].0, m as int),
            decreases n - e,
        {
            let (address, weight) = entries[e];
            if weight > top {
                top = weight;
            }
            let (low, high) = murmur3_x64_128(address.as_bytes(), 0);
            places.push((low % (m as u64)) as usize);
            skips.push((high % ((m - 1) as u64)) as usize + 1);
            e = e + 1;
        }
        let mut slots: Vec<usize> = Vec::new();
        while slots.len() < m
            invariant
                slots@.len() <= m,
                forall|i: int| 0 <= i < slots@.len() ==> slots@[i] == n,
            decreases m - slots.len(),
        {
            slots.push(n);
        }
        let ghost mut js: Seq<int> = Seq::new(n as nat, |i: int| 0);
        let mut filled: usize = 0;
        let mut round: u64 = 0;
        proof {
            assert(table_view(slots@, n) =~= claims(view, m as nat, 0));
            assert forall|i: int| 0 <= i < n implies #[trigger] walk_at(
                view,
                table_view(slots@, n),
                m as int,
                i,
                places@[i],
                js[i],
            ) by {
                lemma_walk_start(view[i].0, m as int);
            }
        }
        while filled < m
            invariant
                n == entries@.len(),
                view == entries_view(entries@),
                buildable(view, m as int),
                top == top_weight(view, n as nat),
                places@.len() == n,
                skips@.len() == n,
                js.len() == n,
                slots@.len() == m,
                forall|i: int| 0 <= i < n ==> #[trigger] skips@[i] == skip_of(view[i].0, m as int),
                filled <= m,
                round <= m,
                filled < m ==> filled == schedule(view, round as nat).len(),
                table_view(slots@, n) == claims(view, m as nat, filled as nat),
                forall|i: int|
                    0 <= i < n ==> #[trigger] walk_at(
                        view,
                        table_view(slots@, n),
                        m as int,
                        i,
                        places@[i],
                        js[i],
                    ),
            decreases m - filled,
        {
            let ghost filled_before = filled;
            proof {
                lemma_schedule_grows(view, round as nat);
                lemma_schedule_grows(view, (round + 1) as nat);
                lemma_schedule_prefix(view, (round + 1) as nat, m as nat);
            }
            round = round + 1;
            let mut i: usize = 0;
            while i < n && filled < m
                invariant
                    n == entries@.len(),
                    view == entries_view(entries@),
                    buildable(view, m as int),
                    top == top_weight(view, n as nat),
                    places@.len() == n,
                    skips@.len() == n,
                    js.len() == n,
                    slots@.len() == m,
                    forall|i: int|
                        0 <= i < n ==> #[trigger] skips@[i] == skip_of(view[i].0, m as int),
                    filled <= m,
                    1 <= round <= m,
                    i <= n,
                    filled == schedule(view, (round - 1) as nat).len() + round_turns(
                        view,
                        round as int,
                        i as nat,
                    ).len(),
                    schedule(view, round as nat).is_prefix_of(schedule(view, m as nat)),
                    table_view(slots@, n) == claims(view, m as nat, filled as nat),
                    forall|i: int|
                        0 <= i < n ==> #[trigger] walk_at(
                            view,
                            table_view(slots@, n),
                            m as int,
                            i,
                            places@[i],
                            js[i],
                        ),
                decreases n - i,
            {
                let weight: u64 = entries[i].1 as u64;
                let whole: u64 = top as u64;
                proof {
                    lemma_share_fits(round as int, weight as int);
                    lemma_share_fits(round - 1, weight as int);
                }
                if (round * weight) / whole > ((round - 1) * weight) / whole {
                    proof {
                        lemma_turn(view, round as nat, i as nat, m as nat);
                        lemma_claims(view, m as nat, filled as nat);
                    }
                    let ghost table = table_view(slots@, n);
                    let ghost address = view[i as int].0;
                    assert(walk_at(view, table, m as int, i as int, places@[i as int], js[i as int]));
                    let (place, Ghost(j)) = walk_to_free(
                        &slots,
                        n,
                        places[i],
                        skips[i],
                        Ghost(address),
                        Ghost(js[i as int]),
                    );
                    proof {
                        lemma_first_free_unique(table, address, m as int, j);
                        lemma_preferences_in_range(address, m as int);
                        assert(table_view(slots@.update(place as int, i), n) =~= table.update(
                            place as int,
                            Some(i as int),
                        ));
                    }
                    slots.set(place, i);
                    places.set(i, place);
                    proof {
                        let old_js = js;
                        js = js.update(i as int, j);
                        let after = table_view(slots@, n);
                        assert forall|h: int| 0 <= h < n implies #[trigger] walk_at(
                            view,
                            after,
                            m as int,
                            h,
                            places@[h],
                            js[h],
                        ) by {
                            if h != i {
                                assert(walk_at(view, table, m as int, h, places@[h], old_js[h]));
                            }
                            lemma_preferences_in_range(view[h].0, m as int);
                        }
                    }
                    filled = filled + 1;
                }
                i = i + 1;
            }
            proof {
                if filled < m {
                    assert(i == n);
                }
            }
        }
        proof {
            lemma_claims(view, m as nat, m as nat);
            lemma_all_taken(view, m as nat);
            assert forall|s: int| 0 <= s < m implies #[trigger] slots@[s] as int == maglev(
                view,
                m as nat,
            )[s] by {
                assert(table_view(slots@, n)[s] == claims(view, m as nat, m as nat)[s]);
            }
        }
        let r = MaglevTable { slots };
        assert(r@ =~= maglev(view, m as nat));
        r
    }

    /// The entry that owns the slot of a request key.
    pub fn lookup(&self, key: &[u8]) -> (r: usize)
        requires
            self@.len() > 0,
        ensures
            r == self@[crate::hash::murmur3(key@, 0).0 as int % self@.len() as int],
    {
        let len: usize = self.slots.len();
        let slot: usize = (hash64(key) % (len as u64)) as usize;
        self.slots[slot]
    }
}

/// The slots of a table that are taken.
spec fn taken(table: Seq<Option<int>>) -> Set<int> {
    Set::new(|s: int| 0 <= s < table.len() && table[s] is Some)
}

proof fn lemma_skip_range(address: Seq<char>, m: int)
    requires
        m >= 2,
    ensures
        0 < skip_of(address, m) < m,
        0 <= offset_of(address, m) < m,
{
    let h = crate::hash::murmur3(vstd::utf8::encode_utf8(address), 0);
    vstd::arithmetic::div_mod::lemma_mod_bound(h.1 as int, m - 1);
    vstd::arithmetic::div_mod::lemma_mod_bound(h.0 as int, m);
}

proof fn lemma_preferences_in_range(address: Seq<char>, m: int)
    requires
        m >= 2,
    ensures
        forall|j: int| 0 <= #[trigger] preference(address, m, j) < m,
{
    assert forall|j: int| 0 <= #[trigger] preference(address, m, j) < m by {
        vstd::arithmetic::div_mod::lemma_mod_bound(
            offset_of(address, m) + j * skip_of(address, m),
            m,
        );
    }
}

proof fn lemma_walk_start(address: Seq<char>, m: int)
    requires
        m >= 2,
    ensures
        preference(address, m, 0) == offset_of(address, m),
{
    lemma_skip_range(address, m);
    vstd::arithmetic::div_mod::lemma_small_mod(offset_of(address, m) as nat, m as nat);
}

proof fn lemma_walk_step(address: Seq<char>, m: int, j: int)
    requires
        m >= 2,
    ensures
        preference(address, m, j + 1) == (preference(address, m, j) + skip_of(address, m)) % m,
{
    let skip = skip_of(address, m);
    let x = offset_of(address, m) + j * skip;
    assert(offset_of(address, m) + (j + 1) * skip == x + skip) by (nonlinear_arith)
        requires
            x == offset_of(address, m) + j * skip,
    ;
    vstd::arithmetic::div_mod::lemma_add_mod_noop_right(skip, x, m);
}

proof fn lemma_share_fits(round: int, weight: int)
    requires
        0 <= round <= MAX_TABLE_SIZE,
        0 <= weight <= u32::MAX,
    ensures
        0 <= round * weight <= u64::MAX,
{
    assert(0 <= round * weight <= 5_000_011 * 0xffff_ffff) by (nonlinear_arith)
        requires
            0 <= round <= 5_000_011,
            0 <= weight <= 0xffff_ffff,
    ;
}

/// The entry with the largest weight takes a turn in every round.
proof fn lemma_top_takes_turn(top: int, round: int)
    requires
        top > 0,
        round >= 1,
    ensures
        takes_turn(top, top, round),
{
    vstd::arithmetic::div_mod::lemma_div_by_multiple(round, top);
    vstd::arithmetic::div_mod::lemma_div_by_multiple(round - 1, top);
}

/// The largest weight is no less than any entry's.
pub proof fn lemma_top_weight(entries: Seq<(Seq<char>, u32)>, n: nat, e: int)
    requires
        0 <= e < n <= entries.len(),
    ensures
        entries[e].1 <= top_weight(entries, n),
    decreases n,
{
    if e < n - 1 {
        lemma_top_weight(entries, (n - 1) as nat, e);
    }
}

/// The largest weight is that of an entry, where it is not zero.
pub proof fn lemma_top_exists(entries: Seq<(Seq<char>, u32)>, n: nat) -> (e: int)
    requires
        n <= entries.len(),
        top_weight(entries, n) > 0,
    ensures
        0 <= e < n,
        entries[e].1 == top_weight(entries, n),
    decreases n,
{
    let rest = top_weight(entries, (n - 1) as nat);
    if entries[n - 1].1 > rest {
        n - 1
    } else {
        lemma_top_exists(entries, (n - 1) as nat)
    }
}

proof fn lemma_round_prefix(entries: Seq<(Seq<char>, u32)>, round: int, a: nat, b: nat)
    requires
        a <= b,
    ensures
        round_turns(entries, round, a).is_prefix_of(round_turns(entries, round, b)),
        forall|t: int|
            0 <= t < round_turns(entries, round, b).len() ==> 0 <= #[trigger] round_turns(
                entries,
                round,
                b,
            )[t] < b,
    decreases b,
{
    if a < b {
        lemma_round_prefix(entries, round, a, (b - 1) as nat);
    } else if b > 0 {
        lemma_round_prefix(entries, round, (b - 1) as nat, (b - 1) as nat);
    }
}

proof fn lemma_schedule_grows(entries: Seq<(Seq<char>, u32)>, rounds: nat)
    requires
        top_weight(entries, entries.len()) > 0,
    ensures
        schedule(entries, rounds).len() >= rounds,
        rounds > 0 ==> schedule(entries, rounds).len() > schedule(entries, (rounds - 1) as nat).len(),
        forall|t: int|
            0 <= t < schedule(entries, rounds).len() ==> 0 <= #[trigger] schedule(
                entries,
                rounds,
            )[t] < entries.len(),
    decreases rounds,
{
    if rounds > 0 {
        lemma_schedule_grows(entries, (rounds - 1) as nat);
        let n = entries.len();
        let e = lemma_top_exists(entries, n);
        lemma_top_takes_turn(top_weight(entries, n), rounds as int);
        lemma_round_prefix(entries, rounds as int, (e + 1) as nat, n);
        assert(round_turns(entries, rounds as int, (e + 1) as nat).len() > 0);
    }
}

proof fn lemma_schedule_prefix(entries: Seq<(Seq<char>, u32)>, a: nat, b: nat)
    requires
        a <= b,
    ensures
        schedule(entries, a).is_prefix_of(schedule(entries, b)),
    decreases b,
{
    if a < b {
        lemma_schedule_prefix(entries, a, (b - 1) as nat);
        let short = schedule(entries, (b - 1) as nat);
        let long = schedule(entries, b);
        assert(short.is_prefix_of(long)) by {
            assert(short =~= long.subrange(0, short.len() as int));
        }
        assert(schedule(entries, a) =~= long.subrange(0, schedule(entries, a).len() as int));
    } else {
        assert(schedule(entries, a) =~= schedule(entries, a).subrange(
            0,
            schedule(entries, a).len() as int,
        ));
    }
}

/// The turn of entry `i` in a round stands in the schedule right after the turns before it.
proof fn lemma_turn(entries: Seq<(Seq<char>, u32)>, round: nat, i: nat, m: nat)
    requires
        round >= 1,
        i < entries.len(),
        takes_turn(entries[i as int].1 as int, top_weight(entries, entries.len()), round as int),
        schedule(entries, round).is_prefix_of(schedule(entries, m)),
    ensures
        ({
            let at = schedule(entries, (round - 1) as nat).len() + round_turns(
                entries,
                round as int,
                i,
            ).len();
            &&& at < schedule(entries, m).len()
            &&& schedule(entries, m)[at as int] == i
        }),
{
    let turns = round_turns(entries, round as int, i + 1);
    let all = round_turns(entries, round as int, entries.len());
    lemma_round_prefix(entries, round as int, i + 1, entries.len());
    let before = schedule(entries, (round - 1) as nat);
    let at = before.len() + turns.len() - 1;
    assert(turns.last() == i);
    assert(all[turns.len() - 1] == turns[turns.len() - 1]);
    assert(schedule(entries, round)[at] == all[turns.len() - 1]);
    assert(schedule(entries, m)[at] == schedule(entries, round)[at]);
}

/// A place of the walk whose slot is free, where some slot is free.
proof fn lemma_free_place(table: Seq<Option<int>>, address: Seq<char>, m: int) -> (j: int)
    requires
        crate::prime::is_prime(m),
        table.len() == m,
        exists|s: int| 0 <= s < m && #[trigger] table[s] is None,
    ensures
        0 <= j < m,
        table[preference(address, m, j)] is None,
{
    let s = choose|s: int| 0 <= s < m && #[trigger] table[s] is None;
    lemma_skip_range(address, m);
    crate::prime::lemma_stride_is_surjective(offset_of(address, m), skip_of(address, m), m, s)
}

/// The first place of the walk whose slot is free, where the slot at place `j` is.
proof fn lemma_first_free_place(table: Seq<Option<int>>, address: Seq<char>, m: int, j: int) -> (k:
    int)
    requires
        0 <= j < m,
        table[preference(address, m, j)] is None,
    ensures
        is_first_free(table, address, m, k),
    decreases j,
{
    if exists|i: int| 0 <= i < j && table[#[trigger] preference(address, m, i)] is None {
        let i = choose|i: int| 0 <= i < j && table[#[trigger] preference(address, m, i)] is None;
        lemma_first_free_place(table, address, m, i)
    } else {
        assert forall|i: int| 0 <= i < j implies table[#[trigger] preference(
            address,
            m,
            i,
        )] is Some by {
            assert(!(table[preference(address, m, i)] is None));
        }
        j
    }
}

proof fn lemma_first_free_unique(table: Seq<Option<int>>, address: Seq<char>, m: int, j: int)
    requires
        is_first_free(table, address, m, j),
    ensures
        (choose|i: int| is_first_free(table, address, m, i)) == j,
{
    let k = choose|i: int| is_first_free(table, address, m, i);
    if k < j {
        assert(table[preference(address, m, k)] is Some);
    }
    if j < k {
        assert(table[preference(address, m, j)] is Some);
    }
}

/// After `k` turns exactly `k` slots are taken, each by one of the entries.
proof fn lemma_claims(entries: Seq<(Seq<char>, u32)>, m: nat, k: nat)
    requires
        buildable(entries, m as int),
        k <= m,
    ensures
        claims(entries, m, k).len() == m,
        taken(claims(entries, m, k)).finite(),
        taken(claims(entries, m, k)).len() == k,
        k < m ==> exists|s: int| 0 <= s < m && #[trigger] claims(entries, m, k)[s] is None,
        forall|s: int|
            0 <= s < m && #[trigger] claims(entries, m, k)[s] is Some ==> 0 <= claims(
                entries,
                m,
                k,
            )[s]->0 < entries.len(),
    decreases k,
{
    let table = claims(entries, m, k);
    if k == 0 {
        assert(taken(table) =~= Set::<int>::empty());
    } else {
        let before = claims(entries, m, (k - 1) as nat);
        lemma_claims(entries, m, (k - 1) as nat);
        lemma_schedule_grows(entries, m);
        let entry = schedule(entries, m)[k - 1];
        let address = entries[entry].0;
        let free = lemma_free_place(before, address, m as int);
        let j = lemma_first_free_place(before, address, m as int, free);
        lemma_first_free_unique(before, address, m as int, j);
        lemma_preferences_in_range(address, m as int);
        let slot = preference(address, m as int, j);
        assert(table == before.update(slot, Some(entry)));
        assert(taken(table) =~= taken(before).insert(slot));
    }
    if k < m {
        let all = vstd::set_lib::set_int_range(0, m as int);
        vstd::set_lib::lemma_int_range(0, m as int);
        if forall|s: int| 0 <= s < m ==> #[trigger] table[s] is Some {
            assert(taken(table) =~= all);
        }
        let s = choose|s: int| 0 <= s < m && !(#[trigger] table[s] is Some);
        assert(table[s] is None);
    }
}

/// After as many turns as slots, every slot is taken.
proof fn lemma_all_taken(entries: Seq<(Seq<char>, u32)>, m: nat)
    requires
        buildable(entries, m as int),
    ensures
        forall|s: int| 0 <= s < m ==> #[trigger] claims(entries, m, m)[s] is Some,
{
    let table = claims(entries, m, m);
    lemma_claims(entries, m, m);
    let all = vstd::set_lib::set_int_range(0, m as int);
    vstd::set_lib::lemma_int_range(0, m as int);
    vstd::set_lib::lemma_subset_equality(taken(table), all);
    assert forall|s: int| 0 <= s < m implies #[trigger] table[s] is Some by {
        assert(all.contains(s));
    }
}

/// Every slot of a table is owned by one of the entries it was built from.
pub proof fn lemma_every_slot_is_owned(entries: Seq<(Seq<char>, u32)>, m: nat)
    requires
        buildable(entries, m as int),
    ensures
        maglev(entries, m).len() == m,
        forall|s: int| 0 <= s < m ==> 0 <= #[trigger] maglev(entries, m)[s] < entries.len(),
{
    lemma_claims(entries, m, m);
    lemma_all_taken(entries, m);
    assert forall|s: int| 0 <= s < m implies 0 <= #[trigger] maglev(entries, m)[s]
        < entries.len() by {
        assert(claims(entries, m, m)[s] is Some);
    }
}

/// The slots of a table that an entry owns.
pub open spec fn slots_of(table: Seq<int>, e: int) -> Set<int> {
    Set::new(|s: int| 0 <= s < table.len() && table[s] == e)
}

/// Whether a table hands out its slots as some number of rounds does: each entry owns as many slots
/// as it takes turns in so many rounds, and no more than in one round more. Over any number of
/// rounds an entry takes the share of its weight in the largest one, rounded down.
pub open spec fn shares_follow_weights(
    entries: Seq<(Seq<char>, u32)>,
    m: nat,
    rounds: nat,
) -> bool {
    forall|e: int|
        0 <= e < entries.len() ==> {
            &&& (#[trigger] slots_of(maglev(entries, m), e)).finite()
            &&& (rounds * entries[e].1) / top_weight(entries, entries.len()) <= slots_of(
                maglev(entries, m),
                e,
            ).len() <= ((rounds + 1) * entries[e].1) / top_weight(entries, entries.len())
        }
}

/// How often an entry stands in a list of turns.
pub open spec fn times(turns: Seq<int>, e: int) -> nat
    decreases turns.len(),
{
    if turns.len() == 0 {
        0
    } else {
        times(turns.drop_last(), e) + if turns.last() == e {
            1nat
        } else {
            0nat
        }
    }
}

proof fn lemma_times_of_sum(a: Seq<int>, b: Seq<int>, e: int)
    ensures
        times(a + b, e) == times(a, e) + times(b, e),
    decreases b.len(),
{
    if b.len() == 0 {
        assert(a + b =~= a);
    } else {
        assert((a + b).drop_last() =~= a + b.drop_last());
        lemma_times_of_sum(a, b.drop_last(), e);
    }
}

proof fn lemma_times_of_prefix(a: Seq<int>, b: Seq<int>, e: int)
    requires
        a.is_prefix_of(b),
    ensures
        times(a, e) <= times(b, e),
{
    assert(b =~= a + b.skip(a.len() as int));
    lemma_times_of_sum(a, b.skip(a.len() as int), e);
}

proof fn lemma_times_in_round(entries: Seq<(Seq<char>, u32)>, round: int, n: nat, e: int)
    requires
        0 <= e,
    ensures
        times(round_turns(entries, round, n), e) == if e < n && takes_turn(
            entries[e].1 as int,
            top_weight(entries, entries.len()),
            round,
        ) {
            1nat
        } else {
            0nat
        },
    decreases n,
{
    if n > 0 {
        let before = round_turns(entries, round, (n - 1) as nat);
        lemma_times_in_round(entries, round, (n - 1) as nat, e);
        assert(before.push(n - 1).drop_last() =~= before);
    }
}

/// An entry takes its share of the rounds, rounded down.
proof fn lemma_times_in_schedule(entries: Seq<(Seq<char>, u32)>, rounds: nat, e: int)
    requires
        0 <= e < entries.len(),
        top_weight(entries, entries.len()) > 0,
    ensures
        times(schedule(entries, rounds), e) == (rounds * entries[e].1) / top_weight(
            entries,
            entries.len(),
        ),
    decreases rounds,
{
    let top = top_weight(entries, entries.len());
    let w = entries[e].1 as int;
    if rounds == 0 {
        vstd::arithmetic::div_mod::lemma_div_basics(top);
    } else {
        lemma_times_in_schedule(entries, (rounds - 1) as nat, e);
        lemma_times_in_round(entries, rounds as int, entries.len(), e);
        lemma_times_of_sum(
            schedule(entries, (rounds - 1) as nat),
            round_turns(entries, rounds as int, entries.len()),
            e,
        );
        lemma_top_weight(entries, entries.len(), e);
        let x = (rounds - 1) * w;
        assert(rounds * w == x + w) by (nonlinear_arith)
            requires
                x == (rounds - 1) * w,
        ;
        vstd::arithmetic::div_mod::lemma_div_is_ordered(x, x + w, top);
        vstd::arithmetic::div_mod::lemma_div_is_ordered(x + w, x + top, top);
        vstd::arithmetic::div_mod::lemma_div_plus_one(x, top);
    }
}

/// The number of whole rounds among the first `m` turns.
proof fn lemma_whole_rounds(entries: Seq<(Seq<char>, u32)>, m: nat, bound: nat) -> (rounds: nat)
    requires
        top_weight(entries, entries.len()) > 0,
        m < schedule(entries, bound + 1).len(),
    ensures
        rounds <= bound,
        schedule(entries, rounds).len() <= m < schedule(entries, rounds + 1).len(),
    decreases bound,
{
    if schedule(entries, bound).len() <= m {
        bound
    } else {
        lemma_whole_rounds(entries, m, (bound - 1) as nat)
    }
}

/// The slots of an unfinished table that an entry owns.
spec fn claimed(table: Seq<Option<int>>, e: int) -> Set<int> {
    Set::new(|s: int| 0 <= s < table.len() && table[s] == Some(e))
}

/// After `k` turns an entry owns as many slots as it took turns.
proof fn lemma_claims_match_turns(entries: Seq<(Seq<char>, u32)>, m: nat, k: nat, e: int)
    requires
        buildable(entries, m as int),
        k <= m,
    ensures
        claimed(claims(entries, m, k), e).finite(),
        claimed(claims(entries, m, k), e).len() == times(schedule(entries, m).take(k as int), e),
    decreases k,
{
    let table = claims(entries, m, k);
    let turns = schedule(entries, m);
    lemma_schedule_grows(entries, m);
    if k == 0 {
        assert(claimed(table, e) =~= Set::<int>::empty());
    } else {
        let before = claims(entries, m, (k - 1) as nat);
        lemma_claims_match_turns(entries, m, (k - 1) as nat, e);
        lemma_claims(entries, m, (k - 1) as nat);
        let entry = turns[k - 1];
        let address = entries[entry].0;
        let free = lemma_free_place(before, address, m as int);
        let j = lemma_first_free_place(before, address, m as int, free);
        lemma_first_free_unique(before, address, m as int, j);
        lemma_preferences_in_range(address, m as int);
        let slot = preference(address, m as int, j);
        assert(table == before.update(slot, Some(entry)));
        assert(turns.take(k as int).drop_last() =~= turns.take(k - 1));
        if entry == e {
            assert(claimed(table, e) =~= claimed(before, e).insert(slot));
        } else {
            assert(claimed(table, e) =~= claimed(before, e));
        }
    }
}

/// The slots of a table are shared out in proportion to the weights, up to the last round that is
/// not whole.
pub proof fn lemma_shares_follow_weights(entries: Seq<(Seq<char>, u32)>, m: nat) -> (rounds: nat)
    requires
        buildable(entries, m as int),
    ensures
        shares_follow_weights(entries, m, rounds),
{
    let turns = schedule(entries, m);
    let table = maglev(entries, m);
    lemma_schedule_grows(entries, m);
    lemma_schedule_grows(entries, m + 1);
    let rounds = lemma_whole_rounds(entries, m, m);
    lemma_schedule_prefix(entries, rounds, m);
    if rounds < m {
        lemma_schedule_prefix(entries, rounds + 1, m);
    } else {
        lemma_schedule_prefix(entries, m, rounds + 1);
    }
    let used = turns.take(m as int);
    let low = schedule(entries, rounds);
    let high = schedule(entries, rounds + 1);
    assert(low =~= used.subrange(0, low.len() as int));
    assert(used =~= high.subrange(0, m as int));
    lemma_all_taken(entries, m);
    lemma_claims(entries, m, m);
    assert forall|e: int| 0 <= e < entries.len() implies {
        &&& (#[trigger] slots_of(table, e)).finite()
        &&& (rounds * entries[e].1) / top_weight(entries, entries.len()) <= slots_of(table, e).len()
            <= ((rounds + 1) * entries[e].1) / top_weight(entries, entries.len())
    } by {
        lemma_claims_match_turns(entries, m, m, e);
        assert(slots_of(table, e) =~= claimed(claims(entries, m, m), e)) by {
            assert forall|s: int| slots_of(table, e).contains(s) <==> claimed(
                claims(entries, m, m),
                e,
            ).contains(s) by {
                if 0 <= s < m {
                    assert(claims(entries, m, m)[s] is Some);
                }
            }
        }
        lemma_times_of_prefix(low, used, e);
        lemma_times_of_prefix(used, high, e);
        lemma_times_in_schedule(entries, rounds, e);
        lemma_times_in_schedule(entries, rounds + 1, e);
    }
    rounds
}

/// Entries of equal weight own equally many slots, up to one.
pub proof fn lemma_equal_weights_share_evenly(
    entries: Seq<(Seq<char>, u32)>,
    m: nat,
    e: int,
    f: int,
)
    requires
        buildable(entries, m as int),
        0 <= e < entries.len(),
        0 <= f < entries.len(),
        entries[e].1 == entries[f].1,
    ensures
        slots_of(maglev(entries, m), e).len() <= slots_of(maglev(entries, m), f).len() + 1,
{
    let rounds = lemma_shares_follow_weights(entries, m);
    let top = top_weight(entries, entries.len());
    let w = entries[e].1 as int;
    let x = rounds * w;
    assert((rounds + 1) * w == x + w) by (nonlinear_arith)
        requires
            x == rounds * w,
    ;
    lemma_top_weight(entries, entries.len(), e);
    vstd::arithmetic::div_mod::lemma_div_is_ordered(x + w, x + top, top);
    vstd::arithmetic::div_mod::lemma_div_plus_one(x, top);
    assert(slots_of(maglev(entries, m), e).finite());
    assert(slots_of(maglev(entries, m), f).finite());
}

/// An entry without a weight owns no slot.
pub proof fn lemma_weightless_owns_nothing(entries: Seq<(Seq<char>, u32)>, m: nat, e: int)
    requires
        buildable(entries, m as int),
        0 <= e < entries.len(),
        entries[e].1 == 0,
    ensures
        forall|s: int| 0 <= s < m ==> #[trigger] maglev(entries, m)[s] != e,
{
    let rounds = lemma_shares_follow_weights(entries, m);
    let owned = slots_of(maglev(entries, m), e);
    assert((rounds + 1) * 0 == 0) by (nonlinear_arith);
    vstd::arithmetic::div_mod::lemma_div_basics(top_weight(entries, entries.len()));
    assert(owned.finite() && owned.len() == 0);
    assert forall|s: int| 0 <= s < m implies #[trigger] maglev(entries, m)[s] != e by {
        assert(!owned.contains(s));
    }
}

/// The place where the walk of an address stands after `i` steps: it starts at the first word of the
/// hash of the address modulo the table size, and each step goes one more than the second word
/// modulo the table size less one.
pub proof fn lemma_walk_goes_by_the_hash(address: Seq<char>, m: int, i: int)
    ensures
        ({
            let h = crate::hash::murmur3(vstd::utf8::encode_utf8(address), 0);
            preference(address, m, i) == (h.0 as int % m + i * (h.1 as int % (m - 1) + 1)) % m
        }),
{
}

/// Each turn claims, for the entry whose turn it is, the first slot of its walk that no turn before
/// has claimed, and no other slot.
pub proof fn lemma_turn_claims_the_first_free_slot(
    entries: Seq<(Seq<char>, u32)>,
    m: nat,
    k: nat,
) -> (j: int)
    requires
        buildable(entries, m as int),
        k < m,
    ensures
        ({
            let before = claims(entries, m, k);
            let entry = schedule(entries, m)[k as int];
            let address = entries[entry].0;
            let slot = preference(address, m as int, j);
            &&& 0 <= j < m
            &&& 0 <= slot < m
            &&& before[slot] is None
            &&& forall|i: int| 0 <= i < j ==> before[#[trigger] preference(
                address,
                m as int,
                i,
            )] is Some
            &&& claims(entries, m, k + 1)[slot] == Some(entry)
            &&& forall|s: int|
                0 <= s < m && s != slot ==> #[trigger] claims(entries, m, k + 1)[s] == before[s]
        }),
{
    let before = claims(entries, m, k);
    lemma_claims(entries, m, k);
    lemma_schedule_grows(entries, m);
    let address = entries[schedule(entries, m)[k as int]].0;
    let free = lemma_free_place(before, address, m as int);
    let j = lemma_first_free_place(before, address, m as int, free);
    lemma_first_free_unique(before, address, m as int, j);
    lemma_preferences_in_range(address, m as int);
    j
}

proof fn lemma_claim_stays(entries: Seq<(Seq<char>, u32)>, m: nat, k: nat, l: nat, s: int)
    requires
        buildable(entries, m as int),
        k <= l <= m,
        0 <= s < m,
        claims(entries, m, k)[s] is Some,
    ensures
        claims(entries, m, l)[s] == claims(entries, m, k)[s],
    decreases l,
{
    if k < l {
        lemma_claim_stays(entries, m, k, (l - 1) as nat, s);
        let j = lemma_turn_claims_the_first_free_slot(entries, m, (l - 1) as nat);
    }
}

/// A slot belongs to the entry that claims it first: the table starts empty, and whatever is claimed
/// after some turns is so in the finished table.
pub proof fn lemma_claims_are_kept(entries: Seq<(Seq<char>, u32)>, m: nat, k: nat, s: int)
    requires
        buildable(entries, m as int),
        k <= m,
        0 <= s < m,
    ensures
        claims(entries, m, 0)[s] is None,
        claims(entries, m, k)[s] is Some ==> claims(entries, m, k)[s] == Some(
            maglev(entries, m)[s],
        ),
{
    if claims(entries, m, k)[s] is Some {
        lemma_claim_stays(entries, m, k, m, s);
    }
}

/// Over any number of rounds an entry takes as many turns as the largest weight goes into that many
/// times its own weight.
pub proof fn lemma_turns_follow_weights(
    entries: Seq<(Seq<char>, u32)>,
    rounds: nat,
    e: int,
    top: int,
)
    requires
        0 <= e < entries.len(),
        0 <= top < entries.len(),
        entries[top].1 > 0,
        forall|f: int| 0 <= f < entries.len() ==> (#[trigger] entries[f]).1 <= entries[top].1,
    ensures
        times(schedule(entries, rounds), e) == (rounds * entries[e].1) / (entries[top].1 as int),
{
    lemma_top_weight(entries, entries.len(), top);
    let f = lemma_top_exists(entries, entries.len());
    assert(entries[f].1 <= entries[top].1);
    lemma_times_in_schedule(entries, rounds, e);
}

proof fn lemma_round_is_ordered(entries: Seq<(Seq<char>, u32)>, round: int, n: nat)
    ensures
        forall|p: int, q: int|
            0 <= p < q < round_turns(entries, round, n).len() ==> #[trigger] round_turns(
                entries,
                round,
                n,
            )[p] < #[trigger] round_turns(entries, round, n)[q],
    decreases n,
{
    if n > 0 {
        lemma_round_is_ordered(entries, round, (n - 1) as nat);
        lemma_round_prefix(entries, round, (n - 1) as nat, (n - 1) as nat);
    }
}

/// The turns go round by round, and in a round in the order of the entries.
pub proof fn lemma_turns_go_in_order(
    entries: Seq<(Seq<char>, u32)>,
    m: nat,
    round: nat,
    p: int,
    q: int,
)
    requires
        1 <= round <= m,
        schedule(entries, (round - 1) as nat).len() <= p < q < schedule(entries, round).len(),
    ensures
        q < schedule(entries, m).len(),
        schedule(entries, m)[p] == schedule(entries, round)[p],
        schedule(entries, m)[p] < schedule(entries, m)[q],
{
    lemma_schedule_prefix(entries, round, m);
    let n = schedule(entries, (round - 1) as nat).len();
    let turns = round_turns(entries, round as int, entries.len());
    lemma_round_is_ordered(entries, round as int, entries.len());
    assert(schedule(entries, round)[p] == turns[p - n]);
    assert(schedule(entries, round)[q] == turns[q - n]);
    assert(schedule(entries, m)[p] == schedule(entries, round)[p]);
    assert(schedule(entries, m)[q] == schedule(entries, round)[q]);
}

/// The first entry of the largest weight gets the slot that it likes best: the first word of the hash
/// of its address, modulo the size of the table.
pub proof fn lemma_first_of_the_heaviest_gets_its_choice(
    entries: Seq<(Seq<char>, u32)>,
    m: nat,
    e: int,
)
    requires
        buildable(entries, m as int),
        0 <= e < entries.len(),
        forall|f: int| 0 <= f < entries.len() ==> (#[trigger] entries[f]).1 <= entries[e].1,
        forall|f: int| 0 <= f < e ==> (#[trigger] entries[f]).1 < entries[e].1,
    ensures
        maglev(entries, m)[crate::hash::murmur3(
            vstd::utf8::encode_utf8(entries[e].0),
            0,
        ).0 as int % m as int] == e,
{
    let top = top_weight(entries, entries.len());
    lemma_top_weight(entries, entries.len(), e);
    let f = lemma_top_exists(entries, entries.len());
    assert(entries[f].1 <= entries[e].1);
    lemma_no_turn_before(entries, e as nat, e);
    lemma_top_takes_turn(top, 1);
    lemma_schedule_prefix(entries, 1, m);
    lemma_turn(entries, 1, e as nat, m);
    assert(schedule(entries, m)[0] == e);
    let j = lemma_turn_claims_the_first_free_slot(entries, m, 0);
    lemma_walk_start(entries[e].0, m as int);
    lemma_preferences_in_range(entries[e].0, m as int);
    let slot = preference(entries[e].0, m as int, 0);
    if j > 0 {
        assert(claims(entries, m, 0)[slot] is Some);
    }
    lemma_claims_are_kept(entries, m, 1, slot);
}

/// In the first round nobody lighter than the heaviest takes a turn.
proof fn lemma_no_turn_before(entries: Seq<(Seq<char>, u32)>, n: nat, e: int)
    requires
        n <= e < entries.len(),
        top_weight(entries, entries.len()) == entries[e].1,
        forall|f: int| 0 <= f < e ==> (#[trigger] entries[f]).1 < entries[e].1,
    ensures
        round_turns(entries, 1, n).len() == 0,
    decreases n,
{
    if n > 0 {
        lemma_no_turn_before(entries, (n - 1) as nat, e);
        let w = entries[n - 1].1 as int;
        let top = entries[e].1 as int;
        assert(entries[n - 1].1 < entries[e].1);
        vstd::arithmetic::div_mod::lemma_basic_div(w, top);
        vstd::arithmetic::div_mod::lemma_div_basics(top);
    }
}

} // verus!
