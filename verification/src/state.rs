//! Runtime state of the order-flow simulator (speed profile, counters, per-pair
//! statistics) and the exchange's internal fund totals.

use vstd::prelude::*;

use crate::decimal::{checked_add, decimal_checked_add, sum_is_exact, sum_spec, value_lt, Decimal};
use crate::text::{
    lemma_lower_trim_ignores_case, lemma_trim_of_untrimmed, lowercase, lowered_range_is, trim, trim_bounds, uppercase,
};

verus! {

/// How fast the simulator places orders.
#[derive(Debug, Clone, Copy, PartialEq, Eq, Structural)]
pub enum SimulatorProfile {
    Normal,
    Fast,
    Turbo,
    Hyper,
}

/// The name of a profile.
pub open spec fn profile_name(p: SimulatorProfile) -> Seq<char> {
    match p {
        SimulatorProfile::Normal => "normal"@,
        SimulatorProfile::Fast => "fast"@,
        SimulatorProfile::Turbo => "turbo"@,
        SimulatorProfile::Hyper => "hyper"@,
    }
}

/// The profile a lowercase word names: its full name or its first letter.
pub open spec fn profile_named(w: Seq<char>) -> Option<SimulatorProfile> {
    if w == "normal"@ || w == "n"@ {
        Some(SimulatorProfile::Normal)
    } else if w == "fast"@ || w == "f"@ {
        Some(SimulatorProfile::Fast)
    } else if w == "turbo"@ || w == "t"@ {
        Some(SimulatorProfile::Turbo)
    } else if w == "hyper"@ || w == "h"@ {
        Some(SimulatorProfile::Hyper)
    } else {
        None
    }
}

/// `parse` reads back every profile's name and its first letter, and does not
/// depend on the ASCII case of its input.
pub proof fn law_parse_reads_names_in_any_case(p: SimulatorProfile, s: Seq<char>)
    ensures
        profile_named(lowercase(trim(profile_name(p)))) == Some(p),
        profile_named(lowercase(trim(profile_name(p).take(1)))) == Some(p),
        profile_named(lowercase(trim(uppercase(s)))) == profile_named(lowercase(trim(s))),
{
    reveal_strlit("normal");
    reveal_strlit("fast");
    reveal_strlit("turbo");
    reveal_strlit("hyper");
    reveal_strlit("n");
    reveal_strlit("f");
    reveal_strlit("t");
    reveal_strlit("h");
    let w = profile_name(p);
    lemma_trim_of_untrimmed(w);
    lemma_trim_of_untrimmed(w.take(1));
    assert(lowercase(w) =~= w);
    assert(lowercase(w.take(1)) =~= w.take(1));
    match p {
        SimulatorProfile::Normal => assert(w.take(1) =~= "n"@),
        SimulatorProfile::Fast => assert(w.take(1) =~= "f"@),
        SimulatorProfile::Turbo => assert(w.take(1) =~= "t"@),
        SimulatorProfile::Hyper => assert(w.take(1) =~= "h"@),
    }
    lemma_lower_trim_ignores_case(s);
}

impl SimulatorProfile {
    /// The profile's name.
    pub fn as_str(&self) -> (r: &'static str)
        ensures
            r@ == profile_name(*self),
    {
        match self {
            SimulatorProfile::Normal => "normal",
            SimulatorProfile::Fast => "fast",
            SimulatorProfile::Turbo => "turbo",
            SimulatorProfile::Hyper => "hyper",
        }
    }

    /// Parse a profile from a string in a case-insensitive way, ignoring
    /// surrounding whitespace. Also accepts short aliases like `n`, `f`, `t`, `h`.
    pub fn parse(value: &str) -> (r: Option<SimulatorProfile>)
        ensures
            r == profile_named(lowercase(trim(value@))),
    {
        let (lo, hi) = trim_bounds(value);
        if lowered_range_is(value, lo, hi, "normal") || lowered_range_is(value, lo, hi, "n") {
            Some(SimulatorProfile::Normal)
        } else if lowered_range_is(value, lo, hi, "fast") || lowered_range_is(value, lo, hi, "f") {
            Some(SimulatorProfile::Fast)
        } else if lowered_range_is(value, lo, hi, "turbo") || lowered_range_is(value, lo, hi, "t") {
            Some(SimulatorProfile::Turbo)
        } else if lowered_range_is(value, lo, hi, "hyper") || lowered_range_is(value, lo, hi, "h") {
            Some(SimulatorProfile::Hyper)
        } else {
            None
        }
    }
}

impl std::str::FromStr for SimulatorProfile {
    type Err = &'static str;

    fn from_str(s: &str) -> (r: Result<Self, Self::Err>)
        ensures
            match r {
                Ok(p) => profile_named(lowercase(trim(s@))) == Some(p),
                Err(e) => profile_named(lowercase(trim(s@))) is None && e@ == "invalid simulator profile"@,
            },
    {
        match SimulatorProfile::parse(s) {
            Some(p) => Ok(p),
            None => Err("invalid simulator profile"),
        }
    }
}

/// Orders placed and fills reported for one pair.
#[derive(Debug, Clone, Copy, PartialEq, Eq, Structural)]
pub struct SimulatorPairStats {
    pub orders: u64,
    pub fills: u64,
}

/// The simulator's runtime state.
#[derive(Debug, Clone)]
pub struct SimulatorState {
    pub running: bool,
    pub profile: SimulatorProfile,
    pub ticks: u64,
    pub total_orders: u64,
    pub total_fills: u64,
    /// Statistics per pair, each pair once.
    pub pair_stats: Vec<(String, SimulatorPairStats)>,
}

/// The position of the pair with this name (the first one), or `-1`.
pub open spec fn pair_position(s: Seq<(String, SimulatorPairStats)>, name: Seq<char>) -> int {
    if exists|i: int| 0 <= i < s.len() && (#[trigger] s[i]).0@ == name {
        choose|i: int|
            0 <= i < s.len() && (#[trigger] s[i]).0@ == name && forall|k: int| 0 <= k < i ==> s[k].0@ != name
    } else {
        -1
    }
}

/// The statistics after one more order for `pair` that reported `fills` fills:
/// the pair's entry counts one more order and `fills` more fills, or a new entry
/// is appended for a pair not seen before.
pub open spec fn stats_after_order(s: Seq<(String, SimulatorPairStats)>, pair: String, fills: u64) -> Seq<
    (String, SimulatorPairStats),
> {
    let j = pair_position(s, pair@);
    if j >= 0 {
        s.update(
            j,
            (s[j].0, SimulatorPairStats { orders: (s[j].1.orders + 1) as u64, fills: (s[j].1.fills + fills) as u64 }),
        )
    } else {
        s.push((pair, SimulatorPairStats { orders: 1, fills }))
    }
}

/// The statistics after a tick's orders, in order.
pub open spec fn stats_after_orders(s: Seq<(String, SimulatorPairStats)>, results: Seq<(String, u64)>) -> Seq<
    (String, SimulatorPairStats),
>
    decreases results.len(),
{
    if results.len() == 0 {
        s
    } else {
        stats_after_order(stats_after_orders(s, results.drop_last()), results.last().0, results.last().1)
    }
}

/// Total fills reported by a tick's orders.
pub open spec fn fills_of(results: Seq<(String, u64)>) -> int
    decreases results.len(),
{
    if results.len() == 0 {
        0
    } else {
        fills_of(results.drop_last()) + results.last().1
    }
}

/// The fills of all pairs together.
pub open spec fn pair_fills_total(s: Seq<(String, SimulatorPairStats)>) -> int
    decreases s.len(),
{
    if s.len() == 0 {
        0
    } else {
        pair_fills_total(s.drop_last()) + s.last().1.fills
    }
}

/// Replacing one entry changes the total by the difference of its fills.
proof fn lemma_pair_fills_update(s: Seq<(String, SimulatorPairStats)>, j: int, x: (String, SimulatorPairStats))
    requires
        0 <= j < s.len(),
    ensures
        pair_fills_total(s.update(j, x)) == pair_fills_total(s) - s[j].1.fills + x.1.fills,
    decreases s.len(),
{
    let t = s.update(j, x);
    if j < s.len() - 1 {
        assert(t.drop_last() =~= s.drop_last().update(j, x));
        lemma_pair_fills_update(s.drop_last(), j, x);
    } else {
        assert(t.drop_last() =~= s.drop_last());
    }
}

/// No pair has more fills than all pairs together.
proof fn lemma_pair_fills_le_total(s: Seq<(String, SimulatorPairStats)>, j: int)
    requires
        0 <= j < s.len(),
    ensures
        s[j].1.fills <= pair_fills_total(s),
    decreases s.len(),
{
    if s.len() > 0 {
        lemma_pair_fills_total_nonneg(s.drop_last());
        if j < s.len() - 1 {
            lemma_pair_fills_le_total(s.drop_last(), j);
        }
    }
}

/// The total of fills is never negative.
proof fn lemma_pair_fills_total_nonneg(s: Seq<(String, SimulatorPairStats)>)
    ensures
        pair_fills_total(s) >= 0,
    decreases s.len(),
{
    if s.len() > 0 {
        lemma_pair_fills_total_nonneg(s.drop_last());
    }
}

/// A pair named at `i` has a first entry of that name, at or before `i`.
proof fn lemma_some_first_pair(s: Seq<(String, SimulatorPairStats)>, name: Seq<char>, i: int) -> (f: int)
    requires
        0 <= i < s.len(),
        s[i].0@ == name,
    ensures
        0 <= f <= i,
        s[f].0@ == name,
        forall|k: int| 0 <= k < f ==> s[k].0@ != name,
    decreases i,
{
    if exists|k: int| 0 <= k < i && (#[trigger] s[k]).0@ == name {
        let k = choose|k: int| 0 <= k < i && (#[trigger] s[k]).0@ == name;
        lemma_some_first_pair(s, name, k)
    } else {
        i
    }
}

/// `pair_position` is the first entry of the name, or `-1` when there is none.
proof fn lemma_pair_position(s: Seq<(String, SimulatorPairStats)>, name: Seq<char>)
    ensures
        pair_position(s, name) == -1 <==> forall|i: int| 0 <= i < s.len() ==> (#[trigger] s[i]).0@ != name,
        pair_position(s, name) >= 0 ==> {
            let j = pair_position(s, name);
            &&& j < s.len()
            &&& s[j].0@ == name
            &&& forall|k: int| 0 <= k < j ==> s[k].0@ != name
        },
{
    if exists|i: int| 0 <= i < s.len() && (#[trigger] s[i]).0@ == name {
        let w = choose|i: int| 0 <= i < s.len() && (#[trigger] s[i]).0@ == name;
        let f = lemma_some_first_pair(s, name, w);
        assert(0 <= f < s.len() && s[f].0@ == name && forall|k: int| 0 <= k < f ==> s[k].0@ != name);
    }
}

/// Recording an order adds to the statistics: the first entry of its pair counts
/// exactly one more order and exactly `fills` more fills, every other entry is
/// unchanged; a pair not seen before gets a new entry of one order and `fills`
/// fills at the end. Either way the fills of all pairs grow by exactly `fills`.
pub proof fn law_recording_an_order_adds_its_fills(s: Seq<(String, SimulatorPairStats)>, pair: String, fills: u64)
    requires
        forall|i: int| 0 <= i < s.len() ==> (#[trigger] s[i]).1.fills + fills <= u64::MAX,
    ensures
        pair_fills_total(stats_after_order(s, pair, fills)) == pair_fills_total(s) + fills,
        forall|i: int|
            0 <= i < s.len() && (#[trigger] s[i]).0@ == pair@ && (forall|k: int| 0 <= k < i ==> s[k].0@ != pair@)
                ==> {
                let t = stats_after_order(s, pair, fills);
                &&& t.len() == s.len()
                &&& t[i].0 == s[i].0
                &&& s[i].1.orders < u64::MAX ==> t[i].1.orders == s[i].1.orders + 1
                &&& t[i].1.fills == s[i].1.fills + fills
                &&& forall|k: int| 0 <= k < s.len() && k != i ==> t[k] == s[k]
            },
        (forall|i: int| 0 <= i < s.len() ==> (#[trigger] s[i]).0@ != pair@) ==> stats_after_order(s, pair, fills)
            == s.push((pair, SimulatorPairStats { orders: 1, fills })),
{
    lemma_pair_position(s, pair@);
    let j = pair_position(s, pair@);
    if j >= 0 {
        let x = (s[j].0, SimulatorPairStats { orders: (s[j].1.orders + 1) as u64, fills: (s[j].1.fills + fills) as u64 });
        lemma_pair_fills_update(s, j, x);
        assert forall|i: int|
            0 <= i < s.len() && (#[trigger] s[i]).0@ == pair@ && (forall|k: int| 0 <= k < i ==> s[k].0@ != pair@)
                implies i == j by {
            if i < j {
                assert(s[i].0@ != pair@);
            }
            if j < i {
                assert(s[j].0@ != pair@);
            }
        }
    } else {
        let t = s.push((pair, SimulatorPairStats { orders: 1, fills }));
        assert(t.drop_last() =~= s);
    }
}

/// Over a tick, the fills of all pairs grow by exactly the fills its orders
/// reported: starting from zero, the per-pair fills add up to the tick's total.
pub proof fn law_tick_fills_add_up(s: Seq<(String, SimulatorPairStats)>, results: Seq<(String, u64)>)
    requires
        pair_fills_total(s) + fills_of(results) <= u64::MAX,
    ensures
        pair_fills_total(stats_after_orders(s, results)) == pair_fills_total(s) + fills_of(results),
    decreases results.len(),
{
    if results.len() > 0 {
        let init = results.drop_last();
        let last = results.last();
        assert(fills_of(results) == fills_of(init) + last.1);
        law_tick_fills_add_up(s, init);
        let prev = stats_after_orders(s, init);
        assert forall|i: int| 0 <= i < prev.len() implies (#[trigger] prev[i]).1.fills + last.1 <= u64::MAX by {
            lemma_pair_fills_le_total(prev, i);
        }
        law_recording_an_order_adds_its_fills(prev, last.0, last.1);
    }
}

impl SimulatorState {
    /// Each pair appears once, and no pair counts more orders or fills than the
    /// totals.
    pub open spec fn wf(&self) -> bool {
        &&& forall|i: int, k: int|
            0 <= i < k < self.pair_stats@.len() ==> (#[trigger] self.pair_stats@[i]).0@ != (
            #[trigger] self.pair_stats@[k]).0@
        &&& forall|i: int|
            0 <= i < self.pair_stats@.len() ==> (#[trigger] self.pair_stats@[i]).1.orders <= self.total_orders
                && self.pair_stats@[i].1.fills <= self.total_fills
    }

    /// Whether each pair appears once and no pair counts more than the totals.
    pub fn is_wf(&self) -> (r: bool)
        ensures
            r == self.wf(),
    {
        let n = self.pair_stats.len();
        let mut i: usize = 0;
        while i < n
            invariant
                n == self.pair_stats@.len(),
                i <= n,
                forall|a: int, k: int|
                    0 <= a < i && a < k < n ==> (#[trigger] self.pair_stats@[a]).0@ != (
                    #[trigger] self.pair_stats@[k]).0@,
                forall|a: int|
                    0 <= a < i ==> (#[trigger] self.pair_stats@[a]).1.orders <= self.total_orders
                        && self.pair_stats@[a].1.fills <= self.total_fills,
            decreases n - i,
        {
            if self.pair_stats[i].1.orders > self.total_orders || self.pair_stats[i].1.fills > self.total_fills {
                return false;
            }
            let mut k: usize = i + 1;
            while k < n
                invariant
                    n == self.pair_stats@.len(),
                    i < n,
                    i + 1 <= k <= n,
                    forall|b: int| i < b < k ==> self.pair_stats@[i as int].0@ != (#[trigger] self.pair_stats@[b]).0@,
                decreases n - k,
            {
                if self.pair_stats[i].0 == self.pair_stats[k].0 {
                    return false;
                }
                k = k + 1;
            }
            i = i + 1;
        }
        true
    }

    /// Zeroes the tick, order and fill counters, overall and per pair; the pairs,
    /// the profile and whether the simulator runs are kept.
    pub fn reset_counters(&mut self)
        ensures
            old(self).wf() ==> final(self).wf(),
            final(self).running == old(self).running,
            final(self).profile == old(self).profile,
            final(self).ticks == 0,
            final(self).total_orders == 0,
            final(self).total_fills == 0,
            final(self).pair_stats@.len() == old(self).pair_stats@.len(),
            forall|i: int|
                0 <= i < final(self).pair_stats@.len() ==> (#[trigger] final(self).pair_stats@[i]).0 == old(
                    self,
                ).pair_stats@[i].0 && final(self).pair_stats@[i].1 == (SimulatorPairStats { orders: 0, fills: 0 }),
    {
        self.ticks = 0;
        self.total_orders = 0;
        self.total_fills = 0;
        let ghost before = self.pair_stats@;
        let mut i: usize = 0;
        while i < self.pair_stats.len()
            invariant
                self.ticks == 0,
                self.total_orders == 0,
                self.total_fills == 0,
                self.running == old(self).running,
                self.profile == old(self).profile,
                before == old(self).pair_stats@,
                self.pair_stats@.len() == before.len(),
                i <= self.pair_stats@.len(),
                forall|k: int|
                    0 <= k < self.pair_stats@.len() ==> (#[trigger] self.pair_stats@[k]).0 == before[k].0,
                forall|k: int|
                    0 <= k < i ==> (#[trigger] self.pair_stats@[k]).1 == (SimulatorPairStats { orders: 0, fills: 0 }),
            decreases self.pair_stats@.len() - i,
        {
            self.pair_stats[i].1 = SimulatorPairStats { orders: 0, fills: 0 };
            i = i + 1;
        }
    }

    /// The index of the pair with this name, or `None`.
    fn find_pair(&self, pair: &String) -> (r: Option<usize>)
        ensures
            match r {
                Some(j) => j == pair_position(self.pair_stats@, pair@),
                None => pair_position(self.pair_stats@, pair@) == -1,
            },
    {
        let ghost s = self.pair_stats@;
        let mut i: usize = 0;
        while i < self.pair_stats.len()
            invariant
                s == self.pair_stats@,
                i <= s.len(),
                forall|k: int| 0 <= k < i ==> (#[trigger] s[k]).0@ != pair@,
            decreases s.len() - i,
        {
            if self.pair_stats[i].0 == *pair {
                proof {
                    assert(s[i as int].0@ == pair@);
                    let j = pair_position(s, pair@);
                    assert(0 <= j < s.len() && s[j].0@ == pair@);
                    if j < i {
                        assert(s[j].0@ != pair@);
                    }
                    if j > i {
                        assert(s[i as int].0@ != pair@);
                    }
                }
                return Some(i);
            }
            i = i + 1;
        }
        proof {
            assert(!exists|k: int| 0 <= k < s.len() && (#[trigger] s[k]).0@ == pair@);
        }
        None
    }

    /// Counts one order for `pair` that reported `fills` fills, overall and for
    /// the pair (see [`stats_after_order`]).
    pub fn record_order(&mut self, pair: &String, fills: u64)
        requires
            old(self).wf(),
            old(self).total_orders < u64::MAX,
            old(self).total_fills + fills <= u64::MAX,
        ensures
            final(self).wf(),
            final(self).running == old(self).running,
            final(self).profile == old(self).profile,
            final(self).ticks == old(self).ticks,
            final(self).total_orders == old(self).total_orders + 1,
            final(self).total_fills == old(self).total_fills + fills,
            final(self).pair_stats@ == stats_after_order(old(self).pair_stats@, *pair, fills),
    {
        let ghost s = self.pair_stats@;
        self.total_orders = self.total_orders + 1;
        self.total_fills = self.total_fills + fills;
        match self.find_pair(pair) {
            Some(j) => {
                let orders = self.pair_stats[j].1.orders + 1;
                let f = self.pair_stats[j].1.fills + fills;
                self.pair_stats[j].1 = SimulatorPairStats { orders, fills: f };
                proof {
                    assert(self.pair_stats@ =~= stats_after_order(s, *pair, fills));
                }
            },
            None => {
                self.pair_stats.push((pair.clone(), SimulatorPairStats { orders: 1, fills }));
                proof {
                    assert(forall|k: int| 0 <= k < s.len() ==> (#[trigger] s[k]).0@ != pair@);
                }
            },
        }
    }

    /// Records the end of a tick: one more tick, and each order placed during it
    /// (pair and fills reported), in order.
    pub fn finish_tick(&mut self, results: &Vec<(String, u64)>)
        requires
            old(self).wf(),
            old(self).ticks < u64::MAX,
            old(self).total_orders + results@.len() <= u64::MAX,
            old(self).total_fills + fills_of(results@) <= u64::MAX,
        ensures
            final(self).wf(),
            final(self).running == old(self).running,
            final(self).profile == old(self).profile,
            final(self).ticks == old(self).ticks + 1,
            final(self).total_orders == old(self).total_orders + results@.len(),
            final(self).total_fills == old(self).total_fills + fills_of(results@),
            final(self).pair_stats@ == stats_after_orders(old(self).pair_stats@, results@),
    {
        self.ticks = self.ticks + 1;
        let mut i: usize = 0;
        while i < results.len()
            invariant
                self.wf(),
                self.running == old(self).running,
                self.profile == old(self).profile,
                self.ticks == old(self).ticks + 1,
                i <= results@.len(),
                old(self).total_orders + results@.len() <= u64::MAX,
                old(self).total_fills + fills_of(results@) <= u64::MAX,
                self.total_orders == old(self).total_orders + i,
                self.total_fills == old(self).total_fills + fills_of(results@.take(i as int)),
                self.pair_stats@ == stats_after_orders(old(self).pair_stats@, results@.take(i as int)),
            decreases results@.len() - i,
        {
            proof {
                lemma_fills_of_prefix(results@, i as int + 1);
                assert(results@.take(i + 1).drop_last() =~= results@.take(i as int));
            }
            let (pair, fills) = (&results[i].0, results[i].1);
            self.record_order(pair, fills);
            i = i + 1;
        }
        proof {
            assert(results@.take(i as int) =~= results@);
        }
    }
}

/// Fills of a prefix never exceed those of the whole tick.
proof fn lemma_fills_of_prefix(results: Seq<(String, u64)>, n: int)
    requires
        0 <= n <= results.len(),
    ensures
        fills_of(results.take(n)) <= fills_of(results),
        fills_of(results.take(n)) >= 0,
    decreases results.len(),
{
    if n < results.len() {
        lemma_fills_of_prefix(results.drop_last(), n);
        assert(results.drop_last().take(n) =~= results.take(n));
    } else {
        assert(results.take(n) =~= results);
    }
    if results.len() > 0 {
        lemma_fills_of_nonneg(results.drop_last());
    }
    lemma_fills_of_nonneg(results.take(n));
}

proof fn lemma_fills_of_nonneg(results: Seq<(String, u64)>)
    ensures
        fills_of(results) >= 0,
    decreases results.len(),
{
    if results.len() > 0 {
        lemma_fills_of_nonneg(results.drop_last());
    }
}

impl Default for SimulatorState {
    /// Running at the turbo profile, counters at zero, one entry per simulated
    /// pair (BTC, ETH, SOL and BNB against USDT).
    fn default() -> (r: SimulatorState)
        ensures
            r.wf(),
            r.running,
            r.profile == SimulatorProfile::Turbo,
            r.ticks == 0,
            r.total_orders == 0,
            r.total_fills == 0,
            r.pair_stats@.len() == 4,
            r.pair_stats@[0].0@ == "BTC_USDT"@,
            r.pair_stats@[1].0@ == "ETH_USDT"@,
            r.pair_stats@[2].0@ == "SOL_USDT"@,
            r.pair_stats@[3].0@ == "BNB_USDT"@,
            forall|i: int| 0 <= i < 4 ==> (#[trigger] r.pair_stats@[i]).1 == (SimulatorPairStats { orders: 0, fills: 0 }),
    {
        let zero = SimulatorPairStats { orders: 0, fills: 0 };
        let mut pair_stats: Vec<(String, SimulatorPairStats)> = Vec::new();
        pair_stats.push(("BTC_USDT".to_owned(), zero));
        pair_stats.push(("ETH_USDT".to_owned(), zero));
        pair_stats.push(("SOL_USDT".to_owned(), zero));
        pair_stats.push(("BNB_USDT".to_owned(), zero));
        proof {
            reveal_strlit("BTC_USDT");
            reveal_strlit("ETH_USDT");
            reveal_strlit("SOL_USDT");
            reveal_strlit("BNB_USDT");
            let n = pair_stats@;
            assert(n[0].0@[0] != n[1].0@[0]);
            assert(n[0].0@[0] != n[2].0@[0]);
            assert(n[0].0@[1] != n[3].0@[1]);
            assert(n[1].0@[0] != n[2].0@[0]);
            assert(n[1].0@[0] != n[3].0@[0]);
            assert(n[2].0@[0] != n[3].0@[0]);
        }
        SimulatorState {
            running: true,
            profile: SimulatorProfile::Turbo,
            ticks: 0,
            total_orders: 0,
            total_fills: 0,
            pair_stats,
        }
    }
}

/// The exchange's internal USDT totals: its own capital, what users hold, and the
/// two together.
#[derive(Debug)]
pub struct ExchangeFunds {
    pub base_capital_usdt: Decimal,
    pub total_user_usdt: Decimal,
    pub total_exchange_usdt: Decimal,
}

impl ExchangeFunds {
    /// Totals whose exchange total is capital plus user funds, as `rust_decimal`
    /// adds them.
    pub open spec fn wf(&self) -> bool {
        &&& self.base_capital_usdt.wf()
        &&& self.total_user_usdt.wf()
        &&& decimal_checked_add(self.base_capital_usdt, self.total_user_usdt) == Some(self.total_exchange_usdt)
    }

    /// Totals from the exchange's capital and the users' funds. Where the sum
    /// needs no rounding it is exact.
    pub fn new(base_capital_usdt: Decimal, total_user_usdt: Decimal) -> (r: ExchangeFunds)
        requires
            base_capital_usdt.wf(),
            total_user_usdt.wf(),
            decimal_checked_add(base_capital_usdt, total_user_usdt) is Some,
        ensures
            r.wf(),
            r.base_capital_usdt == base_capital_usdt,
            r.total_user_usdt == total_user_usdt,
            sum_is_exact(base_capital_usdt, total_user_usdt) ==> r.total_exchange_usdt == sum_spec(
                base_capital_usdt,
                total_user_usdt,
            ),
    {
        let total_exchange_usdt = checked_add(&base_capital_usdt, &total_user_usdt).unwrap();
        ExchangeFunds { base_capital_usdt, total_user_usdt, total_exchange_usdt }
    }

    /// Adds `delta` (possibly negative) to the users' funds and recomputes the
    /// total, both as `rust_decimal` adds. Where no rounding is needed the users'
    /// funds grow by exactly `delta`.
    pub fn apply_user_delta(&mut self, delta: Decimal)
        requires
            old(self).wf(),
            delta.wf(),
            decimal_checked_add(old(self).total_user_usdt, delta) matches Some(u) && decimal_checked_add(
                old(self).base_capital_usdt,
                u,
            ) is Some,
        ensures
            final(self).wf(),
            final(self).base_capital_usdt == old(self).base_capital_usdt,
            decimal_checked_add(old(self).total_user_usdt, delta) == Some(final(self).total_user_usdt),
            sum_is_exact(old(self).total_user_usdt, delta) ==> final(self).total_user_usdt == sum_spec(
                old(self).total_user_usdt,
                delta,
            ) && final(self).total_user_usdt.units() == old(self).total_user_usdt.units() + delta.units(),
    {
        proof {
            if sum_is_exact(self.total_user_usdt, delta) {
                crate::decimal::lemma_sum_units(self.total_user_usdt, delta);
            }
        }
        self.total_user_usdt = checked_add(&self.total_user_usdt, &delta).unwrap();
        self.total_exchange_usdt = checked_add(&self.base_capital_usdt, &self.total_user_usdt).unwrap();
    }

    /// Adds `delta` to the exchange's capital and recomputes the total, both as
    /// `rust_decimal` adds, unless the capital would become negative, which is
    /// refused and changes nothing.
    pub fn apply_capital_delta(&mut self, delta: Decimal) -> (r: Result<(), &'static str>)
        requires
            old(self).wf(),
            delta.wf(),
            decimal_checked_add(old(self).base_capital_usdt, delta) matches Some(c) && (c.units() >= 0
                ==> decimal_checked_add(c, old(self).total_user_usdt) is Some),
        ensures
            final(self).wf(),
            match r {
                Ok(()) => {
                    &&& decimal_checked_add(old(self).base_capital_usdt, delta) == Some(final(self).base_capital_usdt)
                    &&& final(self).base_capital_usdt.units() >= 0
                    &&& final(self).total_user_usdt == old(self).total_user_usdt
                },
                Err(e) => {
                    &&& decimal_checked_add(old(self).base_capital_usdt, delta).unwrap().units() < 0
                    &&& e@ == "exchange capital cannot be negative"@
                    &&& *final(self) == *old(self)
                },
            },
            sum_is_exact(old(self).base_capital_usdt, delta) ==> decimal_checked_add(
                old(self).base_capital_usdt,
                delta,
            ) == Some(sum_spec(old(self).base_capital_usdt, delta)),
    {
        let next_capital = checked_add(&self.base_capital_usdt, &delta).unwrap();
        let zero = Decimal::zero();
        proof {
            crate::decimal::lemma_zero_units(zero);
        }
        if value_lt(&next_capital, &zero) {
            return Err("exchange capital cannot be negative");
        }
        self.base_capital_usdt = next_capital;
        self.total_exchange_usdt = checked_add(&self.base_capital_usdt, &self.total_user_usdt).unwrap();
        Ok(())
    }
}

} // verus!
