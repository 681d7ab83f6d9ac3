//! Decisions of the order-flow simulator: the pace and size of each speed
//! profile, which pairs it trades, how a live ticker symbol maps to a pair, and
//! how a quote's price and size follow from the random draws it is given.

use vstd::prelude::*;

use crate::decimal::{
    checked_add, checked_mul, decimal_checked_add, decimal_checked_mul, decimal_parsed, decimal_round_dp, parse_decimal,
    product_is_exact, product_spec, round_dp, sum_is_exact, sum_spec, to_u64_spec, value_lt, Decimal,
};
use vstd::string::*;

use crate::state::{profile_name, profile_named, SimulatorPairStats, SimulatorProfile, SimulatorState};
use crate::text::{lowercase, same_text, trim, trim_bounds};

verus! {

/// Pace and size of one speed profile.
#[derive(Debug, Clone, Copy)]
pub struct ProfileConfig {
    /// Pause between ticks.
    pub interval_ms: u64,
    /// Orders placed per pair on each tick.
    pub orders_per_pair_per_tick: usize,
    /// Share (per mille) of orders that cross the spread.
    pub aggression_permille: u16,
    /// Largest order amount.
    pub amount_max: Decimal,
}

/// The configuration of each profile: faster profiles tick more often, place more
/// orders, cross the spread more often and place larger orders.
pub open spec fn config_of(profile: SimulatorProfile) -> ProfileConfig {
    match profile {
        SimulatorProfile::Normal => ProfileConfig {
            interval_ms: 550,
            orders_per_pair_per_tick: 3,
            aggression_permille: 450,
            amount_max: Decimal { mantissa: 800, scale: 4, negative_zero: false },
        },
        SimulatorProfile::Fast => ProfileConfig {
            interval_ms: 250,
            orders_per_pair_per_tick: 8,
            aggression_permille: 580,
            amount_max: Decimal { mantissa: 1800, scale: 4, negative_zero: false },
        },
        SimulatorProfile::Turbo => ProfileConfig {
            interval_ms: 120,
            orders_per_pair_per_tick: 16,
            aggression_permille: 700,
            amount_max: Decimal { mantissa: 3500, scale: 4, negative_zero: false },
        },
        SimulatorProfile::Hyper => ProfileConfig {
            interval_ms: 70,
            orders_per_pair_per_tick: 28,
            aggression_permille: 800,
            amount_max: Decimal { mantissa: 5000, scale: 4, negative_zero: false },
        },
    }
}

/// Faster profiles tick more often, place more orders per pair, cross the spread
/// more often and place larger orders: from Normal to Fast to Turbo to Hyper every
/// one of these strictly grows (the pause between ticks strictly shrinks).
pub proof fn law_faster_profiles_trade_more()
    ensures
        config_of(SimulatorProfile::Normal).interval_ms > config_of(SimulatorProfile::Fast).interval_ms,
        config_of(SimulatorProfile::Fast).interval_ms > config_of(SimulatorProfile::Turbo).interval_ms,
        config_of(SimulatorProfile::Turbo).interval_ms > config_of(SimulatorProfile::Hyper).interval_ms,
        config_of(SimulatorProfile::Normal).orders_per_pair_per_tick < config_of(
            SimulatorProfile::Fast,
        ).orders_per_pair_per_tick,
        config_of(SimulatorProfile::Fast).orders_per_pair_per_tick < config_of(
            SimulatorProfile::Turbo,
        ).orders_per_pair_per_tick,
        config_of(SimulatorProfile::Turbo).orders_per_pair_per_tick < config_of(
            SimulatorProfile::Hyper,
        ).orders_per_pair_per_tick,
        config_of(SimulatorProfile::Normal).aggression_permille < config_of(SimulatorProfile::Fast).aggression_permille,
        config_of(SimulatorProfile::Fast).aggression_permille < config_of(SimulatorProfile::Turbo).aggression_permille,
        config_of(SimulatorProfile::Turbo).aggression_permille < config_of(SimulatorProfile::Hyper).aggression_permille,
        config_of(SimulatorProfile::Hyper).aggression_permille <= 1000,
        config_of(SimulatorProfile::Normal).amount_max.units() < config_of(SimulatorProfile::Fast).amount_max.units(),
        config_of(SimulatorProfile::Fast).amount_max.units() < config_of(SimulatorProfile::Turbo).amount_max.units(),
        config_of(SimulatorProfile::Turbo).amount_max.units() < config_of(SimulatorProfile::Hyper).amount_max.units(),
        forall|p: SimulatorProfile| 50 <= #[trigger] config_of(p).interval_ms <= 1000,
{
    crate::decimal::lemma_pow10_pos(24);
    let q = crate::decimal::pow10(24);
    vstd::arithmetic::mul::lemma_mul_strict_inequality(800, 1800, q);
    vstd::arithmetic::mul::lemma_mul_strict_inequality(1800, 3500, q);
    vstd::arithmetic::mul::lemma_mul_strict_inequality(3500, 5000, q);
    assert forall|p: SimulatorProfile| 50 <= #[trigger] config_of(p).interval_ms <= 1000 by {
        match p {
            SimulatorProfile::Normal => {},
            SimulatorProfile::Fast => {},
            SimulatorProfile::Turbo => {},
            SimulatorProfile::Hyper => {},
        }
    }
}

/// The configuration of a profile.
pub fn profile_config(profile: SimulatorProfile) -> (c: ProfileConfig)
    ensures
        c == config_of(profile),
        c.amount_max.wf(),
{
    match profile {
        SimulatorProfile::Normal => ProfileConfig {
            interval_ms: 550,
            orders_per_pair_per_tick: 3,
            aggression_permille: 450,
            amount_max: Decimal::new(800, 4),
        },
        SimulatorProfile::Fast => ProfileConfig {
            interval_ms: 250,
            orders_per_pair_per_tick: 8,
            aggression_permille: 580,
            amount_max: Decimal::new(1800, 4),
        },
        SimulatorProfile::Turbo => ProfileConfig {
            interval_ms: 120,
            orders_per_pair_per_tick: 16,
            aggression_permille: 700,
            amount_max: Decimal::new(3500, 4),
        },
        SimulatorProfile::Hyper => ProfileConfig {
            interval_ms: 70,
            orders_per_pair_per_tick: 28,
            aggression_permille: 800,
            amount_max: Decimal::new(5000, 4),
        },
    }
}

/// How long a stopped worker sleeps before it looks at the simulator state again.
pub const IDLE_POLL_MS: u64 = 400;

/// How old the live price anchors may grow before a running worker refreshes them.
pub const ANCHOR_REFRESH_MS: u64 = 2000;

/// Attempts to fetch live anchors before the first tick, one second apart.
pub const WARM_UP_ATTEMPTS: u32 = 10;

/// Whether the worker keeps trying to fetch live anchors before its first tick:
/// it stops once anchors were found, or after the last of its attempts.
pub fn keep_warming_up(attempts_made: u32, anchors_found: bool) -> (r: bool)
    ensures
        r == (!anchors_found && attempts_made < WARM_UP_ATTEMPTS),
{
    !anchors_found && attempts_made < WARM_UP_ATTEMPTS
}

/// The anchor a pair is quoted around: its live price when there is one, else its
/// last trade price; no anchor (the pair is skipped) when there is neither.
pub fn pair_anchor(live: Option<Decimal>, last_trade: Option<Decimal>) -> (r: Option<Decimal>)
    ensures
        r == (match live {
            Some(p) => Some(p),
            None => last_trade,
        }),
{
    match live {
        Some(p) => Some(p),
        None => last_trade,
    }
}

/// What the simulator worker does in one round of its loop.
#[derive(Debug, Clone, Copy)]
pub enum WorkerAction {
    /// The simulator is stopped: sleep `sleep_ms`, then look again.
    Wait { sleep_ms: u64 },
    /// The simulator runs: refresh the live anchors first when asked, run one tick
    /// under `config`, then sleep `config.interval_ms`.
    Tick { refresh_anchors: bool, config: ProfileConfig },
}

/// The worker's next round, from whether the simulator runs, its profile, and the
/// milliseconds since the anchors were last refreshed.
pub fn worker_action(running: bool, profile: SimulatorProfile, since_refresh_ms: u64) -> (r: WorkerAction)
    ensures
        r == (if running {
            WorkerAction::Tick { refresh_anchors: since_refresh_ms >= ANCHOR_REFRESH_MS, config: config_of(profile) }
        } else {
            WorkerAction::Wait { sleep_ms: IDLE_POLL_MS }
        }),
{
    if !running {
        return WorkerAction::Wait { sleep_ms: IDLE_POLL_MS };
    }
    WorkerAction::Tick { refresh_anchors: since_refresh_ms >= ANCHOR_REFRESH_MS, config: profile_config(profile) }
}

/// The pairs the simulator trades: symbol, base asset, quote asset.
pub fn simulated_pairs() -> (r: Vec<(&'static str, &'static str, &'static str)>)
    ensures
        r@.len() == 4,
        r@[0].0@ == "BTC_USDT"@ && r@[0].1@ == "BTC"@ && r@[0].2@ == "USDT"@,
        r@[1].0@ == "ETH_USDT"@ && r@[1].1@ == "ETH"@ && r@[1].2@ == "USDT"@,
        r@[2].0@ == "SOL_USDT"@ && r@[2].1@ == "SOL"@ && r@[2].2@ == "USDT"@,
        r@[3].0@ == "BNB_USDT"@ && r@[3].1@ == "BNB"@ && r@[3].2@ == "USDT"@,
{
    let mut r: Vec<(&'static str, &'static str, &'static str)> = Vec::new();
    r.push(("BTC_USDT", "BTC", "USDT"));
    r.push(("ETH_USDT", "ETH", "USDT"));
    r.push(("SOL_USDT", "SOL", "USDT"));
    r.push(("BNB_USDT", "BNB", "USDT"));
    r
}

/// The pair a live ticker symbol stands for.
pub open spec fn ticker_pair(symbol: Seq<char>) -> Option<Seq<char>> {
    if symbol == "BTCUSDT"@ {
        Some("BTC_USDT"@)
    } else if symbol == "ETHUSDT"@ {
        Some("ETH_USDT"@)
    } else if symbol == "SOLUSDT"@ {
        Some("SOL_USDT"@)
    } else if symbol == "BNBUSDT"@ {
        Some("BNB_USDT"@)
    } else {
        None
    }
}

/// The pair a live ticker symbol (`BTCUSDT`, ...) stands for, if the simulator
/// trades it.
pub fn ticker_symbol_to_pair(symbol: &str) -> (r: Option<&'static str>)
    ensures
        (r is Some) == (ticker_pair(symbol@) is Some),
        r matches Some(p) ==> ticker_pair(symbol@) == Some(p@),
{
    if same_text(symbol, "BTCUSDT") {
        Some("BTC_USDT")
    } else if same_text(symbol, "ETHUSDT") {
        Some("ETH_USDT")
    } else if same_text(symbol, "SOLUSDT") {
        Some("SOL_USDT")
    } else if same_text(symbol, "BNBUSDT") {
        Some("BNB_USDT")
    } else {
        None
    }
}

/// Whether an order crosses the spread: the draw (out of a thousand) falls below
/// the profile's aggression.
pub fn is_aggressive(roll: u32, aggression_permille: u16) -> (r: bool)
    ensures
        r == (roll < aggression_permille),
{
    roll < aggression_permille as u32
}

/// Offset of a quote from the anchor price, in basis points: an aggressive order
/// crosses by `near` (buys above, sells below the anchor), a passive one stays
/// `far` away on its own side.
pub fn quote_offset_bps(is_buy: bool, aggressive: bool, near: i64, far: i64) -> (r: i64)
    requires
        near >= 0,
        far >= 0,
    ensures
        r == (if is_buy {
            if aggressive {
                near as int
            } else {
                -far
            }
        } else if aggressive {
            -near
        } else {
            far as int
        }),
{
    if is_buy {
        if aggressive {
            near
        } else {
            -far
        }
    } else if aggressive {
        -near
    } else {
        far
    }
}

/// One cent.
pub open spec fn cent() -> Decimal {
    Decimal { mantissa: 1, scale: 2, negative_zero: false }
}

/// `bps` basis points as a decimal.
pub open spec fn bps_decimal(bps: i64) -> Decimal {
    Decimal { mantissa: bps as i128, scale: 4, negative_zero: false }
}

/// The anchor moved by `bps` basis points as `rust_decimal` computes it
/// (`anchor + anchor * bps/10^4`), or `None` when the product or the sum
/// overflows (where `*` and `+` panic).
pub open spec fn shifted_price(anchor: Decimal, bps: i64) -> Option<Decimal> {
    match decimal_checked_mul(anchor, bps_decimal(bps)) {
        Some(m) => decimal_checked_add(anchor, m),
        None => None,
    }
}

/// Whether moving the anchor needs no rounding.
pub open spec fn shift_is_exact(anchor: Decimal, bps: i64) -> bool {
    &&& product_is_exact(anchor, bps_decimal(bps))
    &&& sum_is_exact(anchor, product_spec(anchor, bps_decimal(bps)))
}

/// The price of a quote: the anchor moved by `bps` basis points, at least one
/// cent, rounded to cents; `None` when moving the anchor overflows.
pub open spec fn quote_price(anchor: Decimal, bps: i64) -> Option<Decimal> {
    match shifted_price(anchor, bps) {
        Some(p) => Some(decimal_round_dp(if p.units() < cent().units() { cent() } else { p }, 2)),
        None => None,
    }
}

/// The price of a quote (see [`quote_price`]). Where no rounding is needed the
/// anchor moves exactly.
pub fn order_price(anchor: Decimal, bps: i64) -> (r: Option<Decimal>)
    requires
        anchor.wf(),
    ensures
        r == quote_price(anchor, bps),
        shift_is_exact(anchor, bps) ==> shifted_price(anchor, bps) == Some(
            sum_spec(anchor, product_spec(anchor, bps_decimal(bps))),
        ),
{
    let step = Decimal::new(bps, 4);
    let moved = match checked_mul(&anchor, &step) {
        Some(m) => m,
        None => {
            return None;
        },
    };
    let mut price = match checked_add(&anchor, &moved) {
        Some(p) => p,
        None => {
            return None;
        },
    };
    let floor = Decimal::new(1, 2);
    if value_lt(&price, &floor) {
        price = floor;
    }
    Some(round_dp(&price, 2))
}

/// The largest order size in units of `10^-4`: the profile's largest amount
/// scaled up (as `rust_decimal`'s `*` computes it), truncated, and at least ten
/// (ten also when it does not fit in 64 bits); `None` when scaling up overflows.
pub open spec fn max_units_of(amount_max: Decimal) -> Option<u64> {
    match decimal_checked_mul(amount_max, Decimal { mantissa: 10000, scale: 0, negative_zero: false }) {
        Some(scaled) => {
            let n = match to_u64_spec(scaled) {
                Some(v) => v,
                None => 10,
            };
            Some(
                if n >= 10 {
                    n
                } else {
                    10
                },
            )
        },
        None => None,
    }
}

/// The largest order size in units of `10^-4` (see [`max_units_of`]). Where no
/// rounding is needed the amount is scaled up exactly.
pub fn max_order_units(amount_max: Decimal) -> (r: Option<u64>)
    requires
        amount_max.wf(),
    ensures
        r == max_units_of(amount_max),
        product_is_exact(amount_max, Decimal { mantissa: 10000, scale: 0, negative_zero: false }) ==> decimal_checked_mul(
            amount_max,
            Decimal { mantissa: 10000, scale: 0, negative_zero: false },
        ) == Some(product_spec(amount_max, Decimal { mantissa: 10000, scale: 0, negative_zero: false })),
{
    let scale_up = Decimal::new(10_000, 0);
    let scaled = match checked_mul(&amount_max, &scale_up) {
        Some(v) => v,
        None => {
            return None;
        },
    };
    let n = match scaled.to_u64() {
        Some(v) => v,
        None => 10,
    };
    if n >= 10 {
        Some(n)
    } else {
        Some(10)
    }
}

/// An order amount from a number of `10^-4` units.
pub fn order_amount(units: u64) -> (r: Decimal)
    requires
        units <= i64::MAX,
    ensures
        r.wf(),
        r.mantissa == units,
        r.scale == 4,
{
    Decimal::new(units as i64, 4)
}

/// Orders and fills of one pair, as reported.
#[derive(Debug, Clone, Copy, PartialEq, Eq)]
pub struct PairStatsDto {
    pub orders: u64,
    pub fills: u64,
}

/// The simulator's state as reported.
#[derive(Debug)]
pub struct SimulatorStatusResponse {
    pub running: bool,
    pub profile: String,
    pub ticks: u64,
    pub total_orders: u64,
    pub total_fills: u64,
    pub pair_stats: Vec<(String, PairStatsDto)>,
}

/// A request to start the simulator, optionally at another profile.
#[derive(Debug)]
pub struct StartSimulatorRequest {
    pub profile: Option<String>,
}

/// A request to change the simulator's profile.
#[derive(Debug)]
pub struct ProfileRequest {
    pub profile: String,
}

/// The answer to a simulator command.
#[derive(Debug)]
pub struct SimulatorActionResponse {
    pub ok: bool,
    pub running: bool,
    pub profile: String,
}

/// The answer to a command: whether the simulator runs, and its profile.
pub fn action_response(sim: &SimulatorState) -> (r: SimulatorActionResponse)
    ensures
        r.ok,
        r.running == sim.running,
        r.profile@ == profile_name(sim.profile),
{
    SimulatorActionResponse { ok: true, running: sim.running, profile: String::from_str(sim.profile.as_str()) }
}

/// The simulator's state as reported: flags, counters, and each pair's figures.
pub fn simulator_status(sim: &SimulatorState) -> (r: SimulatorStatusResponse)
    ensures
        r.running == sim.running,
        r.profile@ == profile_name(sim.profile),
        r.ticks == sim.ticks,
        r.total_orders == sim.total_orders,
        r.total_fills == sim.total_fills,
        r.pair_stats@.len() == sim.pair_stats@.len(),
        forall|i: int|
            0 <= i < r.pair_stats@.len() ==> (#[trigger] r.pair_stats@[i]).0@ == sim.pair_stats@[i].0@ && r.pair_stats@[i].1
                == (PairStatsDto { orders: sim.pair_stats@[i].1.orders, fills: sim.pair_stats@[i].1.fills }),
{
    let mut pair_stats: Vec<(String, PairStatsDto)> = Vec::new();
    let mut i: usize = 0;
    while i < sim.pair_stats.len()
        invariant
            i <= sim.pair_stats@.len(),
            pair_stats@.len() == i,
            forall|k: int|
                0 <= k < i ==> (#[trigger] pair_stats@[k]).0@ == sim.pair_stats@[k].0@ && pair_stats@[k].1 == (
                PairStatsDto { orders: sim.pair_stats@[k].1.orders, fills: sim.pair_stats@[k].1.fills }),
        decreases sim.pair_stats@.len() - i,
    {
        let stats = sim.pair_stats[i].1;
        pair_stats.push((sim.pair_stats[i].0.clone(), PairStatsDto { orders: stats.orders, fills: stats.fills }));
        i = i + 1;
    }
    SimulatorStatusResponse {
        running: sim.running,
        profile: String::from_str(sim.profile.as_str()),
        ticks: sim.ticks,
        total_orders: sim.total_orders,
        total_fills: sim.total_fills,
        pair_stats,
    }
}

/// Starts the simulator, switching first to the requested profile if one is given;
/// an unknown profile is refused and changes nothing.
pub fn start_simulator(sim: &mut SimulatorState, request: &StartSimulatorRequest) -> (r: Result<
    SimulatorActionResponse,
    &'static str,
>)
    ensures
        old(sim).wf() ==> final(sim).wf(),
        match r {
            Ok(resp) => {
                &&& final(sim).running
                &&& final(sim).profile == (match request.profile {
                    Some(text) => profile_named(lowercase(trim(text@))).unwrap(),
                    None => old(sim).profile,
                })
                &&& (request.profile matches Some(text) ==> profile_named(lowercase(trim(text@))) is Some)
                &&& resp.ok && resp.running
                &&& resp.profile@ == profile_name(final(sim).profile)
                &&& final(sim).ticks == old(sim).ticks && final(sim).pair_stats == old(sim).pair_stats
                &&& final(sim).total_orders == old(sim).total_orders
                &&& final(sim).total_fills == old(sim).total_fills
            },
            Err(e) => {
                &&& request.profile matches Some(text) && profile_named(lowercase(trim(text@))) is None
                &&& e@ == "invalid simulator profile"@
                &&& *final(sim) == *old(sim)
            },
        },
{
    match &request.profile {
        Some(text) => {
            match SimulatorProfile::parse(text.as_str()) {
                Some(p) => {
                    sim.profile = p;
                },
                None => {
                    return Err("invalid simulator profile");
                },
            }
        },
        None => {},
    }
    sim.running = true;
    Ok(action_response(sim))
}

/// Stops the simulator.
pub fn stop_simulator(sim: &mut SimulatorState) -> (r: SimulatorActionResponse)
    ensures
        old(sim).wf() ==> final(sim).wf(),
        !final(sim).running,
        final(sim).profile == old(sim).profile,
        final(sim).ticks == old(sim).ticks,
        final(sim).total_orders == old(sim).total_orders,
        final(sim).total_fills == old(sim).total_fills,
        final(sim).pair_stats == old(sim).pair_stats,
        !r.running && r.ok,
        r.profile@ == profile_name(old(sim).profile),
{
    sim.running = false;
    action_response(sim)
}

/// Zeroes the simulator's counters (see `SimulatorState::reset_counters`).
pub fn reset_simulator(sim: &mut SimulatorState) -> (r: SimulatorActionResponse)
    ensures
        old(sim).wf() ==> final(sim).wf(),
        final(sim).ticks == 0,
        final(sim).total_orders == 0,
        final(sim).total_fills == 0,
        final(sim).running == old(sim).running,
        final(sim).profile == old(sim).profile,
        final(sim).pair_stats@.len() == old(sim).pair_stats@.len(),
        forall|i: int|
            0 <= i < final(sim).pair_stats@.len() ==> (#[trigger] final(sim).pair_stats@[i]).0 == old(
                sim,
            ).pair_stats@[i].0 && final(sim).pair_stats@[i].1 == (SimulatorPairStats { orders: 0, fills: 0 }),
        r.running == old(sim).running && r.ok,
        r.profile@ == profile_name(old(sim).profile),
{
    sim.reset_counters();
    action_response(sim)
}

/// Switches the simulator's profile; an unknown profile is refused and changes
/// nothing.
pub fn set_simulator_profile(sim: &mut SimulatorState, request: &ProfileRequest) -> (r: Result<
    SimulatorActionResponse,
    &'static str,
>)
    ensures
        old(sim).wf() ==> final(sim).wf(),
        match r {
            Ok(resp) => {
                &&& profile_named(lowercase(trim(request.profile@))) == Some(final(sim).profile)
                &&& final(sim).running == old(sim).running
                &&& final(sim).ticks == old(sim).ticks
                &&& final(sim).total_orders == old(sim).total_orders
                &&& final(sim).total_fills == old(sim).total_fills
                &&& final(sim).pair_stats == old(sim).pair_stats
                &&& resp.ok && resp.running == old(sim).running
                &&& resp.profile@ == profile_name(final(sim).profile)
            },
            Err(e) => {
                &&& profile_named(lowercase(trim(request.profile@))) is None
                &&& e@ == "invalid simulator profile"@
                &&& *final(sim) == *old(sim)
            },
        },
{
    match SimulatorProfile::parse(request.profile.as_str()) {
        Some(p) => {
            sim.profile = p;
            Ok(action_response(sim))
        },
        None => Err("invalid simulator profile"),
    }
}

/// The anchor a live ticker gives: its pair and its last price, when the pair is
/// simulated and the trimmed price text is a positive decimal.
pub open spec fn anchor_from(symbol: Seq<char>, last_price: Seq<char>) -> Option<(Seq<char>, Decimal)> {
    match ticker_pair(symbol) {
        None => None,
        Some(p) => match decimal_parsed(trim(last_price)) {
            Some(d) => if d.mantissa > 0 {
                Some((p, d))
            } else {
                None
            },
            None => None,
        },
    }
}

/// The anchor a live ticker gives (see [`anchor_from`]).
pub fn live_anchor(symbol: &str, last_price: &str) -> (r: Option<(&'static str, Decimal)>)
    ensures
        (r is Some) == (anchor_from(symbol@, last_price@) is Some),
        r matches Some(x) ==> anchor_from(symbol@, last_price@) == Some((x.0@, x.1)),
{
    let pair = match ticker_symbol_to_pair(symbol) {
        Some(p) => p,
        None => {
            return None;
        },
    };
    let (lo, hi) = trim_bounds(last_price);
    let trimmed = last_price.substring_char(lo, hi);
    match parse_decimal(trimmed) {
        Some(d) => {
            if !d.is_sign_negative() && !d.is_zero() {
                Some((pair, d))
            } else {
                None
            }
        },
        None => None,
    }
}

} // verus!
