//! What the administration endpoints report: dashboard metrics, treasury
//! solvency, the listed assets, and the texts of their acknowledgements.

use vstd::prelude::*;
use vstd::string::*;

use crate::decimal::{checked_div, decimal_checked_div, decimal_text, value_lt, Decimal};
use crate::text::{i64_to_string, int_text};

verus! {

/// Dashboard figures.
#[derive(Debug)]
pub struct AdminMetrics {
    pub volume_24h_usdt: String,
    pub total_users: i64,
    pub active_orders: i64,
}

/// The exchange's USDT funds against what it owes its users.
#[derive(Debug)]
pub struct TreasuryMetrics {
    pub total_exchange_funds: String,
    pub total_user_liabilities: String,
    pub solvency_ratio: String,
}

/// A listed asset.
#[derive(Debug)]
pub struct AdminAssetDto {
    pub symbol: String,
    pub name: String,
    pub decimals: i32,
    pub is_active: bool,
}

/// A request to halt a market.
#[derive(Debug)]
pub struct MarketHaltReq {
    pub symbol: String,
}

/// A user as listed to administrators.
#[derive(Debug)]
pub struct UserListDto {
    pub user_id: i64,
    pub username: String,
    pub is_suspended: bool,
}

/// The decimal zero.
pub open spec fn zero_decimal() -> Decimal {
    Decimal { mantissa: 0, scale: 0, negative_zero: false }
}

/// Dashboard figures from the day's traded volume (none when nothing traded), the
/// number of users and the number of open orders.
pub fn admin_metrics(volume_usdt: Option<Decimal>, total_users: i64, active_orders: i64) -> (r: AdminMetrics)
    requires
        volume_usdt matches Some(v) ==> v.wf(),
    ensures
        r.volume_24h_usdt@ == decimal_text(
            match volume_usdt {
                Some(v) => v,
                None => zero_decimal(),
            },
        ),
        r.total_users == total_users,
        r.active_orders == active_orders,
{
    let volume = match volume_usdt {
        Some(v) => v,
        None => Decimal::zero(),
    };
    AdminMetrics { volume_24h_usdt: volume.to_string(), total_users, active_orders }
}

/// The solvency ratio: funds over liabilities when there are liabilities,
/// `"infinity"` otherwise; `None` when the division overflows.
pub open spec fn solvency_ratio_text(total_assets: Decimal, total_liabilities: Decimal) -> Option<Seq<char>> {
    if total_liabilities.units() > 0 {
        match decimal_checked_div(total_assets, total_liabilities) {
            Some(q) => Some(decimal_text(q)),
            None => None,
        }
    } else {
        Some("infinity"@)
    }
}

/// Treasury figures from the exchange's funds and its users' USDT liabilities.
/// `None` exactly when the ratio cannot be computed because the quotient
/// overflows.
pub fn treasury_metrics(total_assets: Decimal, total_liabilities: Decimal) -> (r: Option<TreasuryMetrics>)
    requires
        total_assets.wf(),
        total_liabilities.wf(),
    ensures
        (r is Some) == (solvency_ratio_text(total_assets, total_liabilities) is Some),
        r matches Some(t) ==> {
            &&& t.total_exchange_funds@ == decimal_text(total_assets)
            &&& t.total_user_liabilities@ == decimal_text(total_liabilities)
            &&& Some(t.solvency_ratio@) == solvency_ratio_text(total_assets, total_liabilities)
        },
{
    let zero = Decimal::zero();
    let solvency_ratio = if value_lt(&zero, &total_liabilities) {
        match checked_div(&total_assets, &total_liabilities) {
            Some(q) => q.to_string(),
            None => {
                return None;
            },
        }
    } else {
        String::from_str("infinity")
    };
    Some(
        TreasuryMetrics {
            total_exchange_funds: total_assets.to_string(),
            total_user_liabilities: total_liabilities.to_string(),
            solvency_ratio,
        },
    )
}

/// One listed asset.
fn asset(symbol: &str, name: &str, decimals: i32, is_active: bool) -> (r: AdminAssetDto)
    ensures
        r.symbol@ == symbol@,
        r.name@ == name@,
        r.decimals == decimals,
        r.is_active == is_active,
{
    AdminAssetDto { symbol: String::from_str(symbol), name: String::from_str(name), decimals, is_active }
}

/// The listed assets: Bitcoin and Tether active, Ethereum and Solana not yet.
pub fn listed_assets() -> (r: Vec<AdminAssetDto>)
    ensures
        r@.len() == 4,
        r@[0].symbol@ == "BTC"@ && r@[0].name@ == "Bitcoin"@ && r@[0].decimals == 8 && r@[0].is_active,
        r@[1].symbol@ == "USDT"@ && r@[1].name@ == "Tether"@ && r@[1].decimals == 4 && r@[1].is_active,
        r@[2].symbol@ == "ETH"@ && r@[2].name@ == "Ethereum"@ && r@[2].decimals == 8 && !r@[2].is_active,
        r@[3].symbol@ == "SOL"@ && r@[3].name@ == "Solana"@ && r@[3].decimals == 8 && !r@[3].is_active,
{
    let mut r: Vec<AdminAssetDto> = Vec::new();
    r.push(asset("BTC", "Bitcoin", 8, true));
    r.push(asset("USDT", "Tether", 4, true));
    r.push(asset("ETH", "Ethereum", 8, false));
    r.push(asset("SOL", "Solana", 8, false));
    r
}

/// The acknowledgement of a market halt.
pub fn halt_message(symbol: &str) -> (r: String)
    ensures
        r@ == "Market "@ + symbol@ + " has been halted."@,
{
    let mut r = String::from_str("Market ");
    r.append(symbol);
    r.append(" has been halted.");
    r
}

/// The acknowledgement of a user suspension.
pub fn suspend_message(user_id: i64) -> (r: String)
    ensures
        r@ == "User "@ + int_text(user_id as int) + " has been suspended strictly."@,
{
    let mut r = String::from_str("User ");
    let id = i64_to_string(user_id);
    r.append(id.as_str());
    r.append(" has been suspended strictly.");
    r
}

/// The id of a balance snapshot taken at a Unix timestamp.
pub fn snapshot_id(timestamp: i64) -> (r: String)
    ensures
        r@ == "snap_"@ + int_text(timestamp as int),
{
    let mut r = String::from_str("snap_");
    let ts = i64_to_string(timestamp);
    r.append(ts.as_str());
    r
}

} // verus!
