//! Execution sequencing decisions.
//!
//! Orders are placed leg by leg; the realized fill of each leg sizes the
//! next.  The decisions — precondition gates, balance clamping, quantity
//! sizing with fallback, order-parameter construction, fill acceptance and
//! amount threading — are pure functions here; the surrounding process
//! performs the network calls and drives them in order.

use vstd::prelude::*;
use crate::decimal::{format_fp, format_u64, spec_format_fp, dec_digits};
use crate::fixed::SCALE;
use crate::models::{Direction, Mode, QuantityError, SymbolInfo, MAX_CYCLE_LENGTH};
use crate::normalize::{validate_quantity, spec_validate_quantity};
use crate::strutil::str_eq;

verus! {

/// The fail-fast gates of the sequencer: trading must be permitted, the
/// cycle must have between three and `MAX_CYCLE_LENGTH` legs, and symbols
/// and directions must pair up.
pub fn execution_preconditions(
    mode: &Mode,
    symbols: &Vec<String>,
    directions: &Vec<Direction>,
) -> (r: bool)
    ensures
        r == ({
            &&& (match *mode {
                Mode::Searcher(_, t) => t,
                Mode::Listener(_, t) => t,
            })
            &&& 3 <= symbols@.len() <= MAX_CYCLE_LENGTH
            &&& symbols@.len() == directions@.len()
        }),
{
    let is_trade = mode.is_trade();
    is_trade && symbols.len() >= 3 && symbols.len() <= MAX_CYCLE_LENGTH && symbols.len()
        == directions.len()
}

/// Clamps the leg's input amount to the available balance.  A zero balance
/// means the leg cannot trade at all.
pub fn clamp_to_balance(amount_in: u64, balance: u64) -> (r: Option<u64>)
    ensures
        balance == 0 ==> r is None,
        balance > 0 && balance < amount_in ==> r == Some(balance),
        balance >= amount_in && balance > 0 ==> r == Some(amount_in),
{
    if balance == 0 {
        None
    } else if balance < amount_in {
        Some(balance)
    } else {
        Some(amount_in)
    }
}

/// Sizes one leg: the normalized quantity when normalization succeeds, the
/// unnormalized quantity otherwise (the filter violation is recoverable by
/// falling back; the venue then accepts or rejects the raw amount).
pub fn size_leg_quantity(
    info: &SymbolInfo,
    quantity: u64,
    general_price: u64,
    direction: &Direction,
) -> (r: (u64, Option<QuantityError>))
    requires
        quantity + 2 * SCALE <= u64::MAX,
    ensures
        r == (match spec_validate_quantity(*info, quantity, general_price, *direction is Forward) {
            Ok(q) => (q, None::<QuantityError>),
            Err(e) => (quantity, Some(e)),
        }),
{
    match validate_quantity(info, quantity, general_price, direction) {
        Ok(q) => (q, None),
        Err(e) => (quantity, Some(e)),
    }
}

/// The form-encoded market-order parameters for one leg.  A Forward leg
/// sells the base amount (`quantity`); a Reverse leg spends the quote
/// amount (`quoteOrderQty`).
pub open spec fn spec_order_query(
    symbol: Seq<char>,
    fwd: bool,
    quantity: u64,
    timestamp_ms: u64,
) -> Seq<char> {
    let side = if fwd {
        "SELL"@
    } else {
        "BUY"@
    };
    let amount_field = if fwd {
        "&type=MARKET&quantity="@
    } else {
        "&type=MARKET&quoteOrderQty="@
    };
    "symbol="@ + symbol + "&side="@ + side + amount_field + spec_format_fp(quantity, 8)
        + "&timestamp="@ + dec_digits(timestamp_ms as nat)
}

/// Builds the market-order parameter string; see [`spec_order_query`].
pub fn build_market_order_query(
    symbol: &str,
    direction: &Direction,
    quantity: u64,
    timestamp_ms: u64,
) -> (r: String)
    requires
        quantity + SCALE <= u64::MAX,
    ensures
        r@ == spec_order_query(symbol@, *direction is Forward, quantity, timestamp_ms),
{
    let mut q = crate::strutil::concat_str("symbol=", symbol);
    q.append("&side=");
    q.append(direction.side());
    match direction {
        Direction::Forward => q.append("&type=MARKET&quantity="),
        Direction::Reverse => q.append("&type=MARKET&quoteOrderQty="),
    }
    let amount = format_fp(quantity, 8);
    q.append(amount.as_str());
    q.append("&timestamp=");
    let ts = format_u64(timestamp_ms);
    q.append(ts.as_str());
    q
}

/// Whether a fill report is acceptable: the order must be fully `FILLED`
/// and must have moved a non-zero base amount.  A rejected fill is fatal to
/// the cycle.
pub open spec fn spec_fill_ok(status: Seq<char>, executed_base_qty: u64) -> bool {
    executed_base_qty != 0 && status == "FILLED"@
}

/// The input amount of the next leg, taken from this leg's realized fill:
/// the quote amount after a Forward leg, the base amount after a Reverse
/// leg.
pub open spec fn spec_next_amount(fwd: bool, executed_base_qty: u64, executed_quote_qty: u64) -> u64 {
    if fwd {
        executed_quote_qty
    } else {
        executed_base_qty
    }
}

/// Accepts or rejects a fill and threads the realized amount into the next
/// leg; see [`spec_fill_ok`] and [`spec_next_amount`].
pub fn thread_fill(
    direction: &Direction,
    status: &str,
    executed_base_qty: u64,
    executed_quote_qty: u64,
) -> (r: Option<u64>)
    ensures
        r is Some <==> spec_fill_ok(status@, executed_base_qty),
        r is Some ==> r->0 == spec_next_amount(
            *direction is Forward,
            executed_base_qty,
            executed_quote_qty,
        ),
{
    if executed_base_qty == 0 || !str_eq(status, "FILLED") {
        return None;
    }
    match direction {
        Direction::Forward => Some(executed_quote_qty),
        Direction::Reverse => Some(executed_base_qty),
    }
}

} // verus!
