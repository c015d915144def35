//! Core data model: operating mode, leg direction, per-symbol metadata,
//! the error taxonomy, and the process-wide configuration constants.

use vstd::prelude::*;
use crate::strutil::str_eq;

verus! {

/// One fixed-point unit, re-exported for contract readability.
pub use crate::fixed::SCALE;

/// Budget in USD (fixed point) allotted to each starting asset.
pub const USD_BUDGET: u64 = 2_500_000_000;

/// Largest cycle length that the executor accepts.
pub const MAX_CYCLE_LENGTH: usize = 5;

/// Minimum real rate (fixed point) for an opportunity to be acted on:
/// 1.015, i.e. 1.5 percent.
pub const MIN_ARB_THRESH: u64 = 101_500_000;

/// Operating mode of the process: scanning with periodic snapshots, or
/// listening to a live stream.  Each carries `(persist, trade)` flags.
#[derive(Clone, Copy, Debug, PartialEq, Eq, Structural)]
pub enum Mode {
    Searcher(bool, bool),
    Listener(bool, bool),
}

impl Mode {
    /// Whether opportunities found in this mode are persisted.
    pub fn is_store(&self) -> (r: bool)
        ensures
            r == (match *self {
                Mode::Searcher(s, _) => s,
                Mode::Listener(s, _) => s,
            }),
    {
        match self {
            Mode::Searcher(s, _) => *s,
            Mode::Listener(s, _) => *s,
        }
    }

    /// Whether this mode permits placing orders.
    pub fn is_trade(&self) -> (r: bool)
        ensures
            r == (match *self {
                Mode::Searcher(_, t) => t,
                Mode::Listener(_, t) => t,
            }),
    {
        match self {
            Mode::Searcher(_, t) => *t,
            Mode::Listener(_, t) => *t,
        }
    }
}

/// Direction of one trade leg.  `Forward` sells the base asset along the
/// canonical `from+to` symbol and consumes the asks book; `Reverse` buys the
/// base with quote along `to+from` and consumes the bids book.
#[derive(Clone, Copy, Debug, PartialEq, Eq, Structural)]
pub enum Direction {
    Forward,
    Reverse,
}

impl Direction {
    /// The side of the order book this leg consumes.
    pub fn orderbook(&self) -> (r: &'static str)
        ensures
            *self is Forward ==> r@ == "asks"@,
            *self is Reverse ==> r@ == "bids"@,
    {
        match self {
            Direction::Forward => "asks",
            Direction::Reverse => "bids",
        }
    }

    /// The order side submitted to the venue for this leg.
    pub fn side(&self) -> (r: &'static str)
        ensures
            *self is Forward ==> r@ == "SELL"@,
            *self is Reverse ==> r@ == "BUY"@,
    {
        match self {
            Direction::Forward => "SELL",
            Direction::Reverse => "BUY",
        }
    }
}

/// Immutable metadata of one tradable symbol.  The lot and notional filter
/// magnitudes are kept as the venue's decimal strings and parsed on use.
#[derive(Clone, Debug)]
pub struct SymbolInfo {
    pub symbol: String,
    pub base_asset: String,
    pub quote_asset: String,
    pub base_asset_precision: u8,
    pub quote_asset_precision: u8,
    pub min_qty: String,
    pub max_qty: String,
    pub min_notional: String,
    pub max_notional: String,
    pub step_size: String,
}

/// The mathematical view of one symbol's metadata: every string as its
/// character sequence.
pub struct SymbolInfoView {
    pub symbol: Seq<char>,
    pub base_asset: Seq<char>,
    pub quote_asset: Seq<char>,
    pub base_asset_precision: u8,
    pub quote_asset_precision: u8,
    pub min_qty: Seq<char>,
    pub max_qty: Seq<char>,
    pub min_notional: Seq<char>,
    pub max_notional: Seq<char>,
    pub step_size: Seq<char>,
}

impl View for SymbolInfo {
    type V = SymbolInfoView;

    open spec fn view(&self) -> SymbolInfoView {
        SymbolInfoView {
            symbol: self.symbol@,
            base_asset: self.base_asset@,
            quote_asset: self.quote_asset@,
            base_asset_precision: self.base_asset_precision,
            quote_asset_precision: self.quote_asset_precision,
            min_qty: self.min_qty@,
            max_qty: self.max_qty@,
            min_notional: self.min_notional@,
            max_notional: self.max_notional@,
            step_size: self.step_size@,
        }
    }
}

/// Application-wide error, by kind.
#[derive(Clone, Debug)]
pub enum SmartError {
    /// HTTP / websocket / wire-parse failure.
    Transport(String),
    /// A venue response is missing an expected field.
    Schema(String),
    /// A caller-side invariant did not hold.
    Precondition(String),
    /// An order did not fill.
    Execution(String),
    /// A normalized quantity failed a lot or notional filter.
    FilterViolation(QuantityError),
    /// Persisting an opportunity failed.
    Persistence(String),
}

/// Why quantity normalization rejected a request.
#[derive(Clone, Copy, Debug, PartialEq, Eq, Structural)]
pub enum QuantityError {
    InvalidMinQty,
    InvalidMaxQty,
    InvalidStepSize,
    InvalidMinNotional,
    InvalidMaxNotional,
    ZeroQuantity,
    BelowMinQty,
    AboveMaxQty,
    BelowMinNotional,
    AboveMaxNotional,
}

impl QuantityError {
    /// A short description, in place of `Display`.
    pub fn message(&self) -> (r: &'static str)
    {
        match self {
            QuantityError::InvalidMinQty => "invalid minimum quantity filter",
            QuantityError::InvalidMaxQty => "invalid maximum quantity filter",
            QuantityError::InvalidStepSize => "invalid step size filter",
            QuantityError::InvalidMinNotional => "invalid minimum notional filter",
            QuantityError::InvalidMaxNotional => "invalid maximum notional filter",
            QuantityError::ZeroQuantity => "effective quantity after normalization is zero",
            QuantityError::BelowMinQty => "quantity is less than the minimum required",
            QuantityError::AboveMaxQty => "quantity exceeds the maximum limit",
            QuantityError::BelowMinNotional => "total trade value under minimum notional value",
            QuantityError::AboveMaxNotional => "total trade value over maximum notional value",
        }
    }
}

/// The configured starting assets.
pub open spec fn spec_is_asset_holding(s: Seq<char>) -> bool {
    s == "USDT"@ || s == "BTC"@
}

/// Whether `asset` is one of the configured starting holdings.
pub fn is_asset_holding(asset: &str) -> (r: bool)
    ensures
        r == spec_is_asset_holding(asset@),
{
    str_eq(asset, "USDT") || str_eq(asset, "BTC")
}

/// Stablecoins taken at one US dollar.
pub open spec fn spec_is_stablecoin(s: Seq<char>) -> bool {
    s == "USDT"@ || s == "BUSD"@ || s == "USDC"@
}

/// Whether `asset` is a stablecoin taken at one US dollar.
pub fn is_stablecoin(asset: &str) -> (r: bool)
    ensures
        r == spec_is_stablecoin(asset@),
{
    str_eq(asset, "USDT") || str_eq(asset, "BUSD") || str_eq(asset, "USDC")
}

/// The configured fiat exclusion list.
pub open spec fn spec_is_fiat_excluded(s: Seq<char>) -> bool {
    ||| s == "ARS"@
    ||| s == "BIDR"@
    ||| s == "BRL"@
    ||| s == "EUR"@
    ||| s == "GBP"@
    ||| s == "IDRT"@
    ||| s == "NGN"@
    ||| s == "PLN"@
    ||| s == "RON"@
    ||| s == "RUB"@
    ||| s == "TRY"@
    ||| s == "UAH"@
    ||| s == "ZAR"@
}

/// Whether `asset` is on the fiat exclusion list.
pub fn is_fiat_excluded(asset: &str) -> (r: bool)
    ensures
        r == spec_is_fiat_excluded(asset@),
{
    str_eq(asset, "ARS") || str_eq(asset, "BIDR") || str_eq(asset, "BRL") || str_eq(asset, "EUR")
        || str_eq(asset, "GBP") || str_eq(asset, "IDRT") || str_eq(asset, "NGN") || str_eq(
        asset,
        "PLN",
    ) || str_eq(asset, "RON") || str_eq(asset, "RUB") || str_eq(asset, "TRY") || str_eq(
        asset,
        "UAH",
    ) || str_eq(asset, "ZAR")
}

} // verus!
