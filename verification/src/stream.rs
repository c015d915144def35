//! Live top-of-book stream support.
//!
//! The listener subscribes to a multiplexed book-ticker stream; each
//! message updates the price table with the mid price of best ask and best
//! bid.  This module builds the subscription URL, compares ticker sets, and
//! computes mid prices; message decoding lives with the other venue
//! decoders.

use vstd::prelude::*;
use crate::strutil::{ascii_lower, spec_ascii_lower, string_eq};

verus! {

/// The stream portion of the subscription URL for the first `n` tickers:
/// each ticker lowercased with its `@bookTicker` channel, slash-separated.
pub open spec fn spec_streams(tickers: Seq<Seq<char>>, n: int) -> Seq<char>
    decreases n,
{
    if n <= 0 {
        Seq::empty()
    } else if n == 1 {
        spec_ascii_lower(tickers[0]) + "@bookTicker"@
    } else {
        spec_streams(tickers, n - 1) + "/"@ + spec_ascii_lower(tickers[n - 1]) + "@bookTicker"@
    }
}

/// The names of a ticker list.
pub open spec fn ticker_names(tickers: Seq<String>) -> Seq<Seq<char>> {
    tickers.map_values(|s: String| s@)
}

/// Builds the websocket subscription URL for a ticker set.
pub fn stream_url(tickers: &Vec<String>) -> (r: String)
    ensures
        r@ == "wss://stream.binance.com:9443/stream?streams="@ + spec_streams(
            ticker_names(tickers@),
            tickers@.len() as int,
        ),
{
    let mut r = String::new();
    r.append("wss://stream.binance.com:9443/stream?streams=");
    let n = tickers.len();
    let mut i: usize = 0;
    while i < n
        invariant
            n == tickers@.len(),
            i <= n,
            r@ == "wss://stream.binance.com:9443/stream?streams="@ + spec_streams(
                ticker_names(tickers@),
                i as int,
            ),
        decreases n - i,
    {
        if i > 0 {
            r.append("/");
        }
        let low = ascii_lower(tickers[i].as_str());
        r.append(low.as_str());
        r.append("@bookTicker");
        proof {
            assert(ticker_names(tickers@)[i as int] == tickers@[i as int]@);
        }
        i = i + 1;
    }
    r
}

/// Whether two ticker lists name the same tickers in the same order.
pub fn same_tickers(a: &Vec<String>, b: &Vec<String>) -> (r: bool)
    ensures
        r == (ticker_names(a@) == ticker_names(b@)),
{
    if a.len() != b.len() {
        assert(ticker_names(a@).len() != ticker_names(b@).len());
        return false;
    }
    let mut i: usize = 0;
    while i < a.len()
        invariant
            a@.len() == b@.len(),
            i <= a@.len(),
            forall|k: int| 0 <= k < i ==> ticker_names(a@)[k] == ticker_names(b@)[k],
        decreases a@.len() - i,
    {
        if !string_eq(&a[i], &b[i]) {
            assert(ticker_names(a@)[i as int] != ticker_names(b@)[i as int]);
            return false;
        }
        proof {
            assert(ticker_names(a@)[i as int] == ticker_names(b@)[i as int]);
        }
        i = i + 1;
    }
    proof {
        assert(ticker_names(a@) =~= ticker_names(b@));
    }
    true
}

/// The mid price of best ask and best bid: their average, truncated to the
/// fixed-point grid.
pub fn mid_price(best_ask: u64, best_bid: u64) -> (r: u64)
    ensures
        r == (best_ask + best_bid) / 2,
{
    (((best_ask as u128) + (best_bid as u128)) / 2) as u64
}

} // verus!
