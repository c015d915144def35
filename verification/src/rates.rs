//! Rate-graph edge construction from symbol metadata and last prices.
//!
//! For every admitted symbol with a known positive price `p`, the builder
//! emits the pair of directed rates `(base, quote, p)` and
//! `(quote, base, 1/p)`.  Symbols without a price, or with price zero, emit
//! nothing.  Every emitted rate is positive.

use vstd::prelude::*;
use crate::fixed::{recip_fp, SCALE};
use crate::models::SymbolInfo;
use crate::strutil::str_eq;

verus! {

/// A rate triple by view: source currency, target currency, fixed-point rate.
pub open spec fn triple_view(t: (String, String, u64)) -> (Seq<char>, Seq<char>, u64) {
    (t.0@, t.1@, t.2)
}

/// Largest price whose reciprocal is still a positive fixed-point value:
/// `SCALE^2`.
pub const RATE_MAX: u64 = 10_000_000_000_000_000;

/// The reciprocal rate: `SCALE^2 / p`, truncated.
pub open spec fn spec_recip(p: u64) -> u64 {
    (((SCALE * SCALE) as int) / (p as int)) as u64
}

/// The price recorded for a symbol, if any; on duplicate entries the last
/// one wins, as a snapshot overwrites earlier readings.
pub open spec fn price_of(prices: Seq<(String, u64)>, sym: Seq<char>) -> Option<u64>
    decreases prices.len(),
{
    if prices.len() == 0 {
        None
    } else if prices.last().0@ == sym {
        Some(prices.last().1)
    } else {
        price_of(prices.drop_last(), sym)
    }
}

/// The rate triples built from the first `n` symbols.
pub open spec fn rate_triples(
    symbols: Seq<SymbolInfo>,
    prices: Seq<(String, u64)>,
    n: int,
) -> Seq<(Seq<char>, Seq<char>, u64)>
    decreases n,
{
    if n <= 0 {
        Seq::empty()
    } else {
        let head = rate_triples(symbols, prices, n - 1);
        let s = symbols[n - 1];
        match price_of(prices, s.symbol@) {
            Some(p) => {
                if 0 < p <= RATE_MAX {
                    head.push((s.base_asset@, s.quote_asset@, p)).push(
                        (s.quote_asset@, s.base_asset@, spec_recip(p)),
                    )
                } else {
                    head
                }
            },
            None => head,
        }
    }
}

/// Looks a symbol's price up; the last matching entry wins.
pub fn lookup_price(prices: &Vec<(String, u64)>, sym: &str) -> (r: Option<u64>)
    ensures
        r == price_of(prices@, sym@),
{
    let n = prices.len();
    proof {
        assert(prices@.subrange(0, n as int) =~= prices@);
    }
    let mut i: usize = n;
    while i > 0
        invariant
            n == prices@.len(),
            i <= n,
            price_of(prices@, sym@) == price_of(prices@.subrange(0, i as int), sym@),
        decreases i,
    {
        proof {
            assert(prices@.subrange(0, i as int).drop_last() =~= prices@.subrange(0, i - 1));
            assert(prices@.subrange(0, i as int).last() == prices@[i - 1]);
        }
        if str_eq(prices[i - 1].0.as_str(), sym) {
            return Some(prices[i - 1].1);
        }
        i = i - 1;
    }
    proof {
        assert(prices@.subrange(0, 0).len() == 0);
    }
    None
}

/// Combines symbol metadata and prices into rate triples: for each symbol
/// with a known positive price `p`, both `(base, quote, p)` and
/// `(quote, base, 1/p)`.  Pure: identical inputs give identical triples.
pub fn create_exchange_rates(symbols: &Vec<SymbolInfo>, prices: &Vec<(String, u64)>) -> (r: Vec<
    (String, String, u64),
>)
    ensures
        r@.map_values(|t: (String, String, u64)| triple_view(t)) == rate_triples(
            symbols@,
            prices@,
            symbols@.len() as int,
        ),
        forall|i: int| 0 <= i < r@.len() ==> (#[trigger] r@[i]).2 >= 1,
        r@.len() <= 2 * symbols@.len(),
{
    let mut r: Vec<(String, String, u64)> = Vec::new();
    let n = symbols.len();
    let mut i: usize = 0;
    while i < n
        invariant
            n == symbols@.len(),
            i <= n,
            r@.map_values(|t: (String, String, u64)| triple_view(t)) == rate_triples(
                symbols@,
                prices@,
                i as int,
            ),
            forall|k: int| 0 <= k < r@.len() ==> (#[trigger] r@[k]).2 >= 1,
            r@.len() <= 2 * i,
        decreases n - i,
    {
        let ghost pre = r@;
        match lookup_price(prices, symbols[i].symbol.as_str()) {
            Some(p) => {
                if p > 0 && p <= RATE_MAX {
                    let fwd = (
                        symbols[i].base_asset.clone(),
                        symbols[i].quote_asset.clone(),
                        p,
                    );
                    let back_rate = recip_fp(p);
                    let bck = (
                        symbols[i].quote_asset.clone(),
                        symbols[i].base_asset.clone(),
                        back_rate,
                    );
                    r.push(fwd);
                    r.push(bck);
                    proof {
                        assert(back_rate >= 1) by {
                            vstd::arithmetic::div_mod::lemma_div_is_ordered(
                                RATE_MAX as int,
                                (SCALE * SCALE) as int,
                                p as int,
                            );
                            vstd::arithmetic::div_mod::lemma_div_is_ordered_by_denominator(
                                RATE_MAX as int,
                                p as int,
                                RATE_MAX as int,
                            );
                            vstd::arithmetic::div_mod::lemma_div_by_self(RATE_MAX as int);
                        }
                    }
                }
            },
            None => {},
        }
        proof {
            let f = |t: (String, String, u64)| triple_view(t);
            assert(r@.map_values(f) =~= rate_triples(symbols@, prices@, i + 1)) by {
                assert(pre.map_values(f) == rate_triples(symbols@, prices@, i as int));
                assert forall|k: int| 0 <= k < r@.len() implies r@.map_values(f)[k]
                    == rate_triples(symbols@, prices@, i + 1)[k] by {
                    if k < pre.len() {
                        assert(r@[k] == pre[k]);
                        assert(pre.map_values(f)[k] == f(pre[k]));
                    }
                }
            }
        }
        i = i + 1;
    }
    r
}

/// Rate symmetry: a symbol with positive price `p` contributes both the
/// forward rate `p` and the reverse rate `1/p`, and their product differs
/// from one (i.e. `SCALE^2` at doubled scale) by less than one part in `p`.
pub proof fn lemma_rate_symmetry(
    symbols: Seq<SymbolInfo>,
    prices: Seq<(String, u64)>,
    i: int,
    p: u64,
)
    requires
        0 <= i < symbols.len(),
        price_of(prices, symbols[i].symbol@) == Some(p),
        0 < p <= RATE_MAX,
    ensures
        rate_triples(symbols, prices, symbols.len() as int).contains(
            (symbols[i].base_asset@, symbols[i].quote_asset@, p),
        ),
        rate_triples(symbols, prices, symbols.len() as int).contains(
            (symbols[i].quote_asset@, symbols[i].base_asset@, spec_recip(p)),
        ),
        (SCALE * SCALE) - p < p * spec_recip(p) <= SCALE * SCALE,
{
    lemma_rate_triples_contain(symbols, prices, i, p, symbols.len() as int);
    vstd::arithmetic::div_mod::lemma_fundamental_div_mod((SCALE * SCALE) as int, p as int);
    vstd::arithmetic::div_mod::lemma_mod_division_less_than_divisor(
        (SCALE * SCALE) as int,
        p as int,
    );
    let q = ((SCALE * SCALE) as int) / (p as int);
    assert(p * q == (SCALE * SCALE) - ((SCALE * SCALE) as int % (p as int)));
    assert(q <= (SCALE * SCALE) as int) by {
        vstd::arithmetic::div_mod::lemma_div_is_ordered(
            q,
            (SCALE * SCALE) as int,
            1,
        );
    }
    assert(spec_recip(p) == q);
}

proof fn lemma_rate_triples_contain(
    symbols: Seq<SymbolInfo>,
    prices: Seq<(String, u64)>,
    i: int,
    p: u64,
    n: int,
)
    requires
        0 <= i < n <= symbols.len(),
        price_of(prices, symbols[i].symbol@) == Some(p),
        0 < p <= RATE_MAX,
    ensures
        rate_triples(symbols, prices, n).contains(
            (symbols[i].base_asset@, symbols[i].quote_asset@, p),
        ),
        rate_triples(symbols, prices, n).contains(
            (symbols[i].quote_asset@, symbols[i].base_asset@, spec_recip(p)),
        ),
    decreases n,
{
    let head = rate_triples(symbols, prices, n - 1);
    let full = rate_triples(symbols, prices, n);
    if i == n - 1 {
        let fwd = (symbols[i].base_asset@, symbols[i].quote_asset@, p);
        let bck = (symbols[i].quote_asset@, symbols[i].base_asset@, spec_recip(p));
        assert(full == head.push(fwd).push(bck));
        assert(full[full.len() - 2] == fwd);
        assert(full[full.len() - 1] == bck);
    } else {
        lemma_rate_triples_contain(symbols, prices, i, p, n - 1);
        let fwd = (symbols[i].base_asset@, symbols[i].quote_asset@, p);
        let bck = (symbols[i].quote_asset@, symbols[i].base_asset@, spec_recip(p));
        let ja = choose|j: int| 0 <= j < head.len() && head[j] == fwd;
        let jb = choose|j: int| 0 <= j < head.len() && head[j] == bck;
        assert(full[ja] == fwd);
        assert(full[jb] == bck);
    }
}

} // verus!
