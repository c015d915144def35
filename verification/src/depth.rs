//! Depth-aware cycle validation.
//!
//! For a candidate cycle the validator determines each leg's tradable
//! symbol and direction, walks the corresponding order-book side to compute
//! the slippage-adjusted weighted price and output quantity, and compounds
//! the per-leg rates into the cycle's real rate.  Every arithmetic step is
//! an exact integer computation in fixed point; any failure (missing price,
//! zero quantity, value out of range) makes the validator return nothing.

use vstd::prelude::*;
use crate::fixed::SCALE;
use crate::models::{Direction, SymbolInfo, USD_BUDGET};
use crate::models::{is_asset_holding, is_stablecoin, spec_is_asset_holding, spec_is_stablecoin};
use crate::bellmanford::Edge;
use crate::rates::price_of;
use crate::strutil::{concat_str, starts_with, str_eq, spec_starts_with};

verus! {

/// Cost charged at one book level, in the leg's input currency: the base
/// amount for a Forward leg (selling base into asks), the quote amount
/// `quantity * price` for a Reverse leg (buying base from bids).
pub open spec fn level_cost(fwd: bool, price: u64, quantity: u64) -> int {
    if fwd {
        quantity as int
    } else {
        (quantity * price) / (SCALE as int)
    }
}

/// Output received at one book level, in the leg's output currency.
pub open spec fn level_out(fwd: bool, price: u64, quantity: u64) -> int {
    if fwd {
        (quantity * price) / (SCALE as int)
    } else {
        quantity as int
    }
}

/// The order-book walk: consumes levels until the budget (in the input
/// currency) is spent, filling the last level partially.  Returns the total
/// cost and total output quantity, or `None` when a level has price zero or
/// a total leaves `u64`.
pub open spec fn spec_walk(
    book: Seq<(u64, u64)>,
    budget: u64,
    cost0: u64,
    qty0: u64,
    fwd: bool,
) -> Option<(u64, u64)>
    decreases book.len(),
{
    if book.len() == 0 {
        Some((cost0, qty0))
    } else {
        let price = book[0].0;
        let quantity = book[0].1;
        if price == 0 {
            None
        } else {
            let cost = level_cost(fwd, price, quantity);
            let out = level_out(fwd, price, quantity);
            if cost0 + cost > budget {
                let remaining = budget - cost0;
                let rem_qty = if fwd {
                    (remaining * price) / (SCALE as int)
                } else {
                    (remaining * SCALE) / (price as int)
                };
                if qty0 + rem_qty > u64::MAX {
                    None
                } else {
                    Some((budget, (qty0 + rem_qty) as u64))
                }
            } else {
                let nc = cost0 + cost;
                let nq = qty0 + out;
                if nc > u64::MAX || nq > u64::MAX {
                    None
                } else if nc >= budget {
                    Some((nc as u64, nq as u64))
                } else {
                    spec_walk(book.drop_first(), budget, nc as u64, nq as u64, fwd)
                }
            }
        }
    }
}

/// Weighted average price of filling `budget` against `book`:
/// `(weighted_price, total_cost, total_quantity)`.  The weighted price is
/// quote-per-base in both directions.  `None` when the walk fails, spends
/// nothing, or yields nothing.
pub open spec fn spec_weighted_price(book: Seq<(u64, u64)>, budget: u64, fwd: bool) -> Option<
    (u64, u64, u64),
> {
    match spec_walk(book, budget, 0, 0, fwd) {
        None => None,
        Some((c, q)) => {
            if c == 0 || q == 0 {
                None
            } else {
                let wp = if fwd {
                    (q * SCALE) / (c as int)
                } else {
                    (c * SCALE) / (q as int)
                };
                if wp > u64::MAX {
                    None
                } else {
                    Some((wp as u64, c, q))
                }
            }
        },
    }
}

/// `(a * b) / SCALE` computed exactly in `u128`.
fn mul_div_scale(a: u64, b: u64) -> (r: u128)
    ensures
        r == (a * b) / (SCALE as int),
        r < 5_070_602_400_912_917_605_986_812_821_504,
{
    proof {
        vstd::arithmetic::mul::lemma_mul_upper_bound(
            a as int,
            u64::MAX as int,
            b as int,
            u64::MAX as int,
        );
        vstd::arithmetic::div_mod::lemma_multiply_divide_lt(
            (a as int) * (b as int),
            SCALE as int,
            5_070_602_400_912_917_605_986_812_821_504,
        );
    }
    ((a as u128) * (b as u128)) / (SCALE as u128)
}

/// `(a * SCALE) / d` computed exactly in `u128`.
fn mul_scale_div(a: u64, d: u64) -> (r: u128)
    requires
        d > 0,
    ensures
        r == (a * SCALE) / (d as int),
        r <= u64::MAX as int * SCALE as int,
{
    proof {
        vstd::arithmetic::mul::lemma_mul_upper_bound(
            a as int,
            u64::MAX as int,
            SCALE as int,
            SCALE as int,
        );
        vstd::arithmetic::div_mod::lemma_div_is_ordered_by_denominator(
            (a as int) * (SCALE as int),
            1,
            d as int,
        );
    }
    ((a as u128) * (SCALE as u128)) / (d as u128)
}

/// Walks one order book for one leg; see [`spec_weighted_price`].
pub fn calculate_weighted_average_price(
    orderbook: &Vec<(u64, u64)>,
    budget: u64,
    direction: &Direction,
) -> (r: Option<(u64, u64, u64)>)
    ensures
        r == spec_weighted_price(orderbook@, budget, *direction is Forward),
{
    let fwd = match direction {
        Direction::Forward => true,
        Direction::Reverse => false,
    };
    let len = orderbook.len();
    let mut total_cost: u64 = 0;
    let mut total_quantity: u64 = 0;
    let mut i: usize = 0;
    let mut walked: Option<(u64, u64)> = None;
    let mut done = false;
    proof {
        assert(orderbook@.subrange(0, len as int) =~= orderbook@);
    }
    while !done && i < len
        invariant_except_break
            total_cost <= budget,
            !done ==> spec_walk(orderbook@, budget, 0, 0, fwd) == spec_walk(
                orderbook@.subrange(i as int, len as int),
                budget,
                total_cost,
                total_quantity,
                fwd,
            ),
        invariant
            len == orderbook@.len(),
            i <= len,
            fwd == (*direction is Forward),
            done ==> walked == spec_walk(orderbook@, budget, 0, 0, fwd),
        ensures
            done ==> walked == spec_walk(orderbook@, budget, 0, 0, fwd),
            !done ==> i == len && spec_walk(orderbook@, budget, 0, 0, fwd) == spec_walk(
                orderbook@.subrange(i as int, len as int),
                budget,
                total_cost,
                total_quantity,
                fwd,
            ),
        decreases len - i,
    {
        let ghost tail = orderbook@.subrange(i as int, len as int);
        proof {
            assert(tail[0] == orderbook@[i as int]);
            assert(tail.drop_first() =~= orderbook@.subrange(i + 1, len as int));
        }
        let (price, quantity) = orderbook[i];
        if price == 0 {
            walked = None;
            done = true;
            break;
        }
        let cost128: u128 = if fwd {
            quantity as u128
        } else {
            mul_div_scale(quantity, price)
        };
        let out128: u128 = if fwd {
            mul_div_scale(quantity, price)
        } else {
            quantity as u128
        };
        if (total_cost as u128) + cost128 > budget as u128 {
            let remaining = budget - total_cost;
            let rem_qty128: u128 = if fwd {
                mul_div_scale(remaining, price)
            } else {
                mul_scale_div(remaining, price)
            };
            if (total_quantity as u128) + rem_qty128 > u64::MAX as u128 {
                walked = None;
            } else {
                walked = Some((budget, total_quantity + (rem_qty128 as u64)));
            }
            done = true;
            break;
        } else {
            let nc128 = (total_cost as u128) + cost128;
            let nq128 = (total_quantity as u128) + out128;
            if nc128 > u64::MAX as u128 || nq128 > u64::MAX as u128 {
                walked = None;
                done = true;
                break;
            }
            total_cost = nc128 as u64;
            total_quantity = nq128 as u64;
            if total_cost >= budget {
                walked = Some((total_cost, total_quantity));
                done = true;
                break;
            }
        }
        i = i + 1;
    }
    if !done {
        proof {
            assert(orderbook@.subrange(len as int, len as int).len() == 0);
        }
        walked = Some((total_cost, total_quantity));
    }
    let (c, q) = match walked {
        None => {
            return None;
        },
        Some(pair) => pair,
    };
    if c == 0 || q == 0 {
        return None;
    }
    let wp128: u128 = if fwd {
        mul_scale_div(q, c)
    } else {
        mul_scale_div(c, q)
    };
    if wp128 > u64::MAX as u128 {
        return None;
    }
    Some((wp128 as u64, c, q))
}

/// Compounding the per-leg weighted prices into the cycle's real rate,
/// leg `i` onward: Forward multiplies by the weighted price, Reverse by its
/// reciprocal; each leg's output quantity becomes the next leg's budget.
pub open spec fn spec_real_rate(
    books: Seq<Seq<(u64, u64)>>,
    fwds: Seq<bool>,
    rate0: u64,
    amount: u64,
    i: int,
) -> Option<u64>
    decreases fwds.len() - i,
{
    if i < 0 || i >= fwds.len() {
        Some(rate0)
    } else {
        match spec_weighted_price(books[i], amount, fwds[i]) {
            None => None,
            Some((wp, _c, qty)) => {
                if wp == 0 {
                    None
                } else {
                    let nr = if fwds[i] {
                        (rate0 * wp) / (SCALE as int)
                    } else {
                        (rate0 * SCALE) / (wp as int)
                    };
                    if nr > u64::MAX {
                        None
                    } else {
                        spec_real_rate(books, fwds, nr as u64, qty, i + 1)
                    }
                }
            },
        }
    }
}

/// Compounds all legs of a cycle; see [`spec_real_rate`].
pub fn calculate_arbitrage(
    orderbooks: &Vec<Vec<(u64, u64)>>,
    directions: &Vec<Direction>,
    budget: u64,
) -> (r: Option<u64>)
    requires
        orderbooks@.len() == directions@.len(),
    ensures
        r == spec_real_rate(
            orderbooks@.map_values(|b: Vec<(u64, u64)>| b@),
            directions@.map_values(|d: Direction| d is Forward),
            SCALE,
            budget,
            0,
        ),
{
    let ghost books = orderbooks@.map_values(|b: Vec<(u64, u64)>| b@);
    let ghost fwds = directions@.map_values(|d: Direction| d is Forward);
    let len = directions.len();
    let mut real_rate: u64 = SCALE;
    let mut amount_in: u64 = budget;
    let mut i: usize = 0;
    while i < len
        invariant
            len == directions@.len(),
            len == orderbooks@.len(),
            books == orderbooks@.map_values(|b: Vec<(u64, u64)>| b@),
            fwds == directions@.map_values(|d: Direction| d is Forward),
            i <= len,
            spec_real_rate(books, fwds, SCALE, budget, 0) == spec_real_rate(
                books,
                fwds,
                real_rate,
                amount_in,
                i as int,
            ),
        decreases len - i,
    {
        proof {
            assert(books[i as int] == orderbooks@[i as int]@);
            assert(fwds[i as int] == (directions@[i as int] is Forward));
        }
        let direction = &directions[i];
        let fwd = match direction {
            Direction::Forward => true,
            Direction::Reverse => false,
        };
        let trade_res = calculate_weighted_average_price(&orderbooks[i], amount_in, direction);
        let (wp, qty) = match trade_res {
            Some((wp, _c, qty)) => (wp, qty),
            None => {
                return None;
            },
        };
        if wp == 0 {
            return None;
        }
        let nr128: u128 = if fwd {
            mul_div_scale(real_rate, wp)
        } else {
            mul_scale_div(real_rate, wp)
        };
        if nr128 > u64::MAX as u128 {
            return None;
        }
        real_rate = nr128 as u64;
        amount_in = qty;
        i = i + 1;
    }
    Some(real_rate)
}

/// The tradable symbol and direction of one leg `(from, to)`: the canonical
/// symbol is `to+from` when the registry holds it, else `from+to`; the leg
/// is Forward exactly when the symbol starts with `from`.
pub open spec fn spec_leg_plan(
    registry: Seq<SymbolInfo>,
    from: Seq<char>,
    to: Seq<char>,
) -> (Seq<char>, bool) {
    let sym = if registry_has(registry, to + from) {
        to + from
    } else {
        from + to
    };
    (sym, spec_starts_with(sym, from))
}

/// Whether the registry lists a symbol of this name.
pub open spec fn registry_has(registry: Seq<SymbolInfo>, name: Seq<char>) -> bool {
    exists|j: int| 0 <= j < registry.len() && (#[trigger] registry[j]).symbol@ == name
}

/// Whether the registry lists a symbol of this name.
pub fn registry_contains(registry: &Vec<SymbolInfo>, name: &str) -> (r: bool)
    ensures
        r == registry_has(registry@, name@),
{
    let mut j: usize = 0;
    while j < registry.len()
        invariant
            j <= registry@.len(),
            forall|k: int| 0 <= k < j ==> (#[trigger] registry@[k]).symbol@ != name@,
        decreases registry@.len() - j,
    {
        if str_eq(registry[j].symbol.as_str(), name) {
            return true;
        }
        j = j + 1;
    }
    false
}

/// Determines each leg's tradable symbol and direction for a cycle.
pub fn plan_cycle_legs(cycle: &Vec<Edge>, registry: &Vec<SymbolInfo>) -> (r: (
    Vec<String>,
    Vec<Direction>,
))
    ensures
        r.0@.len() == cycle@.len(),
        r.1@.len() == cycle@.len(),
        forall|i: int|
            0 <= i < cycle@.len() ==> ((#[trigger] r.0@[i])@, r.1@[i] is Forward)
                == spec_leg_plan(registry@, cycle@[i].from@, cycle@[i].to@),
{
    let mut symbols: Vec<String> = Vec::new();
    let mut directions: Vec<Direction> = Vec::new();
    let len = cycle.len();
    let mut i: usize = 0;
    while i < len
        invariant
            len == cycle@.len(),
            i <= len,
            symbols@.len() == i,
            directions@.len() == i,
            forall|k: int|
                0 <= k < i ==> ((#[trigger] symbols@[k])@, directions@[k] is Forward)
                    == spec_leg_plan(registry@, cycle@[k].from@, cycle@[k].to@),
        decreases len - i,
    {
        let leg = &cycle[i];
        let symbol_1 = concat_str(leg.to.as_str(), leg.from.as_str());
        let symbol_2 = concat_str(leg.from.as_str(), leg.to.as_str());
        let symbol = if registry_contains(registry, symbol_1.as_str()) {
            symbol_1
        } else {
            symbol_2
        };
        let direction = if starts_with(symbol.as_str(), leg.from.as_str()) {
            Direction::Forward
        } else {
            Direction::Reverse
        };
        symbols.push(symbol);
        directions.push(direction);
        i = i + 1;
    }
    (symbols, directions)
}

/// The starting notional for a cycle beginning at `from`: the configured
/// USD budget for a stablecoin, otherwise the budget divided by the coin's
/// USDT price.  `None` when that price is missing, zero, or the quotient
/// does not fit.
pub open spec fn spec_starting_budget(from: Seq<char>, prices: Seq<(String, u64)>) -> Option<u64> {
    if spec_is_stablecoin(from) {
        Some(USD_BUDGET)
    } else {
        match price_of(prices, from + "USDT"@) {
            None => None,
            Some(p) => {
                if p == 0 {
                    None
                } else {
                    let b = (USD_BUDGET * SCALE) / (p as int);
                    if b > u64::MAX {
                        None
                    } else {
                        Some(b as u64)
                    }
                }
            },
        }
    }
}

/// Computes the starting notional; see [`spec_starting_budget`].
pub fn starting_budget(from: &str, prices: &Vec<(String, u64)>) -> (r: Option<u64>)
    ensures
        r == spec_starting_budget(from@, prices@),
{
    if is_stablecoin(from) {
        return Some(USD_BUDGET);
    }
    let key = concat_str(from, "USDT");
    match crate::rates::lookup_price(prices, key.as_str()) {
        None => None,
        Some(p) => {
            if p == 0 {
                None
            } else {
                let b128: u128 = mul_scale_div(USD_BUDGET, p);
                if b128 > u64::MAX as u128 {
                    None
                } else {
                    Some(b128 as u64)
                }
            }
        },
    }
}

/// The full validation of one candidate cycle against pre-fetched books:
/// gates (non-empty cycle, starting asset held, budget derivable), leg
/// planning, and the compounded real rate.
pub open spec fn spec_validate(
    cycle: Seq<Edge>,
    registry: Seq<SymbolInfo>,
    prices: Seq<(String, u64)>,
    books: Seq<Seq<(u64, u64)>>,
) -> Option<(u64, u64)> {
    if cycle.len() == 0 {
        None
    } else if !spec_is_asset_holding(cycle[0].from@) {
        None
    } else {
        match spec_starting_budget(cycle[0].from@, prices) {
            None => None,
            Some(budget) => {
                let fwds = Seq::new(
                    cycle.len(),
                    |i: int| spec_leg_plan(registry, cycle[i].from@, cycle[i].to@).1,
                );
                match spec_real_rate(books, fwds, SCALE, budget, 0) {
                    None => None,
                    Some(rate) => Some((rate, budget)),
                }
            },
        }
    }
}

/// Validates an arbitrage cycle against order books fetched one per leg
/// (in cycle order, each for the side named by [`plan_cycle_legs`]).
/// Returns the real compounded rate, the per-leg symbols and directions,
/// and the starting budget; or `None` on any gate or arithmetic failure.
pub fn validate_arbitrage_cycle(
    cycle: &Vec<Edge>,
    registry: &Vec<SymbolInfo>,
    prices: &Vec<(String, u64)>,
    orderbooks: &Vec<Vec<(u64, u64)>>,
) -> (r: Option<(u64, Vec<String>, Vec<Direction>, u64)>)
    requires
        orderbooks@.len() == cycle@.len(),
    ensures
        match r {
            None => spec_validate(
                cycle@,
                registry@,
                prices@,
                orderbooks@.map_values(|b: Vec<(u64, u64)>| b@),
            ) is None,
            Some((rate, symbols, directions, budget)) => {
                &&& spec_validate(
                    cycle@,
                    registry@,
                    prices@,
                    orderbooks@.map_values(|b: Vec<(u64, u64)>| b@),
                ) == Some((rate, budget))
                &&& symbols@.len() == cycle@.len()
                &&& directions@.len() == cycle@.len()
                &&& forall|i: int|
                    0 <= i < cycle@.len() ==> ((#[trigger] symbols@[i])@, directions@[i]
                        is Forward) == spec_leg_plan(registry@, cycle@[i].from@, cycle@[i].to@)
            },
        },
{
    if cycle.len() == 0 {
        return None;
    }
    if !is_asset_holding(cycle[0].from.as_str()) {
        return None;
    }
    let budget = match starting_budget(cycle[0].from.as_str(), prices) {
        None => {
            return None;
        },
        Some(b) => b,
    };
    let (symbols, directions) = plan_cycle_legs(cycle, registry);
    let ghost fwds = Seq::new(
        cycle@.len() as nat,
        |i: int| spec_leg_plan(registry@, cycle@[i].from@, cycle@[i].to@).1,
    );
    proof {
        assert forall|i: int| 0 <= i < cycle@.len() implies directions@.map_values(
            |d: Direction| d is Forward,
        )[i] == fwds[i] by {
            assert(((symbols@[i])@, directions@[i] is Forward) == spec_leg_plan(
                registry@,
                cycle@[i].from@,
                cycle@[i].to@,
            ));
        }
        assert(directions@.map_values(|d: Direction| d is Forward) =~= fwds);
    }
    let rate = match calculate_arbitrage(orderbooks, &directions, budget) {
        None => {
            return None;
        },
        Some(rr) => rr,
    };
    Some((rate, symbols, directions, budget))
}

/// Per-leg monotonicity of the walk, Forward direction: against a book
/// with the same depth quantities but level prices at least the baseline's,
/// the walk spends the same cost and returns at least the baseline output.
pub proof fn lemma_walk_forward_price_monotone(
    base: Seq<(u64, u64)>,
    better: Seq<(u64, u64)>,
    budget: u64,
    cost0: u64,
    qty0: u64,
    qty0b: u64,
)
    requires
        base.len() == better.len(),
        forall|i: int| 0 <= i < base.len() ==> (#[trigger] better[i]).1 == base[i].1,
        forall|i: int| 0 <= i < base.len() ==> (#[trigger] better[i]).0 >= base[i].0,
        qty0b >= qty0,
        cost0 <= budget,
        spec_walk(base, budget, cost0, qty0, true) is Some,
        spec_walk(better, budget, cost0, qty0b, true) is Some,
    ensures
        (spec_walk(better, budget, cost0, qty0b, true)->0).0 == (spec_walk(
            base,
            budget,
            cost0,
            qty0,
            true,
        )->0).0,
        (spec_walk(better, budget, cost0, qty0b, true)->0).1 >= (spec_walk(
            base,
            budget,
            cost0,
            qty0,
            true,
        )->0).1,
    decreases base.len(),
{
    if base.len() == 0 {
    } else {
        let price = base[0].0;
        let quantity = base[0].1;
        let pb = better[0].0;
        assert(price > 0);
        assert(pb > 0);
        // A Forward level's cost is its quantity, identical in both books,
        // so both walks branch the same way; outputs are monotone in price.
        assert(level_cost(true, price, quantity) == level_cost(true, pb, quantity));
        assert(level_out(true, pb, quantity) >= level_out(true, price, quantity)) by {
            assert(quantity * pb >= quantity * price) by (nonlinear_arith)
                requires
                    pb >= price,
                    quantity >= 0,
            ;
            vstd::arithmetic::div_mod::lemma_div_is_ordered(
                (quantity * price) as int,
                (quantity * pb) as int,
                SCALE as int,
            );
        }
        let cost = level_cost(true, price, quantity);
        if cost0 + cost > budget {
            let remaining = budget - cost0;
            assert((remaining * pb) / (SCALE as int) >= (remaining * price) / (SCALE as int)) by {
                assert(remaining * pb >= remaining * price) by (nonlinear_arith)
                    requires
                        pb >= price,
                        remaining >= 0,
                ;
                vstd::arithmetic::div_mod::lemma_div_is_ordered(
                    (remaining * price) as int,
                    (remaining * pb) as int,
                    SCALE as int,
                );
            }
        } else {
            let nc = cost0 + cost;
            let nq = qty0 + level_out(true, price, quantity);
            let nqb = qty0b + level_out(true, pb, quantity);
            if nc > u64::MAX || nq > u64::MAX {
            } else if nqb > u64::MAX {
            } else if nc >= budget {
            } else {
                assert(base.drop_first().len() == better.drop_first().len());
                assert forall|i: int|
                    0 <= i < base.drop_first().len() implies (#[trigger] better.drop_first()[
                    i]).1 == base.drop_first()[i].1 && better.drop_first()[i].0
                    >= base.drop_first()[i].0 by {
                    assert(better.drop_first()[i] == better[i + 1]);
                    assert(base.drop_first()[i] == base[i + 1]);
                }
                lemma_walk_forward_price_monotone(
                    base.drop_first(),
                    better.drop_first(),
                    budget,
                    nc as u64,
                    nq as u64,
                    nqb as u64,
                );
            }
        }
    }
}

/// Per-leg monotonicity of the weighted price, Forward direction: a book
/// whose level prices all dominate the baseline's (same quantities) fills
/// at a weighted price and output quantity at least the baseline's.
pub proof fn lemma_weighted_price_forward_monotone(
    base: Seq<(u64, u64)>,
    better: Seq<(u64, u64)>,
    budget: u64,
)
    requires
        base.len() == better.len(),
        forall|i: int| 0 <= i < base.len() ==> (#[trigger] better[i]).1 == base[i].1,
        forall|i: int| 0 <= i < base.len() ==> (#[trigger] better[i]).0 >= base[i].0,
        spec_weighted_price(base, budget, true) is Some,
        spec_weighted_price(better, budget, true) is Some,
    ensures
        (spec_weighted_price(better, budget, true)->0).0 >= (spec_weighted_price(
            base,
            budget,
            true,
        )->0).0,
        (spec_weighted_price(better, budget, true)->0).2 >= (spec_weighted_price(
            base,
            budget,
            true,
        )->0).2,
{
    lemma_walk_forward_price_monotone(base, better, budget, 0, 0, 0);
    let c = (spec_walk(base, budget, 0, 0, true)->0).0;
    let q = (spec_walk(base, budget, 0, 0, true)->0).1;
    let qb = (spec_walk(better, budget, 0, 0, true)->0).1;
    assert(q * SCALE <= qb * SCALE) by (nonlinear_arith)
        requires
            q <= qb,
    ;
    vstd::arithmetic::div_mod::lemma_div_is_ordered(
        (q * SCALE) as int,
        (qb * SCALE) as int,
        c as int,
    );
}


/// The surface rate of a cycle: the compounded instantaneous rate product
/// minus one.  The weights are base-10 logarithms of the rates, so that
/// product is exactly `10^(-sum of weights)`; the rate-product reading of
/// the surface rate is the one that bounds the real rate from above.
/// `None` when the value leaves the representable range.
pub open spec fn spec_surface_rate(c: Seq<Edge>) -> Option<i64> {
    let x = -crate::bellmanford::weight_sum(c);
    if x < -10_000_000_000 || x > 10_000_000_000 {
        None
    } else {
        match crate::logfp::spec_exp10_fp(x as i64) {
            None => None,
            Some(v) => {
                if v - SCALE > i64::MAX {
                    None
                } else {
                    Some((v - SCALE) as i64)
                }
            },
        }
    }
}

/// Computes a cycle's surface rate; see [`spec_surface_rate`].
pub fn calculate_arbitrage_surface_rate(cycle: &Vec<Edge>) -> (r: Option<i64>)
    requires
        forall|i: int|
            0 <= i < cycle@.len() ==> -crate::logfp::WEIGHT_MAX <= (#[trigger] cycle@[i]).weight
                <= crate::logfp::WEIGHT_MAX,
    ensures
        r == spec_surface_rate(cycle@),
{
    let len = cycle.len();
    let mut acc: i128 = 0;
    let mut k: usize = 0;
    while k < len
        invariant
            len == cycle@.len(),
            k <= len,
            forall|j: int|
                0 <= j < cycle@.len() ==> -crate::logfp::WEIGHT_MAX <= (#[trigger] cycle@[
                j]).weight <= crate::logfp::WEIGHT_MAX,
            acc == crate::bellmanford::weight_sum(cycle@.subrange(0, k as int)),
            -(k as int) * crate::logfp::WEIGHT_MAX <= acc <= (k as int)
                * crate::logfp::WEIGHT_MAX,
        decreases len - k,
    {
        proof {
            assert(cycle@.subrange(0, k + 1).drop_last() =~= cycle@.subrange(0, k as int));
            assert(cycle@.subrange(0, k + 1).last() == cycle@[k as int]);
            assert((k + 1) as int * crate::logfp::WEIGHT_MAX
                <= 30_000_000_000_000_000_000_000_000_000) by (nonlinear_arith)
                requires
                    0 <= (k + 1) as int <= 20_000_000_000_000_000_000,
            ;
        }
        acc = acc + (cycle[k].weight as i128);
        k = k + 1;
    }
    proof {
        assert(cycle@.subrange(0, len as int) =~= cycle@);
    }
    let x: i128 = -acc;
    if x < -10_000_000_000 || x > 10_000_000_000 {
        return None;
    }
    match crate::logfp::exp10_fp(x as i64) {
        None => None,
        Some(v) => {
            let d: i128 = (v as i128) - (SCALE as i128);
            if d > i64::MAX as i128 {
                None
            } else {
                Some(d as i64)
            }
        },
    }
}


/// The walk only accumulates output: its result is at least the running
/// quantity it starts from.
proof fn lemma_walk_grows(book: Seq<(u64, u64)>, budget: u64, cost0: u64, qty0: u64, fwd: bool)
    requires
        cost0 <= budget,
        spec_walk(book, budget, cost0, qty0, fwd) is Some,
    ensures
        (spec_walk(book, budget, cost0, qty0, fwd)->0).1 >= qty0,
    decreases book.len(),
{
    if book.len() == 0 {
    } else {
        let price = book[0].0;
        let quantity = book[0].1;
        let cost = level_cost(fwd, price, quantity);
        let out = level_out(fwd, price, quantity);
        if price == 0 {
        } else if cost0 + cost > budget {
        } else {
            let nc = cost0 + cost;
            let nq = qty0 + out;
            if nc > u64::MAX || nq > u64::MAX {
            } else if nc >= budget {
            } else {
                lemma_walk_grows(book.drop_first(), budget, nc as u64, nq as u64, fwd);
            }
        }
    }
}

/// Per-leg monotonicity of the walk, Reverse direction: against a book
/// with the same depth quantities but level prices at most the baseline's,
/// the same budget buys at least the baseline's output quantity.
pub proof fn lemma_walk_reverse_price_monotone(
    base: Seq<(u64, u64)>,
    better: Seq<(u64, u64)>,
    budget: u64,
    cost0: u64,
    cost0b: u64,
    qty0: u64,
    qty0b: u64,
)
    requires
        base.len() == better.len(),
        forall|i: int| 0 <= i < base.len() ==> (#[trigger] better[i]).1 == base[i].1,
        forall|i: int| 0 <= i < base.len() ==> 0 < (#[trigger] better[i]).0 <= base[i].0,
        qty0b >= qty0,
        cost0b <= cost0 <= budget,
        spec_walk(base, budget, cost0, qty0, false) is Some,
        spec_walk(better, budget, cost0b, qty0b, false) is Some,
    ensures
        (spec_walk(better, budget, cost0b, qty0b, false)->0).1 >= (spec_walk(
            base,
            budget,
            cost0,
            qty0,
            false,
        )->0).1,
    decreases base.len(),
{
    if base.len() == 0 {
    } else {
        let p = base[0].0;
        let q = base[0].1;
        let pb = better[0].0;
        assert(p > 0);
        assert(pb > 0);
        // A Reverse level costs `quantity * price`, so the better book's
        // level costs no more than the baseline's.
        let cost = level_cost(false, p, q);
        let costb = level_cost(false, pb, q);
        assert(costb <= cost) by {
            assert(q * pb <= q * p) by (nonlinear_arith)
                requires
                    pb <= p,
                    q >= 0,
            ;
            vstd::arithmetic::div_mod::lemma_div_is_ordered(
                (q * pb) as int,
                (q * p) as int,
                SCALE as int,
            );
        }
        assert(base.drop_first().len() == better.drop_first().len());
        assert forall|i: int|
            0 <= i < base.drop_first().len() implies (#[trigger] better.drop_first()[i]).1
            == base.drop_first()[i].1 && 0 < better.drop_first()[i].0 <= base.drop_first()[
        i].0 by {
            assert(better.drop_first()[i] == better[i + 1]);
            assert(base.drop_first()[i] == base[i + 1]);
        }
        if cost0 + cost > budget {
            // Baseline fills this level partially and stops with
            // `qty0 + (budget - cost0) / p` output.
            let remaining = budget - cost0;
            let rem_qty = (remaining * SCALE) / (p as int);
            if cost0b + costb > budget {
                // The better book stops here too, with a larger residual
                // bought at a lower price.
                let remainingb = budget - cost0b;
                let rem_qtyb = (remainingb * SCALE) / (pb as int);
                assert(rem_qtyb >= rem_qty) by {
                    assert(remainingb * SCALE >= remaining * SCALE) by (nonlinear_arith)
                        requires
                            remainingb >= remaining,
                            SCALE > 0,
                    ;
                    vstd::arithmetic::div_mod::lemma_div_is_ordered(
                        (remaining * SCALE) as int,
                        (remainingb * SCALE) as int,
                        pb as int,
                    );
                    vstd::arithmetic::div_mod::lemma_div_is_ordered_by_denominator(
                        (remaining * SCALE) as int,
                        pb as int,
                        p as int,
                    );
                }
            } else {
                // The better book affords the whole level.  Its output so
                // far already exceeds what the baseline's partial fill can
                // reach, because the partial residual is under the level's
                // quantity.
                let ncb = cost0b + costb;
                let nqb = qty0b + q;
                assert(rem_qty < q) by {
                    // remaining < cost <= q * p / SCALE, so
                    // remaining * SCALE < q * p, hence remaining * SCALE / p < q.
                    assert(cost * (p as int) <= ((q * p) / (SCALE as int)) * (p as int))
                        by (nonlinear_arith)
                        requires
                            cost == (q * p) / (SCALE as int),
                    ;
                    vstd::arithmetic::div_mod::lemma_fundamental_div_mod(
                        (q * p) as int,
                        SCALE as int,
                    );
                    vstd::arithmetic::div_mod::lemma_mod_division_less_than_divisor(
                        (q * p) as int,
                        SCALE as int,
                    );
                    assert(((q * p) / (SCALE as int)) * (SCALE as int) <= q * p) by (
                    nonlinear_arith)
                        requires
                            (q * p) / (SCALE as int) * (SCALE as int) + (q * p) % (SCALE as int)
                                == q * p,
                            (q * p) % (SCALE as int) >= 0,
                    ;
                    assert(remaining * SCALE < q * p) by (nonlinear_arith)
                        requires
                            remaining < cost,
                            cost * (SCALE as int) <= q * p,
                            SCALE > 0,
                            remaining >= 0,
                    ;
                    vstd::arithmetic::div_mod::lemma_multiply_divide_lt(
                        (remaining * SCALE) as int,
                        p as int,
                        q as int,
                    );
                }
                if ncb > u64::MAX || nqb > u64::MAX {
                } else if ncb >= budget {
                } else {
                    lemma_walk_grows(better.drop_first(), budget, ncb as u64, nqb as u64, false);
                }
            }
        } else {
            // Baseline affords the whole level; so does the better book.
            let nc = cost0 + cost;
            let nq = qty0 + q;
            let ncb = cost0b + costb;
            let nqb = qty0b + q;
            assert(ncb <= nc);
            if nc > u64::MAX || nq > u64::MAX {
            } else if ncb > u64::MAX || nqb > u64::MAX {
            } else if nc >= budget {
                // Baseline stops satisfied; the better walk holds at least
                // as much already and only grows.
                if ncb >= budget {
                } else {
                    lemma_walk_grows(better.drop_first(), budget, ncb as u64, nqb as u64, false);
                }
            } else {
                if ncb >= budget {
                    // Cannot happen: the better cost is no larger.
                    assert(false);
                } else {
                    lemma_walk_reverse_price_monotone(
                        base.drop_first(),
                        better.drop_first(),
                        budget,
                        nc as u64,
                        ncb as u64,
                        nq as u64,
                        nqb as u64,
                    );
                }
            }
        }
    }
}


/// Per-leg monotonicity, Reverse direction: a book whose level prices are
/// all at most the baseline's (same quantities) lets the same budget buy at
/// least the baseline's output quantity.
pub proof fn lemma_weighted_price_reverse_monotone(
    base: Seq<(u64, u64)>,
    better: Seq<(u64, u64)>,
    budget: u64,
)
    requires
        base.len() == better.len(),
        forall|i: int| 0 <= i < base.len() ==> (#[trigger] better[i]).1 == base[i].1,
        forall|i: int| 0 <= i < base.len() ==> 0 < (#[trigger] better[i]).0 <= base[i].0,
        spec_weighted_price(base, budget, false) is Some,
        spec_weighted_price(better, budget, false) is Some,
    ensures
        (spec_weighted_price(better, budget, false)->0).2 >= (spec_weighted_price(
            base,
            budget,
            false,
        )->0).2,
{
    lemma_walk_reverse_price_monotone(base, better, budget, 0, 0, 0, 0);
}

} // verus!
