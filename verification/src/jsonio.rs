//! Venue response decoding.
//!
//! The venue answers REST and websocket calls with JSON documents.  A
//! document is brought across the trust boundary once, into the library's
//! own [`JsonDoc`] of plain values; every decoder is then a verified total
//! function of that document, with its result fixed exactly by a
//! specification function.

use vstd::prelude::*;
use serde_json::Value;
use vstd::string::StringExecFns;
use crate::decimal::{parse_fp, spec_parse_fp};
use crate::models::{Direction, SmartError, SymbolInfo, SymbolInfoView};
use crate::models::{is_fiat_excluded, spec_is_fiat_excluded};
use crate::strutil::{ascii_upper, spec_ascii_upper, str_eq};

verus! {

#[verifier::external_type_specification]
#[verifier::external_body]
pub struct ExValue(Value);

/// A JSON document as plain library values.  Numbers are kept only as the
/// unsigned integers the decoders read; object members sit in the parser's
/// own (key-sorted) order.
pub enum JsonDoc {
    Null,
    Bool(bool),
    Num(Option<u64>),
    Str(String),
    Arr(Vec<JsonDoc>),
    Obj(Vec<(String, JsonDoc)>),
}

/// Relies on `serde_json::from_str::<Value>`: parses one JSON document,
/// nothing on malformed input.
#[verifier::external_body]
fn json_parse(s: &str) -> (r: Option<Value>) {
    serde_json::from_str::<Value>(s).ok()
}

/// Relies on `serde_json::Value::as_u64` for the number variant; every
/// other arm moves fields only, one arm per variant, object members in the
/// map's own order.
#[verifier::external_body]
fn doc_of_value(v: &Value) -> (r: JsonDoc) {
    match v {
        Value::Null => JsonDoc::Null,
        Value::Bool(b) => JsonDoc::Bool(*b),
        Value::Number(n) => JsonDoc::Num(n.as_u64()),
        Value::String(s) => JsonDoc::Str(s.clone()),
        Value::Array(a) => JsonDoc::Arr(a.iter().map(doc_of_value).collect()),
        Value::Object(m) => JsonDoc::Obj(
            m.iter().map(|(k, member)| (k.clone(), doc_of_value(member))).collect(),
        ),
    }
}

/// Parses a JSON document into the library's own representation, `None` on
/// malformed input.  Everything the decoders state is a function of the
/// returned document.
pub fn parse_json_doc(s: &str) -> (r: Option<JsonDoc>) {
    match json_parse(s) {
        None => None,
        Some(v) => Some(doc_of_value(&v)),
    }
}

/// The first member under `key` among object entries.
pub open spec fn spec_entries_get(entries: Seq<(String, JsonDoc)>, key: Seq<char>) -> Option<
    JsonDoc,
>
    decreases entries.len(),
{
    if entries.len() == 0 {
        None
    } else if entries[0].0@ == key {
        Some(entries[0].1)
    } else {
        spec_entries_get(entries.drop_first(), key)
    }
}

/// The member of an object document under `key`, if any.
pub open spec fn spec_doc_get(doc: JsonDoc, key: Seq<char>) -> Option<JsonDoc> {
    match doc {
        JsonDoc::Obj(entries) => spec_entries_get(entries@, key),
        _ => None,
    }
}

/// The element of an array document at `i`, if any.
pub open spec fn spec_doc_at(doc: JsonDoc, i: int) -> Option<JsonDoc> {
    match doc {
        JsonDoc::Arr(items) => if 0 <= i < items@.len() {
            Some(items@[i])
        } else {
            None
        },
        _ => None,
    }
}

/// The string content of an object member, or empty when absent or not a
/// string.
pub open spec fn spec_member_str(doc: JsonDoc, key: Seq<char>) -> Seq<char> {
    match spec_doc_get(doc, key) {
        Some(JsonDoc::Str(s)) => s@,
        _ => Seq::empty(),
    }
}

/// The boolean content of an object member, or false.
pub open spec fn spec_member_bool(doc: JsonDoc, key: Seq<char>) -> bool {
    match spec_doc_get(doc, key) {
        Some(JsonDoc::Bool(b)) => b,
        _ => false,
    }
}

/// A precision member: an unsigned member value of at most 255, else zero.
pub open spec fn spec_member_prec(doc: JsonDoc, key: Seq<char>) -> u8 {
    match spec_doc_get(doc, key) {
        Some(JsonDoc::Num(Some(n))) => if n <= 255 {
            n as u8
        } else {
            0
        },
        _ => 0,
    }
}

/// Looks a member up in an object document.
pub fn doc_get<'a>(doc: &'a JsonDoc, key: &str) -> (r: Option<&'a JsonDoc>)
    ensures
        match r {
            Some(d) => spec_doc_get(*doc, key@) == Some(*d),
            None => spec_doc_get(*doc, key@) is None,
        },
{
    match doc {
        JsonDoc::Obj(entries) => {
            let n = entries.len();
            proof {
                assert(entries@.subrange(0, n as int) =~= entries@);
            }
            let mut i: usize = 0;
            while i < n
                invariant
                    n == entries@.len(),
                    i <= n,
                    spec_doc_get(*doc, key@) == spec_entries_get(entries@, key@),
                    spec_entries_get(entries@, key@) == spec_entries_get(
                        entries@.subrange(i as int, n as int),
                        key@,
                    ),
                decreases n - i,
            {
                proof {
                    assert(entries@.subrange(i as int, n as int)[0] == entries@[i as int]);
                    assert(entries@.subrange(i as int, n as int).drop_first()
                        =~= entries@.subrange(i + 1, n as int));
                }
                if str_eq(entries[i].0.as_str(), key) {
                    return Some(&entries[i].1);
                }
                i = i + 1;
            }
            proof {
                assert(entries@.subrange(n as int, n as int).len() == 0);
            }
            None
        },
        _ => None,
    }
}

/// The string content of a member, or empty.
fn member_str(doc: &JsonDoc, key: &str) -> (r: String)
    ensures
        r@ == spec_member_str(*doc, key@),
{
    match doc_get(doc, key) {
        Some(JsonDoc::Str(s)) => s.clone(),
        _ => String::new(),
    }
}

/// The boolean content of a member, or false.
fn member_bool(doc: &JsonDoc, key: &str) -> (r: bool)
    ensures
        r == spec_member_bool(*doc, key@),
{
    match doc_get(doc, key) {
        Some(JsonDoc::Bool(b)) => *b,
        _ => false,
    }
}

/// A precision member, clipped to `u8`.
fn member_prec(doc: &JsonDoc, key: &str) -> (r: u8)
    ensures
        r == spec_member_prec(*doc, key@),
{
    match doc_get(doc, key) {
        Some(JsonDoc::Num(Some(n))) => if *n <= 255 {
            *n as u8
        } else {
            0
        },
        _ => 0,
    }
}

/// What one exchange-information entry contributes: `None` when its filter
/// list is missing or malformed (the whole decode fails), `Some(None)` when
/// the entry is skipped (not trading, not spot, or fiat), `Some(Some(v))`
/// when it is admitted.
pub open spec fn spec_symbol_entry(e: JsonDoc) -> Option<Option<SymbolInfoView>> {
    let trading = spec_member_str(e, "status"@) == "TRADING"@;
    let spot = spec_member_bool(e, "isSpotTradingAllowed"@);
    if !(trading && spot) {
        Some(None)
    } else {
        let base = spec_member_str(e, "baseAsset"@);
        let quote = spec_member_str(e, "quoteAsset"@);
        if spec_is_fiat_excluded(base) || spec_is_fiat_excluded(quote) {
            Some(None)
        } else {
            match spec_doc_get(e, "filters"@) {
                Some(JsonDoc::Arr(filters)) => {
                    let lot = spec_find_filter(filters@, "LOT_SIZE"@);
                    let notional = spec_find_filter(filters@, "NOTIONAL"@);
                    Some(
                        Some(
                            SymbolInfoView {
                                symbol: spec_member_str(e, "symbol"@),
                                base_asset: base,
                                quote_asset: quote,
                                base_asset_precision: spec_member_prec(
                                    e,
                                    "baseAssetPrecision"@,
                                ),
                                quote_asset_precision: spec_member_prec(
                                    e,
                                    "quoteAssetPrecision"@,
                                ),
                                min_qty: spec_filter_field(lot, "minQty"@),
                                max_qty: spec_filter_field(lot, "maxQty"@),
                                min_notional: spec_filter_field(notional, "minNotional"@),
                                max_notional: spec_filter_field(notional, "maxNotional"@),
                                step_size: spec_filter_field(lot, "stepSize"@),
                            },
                        ),
                    )
                },
                _ => None,
            }
        }
    }
}

/// A field of an optional filter entry, empty when the filter is absent.
pub open spec fn spec_filter_field(filter: Option<JsonDoc>, key: Seq<char>) -> Seq<char> {
    match filter {
        None => Seq::empty(),
        Some(f) => spec_member_str(f, key),
    }
}

/// The first filter entry of the given type.
pub open spec fn spec_find_filter(filters: Seq<JsonDoc>, kind: Seq<char>) -> Option<JsonDoc>
    decreases filters.len(),
{
    if filters.len() == 0 {
        None
    } else if spec_member_str(filters[0], "filterType"@) == kind {
        Some(filters[0])
    } else {
        spec_find_filter(filters.drop_first(), kind)
    }
}

/// The admitted symbols among the first `n` entries, or `None` when an
/// admitted entry has no usable filter list.
pub open spec fn spec_symbols_upto(entries: Seq<JsonDoc>, n: int) -> Option<Seq<SymbolInfoView>>
    decreases n,
{
    if n <= 0 {
        Some(Seq::empty())
    } else {
        match spec_symbols_upto(entries, n - 1) {
            None => None,
            Some(acc) => match spec_symbol_entry(entries[n - 1]) {
                None => None,
                Some(None) => Some(acc),
                Some(Some(v)) => Some(acc.push(v)),
            },
        }
    }
}

/// The registry denoted by an exchange-information document.
pub open spec fn spec_parse_symbols(doc: JsonDoc) -> Option<Seq<SymbolInfoView>> {
    match spec_doc_get(doc, "symbols"@) {
        Some(JsonDoc::Arr(entries)) => spec_symbols_upto(entries@, entries@.len() as int),
        _ => None,
    }
}

/// A decode failure at one entry fails every longer prefix.
proof fn lemma_symbols_none_propagates(entries: Seq<JsonDoc>, i: int, n: int)
    requires
        0 <= i <= n,
        spec_symbols_upto(entries, i) is None,
    ensures
        spec_symbols_upto(entries, n) is None,
    decreases n - i,
{
    if i < n {
        lemma_symbols_none_propagates(entries, i + 1, n);
    }
}

/// Decodes the venue's exchange-information document into the symbol
/// registry: exactly the entries that are trading, spot-enabled, and on
/// neither side fiat-excluded, with the named fields copied.
pub fn parse_symbols(doc: &JsonDoc) -> (r: Result<Vec<SymbolInfo>, SmartError>)
    ensures
        match r {
            Ok(symbols) => spec_parse_symbols(*doc) == Some(
                symbols@.map_values(|s: SymbolInfo| s@),
            ),
            Err(_) => spec_parse_symbols(*doc) is None,
        },
        r matches Ok(symbols) ==> forall|i: int|
            0 <= i < symbols@.len() ==> !spec_is_fiat_excluded(
                (#[trigger] symbols@[i]).base_asset@,
            ) && !spec_is_fiat_excluded(symbols@[i].quote_asset@),
{
    let entries = match doc_get(doc, "symbols") {
        Some(JsonDoc::Arr(a)) => a,
        _ => {
            return Err(SmartError::Schema(String::from_str("missing symbols")));
        },
    };
    let n = entries.len();
    let mut symbols: Vec<SymbolInfo> = Vec::new();
    let mut i: usize = 0;
    while i < n
        invariant
            n == entries@.len(),
            i <= n,
            spec_parse_symbols(*doc) == spec_symbols_upto(entries@, n as int),
            spec_symbols_upto(entries@, i as int) == Some(
                symbols@.map_values(|s: SymbolInfo| s@),
            ),
            forall|k: int|
                0 <= k < symbols@.len() ==> !spec_is_fiat_excluded(
                    (#[trigger] symbols@[k]).base_asset@,
                ) && !spec_is_fiat_excluded(symbols@[k].quote_asset@),
        decreases n - i,
    {
        let ghost pre = symbols@;
        let entry = &entries[i];
        let trading = match doc_get(entry, "status") {
            Some(JsonDoc::Str(s)) => str_eq(s.as_str(), "TRADING"),
            _ => false,
        };
        proof {
            // An absent or non-string status never equals the literal.
            reveal_strlit("TRADING");
            assert(Seq::<char>::empty().len() == 0);
            assert(trading == (spec_member_str(*entry, "status"@) == "TRADING"@));
        }
        let spot = member_bool(entry, "isSpotTradingAllowed");
        if !(trading && spot) {
            proof {
                assert(spec_symbol_entry(entries@[i as int]) == Some(None::<SymbolInfoView>));
            }
            i = i + 1;
            continue;
        }
        let base_asset = member_str(entry, "baseAsset");
        let quote_asset = member_str(entry, "quoteAsset");
        if is_fiat_excluded(base_asset.as_str()) || is_fiat_excluded(quote_asset.as_str()) {
            proof {
                assert(spec_symbol_entry(entries@[i as int]) == Some(None::<SymbolInfoView>));
            }
            i = i + 1;
            continue;
        }
        let filters = match doc_get(entry, "filters") {
            Some(JsonDoc::Arr(a)) => a,
            _ => {
                proof {
                    assert(spec_symbol_entry(entries@[i as int]) is None);
                    lemma_symbols_none_propagates(entries@, i + 1, n as int);
                }
                return Err(SmartError::Schema(String::from_str("missing filters")));
            },
        };
        proof {
            reveal_strlit("LOT_SIZE");
            reveal_strlit("NOTIONAL");
        }
        let lot = find_filter(filters, "LOT_SIZE");
        let notional = find_filter(filters, "NOTIONAL");
        let (min_qty, max_qty, step_size) = match lot {
            None => (String::new(), String::new(), String::new()),
            Some(f) => (member_str(f, "minQty"), member_str(f, "maxQty"), member_str(
                f,
                "stepSize",
            )),
        };
        let (min_notional, max_notional) = match notional {
            None => (String::new(), String::new()),
            Some(f) => (member_str(f, "minNotional"), member_str(f, "maxNotional")),
        };
        let info = SymbolInfo {
            symbol: member_str(entry, "symbol"),
            base_asset,
            quote_asset,
            base_asset_precision: member_prec(entry, "baseAssetPrecision"),
            quote_asset_precision: member_prec(entry, "quoteAssetPrecision"),
            min_qty,
            max_qty,
            min_notional,
            max_notional,
            step_size,
        };
        proof {
            assert(spec_symbol_entry(entries@[i as int]) == Some(Some(info@)));
        }
        symbols.push(info);
        proof {
            assert(symbols@.map_values(|s: SymbolInfo| s@) =~= pre.map_values(
                |s: SymbolInfo| s@,
            ).push(symbols@.last()@));
        }
        i = i + 1;
    }
    Ok(symbols)
}

/// The first filter entry of the given type.
fn find_filter<'a>(filters: &'a Vec<JsonDoc>, kind: &str) -> (r: Option<&'a JsonDoc>)
    requires
        kind@.len() > 0,
    ensures
        match r {
            Some(f) => spec_find_filter(filters@, kind@) == Some(*f),
            None => spec_find_filter(filters@, kind@) is None,
        },
{
    let n = filters.len();
    proof {
        assert(filters@.subrange(0, n as int) =~= filters@);
    }
    let mut i: usize = 0;
    while i < n
        invariant
            n == filters@.len(),
            i <= n,
            kind@.len() > 0,
            spec_find_filter(filters@, kind@) == spec_find_filter(
                filters@.subrange(i as int, n as int),
                kind@,
            ),
        decreases n - i,
    {
        proof {
            assert(filters@.subrange(i as int, n as int)[0] == filters@[i as int]);
            assert(filters@.subrange(i as int, n as int).drop_first() =~= filters@.subrange(
                i + 1,
                n as int,
            ));
        }
        let f = &filters[i];
        let matches_kind = match doc_get(f, "filterType") {
            Some(JsonDoc::Str(s)) => str_eq(s.as_str(), kind),
            _ => false,
        };
        proof {
            assert(matches_kind == (spec_member_str(filters@[i as int], "filterType"@) == kind@));
        }
        if matches_kind {
            return Some(f);
        }
        i = i + 1;
    }
    proof {
        assert(filters@.subrange(n as int, n as int).len() == 0);
    }
    None
}

/// The `(symbol, price)` pairs among the first `n` items, or `None` when a
/// price is not a decimal string.
pub open spec fn spec_prices_upto(items: Seq<JsonDoc>, n: int) -> Option<Seq<(Seq<char>, u64)>>
    decreases n,
{
    if n <= 0 {
        Some(Seq::empty())
    } else {
        match spec_prices_upto(items, n - 1) {
            None => None,
            Some(acc) => {
                match spec_parse_fp(spec_member_str(items[n - 1], "price"@)) {
                    None => None,
                    Some(p) => Some(acc.push((spec_member_str(items[n - 1], "symbol"@), p))),
                }
            },
        }
    }
}

/// The price table denoted by a ticker-price document.
pub open spec fn spec_parse_prices(doc: JsonDoc) -> Option<Seq<(Seq<char>, u64)>> {
    match doc {
        JsonDoc::Arr(items) => spec_prices_upto(items@, items@.len() as int),
        _ => None,
    }
}

proof fn lemma_prices_none_propagates(items: Seq<JsonDoc>, i: int, n: int)
    requires
        0 <= i <= n,
        spec_prices_upto(items, i) is None,
    ensures
        spec_prices_upto(items, n) is None,
    decreases n - i,
{
    if i < n {
        lemma_prices_none_propagates(items, i + 1, n);
    }
}

/// Decodes the ticker-price document into `(symbol, price)` pairs; a price
/// that is not a decimal string fails the whole snapshot.
pub fn parse_prices(doc: &JsonDoc) -> (r: Result<Vec<(String, u64)>, SmartError>)
    ensures
        match r {
            Ok(prices) => spec_parse_prices(*doc) == Some(
                prices@.map_values(|p: (String, u64)| (p.0@, p.1)),
            ),
            Err(_) => spec_parse_prices(*doc) is None,
        },
{
    let items = match doc {
        JsonDoc::Arr(a) => a,
        _ => {
            return Err(SmartError::Schema(String::from_str("price list not an array")));
        },
    };
    let n = items.len();
    let mut prices: Vec<(String, u64)> = Vec::new();
    let mut i: usize = 0;
    while i < n
        invariant
            n == items@.len(),
            i <= n,
            spec_parse_prices(*doc) == spec_prices_upto(items@, n as int),
            spec_prices_upto(items@, i as int) == Some(
                prices@.map_values(|p: (String, u64)| (p.0@, p.1)),
            ),
        decreases n - i,
    {
        let ghost pre = prices@;
        let item = &items[i];
        let symbol = member_str(item, "symbol");
        let price_str = member_str(item, "price");
        let price = match parse_fp(price_str.as_str()) {
            None => {
                proof {
                    lemma_prices_none_propagates(items@, i + 1, n as int);
                }
                return Err(SmartError::Schema(String::from_str("price not a decimal")));
            },
            Some(p) => p,
        };
        prices.push((symbol, price));
        proof {
            assert(prices@.map_values(|p: (String, u64)| (p.0@, p.1)) =~= pre.map_values(
                |p: (String, u64)| (p.0@, p.1),
            ).push((prices@.last().0@, prices@.last().1)));
        }
        i = i + 1;
    }
    Ok(prices)
}

/// Ascending by price.
pub open spec fn book_sorted_asc(book: Seq<(u64, u64)>) -> bool {
    forall|i: int, j: int| 0 <= i < j < book.len() ==> (#[trigger] book[i]).0 <= (#[trigger] book[j]).0
}

/// Descending by price.
pub open spec fn book_sorted_desc(book: Seq<(u64, u64)>) -> bool {
    forall|i: int, j: int| 0 <= i < j < book.len() ==> (#[trigger] book[i]).0 >= (#[trigger] book[j]).0
}

/// Sorts book levels by price (selection order, first extreme first):
/// the result is a permutation of the input, ascending or descending as
/// asked.
pub fn sort_book(book: Vec<(u64, u64)>, ascending: bool) -> (r: Vec<(u64, u64)>)
    ensures
        r@.len() == book@.len(),
        r@.to_multiset() == book@.to_multiset(),
        ascending ==> book_sorted_asc(r@),
        !ascending ==> book_sorted_desc(r@),
{
    broadcast use vstd::seq_lib::group_to_multiset_ensures;

    let mut remaining = book;
    let mut out: Vec<(u64, u64)> = Vec::new();
    let ghost orig = remaining@.to_multiset();
    proof {
        assert(out@.to_multiset().add(remaining@.to_multiset()) =~= orig);
    }
    while remaining.len() > 0
        invariant
            out@.to_multiset().add(remaining@.to_multiset()) == orig,
            out@.len() + remaining@.len() == orig.len(),
            ascending ==> book_sorted_asc(out@),
            !ascending ==> book_sorted_desc(out@),
            forall|a: int, b: int|
                0 <= a < out@.len() && 0 <= b < remaining@.len() ==> (ascending ==> (
                #[trigger] out@[a]).0 <= (#[trigger] remaining@[b]).0) && (!ascending ==> out@[a].0
                    >= remaining@[b].0),
        decreases remaining@.len(),
    {
        // Select the extreme level.
        let mut best: usize = 0;
        let mut j: usize = 1;
        while j < remaining.len()
            invariant
                remaining@.len() > 0,
                best < j <= remaining@.len(),
                forall|k: int|
                    0 <= k < j ==> (ascending ==> remaining@[best as int].0 <= (
                    #[trigger] remaining@[k]).0) && (!ascending ==> remaining@[best as int].0
                        >= remaining@[k].0),
            decreases remaining@.len() - j,
        {
            let better = if ascending {
                remaining[j].0 < remaining[best].0
            } else {
                remaining[j].0 > remaining[best].0
            };
            if better {
                best = j;
            }
            j = j + 1;
        }
        let ghost out_pre = out@;
        let ghost rem_pre = remaining@;
        let level = remaining.remove(best);
        out.push(level);
        proof {
            rem_pre.to_multiset_ensures();
            out_pre.to_multiset_ensures();
            assert(rem_pre.remove(best as int).to_multiset() =~= rem_pre.to_multiset().remove(
                rem_pre[best as int],
            ));
            assert(out@ == out_pre.push(level));
            assert(out@.to_multiset() =~= out_pre.to_multiset().insert(level));
            assert(rem_pre.to_multiset().count(level) >= 1) by {
                assert(rem_pre.contains(level));
            }
            assert(out@.to_multiset().add(remaining@.to_multiset()) =~= out_pre.to_multiset().add(
                rem_pre.to_multiset(),
            ));
            assert forall|b: int| 0 <= b < remaining@.len() implies (ascending ==> level.0 <= (
            #[trigger] remaining@[b]).0) && (!ascending ==> level.0 >= remaining@[b].0) by {
                if b < best {
                    assert(remaining@[b] == rem_pre[b]);
                } else {
                    assert(remaining@[b] == rem_pre[b + 1]);
                }
            }
        }
    }
    out
}

/// One book level: a two-element array of decimal strings.
pub open spec fn spec_level(l: JsonDoc) -> Option<(u64, u64)> {
    match spec_doc_at(l, 0) {
        Some(JsonDoc::Str(ps)) => match spec_doc_at(l, 1) {
            Some(JsonDoc::Str(qs)) => match spec_parse_fp(ps@) {
                Some(p) => match spec_parse_fp(qs@) {
                    Some(q) => Some((p, q)),
                    None => None,
                },
                None => None,
            },
            _ => None,
        },
        _ => None,
    }
}

/// The parsed levels among the first `n`, or `None` on a malformed level.
pub open spec fn spec_levels_upto(levels: Seq<JsonDoc>, n: int) -> Option<Seq<(u64, u64)>>
    decreases n,
{
    if n <= 0 {
        Some(Seq::empty())
    } else {
        match spec_levels_upto(levels, n - 1) {
            None => None,
            Some(acc) => match spec_level(levels[n - 1]) {
                None => None,
                Some(pq) => Some(acc.push(pq)),
            },
        }
    }
}

/// The levels of the side a leg consumes, in document order.
pub open spec fn spec_parse_depth(doc: JsonDoc, fwd: bool) -> Option<Seq<(u64, u64)>> {
    let side = if fwd {
        "asks"@
    } else {
        "bids"@
    };
    match spec_doc_get(doc, side) {
        Some(JsonDoc::Arr(levels)) => spec_levels_upto(levels@, levels@.len() as int),
        _ => None,
    }
}

proof fn lemma_levels_none_propagates(levels: Seq<JsonDoc>, i: int, n: int)
    requires
        0 <= i <= n,
        spec_levels_upto(levels, i) is None,
    ensures
        spec_levels_upto(levels, n) is None,
    decreases n - i,
{
    if i < n {
        lemma_levels_none_propagates(levels, i + 1, n);
    }
}

/// Decodes one order-book document for the side a leg consumes: a
/// permutation of that side's parsed levels, sorted ascending for asks
/// (Forward) and descending for bids (Reverse).
pub fn parse_depth(doc: &JsonDoc, direction: &Direction) -> (r: Result<Vec<(u64, u64)>, SmartError>)
    ensures
        match r {
            Ok(book) => {
                &&& spec_parse_depth(*doc, *direction is Forward) matches Some(levels)
                &&& book@.to_multiset() == levels.to_multiset()
                &&& book@.len() == levels.len()
                &&& (*direction is Forward ==> book_sorted_asc(book@))
                &&& (*direction is Reverse ==> book_sorted_desc(book@))
            },
            Err(_) => spec_parse_depth(*doc, *direction is Forward) is None,
        },
{
    let side = direction.orderbook();
    let levels = match doc_get(doc, side) {
        Some(JsonDoc::Arr(a)) => a,
        _ => {
            return Err(SmartError::Schema(String::from_str("missing book side")));
        },
    };
    let n = levels.len();
    let mut book: Vec<(u64, u64)> = Vec::new();
    let mut i: usize = 0;
    while i < n
        invariant
            n == levels@.len(),
            i <= n,
            spec_parse_depth(*doc, *direction is Forward) == spec_levels_upto(
                levels@,
                n as int,
            ),
            spec_levels_upto(levels@, i as int) == Some(book@),
        decreases n - i,
    {
        let level = &levels[i];
        let price = match level_field(level, 0) {
            None => {
                proof {
                    lemma_levels_none_propagates(levels@, i + 1, n as int);
                }
                return Err(SmartError::Schema(String::from_str("invalid price format")));
            },
            Some(p) => p,
        };
        let qty = match level_field(level, 1) {
            None => {
                proof {
                    lemma_levels_none_propagates(levels@, i + 1, n as int);
                }
                return Err(SmartError::Schema(String::from_str("invalid quantity format")));
            },
            Some(q) => q,
        };
        proof {
            assert(spec_level(levels@[i as int]) == Some((price, qty)));
        }
        book.push((price, qty));
        i = i + 1;
    }
    let ascending = match direction {
        Direction::Forward => true,
        Direction::Reverse => false,
    };
    Ok(sort_book(book, ascending))
}

/// One decimal-string element of a book level.
fn level_field(level: &JsonDoc, idx: usize) -> (r: Option<u64>)
    ensures
        ({
            let elem = spec_doc_at(*level, idx as int);
            match r {
                Some(v) => elem matches Some(JsonDoc::Str(s)) && spec_parse_fp(s@) == Some(v),
                None => !(elem matches Some(JsonDoc::Str(s)) && spec_parse_fp(s@) is Some),
            }
        }),
{
    match level {
        JsonDoc::Arr(items) => {
            if idx < items.len() {
                match &items[idx] {
                    JsonDoc::Str(s) => parse_fp(s.as_str()),
                    _ => None,
                }
            } else {
                None
            }
        },
        _ => None,
    }
}

/// The fill report denoted by an order-placement response:
/// `(status, executed_base_qty, executed_quote_qty)`.
pub open spec fn spec_parse_order(doc: JsonDoc) -> Option<(Seq<char>, u64, u64)> {
    match spec_doc_get(doc, "status"@) {
        Some(JsonDoc::Str(st)) => {
            match spec_doc_get(doc, "executedQty"@) {
                Some(JsonDoc::Str(bs)) => match spec_parse_fp(bs@) {
                    Some(b) => match spec_doc_get(doc, "cummulativeQuoteQty"@) {
                        Some(JsonDoc::Str(qs)) => match spec_parse_fp(qs@) {
                            Some(q) => Some((st@, b, q)),
                            None => None,
                        },
                        _ => None,
                    },
                    None => None,
                },
                _ => None,
            }
        },
        _ => None,
    }
}

/// Decodes an order-placement response; see [`spec_parse_order`].
pub fn parse_order_response(doc: &JsonDoc) -> (r: Result<(String, u64, u64), SmartError>)
    ensures
        match r {
            Ok(fill) => spec_parse_order(*doc) == Some((fill.0@, fill.1, fill.2)),
            Err(_) => spec_parse_order(*doc) is None,
        },
{
    let status = match doc_get(doc, "status") {
        Some(JsonDoc::Str(s)) => s.clone(),
        _ => {
            return Err(SmartError::Schema(String::from_str("status not returned for order")));
        },
    };
    let executed_base = match doc_get(doc, "executedQty") {
        Some(JsonDoc::Str(s)) => match parse_fp(s.as_str()) {
            Some(q) => q,
            None => {
                return Err(
                    SmartError::Schema(String::from_str("executed quantity not a decimal")),
                );
            },
        },
        _ => {
            return Err(SmartError::Schema(String::from_str("missing executed base quantity")));
        },
    };
    let executed_quote = match doc_get(doc, "cummulativeQuoteQty") {
        Some(JsonDoc::Str(s)) => match parse_fp(s.as_str()) {
            Some(q) => q,
            None => {
                return Err(SmartError::Schema(String::from_str("quote quantity not a decimal")));
            },
        },
        _ => {
            return Err(SmartError::Schema(String::from_str("missing executed quote quantity")));
        },
    };
    Ok((status, executed_base, executed_quote))
}

/// The free balance of `asset` among account entries: the first entry with
/// that asset name decides; an absent asset has balance zero.
pub open spec fn spec_balance_in(entries: Seq<JsonDoc>, asset: Seq<char>) -> Option<u64>
    decreases entries.len(),
{
    if entries.len() == 0 {
        Some(0)
    } else if spec_member_str(entries[0], "asset"@) == asset {
        spec_parse_fp(spec_member_str(entries[0], "free"@))
    } else {
        spec_balance_in(entries.drop_first(), asset)
    }
}

/// The free balance denoted by an account-information document.
pub open spec fn spec_parse_balance(doc: JsonDoc, asset: Seq<char>) -> Option<u64> {
    match spec_doc_get(doc, "balances"@) {
        Some(JsonDoc::Arr(entries)) => spec_balance_in(entries@, asset),
        _ => None,
    }
}

/// Decodes an account-information response into the free balance of one
/// asset; see [`spec_parse_balance`].
pub fn parse_balance(doc: &JsonDoc, asset: &str) -> (r: Result<u64, SmartError>)
    ensures
        match r {
            Ok(b) => spec_parse_balance(*doc, asset@) == Some(b),
            Err(_) => spec_parse_balance(*doc, asset@) is None,
        },
{
    let entries = match doc_get(doc, "balances") {
        Some(JsonDoc::Arr(a)) => a,
        _ => {
            return Err(SmartError::Schema(String::from_str("failed to find balances")));
        },
    };
    let n = entries.len();
    proof {
        assert(entries@.subrange(0, n as int) =~= entries@);
    }
    let mut i: usize = 0;
    while i < n
        invariant
            n == entries@.len(),
            i <= n,
            spec_parse_balance(*doc, asset@) == spec_balance_in(entries@, asset@),
            spec_balance_in(entries@, asset@) == spec_balance_in(
                entries@.subrange(i as int, n as int),
                asset@,
            ),
        decreases n - i,
    {
        proof {
            assert(entries@.subrange(i as int, n as int)[0] == entries@[i as int]);
            assert(entries@.subrange(i as int, n as int).drop_first() =~= entries@.subrange(
                i + 1,
                n as int,
            ));
        }
        let item = &entries[i];
        let coin = member_str(item, "asset");
        if str_eq(coin.as_str(), asset) {
            let free = member_str(item, "free");
            return match parse_fp(free.as_str()) {
                None => Err(SmartError::Schema(String::from_str("balance not a decimal"))),
                Some(b) => Ok(b),
            };
        }
        i = i + 1;
    }
    proof {
        assert(entries@.subrange(n as int, n as int).len() == 0);
    }
    Ok(0)
}

/// The update denoted by one book-ticker stream message:
/// `(symbol uppercased, best_ask, best_bid)`.
pub open spec fn spec_parse_book_ticker(doc: JsonDoc) -> Option<(Seq<char>, u64, u64)> {
    match spec_doc_get(doc, "data"@) {
        Some(inner) => match spec_doc_get(inner, "s"@) {
            Some(JsonDoc::Str(sym)) => {
                match spec_parse_fp(spec_member_str(inner, "a"@)) {
                    Some(a) => match spec_parse_fp(spec_member_str(inner, "b"@)) {
                        Some(b) => Some((spec_ascii_upper(sym@), a, b)),
                        None => None,
                    },
                    None => None,
                }
            },
            _ => None,
        },
        None => None,
    }
}

/// Decodes one book-ticker stream message; see [`spec_parse_book_ticker`].
pub fn parse_book_ticker(doc: &JsonDoc) -> (r: Result<(String, u64, u64), SmartError>)
    ensures
        match r {
            Ok(t) => spec_parse_book_ticker(*doc) == Some((t.0@, t.1, t.2)),
            Err(_) => spec_parse_book_ticker(*doc) is None,
        },
{
    let inner = match doc_get(doc, "data") {
        Some(d) => d,
        None => {
            return Err(SmartError::Schema(String::from_str("missing stream payload")));
        },
    };
    let symbol = match doc_get(inner, "s") {
        Some(JsonDoc::Str(s)) => ascii_upper(s.as_str()),
        _ => {
            return Err(SmartError::Schema(String::from_str("missing stream symbol")));
        },
    };
    let ask_str = member_str(inner, "a");
    let bid_str = member_str(inner, "b");
    let best_ask = match parse_fp(ask_str.as_str()) {
        None => {
            return Err(SmartError::Schema(String::from_str("best ask not a decimal")));
        },
        Some(p) => p,
    };
    let best_bid = match parse_fp(bid_str.as_str()) {
        None => {
            return Err(SmartError::Schema(String::from_str("best bid not a decimal")));
        },
        Some(p) => p,
    };
    Ok((symbol, best_ask, best_bid))
}

} // verus!
