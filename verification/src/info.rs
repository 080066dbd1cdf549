//! Typed exchange information.
//!
//! The connectivity layer decodes the exchange's info payload into these
//! types, failing closed on schema mismatch; the lookups here then run on
//! plain values. Lookups take the last matching entry, as the wire payload
//! is scanned to its end.

use vstd::prelude::*;

verus! {

use crate::dec::Dec;

/// One per-symbol trading filter of the exchange info.
#[derive(Clone, Copy, Debug, PartialEq, Eq, Structural)]
pub enum SymbolFilter {
    MinNotional { min_notional: Dec },
    LotSize { min_qty: Dec },
    Other,
}

/// One tradable symbol of the exchange info.
#[derive(Clone, Debug)]
pub struct SymbolInfo {
    pub symbol: String,
    pub base_asset: String,
    pub quote_asset: String,
    pub filters: Vec<SymbolFilter>,
}

/// The exchange info: every listed symbol.
#[derive(Clone, Debug)]
pub struct ExchangeInfo {
    pub symbols: Vec<SymbolInfo>,
}

/// Some entry carries the requested symbol name.
pub open spec fn has_symbol(info: ExchangeInfo, symbol: Seq<char>) -> bool {
    exists|i: int| 0 <= i < info.symbols@.len() && (#[trigger] info.symbols@[i]).symbol@ == symbol
}

/// Index of the last entry carrying the symbol name, or -1.
pub open spec fn last_match(symbols: Seq<SymbolInfo>, name: Seq<char>) -> int
    decreases symbols.len(),
{
    if symbols.len() == 0 {
        -1
    } else if symbols.last().symbol@ == name {
        symbols.len() - 1
    } else {
        last_match(symbols.drop_last(), name)
    }
}

/// Index of the last minimum-notional filter, or -1.
pub open spec fn last_min_notional(fs: Seq<SymbolFilter>) -> int
    decreases fs.len(),
{
    if fs.len() == 0 {
        -1
    } else if fs.last() is MinNotional {
        fs.len() - 1
    } else {
        last_min_notional(fs.drop_last())
    }
}

/// Index of the last lot-size filter, or -1.
pub open spec fn last_lot_size(fs: Seq<SymbolFilter>) -> int
    decreases fs.len(),
{
    if fs.len() == 0 {
        -1
    } else if fs.last() is LotSize {
        fs.len() - 1
    } else {
        last_lot_size(fs.drop_last())
    }
}

/// The last matching index is in range and matches.
proof fn lemma_last_match_props(symbols: Seq<SymbolInfo>, name: Seq<char>)
    ensures
        -1 <= last_match(symbols, name) < symbols.len(),
        last_match(symbols, name) >= 0 ==> symbols[last_match(symbols, name)].symbol@ == name,
    decreases symbols.len(),
{
    if symbols.len() > 0 && !(symbols.last().symbol@ == name) {
        lemma_last_match_props(symbols.drop_last(), name);
    }
}

/// The last minimum-notional index is in range and of that kind.
proof fn lemma_last_min_notional_props(fs: Seq<SymbolFilter>)
    ensures
        -1 <= last_min_notional(fs) < fs.len(),
        last_min_notional(fs) >= 0 ==> fs[last_min_notional(fs)] is MinNotional,
    decreases fs.len(),
{
    if fs.len() > 0 && !(fs.last() is MinNotional) {
        lemma_last_min_notional_props(fs.drop_last());
    }
}

/// The last lot-size index is in range and of that kind.
proof fn lemma_last_lot_size_props(fs: Seq<SymbolFilter>)
    ensures
        -1 <= last_lot_size(fs) < fs.len(),
        last_lot_size(fs) >= 0 ==> fs[last_lot_size(fs)] is LotSize,
    decreases fs.len(),
{
    if fs.len() > 0 && !(fs.last() is LotSize) {
        lemma_last_lot_size_props(fs.drop_last());
    }
}

/// Whether the exchange lists the symbol at all.
pub fn symbol_exist(symbol: &String, info: &ExchangeInfo) -> (r: bool)
    ensures
        r == has_symbol(*info, symbol@),
{
    let mut i: usize = 0;
    while i < info.symbols.len()
        invariant
            i <= info.symbols@.len(),
            forall|j: int| 0 <= j < i ==> (#[trigger] info.symbols@[j]).symbol@ != symbol@,
        decreases info.symbols@.len() - i,
    {
        if info.symbols[i].symbol == *symbol {
            return true;
        }
        i += 1;
    }
    false
}

/// Trading parameters of a listed symbol: the minimum notional, the minimum
/// lot quantity, and the base and quote asset names, all taken from the last
/// matching entry and its last filter of each kind, as the original payload
/// is scanned to its end.
pub fn process_info(symbol: &String, info: &ExchangeInfo) -> (r: (Dec, Dec, String, String))
    requires
        last_match(info.symbols@, symbol@) >= 0,
        last_min_notional(info.symbols@[last_match(info.symbols@, symbol@)].filters@) >= 0,
        last_lot_size(info.symbols@[last_match(info.symbols@, symbol@)].filters@) >= 0,
    ensures
        ({
            let entry = info.symbols@[last_match(info.symbols@, symbol@)];
            let mn = entry.filters@[last_min_notional(entry.filters@)];
            let ls = entry.filters@[last_lot_size(entry.filters@)];
            &&& mn matches SymbolFilter::MinNotional { min_notional } && r.0 == min_notional
            &&& ls matches SymbolFilter::LotSize { min_qty } && r.1 == min_qty
            &&& r.2@ == entry.base_asset@
            &&& r.3@ == entry.quote_asset@
        }),
{
    proof {
        lemma_last_match_props(info.symbols@, symbol@);
    }
    let mut best: usize = 0;
    let mut i: usize = 0;
    while i < info.symbols.len()
        invariant
            i <= info.symbols@.len(),
            last_match(info.symbols@, symbol@) >= 0,
            last_match(info.symbols@.take(i as int), symbol@) >= 0 ==> best == last_match(
                info.symbols@.take(i as int),
                symbol@,
            ),
            last_match(info.symbols@.take(i as int), symbol@) < 0 ==> best == 0,
            best < info.symbols@.len() || best == 0,
        decreases info.symbols@.len() - i,
    {
        proof {
            assert(info.symbols@.take(i + 1).drop_last() =~= info.symbols@.take(i as int));
            assert(info.symbols@.take(i + 1).last() == info.symbols@[i as int]);
        }
        if info.symbols[i].symbol == *symbol {
            best = i;
        }
        i += 1;
    }
    proof {
        assert(info.symbols@.take(info.symbols@.len() as int) =~= info.symbols@);
    }
    let entry: &SymbolInfo = &info.symbols[best];
    let ghost fsq = entry.filters@;
    proof {
        lemma_last_min_notional_props(fsq);
        lemma_last_lot_size_props(fsq);
    }
    let mut min_notional: Dec = Dec::from_i64(0);
    let mut min_qty: Dec = Dec::from_i64(0);
    let mut mn_at: usize = 0;
    let mut ls_at: usize = 0;
    let mut seen_mn: bool = false;
    let mut seen_ls: bool = false;
    let mut j: usize = 0;
    while j < entry.filters.len()
        invariant
            j <= fsq.len(),
            fsq == entry.filters@,
            seen_mn == (last_min_notional(fsq.take(j as int)) >= 0),
            seen_mn ==> mn_at == last_min_notional(fsq.take(j as int)) && mn_at < fsq.len()
                && (fsq[mn_at as int] matches SymbolFilter::MinNotional { min_notional: v }
                && min_notional == v),
            seen_ls == (last_lot_size(fsq.take(j as int)) >= 0),
            seen_ls ==> ls_at == last_lot_size(fsq.take(j as int)) && ls_at < fsq.len() && (
            fsq[ls_at as int] matches SymbolFilter::LotSize { min_qty: v } && min_qty == v),
        decreases fsq.len() - j,
    {
        proof {
            assert(fsq.take(j + 1).drop_last() =~= fsq.take(j as int));
            assert(fsq.take(j + 1).last() == fsq[j as int]);
        }
        match entry.filters[j] {
            SymbolFilter::MinNotional { min_notional: v } => {
                min_notional = v;
                mn_at = j;
                seen_mn = true;
            },
            SymbolFilter::LotSize { min_qty: v } => {
                min_qty = v;
                ls_at = j;
                seen_ls = true;
            },
            SymbolFilter::Other => {},
        }
        j += 1;
    }
    proof {
        assert(fsq.take(fsq.len() as int) =~= fsq);
    }
    (min_notional, min_qty, entry.base_asset.clone(), entry.quote_asset.clone())
}

} // verus!
