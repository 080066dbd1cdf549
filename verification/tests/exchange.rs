use binance_bot::dec::Dec;
use binance_bot::info::{process_info, symbol_exist, ExchangeInfo, SymbolFilter, SymbolInfo};

fn sample_info() -> ExchangeInfo {
    ExchangeInfo {
        symbols: vec![
            SymbolInfo {
                symbol: "ETHUSD".to_string(),
                base_asset: "ETH".to_string(),
                quote_asset: "USD".to_string(),
                filters: vec![
                    SymbolFilter::MinNotional { min_notional: Dec::from_i64(5) },
                    SymbolFilter::LotSize { min_qty: Dec { n: 1, d: 100 } },
                ],
            },
            SymbolInfo {
                symbol: "BNBUSD".to_string(),
                base_asset: "BNB".to_string(),
                quote_asset: "USD".to_string(),
                filters: vec![
                    SymbolFilter::Other,
                    SymbolFilter::MinNotional { min_notional: Dec::from_i64(10) },
                    SymbolFilter::LotSize { min_qty: Dec { n: 1, d: 1000 } },
                    // the wire payload is scanned to its end: the last
                    // filter of each kind wins
                    SymbolFilter::MinNotional { min_notional: Dec::from_i64(20) },
                ],
            },
        ],
    }
}

#[test]
fn symbol_exist_finds_listed_symbols() {
    let info = sample_info();
    assert!(symbol_exist(&"BNBUSD".to_string(), &info));
    assert!(symbol_exist(&"ETHUSD".to_string(), &info));
    assert!(!symbol_exist(&"DOGEUSD".to_string(), &info));
}

#[test]
fn process_info_takes_last_matching_filters() {
    let info = sample_info();
    let (min_notional, min_qty, base, quote) = process_info(&"BNBUSD".to_string(), &info);
    assert!(min_notional.eq_frac(Dec::from_i64(20)));
    assert!(min_qty.eq_frac(Dec { n: 1, d: 1000 }));
    assert_eq!(base, "BNB".to_string());
    assert_eq!(quote, "USD".to_string());
}
