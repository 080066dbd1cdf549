use binance_bot::candle::{
    accept_live, build_candle, build_history, unify, Candle, KlineRow, LiveMsg, Origin,
};
use binance_bot::dec::Dec;

fn candle(ts: i64, origin: Origin) -> Candle {
    Candle { ts, open: Dec::from_i64(1), close: Dec::from_i64(2), origin }
}

#[test]
fn unify_drops_forming_bar_and_tags_origins() {
    // the live feed is tagged live even if handed over with another tag
    let history = vec![candle(0, Origin::Live), candle(1, Origin::Live), candle(2, Origin::Live)];
    let live = vec![candle(2, Origin::Historical), candle(3, Origin::Historical)];
    let out = unify(&history, &live);
    assert_eq!(out.len(), 4);
    assert_eq!(out[0].ts, 0);
    assert_eq!(out[1].ts, 1);
    assert_eq!(out[2].ts, 2);
    assert_eq!(out[3].ts, 3);
    assert_eq!(out[0].origin, Origin::Historical);
    assert_eq!(out[1].origin, Origin::Historical);
    assert_eq!(out[2].origin, Origin::Live);
    assert_eq!(out[3].origin, Origin::Live);
    // strictly increasing timestamps: nothing repeats across the seam
    for w in out.windows(2) {
        assert!(w[0].ts < w[1].ts);
    }
}

#[test]
fn build_candle_parses_prices() {
    let row = KlineRow { ts_ms: 1_600_000_000_000, open: "1.5".to_string(), close: "2.25".to_string() };
    let c = build_candle(&row, Origin::Historical).unwrap();
    assert_eq!(c.ts, 1_600_000_000_000);
    assert!(c.open.eq_frac(Dec { n: 3, d: 2 }));
    assert!(c.close.eq_frac(Dec { n: 9, d: 4 }));
    assert_eq!(c.origin, Origin::Historical);
}

#[test]
fn build_candle_fails_closed() {
    let row = KlineRow { ts_ms: 0, open: "oops".to_string(), close: "2".to_string() };
    assert!(build_candle(&row, Origin::Live).is_none());
}

#[test]
fn build_history_drops_last_row_unparsed() {
    let rows = vec![
        KlineRow { ts_ms: 0, open: "1".to_string(), close: "2".to_string() },
        KlineRow { ts_ms: 1, open: "2".to_string(), close: "3".to_string() },
        // the still-forming bar may be arbitrary: it is dropped before parsing
        KlineRow { ts_ms: 2, open: "not-a-price".to_string(), close: "".to_string() },
    ];
    let out = build_history(&rows).unwrap();
    assert_eq!(out.len(), 2);
    assert_eq!(out[0].ts, 0);
    assert_eq!(out[1].ts, 1);
    assert!(out.iter().all(|c| c.origin == Origin::Historical));
}

#[test]
fn build_history_rejects_malformed_rows() {
    let rows = vec![
        KlineRow { ts_ms: 0, open: "x".to_string(), close: "2".to_string() },
        KlineRow { ts_ms: 1, open: "2".to_string(), close: "3".to_string() },
    ];
    assert!(build_history(&rows).is_none());
}

#[test]
fn accept_live_filters_stream_and_closed_flag() {
    let row = KlineRow { ts_ms: 7, open: "1".to_string(), close: "2".to_string() };
    let expected = "bnbusdt@kline_1h".to_string();
    let good = LiveMsg { stream: expected.clone(), closed: true, row: row.clone() };
    let c = accept_live(&good, &expected).unwrap();
    assert_eq!(c.ts, 7);
    assert_eq!(c.origin, Origin::Live);

    let other = LiveMsg { stream: "ethusdt@kline_1h".to_string(), closed: true, row: row.clone() };
    assert!(accept_live(&other, &expected).is_none());

    let forming = LiveMsg { stream: expected.clone(), closed: false, row: row.clone() };
    assert!(accept_live(&forming, &expected).is_none());

    let bad = LiveMsg {
        stream: expected.clone(),
        closed: true,
        row: KlineRow { ts_ms: 7, open: "?".to_string(), close: "2".to_string() },
    };
    assert!(accept_live(&bad, &expected).is_none());
}

#[test]
fn unify_with_single_history_candle_yields_live_only() {
    let history = vec![candle(5, Origin::Historical)];
    let live = vec![candle(5, Origin::Live), candle(6, Origin::Live)];
    let out = unify(&history, &live);
    assert_eq!(out.len(), 2);
    assert_eq!(out[0].ts, 5);
    assert_eq!(out[1].ts, 6);
    assert!(out.iter().all(|c| c.origin == Origin::Live));
}
