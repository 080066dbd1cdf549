use binance_bot::candle::{Candle, Origin, Tick};
use binance_bot::compose::{macd_with_windows, rsi_with_window, rsi_zip};
use binance_bot::dec::{Dec, NumError};
use binance_bot::ema::ema;

fn candle(ts: i64, open: i64, close: i64) -> Candle {
    Candle {
        ts,
        open: Dec::from_i64(open),
        close: Dec::from_i64(close),
        origin: Origin::Historical,
    }
}

#[test]
fn ema_window_three_example() {
    // closes 10, 12, 14, 13, 15 with window 3: seed avg(10,12,14) = 12 is
    // suppressed; k = 1/2, so the steady values are 12.5 and 13.75.
    let closes = [10i64, 12, 14, 13, 15];
    let candles: Vec<Candle> = closes
        .iter()
        .enumerate()
        .map(|(i, &c)| candle(i as i64, 1, c))
        .collect();
    let out = ema(&candles, 3).unwrap();
    assert_eq!(out.len(), 5);
    assert!(out[0].is_none());
    assert!(out[1].is_none());
    assert!(out[2].is_none());
    let v3 = out[3].unwrap();
    assert!(v3.value.eq_frac(Dec { n: 25, d: 2 }));
    assert_eq!(v3.ts, 3);
    let v4 = out[4].unwrap();
    assert!(v4.value.eq_frac(Dec { n: 55, d: 4 }));
}

#[test]
fn ema_warm_up_length() {
    // window 2 over four candles: the first two outputs (warm-up and seed)
    // are silent, the rest are present.
    let candles: Vec<Candle> = (0..4).map(|i| candle(i, 1, i + 1)).collect();
    let out = ema(&candles, 2).unwrap();
    assert_eq!(out.len(), 4);
    assert!(out[0].is_none());
    assert!(out[1].is_none());
    assert!(out[2].is_some());
    assert!(out[3].is_some());
}

#[test]
fn ema_window_one_starts_after_first() {
    let candles: Vec<Candle> = (0..3).map(|i| candle(i, 1, 10 * (i + 1))).collect();
    let out = ema(&candles, 1).unwrap();
    assert!(out[0].is_none());
    // with window 1 the smoothing factor is 1, so the value tracks the close
    assert!(out[1].unwrap().value.eq_frac(Dec::from_i64(20)));
    assert!(out[2].unwrap().value.eq_frac(Dec::from_i64(30)));
}

#[test]
fn ema_overflow_reports_error() {
    let candles: Vec<Candle> = (0..3).map(|i| candle(i, 1, i64::MAX)).collect();
    assert_eq!(ema(&candles, 2), Err(NumError::Overflow));
}

#[test]
fn macd_fast_minus_slow() {
    // closes 10, 20, 30 with windows (1, 2): at the third candle the fast
    // side reads 30 and the slow side 30*2/3 + 15*1/3 = 25, so MACD is 5.
    let candles: Vec<Candle> = [10i64, 20, 30]
        .iter()
        .enumerate()
        .map(|(i, &c)| candle(i as i64, 1, c))
        .collect();
    let out = macd_with_windows(&candles, 1, 2).unwrap();
    assert_eq!(out.len(), 3);
    assert!(out[0].is_none());
    assert!(out[1].is_none());
    let v = out[2].unwrap();
    assert!(v.value.eq_frac(Dec::from_i64(5)));
    assert_eq!(v.ts, 2);
}

#[test]
fn rsi_exact_values_and_bounds() {
    // window 1: the averages track the gains/losses closes directly.
    let candles = vec![
        Candle { ts: 0, open: Dec::from_i64(1), close: Dec::from_i64(2), origin: Origin::Historical },
        Candle { ts: 1, open: Dec::from_i64(2), close: Dec::from_i64(1), origin: Origin::Historical },
        Candle { ts: 2, open: Dec::from_i64(1), close: Dec::from_i64(3), origin: Origin::Live },
    ];
    let out = rsi_with_window(&candles, 1).unwrap();
    assert_eq!(out.len(), 3);
    assert!(out[0].is_none());
    // falling bar: gain = epsilon, loss = 1, so rsi = 100 / (10^10 + 1)
    let v1 = out[1].unwrap();
    assert!(v1.value.eq_frac(Dec { n: 100, d: 10_000_000_001 }));
    assert_eq!(v1.origin, Origin::Historical);
    // rising bar: gain = 3, loss = epsilon, so rsi = 3*10^12 / (3*10^10 + 1)
    let v2 = out[2].unwrap();
    assert!(v2.value.eq_frac(Dec { n: 3_000_000_000_000, d: 30_000_000_001 }));
    assert_eq!(v2.origin, Origin::Live);
    // bounds
    let zero = Dec::from_i64(0);
    let hundred = Dec::from_i64(100);
    for r in [v1, v2] {
        assert!(zero.le(r.value));
        assert!(r.value.le(hundred));
    }
}

#[test]
fn rsi_one_sided_warmup_never_computes() {
    // one side permanently present, the other permanently warming: the pair
    // must stay "not ready" forever.
    let present: Vec<Option<Tick>> = (0..5)
        .map(|i| {
            Some(Tick { ts: i, value: Dec::from_i64(2), origin: Origin::Live })
        })
        .collect();
    let absent: Vec<Option<Tick>> = (0..5).map(|_| None).collect();
    let out = rsi_zip(&present, &absent).unwrap();
    assert_eq!(out.len(), 5);
    assert!(out.iter().all(|o| o.is_none()));
    let out2 = rsi_zip(&absent, &present).unwrap();
    assert!(out2.iter().all(|o| o.is_none()));
}

#[test]
fn rsi_zip_stops_at_shorter_side() {
    let longer: Vec<Option<Tick>> = (0..7)
        .map(|i| Some(Tick { ts: i, value: Dec::from_i64(1), origin: Origin::Live }))
        .collect();
    let shorter: Vec<Option<Tick>> = (0..4)
        .map(|i| Some(Tick { ts: i, value: Dec::from_i64(1), origin: Origin::Live }))
        .collect();
    let out = rsi_zip(&longer, &shorter).unwrap();
    assert_eq!(out.len(), 4);
    // aligned timestamps are carried through unchanged
    for (i, o) in out.iter().enumerate() {
        assert_eq!(o.unwrap().ts, i as i64);
    }
}

#[test]
fn conventional_windows_flat_market() {
    // a flat market: every bar has delta zero, so both RSI sides run on the
    // epsilon substitute and the index settles at exactly 50, while the fast
    // and slow EMAs coincide and MACD is exactly zero.
    let candles: Vec<Candle> = (0..27).map(|i| candle(i, 3, 3)).collect();
    let rsi_out = binance_bot::compose::rsi(&candles).unwrap();
    assert_eq!(rsi_out.len(), 27);
    for (i, o) in rsi_out.iter().enumerate() {
        assert_eq!(o.is_none(), i < 14);
    }
    for o in rsi_out.iter().flatten() {
        assert!(o.value.eq_frac(Dec::from_i64(50)));
    }
    let macd_out = binance_bot::compose::macd(&candles).unwrap();
    assert_eq!(macd_out.len(), 27);
    for (i, o) in macd_out.iter().enumerate() {
        assert_eq!(o.is_none(), i < 26);
    }
    assert!(macd_out[26].unwrap().value.eq_frac(Dec::from_i64(0)));
}
