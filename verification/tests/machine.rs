use binance_bot::candle::{Origin, Tick};
use binance_bot::dec::Dec;
use binance_bot::signal::{signal_step, OrderState};

fn tick(ts: i64, v: i64, origin: Origin) -> Option<Tick> {
    Some(Tick { ts, value: Dec::from_i64(v), origin })
}

#[test]
fn buy_side_arms_confirms_fires_and_resets() {
    let mut buy = OrderState::new();
    let mut sell = OrderState::new();
    let buy_thr = Dec::from_i64(30);
    let sell_thr = Dec::from_i64(70);

    // rsi 20 < 30 arms the buy side with macd 1
    let (b, s) = signal_step(&mut buy, &mut sell, &tick(0, 20, Origin::Live), &tick(0, 1, Origin::Live), buy_thr, sell_thr);
    assert!(b.is_none() && s.is_none());
    assert_eq!(buy.prev_macd, Some(Dec::from_i64(1)));
    assert_eq!(buy.confirm_count, 0);

    // macd rises to 2: first confirmation, baseline tracks 2
    let (b, _) = signal_step(&mut buy, &mut sell, &tick(1, 20, Origin::Live), &tick(1, 2, Origin::Live), buy_thr, sell_thr);
    assert!(b.is_none());
    assert_eq!(buy.prev_macd, Some(Dec::from_i64(2)));
    assert_eq!(buy.confirm_count, 1);

    // macd rises again: second confirmation fires the intent and resets
    let (b, s) = signal_step(&mut buy, &mut sell, &tick(2, 50, Origin::Live), &tick(2, 3, Origin::Live), buy_thr, sell_thr);
    let intent = b.unwrap();
    assert_eq!(intent.ts, 2);
    assert!(intent.rsi.eq_frac(Dec::from_i64(50)));
    assert!(intent.macd.eq_frac(Dec::from_i64(3)));
    assert_eq!(intent.confirm_count, 2);
    // confirmation reset: baseline and count are cleared immediately
    assert_eq!(buy.prev_macd, None);
    assert_eq!(buy.confirm_count, 0);
    assert!(s.is_none());
}

#[test]
fn sell_side_confirms_on_falling_macd() {
    let mut buy = OrderState::new();
    let mut sell = OrderState::new();
    let buy_thr = Dec::from_i64(30);
    let sell_thr = Dec::from_i64(70);

    signal_step(&mut buy, &mut sell, &tick(0, 80, Origin::Live), &tick(0, 5, Origin::Live), buy_thr, sell_thr);
    assert_eq!(sell.prev_macd, Some(Dec::from_i64(5)));
    signal_step(&mut buy, &mut sell, &tick(1, 80, Origin::Live), &tick(1, 4, Origin::Live), buy_thr, sell_thr);
    assert_eq!(sell.confirm_count, 1);
    let (b, s) = signal_step(&mut buy, &mut sell, &tick(2, 80, Origin::Live), &tick(2, 3, Origin::Live), buy_thr, sell_thr);
    assert!(b.is_none());
    let intent = s.unwrap();
    assert_eq!(intent.confirm_count, 2);
    assert_eq!(sell.prev_macd, None);
    assert_eq!(sell.confirm_count, 0);
}

#[test]
fn historical_events_never_trade() {
    let mut buy = OrderState::new();
    let mut sell = OrderState::new();
    let buy_thr = Dec::from_i64(30);
    let sell_thr = Dec::from_i64(70);
    // a historical RSI reading must not arm anything
    let (b, s) = signal_step(&mut buy, &mut sell, &tick(0, 20, Origin::Historical), &tick(0, 1, Origin::Live), buy_thr, sell_thr);
    assert!(b.is_none() && s.is_none());
    assert_eq!(buy.prev_macd, None);
    assert_eq!(sell.prev_macd, None);
}

#[test]
fn not_ready_events_advance_nothing() {
    let mut buy = OrderState::new();
    let mut sell = OrderState::new();
    let buy_thr = Dec::from_i64(30);
    let sell_thr = Dec::from_i64(70);
    let (b, s) = signal_step(&mut buy, &mut sell, &None, &tick(0, 1, Origin::Live), buy_thr, sell_thr);
    assert!(b.is_none() && s.is_none());
    assert_eq!(buy.confirm_count, 0);
    let (b, s) = signal_step(&mut buy, &mut sell, &tick(0, 20, Origin::Live), &None, buy_thr, sell_thr);
    assert!(b.is_none() && s.is_none());
    assert_eq!(buy.prev_macd, None);
}

#[test]
fn both_sides_may_arm_on_one_event() {
    // with inverted thresholds one event straddles: both sides arm at once
    let mut buy = OrderState::new();
    let mut sell = OrderState::new();
    let buy_thr = Dec::from_i64(60);
    let sell_thr = Dec::from_i64(40);
    signal_step(&mut buy, &mut sell, &tick(0, 50, Origin::Live), &tick(0, 1, Origin::Live), buy_thr, sell_thr);
    assert_eq!(buy.prev_macd, Some(Dec::from_i64(1)));
    assert_eq!(sell.prev_macd, Some(Dec::from_i64(1)));
}
