//! Crossover-confirmation signal state machine.
//!
//! The machine consumes paired (RSI, MACD) readings. Only events whose RSI
//! reading is live may trade: historical replay exists purely to warm the
//! indicator pipeline. Each side (buy and sell) arms a MACD baseline when the
//! RSI crosses its threshold, counts locally favorable MACD moves while
//! armed, fires an intent at two confirmations, and then resets. The two
//! sides are deliberately independent and may both be armed at once — the
//! machine places no mutual exclusion between a buy and a sell arming, so a
//! straddle is possible; whether that is intended is an open question of the
//! design, and the behavior is kept as it stands.

use vstd::prelude::*;

verus! {

use crate::candle::{Origin, Tick};
use crate::dec::{Dec, ratio_lt};

/// Per-side confirmation state: the most recently seen MACD value once
/// armed, and the number of favorable steps observed since arming.
pub struct OrderState {
    pub prev_macd: Option<Dec>,
    pub confirm_count: usize,
}

impl OrderState {
    /// A held baseline is a well-formed fraction.
    pub open spec fn wf(self) -> bool {
        self.prev_macd matches Some(p) ==> p.wf()
    }

    /// Fresh, disarmed state: no baseline, zero confirmations.
    pub fn new() -> (r: OrderState)
        ensures
            r.prev_macd is None,
            r.confirm_count == 0,
    {
        OrderState { prev_macd: None, confirm_count: 0 }
    }
}

/// A buy intent handed to the execution layer.
#[derive(Clone, Copy, Debug, PartialEq, Eq, Structural)]
pub struct BuyIntent {
    pub ts: i64,
    pub rsi: Dec,
    pub macd: Dec,
    pub confirm_count: usize,
}

/// A sell intent handed to the execution layer.
#[derive(Clone, Copy, Debug, PartialEq, Eq, Structural)]
pub struct SellIntent {
    pub ts: i64,
    pub rsi: Dec,
    pub macd: Dec,
    pub confirm_count: usize,
}

/// Whether a paired event may drive trading: the RSI reading is present and
/// live, and the MACD reading is present. A "not ready" event is never
/// eligible and advances no state.
pub open spec fn eligible(rsi_t: Option<Tick>, macd_t: Option<Tick>) -> bool {
    rsi_t matches Some(rt) && rt.origin == Origin::Live && macd_t is Some
}

/// The buy side after one eligible event with RSI `r` and MACD `m`: the side
/// arms (records `m` as baseline) when `r` is under the threshold and no
/// baseline is held; while a baseline is held, the confirm count rises
/// exactly when `m` exceeds it, and the baseline then tracks `m` — so a
/// confirmation means the MACD has been locally increasing since arming.
pub open spec fn buy_track(st: OrderState, r: Dec, m: Dec, thr: Dec) -> OrderState {
    let armed = if ratio_lt(r@, thr@) && st.prev_macd is None {
        OrderState { prev_macd: Some(m), confirm_count: st.confirm_count }
    } else {
        st
    };
    match armed.prev_macd {
        Some(pm) => OrderState {
            prev_macd: Some(m),
            confirm_count: if ratio_lt(pm@, m@) {
                (armed.confirm_count + 1) as usize
            } else {
                armed.confirm_count
            },
        },
        None => armed,
    }
}

/// The sell side after one eligible event: symmetric to the buy side, with
/// arming above the threshold and confirmation on a locally decreasing MACD.
pub open spec fn sell_track(st: OrderState, r: Dec, m: Dec, thr: Dec) -> OrderState {
    let armed = if ratio_lt(thr@, r@) && st.prev_macd is None {
        OrderState { prev_macd: Some(m), confirm_count: st.confirm_count }
    } else {
        st
    };
    match armed.prev_macd {
        Some(pm) => OrderState {
            prev_macd: Some(m),
            confirm_count: if ratio_lt(m@, pm@) {
                (armed.confirm_count + 1) as usize
            } else {
                armed.confirm_count
            },
        },
        None => armed,
    }
}

/// A side fires once it holds more than one confirmation.
pub open spec fn fires(st: OrderState) -> bool {
    st.confirm_count > 1
}

/// Drive both sides of the signal state machine by one paired event.
///
/// An ineligible event (either reading absent, or the RSI reading not live)
/// changes nothing and emits nothing. An eligible event moves each side by
/// its tracking rule; a side that then holds more than one confirmation
/// emits its intent and is reset to no baseline and a zero count — the
/// confirmation reset holds even when the other side fires on the same
/// event, since the sides are independent.
pub fn signal_step(
    buy: &mut OrderState,
    sell: &mut OrderState,
    rsi_t: &Option<Tick>,
    macd_t: &Option<Tick>,
    rsi_buy: Dec,
    rsi_sell: Dec,
) -> (r: (Option<BuyIntent>, Option<SellIntent>))
    requires
        old(buy).wf(),
        old(sell).wf(),
        rsi_t matches Some(t) ==> t.value.wf(),
        macd_t matches Some(t) ==> t.value.wf(),
        rsi_buy.wf(),
        rsi_sell.wf(),
        old(buy).confirm_count < usize::MAX,
        old(sell).confirm_count < usize::MAX,
    ensures
        final(buy).wf(),
        final(sell).wf(),
        !eligible(*rsi_t, *macd_t) ==> (*final(buy) == *old(buy) && *final(sell) == *old(sell)
            && r.0 is None && r.1 is None),
        eligible(*rsi_t, *macd_t) ==> ({
            let rt = (*rsi_t)->Some_0;
            let mt = (*macd_t)->Some_0;
            let b1 = buy_track(*old(buy), rt.value, mt.value, rsi_buy);
            let s1 = sell_track(*old(sell), rt.value, mt.value, rsi_sell);
            &&& (fires(b1) ==> (r.0 matches Some(bi) && bi.ts == rt.ts && bi.rsi == rt.value
                && bi.macd == mt.value && bi.confirm_count == b1.confirm_count
                && final(buy).prev_macd is None && final(buy).confirm_count == 0))
            &&& (!fires(b1) ==> r.0 is None && *final(buy) == b1)
            &&& (fires(s1) ==> (r.1 matches Some(si) && si.ts == rt.ts && si.rsi == rt.value
                && si.macd == mt.value && si.confirm_count == s1.confirm_count
                && final(sell).prev_macd is None && final(sell).confirm_count == 0))
            &&& (!fires(s1) ==> r.1 is None && *final(sell) == s1)
        }),
{
    match (rsi_t, macd_t) {
        (Some(rt), Some(mt)) => {
            if rt.origin == Origin::Live {
                let r_val: Dec = rt.value;
                let m: Dec = mt.value;
                // Buy side: arm, track, fire.
                if r_val.lt(rsi_buy) {
                    if buy.prev_macd.is_none() {
                        buy.prev_macd = Some(m);
                    }
                }
                match buy.prev_macd {
                    Some(pm) => {
                        if pm.lt(m) {
                            buy.confirm_count = buy.confirm_count + 1;
                        }
                        buy.prev_macd = Some(m);
                    },
                    None => {},
                }
                let mut bi: Option<BuyIntent> = None;
                if buy.confirm_count > 1 {
                    bi = Some(
                        BuyIntent {
                            ts: rt.ts,
                            rsi: r_val,
                            macd: m,
                            confirm_count: buy.confirm_count,
                        },
                    );
                    buy.confirm_count = 0;
                    buy.prev_macd = None;
                }
                // Sell side: arm, track, fire.
                if rsi_sell.lt(r_val) {
                    if sell.prev_macd.is_none() {
                        sell.prev_macd = Some(m);
                    }
                }
                match sell.prev_macd {
                    Some(pm) => {
                        if m.lt(pm) {
                            sell.confirm_count = sell.confirm_count + 1;
                        }
                        sell.prev_macd = Some(m);
                    },
                    None => {},
                }
                let mut si: Option<SellIntent> = None;
                if sell.confirm_count > 1 {
                    si = Some(
                        SellIntent {
                            ts: rt.ts,
                            rsi: r_val,
                            macd: m,
                            confirm_count: sell.confirm_count,
                        },
                    );
                    sell.confirm_count = 0;
                    sell.prev_macd = None;
                }
                (bi, si)
            } else {
                (None, None)
            }
        },
        _ => (None, None),
    }
}

} // verus!
