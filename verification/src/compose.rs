//! RSI and MACD composition.
//!
//! Two EMA streams are paired index for index, in lockstep: a position yields
//! an output exactly when both sides have advanced to it, a "not ready"
//! marker is emitted while either side is still warming up, and pairing stops
//! at the shorter side.

use vstd::prelude::*;

verus! {

use crate::candle::{Candle, Tick};
use crate::ema::{closes_of, ema_at, ema_rep_at, lemma_ema_at_pos};
use crate::dec::{
    Dec,
    NumError,
    Rat,
    add_r,
    add_rep,
    div_r,
    div_rep,
    lemma_add_congr,
    lemma_add_pos,
    lemma_div_congr,
    lemma_div_pos_r,
    lemma_norm_ratio,
    lemma_le_congr,
    lemma_ops_wf,
    lemma_ratio_eq_sign,
    lemma_ratio_trans,
    rat_i,
    rat_wf,
    ratio_eq,
    ratio_le,
    ratio_lt,
    sub_r,
    sub_rep,
};

/// The epsilon-near-zero close substituted where a candle does not qualify
/// for a gains or losses stream; never exactly zero, so the average loss can
/// never be zero and the RSI division cannot break down.
pub open spec fn eps_r() -> Rat {
    Rat { n: 1, d: 10_000_000_000 }
}

/// The epsilon-near-zero substitute value, `1 / 10^10`.
pub fn epsilon() -> (r: Dec)
    ensures
        r.wf(),
        r@ == eps_r(),
{
    Dec { n: 1, d: 10_000_000_000 }
}

/// Close of the gains stream: the candle's own close when the bar rose,
/// epsilon otherwise.
pub open spec fn gain_close(c: Candle) -> Rat {
    if ratio_lt(c.open@, c.close@) {
        c.close@
    } else {
        eps_r()
    }
}

/// Close of the losses stream: the candle's own close when the bar fell,
/// epsilon otherwise.
pub open spec fn loss_close(c: Candle) -> Rat {
    if ratio_lt(c.close@, c.open@) {
        c.close@
    } else {
        eps_r()
    }
}

/// Map a candle into the gains stream, keeping timestamp and origin.
pub fn gain_candle(c: &Candle) -> (r: Candle)
    requires
        c.wf(),
    ensures
        r.wf(),
        r.ts == c.ts,
        r.origin == c.origin,
        r.close@ == gain_close(*c),
{
    if c.open.lt(c.close) {
        *c
    } else {
        Candle { ts: c.ts, open: c.open, close: epsilon(), origin: c.origin }
    }
}

/// Map a candle into the losses stream, keeping timestamp and origin.
pub fn loss_candle(c: &Candle) -> (r: Candle)
    requires
        c.wf(),
    ensures
        r.wf(),
        r.ts == c.ts,
        r.origin == c.origin,
        r.close@ == loss_close(*c),
{
    if c.close.lt(c.open) {
        *c
    } else {
        Candle { ts: c.ts, open: c.open, close: epsilon(), origin: c.origin }
    }
}

/// The RSI formula, exactly: `100 - 100 / (1 + g/l)`.
pub open spec fn rsi_r(g: Rat, l: Rat) -> Rat {
    sub_r(rat_i(100), div_r(rat_i(100), add_r(rat_i(1), div_r(g, l))))
}

/// Representation the implementation produces for the RSI of one pair, or
/// `None` once a step overflows.
pub open spec fn rsi_rep(g: Rat, l: Rat) -> Option<Rat> {
    match div_rep(g, l) {
        Some(x) => match add_rep(rat_i(1), x) {
            Some(s) => match div_rep(rat_i(100), s) {
                Some(q) => sub_rep(rat_i(100), q),
                None => None,
            },
            None => None,
        },
        None => None,
    }
}

/// RSI bounds: for positive average gain and loss the exact RSI value lies
/// in [0, 100].
pub proof fn lemma_rsi_bounds(g: Rat, l: Rat)
    requires
        rat_wf(g),
        rat_wf(l),
        0 < g.n,
        0 < l.n,
    ensures
        rat_wf(rsi_r(g, l)),
        0 < rsi_r(g, l).n,
        ratio_le(rat_i(0), rsi_r(g, l)),
        ratio_le(rsi_r(g, l), rat_i(100)),
{
    let x = div_r(g, l);
    lemma_div_pos_r(g, l);
    let s = add_r(rat_i(1), x);
    assert(s.n == x.d + x.n && s.d == x.d);
    let q = div_r(rat_i(100), s);
    assert(q.n == 100 * x.d && q.d == x.n + x.d);
    let v = sub_r(rat_i(100), q);
    assert(v.n == 100 * (x.n + x.d) - (100 * x.d) * 1 && v.d == 1 * (x.n + x.d));
    assert(v.n == 100 * x.n);
    assert(v.d == x.n + x.d);
}

/// The exact RSI of equal values is equal.
pub proof fn lemma_rsi_congr(g: Rat, g2: Rat, l: Rat, l2: Rat)
    requires
        rat_wf(g),
        rat_wf(g2),
        rat_wf(l),
        rat_wf(l2),
        0 < g.n,
        0 < l.n,
        ratio_eq(g, g2),
        ratio_eq(l, l2),
    ensures
        ratio_eq(rsi_r(g, l), rsi_r(g2, l2)),
{
    lemma_ratio_eq_sign(g, g2);
    lemma_ratio_eq_sign(l, l2);
    let x = div_r(g, l);
    let x2 = div_r(g2, l2);
    lemma_div_pos_r(g, l);
    lemma_div_pos_r(g2, l2);
    lemma_div_congr(g, g2, l, l2);
    let s = add_r(rat_i(1), x);
    let s2 = add_r(rat_i(1), x2);
    lemma_add_congr(rat_i(1), rat_i(1), x, x2);
    lemma_add_pos(rat_i(1), x);
    lemma_add_pos(rat_i(1), x2);
    lemma_ops_wf(rat_i(1), x);
    lemma_ops_wf(rat_i(1), x2);
    let q = div_r(rat_i(100), s);
    let q2 = div_r(rat_i(100), s2);
    lemma_div_congr(rat_i(100), rat_i(100), s, s2);
    lemma_ops_wf(rat_i(100), s);
    lemma_ops_wf(rat_i(100), s2);
    crate::dec::lemma_sub_congr(rat_i(100), rat_i(100), q, q2);
}

/// Pair one gains reading with one losses reading. Both present: the RSI
/// value, stamped with the losses reading's timestamp and origin. Either
/// absent: the explicit "not ready" marker, so downstream alignment is kept.
pub fn rsi_combine(g: &Option<Tick>, l: &Option<Tick>) -> (r: Result<Option<Tick>, NumError>)
    requires
        g matches Some(t) ==> t.value.wf() && 0 < t.value@.n,
        l matches Some(t) ==> t.value.wf() && 0 < t.value@.n,
    ensures
        (g is None || l is None) ==> (r matches Ok(o) && o is None),
        g matches Some(gt) ==> l matches Some(lt) ==> (match rsi_rep(gt.value@, lt.value@) {
            Some(v) => r matches Ok(o) && o matches Some(t) && t.ts == lt.ts && t.origin
                == lt.origin && t.value.wf() && t.value@ == v && ratio_eq(
                t.value@,
                rsi_r(gt.value@, lt.value@),
            ) && ratio_le(rat_i(0), t.value@) && ratio_le(t.value@, rat_i(100)),
            None => r is Err,
        }),
{
    match (g, l) {
        (Some(gt), Some(lt)) => {
            let ghost gv = gt.value@;
            let ghost lv = lt.value@;
            proof {
                lemma_ops_wf(gv, lv);
                lemma_div_pos_r(gv, lv);
            }
            let x: Dec = match gt.value.checked_div(lt.value) {
                Some(v) => v,
                None => {
                    return Err(NumError::Overflow);
                },
            };
            proof {
                lemma_norm_ratio(div_r(gv, lv));
                lemma_ratio_eq_sign(x@, div_r(gv, lv));
            }
            let one = Dec::from_i64(1);
            let s: Dec = match one.checked_add(x) {
                Some(v) => v,
                None => {
                    return Err(NumError::Overflow);
                },
            };
            proof {
                lemma_ops_wf(rat_i(1), x@);
                lemma_norm_ratio(add_r(rat_i(1), x@));
                lemma_add_pos(rat_i(1), x@);
                lemma_ratio_eq_sign(s@, add_r(rat_i(1), x@));
                lemma_add_congr(rat_i(1), rat_i(1), x@, div_r(gv, lv));
                lemma_ops_wf(rat_i(1), div_r(gv, lv));
                lemma_ratio_trans(s@, add_r(rat_i(1), x@), add_r(rat_i(1), div_r(gv, lv)));
                lemma_add_pos(rat_i(1), div_r(gv, lv));
            }
            let hundred = Dec::from_i64(100);
            let q: Dec = match hundred.checked_div(s) {
                Some(v) => v,
                None => {
                    return Err(NumError::Overflow);
                },
            };
            proof {
                lemma_ops_wf(rat_i(100), s@);
                lemma_norm_ratio(div_r(rat_i(100), s@));
                lemma_div_congr(rat_i(100), rat_i(100), s@, add_r(rat_i(1), div_r(gv, lv)));
                lemma_ops_wf(rat_i(100), add_r(rat_i(1), div_r(gv, lv)));
                lemma_ratio_trans(
                    q@,
                    div_r(rat_i(100), s@),
                    div_r(rat_i(100), add_r(rat_i(1), div_r(gv, lv))),
                );
            }
            let v: Dec = match hundred.checked_sub(q) {
                Some(v) => v,
                None => {
                    return Err(NumError::Overflow);
                },
            };
            proof {
                lemma_ops_wf(rat_i(100), q@);
                lemma_norm_ratio(sub_r(rat_i(100), q@));
                crate::dec::lemma_sub_congr(
                    rat_i(100),
                    rat_i(100),
                    q@,
                    div_r(rat_i(100), add_r(rat_i(1), div_r(gv, lv))),
                );
                lemma_ops_wf(rat_i(100), div_r(rat_i(100), add_r(rat_i(1), div_r(gv, lv))));
                lemma_ratio_trans(
                    v@,
                    sub_r(rat_i(100), q@),
                    rsi_r(gv, lv),
                );
                lemma_rsi_bounds(gv, lv);
                lemma_le_congr(rat_i(0), rat_i(0), rsi_r(gv, lv), v@);
                lemma_le_congr(rsi_r(gv, lv), v@, rat_i(100), rat_i(100));
            }
            Ok(Some(Tick { ts: lt.ts, value: v, origin: lt.origin }))
        },
        _ => Ok(None),
    }
}

/// Pair one fast reading with one slow reading. Both present: fast minus
/// slow, stamped with the slow reading's timestamp and origin. Either
/// absent: the explicit "not ready" marker.
pub fn macd_combine(fast: &Option<Tick>, slow: &Option<Tick>) -> (r: Result<
    Option<Tick>,
    NumError,
>)
    requires
        fast matches Some(t) ==> t.value.wf(),
        slow matches Some(t) ==> t.value.wf(),
    ensures
        (fast is None || slow is None) ==> (r matches Ok(o) && o is None),
        fast matches Some(ft) ==> slow matches Some(st) ==> (match sub_rep(ft.value@, st.value@) {
            Some(v) => r matches Ok(o) && o matches Some(t) && t.ts == st.ts && t.origin
                == st.origin && t.value.wf() && t.value@ == v && ratio_eq(
                t.value@,
                sub_r(ft.value@, st.value@),
            ),
            None => r is Err,
        }),
{
    match (fast, slow) {
        (Some(ft), Some(st)) => {
            match ft.value.checked_sub(st.value) {
                Some(v) => {
                    proof {
                        lemma_ops_wf(ft.value@, st.value@);
                        lemma_norm_ratio(sub_r(ft.value@, st.value@));
                    }
                    Ok(Some(Tick { ts: st.ts, value: v, origin: st.origin }))
                },
                None => Err(NumError::Overflow),
            }
        },
        _ => Ok(None),
    }
}

/// Pair two whole reading streams index for index with the RSI rule,
/// consuming one reading from each per step and stopping at the shorter side.
pub fn rsi_zip(gains: &Vec<Option<Tick>>, losses: &Vec<Option<Tick>>) -> (r: Result<
    Vec<Option<Tick>>,
    NumError,
>)
    requires
        forall|i: int|
            0 <= i < gains@.len() ==> ((#[trigger] gains@[i]) matches Some(t) ==> t.value.wf() && 0
                < t.value@.n),
        forall|i: int|
            0 <= i < losses@.len() ==> ((#[trigger] losses@[i]) matches Some(t) ==> t.value.wf()
                && 0 < t.value@.n),
    ensures
        r matches Ok(out) ==> {
            &&& out@.len() == (if gains@.len() <= losses@.len() {
                gains@.len()
            } else {
                losses@.len()
            })
            &&& forall|i: int|
                0 <= i < out@.len() ==> (((gains@[i] is None) || (losses@[i] is None)) ==> (
                #[trigger] out@[i]) is None)
            &&& forall|i: int|
                0 <= i < out@.len() ==> ((#[trigger] gains@[i]) matches Some(gt) ==> losses@[i]
                    matches Some(lt) ==> (out@[i] matches Some(t) && t.ts == lt.ts && t.origin
                    == lt.origin && t.value.wf() && rsi_rep(gt.value@, lt.value@) == Some(t.value@)
                    && ratio_eq(t.value@, rsi_r(gt.value@, lt.value@)) && ratio_le(
                    rat_i(0),
                    t.value@,
                ) && ratio_le(t.value@, rat_i(100))))
        },
        (r is Ok <==> (forall|i: int|
            0 <= i < gains@.len() && i < losses@.len() ==> ((#[trigger] gains@[i]) matches Some(gt)
                ==> losses@[i] matches Some(lt) ==> rsi_rep(gt.value@, lt.value@) is Some))),
{
    let len: usize = if gains.len() <= losses.len() {
        gains.len()
    } else {
        losses.len()
    };
    let mut out: Vec<Option<Tick>> = Vec::new();
    let mut i: usize = 0;
    while i < len
        invariant
            len == (if gains@.len() <= losses@.len() {
                gains@.len()
            } else {
                losses@.len()
            }),
            i <= len,
            out@.len() == i,
            forall|j: int|
                0 <= j < gains@.len() ==> ((#[trigger] gains@[j]) matches Some(t) ==> t.value.wf()
                    && 0 < t.value@.n),
            forall|j: int|
                0 <= j < losses@.len() ==> ((#[trigger] losses@[j]) matches Some(t)
                    ==> t.value.wf() && 0 < t.value@.n),
            forall|j: int|
                0 <= j < i ==> (((gains@[j] is None) || (losses@[j] is None)) ==> (
                #[trigger] out@[j]) is None),
            forall|j: int|
                0 <= j < i ==> ((#[trigger] gains@[j]) matches Some(gt) ==> losses@[j]
                    matches Some(lt) ==> (out@[j] matches Some(t) && t.ts == lt.ts && t.origin
                    == lt.origin && t.value.wf() && rsi_rep(gt.value@, lt.value@) == Some(t.value@)
                    && ratio_eq(t.value@, rsi_r(gt.value@, lt.value@)) && ratio_le(
                    rat_i(0),
                    t.value@,
                ) && ratio_le(t.value@, rat_i(100)))),
        decreases len - i,
    {
        let gv: Option<Tick> = gains[i];
        let lv: Option<Tick> = losses[i];
        match rsi_combine(&gv, &lv) {
            Ok(o) => {
                out.push(o);
                i += 1;
            },
            Err(e) => {
                return Err(e);
            },
        }
    }
    Ok(out)
}

/// Pair two whole reading streams index for index with the MACD rule,
/// consuming one reading from each per step and stopping at the shorter side.
pub fn macd_zip(fasts: &Vec<Option<Tick>>, slows: &Vec<Option<Tick>>) -> (r: Result<
    Vec<Option<Tick>>,
    NumError,
>)
    requires
        forall|i: int|
            0 <= i < fasts@.len() ==> ((#[trigger] fasts@[i]) matches Some(t) ==> t.value.wf()),
        forall|i: int|
            0 <= i < slows@.len() ==> ((#[trigger] slows@[i]) matches Some(t) ==> t.value.wf()),
    ensures
        r matches Ok(out) ==> {
            &&& out@.len() == (if fasts@.len() <= slows@.len() {
                fasts@.len()
            } else {
                slows@.len()
            })
            &&& forall|i: int|
                0 <= i < out@.len() ==> (((fasts@[i] is None) || (slows@[i] is None)) ==> (
                #[trigger] out@[i]) is None)
            &&& forall|i: int|
                0 <= i < out@.len() ==> ((#[trigger] fasts@[i]) matches Some(ft) ==> slows@[i]
                    matches Some(st) ==> (out@[i] matches Some(t) && t.ts == st.ts && t.origin
                    == st.origin && t.value.wf() && sub_rep(ft.value@, st.value@) == Some(t.value@)
                    && ratio_eq(t.value@, sub_r(ft.value@, st.value@))))
        },
        (r is Ok <==> (forall|i: int|
            0 <= i < fasts@.len() && i < slows@.len() ==> ((#[trigger] fasts@[i]) matches Some(ft)
                ==> slows@[i] matches Some(st) ==> sub_rep(ft.value@, st.value@) is Some))),
{
    let len: usize = if fasts.len() <= slows.len() {
        fasts.len()
    } else {
        slows.len()
    };
    let mut out: Vec<Option<Tick>> = Vec::new();
    let mut i: usize = 0;
    while i < len
        invariant
            len == (if fasts@.len() <= slows@.len() {
                fasts@.len()
            } else {
                slows@.len()
            }),
            i <= len,
            out@.len() == i,
            forall|j: int|
                0 <= j < fasts@.len() ==> ((#[trigger] fasts@[j]) matches Some(t)
                    ==> t.value.wf()),
            forall|j: int|
                0 <= j < slows@.len() ==> ((#[trigger] slows@[j]) matches Some(t)
                    ==> t.value.wf()),
            forall|j: int|
                0 <= j < i ==> (((fasts@[j] is None) || (slows@[j] is None)) ==> (
                #[trigger] out@[j]) is None),
            forall|j: int|
                0 <= j < i ==> ((#[trigger] fasts@[j]) matches Some(ft) ==> slows@[j]
                    matches Some(st) ==> (out@[j] matches Some(t) && t.ts == st.ts && t.origin
                    == st.origin && t.value.wf() && sub_rep(ft.value@, st.value@) == Some(t.value@)
                    && ratio_eq(t.value@, sub_r(ft.value@, st.value@)))),
        decreases len - i,
    {
        let fv: Option<Tick> = fasts[i];
        let sv: Option<Tick> = slows[i];
        match macd_combine(&fv, &sv) {
            Ok(o) => {
                out.push(o);
                i += 1;
            },
            Err(e) => {
                return Err(e);
            },
        }
    }
    Ok(out)
}

/// Lockstep pairing: the zipped output is never longer than either input,
/// and an emitted value always pairs the two readings of one position — when
/// aligned sources carry equal timestamps at each position, every emitted
/// value carries the one timestamp of both its sources.
pub proof fn lemma_lockstep(
    gains: Seq<Option<Tick>>,
    losses: Seq<Option<Tick>>,
    out: Seq<Option<Tick>>,
)
    requires
        out.len() == (if gains.len() <= losses.len() {
            gains.len()
        } else {
            losses.len()
        }),
        forall|i: int|
            0 <= i < out.len() ==> (((gains[i] is None) || (losses[i] is None)) ==> (
            #[trigger] out[i]) is None),
        forall|i: int|
            0 <= i < out.len() ==> ((#[trigger] gains[i]) matches Some(gt) ==> losses[i]
                matches Some(lt) ==> (out[i] matches Some(t) && t.ts == lt.ts)),
        forall|i: int|
            0 <= i < out.len() ==> ((#[trigger] gains[i]) matches Some(gt) ==> losses[i]
                matches Some(lt) ==> gt.ts == lt.ts),
    ensures
        out.len() <= gains.len(),
        out.len() <= losses.len(),
        forall|i: int|
            0 <= i < out.len() ==> ((#[trigger] out[i]) matches Some(t) ==> (gains[i]
                matches Some(gt) && losses[i] matches Some(lt) && gt.ts == t.ts && lt.ts == t.ts)),
{
    assert forall|i: int| 0 <= i < out.len() implies ((#[trigger] out[i]) matches Some(t) ==> (
    gains[i] matches Some(gt) && losses[i] matches Some(lt) && gt.ts == t.ts && lt.ts
        == t.ts)) by {
        if gains[i] is None || losses[i] is None {
            assert(out[i] is None);
        }
    }
}

/// Gains-stream closes of a candle sequence.
pub open spec fn gains_of(cs: Seq<Candle>) -> Seq<Rat> {
    cs.map_values(|c: Candle| gain_close(c))
}

/// Losses-stream closes of a candle sequence.
pub open spec fn losses_of(cs: Seq<Candle>) -> Seq<Rat> {
    cs.map_values(|c: Candle| loss_close(c))
}

/// RSI over a whole candle sequence with the given EMA window: the candles
/// are split into a gains stream and a losses stream, each smoothed by its
/// own EMA engine, and the two reading streams are paired in lockstep. One
/// output per input: "not ready" through warm-up, then the RSI of the two
/// exact averages, which always lies in [0, 100].
pub fn rsi_with_window(candles: &Vec<Candle>, window: usize) -> (r: Result<
    Vec<Option<Tick>>,
    NumError,
>)
    requires
        1 <= window,
        window + 1 <= i64::MAX,
        forall|i: int|
            0 <= i < candles@.len() ==> ((#[trigger] candles@[i]).wf() && 0
                < candles@[i].close@.n),
    ensures
        ({
            let gs = gains_of(candles@);
            let ls = losses_of(candles@);
            let n = window as nat;
            &&& (r matches Ok(out) ==> {
                &&& out@.len() == candles@.len()
                &&& forall|i: int|
                    0 <= i < out@.len() ==> ((#[trigger] out@[i]) is None <==> i < window)
                &&& forall|i: int|
                    window <= i < out@.len() ==> ((#[trigger] out@[i]) matches Some(t) && t.ts
                        == candles@[i].ts && t.origin == candles@[i].origin && t.value.wf()
                        && ratio_eq(t.value@, rsi_r(ema_at(gs, n, i), ema_at(ls, n, i)))
                        && ratio_le(rat_i(0), t.value@) && ratio_le(t.value@, rat_i(100)))
            })
            &&& (r is Ok <==> ({
                &&& (candles@.len() < window || (ema_rep_at(gs, n, candles@.len() - 1) is Some
                    && ema_rep_at(ls, n, candles@.len() - 1) is Some))
                &&& forall|i: int|
                    window <= i < candles@.len() ==> (#[trigger] ema_rep_at(gs, n, i)
                        matches Some(gv) ==> ema_rep_at(ls, n, i) matches Some(lv) ==> rsi_rep(
                        gv,
                        lv,
                    ) is Some)
            }))
        }),
{
    let ghost gs = gains_of(candles@);
    let ghost ls = losses_of(candles@);
    let ghost n = window as nat;
    let mut gvec: Vec<Candle> = Vec::new();
    let mut lvec: Vec<Candle> = Vec::new();
    let mut i: usize = 0;
    while i < candles.len()
        invariant
            i <= candles@.len(),
            gvec@.len() == i,
            lvec@.len() == i,
            forall|j: int|
                0 <= j < candles@.len() ==> ((#[trigger] candles@[j]).wf() && 0
                    < candles@[j].close@.n),
            forall|j: int|
                0 <= j < i ==> ((#[trigger] gvec@[j]).wf() && gvec@[j].ts == candles@[j].ts
                    && gvec@[j].origin == candles@[j].origin && gvec@[j].close@ == gain_close(
                    candles@[j],
                )),
            forall|j: int|
                0 <= j < i ==> ((#[trigger] lvec@[j]).wf() && lvec@[j].ts == candles@[j].ts
                    && lvec@[j].origin == candles@[j].origin && lvec@[j].close@ == loss_close(
                    candles@[j],
                )),
        decreases candles@.len() - i,
    {
        let c: Candle = candles[i];
        gvec.push(gain_candle(&c));
        lvec.push(loss_candle(&c));
        i += 1;
    }
    proof {
        assert forall|j: int| 0 <= j < candles@.len() implies #[trigger] closes_of(gvec@)[j]
            == gs[j] by {
            assert(closes_of(gvec@)[j] == gvec@[j].close@);
            assert(gs[j] == gain_close(candles@[j]));
        }
        assert(closes_of(gvec@) =~= gs);
        assert forall|j: int| 0 <= j < candles@.len() implies #[trigger] closes_of(lvec@)[j]
            == ls[j] by {
            assert(closes_of(lvec@)[j] == lvec@[j].close@);
            assert(ls[j] == loss_close(candles@[j]));
        }
        assert(closes_of(lvec@) =~= ls);
        assert forall|j: int| 0 <= j < gs.len() implies rat_wf(#[trigger] gs[j]) && 0 < gs[j].n by {
            assert(gs[j] == gain_close(candles@[j]));
        }
        assert forall|j: int| 0 <= j < ls.len() implies rat_wf(#[trigger] ls[j]) && 0 < ls[j].n by {
            assert(ls[j] == loss_close(candles@[j]));
        }
    }
    let ga: Vec<Option<Tick>> = match crate::ema::ema(&gvec, window) {
        Ok(v) => v,
        Err(e) => {
            return Err(e);
        },
    };
    let la: Vec<Option<Tick>> = match crate::ema::ema(&lvec, window) {
        Ok(v) => v,
        Err(e) => {
            return Err(e);
        },
    };
    proof {
        assert forall|j: int| 0 <= j < ga@.len() implies ((#[trigger] ga@[j]) matches Some(t)
            ==> t.value.wf() && 0 < t.value@.n) by {
            if ga@[j] is Some {
                let t = ga@[j]->Some_0;
                lemma_ema_at_pos(gs, n, j);
                crate::dec::lemma_ratio_eq_sign(t.value@, ema_at(gs, n, j));
            }
        }
        assert forall|j: int| 0 <= j < la@.len() implies ((#[trigger] la@[j]) matches Some(t)
            ==> t.value.wf() && 0 < t.value@.n) by {
            if la@[j] is Some {
                let t = la@[j]->Some_0;
                lemma_ema_at_pos(ls, n, j);
                crate::dec::lemma_ratio_eq_sign(t.value@, ema_at(ls, n, j));
            }
        }
    }
    match rsi_zip(&ga, &la) {
        Ok(out) => {
            proof {
                assert forall|i2: int| window <= i2 < candles@.len() implies ((#[trigger] out@[i2])
                    matches Some(t) && t.ts == candles@[i2].ts && t.origin == candles@[i2].origin
                    && t.value.wf() && ratio_eq(t.value@, rsi_r(ema_at(gs, n, i2), ema_at(ls, n, i2)))
                    && ratio_le(rat_i(0), t.value@) && ratio_le(t.value@, rat_i(100))) by {
                    let gt = ga@[i2]->Some_0;
                    let lt = la@[i2]->Some_0;
                    lemma_ema_at_pos(gs, n, i2);
                    lemma_ema_at_pos(ls, n, i2);
                    crate::dec::lemma_ratio_eq_sign(gt.value@, ema_at(gs, n, i2));
                    crate::dec::lemma_ratio_eq_sign(lt.value@, ema_at(ls, n, i2));
                    lemma_rsi_congr(gt.value@, ema_at(gs, n, i2), lt.value@, ema_at(ls, n, i2));
                    lemma_rsi_bounds(gt.value@, lt.value@);
                    lemma_rsi_bounds(ema_at(gs, n, i2), ema_at(ls, n, i2));
                    let t = out@[i2]->Some_0;
                    lemma_ratio_trans(
                        t.value@,
                        rsi_r(gt.value@, lt.value@),
                        rsi_r(ema_at(gs, n, i2), ema_at(ls, n, i2)),
                    );
                }
                assert forall|i2: int| window <= i2 < candles@.len() implies (#[trigger] ema_rep_at(
                    gs,
                    n,
                    i2,
                ) matches Some(gv) ==> ema_rep_at(ls, n, i2) matches Some(lv) ==> rsi_rep(
                    gv,
                    lv,
                ) is Some) by {
                    let gt = ga@[i2]->Some_0;
                    let lt = la@[i2]->Some_0;
                    assert(ema_rep_at(gs, n, i2) == Some(gt.value@));
                    assert(ema_rep_at(ls, n, i2) == Some(lt.value@));
                }
            }
            Ok(out)
        },
        Err(e) => {
            proof {
                let rhs1 = candles@.len() < window || (ema_rep_at(gs, n, candles@.len() - 1)
                    is Some && ema_rep_at(ls, n, candles@.len() - 1) is Some);
                let rhs2 = forall|i2: int|
                    window <= i2 < candles@.len() ==> (#[trigger] ema_rep_at(gs, n, i2)
                        matches Some(gv) ==> ema_rep_at(ls, n, i2) matches Some(lv) ==> rsi_rep(
                        gv,
                        lv,
                    ) is Some);
                if rhs1 && rhs2 {
                    assert forall|i2: int|
                        0 <= i2 < ga@.len() && i2 < la@.len() implies ((#[trigger] ga@[i2])
                        matches Some(gt) ==> la@[i2] matches Some(lt) ==> rsi_rep(
                        gt.value@,
                        lt.value@,
                    ) is Some) by {
                        if ga@[i2] is Some && la@[i2] is Some {
                            let gt = ga@[i2]->Some_0;
                            let lt = la@[i2]->Some_0;
                            assert(i2 >= window);
                            assert(ema_rep_at(gs, n, i2) == Some(gt.value@));
                            assert(ema_rep_at(ls, n, i2) == Some(lt.value@));
                        }
                    }
                    assert(false);
                }
            }
            Err(e)
        },
    }
}

/// RSI with the conventional window of 14.
pub fn rsi(candles: &Vec<Candle>) -> (r: Result<Vec<Option<Tick>>, NumError>)
    requires
        forall|i: int|
            0 <= i < candles@.len() ==> ((#[trigger] candles@[i]).wf() && 0
                < candles@[i].close@.n),
    ensures
        ({
            let gs = gains_of(candles@);
            let ls = losses_of(candles@);
            &&& (r matches Ok(out) ==> {
                &&& out@.len() == candles@.len()
                &&& forall|i: int|
                    0 <= i < out@.len() ==> ((#[trigger] out@[i]) is None <==> i < 14)
                &&& forall|i: int|
                    14 <= i < out@.len() ==> ((#[trigger] out@[i]) matches Some(t) && t.ts
                        == candles@[i].ts && t.origin == candles@[i].origin && t.value.wf()
                        && ratio_eq(t.value@, rsi_r(ema_at(gs, 14, i), ema_at(ls, 14, i)))
                        && ratio_le(rat_i(0), t.value@) && ratio_le(t.value@, rat_i(100)))
            })
            &&& (r is Ok <==> ({
                &&& (candles@.len() < 14 || (ema_rep_at(gs, 14, candles@.len() - 1) is Some
                    && ema_rep_at(ls, 14, candles@.len() - 1) is Some))
                &&& forall|i: int|
                    14 <= i < candles@.len() ==> (#[trigger] ema_rep_at(gs, 14, i)
                        matches Some(gv) ==> ema_rep_at(ls, 14, i) matches Some(lv) ==> rsi_rep(
                        gv,
                        lv,
                    ) is Some)
            }))
        }),
{
    rsi_with_window(candles, 14)
}

/// MACD over a whole candle sequence: the closes are smoothed by a fast and
/// a slow EMA engine (two independent engines, since EMA state cannot be
/// shared), and the two reading streams are paired in lockstep. One output
/// per input: "not ready" until the slow side has warmed, then exactly
/// fast minus slow.
pub fn macd_with_windows(candles: &Vec<Candle>, fast: usize, slow: usize) -> (r: Result<
    Vec<Option<Tick>>,
    NumError,
>)
    requires
        1 <= fast <= slow,
        slow + 1 <= i64::MAX,
        forall|i: int| 0 <= i < candles@.len() ==> (#[trigger] candles@[i]).wf(),
    ensures
        ({
            let cl = closes_of(candles@);
            let nf = fast as nat;
            let ns = slow as nat;
            &&& (r matches Ok(out) ==> {
                &&& out@.len() == candles@.len()
                &&& forall|i: int|
                    0 <= i < out@.len() ==> ((#[trigger] out@[i]) is None <==> i < slow)
                &&& forall|i: int|
                    slow <= i < out@.len() ==> ((#[trigger] out@[i]) matches Some(t) && t.ts
                        == candles@[i].ts && t.origin == candles@[i].origin && t.value.wf()
                        && ratio_eq(t.value@, sub_r(ema_at(cl, nf, i), ema_at(cl, ns, i))))
            })
            &&& (r is Ok <==> ({
                &&& (candles@.len() < fast || ema_rep_at(cl, nf, candles@.len() - 1) is Some)
                &&& (candles@.len() < slow || ema_rep_at(cl, ns, candles@.len() - 1) is Some)
                &&& forall|i: int|
                    slow <= i < candles@.len() ==> (#[trigger] ema_rep_at(cl, nf, i)
                        matches Some(fv) ==> ema_rep_at(cl, ns, i) matches Some(sv) ==> sub_rep(
                        fv,
                        sv,
                    ) is Some)
            }))
        }),
{
    let ghost cl = closes_of(candles@);
    let ghost nf = fast as nat;
    let ghost ns = slow as nat;
    proof {
        assert forall|j: int| 0 <= j < cl.len() implies rat_wf(#[trigger] cl[j]) by {
            assert(cl[j] == candles@[j].close@);
        }
    }
    let fa: Vec<Option<Tick>> = match crate::ema::ema(candles, fast) {
        Ok(v) => v,
        Err(e) => {
            return Err(e);
        },
    };
    let sa: Vec<Option<Tick>> = match crate::ema::ema(candles, slow) {
        Ok(v) => v,
        Err(e) => {
            return Err(e);
        },
    };
    proof {
        assert forall|j: int| 0 <= j < fa@.len() implies ((#[trigger] fa@[j]) matches Some(t)
            ==> t.value.wf()) by {}
        assert forall|j: int| 0 <= j < sa@.len() implies ((#[trigger] sa@[j]) matches Some(t)
            ==> t.value.wf()) by {}
    }
    match macd_zip(&fa, &sa) {
        Ok(out) => {
            proof {
                assert forall|i2: int| 0 <= i2 < candles@.len() implies ((#[trigger] out@[i2])
                    is None <==> i2 < slow) by {
                    if i2 < slow {
                        assert(sa@[i2] is None);
                    } else {
                        assert(fa@[i2] is Some && sa@[i2] is Some);
                    }
                }
                assert forall|i2: int| slow <= i2 < candles@.len() implies ((#[trigger] out@[i2])
                    matches Some(t) && t.ts == candles@[i2].ts && t.origin == candles@[i2].origin
                    && t.value.wf() && ratio_eq(
                    t.value@,
                    sub_r(ema_at(cl, nf, i2), ema_at(cl, ns, i2)),
                )) by {
                    let ft = fa@[i2]->Some_0;
                    let st = sa@[i2]->Some_0;
                    crate::ema::lemma_ema_at_wf(cl, nf, i2);
                    crate::ema::lemma_ema_at_wf(cl, ns, i2);
                    crate::dec::lemma_sub_congr(
                        ft.value@,
                        ema_at(cl, nf, i2),
                        st.value@,
                        ema_at(cl, ns, i2),
                    );
                    lemma_ops_wf(ft.value@, st.value@);
                    lemma_ops_wf(ema_at(cl, nf, i2), ema_at(cl, ns, i2));
                    let t = out@[i2]->Some_0;
                    lemma_ratio_trans(
                        t.value@,
                        sub_r(ft.value@, st.value@),
                        sub_r(ema_at(cl, nf, i2), ema_at(cl, ns, i2)),
                    );
                }
                assert forall|i2: int| slow <= i2 < candles@.len() implies (#[trigger] ema_rep_at(
                    cl,
                    nf,
                    i2,
                ) matches Some(fv) ==> ema_rep_at(cl, ns, i2) matches Some(sv) ==> sub_rep(
                    fv,
                    sv,
                ) is Some) by {
                    let ft = fa@[i2]->Some_0;
                    let st = sa@[i2]->Some_0;
                    assert(ema_rep_at(cl, nf, i2) == Some(ft.value@));
                    assert(ema_rep_at(cl, ns, i2) == Some(st.value@));
                }
            }
            Ok(out)
        },
        Err(e) => {
            proof {
                let rhs1 = candles@.len() < fast || ema_rep_at(cl, nf, candles@.len() - 1) is Some;
                let rhs2 = candles@.len() < slow || ema_rep_at(cl, ns, candles@.len() - 1) is Some;
                let rhs3 = forall|i2: int|
                    slow <= i2 < candles@.len() ==> (#[trigger] ema_rep_at(cl, nf, i2)
                        matches Some(fv) ==> ema_rep_at(cl, ns, i2) matches Some(sv) ==> sub_rep(
                        fv,
                        sv,
                    ) is Some);
                if rhs1 && rhs2 && rhs3 {
                    assert forall|i2: int|
                        0 <= i2 < fa@.len() && i2 < sa@.len() implies ((#[trigger] fa@[i2])
                        matches Some(ft) ==> sa@[i2] matches Some(st) ==> sub_rep(
                        ft.value@,
                        st.value@,
                    ) is Some) by {
                        if fa@[i2] is Some && sa@[i2] is Some {
                            let ft = fa@[i2]->Some_0;
                            let st = sa@[i2]->Some_0;
                            assert(i2 >= slow);
                            assert(ema_rep_at(cl, nf, i2) == Some(ft.value@));
                            assert(ema_rep_at(cl, ns, i2) == Some(st.value@));
                        }
                    }
                    assert(false);
                }
            }
            Err(e)
        },
    }
}

/// MACD with the conventional fast window of 12 and slow window of 26.
pub fn macd(candles: &Vec<Candle>) -> (r: Result<Vec<Option<Tick>>, NumError>)
    requires
        forall|i: int| 0 <= i < candles@.len() ==> (#[trigger] candles@[i]).wf(),
    ensures
        ({
            let cl = closes_of(candles@);
            &&& (r matches Ok(out) ==> {
                &&& out@.len() == candles@.len()
                &&& forall|i: int|
                    0 <= i < out@.len() ==> ((#[trigger] out@[i]) is None <==> i < 26)
                &&& forall|i: int|
                    26 <= i < out@.len() ==> ((#[trigger] out@[i]) matches Some(t) && t.ts
                        == candles@[i].ts && t.origin == candles@[i].origin && t.value.wf()
                        && ratio_eq(t.value@, sub_r(ema_at(cl, 12, i), ema_at(cl, 26, i))))
            })
            &&& (r is Ok <==> ({
                &&& (candles@.len() < 12 || ema_rep_at(cl, 12, candles@.len() - 1) is Some)
                &&& (candles@.len() < 26 || ema_rep_at(cl, 26, candles@.len() - 1) is Some)
                &&& forall|i: int|
                    26 <= i < candles@.len() ==> (#[trigger] ema_rep_at(cl, 12, i)
                        matches Some(fv) ==> ema_rep_at(cl, 26, i) matches Some(sv) ==> sub_rep(
                        fv,
                        sv,
                    ) is Some)
            }))
        }),
{
    macd_with_windows(candles, 12, 26)
}

} // verus!
