//! Incremental exponential moving average.
//!
//! The engine consumes one close per step in O(1) memory beyond the seed
//! window: it stays silent while the first `n - 1` closes accumulate, averages
//! the first `n` closes into a silent seed, and from then on moves the running
//! average by `c*2/(n+1) + previous*(n-1)/(n+1)` for every close `c`,
//! emitting one reading per input.

use vstd::prelude::*;

verus! {

use crate::candle::{Candle, Origin, Tick};
use crate::dec::{
    Dec,
    NumError,
    Rat,
    add_r,
    add_rep,
    div_r,
    div_rep,
    fits_dec,
    lemma_add_congr,
    lemma_add_pos,
    lemma_div_congr,
    lemma_div_pos_r,
    lemma_mul_congr,
    lemma_mul_nonneg_r,
    lemma_mul_pos_r,
    lemma_norm_ratio,
    lemma_ops_wf,
    lemma_ratio_trans,
    mul_r,
    mul_rep,
    norm_r,
    rat_i,
    rat_wf,
    ratio_eq,
};

/// Close values of a candle sequence.
pub open spec fn closes_of(cs: Seq<Candle>) -> Seq<Rat> {
    cs.map_values(|c: Candle| c.close@)
}

/// Values of a sequence of stored fractions.
pub open spec fn decs_view(s: Seq<Dec>) -> Seq<Rat> {
    s.map_values(|d: Dec| d@)
}

/// Every fraction in the sequence is well formed.
pub open spec fn closes_wf(s: Seq<Rat>) -> bool {
    forall|i: int| 0 <= i < s.len() ==> rat_wf(#[trigger] s[i])
}

/// The smoothing factor `2 / (n + 1)`.
pub open spec fn k_r(n: nat) -> Rat {
    Rat { n: 2, d: n as int + 1 }
}

/// Its complement `(n - 1) / (n + 1)`.
pub open spec fn k1_r(n: nat) -> Rat {
    Rat { n: n as int - 1, d: n as int + 1 }
}

/// Exact mathematical sum of a sequence of fractions, left to right.
pub open spec fn sum_r(s: Seq<Rat>) -> Rat
    decreases s.len(),
{
    if s.len() == 0 {
        rat_i(0)
    } else {
        add_r(sum_r(s.drop_last()), s.last())
    }
}

/// Exact EMA value once `closes[0..=i]` have been consumed (defined for
/// `i >= n - 1`): the seed is the simple average of the first `n` closes, and
/// each later close `c` moves the value to `c*2/(n+1) + previous*(n-1)/(n+1)`.
pub open spec fn ema_at(closes: Seq<Rat>, n: nat, i: int) -> Rat
    decreases i,
    when n >= 1 && i >= n - 1
{
    if i <= n - 1 {
        div_r(sum_r(closes.take(n as int)), rat_i(n as int))
    } else {
        add_r(mul_r(closes[i], k_r(n)), mul_r(ema_at(closes, n, i - 1), k1_r(n)))
    }
}

/// Representation of the running seed-window sum, left to right.
pub open spec fn sum_rep(s: Seq<Rat>) -> Option<Rat>
    decreases s.len(),
{
    if s.len() == 0 {
        Some(rat_i(0))
    } else {
        match sum_rep(s.drop_last()) {
            Some(acc) => add_rep(acc, s.last()),
            None => None,
        }
    }
}

/// Representation of the seed: the window sum divided by the window size.
pub open spec fn seed_rep(s: Seq<Rat>, n: nat) -> Option<Rat> {
    match sum_rep(s) {
        Some(t) => div_rep(t, rat_i(n as int)),
        None => None,
    }
}

/// Representation of one steady-state step.
pub open spec fn step_rep(c: Rat, p: Rat, n: nat) -> Option<Rat> {
    match mul_rep(c, k_r(n)) {
        Some(t1) => match mul_rep(p, k1_r(n)) {
            Some(t2) => add_rep(t1, t2),
            None => None,
        },
        None => None,
    }
}

/// Representation of the engine's running average once `closes[0..=i]` have
/// been consumed; `None` once any step has overflowed.
pub open spec fn ema_rep_at(closes: Seq<Rat>, n: nat, i: int) -> Option<Rat>
    decreases i,
    when n >= 1 && i >= n - 1
{
    if i <= n - 1 {
        seed_rep(closes.take(n as int), n)
    } else {
        match ema_rep_at(closes, n, i - 1) {
            Some(p) => step_rep(closes[i], p, n),
            None => None,
        }
    }
}

/// The exact sum is well formed, and the computed sum denotes it.
pub proof fn lemma_sum_rep_sound(s: Seq<Rat>)
    requires
        closes_wf(s),
    ensures
        rat_wf(sum_r(s)),
        sum_rep(s) matches Some(v) ==> rat_wf(v) && ratio_eq(v, sum_r(s)),
    decreases s.len(),
{
    if s.len() > 0 {
        let sd = s.drop_last();
        assert(closes_wf(sd)) by {
            assert forall|i: int| 0 <= i < sd.len() implies rat_wf(#[trigger] sd[i]) by {
                assert(sd[i] == s[i]);
            }
        }
        lemma_sum_rep_sound(sd);
        lemma_ops_wf(sum_r(sd), s.last());
        match sum_rep(sd) {
            Some(acc) => {
                if fits_dec(add_r(acc, s.last())) {
                    lemma_ops_wf(acc, s.last());
                    lemma_norm_ratio(add_r(acc, s.last()));
                    lemma_add_congr(acc, sum_r(sd), s.last(), s.last());
                    lemma_ratio_trans(
                        norm_r(add_r(acc, s.last())),
                        add_r(acc, s.last()),
                        add_r(sum_r(sd), s.last()),
                    );
                }
            },
            None => {},
        }
    }
}

/// Once a prefix of the window sum has overflowed, the whole sum has.
pub proof fn lemma_sum_rep_none_mono(s: Seq<Rat>, j: int)
    requires
        0 <= j <= s.len(),
        sum_rep(s.take(j)) is None,
    ensures
        sum_rep(s) is None,
    decreases s.len() - j,
{
    if j == s.len() {
        assert(s.take(j) =~= s);
    } else {
        assert(s.take(j + 1).drop_last() =~= s.take(j));
        lemma_sum_rep_none_mono(s, j + 1);
    }
}

/// The exact EMA value is a well-formed fraction.
pub proof fn lemma_ema_at_wf(closes: Seq<Rat>, n: nat, i: int)
    requires
        closes_wf(closes),
        1 <= n <= closes.len(),
        n - 1 <= i < closes.len(),
    ensures
        rat_wf(ema_at(closes, n, i)),
    decreases i,
{
    if i <= n - 1 {
        let t = closes.take(n as int);
        assert(closes_wf(t)) by {
            assert forall|j: int| 0 <= j < t.len() implies rat_wf(#[trigger] t[j]) by {
                assert(t[j] == closes[j]);
            }
        }
        lemma_sum_rep_sound(t);
        lemma_ops_wf(sum_r(t), rat_i(n as int));
    } else {
        lemma_ema_at_wf(closes, n, i - 1);
        lemma_ops_wf(closes[i], k_r(n));
        lemma_ops_wf(ema_at(closes, n, i - 1), k1_r(n));
        lemma_ops_wf(mul_r(closes[i], k_r(n)), mul_r(ema_at(closes, n, i - 1), k1_r(n)));
    }
}

/// Whenever the implementation's chain produces a value, that value denotes
/// the exact EMA.
pub proof fn lemma_ema_rep_sound(closes: Seq<Rat>, n: nat, i: int)
    requires
        closes_wf(closes),
        1 <= n <= closes.len(),
        n - 1 <= i < closes.len(),
    ensures
        ema_rep_at(closes, n, i) matches Some(v) ==> rat_wf(v) && ratio_eq(
            v,
            ema_at(closes, n, i),
        ),
    decreases i,
{
    lemma_ema_at_wf(closes, n, i);
    if i <= n - 1 {
        let t = closes.take(n as int);
        assert(closes_wf(t)) by {
            assert forall|j: int| 0 <= j < t.len() implies rat_wf(#[trigger] t[j]) by {
                assert(t[j] == closes[j]);
            }
        }
        lemma_sum_rep_sound(t);
        match sum_rep(t) {
            Some(sv) => {
                if fits_dec(div_r(sv, rat_i(n as int))) {
                    lemma_ops_wf(sv, rat_i(n as int));
                    lemma_norm_ratio(div_r(sv, rat_i(n as int)));
                    lemma_div_congr(sv, sum_r(t), rat_i(n as int), rat_i(n as int));
                    lemma_ops_wf(sum_r(t), rat_i(n as int));
                    lemma_ratio_trans(
                        norm_r(div_r(sv, rat_i(n as int))),
                        div_r(sv, rat_i(n as int)),
                        div_r(sum_r(t), rat_i(n as int)),
                    );
                }
            },
            None => {},
        }
    } else {
        lemma_ema_rep_sound(closes, n, i - 1);
        lemma_ema_at_wf(closes, n, i - 1);
        let prev_exact = ema_at(closes, n, i - 1);
        match ema_rep_at(closes, n, i - 1) {
            Some(p) => {
                if fits_dec(mul_r(closes[i], k_r(n))) {
                    let t1 = norm_r(mul_r(closes[i], k_r(n)));
                    lemma_ops_wf(closes[i], k_r(n));
                    lemma_norm_ratio(mul_r(closes[i], k_r(n)));
                    if fits_dec(mul_r(p, k1_r(n))) {
                        let t2 = norm_r(mul_r(p, k1_r(n)));
                        lemma_ops_wf(p, k1_r(n));
                        lemma_norm_ratio(mul_r(p, k1_r(n)));
                        lemma_mul_congr(p, prev_exact, k1_r(n), k1_r(n));
                        lemma_ops_wf(prev_exact, k1_r(n));
                        lemma_ratio_trans(t2, mul_r(p, k1_r(n)), mul_r(prev_exact, k1_r(n)));
                        if fits_dec(add_r(t1, t2)) {
                            lemma_ops_wf(t1, t2);
                            lemma_norm_ratio(add_r(t1, t2));
                            lemma_add_congr(
                                t1,
                                mul_r(closes[i], k_r(n)),
                                t2,
                                mul_r(prev_exact, k1_r(n)),
                            );
                            lemma_ops_wf(mul_r(closes[i], k_r(n)), mul_r(prev_exact, k1_r(n)));
                            lemma_ratio_trans(
                                norm_r(add_r(t1, t2)),
                                add_r(t1, t2),
                                add_r(mul_r(closes[i], k_r(n)), mul_r(prev_exact, k1_r(n))),
                            );
                        }
                    }
                }
            },
            None => {},
        }
    }
}

/// Once a step has overflowed, every later step reports overflow too.
pub proof fn lemma_ema_rep_none_mono(closes: Seq<Rat>, n: nat, i: int, j: int)
    requires
        n >= 1,
        n - 1 <= i <= j,
        ema_rep_at(closes, n, i) is None,
    ensures
        ema_rep_at(closes, n, j) is None,
    decreases j - i,
{
    if i < j {
        lemma_ema_rep_none_mono(closes, n, i, j - 1);
    }
}

/// A sum of positive values is positive.
pub proof fn lemma_sum_r_pos(s: Seq<Rat>)
    requires
        closes_wf(s),
        s.len() >= 1,
        forall|i: int| 0 <= i < s.len() ==> 0 < (#[trigger] s[i]).n,
    ensures
        rat_wf(sum_r(s)),
        0 < sum_r(s).n,
    decreases s.len(),
{
    lemma_sum_rep_sound(s);
    if s.len() == 1 {
        assert(sum_r(s.drop_last()) == rat_i(0));
    } else {
        let sd = s.drop_last();
        assert(closes_wf(sd)) by {
            assert forall|i: int| 0 <= i < sd.len() implies rat_wf(#[trigger] sd[i]) by {
                assert(sd[i] == s[i]);
            }
        }
        assert forall|i: int| 0 <= i < sd.len() implies 0 < (#[trigger] sd[i]).n by {
            assert(sd[i] == s[i]);
        }
        lemma_sum_r_pos(sd);
        lemma_add_pos(sum_r(sd), s.last());
    }
}

/// The EMA of positive closes is positive.
pub proof fn lemma_ema_at_pos(closes: Seq<Rat>, n: nat, i: int)
    requires
        closes_wf(closes),
        1 <= n <= closes.len(),
        n - 1 <= i < closes.len(),
        forall|j: int| 0 <= j < closes.len() ==> 0 < (#[trigger] closes[j]).n,
    ensures
        rat_wf(ema_at(closes, n, i)),
        0 < ema_at(closes, n, i).n,
    decreases i,
{
    if i <= n - 1 {
        let t = closes.take(n as int);
        assert(closes_wf(t) && forall|j: int| 0 <= j < t.len() ==> 0 < (#[trigger] t[j]).n) by {
            assert forall|j: int| 0 <= j < t.len() implies rat_wf(#[trigger] t[j]) && 0 < t[j].n by {
                assert(t[j] == closes[j]);
            }
        }
        lemma_sum_r_pos(t);
        lemma_div_pos_r(sum_r(t), rat_i(n as int));
    } else {
        lemma_ema_at_pos(closes, n, i - 1);
        lemma_mul_pos_r(closes[i], k_r(n));
        lemma_mul_nonneg_r(ema_at(closes, n, i - 1), k1_r(n));
        lemma_add_pos(mul_r(closes[i], k_r(n)), mul_r(ema_at(closes, n, i - 1), k1_r(n)));
    }
}

/// EMA recurrence: in steady state the value after close `closes[i]` is
/// exactly `closes[i]*2/(n+1) + previous*(n-1)/(n+1)`.
pub proof fn lemma_ema_recurrence(closes: Seq<Rat>, n: nat, i: int)
    requires
        n >= 1,
        n - 1 < i,
    ensures
        ema_at(closes, n, i) == add_r(
            mul_r(closes[i], k_r(n)),
            mul_r(ema_at(closes, n, i - 1), k1_r(n)),
        ),
{
}

/// Incremental EMA engine for one window-`size` computation.
pub struct EmaEngine {
    pub size: usize,
    pub k: Dec,
    pub k1: Dec,
    pub window: Vec<Dec>,
    pub prev_ema: Option<Dec>,
    pub count: usize,
}

impl EmaEngine {
    /// Engine invariant: the smoothing factors are fixed by the window size,
    /// and the seed window and counters agree with the phase.
    pub open spec fn wf(self) -> bool {
        &&& 1 <= self.size
        &&& self.size + 1 <= i64::MAX
        &&& self.k.wf() && self.k@ == k_r(self.size as nat)
        &&& self.k1.wf() && self.k1@ == k1_r(self.size as nat)
        &&& forall|i: int| 0 <= i < self.window@.len() ==> (#[trigger] self.window@[i]).wf()
        &&& match self.prev_ema {
            None => self.count == self.window@.len() && self.count < self.size,
            Some(p) => p.wf() && self.count == self.size - 1 && self.window@.len() == self.size,
        }
    }

    /// Fresh engine for a window of `size` closes.
    pub fn new(size: usize) -> (e: EmaEngine)
        requires
            1 <= size,
            size + 1 <= i64::MAX,
        ensures
            e.wf(),
            e.size == size,
            e.count == 0,
            e.window@.len() == 0,
            e.prev_ema is None,
    {
        let k = Dec { n: 2, d: (size as i64) + 1 };
        let k1 = Dec { n: (size as i64) - 1, d: (size as i64) + 1 };
        EmaEngine { size, k, k1, window: Vec::new(), prev_ema: None, count: 0 }
    }

    /// Feed one candle. Warm-up steps and the seed return `Ok(None)`; steady
    /// steps return the new running average; overflow leaves the engine
    /// unchanged and is reported.
    pub fn step(&mut self, ts: i64, close: Dec, origin: Origin) -> (r: Result<
        Option<Tick>,
        NumError,
    >)
        requires
            old(self).wf(),
            close.wf(),
        ensures
            final(self).wf(),
            final(self).size == old(self).size,
            final(self).k == old(self).k,
            final(self).k1 == old(self).k1,
            old(self).count + 1 < old(self).size ==> {
                &&& r matches Ok(t) && t is None
                &&& final(self).window@ == old(self).window@.push(close)
                &&& final(self).count == old(self).count + 1
                &&& final(self).prev_ema is None
            },
            (old(self).prev_ema is None && old(self).count == old(self).size - 1) ==> (match (
            seed_rep(decs_view(old(self).window@).push(close@), old(self).size as nat)) {
                Some(v) => {
                    &&& r matches Ok(t) && t is None
                    &&& final(self).window@ == old(self).window@.push(close)
                    &&& final(self).count == old(self).count
                    &&& final(self).prev_ema matches Some(p) && p@ == v
                },
                None => r is Err && *final(self) == *old(self),
            }),
            old(self).prev_ema matches Some(p0) ==> (match (step_rep(
                close@,
                p0@,
                old(self).size as nat,
            )) {
                Some(v) => {
                    &&& r matches Ok(t) && t matches Some(tick) && tick.ts == ts && tick.origin
                        == origin && tick.value.wf() && tick.value@ == v
                    &&& final(self).window@ == old(self).window@
                    &&& final(self).count == old(self).count
                    &&& final(self).prev_ema matches Some(p) && p@ == v
                },
                None => r is Err && *final(self) == *old(self),
            }),
    {
        if self.count + 1 < self.size {
            self.window.push(close);
            self.count = self.count + 1;
            Ok(None)
        } else {
            match self.prev_ema {
                None => {
                    let ghost ws = decs_view(self.window@).push(close@);
                    let mut acc: Dec = Dec::from_i64(0);
                    let mut i: usize = 0;
                    proof {
                        assert(ws.take(0) =~= Seq::<Rat>::empty());
                    }
                    while i < self.window.len()
                        invariant
                            *self == *old(self),
                            old(self).wf(),
                            close.wf(),
                            self.prev_ema is None,
                            self.count == self.size - 1,
                            i <= self.window@.len(),
                            acc.wf(),
                            ws == decs_view(self.window@).push(close@),
                            sum_rep(ws.take(i as int)) == Some(acc@),
                        decreases self.window@.len() - i,
                    {
                        let w: Dec = self.window[i];
                        proof {
                            assert(ws.take(i + 1).drop_last() =~= ws.take(i as int));
                            assert(ws.take(i + 1).last() == w@);
                        }
                        match acc.checked_add(w) {
                            Some(a) => {
                                acc = a;
                            },
                            None => {
                                proof {
                                    lemma_sum_rep_none_mono(ws, i + 1);
                                }
                                return Err(NumError::Overflow);
                            },
                        }
                        i += 1;
                    }
                    proof {
                        assert(ws.drop_last() =~= ws.take(self.window@.len() as int));
                        assert(ws.last() == close@);
                    }
                    let acc2: Dec = match acc.checked_add(close) {
                        Some(a) => a,
                        None => {
                            return Err(NumError::Overflow);
                        },
                    };
                    assert(sum_rep(ws) == Some(acc2@));
                    let nd: Dec = Dec::from_i64(self.size as i64);
                    let seed: Dec = match acc2.checked_div(nd) {
                        Some(sv) => sv,
                        None => {
                            return Err(NumError::Overflow);
                        },
                    };
                    self.window.push(close);
                    self.prev_ema = Some(seed);
                    Ok(None)
                },
                Some(p) => {
                    let t1: Dec = match close.checked_mul(self.k) {
                        Some(v) => v,
                        None => {
                            return Err(NumError::Overflow);
                        },
                    };
                    let t2: Dec = match p.checked_mul(self.k1) {
                        Some(v) => v,
                        None => {
                            return Err(NumError::Overflow);
                        },
                    };
                    let v: Dec = match t1.checked_add(t2) {
                        Some(v) => v,
                        None => {
                            return Err(NumError::Overflow);
                        },
                    };
                    self.prev_ema = Some(v);
                    Ok(Some(Tick { ts, value: v, origin }))
                },
            }
        }
    }
}

/// EMA over a whole candle sequence: one output per input, `None` for the
/// first `window` outputs (warm-up and the silent seed), and from then on the
/// exact recurrence value with the input candle's timestamp and origin.
pub fn ema(candles: &Vec<Candle>, window: usize) -> (r: Result<Vec<Option<Tick>>, NumError>)
    requires
        1 <= window,
        window + 1 <= i64::MAX,
        forall|i: int| 0 <= i < candles@.len() ==> (#[trigger] candles@[i]).wf(),
    ensures
        ({
            let reps = closes_of(candles@);
            let n = window as nat;
            &&& (r matches Ok(out) ==> {
                &&& out@.len() == candles@.len()
                &&& forall|i: int| 0 <= i < out@.len() ==> ((#[trigger] out@[i]) is None <==> i < window)
                &&& forall|i: int|
                    window <= i < out@.len() ==> ((#[trigger] out@[i]) matches Some(t) && t.ts
                        == candles@[i].ts && t.origin == candles@[i].origin && t.value.wf()
                        && ema_rep_at(reps, n, i) == Some(t.value@) && ratio_eq(
                        t.value@,
                        ema_at(reps, n, i),
                    ))
            })
            &&& (r is Ok <==> (candles@.len() < window || ema_rep_at(
                reps,
                n,
                candles@.len() - 1,
            ) is Some))
        }),
{
    let ghost reps = closes_of(candles@);
    let ghost n = window as nat;
    proof {
        assert(closes_wf(reps)) by {
            assert forall|i: int| 0 <= i < reps.len() implies rat_wf(#[trigger] reps[i]) by {
                assert(reps[i] == candles@[i].close@);
            }
        }
    }
    let mut out: Vec<Option<Tick>> = Vec::new();
    let mut eng = EmaEngine::new(window);
    let mut idx: usize = 0;
    proof {
        assert(decs_view(eng.window@) =~= reps.take(0));
    }
    while idx < candles.len()
        invariant
            eng.wf(),
            eng.size == window,
            1 <= window,
            window + 1 <= i64::MAX,
            reps == closes_of(candles@),
            n == window as nat,
            closes_wf(reps),
            reps.len() == candles@.len(),
            forall|i: int| 0 <= i < candles@.len() ==> (#[trigger] candles@[i]).wf(),
            idx <= candles@.len(),
            out@.len() == idx,
            forall|i: int| 0 <= i < idx ==> ((#[trigger] out@[i]) is None <==> i < window),
            forall|i: int|
                window <= i < idx ==> ((#[trigger] out@[i]) matches Some(t) && t.ts
                    == candles@[i].ts && t.origin == candles@[i].origin && t.value.wf()
                    && ema_rep_at(reps, n, i) == Some(t.value@) && ratio_eq(
                    t.value@,
                    ema_at(reps, n, i),
                )),
            idx < window ==> eng.prev_ema is None && eng.count == idx && decs_view(eng.window@)
                == reps.take(idx as int),
            idx >= window ==> (eng.prev_ema matches Some(p) && ema_rep_at(reps, n, idx - 1)
                == Some(p@)) && decs_view(eng.window@) == reps.take(window as int),
        decreases candles@.len() - idx,
    {
        let c: Candle = candles[idx];
        proof {
            assert(reps[idx as int] == c.close@);
            if idx < window {
                assert(decs_view(eng.window@).push(c.close@) =~= reps.take(idx + 1));
            }
        }
        let res = eng.step(c.ts, c.close, c.origin);
        match res {
            Ok(t) => {
                proof {
                    if idx + 1 < window {
                        assert(decs_view(eng.window@) =~= reps.take(idx + 1));
                    } else if idx < window {
                        // seed step: idx == window - 1
                        assert(reps.take(idx + 1) =~= reps.take(window as int));
                        assert(decs_view(eng.window@) =~= reps.take(window as int));
                        assert(ema_rep_at(reps, n, idx as int) == seed_rep(
                            reps.take(window as int),
                            n,
                        ));
                    } else {
                        // steady step
                        assert(ema_rep_at(reps, n, idx as int) == step_rep(
                            reps[idx as int],
                            ema_rep_at(reps, n, idx - 1)->Some_0,
                            n,
                        ));
                        lemma_ema_rep_sound(reps, n, idx as int);
                    }
                }
                out.push(t);
                idx += 1;
            },
            Err(e) => {
                proof {
                    if idx < window {
                        assert(reps.take(idx + 1) =~= reps.take(window as int));
                        assert(ema_rep_at(reps, n, idx as int) is None);
                    } else {
                        assert(ema_rep_at(reps, n, idx as int) is None);
                    }
                    lemma_ema_rep_none_mono(reps, n, idx as int, reps.len() - 1);
                }
                return Err(e);
            },
        }
    }
    Ok(out)
}

} // verus!
