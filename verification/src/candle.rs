//! Candles and the unified candle stream.
//!
//! A unified stream is the historical batch (minus its dangling, still-forming
//! last bar) followed by the live feed, each candle tagged with its origin.

use vstd::prelude::*;

verus! {

use crate::dec::Dec;

/// Where a candle came from: the historical batch or the live feed.
#[derive(Clone, Copy, Debug, PartialEq, Eq, Structural)]
pub enum Origin {
    Historical,
    Live,
}

/// A closed candlestick bar: timestamp (epoch milliseconds), open and close
/// price, and the segment of the unified stream it belongs to.
#[derive(Clone, Copy, Debug, PartialEq, Eq, Structural)]
pub struct Candle {
    pub ts: i64,
    pub open: Dec,
    pub close: Dec,
    pub origin: Origin,
}

impl Candle {
    /// Both prices are well-formed fractions.
    pub open spec fn wf(self) -> bool {
        self.open.wf() && self.close.wf()
    }
}

/// One indicator reading: an exact value carrying the timestamp and origin of
/// the candle it was computed for.
#[derive(Clone, Copy, Debug, PartialEq, Eq, Structural)]
pub struct Tick {
    pub ts: i64,
    pub value: Dec,
    pub origin: Origin,
}

/// Timestamps are strictly increasing along the sequence.
pub open spec fn ts_strictly_inc(s: Seq<Candle>) -> bool {
    forall|i: int, j: int| 0 <= i < j < s.len() ==> s[i].ts < s[j].ts
}

/// Build the unified candle stream: every historical candle but the last
/// (exchange history ends with the bar still forming, whose closed form
/// arrives again over the live feed), tagged historical, followed by every
/// live candle, tagged live.
pub fn unify(history: &Vec<Candle>, live: &Vec<Candle>) -> (out: Vec<Candle>)
    requires
        history@.len() >= 1,
    ensures
        out@.len() == history@.len() - 1 + live@.len(),
        forall|i: int|
            0 <= i < history@.len() - 1 ==> out@[i] == (Candle {
                origin: Origin::Historical,
                ..history@[i]
            }),
        forall|i: int|
            history@.len() - 1 <= i < out@.len() ==> #[trigger] out@[i] == (Candle {
                origin: Origin::Live,
                ..live@[i - (history@.len() - 1)]
            }),
{
    let mut out: Vec<Candle> = Vec::new();
    let h: usize = history.len() - 1;
    let mut i: usize = 0;
    while i < h
        invariant
            i <= h,
            h == history@.len() - 1,
            out@.len() == i,
            forall|j: int|
                0 <= j < i ==> out@[j] == (Candle { origin: Origin::Historical, ..history@[j] }),
        decreases h - i,
    {
        let c: Candle = history[i];
        out.push(Candle { ts: c.ts, open: c.open, close: c.close, origin: Origin::Historical });
        i += 1;
    }
    let mut j: usize = 0;
    while j < live.len()
        invariant
            h == history@.len() - 1,
            j <= live@.len(),
            out@.len() == h + j,
            forall|t: int|
                0 <= t < h ==> out@[t] == (Candle { origin: Origin::Historical, ..history@[t] }),
            forall|t: int|
                h <= t < h + j ==> #[trigger] out@[t] == (Candle {
                    origin: Origin::Live,
                    ..live@[t - h]
                }),
        decreases live@.len() - j,
    {
        let c: Candle = live[j];
        out.push(Candle { ts: c.ts, open: c.open, close: c.close, origin: Origin::Live });
        j += 1;
    }
    out
}

/// One raw candlestick row as the connectivity layer hands it over: open
/// time in epoch milliseconds and the two prices as decimal strings.
#[derive(Clone, Debug)]
pub struct KlineRow {
    pub ts_ms: i64,
    pub open: String,
    pub close: String,
}

/// One decoded live push message: the stream it arrived on, whether the bar
/// has closed, and the raw candle fields.
#[derive(Clone, Debug)]
pub struct LiveMsg {
    pub stream: String,
    pub closed: bool,
    pub row: KlineRow,
}

/// Both price strings denote representable values.
pub open spec fn row_parses(row: KlineRow) -> bool {
    &&& crate::parse::parses(row.open@)
    &&& crate::parse::parses(row.close@)
}

/// Build one candle from a raw row, failing closed on a malformed or
/// unrepresentable price string.
pub fn build_candle(row: &KlineRow, origin: Origin) -> (r: Option<Candle>)
    ensures
        r is Some <==> row_parses(*row),
        r matches Some(cd) ==> cd.wf() && cd.ts == row.ts_ms && cd.origin == origin
            && crate::parse::parse_val(row.open@) == Some(cd.open@) && crate::parse::parse_val(
            row.close@,
        ) == Some(cd.close@),
{
    let o = crate::parse::parse_dec(row.open.as_str());
    let c = crate::parse::parse_dec(row.close.as_str());
    match (o, c) {
        (Some(od), Some(cd)) => Some(Candle { ts: row.ts_ms, open: od, close: cd, origin }),
        _ => None,
    }
}

/// Assemble the historical batch: the exchange returns the still-forming bar
/// as the last row, which is dropped before use (its closed form arrives
/// again over the live feed); every remaining row is parsed, oldest first,
/// and tagged historical. Any malformed row fails the whole batch.
pub fn build_history(rows: &Vec<KlineRow>) -> (r: Option<Vec<Candle>>)
    requires
        rows@.len() >= 1,
    ensures
        r is Some <==> (forall|i: int| 0 <= i < rows@.len() - 1 ==> row_parses(#[trigger] rows@[i])),
        r matches Some(out) ==> {
            &&& out@.len() == rows@.len() - 1
            &&& forall|i: int|
                0 <= i < out@.len() ==> ((#[trigger] out@[i]).wf() && out@[i].ts == rows@[i].ts_ms
                    && out@[i].origin == Origin::Historical && crate::parse::parse_val(
                    rows@[i].open@,
                ) == Some(out@[i].open@) && crate::parse::parse_val(rows@[i].close@) == Some(
                    out@[i].close@,
                ))
        },
{
    let mut out: Vec<Candle> = Vec::new();
    let n: usize = rows.len() - 1;
    let mut i: usize = 0;
    while i < n
        invariant
            i <= n,
            n == rows@.len() - 1,
            out@.len() == i,
            forall|j: int| 0 <= j < i ==> row_parses(#[trigger] rows@[j]),
            forall|j: int|
                0 <= j < i ==> ((#[trigger] out@[j]).wf() && out@[j].ts == rows@[j].ts_ms
                    && out@[j].origin == Origin::Historical && crate::parse::parse_val(
                    rows@[j].open@,
                ) == Some(out@[j].open@) && crate::parse::parse_val(rows@[j].close@) == Some(
                    out@[j].close@,
                )),
        decreases n - i,
    {
        match build_candle(&rows[i], Origin::Historical) {
            Some(c) => {
                out.push(c);
                i += 1;
            },
            None => {
                return None;
            },
        }
    }
    Some(out)
}

/// Filter one live push message: only a message of the subscribed stream
/// whose bar has closed yields a candle, parsed and tagged live; every other
/// message — another stream, a still-forming bar, a malformed payload — is
/// discarded silently and the subscription goes on.
pub fn accept_live(msg: &LiveMsg, expected_stream: &String) -> (r: Option<Candle>)
    ensures
        (msg.stream@ != expected_stream@ || !msg.closed) ==> r is None,
        (msg.stream@ == expected_stream@ && msg.closed) ==> {
            &&& (r is Some <==> row_parses(msg.row))
            &&& (r matches Some(cd) ==> cd.wf() && cd.ts == msg.row.ts_ms && cd.origin
                == Origin::Live && crate::parse::parse_val(msg.row.open@) == Some(cd.open@)
                && crate::parse::parse_val(msg.row.close@) == Some(cd.close@))
        },
{
    if msg.stream == *expected_stream && msg.closed {
        build_candle(&msg.row, Origin::Live)
    } else {
        None
    }
}

/// Seam correctness: a unified stream built from an ordered historical batch
/// and an ordered live sequence whose first candle is newer than the last
/// kept historical candle is strictly increasing in timestamp throughout, so
/// no timestamp repeats across the seam.
pub proof fn lemma_seam_ordered(history: Seq<Candle>, live: Seq<Candle>, out: Seq<Candle>)
    requires
        history.len() >= 1,
        out.len() == history.len() - 1 + live.len(),
        forall|i: int| 0 <= i < history.len() - 1 ==> out[i].ts == history[i].ts,
        forall|i: int|
            history.len() - 1 <= i < out.len() ==> #[trigger] out[i].ts == live[i - (history.len()
                - 1)].ts,
        ts_strictly_inc(history),
        ts_strictly_inc(live),
        history.len() >= 2 && live.len() >= 1 ==> history[history.len() - 2].ts < live[0].ts,
    ensures
        ts_strictly_inc(out),
{
    let h = history.len() - 1;
    assert forall|i: int, j: int| 0 <= i < j < out.len() implies out[i].ts < out[j].ts by {
        if j < h {
            assert(history[i].ts < history[j].ts);
        } else if i >= h {
            assert(out[i].ts == live[i - h].ts);
            assert(out[j].ts == live[j - h].ts);
            assert(live[i - h].ts < live[j - h].ts);
        } else {
            assert(out[i].ts == history[i].ts);
            assert(out[j].ts == live[j - h].ts);
            if i < h - 1 {
                assert(history[i].ts < history[h - 1].ts);
            }
            assert(history[h - 1].ts < live[0].ts);
            if j - h > 0 {
                assert(live[0].ts < live[j - h].ts);
            }
        }
    }
}

} // verus!
