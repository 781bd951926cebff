//! Reading YouTube's json3 caption format into timed events.
//!
//! A json3 document is `{"events": [{"tStartMs", "dDurationMs", "segs":
//! [{"utf8", "tOffsetMs"}, …]}, …]}`. Each segment's text is split into
//! words; the words of one segment are spread evenly over 300 ms after the
//! segment's start.
use vstd::prelude::*;

use crate::decode::{decoded_text, try_decode};
use crate::json::{
    json_as_array, json_as_i64, json_as_str, json_from_str, json_get,
    json_model, member_array, member_i64, member_str, parse_json_text, Json,
};
use crate::parser::{
    cue_views, event_views, group_into_cues, grouped_cues, has_tokens, starts_in_range,
    text_tokens, CueView, EventView, MAX_CUE_DUR,
};
use crate::text::{chars_of, flatten, join, join_words, split_whitespace, split_ws, string_of};
use crate::types::{Event, SubCue};

verus! {

// ── raw events: the fields of the document that the parser reads ────────────

/// One segment as read from the document.
#[derive(Debug, Clone)]
pub struct RawSeg {
    pub utf8: Option<String>,
    pub offset_ms: Option<i64>,
}

/// One event as read from the document.
#[derive(Debug, Clone)]
pub struct RawEvent {
    pub start_ms: Option<i64>,
    pub duration_ms: Option<i64>,
    pub segs: Option<Vec<RawSeg>>,
}

pub struct RawSegView {
    pub utf8: Option<Seq<char>>,
    pub offset_ms: Option<i64>,
}

pub struct RawEventView {
    pub start_ms: Option<i64>,
    pub duration_ms: Option<i64>,
    pub segs: Option<Seq<RawSegView>>,
}

pub open spec fn opt_view(s: Option<String>) -> Option<Seq<char>> {
    match s {
        Some(t) => Some(t@),
        None => None,
    }
}

impl View for RawSeg {
    type V = RawSegView;

    open spec fn view(&self) -> RawSegView {
        RawSegView { utf8: opt_view(self.utf8), offset_ms: self.offset_ms }
    }
}

pub open spec fn seg_views(segs: Seq<RawSeg>) -> Seq<RawSegView> {
    segs.map_values(|s: RawSeg| s@)
}

impl View for RawEvent {
    type V = RawEventView;

    open spec fn view(&self) -> RawEventView {
        RawEventView {
            start_ms: self.start_ms,
            duration_ms: self.duration_ms,
            segs: match self.segs {
                Some(v) => Some(seg_views(v@)),
                None => None,
            },
        }
    }
}

pub open spec fn raw_views(raw: Seq<RawEvent>) -> Seq<RawEventView> {
    raw.map_values(|e: RawEvent| e@)
}

/// The fields a segment object contributes.
pub open spec fn raw_seg_of(j: Json) -> RawSegView {
    RawSegView { utf8: member_str(j, "utf8"@), offset_ms: member_i64(j, "tOffsetMs"@) }
}

/// The fields an event object contributes.
pub open spec fn raw_event_of(j: Json) -> RawEventView {
    RawEventView {
        start_ms: member_i64(j, "tStartMs"@),
        duration_ms: member_i64(j, "dDurationMs"@),
        segs: match member_array(j, "segs"@) {
            Some(xs) => Some(xs.map_values(|x: Json| raw_seg_of(x))),
            None => None,
        },
    }
}

/// The events of a json3 document, or `None` when it has no `events` array.
pub open spec fn json3_raw(doc: Json) -> Option<Seq<RawEventView>> {
    match member_array(doc, "events"@) {
        Some(xs) => Some(xs.map_values(|x: Json| raw_event_of(x))),
        None => None,
    }
}

fn raw_seg(v: &serde_json::Value) -> (r: RawSeg)
    ensures
        r@ == raw_seg_of(json_model(*v)),
{
    let utf8 = match json_get(v, "utf8") {
        Some(x) => match json_as_str(x) {
            Some(s) => Some(s.to_string()),
            None => None,
        },
        None => None,
    };
    let offset_ms = match json_get(v, "tOffsetMs") {
        Some(x) => json_as_i64(x),
        None => None,
    };
    RawSeg { utf8, offset_ms }
}

fn raw_event(v: &serde_json::Value) -> (r: RawEvent)
    ensures
        r@ == raw_event_of(json_model(*v)),
{
    let start_ms = match json_get(v, "tStartMs") {
        Some(x) => json_as_i64(x),
        None => None,
    };
    let duration_ms = match json_get(v, "dDurationMs") {
        Some(x) => json_as_i64(x),
        None => None,
    };
    let segs = match json_get(v, "segs") {
        Some(x) => match json_as_array(x) {
            Some(arr) => {
                let ghost xs = as_array_seq(json_model(*x));
                let mut out: Vec<RawSeg> = Vec::new();
                let mut i: usize = 0;
                while i < arr.len()
                    invariant
                        i <= arr@.len(),
                        arr@.len() == xs.len(),
                        forall|k: int| 0 <= k < xs.len() ==> json_model(#[trigger] arr@[k]) == xs[k],
                        seg_views(out@) == xs.take(i as int).map_values(|x: Json| raw_seg_of(x)),
                    decreases arr@.len() - i,
                {
                    let s = raw_seg(&arr[i]);
                    let ghost before = out@;
                    out.push(s);
                    proof {
                        assert(seg_views(out@) =~= seg_views(before).push(s@));
                        assert(xs.take(i + 1).map_values(|x: Json| raw_seg_of(x)) =~= xs.take(
                            i as int,
                        ).map_values(|x: Json| raw_seg_of(x)).push(raw_seg_of(xs[i as int])));
                    }
                    i += 1;
                }
                assert(xs.take(xs.len() as int) =~= xs);
                Some(out)
            },
            None => None,
        },
        None => None,
    };
    RawEvent { start_ms, duration_ms, segs }
}

pub open spec fn as_array_seq(j: Json) -> Seq<Json> {
    match j {
        Json::Array(xs) => xs,
        _ => seq![],
    }
}

/// The events of a parsed json3 document, as read.
pub fn json3_raw_events(doc: &serde_json::Value) -> (r: Option<Vec<RawEvent>>)
    ensures
        match json3_raw(json_model(*doc)) {
            Some(evs) => r matches Some(v) && raw_views(v@) == evs,
            None => r is None,
        },
{
    match json_get(doc, "events") {
        Some(x) => match json_as_array(x) {
            Some(arr) => {
                let ghost xs = as_array_seq(json_model(*x));
                let mut out: Vec<RawEvent> = Vec::new();
                let mut i: usize = 0;
                while i < arr.len()
                    invariant
                        i <= arr@.len(),
                        arr@.len() == xs.len(),
                        forall|k: int| 0 <= k < xs.len() ==> json_model(#[trigger] arr@[k]) == xs[k],
                        raw_views(out@) == xs.take(i as int).map_values(|x: Json| raw_event_of(x)),
                    decreases arr@.len() - i,
                {
                    let e = raw_event(&arr[i]);
                    let ghost before = out@;
                    out.push(e);
                    proof {
                        assert(raw_views(out@) =~= raw_views(before).push(e@));
                        assert(xs.take(i + 1).map_values(|x: Json| raw_event_of(x)) =~= xs.take(
                            i as int,
                        ).map_values(|x: Json| raw_event_of(x)).push(raw_event_of(xs[i as int])));
                    }
                    i += 1;
                }
                assert(xs.take(xs.len() as int) =~= xs);
                Some(out)
            },
            None => None,
        },
        None => None,
    }
}

// ── from raw events to timed events ──────────────────────────────────────────

/// How far the `j`-th of `n` words of a segment is placed after the
/// segment's start: the words are spread evenly over 300 ms.
pub open spec fn spread(j: int, n: int) -> int {
    if n > 1 {
        (j * 300) / n
    } else {
        0
    }
}

pub open spec fn in_i64(x: int) -> bool {
    i64::MIN <= x <= i64::MAX
}

/// The words of a segment (none when it has no text).
pub open spec fn seg_tokens(s: RawSegView) -> Seq<Seq<char>> {
    match s.utf8 {
        Some(u) => split_ws(u),
        None => seq![],
    }
}

/// Where a segment starts: the event start plus the segment's offset.
pub open spec fn seg_base(t: i64, s: RawSegView) -> int {
    t + match s.offset_ms {
        Some(o) => o as int,
        None => 0int,
    }
}

/// The words of a segment with their times.
pub open spec fn seg_words(t: i64, s: RawSegView) -> Seq<(Seq<char>, int)> {
    let ts = seg_tokens(s);
    Seq::new(ts.len(), |j: int| (ts[j], seg_base(t, s) + spread(j, ts.len() as int)))
}

/// The times of a segment's words fit in `i64` (as does the segment start
/// they are computed from).
pub open spec fn seg_fits(t: i64, s: RawSegView) -> bool {
    let ts = seg_tokens(s);
    ts.len() > 0 ==> (in_i64(seg_base(t, s)) && forall|j: int|
        0 <= j < ts.len() ==> in_i64(seg_base(t, s) + #[trigger] spread(j, ts.len() as int)))
}

/// The start of an event (0 when missing).
pub open spec fn event_t(e: RawEventView) -> i64 {
    match e.start_ms {
        Some(t) => t,
        None => 0,
    }
}

/// All the timed words of an event, segment after segment.
pub open spec fn event_words_of(e: RawEventView) -> Seq<(Seq<char>, int)> {
    match e.segs {
        Some(segs) => flatten(segs.map_values(|s: RawSegView| seg_words(event_t(e), s))),
        None => seq![],
    }
}

/// Every time computed for an event fits in `i64`.
pub open spec fn event_fits(e: RawEventView) -> bool {
    match e.segs {
        Some(segs) => {
            &&& forall|k: int| 0 <= k < segs.len() ==> seg_fits(event_t(e), #[trigger] segs[k])
            &&& (event_words_of(e).len() > 0 && e.duration_ms is Some) ==> in_i64(
                event_t(e) + e.duration_ms->0,
            )
        },
        None => true,
    }
}

/// The event a raw event gives: `None` without segments or words; else it
/// starts with its first word, ends `dDurationMs` after its start when that
/// is given, and holds its words joined by single spaces.
pub open spec fn event_of(e: RawEventView) -> Option<EventView> {
    let ws = event_words_of(e);
    if e.segs is None || ws.len() == 0 {
        None
    } else {
        Some(
            EventView {
                start_ms: ws[0].1 as i64,
                end_ms: match e.duration_ms {
                    Some(d) => Some((event_t(e) + d) as i64),
                    None => None,
                },
                text: join(ws.map_values(|p: (Seq<char>, int)| p.0), seq![' ']),
            },
        )
    }
}

/// The events of a list of raw events, skipping those that give none.
pub open spec fn events_of(raw: Seq<RawEventView>) -> Seq<EventView>
    decreases raw.len(),
{
    if raw.len() == 0 {
        seq![]
    } else {
        let r = events_of(raw.drop_last());
        match event_of(raw.last()) {
            Some(e) => r.push(e),
            None => r,
        }
    }
}

pub open spec fn all_fit(raw: Seq<RawEventView>) -> bool {
    forall|i: int| 0 <= i < raw.len() ==> event_fits(#[trigger] raw[i])
}

proof fn lemma_seg_words_take(t: i64, s: RawSegView, j: int)
    requires
        0 <= j < seg_tokens(s).len(),
    ensures
        seg_words(t, s).take(j + 1) == seg_words(t, s).take(j).push(seg_words(t, s)[j]),
{
    assert(seg_words(t, s).take(j + 1) =~= seg_words(t, s).take(j).push(seg_words(t, s)[j]));
}

/// The event made of one raw event, or `Err(())` when one of its times
/// does not fit in `i64`.
fn event_from_raw(e: &RawEvent) -> (r: Result<Option<Event>, ()>)
    ensures
        r is Ok <==> event_fits(e@),
        r matches Ok(o) ==> match event_of(e@) {
            Some(ev) => o matches Some(x) && x@ == ev,
            None => o is None,
        },
{
    let ghost ev = e@;
    let t: i64 = match e.start_ms {
        Some(t) => t,
        None => 0,
    };
    let segs = match &e.segs {
        Some(s) => s,
        None => {
            return Ok(None);
        },
    };
    let ghost sv = seg_views(segs@);
    let ghost f = |s: RawSegView| seg_words(t, s);
    assert(ev.segs == Some(sv));
    let mut words: Vec<Vec<char>> = Vec::new();
    let mut first: i64 = 0;
    let mut k: usize = 0;
    while k < segs.len()
        invariant
            ev == e@,
            ev.segs == Some(sv),
            sv == seg_views(segs@),
            t == event_t(ev),
            f == (|s: RawSegView| seg_words(t, s)),
            k <= segs@.len(),
            forall|m: int| 0 <= m < k ==> seg_fits(t, #[trigger] sv[m]),
            words@.map_values(|w: Vec<char>| w@) == flatten(sv.take(k as int).map_values(f)).map_values(
                |p: (Seq<char>, int)| p.0,
            ),
            words@.len() > 0 ==> first as int == flatten(sv.take(k as int).map_values(f))[0].1,
        decreases segs@.len() - k,
    {
        let seg = &segs[k];
        let ghost s = sv[k as int];
        assert(s == seg@);
        let ghost prev = flatten(sv.take(k as int).map_values(f));
        assert(sv.take(k + 1).map_values(f) =~= sv.take(k as int).map_values(f).push(f(s)));
        proof {
            crate::text::lemma_flatten_push(sv.take(k as int).map_values(f), f(s));
        }
        match &seg.utf8 {
            Some(text) => {
                let chars = chars_of(text.as_str());
                let toks = split_whitespace(&chars);
                assert(toks@.map_values(|w: Vec<char>| w@) =~= seg_tokens(s));
                let n = toks.len();
                if n > 0 {
                    let off: i64 = match seg.offset_ms {
                        Some(o) => o,
                        None => 0,
                    };
                    let base: i128 = t as i128 + off as i128;
                    assert(base == seg_base(t, s));
                    if base < i64::MIN as i128 || base > i64::MAX as i128 {
                        return Err(());
                    }
                    let mut j: usize = 0;
                    while j < n
                        invariant
                            ev == e@,
                            ev.segs == Some(sv),
                            sv == seg_views(segs@),
                            t == event_t(ev),
                            f == (|s: RawSegView| seg_words(t, s)),
                            k < segs@.len(),
                            s == sv[k as int],
                            n == toks@.len(),
                            n == seg_tokens(s).len(),
                            base == seg_base(t, s),
                            in_i64(base as int),
                            toks@.map_values(|w: Vec<char>| w@) == seg_tokens(s),
                            j <= n,
                            prev == flatten(sv.take(k as int).map_values(f)),
                            forall|m: int| 0 <= m < j ==> in_i64(
                                seg_base(t, s) + #[trigger] spread(m, n as int),
                            ),
                            words@.map_values(|w: Vec<char>| w@) == (prev + seg_words(t, s).take(
                                j as int,
                            )).map_values(|p: (Seq<char>, int)| p.0),
                            words@.len() > 0 ==> first as int == (prev + seg_words(t, s).take(
                                j as int,
                            ))[0].1,
                        decreases n - j,
                    {
                        let sp: i128 = if n > 1 {
                            let q: u128 = (j as u128 * 300) / (n as u128);
                            assert(q < 300) by (nonlinear_arith)
                                requires
                                    q == (j as int * 300) / (n as int),
                                    j < n,
                                    n > 1,
                            ;
                            q as i128
                        } else {
                            0
                        };
                        assert(sp == spread(j as int, n as int));
                        let time = base + sp;
                        if time > i64::MAX as i128 {
                            return Err(());
                        }
                        let ghost wj = seg_words(t, s)[j as int];
                        proof {
                            lemma_seg_words_take(t, s, j as int);
                        }
                        let ghost before = words@;
                        if words.len() == 0 {
                            first = time as i64;
                        }
                        let w = crate::text::copy_chars(&toks[j]);
                        words.push(w);
                        proof {
                            let a = prev + seg_words(t, s).take(j as int);
                            assert(prev + seg_words(t, s).take(j + 1) =~= a.push(wj));
                            assert(words@.map_values(|w: Vec<char>| w@) =~= before.map_values(
                                |w: Vec<char>| w@,
                            ).push(toks@[j as int]@));
                            assert(toks@[j as int]@ == seg_tokens(s)[j as int]);
                            assert(a.push(wj).map_values(|p: (Seq<char>, int)| p.0) =~= a.map_values(
                                |p: (Seq<char>, int)| p.0,
                            ).push(wj.0));
                            if before.len() > 0 {
                                assert(a.map_values(|p: (Seq<char>, int)| p.0).len() > 0);
                                assert(a.push(wj)[0] == a[0]);
                            } else {
                                assert(a.map_values(|p: (Seq<char>, int)| p.0).len() == 0);
                                assert(a.len() == 0);
                                assert(a.push(wj)[0] == wj);
                            }
                        }
                        j += 1;
                    }
                    assert(seg_words(t, s).take(n as int) =~= seg_words(t, s));
                    assert(seg_fits(t, s));
                } else {
                    assert(seg_words(t, s) =~= Seq::<(Seq<char>, int)>::empty());
                    assert(prev + seg_words(t, s) =~= prev);
                }
            },
            None => {
                assert(seg_words(t, s) =~= Seq::<(Seq<char>, int)>::empty());
                assert(prev + seg_words(t, s) =~= prev);
            },
        }
        k += 1;
    }
    assert(sv.take(sv.len() as int) =~= sv);
    let ghost ws = event_words_of(ev);
    assert(ws == flatten(sv.map_values(f)));
    if words.len() == 0 {
        return Ok(None);
    }
    let end_ms: Option<i64> = match e.duration_ms {
        Some(d) => {
            let x: i128 = t as i128 + d as i128;
            if x < i64::MIN as i128 || x > i64::MAX as i128 {
                return Err(());
            }
            Some(x as i64)
        },
        None => None,
    };
    let text = join_words(&words);
    let event = Event { start_ms: first, end_ms, text: string_of(&text) };
    Ok(Some(event))
}

/// The events of raw json3 events; `None` when a time overflows `i64`.
pub fn events_from_raw(raw: &Vec<RawEvent>) -> (r: Option<Vec<Event>>)
    ensures
        r is Some <==> all_fit(raw_views(raw@)),
        r matches Some(v) ==> event_views(v@) == events_of(raw_views(raw@)),
{
    let ghost rv = raw_views(raw@);
    let mut out: Vec<Event> = Vec::new();
    let mut i: usize = 0;
    while i < raw.len()
        invariant
            rv == raw_views(raw@),
            i <= raw@.len(),
            forall|m: int| 0 <= m < i ==> event_fits(#[trigger] rv[m]),
            event_views(out@) == events_of(rv.take(i as int)),
        decreases raw@.len() - i,
    {
        assert(rv.take(i + 1).drop_last() =~= rv.take(i as int));
        assert(rv.take(i + 1).last() == raw@[i as int]@);
        let ghost before = out@;
        match event_from_raw(&raw[i]) {
            Err(()) => {
                assert(!all_fit(rv)) by {
                    assert(!event_fits(rv[i as int]));
                }
                return None;
            },
            Ok(Some(ev)) => {
                out.push(ev);
                assert(event_views(out@) =~= event_views(before).push(ev@));
            },
            Ok(None) => {},
        }
        i += 1;
    }
    assert(rv.take(raw@.len() as int) =~= rv);
    Some(out)
}

/// The raw events that hold words, in their order.
pub open spec fn raw_with_words(raw: Seq<RawEventView>) -> Seq<RawEventView>
    decreases raw.len(),
{
    if raw.len() == 0 {
        seq![]
    } else {
        let r = raw_with_words(raw.drop_last());
        if raw.last().segs is Some && event_words_of(raw.last()).len() > 0 {
            r.push(raw.last())
        } else {
            r
        }
    }
}

/// Each raw event with words gives one event, in their order. The event
/// starts with its first word; it ends `dDurationMs` after the raw event's
/// `tStartMs` (0 when that is missing) when the raw event has a
/// `dDurationMs`, and it has no end exactly when the raw event has none.
pub proof fn lemma_event_times(raw: Seq<RawEventView>)
    ensures
        events_of(raw).len() == raw_with_words(raw).len(),
        forall|j: int|
            0 <= j < events_of(raw).len() ==> {
                let w = raw_with_words(raw)[j];
                &&& (#[trigger] events_of(raw)[j]).start_ms == event_words_of(w)[0].1 as i64
                &&& events_of(raw)[j].end_ms == match w.duration_ms {
                    Some(d) => Some(
                        ((match w.start_ms {
                            Some(t) => t as int,
                            None => 0int,
                        }) + d) as i64,
                    ),
                    None => None,
                }
            },
    decreases raw.len(),
{
    if raw.len() > 0 {
        let p = raw.drop_last();
        lemma_event_times(p);
        let l = raw.last();
        if l.segs is Some && event_words_of(l).len() > 0 {
            assert(events_of(raw) == events_of(p).push(event_of(l)->0));
            assert(raw_with_words(raw) == raw_with_words(p).push(l));
        } else {
            assert(events_of(raw) == events_of(p));
        }
    }
}

// ── public entry points ──────────────────────────────────────────────────────

/// Why a json3 file gave no cues.
#[derive(Debug, Clone)]
pub enum Json3Error {
    /// An event with words starts too close to the end of the `i64` range
    /// for a cue to be placed after it.
    TimeOverflow,
    /// The file holds no events with words.
    NoEvents,
}

/// The warning given when a time in a json3 file does not fit in 64 bits.
pub open spec fn overflow_warning() -> Seq<char> {
    "Timestamp out of range in json3 file."@
}

impl Json3Error {
    /// The message shown for the error.
    pub fn message(&self) -> (r: String)
        ensures
            r@ == match self {
                Json3Error::TimeOverflow => "Timestamp out of range in json3 file."@,
                Json3Error::NoEvents => "No events found in json3 file."@,
            },
    {
        match self {
            Json3Error::TimeOverflow => "Timestamp out of range in json3 file.".to_string(),
            Json3Error::NoEvents => "No events found in json3 file.".to_string(),
        }
    }
}

/// The events of a json3 document given as text, as `parse_json3` reads
/// them once the bytes are decoded.
pub open spec fn json3_text_events(text: Seq<char>) -> Option<Seq<EventView>> {
    match parse_json_text(text) {
        Err(_) => None,
        Ok(doc) => match json3_raw(doc) {
            None => Some(seq![]),
            Some(raw) => if all_fit(raw) {
                Some(events_of(raw))
            } else {
                None
            },
        },
    }
}

/// What `parse_json3` gives for bytes: the events and no warning when the
/// text reads; otherwise no events and a warning, which is the overflow
/// warning when the text is JSON (a time did not fit) and the parser's
/// message when it is not.
pub open spec fn json3_outcome(bytes: Seq<u8>, events: Seq<EventView>, warning: Option<Seq<char>>) -> bool {
    let text = decoded_text(bytes);
    match json3_text_events(text) {
        Some(evs) => events == evs && warning is None,
        None => events.len() == 0 && match parse_json_text(text) {
            Err(m) => warning == Some(m),
            Ok(_) => warning == Some(overflow_warning()),
        },
    }
}

/// The timed events of a json3 file: the bytes are decoded, parsed as
/// JSON, and each event with words becomes one event. A document without
/// an `events` array gives no events; a text that is not JSON gives no
/// events and the parser's message as a warning.
pub fn parse_json3(bytes: &[u8]) -> (r: (Vec<Event>, Option<String>))
    ensures
        json3_outcome(bytes@, event_views(r.0@), opt_view(r.1)),
{
    let content = try_decode(bytes);
    let doc = match json_from_str(content.as_str()) {
        Ok(v) => v,
        Err(m) => {
            let v: Vec<Event> = Vec::new();
            assert(event_views(v@) =~= Seq::<EventView>::empty());
            return (v, Some(m));
        },
    };
    match json3_raw_events(&doc) {
        None => {
            let v: Vec<Event> = Vec::new();
            assert(event_views(v@) =~= Seq::<EventView>::empty());
            (v, None)
        },
        Some(raw) => match events_from_raw(&raw) {
            Some(v) => (v, None),
            None => {
                let v: Vec<Event> = Vec::new();
                assert(event_views(v@) =~= Seq::<EventView>::empty());
                (v, Some("Timestamp out of range in json3 file.".to_string()))
            },
        },
    }
}

fn starts_ok(events: &Vec<Event>) -> (r: bool)
    ensures
        r == starts_in_range(event_views(events@)),
{
    let ghost evs = event_views(events@);
    let mut i: usize = 0;
    while i < events.len()
        invariant
            i <= events@.len(),
            evs == event_views(events@),
            forall|m: int|
                0 <= m < i && #[trigger] text_tokens(evs[m].text).len() > 0 ==> evs[m].start_ms
                    <= i64::MAX - MAX_CUE_DUR,
        decreases events@.len() - i,
    {
        assert(evs[i as int] == events@[i as int]@);
        if events[i].start_ms > i64::MAX - MAX_CUE_DUR && has_tokens(events[i].text.as_str()) {
            assert(text_tokens(evs[i as int].text).len() > 0);
            assert(!starts_in_range(evs));
            return false;
        }
        i += 1;
    }
    assert(starts_in_range(evs));
    true
}

/// The cues of a json3 file, with the warning its reading gave (see
/// `parse_json3`): its events grouped into cues. No events is an error,
/// and so is an event with words starting too close to the end of the
/// `i64` range for a cue to be placed after it.
pub fn process_json3(bytes: &[u8]) -> (r: (Result<Vec<SubCue>, Json3Error>, Option<String>))
    ensures
        match json3_text_events(decoded_text(bytes@)) {
            Some(evs) => opt_view(r.1) is None && match r.0 {
                Ok(v) => evs.len() > 0 && starts_in_range(evs) && cue_views(v@) == grouped_cues(
                    evs,
                ),
                Err(Json3Error::NoEvents) => evs.len() == 0,
                Err(Json3Error::TimeOverflow) => evs.len() > 0 && !starts_in_range(evs),
            },
            None => r.0 matches Err(Json3Error::NoEvents) && json3_outcome(
                bytes@,
                seq![],
                opt_view(r.1),
            ),
        },
{
    let (events, warning) = parse_json3(bytes);
    if events.len() == 0 {
        return (Err(Json3Error::NoEvents), warning);
    }
    if !starts_ok(&events) {
        return (Err(Json3Error::TimeOverflow), warning);
    }
    (Ok(group_into_cues(events)), warning)
}

} // verus!
