//! Cleaning words and grouping timed events into subtitle cues.
use vstd::prelude::*;

use crate::text::{
    all_words, chars_of, flatten, is_whitespace, is_word, is_ws, join, join_words,
    lemma_flatten_concat, lemma_flatten_push, lemma_split_join, lemma_split_ws_words, split_ws,
    split_whitespace, string_of, trim, trim_chars, trim_end, trim_end_chars, trim_end as
    spec_trim_end, trim_start,
};
use crate::types::{Event, SubCue};

verus! {

// ── views ────────────────────────────────────────────────────────────────────

/// An event as plain values.
pub struct EventView {
    pub start_ms: i64,
    pub end_ms: Option<i64>,
    pub text: Seq<char>,
}

impl View for Event {
    type V = EventView;

    open spec fn view(&self) -> EventView {
        EventView { start_ms: self.start_ms, end_ms: self.end_ms, text: self.text@ }
    }
}

/// A cue as plain values.
pub struct CueView {
    pub index: usize,
    pub start_ms: i64,
    pub end_ms: i64,
    pub text: Seq<char>,
}

impl View for SubCue {
    type V = CueView;

    open spec fn view(&self) -> CueView {
        CueView { index: self.index, start_ms: self.start_ms, end_ms: self.end_ms, text: self.text@ }
    }
}

pub open spec fn event_views(events: Seq<Event>) -> Seq<EventView> {
    events.map_values(|e: Event| e@)
}

pub open spec fn cue_views(cues: Seq<SubCue>) -> Seq<CueView> {
    cues.map_values(|c: SubCue| c@)
}

// ── cleaning ─────────────────────────────────────────────────────────────────

/// `s` starts with an HTML-like tag `<…>` whose closing `>` is at `k`:
/// at least one character between the brackets and no `>` among them.
pub open spec fn closes_tag(s: Seq<char>, k: int) -> bool {
    &&& s.len() > 0
    &&& s[0] == '<'
    &&& 2 <= k < s.len()
    &&& s[k] == '>'
    &&& forall|j: int| 1 <= j < k ==> s[j] != '>'
}

/// `s` with every tag `<…>` removed, scanning left to right and resuming
/// after each removed tag (what replacing the matches of `<[^>]+>` with
/// nothing does).
pub open spec fn strip_tags(s: Seq<char>) -> Seq<char>
    decreases s.len(),
{
    if s.len() == 0 {
        seq![]
    } else if exists|k: int| closes_tag(s, k) {
        let k = choose|k: int| closes_tag(s, k);
        strip_tags(s.skip(k + 1))
    } else {
        seq![s[0]] + strip_tags(s.skip(1))
    }
}

/// A word with its tags removed and its ends trimmed; `None` when nothing
/// is left.
pub open spec fn cleaned(w: Seq<char>) -> Option<Seq<char>> {
    let t = trim(strip_tags(w));
    if t.len() == 0 {
        None
    } else {
        Some(t)
    }
}

/// The cleaned forms of the words `ws` that keep any text, in order.
pub open spec fn clean_tokens(ws: Seq<Seq<char>>) -> Seq<Seq<char>>
    decreases ws.len(),
{
    if ws.len() == 0 {
        seq![]
    } else {
        let r = clean_tokens(ws.drop_last());
        match cleaned(ws.last()) {
            Some(c) => r.push(c),
            None => r,
        }
    }
}

/// The cleaned words of a text.
pub open spec fn text_tokens(text: Seq<char>) -> Seq<Seq<char>> {
    clean_tokens(split_ws(text))
}

proof fn lemma_closes_tag_unique(s: Seq<char>, k1: int, k2: int)
    requires
        closes_tag(s, k1),
        closes_tag(s, k2),
    ensures
        k1 == k2,
{
}

fn strip_tags_chars(s: &Vec<char>) -> (r: Vec<char>)
    ensures
        r@ == strip_tags(s@),
{
    let mut out: Vec<char> = Vec::new();
    let mut i: usize = 0;
    assert(s@.skip(0) =~= s@);
    while i < s.len()
        invariant
            i <= s.len(),
            strip_tags(s@) == out@ + strip_tags(s@.skip(i as int)),
        decreases s.len() - i,
    {
        let ghost t = s@.skip(i as int);
        let mut found: bool = false;
        let mut k: usize = 0;
        if s[i] == '<' {
            let mut j: usize = i + 1;
            while j < s.len() && s[j] != '>'
                invariant
                    i < j <= s.len(),
                    forall|m: int| i < m < j ==> s@[m] != '>',
                decreases s.len() - j,
            {
                j += 1;
            }
            if j < s.len() && j >= i + 2 {
                found = true;
                k = j;
            } else {
                proof {
                    assert forall|kk: int| !closes_tag(t, kk) by {
                        if closes_tag(t, kk) {
                            if j < s.len() {
                                assert(t[j - i] == '>');
                                assert(j - i < kk ==> false);
                                assert(kk == j - i || kk < j - i);
                            } else {
                                assert(t[kk] == s@[i + kk]);
                            }
                        }
                    }
                }
            }
            proof {
                if found {
                    assert(closes_tag(t, (k - i) as int)) by {
                        assert forall|m: int| 1 <= m < k - i implies t[m] != '>' by {
                            assert(t[m] == s@[i + m]);
                        }
                    }
                }
            }
        } else {
            assert forall|kk: int| !closes_tag(t, kk) by {}
        }
        if found {
            proof {
                let kk = choose|kk: int| closes_tag(t, kk);
                lemma_closes_tag_unique(t, kk, (k - i) as int);
                assert(t.skip(kk + 1) =~= s@.skip(k + 1));
            }
            i = k + 1;
        } else {
            out.push(s[i]);
            proof {
                assert(t.skip(1) =~= s@.skip(i + 1));
                assert(t[0] == s@[i as int]);
            }
            i += 1;
        }
    }
    assert(s@.skip(s.len() as int) =~= Seq::<char>::empty());
    assert(out@ + Seq::<char>::empty() =~= out@);
    out
}

fn clean_word_chars(w: &Vec<char>) -> (r: Option<Vec<char>>)
    ensures
        r matches Some(v) ==> cleaned(w@) == Some(v@),
        r is None ==> cleaned(w@) is None,
{
    let t = strip_tags_chars(w);
    let t = trim_chars(&t);
    if t.len() == 0 {
        None
    } else {
        Some(t)
    }
}

/// A word with its HTML-like tags removed and trimmed, or `None` if nothing
/// is left.
pub fn clean_word(word: &str) -> (r: Option<String>)
    ensures
        r matches Some(v) ==> cleaned(word@) == Some(v@),
        r is None ==> cleaned(word@) is None,
{
    let w = chars_of(word);
    match clean_word_chars(&w) {
        Some(v) => Some(string_of(&v)),
        None => None,
    }
}

/// The characters that end a sentence.
pub open spec fn sentence_end(c: char) -> bool {
    c == '.' || c == '\u{061F}' || c == '!' || c == '\u{2026}' || c == '?'
}

/// Whether `w`, with trailing whitespace dropped, ends in `.`, `؟`, `!`, `…` or `?`.
pub open spec fn ends_sentence_spec(w: Seq<char>) -> bool {
    let t = spec_trim_end(w);
    t.len() > 0 && sentence_end(t.last())
}

fn ends_sentence_chars(w: &Vec<char>) -> (r: bool)
    ensures
        r == ends_sentence_spec(w@),
{
    let t = trim_end_chars(w);
    if t.len() == 0 {
        false
    } else {
        let c = t[t.len() - 1];
        c == '.' || c == '\u{061F}' || c == '!' || c == '\u{2026}' || c == '?'
    }
}

/// Whether `word` ends a sentence.
pub fn ends_sentence(word: &str) -> (r: bool)
    ensures
        r == ends_sentence_spec(word@),
{
    let w = chars_of(word);
    ends_sentence_chars(&w)
}

/// Cue text layout: the text is kept as it is, whatever the width.
pub fn wrap_text(text: &str, _max_chars: usize) -> (r: String)
    ensures
        r@ == text@,
{
    text.to_string()
}

// ── cue grouping ─────────────────────────────────────────────────────────────

/// Untimed words are buffered until a sentence ends, the buffer reaches this
/// many words, or it spans `MAX_DUR` milliseconds.
pub const MAX_WORDS: usize = 15;

pub const MAX_DUR: i64 = 6_000;

/// No cue lasts longer than this many milliseconds.
pub const MAX_CUE_DUR: i64 = 8_000;

/// The grouping state after some prefix of the events: the cues written so
/// far (numbered 0 until the end), the buffered words, when the buffer
/// started and the last time seen.
pub struct CueState {
    pub cues: Seq<CueView>,
    pub buf: Seq<Seq<char>>,
    pub buf_start: i64,
    pub buf_last: i64,
}

pub open spec fn initial_state() -> CueState {
    CueState { cues: seq![], buf: seq![], buf_start: 0, buf_last: 0 }
}

/// `x - 10`, saturating at `i64::MIN`.
pub open spec fn sat_sub10(x: i64) -> i64 {
    if x - 10 < i64::MIN {
        i64::MIN
    } else {
        (x - 10) as i64
    }
}

pub open spec fn min_i64(a: i64, b: i64) -> i64 {
    if a <= b {
        a
    } else {
        b
    }
}

/// A cue starting at `start` ends 10 ms before `next`, and no later than
/// `MAX_CUE_DUR` after its start.
pub open spec fn cue_end(next: i64, start: i64) -> i64 {
    min_i64(sat_sub10(next), (start + MAX_CUE_DUR) as i64)
}

/// Turns the buffered words, if any, into a cue that ends before `next`.
pub open spec fn flush(st: CueState, next: i64) -> CueState {
    if st.buf.len() == 0 {
        st
    } else {
        CueState {
            cues: st.cues.push(
                CueView {
                    index: 0,
                    start_ms: st.buf_start,
                    end_ms: cue_end(next, st.buf_start),
                    text: join(st.buf, seq![' ']),
                },
            ),
            buf: seq![],
            buf_start: st.buf_start,
            buf_last: next,
        }
    }
}

/// The start of the event after `i`, or `fallback` after the last one.
pub open spec fn next_start(evs: Seq<EventView>, i: int, fallback: i64) -> i64 {
    if i + 1 < evs.len() {
        evs[i + 1].start_ms
    } else {
        fallback
    }
}

/// Buffers one cleaned word of the untimed event `i`, flushing when a
/// sentence ends, `MAX_WORDS` words are buffered or the buffer spans
/// `MAX_DUR`.
pub open spec fn step_word(evs: Seq<EventView>, i: int, st: CueState, w: Seq<char>) -> CueState {
    let e = evs[i];
    let start = if st.buf.len() == 0 {
        e.start_ms
    } else {
        st.buf_start
    };
    let s1 = CueState { cues: st.cues, buf: st.buf.push(w), buf_start: start, buf_last: e.start_ms };
    if ends_sentence_spec(w) || s1.buf.len() >= MAX_WORDS || e.start_ms - start >= MAX_DUR {
        flush(s1, next_start(evs, i, (e.start_ms + 1500) as i64))
    } else {
        s1
    }
}

/// Buffers the words `ws` of the untimed event `i`, in order.
pub open spec fn step_words(evs: Seq<EventView>, i: int, st: CueState, ws: Seq<Seq<char>>) -> CueState
    decreases ws.len(),
{
    if ws.len() == 0 {
        st
    } else {
        step_word(evs, i, step_words(evs, i, st, ws.drop_last()), ws.last())
    }
}

/// Handles event `i`: a timed event flushes the buffer and becomes a cue of
/// its own; an untimed one feeds its words to the buffer.
pub open spec fn step_event(evs: Seq<EventView>, i: int, st: CueState) -> CueState {
    let e = evs[i];
    let toks = text_tokens(e.text);
    if e.end_ms is Some {
        let s1 = flush(st, e.start_ms);
        if toks.len() == 0 {
            s1
        } else {
            let end = cue_end(next_start(evs, i, (e.start_ms + 1500) as i64), e.start_ms);
            CueState {
                cues: s1.cues.push(
                    CueView {
                        index: 0,
                        start_ms: e.start_ms,
                        end_ms: end,
                        text: join(toks, seq![' ']),
                    },
                ),
                buf: s1.buf,
                buf_start: s1.buf_start,
                buf_last: end,
            }
        }
    } else {
        step_words(evs, i, st, toks)
    }
}

/// The state after the first `n` events.
pub open spec fn run_events(evs: Seq<EventView>, n: int) -> CueState
    decreases n,
{
    if n <= 0 {
        initial_state()
    } else {
        step_event(evs, n - 1, run_events(evs, n - 1))
    }
}

/// The cues once every event is handled: words still buffered become a last
/// cue lasting 1.5 s past the last word (and at most `MAX_CUE_DUR`).
pub open spec fn finish(st: CueState) -> Seq<CueView> {
    if st.buf.len() == 0 {
        st.cues
    } else {
        st.cues.push(
            CueView {
                index: 0,
                start_ms: st.buf_start,
                end_ms: min_i64((st.buf_last + 1500) as i64, (st.buf_start + MAX_CUE_DUR) as i64),
                text: join(st.buf, seq![' ']),
            },
        )
    }
}

/// Cues numbered 1, 2, 3, … in order.
pub open spec fn numbered(cs: Seq<CueView>) -> Seq<CueView> {
    Seq::new(
        cs.len(),
        |i: int|
            CueView {
                index: (i + 1) as usize,
                start_ms: cs[i].start_ms,
                end_ms: cs[i].end_ms,
                text: cs[i].text,
            },
    )
}

/// The cues that `group_into_cues` makes of `evs`.
pub open spec fn grouped_cues(evs: Seq<EventView>) -> Seq<CueView> {
    numbered(finish(run_events(evs, evs.len() as int)))
}

/// No event starts so late that adding a cue's maximal length overflows.
pub open spec fn starts_in_range(evs: Seq<EventView>) -> bool {
    forall|i: int|
        0 <= i < evs.len() && #[trigger] text_tokens(evs[i].text).len() > 0 ==> evs[i].start_ms
            <= i64::MAX - MAX_CUE_DUR
}

/// What the exec state must keep so that its arithmetic cannot overflow.
pub open spec fn state_ok(st: CueState) -> bool {
    st.buf.len() > 0 ==> (st.buf_start <= i64::MAX - MAX_CUE_DUR && st.buf_last <= i64::MAX
        - MAX_CUE_DUR)
}

pub open spec fn state_of(
    cues: Seq<SubCue>,
    buf: Seq<Vec<char>>,
    buf_start: i64,
    buf_last: i64,
) -> CueState {
    CueState {
        cues: cue_views(cues),
        buf: buf.map_values(|w: Vec<char>| w@),
        buf_start,
        buf_last,
    }
}

fn exec_cue_end(next: i64, start: i64) -> (r: i64)
    requires
        start <= i64::MAX - MAX_CUE_DUR,
    ensures
        r == cue_end(next, start),
{
    let a = if next < i64::MIN + 10 {
        i64::MIN
    } else {
        next - 10
    };
    let b = start + MAX_CUE_DUR;
    if a <= b {
        a
    } else {
        b
    }
}

fn exec_flush(
    cues: &mut Vec<SubCue>,
    buf: &mut Vec<Vec<char>>,
    buf_start: i64,
    buf_last: &mut i64,
    next: i64,
)
    requires
        state_ok(state_of(old(cues)@, old(buf)@, buf_start, *old(buf_last))),
    ensures
        state_of(final(cues)@, final(buf)@, buf_start, *final(buf_last)) == flush(
            state_of(old(cues)@, old(buf)@, buf_start, *old(buf_last)),
            next,
        ),
{
    if buf.len() == 0 {
        return ;
    }
    let ghost bw = old(buf)@.map_values(|w: Vec<char>| w@);
    let text = join_words(buf);
    let end_ms = exec_cue_end(next, buf_start);
    let cue = SubCue { index: 0, start_ms: buf_start, end_ms, text: string_of(&text) };
    let ghost old_cues = cues@;
    cues.push(cue);
    *buf = Vec::new();
    *buf_last = next;
    proof {
        assert(cue_views(cues@) =~= cue_views(old_cues).push(cue@));
        assert(buf@.map_values(|w: Vec<char>| w@) =~= Seq::<Seq<char>>::empty());
    }
}

/// The cleaned words of `words`, in order.
fn clean_all(words: &Vec<Vec<char>>) -> (r: Vec<Vec<char>>)
    ensures
        r@.map_values(|w: Vec<char>| w@) == clean_tokens(words@.map_values(|w: Vec<char>| w@)),
{
    let ghost ws = words@.map_values(|w: Vec<char>| w@);
    let mut r: Vec<Vec<char>> = Vec::new();
    let mut j: usize = 0;
    while j < words.len()
        invariant
            j <= words.len(),
            ws == words@.map_values(|w: Vec<char>| w@),
            r@.map_values(|w: Vec<char>| w@) == clean_tokens(ws.take(j as int)),
        decreases words.len() - j,
    {
        let ghost before = r@.map_values(|w: Vec<char>| w@);
        assert(ws.take(j + 1).drop_last() =~= ws.take(j as int));
        assert(ws.take(j + 1).last() == words@[j as int]@);
        match clean_word_chars(&words[j]) {
            Some(c) => {
                r.push(c);
                assert(r@.map_values(|w: Vec<char>| w@) =~= before.push(r@.last()@));
            },
            None => {},
        }
        j += 1;
    }
    assert(ws.take(words.len() as int) =~= ws);
    r
}

/// Whether `text` holds a word that survives cleaning.
pub(crate) fn has_tokens(text: &str) -> (r: bool)
    ensures
        r == (text_tokens(text@).len() > 0),
{
    let chars = chars_of(text);
    let words = split_whitespace(&chars);
    assert(words@.map_values(|w: Vec<char>| w@) =~= split_ws(text@));
    let toks = clean_all(&words);
    toks.len() > 0
}

proof fn lemma_clean_tokens_prefix(ws: Seq<Seq<char>>, k: int)
    requires
        0 <= k <= ws.len(),
    ensures
        clean_tokens(ws.take(k)).len() <= clean_tokens(ws).len(),
    decreases ws.len(),
{
    if k == ws.len() {
        assert(ws.take(k) =~= ws);
    } else {
        assert(ws.drop_last().take(k) =~= ws.take(k));
        lemma_clean_tokens_prefix(ws.drop_last(), k);
    }
}

/// Groups timed events into numbered cues.
///
/// A timed event (one with an end) becomes a cue of its own, after any
/// buffered words are flushed. The words of untimed events are buffered
/// and flushed into a cue when a sentence ends, when `MAX_WORDS` words are
/// buffered, or when the buffer spans `MAX_DUR`. A cue ends 10 ms before
/// the next event starts, and lasts at most `MAX_CUE_DUR`.
pub fn group_into_cues(events: Vec<Event>) -> (r: Vec<SubCue>)
    requires
        starts_in_range(event_views(events@)),
    ensures
        cue_views(r@) == grouped_cues(event_views(events@)),
        forall|i: int| 0 <= i < r@.len() ==> #[trigger] r@[i].index == i + 1,
{
    let ghost evs = event_views(events@);
    let n = events.len();
    let mut cues: Vec<SubCue> = Vec::new();
    let mut buf: Vec<Vec<char>> = Vec::new();
    let mut buf_start: i64 = 0;
    let mut buf_last: i64 = 0;
    assert(cue_views(cues@) =~= Seq::<CueView>::empty());
    assert(buf@.map_values(|w: Vec<char>| w@) =~= Seq::<Seq<char>>::empty());
    assert(state_of(cues@, buf@, buf_start, buf_last) == initial_state());
    let mut i: usize = 0;
    while i < n
        invariant
            n == events.len(),
            evs == event_views(events@),
            starts_in_range(evs),
            i <= n,
            state_of(cues@, buf@, buf_start, buf_last) == run_events(evs, i as int),
            state_ok(state_of(cues@, buf@, buf_start, buf_last)),
        decreases n - i,
    {
        let e = &events[i];
        assert(evs[i as int] == e@);
        let chars = chars_of(e.text.as_str());
        let words = split_whitespace(&chars);
        assert(words@.map_values(|w: Vec<char>| w@) =~= split_ws(e.text@));
        let ghost st0 = state_of(cues@, buf@, buf_start, buf_last);
        if e.end_ms.is_some() {
            exec_flush(&mut cues, &mut buf, buf_start, &mut buf_last, e.start_ms);
            let toks = clean_all(&words);
            if toks.len() > 0 {
                assert(text_tokens(evs[i as int].text).len() > 0);
                assert(e.start_ms <= i64::MAX - MAX_CUE_DUR);
                let next = if i + 1 < n {
                    events[i + 1].start_ms
                } else {
                    e.start_ms + 1500
                };
                proof {
                    if i + 1 < n {
                        assert(evs[i + 1] == events@[i + 1]@);
                    }
                }
                let end_ms = exec_cue_end(next, e.start_ms);
                let text = join_words(&toks);
                let cue = SubCue { index: 0, start_ms: e.start_ms, end_ms, text: string_of(&text) };
                let ghost old_cues = cues@;
                cues.push(cue);
                buf_last = end_ms;
                proof {
                    assert(cue_views(cues@) =~= cue_views(old_cues).push(cue@));
                }
            }
        } else {
            let ghost toks = text_tokens(e.text@);
            let ghost ws = words@.map_values(|w: Vec<char>| w@);
            let mut j: usize = 0;
            while j < words.len()
                invariant
                    n == events.len(),
                    evs == event_views(events@),
                    starts_in_range(evs),
                    i < n,
                    e == &events[i as int],
                    ws == words@.map_values(|w: Vec<char>| w@),
                    j <= words.len(),
                    state_of(cues@, buf@, buf_start, buf_last) == step_words(
                        evs,
                        i as int,
                        st0,
                        clean_tokens(ws.take(j as int)),
                    ),
                    state_ok(state_of(cues@, buf@, buf_start, buf_last)),
                    ws == split_ws(e.text@),
                    text_tokens(e.text@).len() > 0 ==> e.start_ms <= i64::MAX - MAX_CUE_DUR,
                    evs[i as int] == e@,
                decreases words.len() - j,
            {
                assert(ws.take(j + 1).drop_last() =~= ws.take(j as int));
                assert(ws.take(j + 1).last() == words@[j as int]@);
                match clean_word_chars(&words[j]) {
                    Some(clean) => {
                        proof {
                            assert(clean_tokens(ws.take(j + 1)).len() > 0);
                            lemma_clean_tokens_prefix(ws, j + 1);
                        }
                        assert(e.start_ms <= i64::MAX - MAX_CUE_DUR);
                        let ghost before = state_of(cues@, buf@, buf_start, buf_last);
                        let ghost cw = clean@;
                        if buf.len() == 0 {
                            buf_start = e.start_ms;
                        }
                        let at_sentence = ends_sentence_chars(&clean);
                        let ghost old_buf = buf@;
                        buf.push(clean);
                        buf_last = e.start_ms;
                        proof {
                            assert(buf@.map_values(|w: Vec<char>| w@) =~= old_buf.map_values(
                                |w: Vec<char>| w@,
                            ).push(cw));
                        }
                        let dur: i128 = e.start_ms as i128 - buf_start as i128;
                        let at_limit = buf.len() >= MAX_WORDS || dur >= MAX_DUR as i128;
                        if at_sentence || at_limit {
                            let next_ms = if i + 1 < n {
                                events[i + 1].start_ms
                            } else {
                                buf_last + 1500
                            };
                            proof {
                                if i + 1 < n {
                                    assert(evs[i + 1] == events@[i + 1]@);
                                }
                            }
                            exec_flush(&mut cues, &mut buf, buf_start, &mut buf_last, next_ms);
                        }
                        proof {
                            assert(clean_tokens(ws.take(j + 1)) == clean_tokens(
                                ws.take(j as int),
                            ).push(cw));
                            let ct = clean_tokens(ws.take(j + 1));
                            assert(ct.drop_last() =~= clean_tokens(ws.take(j as int)));
                        }
                    },
                    None => {
                        assert(clean_tokens(ws.take(j + 1)) == clean_tokens(ws.take(j as int)));
                    },
                }
                j += 1;
            }
            assert(ws.take(words.len() as int) =~= ws);
        }
        i += 1;
    }
    // words still buffered become a last cue
    if buf.len() > 0 {
        let text = join_words(&buf);
        let end_ms = {
            let a = buf_last + 1500;
            let b = buf_start + MAX_CUE_DUR;
            if a <= b {
                a
            } else {
                b
            }
        };
        let cue = SubCue { index: 0, start_ms: buf_start, end_ms, text: string_of(&text) };
        let ghost old_cues = cues@;
        cues.push(cue);
        assert(cue_views(cues@) =~= cue_views(old_cues).push(cue@));
    }
    let ghost fin = cue_views(cues@);
    assert(fin == finish(run_events(evs, n as int)));
    // number the cues 1, 2, 3, …
    let mut out: Vec<SubCue> = Vec::new();
    let mut k: usize = 0;
    while k < cues.len()
        invariant
            k <= cues.len(),
            fin == cue_views(cues@),
            cue_views(out@) == numbered(fin).take(k as int),
        decreases cues.len() - k,
    {
        let c = &cues[k];
        let cue = SubCue {
            index: k + 1,
            start_ms: c.start_ms,
            end_ms: c.end_ms,
            text: c.text.clone(),
        };
        let ghost before = out@;
        out.push(cue);
        proof {
            assert(fin[k as int] == cues@[k as int]@);
            assert(cue_views(out@) =~= cue_views(before).push(cue@));
            assert(numbered(fin).take(k + 1) =~= numbered(fin).take(k as int).push(
                numbered(fin)[k as int],
            ));
        }
        assert(cue_views(out@) =~= numbered(fin).take(k + 1));
        k += 1;
    }
    assert(numbered(fin).take(cues.len() as int) =~= numbered(fin));
    assert forall|i: int| 0 <= i < out@.len() implies #[trigger] out@[i].index == i + 1 by {
        assert(cue_views(out@)[i] == out@[i]@);
    }
    out
}

// ── laws of the grouping ─────────────────────────────────────────────────────

/// The words of a sequence of cues, in order.
pub open spec fn cue_words(cs: Seq<CueView>) -> Seq<Seq<char>> {
    flatten(cs.map_values(|c: CueView| split_ws(c.text)))
}

/// The cleaned words of the first `n` events, in order.
pub open spec fn event_words(evs: Seq<EventView>, n: int) -> Seq<Seq<char>> {
    flatten(evs.take(n).map_values(|e: EventView| text_tokens(e.text)))
}

pub(crate) proof fn lemma_cue_words_push(cs: Seq<CueView>, c: CueView)
    ensures
        cue_words(cs.push(c)) == cue_words(cs) + split_ws(c.text),
{
    assert(cs.push(c).map_values(|c: CueView| split_ws(c.text)) =~= cs.map_values(
        |c: CueView| split_ws(c.text),
    ).push(split_ws(c.text)));
    lemma_flatten_push(cs.map_values(|c: CueView| split_ws(c.text)), split_ws(c.text));
}

proof fn lemma_no_ws_trim(s: Seq<char>)
    requires
        forall|i: int| 0 <= i < s.len() ==> !is_ws(#[trigger] s[i]),
    ensures
        trim(s) == s,
{
    assert(trim_start(s) == s) by {
        if s.len() > 0 {
            assert(!is_ws(s[0]));
        }
    }
    assert(spec_trim_end(s) == s) by {
        if s.len() > 0 {
            assert(!is_ws(s[s.len() - 1]));
        }
    }
}

proof fn lemma_strip_tags_no_ws(s: Seq<char>)
    requires
        forall|i: int| 0 <= i < s.len() ==> !is_ws(#[trigger] s[i]),
    ensures
        forall|i: int|
            0 <= i < strip_tags(s).len() ==> !is_ws(#[trigger] strip_tags(s)[i]),
    decreases s.len(),
{
    if s.len() > 0 {
        if exists|k: int| closes_tag(s, k) {
            let k = choose|k: int| closes_tag(s, k);
            let t = s.skip(k + 1);
            assert forall|i: int| 0 <= i < t.len() implies !is_ws(#[trigger] t[i]) by {
                assert(t[i] == s[i + k + 1]);
            }
            lemma_strip_tags_no_ws(t);
            assert(strip_tags(s) == strip_tags(t));
        } else {
            let t = s.skip(1);
            assert forall|i: int| 0 <= i < t.len() implies !is_ws(#[trigger] t[i]) by {
                assert(t[i] == s[i + 1]);
            }
            lemma_strip_tags_no_ws(t);
            let r = seq![s[0]] + strip_tags(t);
            assert(strip_tags(s) == r);
            assert forall|i: int| 0 <= i < r.len() implies !is_ws(#[trigger] r[i]) by {
                if i > 0 {
                    assert(r[i] == strip_tags(t)[i - 1]);
                }
            }
        }
    }
}

/// Cleaning a word leaves a word.
proof fn lemma_cleaned_word(w: Seq<char>)
    requires
        is_word(w),
    ensures
        cleaned(w) matches Some(c) ==> is_word(c),
{
    lemma_strip_tags_no_ws(w);
    lemma_no_ws_trim(strip_tags(w));
}

/// The cleaned words of any list of words are words.
proof fn lemma_clean_tokens_words(ws: Seq<Seq<char>>)
    requires
        all_words(ws),
    ensures
        all_words(clean_tokens(ws)),
    decreases ws.len(),
{
    if ws.len() > 0 {
        let p = ws.drop_last();
        assert forall|i: int| 0 <= i < p.len() implies is_word(#[trigger] p[i]) by {
            assert(p[i] == ws[i]);
        }
        lemma_clean_tokens_words(p);
        assert(is_word(ws[ws.len() - 1]));
        lemma_cleaned_word(ws.last());
        let r = clean_tokens(p);
        match cleaned(ws.last()) {
            Some(c) => {
                assert forall|i: int| 0 <= i < r.push(c).len() implies is_word(
                    #[trigger] r.push(c)[i],
                ) by {
                    if i < r.len() {
                        assert(r.push(c)[i] == r[i]);
                    }
                }
            },
            None => {},
        }
    }
}

/// The cleaned words of a text are words.
pub proof fn lemma_text_tokens_words(t: Seq<char>)
    ensures
        all_words(text_tokens(t)),
{
    lemma_split_ws_words(t);
    lemma_clean_tokens_words(split_ws(t));
}

/// What the grouping keeps at every step: the words of the cues written so
/// far followed by the buffered words are exactly the words read so far,
/// and the buffer holds words.
pub open spec fn words_kept(st: CueState, read: Seq<Seq<char>>) -> bool {
    &&& cue_words(st.cues) + st.buf == read
    &&& all_words(st.buf)
}

proof fn lemma_flush_words(st: CueState, next: i64, read: Seq<Seq<char>>)
    requires
        words_kept(st, read),
    ensures
        words_kept(flush(st, next), read),
{
    if st.buf.len() > 0 {
        let c = CueView {
            index: 0,
            start_ms: st.buf_start,
            end_ms: cue_end(next, st.buf_start),
            text: join(st.buf, seq![' ']),
        };
        lemma_cue_words_push(st.cues, c);
        lemma_split_join(st.buf);
        assert(cue_words(st.cues.push(c)) + Seq::<Seq<char>>::empty() =~= cue_words(st.cues)
            + st.buf);
    }
}

proof fn lemma_step_word_words(
    evs: Seq<EventView>,
    i: int,
    st: CueState,
    w: Seq<char>,
    read: Seq<Seq<char>>,
)
    requires
        words_kept(st, read),
        is_word(w),
    ensures
        words_kept(step_word(evs, i, st, w), read.push(w)),
{
    let e = evs[i];
    let start = if st.buf.len() == 0 {
        e.start_ms
    } else {
        st.buf_start
    };
    let s1 = CueState { cues: st.cues, buf: st.buf.push(w), buf_start: start, buf_last: e.start_ms };
    assert(cue_words(s1.cues) + s1.buf =~= read.push(w));
    assert forall|j: int| 0 <= j < s1.buf.len() implies is_word(#[trigger] s1.buf[j]) by {
        if j < st.buf.len() {
            assert(s1.buf[j] == st.buf[j]);
        }
    }
    lemma_flush_words(s1, next_start(evs, i, (e.start_ms + 1500) as i64), read.push(w));
}

proof fn lemma_step_words_words(
    evs: Seq<EventView>,
    i: int,
    st: CueState,
    ws: Seq<Seq<char>>,
    read: Seq<Seq<char>>,
)
    requires
        words_kept(st, read),
        all_words(ws),
    ensures
        words_kept(step_words(evs, i, st, ws), read + ws),
    decreases ws.len(),
{
    if ws.len() == 0 {
        assert(read + ws =~= read);
    } else {
        let p = ws.drop_last();
        assert forall|j: int| 0 <= j < p.len() implies is_word(#[trigger] p[j]) by {
            assert(p[j] == ws[j]);
        }
        lemma_step_words_words(evs, i, st, p, read);
        assert(is_word(ws[ws.len() - 1]));
        lemma_step_word_words(evs, i, step_words(evs, i, st, p), ws.last(), read + p);
        assert((read + p).push(ws.last()) =~= read + ws);
    }
}

proof fn lemma_event_words_step(evs: Seq<EventView>, n: int)
    requires
        0 <= n < evs.len(),
    ensures
        event_words(evs, n + 1) == event_words(evs, n) + text_tokens(evs[n].text),
{
    let f = |e: EventView| text_tokens(e.text);
    assert(evs.take(n + 1).map_values(f) =~= evs.take(n).map_values(f).push(
        text_tokens(evs[n].text),
    ));
    lemma_flatten_push(evs.take(n).map_values(f), text_tokens(evs[n].text));
}

proof fn lemma_run_words(evs: Seq<EventView>, n: int)
    requires
        0 <= n <= evs.len(),
    ensures
        words_kept(run_events(evs, n), event_words(evs, n)),
    decreases n,
{
    if n == 0 {
        assert(evs.take(0).map_values(|e: EventView| text_tokens(e.text)) =~= Seq::<
            Seq<Seq<char>>,
        >::empty());
        assert(initial_state().cues.map_values(|c: CueView| split_ws(c.text)) =~= Seq::<
            Seq<Seq<char>>,
        >::empty());
        assert(cue_words(initial_state().cues) + initial_state().buf =~= event_words(evs, 0));
    } else {
        lemma_run_words(evs, n - 1);
        lemma_event_words_step(evs, n - 1);
        let st = run_events(evs, n - 1);
        let read = event_words(evs, n - 1);
        let e = evs[n - 1];
        let toks = text_tokens(e.text);
        lemma_text_tokens_words(e.text);
        if e.end_ms is Some {
            let s1 = flush(st, e.start_ms);
            lemma_flush_words(st, e.start_ms, read);
            if toks.len() == 0 {
                assert(read + toks =~= read);
            } else {
                let end = cue_end(next_start(evs, n - 1, (e.start_ms + 1500) as i64), e.start_ms);
                let c = CueView {
                    index: 0,
                    start_ms: e.start_ms,
                    end_ms: end,
                    text: join(toks, seq![' ']),
                };
                lemma_cue_words_push(s1.cues, c);
                lemma_split_join(toks);
                assert(s1.buf.len() == 0);
                assert(cue_words(s1.cues.push(c)) + s1.buf =~= read + toks);
            }
        } else {
            lemma_step_words_words(evs, n - 1, st, toks, read);
        }
    }
}

/// Every cleaned word of the events appears in the cues exactly once, in
/// the order it was read: the words of the cues, one cue after the other,
/// are the cleaned words of the events, one event after the other.
pub proof fn lemma_cues_keep_every_word_once(evs: Seq<EventView>)
    ensures
        cue_words(grouped_cues(evs)) == flatten(
            evs.map_values(|e: EventView| text_tokens(e.text)),
        ),
{
    lemma_run_words(evs, evs.len() as int);
    let st = run_events(evs, evs.len() as int);
    let fin = finish(st);
    assert(evs.take(evs.len() as int) =~= evs);
    if st.buf.len() > 0 {
        let c = CueView {
            index: 0,
            start_ms: st.buf_start,
            end_ms: min_i64((st.buf_last + 1500) as i64, (st.buf_start + MAX_CUE_DUR) as i64),
            text: join(st.buf, seq![' ']),
        };
        lemma_cue_words_push(st.cues, c);
        lemma_split_join(st.buf);
    } else {
        assert(cue_words(st.cues) + st.buf =~= cue_words(st.cues));
    }
    assert(numbered(fin).map_values(|c: CueView| split_ws(c.text)) =~= fin.map_values(
        |c: CueView| split_ws(c.text),
    ));
}

/// A cue lasts at most `MAX_CUE_DUR`.
pub open spec fn within_max_duration(c: CueView) -> bool {
    c.end_ms <= c.start_ms + MAX_CUE_DUR
}

pub open spec fn all_within_max(cs: Seq<CueView>) -> bool {
    forall|i: int| 0 <= i < cs.len() ==> within_max_duration(#[trigger] cs[i])
}

proof fn lemma_push_within(cs: Seq<CueView>, c: CueView)
    requires
        all_within_max(cs),
        within_max_duration(c),
    ensures
        all_within_max(cs.push(c)),
{
    assert forall|i: int| 0 <= i < cs.push(c).len() implies within_max_duration(
        #[trigger] cs.push(c)[i],
    ) by {
        if i < cs.len() {
            assert(cs.push(c)[i] == cs[i]);
        }
    }
}

proof fn lemma_flush_within(st: CueState, next: i64)
    requires
        all_within_max(st.cues),
        state_ok(st),
    ensures
        all_within_max(flush(st, next).cues),
        state_ok(flush(st, next)),
{
    if st.buf.len() > 0 {
        let c = CueView {
            index: 0,
            start_ms: st.buf_start,
            end_ms: cue_end(next, st.buf_start),
            text: join(st.buf, seq![' ']),
        };
        lemma_push_within(st.cues, c);
    }
}

proof fn lemma_step_words_within(
    evs: Seq<EventView>,
    i: int,
    st: CueState,
    ws: Seq<Seq<char>>,
)
    requires
        0 <= i < evs.len(),
        ws.len() == 0 || evs[i].start_ms <= i64::MAX - MAX_CUE_DUR,
        all_within_max(st.cues),
        state_ok(st),
    ensures
        all_within_max(step_words(evs, i, st, ws).cues),
        state_ok(step_words(evs, i, st, ws)),
    decreases ws.len(),
{
    if ws.len() > 0 {
        lemma_step_words_within(evs, i, st, ws.drop_last());
        let st2 = step_words(evs, i, st, ws.drop_last());
        let e = evs[i];
        assert(e.start_ms <= i64::MAX - MAX_CUE_DUR);
        let start = if st2.buf.len() == 0 {
            e.start_ms
        } else {
            st2.buf_start
        };
        let s1 = CueState {
            cues: st2.cues,
            buf: st2.buf.push(ws.last()),
            buf_start: start,
            buf_last: e.start_ms,
        };
        lemma_flush_within(s1, next_start(evs, i, (e.start_ms + 1500) as i64));
    }
}

proof fn lemma_run_within(evs: Seq<EventView>, n: int)
    requires
        0 <= n <= evs.len(),
        starts_in_range(evs),
    ensures
        all_within_max(run_events(evs, n).cues),
        state_ok(run_events(evs, n)),
    decreases n,
{
    if n > 0 {
        lemma_run_within(evs, n - 1);
        let st = run_events(evs, n - 1);
        let e = evs[n - 1];
        assert(text_tokens(e.text).len() > 0 ==> e.start_ms <= i64::MAX - MAX_CUE_DUR);
        if e.end_ms is Some {
            lemma_flush_within(st, e.start_ms);
            let s1 = flush(st, e.start_ms);
            let toks = text_tokens(e.text);
            if toks.len() > 0 {
                let end = cue_end(next_start(evs, n - 1, (e.start_ms + 1500) as i64), e.start_ms);
                let c = CueView {
                    index: 0,
                    start_ms: e.start_ms,
                    end_ms: end,
                    text: join(toks, seq![' ']),
                };
                lemma_push_within(s1.cues, c);
            }
        } else {
            lemma_step_words_within(evs, n - 1, st, text_tokens(e.text));
        }
    }
}

/// No cue lasts longer than `MAX_CUE_DUR`.
pub proof fn lemma_cues_last_at_most_max_duration(evs: Seq<EventView>)
    requires
        starts_in_range(evs),
    ensures
        forall|i: int|
            0 <= i < grouped_cues(evs).len() ==> #[trigger] grouped_cues(evs)[i].end_ms
                <= grouped_cues(evs)[i].start_ms + MAX_CUE_DUR,
{
    lemma_run_within(evs, evs.len() as int);
    let st = run_events(evs, evs.len() as int);
    if st.buf.len() > 0 {
        let c = CueView {
            index: 0,
            start_ms: st.buf_start,
            end_ms: min_i64((st.buf_last + 1500) as i64, (st.buf_start + MAX_CUE_DUR) as i64),
            text: join(st.buf, seq![' ']),
        };
        lemma_push_within(st.cues, c);
    }
    let fin = finish(st);
    assert forall|i: int| 0 <= i < grouped_cues(evs).len() implies #[trigger] grouped_cues(
        evs,
    )[i].end_ms <= grouped_cues(evs)[i].start_ms + MAX_CUE_DUR by {
        assert(within_max_duration(fin[i]));
    }
}

/// Every cue holds at least one word, and its text is its words joined by
/// single spaces.
pub proof fn lemma_cue_texts_are_words(evs: Seq<EventView>)
    ensures
        forall|i: int|
            0 <= i < grouped_cues(evs).len() ==> {
                let t = #[trigger] grouped_cues(evs)[i].text;
                split_ws(t).len() > 0 && t == join(split_ws(t), seq![' '])
            },
{
    lemma_run_texts(evs, evs.len() as int);
    let st = run_events(evs, evs.len() as int);
    let fin = finish(st);
    if st.buf.len() > 0 {
        lemma_run_words(evs, evs.len() as int);
        lemma_split_join(st.buf);
    }
    assert forall|i: int| 0 <= i < grouped_cues(evs).len() implies {
        let t = #[trigger] grouped_cues(evs)[i].text;
        split_ws(t).len() > 0 && t == join(split_ws(t), seq![' '])
    } by {
        assert(grouped_cues(evs)[i].text == fin[i].text);
        if i < st.cues.len() {
            assert(fin[i] == st.cues[i]);
        }
    }
}

/// A text made of words joined by single spaces.
pub open spec fn joined_words(t: Seq<char>) -> bool {
    split_ws(t).len() > 0 && t == join(split_ws(t), seq![' '])
}

proof fn lemma_joined(ws: Seq<Seq<char>>)
    requires
        all_words(ws),
        ws.len() > 0,
    ensures
        joined_words(join(ws, seq![' '])),
{
    lemma_split_join(ws);
}

proof fn lemma_flush_texts(st: CueState, next: i64)
    requires
        forall|i: int| 0 <= i < st.cues.len() ==> joined_words(#[trigger] st.cues[i].text),
        all_words(st.buf),
    ensures
        forall|i: int|
            0 <= i < flush(st, next).cues.len() ==> joined_words(
                #[trigger] flush(st, next).cues[i].text,
            ),
{
    if st.buf.len() > 0 {
        lemma_joined(st.buf);
        let f = flush(st, next);
        assert forall|i: int| 0 <= i < f.cues.len() implies joined_words(
            #[trigger] f.cues[i].text,
        ) by {
            if i < st.cues.len() {
                assert(f.cues[i] == st.cues[i]);
            }
        }
    }
}

proof fn lemma_step_words_texts(
    evs: Seq<EventView>,
    i: int,
    st: CueState,
    ws: Seq<Seq<char>>,
)
    requires
        forall|k: int| 0 <= k < st.cues.len() ==> joined_words(#[trigger] st.cues[k].text),
        all_words(st.buf),
        all_words(ws),
    ensures
        forall|k: int|
            0 <= k < step_words(evs, i, st, ws).cues.len() ==> joined_words(
                #[trigger] step_words(evs, i, st, ws).cues[k].text,
            ),
        all_words(step_words(evs, i, st, ws).buf),
    decreases ws.len(),
{
    if ws.len() > 0 {
        let p = ws.drop_last();
        assert forall|j: int| 0 <= j < p.len() implies is_word(#[trigger] p[j]) by {
            assert(p[j] == ws[j]);
        }
        lemma_step_words_texts(evs, i, st, p);
        let st2 = step_words(evs, i, st, p);
        let e = evs[i];
        let start = if st2.buf.len() == 0 {
            e.start_ms
        } else {
            st2.buf_start
        };
        let w = ws.last();
        assert(is_word(ws[ws.len() - 1]));
        let s1 = CueState { cues: st2.cues, buf: st2.buf.push(w), buf_start: start, buf_last: e.start_ms };
        assert forall|j: int| 0 <= j < s1.buf.len() implies is_word(#[trigger] s1.buf[j]) by {
            if j < st2.buf.len() {
                assert(s1.buf[j] == st2.buf[j]);
            }
        }
        lemma_flush_texts(s1, next_start(evs, i, (e.start_ms + 1500) as i64));
    }
}

proof fn lemma_run_texts(evs: Seq<EventView>, n: int)
    requires
        0 <= n <= evs.len(),
    ensures
        forall|k: int|
            0 <= k < run_events(evs, n).cues.len() ==> joined_words(
                #[trigger] run_events(evs, n).cues[k].text,
            ),
        all_words(run_events(evs, n).buf),
    decreases n,
{
    if n > 0 {
        lemma_run_texts(evs, n - 1);
        let st = run_events(evs, n - 1);
        let e = evs[n - 1];
        let toks = text_tokens(e.text);
        lemma_text_tokens_words(e.text);
        if e.end_ms is Some {
            lemma_flush_texts(st, e.start_ms);
            let s1 = flush(st, e.start_ms);
            if toks.len() > 0 {
                lemma_joined(toks);
                let end = cue_end(next_start(evs, n - 1, (e.start_ms + 1500) as i64), e.start_ms);
                let c = CueView {
                    index: 0,
                    start_ms: e.start_ms,
                    end_ms: end,
                    text: join(toks, seq![' ']),
                };
                assert forall|k: int| 0 <= k < s1.cues.push(c).len() implies joined_words(
                    #[trigger] s1.cues.push(c)[k].text,
                ) by {
                    if k < s1.cues.len() {
                        assert(s1.cues.push(c)[k] == s1.cues[k]);
                    }
                }
            }
        } else {
            lemma_step_words_texts(evs, n - 1, st, toks);
        }
    }
}

// ── where cues start ─────────────────────────────────────────────────────────

/// `t` is the start of one of the first `n` events.
pub open spec fn starts_at_event(evs: Seq<EventView>, n: int, t: i64) -> bool {
    exists|m: int| 0 <= m < n && m < evs.len() && (#[trigger] evs[m]).start_ms == t
}

/// The events start in non-decreasing time order.
pub open spec fn events_ordered(evs: Seq<EventView>) -> bool {
    forall|a: int, b: int|
        0 <= a < b < evs.len() ==> (#[trigger] evs[a]).start_ms <= (#[trigger] evs[b]).start_ms
}

/// What the state keeps of cue starts after the first `n` events: every
/// cue (and the buffer, when it holds words) starts at one of those
/// events; for ordered events, the cues are in start order and the buffer
/// starts after all of them.
pub open spec fn starts_inv(evs: Seq<EventView>, n: int, st: CueState) -> bool {
    &&& forall|k: int| 0 <= k < st.cues.len() ==> starts_at_event(evs, n, #[trigger] st.cues[k].start_ms)
    &&& st.buf.len() > 0 ==> starts_at_event(evs, n, st.buf_start)
    &&& events_ordered(evs) ==> {
        &&& forall|a: int, b: int|
            0 <= a < b < st.cues.len() ==> (#[trigger] st.cues[a]).start_ms <= (
            #[trigger] st.cues[b]).start_ms
        &&& st.buf.len() > 0 ==> forall|k: int|
            0 <= k < st.cues.len() ==> (#[trigger] st.cues[k]).start_ms <= st.buf_start
    }
}

proof fn lemma_started_before(evs: Seq<EventView>, n: int, t: i64, i: int)
    requires
        events_ordered(evs),
        starts_at_event(evs, n, t),
        n - 1 <= i < evs.len(),
    ensures
        t <= evs[i].start_ms,
{
    let m = choose|m: int| 0 <= m < n && m < evs.len() && (#[trigger] evs[m]).start_ms == t;
    if m < i {
        assert(evs[m].start_ms <= evs[i].start_ms);
    }
}

proof fn lemma_starts_grow(evs: Seq<EventView>, n: int, st: CueState)
    requires
        starts_inv(evs, n, st),
        0 <= n,
    ensures
        starts_inv(evs, n + 1, st),
{
    assert forall|t: i64| starts_at_event(evs, n, t) implies starts_at_event(evs, n + 1, t) by {
        let m = choose|m: int| 0 <= m < n && m < evs.len() && (#[trigger] evs[m]).start_ms == t;
        assert(0 <= m < n + 1 && m < evs.len() && evs[m].start_ms == t);
    }
}

proof fn lemma_flush_starts(evs: Seq<EventView>, n: int, st: CueState, next: i64)
    requires
        starts_inv(evs, n, st),
    ensures
        starts_inv(evs, n, flush(st, next)),
{
    if st.buf.len() > 0 {
        let f = flush(st, next);
        assert forall|k: int| 0 <= k < f.cues.len() implies starts_at_event(
            evs,
            n,
            #[trigger] f.cues[k].start_ms,
        ) by {
            if k < st.cues.len() {
                assert(f.cues[k] == st.cues[k]);
            }
        }
        if events_ordered(evs) {
            assert forall|a: int, b: int| 0 <= a < b < f.cues.len() implies (
            #[trigger] f.cues[a]).start_ms <= (#[trigger] f.cues[b]).start_ms by {
                assert(f.cues[a] == st.cues[a]);
                if b < st.cues.len() {
                    assert(f.cues[b] == st.cues[b]);
                }
            }
        }
    }
}

proof fn lemma_step_words_starts(evs: Seq<EventView>, i: int, st: CueState, ws: Seq<Seq<char>>)
    requires
        0 <= i < evs.len(),
        starts_inv(evs, i + 1, st),
    ensures
        starts_inv(evs, i + 1, step_words(evs, i, st, ws)),
    decreases ws.len(),
{
    if ws.len() > 0 {
        lemma_step_words_starts(evs, i, st, ws.drop_last());
        let st2 = step_words(evs, i, st, ws.drop_last());
        let e = evs[i];
        let start = if st2.buf.len() == 0 {
            e.start_ms
        } else {
            st2.buf_start
        };
        let s1 = CueState {
            cues: st2.cues,
            buf: st2.buf.push(ws.last()),
            buf_start: start,
            buf_last: e.start_ms,
        };
        assert(starts_at_event(evs, i + 1, e.start_ms)) by {
            assert(evs[i].start_ms == e.start_ms);
        }
        if events_ordered(evs) && st2.buf.len() == 0 {
            assert forall|k: int| 0 <= k < s1.cues.len() implies (
            #[trigger] s1.cues[k]).start_ms <= s1.buf_start by {
                lemma_started_before(evs, i + 1, st2.cues[k].start_ms, i);
            }
        }
        assert(starts_inv(evs, i + 1, s1));
        lemma_flush_starts(evs, i + 1, s1, next_start(evs, i, (e.start_ms + 1500) as i64));
    }
}

proof fn lemma_run_starts(evs: Seq<EventView>, n: int)
    requires
        0 <= n <= evs.len(),
    ensures
        starts_inv(evs, n, run_events(evs, n)),
    decreases n,
{
    if n > 0 {
        lemma_run_starts(evs, n - 1);
        let st = run_events(evs, n - 1);
        lemma_starts_grow(evs, n - 1, st);
        let i = n - 1;
        let e = evs[i];
        if e.end_ms is Some {
            lemma_flush_starts(evs, n, st, e.start_ms);
            let s1 = flush(st, e.start_ms);
            let toks = text_tokens(e.text);
            if toks.len() > 0 {
                let end = cue_end(next_start(evs, i, (e.start_ms + 1500) as i64), e.start_ms);
                let c = CueView {
                    index: 0,
                    start_ms: e.start_ms,
                    end_ms: end,
                    text: join(toks, seq![' ']),
                };
                let r = run_events(evs, n);
                assert(r.cues == s1.cues.push(c));
                assert(starts_at_event(evs, n, e.start_ms)) by {
                    assert(evs[i].start_ms == e.start_ms);
                }
                assert forall|k: int| 0 <= k < r.cues.len() implies starts_at_event(
                    evs,
                    n,
                    #[trigger] r.cues[k].start_ms,
                ) by {
                    if k < s1.cues.len() {
                        assert(r.cues[k] == s1.cues[k]);
                    }
                }
                if events_ordered(evs) {
                    assert forall|a: int, b: int| 0 <= a < b < r.cues.len() implies (
                    #[trigger] r.cues[a]).start_ms <= (#[trigger] r.cues[b]).start_ms by {
                        assert(r.cues[a] == s1.cues[a]);
                        if b < s1.cues.len() {
                            assert(r.cues[b] == s1.cues[b]);
                        } else {
                            lemma_started_before(evs, n, s1.cues[a].start_ms, i);
                        }
                    }
                }
                assert(r.buf.len() == 0);
            }
        } else {
            lemma_step_words_starts(evs, i, st, text_tokens(e.text));
        }
    }
}

/// Every cue starts when some event starts, and for events in time order
/// the cues come out in time order too.
pub proof fn lemma_cue_starts(evs: Seq<EventView>)
    ensures
        forall|k: int|
            0 <= k < grouped_cues(evs).len() ==> exists|m: int|
                0 <= m < evs.len() && (#[trigger] evs[m]).start_ms == (
                #[trigger] grouped_cues(evs)[k]).start_ms,
        events_ordered(evs) ==> forall|a: int, b: int|
            0 <= a < b < grouped_cues(evs).len() ==> (#[trigger] grouped_cues(evs)[a]).start_ms
                <= (#[trigger] grouped_cues(evs)[b]).start_ms,
{
    let n = evs.len() as int;
    lemma_run_starts(evs, n);
    let st = run_events(evs, n);
    let fin = finish(st);
    assert forall|k: int| 0 <= k < fin.len() implies starts_at_event(evs, n, #[trigger] fin[k].start_ms) by {
        if k < st.cues.len() {
            assert(fin[k] == st.cues[k]);
        }
    }
    assert forall|k: int| 0 <= k < grouped_cues(evs).len() implies exists|m: int|
        0 <= m < evs.len() && (#[trigger] evs[m]).start_ms == (
        #[trigger] grouped_cues(evs)[k]).start_ms by {
        assert(grouped_cues(evs)[k].start_ms == fin[k].start_ms);
        assert(starts_at_event(evs, n, fin[k].start_ms));
    }
    if events_ordered(evs) {
        assert forall|a: int, b: int| 0 <= a < b < grouped_cues(evs).len() implies (
        #[trigger] grouped_cues(evs)[a]).start_ms <= (#[trigger] grouped_cues(evs)[b]).start_ms by {
            assert(grouped_cues(evs)[a].start_ms == fin[a].start_ms);
            assert(grouped_cues(evs)[b].start_ms == fin[b].start_ms);
            assert(fin[a] == st.cues[a]);
            if b < st.cues.len() {
                assert(fin[b] == st.cues[b]);
            }
        }
    }
}

// ── words per cue ────────────────────────────────────────────────────────────

/// No event carries an end time: every word goes through the buffer.
pub open spec fn all_untimed(evs: Seq<EventView>) -> bool {
    forall|i: int| 0 <= i < evs.len() ==> (#[trigger] evs[i]).end_ms is None
}

/// A cue holding between 1 and `MAX_WORDS` words.
pub open spec fn word_count_ok(c: CueView) -> bool {
    1 <= split_ws(c.text).len() <= MAX_WORDS
}

proof fn lemma_step_words_counts(evs: Seq<EventView>, i: int, st: CueState, ws: Seq<Seq<char>>)
    requires
        all_words(st.buf),
        all_words(ws),
        st.buf.len() < MAX_WORDS,
        forall|k: int| 0 <= k < st.cues.len() ==> word_count_ok(#[trigger] st.cues[k]),
        forall|k: int| 0 <= k < st.cues.len() ==> joined_words(#[trigger] st.cues[k].text),
    ensures
        step_words(evs, i, st, ws).buf.len() < MAX_WORDS,
        forall|k: int|
            0 <= k < step_words(evs, i, st, ws).cues.len() ==> word_count_ok(
                #[trigger] step_words(evs, i, st, ws).cues[k],
            ),
    decreases ws.len(),
{
    if ws.len() > 0 {
        let p = ws.drop_last();
        assert forall|j: int| 0 <= j < p.len() implies is_word(#[trigger] p[j]) by {
            assert(p[j] == ws[j]);
        }
        lemma_step_words_counts(evs, i, st, p);
        lemma_step_words_texts(evs, i, st, p);
        let st2 = step_words(evs, i, st, p);
        let e = evs[i];
        let start = if st2.buf.len() == 0 {
            e.start_ms
        } else {
            st2.buf_start
        };
        let w = ws.last();
        assert(is_word(ws[ws.len() - 1]));
        let s1 = CueState { cues: st2.cues, buf: st2.buf.push(w), buf_start: start, buf_last: e.start_ms };
        assert forall|j: int| 0 <= j < s1.buf.len() implies is_word(#[trigger] s1.buf[j]) by {
            if j < st2.buf.len() {
                assert(s1.buf[j] == st2.buf[j]);
            }
        }
        if ends_sentence_spec(w) || s1.buf.len() >= MAX_WORDS || e.start_ms - start >= MAX_DUR {
            lemma_split_join(s1.buf);
            let f = flush(s1, next_start(evs, i, (e.start_ms + 1500) as i64));
            assert forall|k: int| 0 <= k < f.cues.len() implies word_count_ok(#[trigger] f.cues[k]) by {
                if k < st2.cues.len() {
                    assert(f.cues[k] == st2.cues[k]);
                }
            }
        }
    }
}

proof fn lemma_run_counts(evs: Seq<EventView>, n: int)
    requires
        0 <= n <= evs.len(),
        all_untimed(evs),
    ensures
        run_events(evs, n).buf.len() < MAX_WORDS,
        forall|k: int|
            0 <= k < run_events(evs, n).cues.len() ==> word_count_ok(
                #[trigger] run_events(evs, n).cues[k],
            ),
    decreases n,
{
    if n > 0 {
        lemma_run_counts(evs, n - 1);
        lemma_run_texts(evs, n - 1);
        let e = evs[n - 1];
        assert(e.end_ms is None);
        lemma_text_tokens_words(e.text);
        lemma_step_words_counts(evs, n - 1, run_events(evs, n - 1), text_tokens(e.text));
    }
}

/// Without timed events, every cue holds between 1 and `MAX_WORDS` words.
pub proof fn lemma_cue_word_counts(evs: Seq<EventView>)
    requires
        all_untimed(evs),
    ensures
        forall|k: int| 0 <= k < grouped_cues(evs).len() ==> word_count_ok(#[trigger] grouped_cues(evs)[k]),
{
    let n = evs.len() as int;
    lemma_run_counts(evs, n);
    lemma_run_texts(evs, n);
    let st = run_events(evs, n);
    let fin = finish(st);
    if st.buf.len() > 0 {
        lemma_split_join(st.buf);
    }
    assert forall|k: int| 0 <= k < grouped_cues(evs).len() implies word_count_ok(
        #[trigger] grouped_cues(evs)[k],
    ) by {
        assert(grouped_cues(evs)[k].text == fin[k].text);
        if k < st.cues.len() {
            assert(fin[k] == st.cues[k]);
        }
    }
}

// ── cues end after they start ───────────────────────────────────────────────

/// Events at non-negative times up to 10^12 ms, each starting more than
/// 10 ms after the one before.
pub open spec fn events_spaced(evs: Seq<EventView>) -> bool {
    &&& forall|i: int| 0 <= i < evs.len() ==> 0 <= (#[trigger] evs[i]).start_ms <= 1_000_000_000_000
    &&& forall|i: int| 1 <= i < evs.len() ==> (#[trigger] evs[i]).start_ms > evs[i - 1].start_ms + 10
}

/// Every cue written so far ends after it starts, and buffered words began
/// no later than the last word, itself no later than `limit`.
pub open spec fn timing_inv(st: CueState, limit: i64) -> bool {
    &&& forall|k: int| 0 <= k < st.cues.len() ==> (#[trigger] st.cues[k]).start_ms < st.cues[k].end_ms
    &&& st.buf.len() > 0 ==> 0 <= st.buf_start <= st.buf_last <= limit
}

proof fn lemma_flush_timing(st: CueState, next: i64, limit: i64)
    requires
        timing_inv(st, limit),
        st.buf.len() > 0 ==> next - 10 > st.buf_start,
        limit <= 1_000_000_000_000,
    ensures
        forall|k: int|
            0 <= k < flush(st, next).cues.len() ==> (#[trigger] flush(st, next).cues[k]).start_ms
                < flush(st, next).cues[k].end_ms,
        flush(st, next).buf.len() == 0 || flush(st, next) == st,
{
    if st.buf.len() > 0 {
        let f = flush(st, next);
        assert forall|k: int| 0 <= k < f.cues.len() implies (#[trigger] f.cues[k]).start_ms
            < f.cues[k].end_ms by {
            if k < st.cues.len() {
                assert(f.cues[k] == st.cues[k]);
            }
        }
    }
}

proof fn lemma_step_words_timing(evs: Seq<EventView>, i: int, st: CueState, ws: Seq<Seq<char>>)
    requires
        events_spaced(evs),
        0 <= i < evs.len(),
        timing_inv(st, evs[i].start_ms),
    ensures
        timing_inv(step_words(evs, i, st, ws), evs[i].start_ms),
    decreases ws.len(),
{
    if ws.len() > 0 {
        lemma_step_words_timing(evs, i, st, ws.drop_last());
        let st2 = step_words(evs, i, st, ws.drop_last());
        let e = evs[i];
        assert(0 <= e.start_ms <= 1_000_000_000_000);
        let start = if st2.buf.len() == 0 {
            e.start_ms
        } else {
            st2.buf_start
        };
        let s1 = CueState {
            cues: st2.cues,
            buf: st2.buf.push(ws.last()),
            buf_start: start,
            buf_last: e.start_ms,
        };
        let next = next_start(evs, i, (e.start_ms + 1500) as i64);
        if i + 1 < evs.len() {
            assert(evs[i + 1].start_ms > evs[i].start_ms + 10);
        }
        assert(next - 10 > s1.buf_start);
        lemma_flush_timing(s1, next, e.start_ms);
    }
}

proof fn lemma_run_timing(evs: Seq<EventView>, n: int)
    requires
        events_spaced(evs),
        0 <= n <= evs.len(),
    ensures
        timing_inv(run_events(evs, n), if n > 0 { evs[n - 1].start_ms } else { 0 }),
    decreases n,
{
    if n > 0 {
        lemma_run_timing(evs, n - 1);
        let st = run_events(evs, n - 1);
        let i = n - 1;
        let e = evs[i];
        assert(0 <= e.start_ms <= 1_000_000_000_000);
        if n > 1 {
            assert(evs[i].start_ms > evs[i - 1].start_ms + 10);
        }
        assert(timing_inv(st, e.start_ms));
        if e.end_ms is Some {
            if st.buf.len() > 0 {
                assert(n > 1);
            }
            lemma_flush_timing(st, e.start_ms, e.start_ms);
            let s1 = flush(st, e.start_ms);
            let toks = text_tokens(e.text);
            let r = run_events(evs, n);
            if toks.len() > 0 {
                let next = next_start(evs, i, (e.start_ms + 1500) as i64);
                if i + 1 < evs.len() {
                    assert(evs[i + 1].start_ms > evs[i].start_ms + 10);
                }
                let end = cue_end(next, e.start_ms);
                let c = CueView {
                    index: 0,
                    start_ms: e.start_ms,
                    end_ms: end,
                    text: join(toks, seq![' ']),
                };
                assert(r.cues == s1.cues.push(c));
                assert forall|k: int| 0 <= k < r.cues.len() implies (#[trigger] r.cues[k]).start_ms
                    < r.cues[k].end_ms by {
                    if k < s1.cues.len() {
                        assert(r.cues[k] == s1.cues[k]);
                    }
                }
            }
        } else {
            lemma_step_words_timing(evs, i, st, text_tokens(e.text));
        }
    }
}

/// For events at ordinary times, each more than 10 ms after the one before,
/// every cue ends after it starts.
pub proof fn lemma_cues_end_after_start(evs: Seq<EventView>)
    requires
        events_spaced(evs),
    ensures
        forall|k: int|
            0 <= k < grouped_cues(evs).len() ==> (#[trigger] grouped_cues(evs)[k]).start_ms
                < grouped_cues(evs)[k].end_ms,
{
    let n = evs.len() as int;
    lemma_run_timing(evs, n);
    let st = run_events(evs, n);
    let fin = finish(st);
    if st.buf.len() > 0 {
        assert(n > 0);
        assert(0 <= evs[n - 1].start_ms <= 1_000_000_000_000);
    }
    assert forall|k: int| 0 <= k < grouped_cues(evs).len() implies (#[trigger] grouped_cues(
        evs,
    )[k]).start_ms < grouped_cues(evs)[k].end_ms by {
        assert(grouped_cues(evs)[k].start_ms == fin[k].start_ms);
        assert(grouped_cues(evs)[k].end_ms == fin[k].end_ms);
        if k < st.cues.len() {
            assert(fin[k] == st.cues[k]);
        }
    }
}

// ── no words, no cues ────────────────────────────────────────────────────────

proof fn lemma_flatten_empty(ss: Seq<Seq<Seq<char>>>)
    ensures
        flatten(ss).len() == 0 <==> forall|i: int| 0 <= i < ss.len() ==> (#[trigger] ss[i]).len() == 0,
    decreases ss.len(),
{
    if ss.len() > 0 {
        lemma_flatten_empty(ss.drop_last());
        assert forall|i: int| 0 <= i < ss.drop_last().len() implies ss.drop_last()[i] == ss[i] by {}
        if flatten(ss).len() == 0 {
            assert forall|i: int| 0 <= i < ss.len() implies (#[trigger] ss[i]).len() == 0 by {
                if i < ss.len() - 1 {
                    assert(ss.drop_last()[i] == ss[i]);
                }
            }
        }
        if forall|i: int| 0 <= i < ss.len() ==> (#[trigger] ss[i]).len() == 0 {
            assert(ss[ss.len() - 1].len() == 0);
            assert forall|i: int| 0 <= i < ss.drop_last().len() implies (
            #[trigger] ss.drop_last()[i]).len() == 0 by {
                assert(ss.drop_last()[i] == ss[i]);
            }
        }
    }
}

/// The grouping gives no cue exactly when no event holds a word that
/// survives cleaning.
pub proof fn lemma_no_cues_without_words(evs: Seq<EventView>)
    ensures
        grouped_cues(evs).len() == 0 <==> forall|i: int|
            0 <= i < evs.len() ==> #[trigger] text_tokens(evs[i].text).len() == 0,
{
    let tk = evs.map_values(|e: EventView| text_tokens(e.text));
    let cs = grouped_cues(evs);
    let cw = cs.map_values(|c: CueView| split_ws(c.text));
    lemma_cues_keep_every_word_once(evs);
    lemma_cue_texts_are_words(evs);
    lemma_flatten_empty(tk);
    lemma_flatten_empty(cw);
    assert(cue_words(cs) == flatten(cw));
    if cs.len() > 0 {
        assert(cw[0].len() > 0);
    }
    assert forall|i: int| 0 <= i < evs.len() implies tk[i] == text_tokens(evs[i].text) by {}
    if forall|i: int| 0 <= i < evs.len() ==> #[trigger] text_tokens(evs[i].text).len() == 0 {
        assert forall|i: int| 0 <= i < tk.len() implies (#[trigger] tk[i]).len() == 0 by {
            assert(tk[i] == text_tokens(evs[i].text));
        }
    }
    if cs.len() == 0 {
        assert(cw.len() == 0);
        assert forall|i: int| 0 <= i < evs.len() implies #[trigger] text_tokens(evs[i].text).len()
            == 0 by {
            assert(tk[i] == text_tokens(evs[i].text));
        }
    }
}

} // verus!
