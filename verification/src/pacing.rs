//! How far apart in time the words of one cue of untimed words may lie.
use vstd::prelude::*;

use crate::parser::{
    all_untimed, cue_words, ends_sentence_spec, finish, flush, grouped_cues, lemma_cue_words_push,
    lemma_text_tokens_words, next_start, run_events, step_word, step_words, text_tokens,
    CueState, CueView, EventView, MAX_DUR, MAX_WORDS,
};
use crate::text::{all_words, flatten, is_word, lemma_flatten_push, lemma_split_join, split_ws};

verus! {

/// Each cleaned word of an event, as the start time of that event.
pub open spec fn event_times(e: EventView) -> Seq<i64> {
    Seq::new(text_tokens(e.text).len(), |j: int| e.start_ms)
}

/// The start time of the event of each cleaned word of the first `n`
/// events, word after word.
pub open spec fn word_times(evs: Seq<EventView>, n: int) -> Seq<i64> {
    flatten(evs.take(n).map_values(|e: EventView| event_times(e)))
}

proof fn lemma_word_times_step(evs: Seq<EventView>, n: int)
    requires
        0 <= n < evs.len(),
    ensures
        word_times(evs, n + 1) == word_times(evs, n) + event_times(evs[n]),
{
    let f = |e: EventView| event_times(e);
    assert(evs.take(n + 1).map_values(f) =~= evs.take(n).map_values(f).push(event_times(evs[n])));
    lemma_flatten_push(evs.take(n).map_values(f), event_times(evs[n]));
}

/// Cue `k` of `cs` starts at the time of its first word, and every word but
/// its last lies less than `MAX_DUR` after that first word (times `ts`, one
/// per word of the cues).
spec fn cue_paced(cs: Seq<CueView>, ts: Seq<i64>, k: int) -> bool {
    let o = cue_words(cs.take(k)).len() as int;
    let n = split_ws(cs[k].text).len() as int;
    &&& 1 <= n
    &&& o + n <= ts.len()
    &&& cs[k].start_ms == ts[o]
    &&& forall|x: int| o <= x < o + n - 1 ==> #[trigger] ts[x] < ts[o] + MAX_DUR
}

/// The grouping state with the times `ts` of the words read so far: the
/// written cues are paced, and the buffered words (whose times end `ts`)
/// started at `buf_start` and all lie less than `MAX_DUR` after it.
spec fn paced(st: CueState, ts: Seq<i64>) -> bool {
    let c = cue_words(st.cues).len() as int;
    &&& ts.len() == c + st.buf.len()
    &&& all_words(st.buf)
    &&& forall|k: int| 0 <= k < st.cues.len() ==> #[trigger] cue_paced(st.cues, ts, k)
    &&& st.buf.len() > 0 ==> (st.buf_start == ts[c] && forall|x: int|
        c <= x < ts.len() ==> #[trigger] ts[x] < ts[c] + MAX_DUR)
}

proof fn lemma_cue_paced_extend(cs: Seq<CueView>, ts: Seq<i64>, more: Seq<i64>, k: int)
    requires
        0 <= k < cs.len(),
        cue_paced(cs, ts, k),
    ensures
        cue_paced(cs, ts + more, k),
{
    let o = cue_words(cs.take(k)).len() as int;
    let n = split_ws(cs[k].text).len() as int;
    let t2 = ts + more;
    assert(t2[o] == ts[o]);
    assert forall|x: int| o <= x < o + n - 1 implies #[trigger] t2[x] < t2[o] + MAX_DUR by {
        assert(t2[x] == ts[x]);
    }
}

proof fn lemma_cue_paced_push(cs: Seq<CueView>, c: CueView, ts: Seq<i64>, k: int)
    requires
        0 <= k < cs.len(),
        cue_paced(cs, ts, k),
    ensures
        cue_paced(cs.push(c), ts, k),
{
    assert(cs.push(c).take(k) =~= cs.take(k));
    assert(cs.push(c)[k] == cs[k]);
}

proof fn lemma_flush_paced(s1: CueState, next: i64, ts: Seq<i64>)
    requires
        s1.buf.len() > 0,
        all_words(s1.buf),
        ts.len() == cue_words(s1.cues).len() + s1.buf.len(),
        forall|k: int| 0 <= k < s1.cues.len() ==> #[trigger] cue_paced(s1.cues, ts, k),
        s1.buf_start == ts[cue_words(s1.cues).len() as int],
        forall|x: int|
            cue_words(s1.cues).len() <= x < ts.len() - 1 ==> #[trigger] ts[x] < ts[cue_words(
                s1.cues,
            ).len() as int] + MAX_DUR,
    ensures
        paced(flush(s1, next), ts),
{
    let f = flush(s1, next);
    let c = f.cues.last();
    lemma_split_join(s1.buf);
    lemma_cue_words_push(s1.cues, c);
    assert(f.cues == s1.cues.push(c));
    assert forall|k: int| 0 <= k < f.cues.len() implies #[trigger] cue_paced(f.cues, ts, k) by {
        if k < s1.cues.len() {
            lemma_cue_paced_push(s1.cues, c, ts, k);
        } else {
            assert(f.cues.take(k) =~= s1.cues);
        }
    }
}

proof fn lemma_step_word_paced(evs: Seq<EventView>, i: int, st: CueState, w: Seq<char>, ts: Seq<i64>)
    requires
        0 <= i < evs.len(),
        paced(st, ts),
        is_word(w),
    ensures
        paced(step_word(evs, i, st, w), ts.push(evs[i].start_ms)),
{
    let e = evs[i];
    let t = e.start_ms;
    let t2 = ts.push(t);
    let c = cue_words(st.cues).len() as int;
    let start = if st.buf.len() == 0 {
        t
    } else {
        st.buf_start
    };
    let s1 = CueState { cues: st.cues, buf: st.buf.push(w), buf_start: start, buf_last: t };
    assert(t2 =~= ts + seq![t]);
    assert forall|k: int| 0 <= k < st.cues.len() implies #[trigger] cue_paced(st.cues, t2, k) by {
        lemma_cue_paced_extend(st.cues, ts, seq![t], k);
    }
    assert forall|j: int| 0 <= j < s1.buf.len() implies is_word(#[trigger] s1.buf[j]) by {
        if j < st.buf.len() {
            assert(s1.buf[j] == st.buf[j]);
        }
    }
    assert(t2[c] == start);
    assert forall|x: int| c <= x < ts.len() implies #[trigger] t2[x] < t2[c] + MAX_DUR by {
        assert(t2[x] == ts[x]);
    }
    if ends_sentence_spec(w) || s1.buf.len() >= MAX_WORDS || e.start_ms - start >= MAX_DUR {
        lemma_flush_paced(s1, next_start(evs, i, (e.start_ms + 1500) as i64), t2);
    } else {
        assert(t2[ts.len() as int] == t);
    }
}

proof fn lemma_step_words_paced(
    evs: Seq<EventView>,
    i: int,
    st: CueState,
    ws: Seq<Seq<char>>,
    ts: Seq<i64>,
)
    requires
        0 <= i < evs.len(),
        paced(st, ts),
        all_words(ws),
    ensures
        paced(step_words(evs, i, st, ws), ts + Seq::new(ws.len(), |j: int| evs[i].start_ms)),
    decreases ws.len(),
{
    if ws.len() == 0 {
        assert(ts + Seq::new(ws.len(), |j: int| evs[i].start_ms) =~= ts);
    } else {
        let p = ws.drop_last();
        assert forall|j: int| 0 <= j < p.len() implies is_word(#[trigger] p[j]) by {
            assert(p[j] == ws[j]);
        }
        lemma_step_words_paced(evs, i, st, p, ts);
        let tp = ts + Seq::new(p.len(), |j: int| evs[i].start_ms);
        assert(is_word(ws[ws.len() - 1]));
        lemma_step_word_paced(evs, i, step_words(evs, i, st, p), ws.last(), tp);
        assert(tp.push(evs[i].start_ms) =~= ts + Seq::new(ws.len(), |j: int| evs[i].start_ms));
    }
}

proof fn lemma_run_paced(evs: Seq<EventView>, n: int)
    requires
        0 <= n <= evs.len(),
        all_untimed(evs),
    ensures
        paced(run_events(evs, n), word_times(evs, n)),
    decreases n,
{
    if n == 0 {
        assert(evs.take(0).map_values(|e: EventView| event_times(e)) =~= Seq::<Seq<i64>>::empty());
        assert(run_events(evs, 0).cues.map_values(|c: CueView| split_ws(c.text)) =~= Seq::<
            Seq<Seq<char>>,
        >::empty());
    } else {
        lemma_run_paced(evs, n - 1);
        lemma_word_times_step(evs, n - 1);
        let e = evs[n - 1];
        assert(e.end_ms is None);
        lemma_text_tokens_words(e.text);
        let toks = text_tokens(e.text);
        lemma_step_words_paced(evs, n - 1, run_events(evs, n - 1), toks, word_times(evs, n - 1));
        assert(Seq::new(toks.len(), |j: int| evs[n - 1].start_ms) =~= event_times(e));
    }
}

/// When no event carries an end time, every cue starts at the time of its
/// first word, and each of its words but the last belongs to an event that
/// starts less than 6 s (`MAX_DUR`) after that first word: a cue is cut at
/// the first word lying 6 s or more after its start, and that word is its
/// last. The times are those of `word_times`, one per word of the cues.
pub proof fn lemma_cues_span_under_six_seconds(evs: Seq<EventView>)
    requires
        all_untimed(evs),
    ensures
        word_times(evs, evs.len() as int).len() == cue_words(grouped_cues(evs)).len(),
        forall|k: int|
            0 <= k < grouped_cues(evs).len() ==> {
                let ts = word_times(evs, evs.len() as int);
                let o = cue_words(grouped_cues(evs).take(k)).len() as int;
                let n = split_ws(grouped_cues(evs)[k].text).len() as int;
                &&& (#[trigger] grouped_cues(evs)[k]).start_ms == ts[o]
                &&& forall|x: int| o <= x < o + n - 1 ==> #[trigger] ts[x] < ts[o] + 6000
            },
{
    let big_n = evs.len() as int;
    lemma_run_paced(evs, big_n);
    let ts = word_times(evs, big_n);
    let st = run_events(evs, big_n);
    let fin = finish(st);
    let cs = grouped_cues(evs);
    if st.buf.len() > 0 {
        let c = fin.last();
        assert(fin == st.cues.push(c));
        lemma_split_join(st.buf);
        lemma_cue_words_push(st.cues, c);
        assert forall|k: int| 0 <= k < fin.len() implies #[trigger] cue_paced(fin, ts, k) by {
            if k < st.cues.len() {
                lemma_cue_paced_push(st.cues, c, ts, k);
            } else {
                assert(fin.take(k) =~= st.cues);
            }
        }
    } else {
        assert(fin == st.cues);
    }
    assert(cs.map_values(|c: CueView| split_ws(c.text)) =~= fin.map_values(
        |c: CueView| split_ws(c.text),
    ));
    assert forall|k: int| 0 <= k < cs.len() implies {
        let o = cue_words(cs.take(k)).len() as int;
        let n = split_ws(cs[k].text).len() as int;
        &&& (#[trigger] cs[k]).start_ms == ts[o]
        &&& forall|x: int| o <= x < o + n - 1 ==> #[trigger] ts[x] < ts[o] + 6000
    } by {
        assert(cue_paced(fin, ts, k));
        assert(cs.take(k).map_values(|c: CueView| split_ws(c.text)) =~= fin.take(k).map_values(
            |c: CueView| split_ws(c.text),
        ));
    }
}

} // verus!
