use subscrub::decode::try_decode;
use subscrub::json3::{events_from_raw, parse_json3, process_json3, Json3Error, RawEvent, RawSeg};
use subscrub::parser::{clean_word, ends_sentence, group_into_cues, wrap_text};
use subscrub::types::{Event, SubCue};

fn ev(start_ms: i64, end_ms: Option<i64>, text: &str) -> Event {
    Event { start_ms, end_ms, text: text.to_string() }
}

fn cue_tuple(c: &SubCue) -> (usize, i64, i64, String) {
    (c.index, c.start_ms, c.end_ms, c.text.clone())
}

#[test]
fn try_decode_strips_a_utf8_bom() {
    assert_eq!(try_decode(b"\xef\xbb\xbfhi"), "hi");
    assert_eq!(try_decode("plain é".as_bytes()), "plain é");
}

#[test]
fn try_decode_reads_utf16_with_a_bom() {
    assert_eq!(try_decode(&[0xFF, 0xFE, b'h', 0, b'i', 0]), "hi");
    assert_eq!(try_decode(&[0xFE, 0xFF, 0, b'h', 0, b'i']), "hi");
}

#[test]
fn try_decode_falls_back_to_windows_1252() {
    assert_eq!(try_decode(&[0x93, b'x', 0x94]), "\u{201c}x\u{201d}");
}

#[test]
fn clean_word_removes_tags_and_blanks() {
    assert_eq!(clean_word("<b>Hi</b>"), Some("Hi".to_string()));
    assert_eq!(clean_word("<i></i>"), None);
    assert_eq!(clean_word("a<c.colorE5E5E5>b"), Some("ab".to_string()));
    assert_eq!(clean_word("<>x"), Some("<>x".to_string()));
}

#[test]
fn ends_sentence_looks_at_the_last_character() {
    assert!(ends_sentence("done."));
    assert!(ends_sentence("why؟"));
    assert!(ends_sentence("what?"));
    assert!(ends_sentence("wait… "));
    assert!(ends_sentence("now!"));
    assert!(!ends_sentence("so"));
    assert!(!ends_sentence(""));
}

#[test]
fn wrap_text_keeps_the_text() {
    assert_eq!(wrap_text("a long line of words", 5), "a long line of words");
}

#[test]
fn rolling_words_are_grouped_into_sentences() {
    let cues = group_into_cues(vec![
        ev(0, None, "Hello world."),
        ev(1_000, None, "Next words"),
    ]);
    let got: Vec<_> = cues.iter().map(cue_tuple).collect();
    assert_eq!(
        got,
        vec![
            (1, 0, 990, "Hello world.".to_string()),
            (2, 1_000, 2_500, "Next words".to_string()),
        ]
    );
}

#[test]
fn timed_events_become_their_own_cues() {
    let cues = group_into_cues(vec![ev(0, Some(2_000), "<b>Hi</b> there")]);
    let got: Vec<_> = cues.iter().map(cue_tuple).collect();
    assert_eq!(got, vec![(1, 0, 1_490, "Hi there".to_string())]);
}

#[test]
fn a_cue_is_cut_at_fifteen_words() {
    let text = (1..=16).map(|i| format!("w{i}")).collect::<Vec<_>>().join(" ");
    let cues = group_into_cues(vec![ev(0, None, &text)]);
    assert_eq!(cues.len(), 2);
    assert_eq!(cues[0].text.split(' ').count(), 15);
    assert_eq!(cues[1].text, "w16");
    assert_eq!(cues[1].index, 2);
}

#[test]
fn every_word_appears_once_in_order() {
    let cues = group_into_cues(vec![
        ev(0, None, "one two"),
        ev(500, None, "two three."),
        ev(900, Some(300), "four"),
        ev(2_000, None, "five"),
    ]);
    let words: Vec<String> = cues
        .iter()
        .flat_map(|c| c.text.split(' ').map(|w| w.to_string()).collect::<Vec<_>>())
        .collect();
    assert_eq!(words, vec!["one", "two", "two", "three.", "four", "five"]);
}

#[test]
fn no_events_no_cues() {
    assert!(group_into_cues(Vec::new()).is_empty());
}

#[test]
fn process_json3_reads_and_groups() {
    let doc = br#"{"events":[{"tStartMs":0,"dDurationMs":2000,"segs":[{"utf8":"Hello world."}]},{"tStartMs":3000,"segs":[{"utf8":"Bye"}]}]}"#;
    let (result, warning) = process_json3(doc);
    assert!(warning.is_none());
    let cues = result.unwrap();
    let got: Vec<_> = cues.iter().map(cue_tuple).collect();
    assert_eq!(
        got,
        vec![
            (1, 0, 2_990, "Hello world.".to_string()),
            (2, 3_000, 4_500, "Bye".to_string()),
        ]
    );
}

#[test]
fn parse_json3_spreads_words_and_skips_blank_segments() {
    let doc = br#"{"events":[{"tStartMs":100,"segs":[{"utf8":" \n"},{"utf8":"a b","tOffsetMs":50}]},{"tStartMs":5},{"segs":[{"x":1}]}]}"#;
    let (events, warning) = parse_json3(doc);
    assert!(warning.is_none());
    assert_eq!(events.len(), 1);
    assert_eq!(events[0].start_ms, 150);
    assert_eq!(events[0].end_ms, None);
    assert_eq!(events[0].text, "a b");
}

#[test]
fn parse_json3_gives_no_events_and_a_warning_for_non_json() {
    let (events, warning) = parse_json3(b"not json");
    assert!(events.is_empty());
    assert!(warning.is_some());
    let (events, warning) = parse_json3(b"{}");
    assert!(events.is_empty());
    assert!(warning.is_none());
}

#[test]
fn process_json3_errors() {
    let (r, w) = process_json3(b"not json");
    assert!(matches!(r, Err(Json3Error::NoEvents)));
    assert!(w.is_some());
    let (r, w) = process_json3(br#"{"events":[]}"#);
    assert!(matches!(r, Err(Json3Error::NoEvents)));
    assert!(w.is_none());
    assert!(matches!(process_json3(b"{}").0, Err(Json3Error::NoEvents)));
    assert_eq!(Json3Error::NoEvents.message(), "No events found in json3 file.");
    assert_eq!(Json3Error::TimeOverflow.message(), "Timestamp out of range in json3 file.");
}

#[test]
fn times_that_overflow_are_refused() {
    let raw = vec![RawEvent {
        start_ms: Some(i64::MAX),
        duration_ms: None,
        segs: Some(vec![RawSeg { utf8: Some("x".to_string()), offset_ms: Some(1) }]),
    }];
    assert!(events_from_raw(&raw).is_none());
    let doc = format!(
        r#"{{"events":[{{"tStartMs":{},"segs":[{{"utf8":"x"}}]}}]}}"#,
        i64::MAX
    );
    assert!(matches!(process_json3(doc.as_bytes()).0, Err(Json3Error::TimeOverflow)));
    let big = format!(
        r#"{{"events":[{{"tStartMs":{},"segs":[{{"utf8":"x","tOffsetMs":1}}]}}]}}"#,
        i64::MAX
    );
    let (events, warning) = parse_json3(big.as_bytes());
    assert!(events.is_empty());
    assert_eq!(warning, Some("Timestamp out of range in json3 file.".to_string()));
}

#[test]
fn wordless_events_may_start_anywhere() {
    let cues = group_into_cues(vec![ev(i64::MAX, None, "<b></b>"), ev(0, None, "hi")]);
    let got: Vec<_> = cues.iter().map(cue_tuple).collect();
    assert_eq!(got, vec![(1, 0, 1_500, "hi".to_string())]);
    let doc = format!(
        r#"{{"events":[{{"tStartMs":{},"segs":[{{"utf8":"<i></i>"}}]}}]}}"#,
        i64::MAX
    );
    let (r, w) = process_json3(doc.as_bytes());
    assert!(w.is_none());
    assert!(r.unwrap().is_empty());
}

#[test]
fn the_warning_for_non_json_is_the_parser_message() {
    let (_, warning) = parse_json3(b"{\"events\": [");
    let expected = serde_json::from_str::<serde_json::Value>("{\"events\": [")
        .unwrap_err()
        .to_string();
    assert_eq!(warning, Some(expected));
}
