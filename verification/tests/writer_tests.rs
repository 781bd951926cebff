use subscrub::types::SubCue;
use subscrub::writer::{is_rtl_lang, ms_to_srt_timestamp, ms_to_vtt_timestamp, write_srt, write_vtt};

fn cue(index: usize, start_ms: i64, end_ms: i64, text: &str) -> SubCue {
    SubCue { index, start_ms, end_ms, text: text.to_string() }
}

#[test]
fn timestamps_have_fixed_width_fields() {
    assert_eq!(ms_to_vtt_timestamp(3_723_004), "01:02:03.004");
    assert_eq!(ms_to_srt_timestamp(3_723_004), "01:02:03,004");
    assert_eq!(ms_to_vtt_timestamp(0), "00:00:00.000");
    assert_eq!(ms_to_srt_timestamp(360_000_000), "100:00:00,000");
}

#[test]
fn negative_timestamps_keep_their_signs() {
    assert_eq!(ms_to_vtt_timestamp(-1_500), "00:00:-1.-500");
    assert_eq!(ms_to_srt_timestamp(-61_000), "00:-1:-1,000");
}

#[test]
fn rtl_languages_are_recognised_by_prefix() {
    assert!(is_rtl_lang("ar"));
    assert!(is_rtl_lang("AR-orig"));
    assert!(is_rtl_lang("he"));
    assert!(is_rtl_lang("fa"));
    assert!(is_rtl_lang("urd"));
    assert!(!is_rtl_lang("en"));
    assert!(!is_rtl_lang("a"));
}

#[test]
fn vtt_output() {
    let cues = vec![cue(1, 0, 1_500, "Hello"), cue(2, 2_000, 3_000, "World")];
    assert_eq!(
        write_vtt(&cues, "en"),
        "WEBVTT\n\n1\n00:00:00.000 --> 00:00:01.500\nHello\n\n2\n00:00:02.000 --> 00:00:03.000\nWorld\n\n"
    );
}

#[test]
fn vtt_output_for_rtl_language_has_style_block() {
    let cues = vec![cue(1, 0, 1_500, "مرحبا")];
    assert_eq!(
        write_vtt(&cues, "ar"),
        "WEBVTT\n\nSTYLE\n::cue {\n  direction: rtl;\n  unicode-bidi: embed;\n}\n\n1\n00:00:00.000 --> 00:00:01.500\nمرحبا\n\n"
    );
}

#[test]
fn srt_output() {
    let cues = vec![cue(1, 0, 1_500, "Hello"), cue(2, 61_000, 62_250, "World")];
    assert_eq!(
        write_srt(&cues),
        "1\n00:00:00,000 --> 00:00:01,500\nHello\n\n2\n00:01:01,000 --> 00:01:02,250\nWorld\n\n"
    );
}

#[test]
fn empty_cue_lists() {
    assert_eq!(write_srt(&[]), "");
    assert_eq!(write_vtt(&[], "en"), "WEBVTT\n\n");
}
