use subscrub::merger::{
    count_position_matches, count_subtitle_streams_in, extract_id, ffmpeg_map_args,
    ffmpeg_metadata_args, lang_display_name, match_videos_to_subs, merge_single_output_name,
    merged_file_name, merged_folder_name, normalize_title, parse_sub_name, parse_video_name,
    select_files, sort_names, sub_file_langs, to_iso639_2,
};

fn strings(v: &[&str]) -> Vec<String> {
    v.iter().map(|s| s.to_string()).collect()
}

#[test]
fn parse_sub_name_handles_youtube_variant_codes() {
    assert_eq!(
        parse_sub_name("My Video - ar.srt"),
        ("My Video".to_string(), "ar".to_string())
    );
    assert_eq!(
        parse_sub_name("My Video - ar-orig.srt"),
        ("My Video".to_string(), "ar-orig".to_string())
    );
    assert_eq!(
        parse_sub_name("My Video - en-orig.vtt"),
        ("My Video".to_string(), "en-orig".to_string())
    );
    assert_eq!(
        parse_sub_name("My Video - zh-Hans.srt"),
        ("My Video".to_string(), "zh-Hans".to_string())
    );
    assert_eq!(
        parse_sub_name("My Video - zh-Hant.srt"),
        ("My Video".to_string(), "zh-Hant".to_string())
    );
    assert_eq!(
        parse_sub_name("My Video - es-419.srt"),
        ("My Video".to_string(), "es-419".to_string())
    );
    assert_eq!(
        parse_sub_name("My Video - pt-PT.srt"),
        ("My Video".to_string(), "pt-PT".to_string())
    );
}

#[test]
fn parse_sub_name_falls_back_to_und_for_unrecognizable_names() {
    assert_eq!(
        parse_sub_name("random_filename.srt"),
        ("random_filename".to_string(), "und".to_string())
    );
}

#[test]
fn variant_codes_still_resolve_to_correct_iso_and_display_name() {
    assert_eq!(to_iso639_2("ar-orig"), "ara");
    assert_eq!(lang_display_name("ar-orig"), "Arabic");
    assert_eq!(to_iso639_2("zh-Hans"), "zho");
    assert_eq!(lang_display_name("zh-Hant"), "Chinese");
}

#[test]
fn previously_unsupported_languages_now_resolve_via_isolang() {
    assert_eq!(to_iso639_2("sw"), "swa");
    assert_eq!(lang_display_name("sw"), "Swahili");
    assert_eq!(to_iso639_2("th"), "tha");
    assert_eq!(lang_display_name("th"), "Thai");
    assert_eq!(to_iso639_2("vi"), "vie");
    assert_eq!(lang_display_name("vi"), "Vietnamese");
    assert_eq!(to_iso639_2("uk"), "ukr");
    assert_eq!(lang_display_name("uk"), "Ukrainian");
}

#[test]
fn unrecognized_language_code_falls_back_to_itself() {
    assert_eq!(to_iso639_2("zzz-orig"), "zzz");
    assert_eq!(lang_display_name("totally-unknown"), "totally-unknown");
}

#[test]
fn parse_sub_name_takes_the_longest_title() {
    assert_eq!(
        parse_sub_name("A - b - en.srt"),
        ("A - b".to_string(), "en".to_string())
    );
    // an upper-case extension does not match the pattern
    assert_eq!(
        parse_sub_name("Talk - en.SRT"),
        ("Talk - en".to_string(), "und".to_string())
    );
}

#[test]
fn normalize_title_lowercases_and_collapses_symbols() {
    assert_eq!(normalize_title("  Hello, World!!  Part_2 "), "hello world part 2");
    assert_eq!(normalize_title("***"), "");
    assert_eq!(normalize_title("Ünïcode Ok"), "ünïcode ok");
}

#[test]
fn extract_id_reads_a_bracketed_youtube_id() {
    assert_eq!(extract_id("Song [dQw4w9WgXcQ]"), Some("dQw4w9WgXcQ".to_string()));
    assert_eq!(extract_id("Song [short]"), None);
    assert_eq!(extract_id("Song [abc123]"), Some("abc123".to_string()));
    assert_eq!(extract_id("Song [abcdefghijklm]"), None);
}

#[test]
fn parse_video_name_splits_title_and_id() {
    assert_eq!(
        parse_video_name("My Video [abc123XYZ_-].webm"),
        ("My Video".to_string(), Some("abc123XYZ_-".to_string()))
    );
    assert_eq!(parse_video_name("plain.mp4"), ("plain".to_string(), None));
    assert_eq!(
        parse_video_name("My Video [abc123].webm"),
        ("My Video".to_string(), Some("abc123".to_string()))
    );
    assert_eq!(parse_video_name("Clip [abc12].mp4"), ("Clip [abc12]".to_string(), None));
}

#[test]
fn select_files_keeps_media_files_sorted() {
    let names = strings(&["b.MP4", "a.webm", "notes.txt", "c.srt", "noext"]);
    assert_eq!(select_files(&names, true), strings(&["a.webm", "b.MP4"]));
    assert_eq!(select_files(&names, false), strings(&["c.srt"]));
}

#[test]
fn sort_names_orders_by_code_point() {
    let names = strings(&["b", "B", "a", "ab"]);
    assert_eq!(sort_names(&names), strings(&["B", "a", "ab", "b"]));
}

#[test]
fn videos_match_by_id_then_title_then_position() {
    let videos = strings(&[
        "Second Clip [abcdefgh].mp4",
        "first clip.mkv",
        "Zeta.webm",
        "notes.txt",
        "Omega.mov",
    ]);
    let subs = strings(&[
        "Video X [abcdefgh] - en.srt",
        "First Clip! - ar.srt",
        "First Clip! - en.vtt",
        "alpha - fr.srt",
        "readme.md",
    ]);
    let (jobs, unmatched) = match_videos_to_subs(&videos, &subs);
    assert_eq!(unmatched, strings(&["Zeta.webm"]));
    assert_eq!(jobs.len(), 3);

    assert_eq!(jobs[0].video_path, "Omega.mov");
    assert_eq!(jobs[0].match_stage, 3);
    assert_eq!(jobs[0].output_name, "Omega");
    assert_eq!(jobs[0].subs.len(), 1);
    assert_eq!(jobs[0].subs[0].path, "alpha - fr.srt");
    assert_eq!(jobs[0].subs[0].lang, "fr");

    assert_eq!(jobs[1].video_path, "Second Clip [abcdefgh].mp4");
    assert_eq!(jobs[1].match_stage, 1);
    assert_eq!(jobs[1].output_name, "Second Clip");
    assert_eq!(jobs[1].subs.len(), 1);
    assert_eq!(jobs[1].subs[0].path, "Video X [abcdefgh] - en.srt");

    assert_eq!(jobs[2].video_path, "first clip.mkv");
    assert_eq!(jobs[2].match_stage, 2);
    assert_eq!(jobs[2].subs.len(), 2);
    assert_eq!(jobs[2].subs[0].path, "First Clip! - ar.srt");
    assert_eq!(jobs[2].subs[0].lang, "ar");
    assert_eq!(jobs[2].subs[1].path, "First Clip! - en.vtt");
    assert_eq!(jobs[2].subs[1].lang, "en");

    assert_eq!(count_position_matches(&jobs), 1);
}

#[test]
fn no_videos_means_no_jobs() {
    let (jobs, unmatched) = match_videos_to_subs(&Vec::new(), &strings(&["a - en.srt"]));
    assert!(jobs.is_empty());
    assert!(unmatched.is_empty());
}

#[test]
fn subtitle_streams_are_the_non_blank_lines() {
    assert_eq!(count_subtitle_streams_in(""), 0);
    assert_eq!(count_subtitle_streams_in("2\n3\n"), 2);
    assert_eq!(count_subtitle_streams_in("2\n  \n\n3"), 2);
}

#[test]
fn map_args_select_every_input() {
    assert_eq!(ffmpeg_map_args(2), strings(&["-map", "0", "-map", "1", "-map", "2"]));
    assert_eq!(ffmpeg_map_args(0), strings(&["-map", "0"]));
}

#[test]
fn metadata_args_number_tracks_after_existing_ones() {
    let langs = strings(&["ar-orig", "xx"]);
    assert_eq!(
        ffmpeg_metadata_args(&langs, 2),
        strings(&[
            "-metadata:s:s:2",
            "language=ara",
            "-metadata:s:s:2",
            "title=Arabic",
            "-metadata:s:s:3",
            "language=xx",
            "-metadata:s:s:3",
            "title=xx",
        ])
    );
}

#[test]
fn merged_names() {
    assert_eq!(merged_file_name("Clip"), "Clip.mkv");
    assert_eq!(merged_folder_name("videos"), "videos merged");
}

#[test]
fn single_merge_never_writes_onto_its_source() {
    assert_eq!(merge_single_output_name("Clip [abcdefgh].mkv", true), "Clip.mkv");
    assert_eq!(merge_single_output_name("Clip.mkv", true), "Clip_merged.mkv");
    assert_eq!(merge_single_output_name("Clip.mkv", false), "Clip.mkv");
    assert_eq!(merge_single_output_name("What? Now.mp4", true), "What Now.mkv");
}

#[test]
fn sub_file_langs_read_the_codes() {
    assert_eq!(
        sub_file_langs(&strings(&["A - en.srt", "odd.srt"])),
        strings(&["en", "und"])
    );
}

#[test]
fn codes_that_are_not_two_letters_come_back_unchanged() {
    assert_eq!(to_iso639_2("deu-DE"), "deu");
    assert_eq!(lang_display_name("deu-DE"), "deu-DE");
    assert_eq!(to_iso639_2("e"), "e");
}
