use subscrub::downloader::{
    available_langs, available_langs_in, playlist_of_value, browser_executables, browser_priority_list, detect_browser,
    is_playlist_url, json3_glob_pattern, playlist_folder_name, playlist_from_json,
    retry_step, retry_wait_secs, subtitle_filename, RetryStep, temp_id, temp_id_from, temp_prefix, title_from_output,
    yt_dlp_download_args, yt_dlp_info_args, yt_dlp_playlist_args, yt_dlp_title_args,
};
use subscrub::types::{SubFormat, SubType};

fn strings(v: &[&str]) -> Vec<String> {
    v.iter().map(|s| s.to_string()).collect()
}

#[test]
fn browsers_are_tried_in_priority_order() {
    let names: Vec<String> = browser_priority_list().into_iter().map(|(n, _)| n).collect();
    assert_eq!(
        names,
        strings(&["firefox", "chrome", "brave", "edge", "chromium", "opera", "vivaldi"])
    );
    assert_eq!(browser_executables().len(), 12);
}

#[test]
fn detect_browser_picks_the_highest_priority() {
    assert_eq!(
        detect_browser(&strings(&["chromium", "brave"])),
        Some("brave".to_string())
    );
    assert_eq!(
        detect_browser(&strings(&["google-chrome-stable", "firefox"])),
        Some("firefox".to_string())
    );
    assert_eq!(detect_browser(&strings(&["msedge"])), Some("edge".to_string()));
    assert_eq!(detect_browser(&strings(&["safari"])), None);
    assert_eq!(detect_browser(&Vec::new()), None);
}

#[test]
fn temp_ids_are_sixteen_hex_digits() {
    assert_eq!(temp_id_from(Some(255)), "00000000000000ff");
    assert_eq!(temp_id_from(None), "0");
    let id = temp_id();
    assert_eq!(id.len(), 16);
    assert!(id.chars().all(|c| c.is_ascii_hexdigit()));
}

#[test]
fn temp_names() {
    assert_eq!(temp_prefix("ar", "00ff"), "temp_subs_ar_00ff");
    assert_eq!(json3_glob_pattern("temp_subs_ar_00ff"), "temp_subs_ar_00ff*.json3");
}

#[test]
fn playlist_urls() {
    assert!(is_playlist_url("https://youtube.com/playlist?list=PL1"));
    assert!(is_playlist_url("https://youtube.com/watch?v=x&list=PL1"));
    assert!(!is_playlist_url("https://youtube.com/watch?v=x"));
}

#[test]
fn video_titles_are_cleaned() {
    assert_eq!(title_from_output(Some("  My: Video?\n")), "My Video");
    assert_eq!(title_from_output(Some("???")), "untitled");
    assert_eq!(title_from_output(None), "subtitles");
}

#[test]
fn subtitle_file_names() {
    assert_eq!(subtitle_filename("Talk", "ar", SubFormat::Vtt), "Talk - ar.vtt");
    assert_eq!(subtitle_filename("Talk", "en-orig", SubFormat::Srt), "Talk - en-orig.srt");
    assert_eq!(playlist_folder_name("Course"), "Course subs");
}

#[test]
fn yt_dlp_arguments() {
    assert_eq!(
        yt_dlp_download_args("URL", "ar", SubType::Auto, "temp_x", "firefox"),
        strings(&[
            "--skip-download",
            "--no-warnings",
            "--write-auto-subs",
            "--sub-langs",
            "ar",
            "--sub-format",
            "json3",
            "-o",
            "temp_x.%(ext)s",
            "--no-check-certificates",
            "--sleep-requests",
            "3",
            "--extractor-retries",
            "5",
            "--retry-sleep",
            "exp=1:30",
            "--cookies-from-browser",
            "firefox",
            "URL",
        ])
    );
    assert_eq!(
        yt_dlp_download_args("U", "en", SubType::Manual, "p", "b")[2],
        "--write-subs"
    );
    assert_eq!(
        yt_dlp_title_args("U", "b"),
        strings(&[
            "--get-title",
            "--no-check-certificates",
            "--sleep-requests",
            "2",
            "--cookies-from-browser",
            "b",
            "U",
        ])
    );
    assert_eq!(
        yt_dlp_playlist_args("U", "b"),
        strings(&["--flat-playlist", "-J", "--no-check-certificates", "--cookies-from-browser", "b", "U"])
    );
    assert_eq!(
        yt_dlp_info_args("U", "b"),
        strings(&["-j", "--no-check-certificates", "--cookies-from-browser", "b", "U"])
    );
}

#[test]
fn retries_back_off_exponentially() {
    assert_eq!(retry_wait_secs(0), None);
    assert_eq!(retry_wait_secs(1), Some(2));
    assert_eq!(retry_wait_secs(2), Some(4));
    assert_eq!(retry_wait_secs(3), Some(8));
    assert_eq!(retry_wait_secs(63), Some(1u64 << 63));
}

#[test]
fn playlists_are_read_from_yt_dlp_json() {
    let doc = br#"{"title":"My/List","entries":[{"url":"abc123","title":"A?"},{"webpage_url":"https://x/y","title":"B"},{"title":"no url"},{"url":"http://z"}]}"#;
    let p = playlist_from_json(doc).unwrap();
    assert_eq!(p.title, "MyList");
    let got: Vec<(String, String)> = p.videos.iter().map(|v| (v.url.clone(), v.title.clone())).collect();
    assert_eq!(
        got,
        vec![
            ("https://www.youtube.com/watch?v=abc123".to_string(), "A".to_string()),
            ("https://x/y".to_string(), "B".to_string()),
            ("http://z".to_string(), "video".to_string()),
        ]
    );
}

#[test]
fn playlist_defaults_and_errors() {
    let p = playlist_from_json(b"{}").unwrap();
    assert_eq!(p.title, "playlist");
    assert!(p.videos.is_empty());
    assert!(playlist_from_json(b"[1,").is_err());
}

#[test]
fn available_languages_offer_json3() {
    let doc = r#"{"subtitles":{"en":[{"ext":"vtt"},{"ext":"json3"}],"ar":[{"ext":"json3"}],"fr":[{"ext":"srv1"}]},"automatic_captions":{}}"#;
    assert_eq!(available_langs(doc, SubType::Manual), Ok(strings(&["ar", "en"])));
    assert_eq!(available_langs(doc, SubType::Auto), Ok(Vec::new()));
    assert_eq!(available_langs("{}", SubType::Auto), Ok(Vec::new()));
    assert!(available_langs("nope", SubType::Manual).is_err());
}

#[test]
fn retry_steps_stop_at_success_or_the_last_attempt() {
    assert!(matches!(
        retry_step(0, 3, Ok("a.json3".to_string())),
        RetryStep::Finish(Ok(ref p)) if p == "a.json3"
    ));
    assert!(matches!(retry_step(0, 3, Err("e".to_string())), RetryStep::WaitThenRetry(2)));
    assert!(matches!(retry_step(2, 3, Err("e".to_string())), RetryStep::WaitThenRetry(8)));
    assert!(matches!(
        retry_step(3, 3, Err("last".to_string())),
        RetryStep::Finish(Err(ref e)) if e == "last"
    ));
    assert!(matches!(retry_step(0, 0, Err("e".to_string())), RetryStep::Finish(Err(_))));
}

#[test]
fn parsed_documents_are_read_directly() {
    let doc: serde_json::Value =
        serde_json::from_str(r#"{"title":"T","entries":[{"url":"id1"}]}"#).unwrap();
    let p = playlist_of_value(&doc);
    assert_eq!(p.title, "T");
    assert_eq!(p.videos.len(), 1);
    assert_eq!(p.videos[0].url, "https://www.youtube.com/watch?v=id1");
    let info: serde_json::Value = serde_json::from_str(
        r#"{"automatic_captions":{"de":[{"ext":"json3"}],"ab":[{"ext":"json3"}]}}"#,
    )
    .unwrap();
    assert_eq!(available_langs_in(&info, SubType::Auto), strings(&["ab", "de"]));
}

#[test]
fn many_retries_are_allowed_when_an_early_attempt_succeeds() {
    assert!(matches!(retry_step(0, 1000, Ok("p".to_string())), RetryStep::Finish(Ok(_))));
    assert!(matches!(retry_step(62, 1000, Err("e".to_string())), RetryStep::WaitThenRetry(w) if w == 1u64 << 63));
}
