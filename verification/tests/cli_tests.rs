use subscrub::cli::{
    chosen_options, language_options, option_labels, parse_format, parse_languages,
    parse_sub_type, requested_languages, unavailable_languages, validate_download_args,
    DownloadArgs, DownloadMode,
};
use subscrub::types::{SubFormat, SubType};

fn args(url: bool, sub_type: bool, lang: bool, format: bool) -> DownloadArgs {
    DownloadArgs {
        url: if url { Some("https://youtube.com/watch?v=x".to_string()) } else { None },
        sub_type: if sub_type { Some("auto".to_string()) } else { None },
        lang: if lang { Some("en".to_string()) } else { None },
        format: if format { Some("srt".to_string()) } else { None },
        output: None,
        browser: None,
    }
}

fn strings(v: &[&str]) -> Vec<String> {
    v.iter().map(|s| s.to_string()).collect()
}

#[test]
fn no_flags_means_interactive() {
    assert!(matches!(
        validate_download_args(&args(false, false, false, false)),
        Ok(DownloadMode::Interactive)
    ));
}

#[test]
fn all_flags_means_flags_mode() {
    assert!(matches!(
        validate_download_args(&args(true, true, true, true)),
        Ok(DownloadMode::Flags)
    ));
}

#[test]
fn partial_flags_report_exactly_whats_missing() {
    let missing = validate_download_args(&args(true, false, true, false)).unwrap_err();
    assert_eq!(missing, vec!["--type", "--format"]);
}

#[test]
fn a_single_flag_reports_the_other_three() {
    let missing = validate_download_args(&args(false, false, false, true)).unwrap_err();
    assert_eq!(missing, vec!["--url", "--type", "--lang"]);
}

#[test]
fn default_download_args_run_interactively() {
    let a = DownloadArgs::default();
    assert!(a.output.is_none() && a.browser.is_none());
    assert!(matches!(validate_download_args(&a), Ok(DownloadMode::Interactive)));
}

#[test]
fn output_and_browser_do_not_count_as_required_flags() {
    let mut a = args(false, false, false, false);
    a.output = Some("out".to_string());
    a.browser = Some("firefox".to_string());
    assert!(matches!(validate_download_args(&a), Ok(DownloadMode::Interactive)));
}

#[test]
fn sub_type_is_manual_only_for_manual() {
    assert_eq!(parse_sub_type("manual"), SubType::Manual);
    assert_eq!(parse_sub_type("auto"), SubType::Auto);
    assert_eq!(parse_sub_type("Manual"), SubType::Auto);
}

#[test]
fn format_is_vtt_only_for_vtt() {
    assert_eq!(parse_format("vtt"), SubFormat::Vtt);
    assert_eq!(parse_format("srt"), SubFormat::Srt);
    assert_eq!(parse_format("VTT"), SubFormat::Srt);
}

#[test]
fn requested_languages_are_split_on_commas_and_trimmed() {
    assert_eq!(requested_languages(" ar ,,en"), strings(&["ar", "", "en"]));
    assert_eq!(requested_languages(""), strings(&[""]));
    assert_eq!(requested_languages("fr"), strings(&["fr"]));
}

#[test]
fn parse_languages_gives_indices_in_request_order() {
    let langs = strings(&["en", "ar", "fr"]);
    assert_eq!(parse_languages("fr, xx ,en", &langs), Ok(vec![2, 0]));
}

#[test]
fn parse_languages_keeps_repeated_requests() {
    let langs = strings(&["en", "ar"]);
    assert_eq!(parse_languages("ar,ar", &langs), Ok(vec![1, 1]));
}

#[test]
fn parse_languages_fails_when_nothing_is_available() {
    let langs = strings(&["en"]);
    assert_eq!(
        parse_languages("de,it", &langs),
        Err("None of the requested languages are available.".to_string())
    );
    assert!(parse_languages("en", &[]).is_err());
}

#[test]
fn unavailable_languages_are_listed_in_request_order() {
    let langs = strings(&["en", "ar"]);
    assert_eq!(unavailable_languages("de, ar ,it", &langs), strings(&["de", "it"]));
    assert!(unavailable_languages("en,ar", &langs).is_empty());
}

#[test]
fn language_options_pair_manual_and_auto_variants() {
    let manual = strings(&["en", "ar"]);
    let auto = strings(&["fr", "ar", "en"]);
    let opts = language_options(&manual, &auto);
    assert_eq!(
        opts,
        vec![
            ("ar".to_string(), SubType::Manual),
            ("ar".to_string(), SubType::Auto),
            ("en".to_string(), SubType::Manual),
            ("en".to_string(), SubType::Auto),
            ("fr".to_string(), SubType::Auto),
        ]
    );
}

#[test]
fn language_options_list_each_code_once() {
    let manual = strings(&["de", "de"]);
    let auto: Vec<String> = Vec::new();
    assert_eq!(language_options(&manual, &auto), vec![("de".to_string(), SubType::Manual)]);
    assert!(language_options(&[], &[]).is_empty());
}

#[test]
fn option_labels_show_the_type() {
    let opts = vec![("ar".to_string(), SubType::Manual), ("en".to_string(), SubType::Auto)];
    assert_eq!(option_labels(&opts), strings(&["ar  ·  manual", "en  ·  auto"]));
}

#[test]
fn chosen_labels_map_back_to_their_options() {
    let opts = vec![
        ("ar".to_string(), SubType::Manual),
        ("ar".to_string(), SubType::Auto),
        ("en".to_string(), SubType::Auto),
    ];
    let labels = option_labels(&opts);
    let chosen = strings(&["en  ·  auto", "ar  ·  manual", "zz  ·  auto"]);
    assert_eq!(
        chosen_options(&opts, &labels, &chosen),
        vec![("en".to_string(), SubType::Auto), ("ar".to_string(), SubType::Manual)]
    );
}
