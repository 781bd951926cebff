//! The rules around yt-dlp: which browser to take cookies from, the
//! arguments of each yt-dlp call, how its JSON answers are read, the names
//! of downloaded files, and the retry schedule.
use vstd::prelude::*;

use crate::json::{
    as_array, as_str, json_as_array, json_as_str, json_from_bytes,
    json_from_str, json_get, json_model, json_object_entries, member, member_str,
    parse_json_bytes, parse_json_text, Json,
};
use crate::text::{
    append_str, chars_eq, chars_of, contains_chars, contains_seq, has_prefix, hex,
    push_padded_hex, string_of, trim, trim_chars, zeros,
};
use crate::merger::{
    ascii_alnum, ascii_letter, ascii_lower, index_of, lang_code_ok, lang_tail_ok, last_sub_split,
    lemma_index_of_props, name_views, sort_names, sorted_names, sub_name_parts, sub_split_at,
};
use crate::types::{Playlist, PlaylistVideo, SubFormat, SubType};
use crate::util::{clean_filename, clean_name};

verus! {

// ── browser detection ────────────────────────────────────────────────────────

/// Supported browsers in priority order, each with the executables that
/// reveal it is installed.
pub open spec fn browser_priority() -> Seq<(Seq<char>, Seq<Seq<char>>)> {
    seq![
        ("firefox"@, seq!["firefox"@]),
        ("chrome"@, seq!["google-chrome"@, "google-chrome-stable"@, "chrome"@]),
        ("brave"@, seq!["brave-browser"@, "brave"@]),
        ("edge"@, seq!["microsoft-edge"@, "msedge"@]),
        ("chromium"@, seq!["chromium-browser"@, "chromium"@]),
        ("opera"@, seq!["opera"@]),
        ("vivaldi"@, seq!["vivaldi"@]),
    ]
}

pub open spec fn priority_views(v: Seq<(String, Vec<String>)>) -> Seq<(Seq<char>, Seq<Seq<char>>)> {
    v.map_values(|p: (String, Vec<String>)| (p.0@, name_views(p.1@)))
}

fn strings(v: Vec<&str>) -> (r: Vec<String>)
    ensures
        name_views(r@) == v@.map_values(|s: &str| s@),
{
    let mut r: Vec<String> = Vec::new();
    let mut i: usize = 0;
    while i < v.len()
        invariant
            i <= v@.len(),
            name_views(r@) == v@.take(i as int).map_values(|s: &str| s@),
        decreases v@.len() - i,
    {
        let ghost before = r@;
        let x = v[i].to_string();
        assert(x@ == v@[i as int]@);
        r.push(x);
        assert(name_views(r@) =~= name_views(before).push(v@[i as int]@));
        assert(v@.take(i + 1).map_values(|s: &str| s@) =~= v@.take(i as int).map_values(
            |s: &str| s@,
        ).push(v@[i as int]@));
        i += 1;
    }
    assert(v@.take(v@.len() as int) =~= v@);
    r
}

/// The supported browsers in priority order, with the executables to probe
/// for each (yt-dlp's browser name first).
pub fn browser_priority_list() -> (r: Vec<(String, Vec<String>)>)
    ensures
        priority_views(r@) == browser_priority(),
{
    let mut r: Vec<(String, Vec<String>)> = Vec::new();
    let e0 = strings(vec!["firefox"]);
    assert(name_views(e0@) =~= seq!["firefox"@]);
    r.push(("firefox".to_string(), e0));
    let e1 = strings(vec!["google-chrome", "google-chrome-stable", "chrome"]);
    assert(name_views(e1@) =~= seq!["google-chrome"@, "google-chrome-stable"@, "chrome"@]);
    r.push(("chrome".to_string(), e1));
    let e2 = strings(vec!["brave-browser", "brave"]);
    assert(name_views(e2@) =~= seq!["brave-browser"@, "brave"@]);
    r.push(("brave".to_string(), e2));
    let e3 = strings(vec!["microsoft-edge", "msedge"]);
    assert(name_views(e3@) =~= seq!["microsoft-edge"@, "msedge"@]);
    r.push(("edge".to_string(), e3));
    let e4 = strings(vec!["chromium-browser", "chromium"]);
    assert(name_views(e4@) =~= seq!["chromium-browser"@, "chromium"@]);
    r.push(("chromium".to_string(), e4));
    let e5 = strings(vec!["opera"]);
    assert(name_views(e5@) =~= seq!["opera"@]);
    r.push(("opera".to_string(), e5));
    let e6 = strings(vec!["vivaldi"]);
    assert(name_views(e6@) =~= seq!["vivaldi"@]);
    r.push(("vivaldi".to_string(), e6));
    assert(priority_views(r@) =~= browser_priority());
    r
}

/// The first browser (from entry `i` on) with an installed executable.
pub open spec fn first_installed(
    list: Seq<(Seq<char>, Seq<Seq<char>>)>,
    installed: Seq<Seq<char>>,
    i: int,
) -> Option<Seq<char>>
    decreases list.len() - i,
{
    if i < 0 || i >= list.len() {
        None
    } else if exists|k: int| 0 <= k < list[i].1.len() && installed.contains(#[trigger] list[i].1[k]) {
        Some(list[i].0)
    } else {
        first_installed(list, installed, i + 1)
    }
}

fn is_listed(installed: &Vec<String>, exe: &String) -> (r: bool)
    ensures
        r == name_views(installed@).contains(exe@),
{
    let e = chars_of(exe.as_str());
    let mut i: usize = 0;
    while i < installed.len()
        invariant
            i <= installed@.len(),
            e@ == exe@,
            forall|k: int| 0 <= k < i ==> name_views(installed@)[k] != exe@,
        decreases installed@.len() - i,
    {
        let x = chars_of(installed[i].as_str());
        if chars_eq(&x, &e) {
            assert(name_views(installed@)[i as int] == exe@);
            return true;
        }
        i += 1;
    }
    false
}

/// Returns the name of the highest-priority browser one of whose
/// executables is among `installed`, or `None`.
pub fn detect_browser(installed: &Vec<String>) -> (r: Option<String>)
    ensures
        match first_installed(browser_priority(), name_views(installed@), 0) {
            Some(b) => r matches Some(x) && x@ == b,
            None => r is None,
        },
{
    let list = browser_priority_list();
    let ghost l = browser_priority();
    let mut i: usize = 0;
    while i < list.len()
        invariant
            i <= list@.len(),
            priority_views(list@) == l,
            l == browser_priority(),
            first_installed(l, name_views(installed@), 0) == first_installed(l, name_views(installed@), i as int),
        decreases list@.len() - i,
    {
        let exes = &list[i].1;
        assert(l[i as int] == (list@[i as int].0@, name_views(exes@)));
        let mut j: usize = 0;
        let mut found = false;
        while j < exes.len()
            invariant
                j <= exes@.len(),
                l[i as int].1 == name_views(exes@),
                found == exists|k: int| 0 <= k < j && name_views(installed@).contains(
                    #[trigger] l[i as int].1[k],
                ),
            decreases exes@.len() - j,
        {
            if is_listed(installed, &exes[j]) {
                assert(name_views(installed@).contains(l[i as int].1[j as int]));
                found = true;
            }
            proof {
                if !found {
                    assert forall|k: int| 0 <= k < j + 1 implies !name_views(installed@).contains(
                        #[trigger] l[i as int].1[k],
                    ) by {}
                }
            }
            j += 1;
        }
        if found {
            return Some(list[i].0.clone());
        }
        i += 1;
    }
    None
}

/// Every executable to probe, in priority order.
pub fn browser_executables() -> (r: Vec<String>)
    ensures
        name_views(r@) == crate::text::flatten(
            browser_priority().map_values(|p: (Seq<char>, Seq<Seq<char>>)| p.1),
        ),
{
    let list = browser_priority_list();
    let ghost l = browser_priority();
    let ghost f = |p: (Seq<char>, Seq<Seq<char>>)| p.1;
    let mut r: Vec<String> = Vec::new();
    let mut i: usize = 0;
    assert(l.take(0).map_values(f) =~= Seq::<Seq<Seq<char>>>::empty());
    while i < list.len()
        invariant
            i <= list@.len(),
            priority_views(list@) == l,
            f == (|p: (Seq<char>, Seq<Seq<char>>)| p.1),
            name_views(r@) == crate::text::flatten(l.take(i as int).map_values(f)),
        decreases list@.len() - i,
    {
        let exes = &list[i].1;
        assert(l[i as int].1 == name_views(exes@));
        let ghost base = name_views(r@);
        let mut j: usize = 0;
        while j < exes.len()
            invariant
                j <= exes@.len(),
                name_views(r@) == base + name_views(exes@).take(j as int),
            decreases exes@.len() - j,
        {
            let ghost before = r@;
            r.push(exes[j].clone());
            assert(name_views(r@) =~= name_views(before).push(exes@[j as int]@));
            assert(name_views(exes@).take(j + 1) =~= name_views(exes@).take(j as int).push(
                exes@[j as int]@,
            ));
            assert(name_views(r@) =~= base + name_views(exes@).take(j + 1));
            j += 1;
        }
        proof {
            assert(name_views(exes@).take(exes@.len() as int) =~= name_views(exes@));
            assert(l.take(i + 1).map_values(f) =~= l.take(i as int).map_values(f).push(f(l[i as int])));
            crate::text::lemma_flatten_push(l.take(i as int).map_values(f), f(l[i as int]));
        }
        i += 1;
    }
    assert(l.take(list@.len() as int) =~= l);
    r
}

// ── temporary names ──────────────────────────────────────────────────────────

#[verifier::external_type_specification]
#[verifier::external_body]
pub struct ExSystemTime(std::time::SystemTime);

/// `SystemTime::now`: the current time; nothing is claimed of it.
#[verifier::external_body]
fn system_now() -> std::time::SystemTime {
    std::time::SystemTime::now()
}

/// `SystemTime::duration_since(UNIX_EPOCH)` in nanoseconds, `None` for a
/// time before the epoch; nothing is claimed of the value.
#[verifier::external_body]
fn nanos_since_epoch(t: &std::time::SystemTime) -> Option<u128> {
    t.duration_since(std::time::UNIX_EPOCH).ok().map(|d| d.as_nanos())
}

/// The temporary id of a moment: its nanoseconds since the epoch in
/// lowercase hexadecimal, zero-padded to 16 digits; `0` without a time.
pub open spec fn temp_id_of(nanos: Option<u128>) -> Seq<char> {
    match nanos {
        Some(n) => zeros(16 - hex(n as nat).len()) + hex(n as nat),
        None => "0"@,
    }
}

/// The temporary id for the given nanoseconds since the epoch.
pub fn temp_id_from(nanos: Option<u128>) -> (r: String)
    ensures
        r@ == temp_id_of(nanos),
{
    match nanos {
        Some(n) => {
            let mut v: Vec<char> = Vec::new();
            push_padded_hex(&mut v, n, 16);
            assert(v@ =~= temp_id_of(nanos));
            string_of(&v)
        },
        None => "0".to_string(),
    }
}

/// A temporary id made from the current time (see `temp_id_of`).
pub fn temp_id() -> (r: String)
    ensures
        exists|n: Option<u128>| r@ == temp_id_of(n),
{
    let now = system_now();
    let n = nanos_since_epoch(&now);
    temp_id_from(n)
}

/// The prefix of the temporary files of one download.
pub fn temp_prefix(lang: &str, id: &str) -> (r: String)
    ensures
        r@ == "temp_subs_"@ + lang@ + "_"@ + id@,
{
    let mut v: Vec<char> = Vec::new();
    append_str(&mut v, "temp_subs_");
    append_str(&mut v, lang);
    append_str(&mut v, "_");
    append_str(&mut v, id);
    string_of(&v)
}

/// The pattern that finds the json3 file a download wrote.
pub fn json3_glob_pattern(temp_prefix: &str) -> (r: String)
    ensures
        r@ == temp_prefix@ + "*.json3"@,
{
    let mut v = chars_of(temp_prefix);
    append_str(&mut v, "*.json3");
    string_of(&v)
}

// ── urls and titles ──────────────────────────────────────────────────────────

/// Whether a URL names a playlist: it holds `list=` or `/playlist`.
pub fn is_playlist_url(url: &str) -> (r: bool)
    ensures
        r == (contains_seq(url@, "list="@) || contains_seq(url@, "/playlist"@)),
{
    let u = chars_of(url);
    let a = chars_of("list=");
    let b = chars_of("/playlist");
    contains_chars(&u, &a) || contains_chars(&u, &b)
}

/// The title of a video from what `yt-dlp --get-title` printed when it
/// succeeded (cleaned for use as a file name), or `subtitles`.
pub open spec fn title_of_output(output: Option<Seq<char>>) -> Seq<char> {
    match output {
        Some(text) => clean_name(trim(text)),
        None => "subtitles"@,
    }
}

/// The video title from yt-dlp's output, `None` when yt-dlp could not run
/// or failed.
pub fn title_from_output(output: Option<&str>) -> (r: String)
    ensures
        r@ == title_of_output(match output {
            Some(t) => Some(t@),
            None => None,
        }),
{
    match output {
        Some(text) => {
            let v = chars_of(text);
            let t = trim_chars(&v);
            let ts = string_of(&t);
            clean_filename(ts.as_str())
        },
        None => "subtitles".to_string(),
    }
}

/// The file name of downloaded subtitles: `{title} - {lang}.vtt` or `.srt`.
pub open spec fn subtitle_file_name(title: Seq<char>, lang: Seq<char>, format: SubFormat) -> Seq<
    char,
> {
    title + " - "@ + lang + match format {
        SubFormat::Vtt => ".vtt"@,
        SubFormat::Srt => ".srt"@,
    }
}

/// The file name for subtitles of `title` in `lang`.
pub fn subtitle_filename(title: &str, lang: &str, format: SubFormat) -> (r: String)
    ensures
        r@ == subtitle_file_name(title@, lang@, format),
{
    let mut v = chars_of(title);
    append_str(&mut v, " - ");
    append_str(&mut v, lang);
    match format {
        SubFormat::Vtt => append_str(&mut v, ".vtt"),
        SubFormat::Srt => append_str(&mut v, ".srt"),
    }
    string_of(&v)
}

/// The folder that receives a playlist's subtitles: `{title} subs`.
pub fn playlist_folder_name(title: &str) -> (r: String)
    ensures
        r@ == title@ + " subs"@,
{
    let mut v = chars_of(title);
    append_str(&mut v, " subs");
    string_of(&v)
}

// ── yt-dlp arguments ─────────────────────────────────────────────────────────

/// The yt-dlp flag that selects manual or automatic subtitles.
pub open spec fn sub_flag(t: SubType) -> Seq<char> {
    match t {
        SubType::Manual => "--write-subs"@,
        SubType::Auto => "--write-auto-subs"@,
    }
}

/// The arguments of the yt-dlp call that downloads one language as json3.
pub open spec fn download_args(
    url: Seq<char>,
    language: Seq<char>,
    t: SubType,
    temp_prefix: Seq<char>,
    browser: Seq<char>,
) -> Seq<Seq<char>> {
    seq![
        "--skip-download"@,
        "--no-warnings"@,
        sub_flag(t),
        "--sub-langs"@,
        language,
        "--sub-format"@,
        "json3"@,
        "-o"@,
        temp_prefix + ".%(ext)s"@,
        "--no-check-certificates"@,
        "--sleep-requests"@,
        "3"@,
        "--extractor-retries"@,
        "5"@,
        "--retry-sleep"@,
        "exp=1:30"@,
        "--cookies-from-browser"@,
        browser,
        url,
    ]
}

/// The arguments for downloading `language` subtitles of `url` as json3.
pub fn yt_dlp_download_args(
    url: &str,
    language: &str,
    sub_type: SubType,
    temp_prefix: &str,
    browser: &str,
) -> (r: Vec<String>)
    ensures
        name_views(r@) == download_args(url@, language@, sub_type, temp_prefix@, browser@),
{
    let flag = match sub_type {
        SubType::Manual => "--write-subs",
        SubType::Auto => "--write-auto-subs",
    };
    let mut out_tpl = chars_of(temp_prefix);
    append_str(&mut out_tpl, ".%(ext)s");
    let r = vec![
        "--skip-download".to_string(),
        "--no-warnings".to_string(),
        flag.to_string(),
        "--sub-langs".to_string(),
        language.to_string(),
        "--sub-format".to_string(),
        "json3".to_string(),
        "-o".to_string(),
        string_of(&out_tpl),
        "--no-check-certificates".to_string(),
        "--sleep-requests".to_string(),
        "3".to_string(),
        "--extractor-retries".to_string(),
        "5".to_string(),
        "--retry-sleep".to_string(),
        "exp=1:30".to_string(),
        "--cookies-from-browser".to_string(),
        browser.to_string(),
        url.to_string(),
    ];
    assert(name_views(r@) =~= download_args(url@, language@, sub_type, temp_prefix@, browser@));
    r
}

/// The arguments for fetching a video's title.
pub fn yt_dlp_title_args(url: &str, browser: &str) -> (r: Vec<String>)
    ensures
        name_views(r@) == seq![
            "--get-title"@,
            "--no-check-certificates"@,
            "--sleep-requests"@,
            "2"@,
            "--cookies-from-browser"@,
            browser@,
            url@,
        ],
{
    let r = vec![
        "--get-title".to_string(),
        "--no-check-certificates".to_string(),
        "--sleep-requests".to_string(),
        "2".to_string(),
        "--cookies-from-browser".to_string(),
        browser.to_string(),
        url.to_string(),
    ];
    assert(name_views(r@) =~= seq![
        "--get-title"@,
        "--no-check-certificates"@,
        "--sleep-requests"@,
        "2"@,
        "--cookies-from-browser"@,
        browser@,
        url@,
    ]);
    r
}

/// The arguments for fetching a playlist's entries as JSON.
pub fn yt_dlp_playlist_args(url: &str, browser: &str) -> (r: Vec<String>)
    ensures
        name_views(r@) == seq![
            "--flat-playlist"@,
            "-J"@,
            "--no-check-certificates"@,
            "--cookies-from-browser"@,
            browser@,
            url@,
        ],
{
    let r = vec![
        "--flat-playlist".to_string(),
        "-J".to_string(),
        "--no-check-certificates".to_string(),
        "--cookies-from-browser".to_string(),
        browser.to_string(),
        url.to_string(),
    ];
    assert(name_views(r@) =~= seq![
        "--flat-playlist"@,
        "-J"@,
        "--no-check-certificates"@,
        "--cookies-from-browser"@,
        browser@,
        url@,
    ]);
    r
}

/// The arguments for fetching a video's metadata (its subtitle lists).
pub fn yt_dlp_info_args(url: &str, browser: &str) -> (r: Vec<String>)
    ensures
        name_views(r@) == seq![
            "-j"@,
            "--no-check-certificates"@,
            "--cookies-from-browser"@,
            browser@,
            url@,
        ],
{
    let r = vec![
        "-j".to_string(),
        "--no-check-certificates".to_string(),
        "--cookies-from-browser".to_string(),
        browser.to_string(),
        url.to_string(),
    ];
    assert(name_views(r@) =~= seq![
        "-j"@,
        "--no-check-certificates"@,
        "--cookies-from-browser"@,
        browser@,
        url@,
    ]);
    r
}

// ── retries ──────────────────────────────────────────────────────────────────

pub open spec fn pow2(n: nat) -> nat
    decreases n,
{
    if n == 0 {
        1
    } else {
        2 * pow2((n - 1) as nat)
    }
}

proof fn lemma_pow2_62()
    ensures
        pow2(62) == 0x4000_0000_0000_0000,
{
    reveal_with_fuel(pow2, 63);
}

proof fn lemma_pow2_mono(a: nat, b: nat)
    requires
        a <= b,
    ensures
        pow2(a) <= pow2(b),
    decreases b,
{
    if a < b {
        lemma_pow2_mono(a, (b - 1) as nat);
    }
}

/// Back-off is exponential: each retry waits twice as long as the one
/// before it.
pub proof fn lemma_retry_wait_doubles(attempt: nat)
    ensures
        pow2(attempt + 1) == 2 * pow2(attempt),
{
}

/// The wait before retry `attempt` (attempts count from 0; the first try
/// does not wait): `2^attempt` seconds, doubling with each retry.
pub fn retry_wait_secs(attempt: u32) -> (r: Option<u64>)
    requires
        attempt < 64,
    ensures
        attempt == 0 ==> r is None,
        attempt > 0 ==> r == Some(pow2(attempt as nat) as u64),
{
    if attempt == 0 {
        return None;
    }
    let mut w: u64 = 1;
    let mut k: u32 = 0;
    while k < attempt
        invariant
            k <= attempt < 64,
            w == pow2(k as nat),
        decreases attempt - k,
    {
        proof {
            lemma_pow2_mono(k as nat, 62);
            lemma_pow2_62();
        }
        w = w * 2;
        k += 1;
    }
    Some(w)
}

/// What follows one download attempt.
pub enum RetryStep {
    /// Stop, with this result.
    Finish(Result<String, String>),
    /// Wait this many seconds, then try again.
    WaitThenRetry(u64),
}

/// Attempt `attempt` (counting from 0, `max_retries` retries after the
/// first try) is the last one: it succeeded, or no retry is left.
pub open spec fn last_attempt(attempt: nat, max_retries: nat, succeeded: bool) -> bool {
    succeeded || attempt >= max_retries
}

/// Decides what follows attempt `attempt` with its outcome: a success, or
/// the failure of the last allowed attempt, ends the download with that
/// outcome; another failure waits `2^(attempt + 1)` seconds before the
/// next attempt.
pub fn retry_step(attempt: u32, max_retries: u32, outcome: Result<String, String>) -> (s: RetryStep)
    requires
        attempt <= max_retries,
        !last_attempt(attempt as nat, max_retries as nat, outcome is Ok) ==> attempt < 63,
    ensures
        last_attempt(attempt as nat, max_retries as nat, outcome is Ok) ==> s == RetryStep::Finish(
            outcome,
        ),
        !last_attempt(attempt as nat, max_retries as nat, outcome is Ok) ==> s
            == RetryStep::WaitThenRetry(pow2((attempt + 1) as nat) as u64),
{
    match outcome {
        Ok(p) => RetryStep::Finish(Ok(p)),
        Err(e) => {
            if attempt >= max_retries {
                RetryStep::Finish(Err(e))
            } else {
                match retry_wait_secs(attempt + 1) {
                    Some(w) => RetryStep::WaitThenRetry(w),
                    None => RetryStep::Finish(Err(e)),
                }
            }
        },
    }
}

/// The number of attempts made from attempt `a` on, when attempt `k`
/// succeeds exactly when `ok[k]`, each attempt deciding by `last_attempt`.
pub open spec fn attempts_from(ok: Seq<bool>, max_retries: nat, a: nat) -> nat
    decreases max_retries - a,
{
    if a >= max_retries || last_attempt(a, max_retries, ok[a as int]) {
        1
    } else {
        1 + attempts_from(ok, max_retries, a + 1)
    }
}

/// The first index from `a` on where `ok` holds, or `ok.len()`.
pub open spec fn first_success(ok: Seq<bool>, a: nat) -> nat
    decreases ok.len() - a,
{
    if a >= ok.len() {
        ok.len()
    } else if ok[a as int] {
        a
    } else {
        first_success(ok, a + 1)
    }
}

proof fn lemma_first_success_from(ok: Seq<bool>, a: nat)
    requires
        a <= ok.len(),
    ensures
        a <= first_success(ok, a) <= ok.len(),
    decreases ok.len() - a,
{
    if a < ok.len() && !ok[a as int] {
        lemma_first_success_from(ok, a + 1);
    }
}

/// The download runs until its first success, and at most
/// `max_retries + 1` times: `min(first success, max_retries) + 1` attempts.
pub proof fn lemma_attempts_until_first_success(ok: Seq<bool>, max_retries: nat, a: nat)
    requires
        a <= max_retries < ok.len(),
    ensures
        attempts_from(ok, max_retries, a) == (if first_success(ok, a) < max_retries {
            first_success(ok, a)
        } else {
            max_retries
        }) + 1 - a,
    decreases max_retries - a,
{
    lemma_first_success_from(ok, a);
    if a < max_retries && !ok[a as int] {
        lemma_attempts_until_first_success(ok, max_retries, a + 1);
    }
}

/// What the download gives when attempt `k` has outcome `outs[k]` and each
/// attempt from `a` on decides by `last_attempt`: the outcome of the
/// attempt that ends it.
pub open spec fn retry_result(outs: Seq<Result<String, String>>, max_retries: nat, a: nat) -> Result<
    String,
    String,
>
    decreases max_retries - a,
{
    if a >= max_retries || last_attempt(a, max_retries, outs[a as int] is Ok) {
        outs[a as int]
    } else {
        retry_result(outs, max_retries, a + 1)
    }
}

/// The success flags of outcomes.
pub open spec fn successes(outs: Seq<Result<String, String>>) -> Seq<bool> {
    outs.map_values(|o: Result<String, String>| o is Ok)
}

/// The download ends with the first success when one comes within the
/// allowed attempts, and otherwise with the last attempt's error.
pub proof fn lemma_retry_result(outs: Seq<Result<String, String>>, max_retries: nat, a: nat)
    requires
        a <= max_retries < outs.len(),
    ensures
        first_success(successes(outs), a) <= max_retries ==> retry_result(outs, max_retries, a)
            == outs[first_success(successes(outs), a) as int],
        first_success(successes(outs), a) > max_retries ==> retry_result(outs, max_retries, a)
            == outs[max_retries as int],
    decreases max_retries - a,
{
    let ok = successes(outs);
    assert(ok[a as int] == outs[a as int] is Ok);
    lemma_first_success_from(ok, a);
    if a < max_retries && !(outs[a as int] is Ok) {
        lemma_retry_result(outs, max_retries, a + 1);
    }
}

// ── playlists ────────────────────────────────────────────────────────────────

pub struct PlaylistView {
    pub title: Seq<char>,
    pub videos: Seq<(Seq<char>, Seq<char>)>,
}

pub open spec fn video_views(v: Seq<PlaylistVideo>) -> Seq<(Seq<char>, Seq<char>)> {
    v.map_values(|x: PlaylistVideo| (x.url@, x.title@))
}

/// The URL of a playlist entry, as given (`webpage_url`, or `url` when the
/// entry has no `webpage_url`): a full URL, or a bare video id.
pub open spec fn entry_raw_url(e: Json) -> Option<Seq<char>> {
    match member(e, "webpage_url"@) {
        Some(v) => as_str(v),
        None => member_str(e, "url"@),
    }
}

/// A bare video id becomes a watch URL; a URL starting with `http` stays.
pub open spec fn full_url(raw: Seq<char>) -> Seq<char> {
    if raw.len() >= 4 && raw.take(4) == "http"@ {
        raw
    } else {
        "https://www.youtube.com/watch?v="@ + raw
    }
}

pub open spec fn str_or(o: Option<Seq<char>>, d: Seq<char>) -> Seq<char> {
    match o {
        Some(s) => s,
        None => d,
    }
}

/// The videos of playlist entries: entries without a URL are skipped; the
/// others give their full URL and cleaned title (`video` when missing).
pub open spec fn playlist_videos(es: Seq<Json>) -> Seq<(Seq<char>, Seq<char>)>
    decreases es.len(),
{
    if es.len() == 0 {
        seq![]
    } else {
        let r = playlist_videos(es.drop_last());
        let e = es.last();
        match entry_raw_url(e) {
            Some(raw) => r.push((full_url(raw), clean_name(str_or(member_str(e, "title"@), "video"@)))),
            None => r,
        }
    }
}

/// A playlist document: its cleaned title (`playlist` when missing) and
/// the videos of its `entries` (none when missing).
pub open spec fn playlist_of(doc: Json) -> PlaylistView {
    PlaylistView {
        title: clean_name(str_or(member_str(doc, "title"@), "playlist"@)),
        videos: match member(doc, "entries"@) {
            Some(v) => match as_array(v) {
                Some(es) => playlist_videos(es),
                None => seq![],
            },
            None => seq![],
        },
    }
}

fn member_str_or(v: &serde_json::Value, key: &str, d: &str) -> (r: String)
    ensures
        r@ == str_or(member_str(json_model(*v), key@), d@),
{
    match json_get(v, key) {
        Some(x) => match json_as_str(x) {
            Some(s) => s.to_string(),
            None => d.to_string(),
        },
        None => d.to_string(),
    }
}

fn entry_url(e: &serde_json::Value) -> (r: Option<String>)
    ensures
        match entry_raw_url(json_model(*e)) {
            Some(u) => r matches Some(x) && x@ == u,
            None => r is None,
        },
{
    let found = match json_get(e, "webpage_url") {
        Some(x) => Some(x),
        None => json_get(e, "url"),
    };
    match found {
        Some(x) => match json_as_str(x) {
            Some(s) => Some(s.to_string()),
            None => None,
        },
        None => None,
    }
}

fn full_url_exec(raw: &str) -> (r: String)
    ensures
        r@ == full_url(raw@),
{
    let v = chars_of(raw);
    let h = chars_of("http");
    proof {
        reveal_strlit("http");
    }
    if has_prefix(&v, &h) {
        raw.to_string()
    } else {
        let mut u = chars_of("https://www.youtube.com/watch?v=");
        append_str(&mut u, raw);
        string_of(&u)
    }
}

/// The playlist described by a parsed `yt-dlp --flat-playlist -J` answer.
pub fn playlist_of_value(doc: &serde_json::Value) -> (r: Playlist)
    ensures
        r.title@ == playlist_of(json_model(*doc)).title,
        video_views(r.videos@) == playlist_of(json_model(*doc)).videos,
{
    let ghost d = json_model(*doc);
    let title_raw = member_str_or(doc, "title", "playlist");
    let title = clean_filename(title_raw.as_str());
    let mut videos: Vec<PlaylistVideo> = Vec::new();
    match json_get(doc, "entries") {
        Some(x) => match json_as_array(x) {
            Some(arr) => {
                let ghost es = match json_model(*x) {
                    Json::Array(xs) => xs,
                    _ => seq![],
                };
                let mut i: usize = 0;
                while i < arr.len()
                    invariant
                        i <= arr@.len(),
                        arr@.len() == es.len(),
                        forall|k: int| 0 <= k < es.len() ==> json_model(#[trigger] arr@[k]) == es[k],
                        video_views(videos@) == playlist_videos(es.take(i as int)),
                    decreases arr@.len() - i,
                {
                    let e = &arr[i];
                    assert(es.take(i + 1).drop_last() =~= es.take(i as int));
                    assert(es.take(i + 1).last() == json_model(*e));
                    let ghost before = videos@;
                    match entry_url(e) {
                        Some(raw) => {
                            let url = full_url_exec(raw.as_str());
                            let t = member_str_or(e, "title", "video");
                            let vt = clean_filename(t.as_str());
                            let pv = PlaylistVideo { url, title: vt };
                            videos.push(pv);
                            assert(video_views(videos@) =~= video_views(before).push(
                                (pv.url@, pv.title@),
                            ));
                        },
                        None => {},
                    }
                    i += 1;
                }
                assert(es.take(es.len() as int) =~= es);
            },
            None => {},
        },
        None => {},
    }
    assert(video_views(videos@) == playlist_of(d).videos) by {
        if member(d, "entries"@) is None || as_array(member(d, "entries"@)->0) is None {
            assert(video_views(videos@) =~= Seq::<(Seq<char>, Seq<char>)>::empty());
        }
    }
    Playlist { title, videos }
}

/// The playlist described by `yt-dlp --flat-playlist -J` output; an error
/// (the parser's message) when it is not JSON.
pub fn playlist_from_json(bytes: &[u8]) -> (r: Result<Playlist, String>)
    ensures
        match parse_json_bytes(bytes@) {
            Err(m) => r matches Err(e) && e@ == m,
            Ok(doc) => r matches Ok(p) && p.title@ == playlist_of(doc).title && video_views(
                p.videos@,
            ) == playlist_of(doc).videos,
        },
{
    match json_from_bytes(bytes) {
        Ok(v) => Ok(playlist_of_value(&v)),
        Err(m) => Err(m),
    }
}

// ── available languages ──────────────────────────────────────────────────────

/// The field of yt-dlp's metadata that lists one kind of subtitles.
pub open spec fn subs_field(t: SubType) -> Seq<char> {
    match t {
        SubType::Manual => "subtitles"@,
        SubType::Auto => "automatic_captions"@,
    }
}

/// A list of formats that offers json3.
pub open spec fn offers_json3(formats: Json) -> bool {
    match as_array(formats) {
        Some(fs) => exists|k: int| 0 <= k < fs.len() && member_str(#[trigger] fs[k], "ext"@) == Some("json3"@),
        None => false,
    }
}

/// The languages (object keys, in map order) whose formats offer json3.
pub open spec fn json3_langs(es: Seq<(Seq<char>, Json)>) -> Seq<Seq<char>>
    decreases es.len(),
{
    if es.len() == 0 {
        seq![]
    } else {
        let r = json3_langs(es.drop_last());
        if offers_json3(es.last().1) {
            r.push(es.last().0)
        } else {
            r
        }
    }
}

/// The languages of one kind of subtitles in yt-dlp's metadata that can be
/// downloaded as json3, sorted.
pub open spec fn available_of(doc: Json, t: SubType) -> Seq<Seq<char>> {
    match member(doc, subs_field(t)) {
        Some(Json::Object(es)) => sorted_names(json3_langs(es)),
        _ => seq![],
    }
}

fn offers_json3_exec(v: &serde_json::Value) -> (r: bool)
    ensures
        r == offers_json3(json_model(*v)),
{
    match json_as_array(v) {
        Some(arr) => {
            let ghost fs = match json_model(*v) {
                Json::Array(xs) => xs,
                _ => seq![],
            };
            let target = chars_of("json3");
            let mut i: usize = 0;
            while i < arr.len()
                invariant
                    i <= arr@.len(),
                    arr@.len() == fs.len(),
                    target@ == "json3"@,
                    as_array(json_model(*v)) == Some(fs),
                    forall|k: int| 0 <= k < fs.len() ==> json_model(#[trigger] arr@[k]) == fs[k],
                    forall|k: int| 0 <= k < i ==> member_str(#[trigger] fs[k], "ext"@) != Some("json3"@),
                decreases arr@.len() - i,
            {
                let f = &arr[i];
                assert(json_model(*f) == fs[i as int]);
                match json_get(f, "ext") {
                    Some(x) => match json_as_str(x) {
                        Some(s) => {
                            let sv = chars_of(s);
                            if chars_eq(&sv, &target) {
                                assert(member_str(fs[i as int], "ext"@) == Some("json3"@));
                                return true;
                            }
                        },
                        None => {},
                    },
                    None => {},
                }
                i += 1;
            }
            false
        },
        None => false,
    }
}

/// The languages of `sub_type` subtitles listed in parsed `yt-dlp -j`
/// output that can be downloaded as json3, sorted.
pub fn available_langs_in(doc: &serde_json::Value, sub_type: SubType) -> (r: Vec<String>)
    ensures
        name_views(r@) == available_of(json_model(*doc), sub_type),
{
    let field = match sub_type {
        SubType::Manual => "subtitles",
        SubType::Auto => "automatic_captions",
    };
    let obj = match json_get(doc, field) {
        Some(x) => x,
        None => {
            let v: Vec<String> = Vec::new();
            assert(name_views(v@) =~= available_of(json_model(*doc), sub_type));
            return v;
        },
    };
    let entries = match json_object_entries(obj) {
        Some(es) => es,
        None => {
            let v: Vec<String> = Vec::new();
            assert(name_views(v@) =~= available_of(json_model(*doc), sub_type));
            return v;
        },
    };
    let ghost es = match json_model(*obj) {
        Json::Object(es) => es,
        _ => seq![],
    };
    let mut langs: Vec<String> = Vec::new();
    let mut i: usize = 0;
    while i < entries.len()
        invariant
            i <= entries@.len(),
            entries@.len() == es.len(),
            forall|k: int|
                0 <= k < es.len() ==> (#[trigger] entries@[k]).0@ == es[k].0 && json_model(
                    *entries@[k].1,
                ) == es[k].1,
            name_views(langs@) == json3_langs(es.take(i as int)),
        decreases entries@.len() - i,
    {
        assert(es.take(i + 1).drop_last() =~= es.take(i as int));
        assert(es.take(i + 1).last() == es[i as int]);
        let ghost before = langs@;
        assert(entries@[i as int].0@ == es[i as int].0);
        if offers_json3_exec(entries[i].1) {
            langs.push(entries[i].0.clone());
            assert(name_views(langs@) =~= name_views(before).push(es[i as int].0));
        }
        i += 1;
    }
    assert(es.take(es.len() as int) =~= es);
    let sorted = sort_names(&langs);
    sorted
}

/// The languages of `sub_type` subtitles listed in `yt-dlp -j` output that
/// can be downloaded as json3, sorted; an error (the parser's message) when
/// the output is not JSON.
pub fn available_langs(stdout: &str, sub_type: SubType) -> (r: Result<Vec<String>, String>)
    ensures
        match parse_json_text(stdout@) {
            Err(m) => r matches Err(e) && e@ == m,
            Ok(doc) => r matches Ok(v) && name_views(v@) == available_of(doc, sub_type),
        },
{
    match json_from_str(stdout) {
        Ok(v) => Ok(available_langs_in(&v, sub_type)),
        Err(m) => Err(m),
    }
}

// ── names read back by the merger ────────────────────────────────────────────

proof fn lemma_index_of_first(s: Seq<char>, c: char, k: int)
    requires
        0 <= k < s.len(),
        s[k] == c,
        forall|j: int| 0 <= j < k ==> s[j] != c,
    ensures
        index_of(s, c) == Some(k),
    decreases k,
{
    if k > 0 {
        assert forall|j: int| 0 <= j < k - 1 implies s.drop_first()[j] != c by {
            assert(s.drop_first()[j] == s[j + 1]);
        }
        lemma_index_of_first(s.drop_first(), c, k - 1);
    }
}

proof fn lemma_lang_code_chars(l: Seq<char>)
    requires
        lang_code_ok(l),
    ensures
        l.len() >= 2,
        ascii_letter(l[0]),
        forall|i: int| 0 <= i < l.len() ==> ascii_alnum(#[trigger] l[i]) || l[i] == '-',
{
    lemma_index_of_props(l, '-');
}

proof fn lemma_last_sub_split_from(name: Seq<char>, q: int, p: int)
    requires
        1 <= p <= q,
        forall|r: int| p < r <= q ==> !#[trigger] sub_split_at(name, r),
    ensures
        last_sub_split(name, q) == last_sub_split(name, p),
    decreases q - p,
{
    if q > p {
        lemma_last_sub_split_from(name, q - 1, p);
    }
}

/// A subtitle file named by a download is read back by the merger as the
/// title and language code it was named with (for a non-empty title on one
/// line and a language code of the usual form).
pub proof fn lemma_subtitle_name_roundtrip(title: Seq<char>, lang: Seq<char>, format: SubFormat)
    requires
        title.len() > 0,
        forall|i: int| 0 <= i < title.len() ==> title[i] != '\n',
        lang_code_ok(lang),
    ensures
        sub_name_parts(subtitle_file_name(title, lang, format)) == (title, lang),
{
    reveal_strlit(" - ");
    reveal_strlit(".vtt");
    reveal_strlit(".srt");
    lemma_lang_code_chars(lang);
    let ext: Seq<char> = match format {
        SubFormat::Vtt => ".vtt"@,
        SubFormat::Srt => ".srt"@,
    };
    assert(ext.len() == 4 && ext[0] == '.');
    assert(forall|i: int| 1 <= i < 4 ==> ascii_lower(#[trigger] ext[i]));
    let name = subtitle_file_name(title, lang, format);
    let p = title.len() as int;
    let n = lang.len() as int;
    assert(name =~= title + seq![' ', '-', ' '] + lang + ext);
    assert(name.len() == p + 3 + n + 4);
    let b = name.skip(p + 3);
    assert(b =~= lang + ext);
    assert forall|j: int| 0 <= j < n implies b[j] != '.' by {
        assert(b[j] == lang[j]);
        assert(ascii_alnum(lang[j]) || lang[j] == '-');
    }
    assert(b[n] == '.');
    lemma_index_of_first(b, '.', n);
    assert(b.take(n) =~= lang);
    assert forall|i: int| n + 1 <= i < b.len() implies ascii_lower(#[trigger] b[i]) by {
        assert(b[i] == ext[i - n]);
    }
    assert(lang_tail_ok(b));
    assert forall|i: int| 0 <= i < p implies #[trigger] name[i] != '\n' by {
        assert(name[i] == title[i]);
    }
    assert(sub_split_at(name, p));
    let len = name.len() as int;
    assert forall|r: int| p < r <= len implies !#[trigger] sub_split_at(name, r) by {
        if r + 3 <= len {
            if r == p + 1 {
                assert(name[r] == '-');
            } else if r == p + 2 {
                assert(name[r + 1] == lang[0]);
            } else if r < p + 3 + n {
                assert(name[r] == lang[r - p - 3]);
                assert(ascii_alnum(lang[r - p - 3]) || lang[r - p - 3] == '-');
            } else {
                assert(name[r] == ext[r - p - 3 - n]);
                assert(ascii_lower(ext[r - p - 3 - n]) || ext[r - p - 3 - n] == '.');
            }
        }
    }
    lemma_last_sub_split_from(name, len, p);
    assert(name.take(p) =~= title);
}

// ── which languages are listed ───────────────────────────────────────────────

/// Some format in the list has `ext` equal to `json3`, wherever it stands.
pub open spec fn has_json3_format(formats: Json) -> bool {
    match formats {
        Json::Array(fs) => exists|i: int|
            0 <= i < fs.len() && member_str(#[trigger] fs[i], "ext"@) == Some("json3"@),
        _ => false,
    }
}

proof fn lemma_json3_langs_contains(es: Seq<(Seq<char>, Json)>, key: Seq<char>)
    ensures
        json3_langs(es).contains(key) <==> exists|m: int|
            0 <= m < es.len() && (#[trigger] es[m]).0 == key && has_json3_format(es[m].1),
    decreases es.len(),
{
    if es.len() > 0 {
        let dl = es.drop_last();
        lemma_json3_langs_contains(dl, key);
        let r = json3_langs(dl);
        let l = es.last();
        assert(offers_json3(l.1) == has_json3_format(l.1));
        if exists|m: int| 0 <= m < dl.len() && (#[trigger] dl[m]).0 == key && has_json3_format(
            dl[m].1,
        ) {
            let m = choose|m: int| 0 <= m < dl.len() && (#[trigger] dl[m]).0 == key
                && has_json3_format(dl[m].1);
            assert(es[m] == dl[m]);
        }
        if exists|m: int| 0 <= m < es.len() && (#[trigger] es[m]).0 == key && has_json3_format(
            es[m].1,
        ) {
            let m = choose|m: int| 0 <= m < es.len() && (#[trigger] es[m]).0 == key
                && has_json3_format(es[m].1);
            if m < dl.len() {
                assert(dl[m] == es[m]);
            }
        }
        if offers_json3(l.1) {
            let rr = r.push(l.0);
            if rr.contains(key) {
                let k = choose|k: int| 0 <= k < rr.len() && rr[k] == key;
                if k < r.len() {
                    assert(r[k] == key);
                }
            }
            if r.contains(key) {
                let k = choose|k: int| 0 <= k < r.len() && r[k] == key;
                assert(rr[k] == key);
            }
            if l.0 == key {
                assert(rr[r.len() as int] == key);
                assert(es[es.len() - 1] == l);
            }
        }
    }
}

/// A language is listed exactly when yt-dlp's metadata lists it under the
/// subtitles of the asked kind (`subtitles` for manual ones,
/// `automatic_captions` for automatic ones) with a `json3` format anywhere
/// in its format list.
pub proof fn lemma_available_exactly_json3(doc: Json, t: SubType, key: Seq<char>)
    ensures
        available_of(doc, t).contains(key) <==> (member(doc, subs_field(t)) matches Some(
            Json::Object(es),
        ) && exists|m: int|
            0 <= m < es.len() && (#[trigger] es[m]).0 == key && (es[m].1 matches Json::Array(fs)
                && exists|i: int|
                0 <= i < fs.len() && member_str(#[trigger] fs[i], "ext"@) == Some("json3"@))),
{
    match member(doc, subs_field(t)) {
        Some(Json::Object(es)) => {
            lemma_json3_langs_contains(es, key);
            crate::cli::lemma_sorted_names_items(json3_langs(es));
            if available_of(doc, t).contains(key) {
                let m = choose|m: int|
                    0 <= m < es.len() && (#[trigger] es[m]).0 == key && has_json3_format(es[m].1);
                assert(es[m].1 matches Json::Array(fs) && exists|i: int|
                    0 <= i < fs.len() && member_str(#[trigger] fs[i], "ext"@) == Some("json3"@));
            }
            if exists|m: int|
                0 <= m < es.len() && (#[trigger] es[m]).0 == key && (es[m].1 matches Json::Array(fs)
                    && exists|i: int|
                    0 <= i < fs.len() && member_str(#[trigger] fs[i], "ext"@) == Some("json3"@)) {
                let m = choose|m: int|
                    0 <= m < es.len() && (#[trigger] es[m]).0 == key && (es[m].1 matches Json::Array(fs)
                        && exists|i: int|
                        0 <= i < fs.len() && member_str(#[trigger] fs[i], "ext"@) == Some("json3"@));
                assert(has_json3_format(es[m].1));
            }
        },
        _ => {},
    }
}

} // verus!
