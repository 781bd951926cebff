//! The shapes of the command line, and the decisions taken on them: which
//! mode a `download` call runs in, how flag values are read, how requested
//! language codes are found among the available ones, and which language
//! choices are offered.
use vstd::prelude::*;

use crate::merger::{name_views, sort_names, sorted_names};
use crate::text::{chars_eq, chars_of, string_of, trim, trim_chars};
use crate::types::{SubFormat, SubType};

verus! {

// ── command-line shapes ──────────────────────────────────────────────────────

/// What the bare interactive session was asked to do.
#[derive(Clone, Copy)]
pub enum Task {
    Download,
    Merge,
}

/// Which kind of merge the interactive session was asked for.
#[derive(Clone, Copy)]
pub enum MergeType {
    Folder,
    Single,
}

/// The whole command line: a subcommand, or none for the guided session.
pub struct Cli {
    pub command: Option<Commands>,
}

/// The subcommands.
pub enum Commands {
    /// Download subtitles from a video or playlist
    Download(DownloadArgs),
    /// List available subtitle languages (manual + auto) for a URL
    Languages(LanguagesArgs),
    /// Merge subtitles into videos using ffmpeg
    Merge { mode: Option<MergeCommand> },
}

/// The flags of `download`.
pub struct DownloadArgs {
    /// YouTube video or playlist URL
    pub url: Option<String>,
    /// Subtitle type: manual or auto
    pub sub_type: Option<String>,
    /// Language codes, comma-separated (e.g. ar,en,fr)
    pub lang: Option<String>,
    /// Output format: vtt or srt
    pub format: Option<String>,
    /// Output folder — where downloaded subtitles are saved
    pub output: Option<String>,
    /// Browser for cookie extraction — auto-detected if omitted
    pub browser: Option<String>,
}

impl Default for DownloadArgs {
    fn default() -> (r: Self)
        ensures
            r.url is None,
            r.sub_type is None,
            r.lang is None,
            r.format is None,
            r.output is None,
            r.browser is None,
    {
        DownloadArgs {
            url: None,
            sub_type: None,
            lang: None,
            format: None,
            output: None,
            browser: None,
        }
    }
}

/// The flags of `languages`.
pub struct LanguagesArgs {
    /// YouTube video or playlist URL
    pub url: String,
    /// Browser for cookie extraction — auto-detected if omitted
    pub browser: Option<String>,
}

/// The two kinds of `merge`.
pub enum MergeCommand {
    /// Match and merge an entire folder of videos with a folder of subtitles
    Folder(FolderMergeArgs),
    /// Merge one video with one or more subtitle files
    Single(SingleMergeArgs),
}

/// The flags of `merge folder`.
pub struct FolderMergeArgs {
    /// Videos folder path
    pub videos_dir: String,
    /// Subtitles folder path
    pub subs_dir: String,
    /// Output folder — where merged videos are saved
    pub output: Option<String>,
}

/// The flags of `merge single`.
pub struct SingleMergeArgs {
    /// Video file path
    pub video: String,
    /// Subtitle file paths (at least one)
    pub sub: Vec<String>,
    /// Output folder — defaults to alongside the source video
    pub output: Option<String>,
}

// ── download flag validation ─────────────────────────────────────────────────

/// How a `download` call runs: guided, or straight from its flags.
#[derive(Clone, Copy, Debug)]
pub enum DownloadMode {
    Interactive,
    Flags,
}

/// At least one of the four required flags was given.
pub open spec fn any_required_flag(a: DownloadArgs) -> bool {
    a.url is Some || a.sub_type is Some || a.lang is Some || a.format is Some
}

/// All four required flags were given.
pub open spec fn all_required_flags(a: DownloadArgs) -> bool {
    a.url is Some && a.sub_type is Some && a.lang is Some && a.format is Some
}

/// The names of the required flags that are missing, in flag order.
pub open spec fn missing_flags(a: DownloadArgs) -> Seq<Seq<char>> {
    (if a.url is None { seq!["--url"@] } else { seq![] }) + (if a.sub_type is None {
        seq!["--type"@]
    } else {
        seq![]
    }) + (if a.lang is None { seq!["--lang"@] } else { seq![] }) + (if a.format is None {
        seq!["--format"@]
    } else {
        seq![]
    })
}

pub open spec fn str_views(v: Seq<&str>) -> Seq<Seq<char>> {
    v.map_values(|s: &str| s@)
}

/// Decides whether a `download` invocation runs interactively (no required
/// flag given) or from its flags (all of them given); otherwise reports the
/// missing flags, in the order `--url`, `--type`, `--lang`, `--format`.
pub fn validate_download_args(args: &DownloadArgs) -> (r: Result<DownloadMode, Vec<&'static str>>)
    ensures
        (r matches Ok(DownloadMode::Interactive)) <==> !any_required_flag(*args),
        (r matches Ok(DownloadMode::Flags)) <==> all_required_flags(*args),
        r is Err <==> any_required_flag(*args) && !all_required_flags(*args),
        r matches Err(m) ==> str_views(m@) == missing_flags(*args) && m@.len() > 0,
{
    let any = args.url.is_some() || args.sub_type.is_some() || args.lang.is_some()
        || args.format.is_some();
    let all = args.url.is_some() && args.sub_type.is_some() && args.lang.is_some()
        && args.format.is_some();
    if !any {
        Ok(DownloadMode::Interactive)
    } else if all {
        Ok(DownloadMode::Flags)
    } else {
        let mut missing: Vec<&'static str> = Vec::new();
        if args.url.is_none() {
            missing.push("--url");
        }
        let ghost m1 = str_views(missing@);
        if args.sub_type.is_none() {
            missing.push("--type");
        }
        let ghost m2 = str_views(missing@);
        if args.lang.is_none() {
            missing.push("--lang");
        }
        let ghost m3 = str_views(missing@);
        if args.format.is_none() {
            missing.push("--format");
        }
        proof {
            let a = *args;
            assert(m1 =~= (if a.url is None { seq!["--url"@] } else { seq![] }));
            assert(m2 =~= m1 + (if a.sub_type is None { seq!["--type"@] } else { seq![] }));
            assert(m3 =~= m2 + (if a.lang is None { seq!["--lang"@] } else { seq![] }));
            assert(str_views(missing@) =~= m3 + (if a.format is None {
                seq!["--format"@]
            } else {
                seq![]
            }));
            assert(str_views(missing@) =~= missing_flags(a));
        }
        Err(missing)
    }
}

// ── flag values ──────────────────────────────────────────────────────────────

/// The subtitle type named by `--type`: `manual`, anything else is `auto`.
pub fn parse_sub_type(s: &str) -> (r: SubType)
    ensures
        r == (if s@ == "manual"@ {
            SubType::Manual
        } else {
            SubType::Auto
        }),
{
    let v = chars_of(s);
    let m = chars_of("manual");
    if chars_eq(&v, &m) {
        SubType::Manual
    } else {
        SubType::Auto
    }
}

/// The output format named by `--format`: `vtt`, anything else is `srt`.
pub fn parse_format(s: &str) -> (r: SubFormat)
    ensures
        r == (if s@ == "vtt"@ {
            SubFormat::Vtt
        } else {
            SubFormat::Srt
        }),
{
    let v = chars_of(s);
    let m = chars_of("vtt");
    if chars_eq(&v, &m) {
        SubFormat::Vtt
    } else {
        SubFormat::Srt
    }
}

// ── requested languages ──────────────────────────────────────────────────────

/// The pieces of `s` between commas, as `str::split(',')` gives them: one
/// more piece than there are commas, empty pieces included.
pub open spec fn split_commas(s: Seq<char>) -> Seq<Seq<char>>
    decreases s.len(),
{
    if s.len() == 0 {
        seq![seq![]]
    } else {
        let r = split_commas(s.drop_last());
        if s.last() == ',' {
            r.push(seq![])
        } else {
            r.drop_last().push(r.last().push(s.last()))
        }
    }
}

/// The language codes requested by a `--lang` value: its comma-separated
/// pieces, each trimmed.
pub open spec fn requested_codes(arg: Seq<char>) -> Seq<Seq<char>> {
    split_commas(arg).map_values(|p: Seq<char>| trim(p))
}

proof fn lemma_split_commas_len(s: Seq<char>)
    ensures
        split_commas(s).len() >= 1,
    decreases s.len(),
{
    if s.len() > 0 {
        lemma_split_commas_len(s.drop_last());
    }
}

/// The trimmed comma-separated pieces of a `--lang` value.
pub fn requested_languages(arg: &str) -> (r: Vec<String>)
    ensures
        name_views(r@) == requested_codes(arg@),
{
    let chars = chars_of(arg);
    let mut pieces: Vec<String> = Vec::new();
    let mut cur: Vec<char> = Vec::new();
    let ghost mut done: Seq<Seq<char>> = seq![];
    let mut i: usize = 0;
    while i < chars.len()
        invariant
            i <= chars@.len(),
            chars@ == arg@,
            split_commas(chars@.take(i as int)) == done.push(cur@),
            name_views(pieces@) == done.map_values(|p: Seq<char>| trim(p)),
        decreases chars@.len() - i,
    {
        let c = chars[i];
        assert(chars@.take(i + 1).drop_last() =~= chars@.take(i as int));
        assert(chars@.take(i + 1).last() == c);
        if c == ',' {
            let t = trim_chars(&cur);
            let ghost before = pieces@;
            pieces.push(string_of(&t));
            proof {
                assert(name_views(pieces@) =~= name_views(before).push(trim(cur@)));
                assert(done.push(cur@).map_values(|p: Seq<char>| trim(p)) =~= done.map_values(
                    |p: Seq<char>| trim(p),
                ).push(trim(cur@)));
                done = done.push(cur@);
            }
            cur = Vec::new();
            assert(split_commas(chars@.take(i + 1)) =~= done.push(cur@));
        } else {
            let ghost old_cur = cur@;
            cur.push(c);
            assert(done.push(old_cur).drop_last() =~= done);
            assert(split_commas(chars@.take(i + 1)) =~= done.push(cur@));
        }
        i += 1;
    }
    assert(chars@.take(chars@.len() as int) =~= chars@);
    let t = trim_chars(&cur);
    let ghost before = pieces@;
    pieces.push(string_of(&t));
    assert(name_views(pieces@) =~= name_views(before).push(trim(cur@)));
    assert(done.push(cur@).map_values(|p: Seq<char>| trim(p)) =~= done.map_values(
        |p: Seq<char>| trim(p),
    ).push(trim(cur@)));
    pieces
}

/// The first index from `i` on at which `items` holds `x`.
pub open spec fn position_from(items: Seq<Seq<char>>, x: Seq<char>, i: int) -> Option<int>
    decreases items.len() - i,
{
    if i < 0 || i >= items.len() {
        None
    } else if items[i] == x {
        Some(i)
    } else {
        position_from(items, x, i + 1)
    }
}

/// The first index at which `items` holds `x`.
pub open spec fn position_of(items: Seq<Seq<char>>, x: Seq<char>) -> Option<int> {
    position_from(items, x, 0)
}

/// For each wanted item found in `items`, in order, its first index there.
pub open spec fn positions(items: Seq<Seq<char>>, wanted: Seq<Seq<char>>) -> Seq<int>
    decreases wanted.len(),
{
    if wanted.len() == 0 {
        seq![]
    } else {
        let r = positions(items, wanted.drop_last());
        match position_of(items, wanted.last()) {
            Some(p) => r.push(p),
            None => r,
        }
    }
}

/// The wanted items not found in `items`, in order.
pub open spec fn not_found(items: Seq<Seq<char>>, wanted: Seq<Seq<char>>) -> Seq<Seq<char>>
    decreases wanted.len(),
{
    if wanted.len() == 0 {
        seq![]
    } else {
        let r = not_found(items, wanted.drop_last());
        match position_of(items, wanted.last()) {
            Some(_) => r,
            None => r.push(wanted.last()),
        }
    }
}

fn position_in(items: &[String], x: &String) -> (r: Option<usize>)
    ensures
        r matches Some(k) ==> position_of(name_views(items@), x@) == Some(k as int) && k
            < items@.len(),
        r is None ==> position_of(name_views(items@), x@) is None,
{
    let ghost iv = name_views(items@);
    let xv = chars_of(x.as_str());
    let mut i: usize = 0;
    while i < items.len()
        invariant
            i <= items@.len(),
            iv == name_views(items@),
            xv@ == x@,
            position_of(iv, x@) == position_from(iv, x@, i as int),
        decreases items@.len() - i,
    {
        let v = chars_of(items[i].as_str());
        assert(iv[i as int] == items@[i as int]@);
        if chars_eq(&v, &xv) {
            return Some(i);
        }
        i += 1;
    }
    None
}

/// For each wanted item found in `items`, in order, its first index there
/// (see `positions`).
pub fn positions_in(items: &[String], wanted: &Vec<String>) -> (r: Vec<usize>)
    ensures
        r@.map_values(|k: usize| k as int) == positions(name_views(items@), name_views(wanted@)),
        forall|k: int| 0 <= k < r@.len() ==> r@[k] < items@.len(),
{
    let ghost iv = name_views(items@);
    let ghost wv = name_views(wanted@);
    let mut r: Vec<usize> = Vec::new();
    let mut i: usize = 0;
    while i < wanted.len()
        invariant
            i <= wanted@.len(),
            iv == name_views(items@),
            wv == name_views(wanted@),
            r@.map_values(|k: usize| k as int) == positions(iv, wv.take(i as int)),
            forall|k: int| 0 <= k < r@.len() ==> r@[k] < items@.len(),
        decreases wanted@.len() - i,
    {
        assert(wv.take(i + 1).drop_last() =~= wv.take(i as int));
        assert(wv.take(i + 1).last() == wanted@[i as int]@);
        let ghost before = r@;
        match position_in(items, &wanted[i]) {
            Some(p) => {
                r.push(p);
                assert(r@.map_values(|k: usize| k as int) =~= before.map_values(
                    |k: usize| k as int,
                ).push(p as int));
            },
            None => {},
        }
        i += 1;
    }
    assert(wv.take(wanted@.len() as int) =~= wv);
    r
}

/// The requested language codes of a `--lang` value that are not among
/// `languages`, in request order.
pub fn unavailable_languages(arg: &str, languages: &[String]) -> (r: Vec<String>)
    ensures
        name_views(r@) == not_found(name_views(languages@), requested_codes(arg@)),
{
    let requested = requested_languages(arg);
    let ghost wv = name_views(requested@);
    let mut r: Vec<String> = Vec::new();
    let mut i: usize = 0;
    while i < requested.len()
        invariant
            i <= requested@.len(),
            wv == name_views(requested@),
            name_views(r@) == not_found(name_views(languages@), wv.take(i as int)),
        decreases requested@.len() - i,
    {
        assert(wv.take(i + 1).drop_last() =~= wv.take(i as int));
        assert(wv.take(i + 1).last() == requested@[i as int]@);
        let ghost before = r@;
        match position_in(languages, &requested[i]) {
            Some(_) => {},
            None => {
                r.push(requested[i].clone());
                assert(name_views(r@) =~= name_views(before).push(requested@[i as int]@));
            },
        }
        i += 1;
    }
    assert(wv.take(requested@.len() as int) =~= wv);
    r
}

/// Every requested language is either resolved to an index or reported as
/// unavailable, never both: the two lists together account for each request
/// once.
pub proof fn lemma_requests_resolved_or_reported(items: Seq<Seq<char>>, wanted: Seq<Seq<char>>)
    ensures
        positions(items, wanted).len() + not_found(items, wanted).len() == wanted.len(),
    decreases wanted.len(),
{
    if wanted.len() > 0 {
        lemma_requests_resolved_or_reported(items, wanted.drop_last());
    }
}

/// Resolves the comma-separated language codes of a `--lang` value against
/// the available `languages`: the index of each requested code that is
/// available, in request order, or an error when none is.
pub fn parse_languages(arg: &str, languages: &[String]) -> (r: Result<Vec<usize>, String>)
    ensures
        match r {
            Ok(v) => v@.map_values(|k: usize| k as int) == positions(
                name_views(languages@),
                requested_codes(arg@),
            ) && v@.len() > 0 && forall|k: int| 0 <= k < v@.len() ==> v@[k] < languages@.len(),
            Err(e) => positions(name_views(languages@), requested_codes(arg@)).len() == 0 && e@
                == "None of the requested languages are available."@,
        },
{
    let requested = requested_languages(arg);
    let indices = positions_in(languages, &requested);
    if indices.len() == 0 {
        return Err("None of the requested languages are available.".to_string());
    }
    Ok(indices)
}

proof fn lemma_position_from(items: Seq<Seq<char>>, x: Seq<char>, i: int)
    requires
        0 <= i,
    ensures
        position_from(items, x, i) is Some <==> exists|k: int|
            i <= k < items.len() && #[trigger] items[k] == x,
        position_from(items, x, i) matches Some(p) ==> i <= p < items.len() && items[p] == x,
    decreases items.len() - i,
{
    if i < items.len() {
        lemma_position_from(items, x, i + 1);
        if items[i] != x {
            assert forall|k: int| i <= k < items.len() && #[trigger] items[k] == x implies i + 1
                <= k by {}
        }
    }
}

/// `x` is found in `items` exactly when `items` holds it.
pub proof fn lemma_position_of_contains(items: Seq<Seq<char>>, x: Seq<char>)
    ensures
        position_of(items, x) is Some <==> items.contains(x),
        position_of(items, x) matches Some(p) ==> 0 <= p < items.len() && items[p] == x,
{
    lemma_position_from(items, x, 0);
}

// ── language choices ─────────────────────────────────────────────────────────

/// `s` with each run of equal neighbours reduced to its first item
/// (`Vec::dedup`).
pub open spec fn dedup_adjacent(s: Seq<Seq<char>>) -> Seq<Seq<char>>
    decreases s.len(),
{
    if s.len() == 0 {
        seq![]
    } else {
        let r = dedup_adjacent(s.drop_last());
        if r.len() > 0 && r.last() == s.last() {
            r
        } else {
            r.push(s.last())
        }
    }
}

/// The language codes offered: those of both lists, sorted, each once.
pub open spec fn option_codes(manual: Seq<Seq<char>>, auto: Seq<Seq<char>>) -> Seq<Seq<char>> {
    dedup_adjacent(sorted_names(manual + auto))
}

/// For each code, its manual variant when `manual` has it, then its
/// automatic variant when `auto` has it.
pub open spec fn options_for(
    codes: Seq<Seq<char>>,
    manual: Seq<Seq<char>>,
    auto: Seq<Seq<char>>,
) -> Seq<(Seq<char>, SubType)>
    decreases codes.len(),
{
    if codes.len() == 0 {
        seq![]
    } else {
        let r = options_for(codes.drop_last(), manual, auto);
        let c = codes.last();
        let r1 = if manual.contains(c) {
            r.push((c, SubType::Manual))
        } else {
            r
        };
        if auto.contains(c) {
            r1.push((c, SubType::Auto))
        } else {
            r1
        }
    }
}

/// The choices offered for manual languages `manual` and automatic ones
/// `auto`.
pub open spec fn language_options_of(manual: Seq<Seq<char>>, auto: Seq<Seq<char>>) -> Seq<
    (Seq<char>, SubType),
> {
    options_for(option_codes(manual, auto), manual, auto)
}

pub open spec fn option_views(v: Seq<(String, SubType)>) -> Seq<(Seq<char>, SubType)> {
    v.map_values(|p: (String, SubType)| (p.0@, p.1))
}

fn append_all(all: &mut Vec<String>, more: &[String])
    ensures
        name_views(final(all)@) == name_views(old(all)@) + name_views(more@),
{
    let ghost start = name_views(all@);
    let mut i: usize = 0;
    while i < more.len()
        invariant
            i <= more@.len(),
            name_views(all@) == start + name_views(more@).take(i as int),
        decreases more@.len() - i,
    {
        let ghost before = all@;
        all.push(more[i].clone());
        assert(name_views(all@) =~= name_views(before).push(more@[i as int]@));
        assert(name_views(more@).take(i + 1) =~= name_views(more@).take(i as int).push(
            more@[i as int]@,
        ));
        i += 1;
    }
    assert(name_views(more@).take(more@.len() as int) =~= name_views(more@));
}

/// Every language of both lists, manual and automatic, as one choice list:
/// sorted by code, each code once, its manual variant before its automatic
/// one.
pub fn language_options(manual: &[String], auto: &[String]) -> (r: Vec<(String, SubType)>)
    ensures
        option_views(r@) == language_options_of(name_views(manual@), name_views(auto@)),
{
    let ghost mv = name_views(manual@);
    let ghost av = name_views(auto@);
    let mut all: Vec<String> = Vec::new();
    append_all(&mut all, manual);
    append_all(&mut all, auto);
    assert(name_views(all@) =~= mv + av);
    let sorted = sort_names(&all);
    let ghost sv = name_views(sorted@);
    let mut codes: Vec<String> = Vec::new();
    let mut k: usize = 0;
    while k < sorted.len()
        invariant
            k <= sorted@.len(),
            sv == name_views(sorted@),
            name_views(codes@) == dedup_adjacent(sv.take(k as int)),
        decreases sorted@.len() - k,
    {
        assert(sv.take(k + 1).drop_last() =~= sv.take(k as int));
        assert(sv.take(k + 1).last() == sorted@[k as int]@);
        let n = codes.len();
        let same = n > 0 && codes[n - 1] == sorted[k];
        if !same {
            let ghost before = codes@;
            codes.push(sorted[k].clone());
            assert(name_views(codes@) =~= name_views(before).push(sorted@[k as int]@));
        }
        k += 1;
    }
    assert(sv.take(sorted@.len() as int) =~= sv);
    let ghost cv = name_views(codes@);
    let mut r: Vec<(String, SubType)> = Vec::new();
    let mut j: usize = 0;
    while j < codes.len()
        invariant
            j <= codes@.len(),
            cv == name_views(codes@),
            mv == name_views(manual@),
            av == name_views(auto@),
            option_views(r@) == options_for(cv.take(j as int), mv, av),
        decreases codes@.len() - j,
    {
        assert(cv.take(j + 1).drop_last() =~= cv.take(j as int));
        let c = &codes[j];
        assert(cv.take(j + 1).last() == c@);
        proof {
            lemma_position_of_contains(mv, c@);
            lemma_position_of_contains(av, c@);
        }
        let ghost before = r@;
        let in_manual = position_in(manual, c).is_some();
        if in_manual {
            r.push((c.clone(), SubType::Manual));
            assert(option_views(r@) =~= option_views(before).push((c@, SubType::Manual)));
        }
        let ghost mid = r@;
        if position_in(auto, c).is_some() {
            r.push((c.clone(), SubType::Auto));
            assert(option_views(r@) =~= option_views(mid).push((c@, SubType::Auto)));
        }
        j += 1;
    }
    assert(cv.take(codes@.len() as int) =~= cv);
    r
}

/// The label a language choice is shown with: `{code}  ·  manual` or
/// `{code}  ·  auto`.
pub open spec fn option_label(lang: Seq<char>, t: SubType) -> Seq<char> {
    lang + match t {
        SubType::Manual => "  ·  manual"@,
        SubType::Auto => "  ·  auto"@,
    }
}

/// The labels of the language choices, in order.
pub fn option_labels(options: &Vec<(String, SubType)>) -> (r: Vec<String>)
    ensures
        name_views(r@) == options@.map_values(|p: (String, SubType)| option_label(p.0@, p.1)),
{
    let ghost lv = options@.map_values(|p: (String, SubType)| option_label(p.0@, p.1));
    let mut r: Vec<String> = Vec::new();
    let mut i: usize = 0;
    while i < options.len()
        invariant
            i <= options@.len(),
            lv == options@.map_values(|p: (String, SubType)| option_label(p.0@, p.1)),
            name_views(r@) == lv.take(i as int),
        decreases options@.len() - i,
    {
        let mut v = chars_of(options[i].0.as_str());
        match options[i].1 {
            SubType::Manual => crate::text::append_str(&mut v, "  ·  manual"),
            SubType::Auto => crate::text::append_str(&mut v, "  ·  auto"),
        }
        let ghost before = r@;
        let label = string_of(&v);
        assert(label@ == lv[i as int]);
        r.push(label);
        assert(name_views(r@) =~= name_views(before).push(lv[i as int]));
        assert(lv.take(i + 1) =~= lv.take(i as int).push(lv[i as int]));
        i += 1;
    }
    assert(lv.take(options@.len() as int) =~= lv);
    r
}

/// The choices picked by their labels: for each chosen label found among
/// `labels`, in order, the choice at its first position.
pub fn chosen_options(
    options: &Vec<(String, SubType)>,
    labels: &Vec<String>,
    chosen: &Vec<String>,
) -> (r: Vec<(String, SubType)>)
    requires
        labels@.len() == options@.len(),
    ensures
        option_views(r@) == positions(name_views(labels@), name_views(chosen@)).map_values(
            |k: int| option_views(options@)[k],
        ),
{
    let idx = positions_in(labels.as_slice(), chosen);
    let ghost pv = idx@.map_values(|k: usize| k as int);
    let ghost ov = option_views(options@);
    let mut r: Vec<(String, SubType)> = Vec::new();
    let mut i: usize = 0;
    while i < idx.len()
        invariant
            i <= idx@.len(),
            pv == idx@.map_values(|k: usize| k as int),
            ov == option_views(options@),
            labels@.len() == options@.len(),
            forall|k: int| 0 <= k < idx@.len() ==> idx@[k] < labels@.len(),
            option_views(r@) == pv.take(i as int).map_values(|k: int| ov[k]),
        decreases idx@.len() - i,
    {
        let k = idx[i];
        let ghost before = r@;
        let o = (options[k].0.clone(), options[k].1);
        r.push(o);
        assert(option_views(r@) =~= option_views(before).push(ov[k as int]));
        assert(pv.take(i + 1).map_values(|k: int| ov[k]) =~= pv.take(i as int).map_values(
            |k: int| ov[k],
        ).push(ov[k as int]));
        i += 1;
    }
    assert(pv.take(idx@.len() as int) =~= pv);
    r
}

// ── what the language choices hold ───────────────────────────────────────────

proof fn lemma_dedup_contains(s: Seq<Seq<char>>, c: Seq<char>)
    ensures
        dedup_adjacent(s).contains(c) <==> s.contains(c),
        s.len() > 0 ==> dedup_adjacent(s).len() > 0 && dedup_adjacent(s).last() == s.last(),
    decreases s.len(),
{
    if s.len() > 0 {
        let dl = s.drop_last();
        lemma_dedup_contains(dl, c);
        lemma_dedup_contains(dl, s.last());
        let r = dedup_adjacent(dl);
        assert(s =~= dl.push(s.last()));
        if s.contains(c) {
            let k = choose|k: int| 0 <= k < s.len() && s[k] == c;
            if k < dl.len() {
                assert(dl[k] == c);
            }
        }
        assert(s.contains(c) <==> dl.contains(c) || c == s.last()) by {
            if dl.contains(c) {
                let k = choose|k: int| 0 <= k < dl.len() && dl[k] == c;
                assert(s[k] == c);
            }
            if c == s.last() {
                assert(s[s.len() - 1] == c);
            }
        }
        if r.len() > 0 && r.last() == s.last() {
            if c == s.last() {
                assert(r[r.len() - 1] == c);
            }
        } else {
            let rr = r.push(s.last());
            assert(rr.contains(c) <==> r.contains(c) || c == s.last()) by {
                if rr.contains(c) {
                    let k = choose|k: int| 0 <= k < rr.len() && rr[k] == c;
                    if k < r.len() {
                        assert(r[k] == c);
                    }
                }
                if r.contains(c) {
                    let k = choose|k: int| 0 <= k < r.len() && r[k] == c;
                    assert(rr[k] == c);
                }
                if c == s.last() {
                    assert(rr[r.len() as int] == c);
                }
            }
        }
    }
}

pub(crate) proof fn lemma_sorted_names_items(ns: Seq<Seq<char>>)
    ensures
        sorted_names(ns).to_multiset() == ns.to_multiset(),
        forall|c: Seq<char>| sorted_names(ns).contains(c) <==> ns.contains(c),
        forall|i: int, j: int|
            0 <= i < j < sorted_names(ns).len() ==> !crate::text::str_lt(
                #[trigger] sorted_names(ns)[j],
                #[trigger] sorted_names(ns)[i],
            ),
{
    broadcast use vstd::seq_lib::group_to_multiset_ensures;

    let ps = ns.map_values(|n: Seq<char>| (n, n));
    let f = |p: (Seq<char>, Seq<char>)| p.1;
    let sb = crate::text::sorted_by_key(ps);
    crate::text::lemma_sorted_by_key(ps);
    crate::text::lemma_sorted_by_key_map_multiset(ps, f);
    assert(ps.map_values(f) =~= ns);
    assert(sorted_names(ns) == sb.map_values(f));
    assert forall|c: Seq<char>| sorted_names(ns).contains(c) <==> ns.contains(c) by {
        assert(sorted_names(ns).to_multiset().count(c) == ns.to_multiset().count(c));
    }
    assert forall|i: int| 0 <= i < sb.len() implies (#[trigger] sb[i]).0 == sb[i].1 by {
        crate::text::lemma_sorted_by_key_contains(ps, i);
        let k = choose|k: int| 0 <= k < ps.len() && ps[k] == sb[i];
        assert(ps[k] == (ns[k], ns[k]));
    }
    assert forall|i: int, j: int|
        0 <= i < j < sorted_names(ns).len() implies !crate::text::str_lt(
        #[trigger] sorted_names(ns)[j],
        #[trigger] sorted_names(ns)[i],
    ) by {
        assert(sorted_names(ns)[i] == sb[i].1);
        assert(sorted_names(ns)[j] == sb[j].1);
        assert(sb[i].0 == sb[i].1);
        assert(sb[j].0 == sb[j].1);
    }
}

proof fn lemma_dedup_strictly_sorted(s: Seq<Seq<char>>)
    requires
        forall|i: int, j: int|
            0 <= i < j < s.len() ==> !crate::text::str_lt(#[trigger] s[j], #[trigger] s[i]),
    ensures
        forall|i: int, j: int|
            0 <= i < j < dedup_adjacent(s).len() ==> crate::text::str_lt(
                #[trigger] dedup_adjacent(s)[i],
                #[trigger] dedup_adjacent(s)[j],
            ),
    decreases s.len(),
{
    if s.len() > 0 {
        let dl = s.drop_last();
        assert forall|i: int, j: int|
            0 <= i < j < dl.len() implies !crate::text::str_lt(#[trigger] dl[j], #[trigger] dl[i]) by {
            assert(dl[i] == s[i] && dl[j] == s[j]);
        }
        lemma_dedup_strictly_sorted(dl);
        let r = dedup_adjacent(dl);
        let x = s.last();
        if !(r.len() > 0 && r.last() == x) && r.len() > 0 {
            lemma_dedup_contains(dl, x);
            assert(r.last() == dl.last());
            assert(dl.last() == s[s.len() - 2]);
            assert(!crate::text::str_lt(s[s.len() - 1], s[s.len() - 2]));
            crate::text::lemma_str_lt_order(r.last(), x, x);
            assert(crate::text::str_lt(r.last(), x));
            let rr = r.push(x);
            assert forall|i: int, j: int|
                0 <= i < j < rr.len() implies crate::text::str_lt(
                #[trigger] rr[i],
                #[trigger] rr[j],
            ) by {
                if j == r.len() {
                    if i < r.len() - 1 {
                        assert(crate::text::str_lt(r[i], r[r.len() - 1]));
                        crate::text::lemma_str_lt_order(r[i], r.last(), x);
                    }
                } else {
                    assert(rr[i] == r[i] && rr[j] == r[j]);
                }
            }
        }
    }
}

/// The language codes offered are sorted, each one once.
pub proof fn lemma_option_codes_strictly_sorted(manual: Seq<Seq<char>>, auto: Seq<Seq<char>>)
    ensures
        forall|i: int, j: int|
            0 <= i < j < option_codes(manual, auto).len() ==> crate::text::str_lt(
                #[trigger] option_codes(manual, auto)[i],
                #[trigger] option_codes(manual, auto)[j],
            ),
{
    lemma_sorted_names_items(manual + auto);
    lemma_dedup_strictly_sorted(sorted_names(manual + auto));
}

proof fn lemma_options_for_contains(
    codes: Seq<Seq<char>>,
    manual: Seq<Seq<char>>,
    auto: Seq<Seq<char>>,
    c: Seq<char>,
)
    ensures
        options_for(codes, manual, auto).contains((c, SubType::Manual)) <==> codes.contains(c)
            && manual.contains(c),
        options_for(codes, manual, auto).contains((c, SubType::Auto)) <==> codes.contains(c)
            && auto.contains(c),
    decreases codes.len(),
{
    if codes.len() > 0 {
        let dl = codes.drop_last();
        let l = codes.last();
        lemma_options_for_contains(dl, manual, auto, c);
        let r = options_for(dl, manual, auto);
        let r1 = if manual.contains(l) {
            r.push((l, SubType::Manual))
        } else {
            r
        };
        let r2 = if auto.contains(l) {
            r1.push((l, SubType::Auto))
        } else {
            r1
        };
        assert(codes =~= dl.push(l));
        assert(codes.contains(c) <==> dl.contains(c) || l == c) by {
            if codes.contains(c) {
                let k = choose|k: int| 0 <= k < codes.len() && codes[k] == c;
                if k < dl.len() {
                    assert(dl[k] == c);
                }
            }
            if l == c {
                assert(codes[codes.len() - 1] == c);
            }
            if dl.contains(c) {
                let k = choose|k: int| 0 <= k < dl.len() && dl[k] == c;
                assert(codes[k] == c);
            }
        }
        assert forall|t: SubType| #[trigger] r2.contains((c, t)) <==> r.contains((c, t)) || (c
            == l && (t == SubType::Manual && manual.contains(l) || t == SubType::Auto
            && auto.contains(l))) by {
            if r2.contains((c, t)) {
                let k = choose|k: int| 0 <= k < r2.len() && r2[k] == (c, t);
                if k < r.len() {
                    assert(r[k] == r2[k]);
                }
            }
            if r.contains((c, t)) {
                let k = choose|k: int| 0 <= k < r.len() && r[k] == (c, t);
                assert(r2[k] == r[k]);
            }
            if c == l && t == SubType::Manual && manual.contains(l) {
                assert(r1[r.len() as int] == (c, t));
                assert(r2[r.len() as int] == (c, t));
            }
            if c == l && t == SubType::Auto && auto.contains(l) {
                assert(r2[r1.len() as int] == (c, t));
            }
        }
        assert(r2.contains((c, SubType::Manual)) <==> r.contains((c, SubType::Manual)) || (c == l
            && manual.contains(l)));
        assert(r2.contains((c, SubType::Auto)) <==> r.contains((c, SubType::Auto)) || (c == l
            && auto.contains(l)));
    }
}

/// The choices offer each manual language as a manual choice and each
/// automatic language as an automatic one, and nothing else.
pub proof fn lemma_language_options_cover(
    manual: Seq<Seq<char>>,
    auto: Seq<Seq<char>>,
    c: Seq<char>,
)
    ensures
        language_options_of(manual, auto).contains((c, SubType::Manual)) <==> manual.contains(c),
        language_options_of(manual, auto).contains((c, SubType::Auto)) <==> auto.contains(c),
{
    let all = manual + auto;
    lemma_sorted_names_items(all);
    lemma_dedup_contains(sorted_names(all), c);
    lemma_options_for_contains(option_codes(manual, auto), manual, auto, c);
    assert(all.contains(c) <==> manual.contains(c) || auto.contains(c)) by {
        if all.contains(c) {
            let k = choose|k: int| 0 <= k < all.len() && all[k] == c;
            if k < manual.len() {
                assert(manual[k] == c);
            } else {
                assert(auto[k - manual.len()] == c);
            }
        }
        if manual.contains(c) {
            let k = choose|k: int| 0 <= k < manual.len() && manual[k] == c;
            assert(all[k] == c);
        }
        if auto.contains(c) {
            let k = choose|k: int| 0 <= k < auto.len() && auto[k] == c;
            assert(all[manual.len() + k] == c);
        }
    }
}

proof fn lemma_options_for_adjacent(
    codes: Seq<Seq<char>>,
    manual: Seq<Seq<char>>,
    auto: Seq<Seq<char>>,
)
    ensures
        forall|k: int|
            0 <= k < options_for(codes, manual, auto).len() && (#[trigger] options_for(
                codes,
                manual,
                auto,
            )[k]).1 == SubType::Manual && auto.contains(options_for(codes, manual, auto)[k].0)
                ==> k + 1 < options_for(codes, manual, auto).len() && options_for(
                codes,
                manual,
                auto,
            )[k + 1] == (options_for(codes, manual, auto)[k].0, SubType::Auto),
    decreases codes.len(),
{
    if codes.len() > 0 {
        let dl = codes.drop_last();
        let l = codes.last();
        lemma_options_for_adjacent(dl, manual, auto);
        let r = options_for(dl, manual, auto);
        let r1 = if manual.contains(l) {
            r.push((l, SubType::Manual))
        } else {
            r
        };
        let r2 = options_for(codes, manual, auto);
        assert forall|k: int|
            0 <= k < r2.len() && (#[trigger] r2[k]).1 == SubType::Manual && auto.contains(r2[k].0)
                implies k + 1 < r2.len() && r2[k + 1] == (r2[k].0, SubType::Auto) by {
            if k < r.len() {
                assert(r2[k] == r[k]);
                assert(r[k].1 == SubType::Manual && auto.contains(r[k].0));
                assert(r2[k + 1] == r[k + 1]);
            } else {
                assert(r2[k] == (l, SubType::Manual));
                assert(r2[k + 1] == (l, SubType::Auto));
            }
        }
    }
}

/// The manual and automatic choices of one language sit next to each
/// other, the manual one first.
pub proof fn lemma_language_variants_adjacent(manual: Seq<Seq<char>>, auto: Seq<Seq<char>>)
    ensures
        forall|k: int|
            0 <= k < language_options_of(manual, auto).len() && (
            #[trigger] language_options_of(manual, auto)[k]).1 == SubType::Manual && auto.contains(
                language_options_of(manual, auto)[k].0,
            ) ==> k + 1 < language_options_of(manual, auto).len() && language_options_of(
                manual,
                auto,
            )[k + 1] == (language_options_of(manual, auto)[k].0, SubType::Auto),
{
    lemma_options_for_adjacent(option_codes(manual, auto), manual, auto);
}

} // verus!
