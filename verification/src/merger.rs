//! Reading video and subtitle file names, matching videos with their
//! subtitles, and the ffmpeg arguments that embed subtitle tracks.
use vstd::prelude::*;
use vstd::utf8::encode_utf8;
use vstd::string::StringSliceAdditionalSpecFns;

use crate::text::{
    append_chars, append_str, chars_eq, chars_of, copy_chars, decimal, is_whitespace, join,
    join_words, lowercase, push_decimal, split_whitespace, split_ws, string_of, to_lowercase,
    trim, trim_chars,
};
use crate::util::{clean_name, file_ext, file_stem, stem_of, ext_of, clean_filename};

verus! {

// ── title normalization ──────────────────────────────────────────────────────

/// What `char::is_alphanumeric` says of a character (Unicode `Alphabetic`
/// or `Numeric`), which takes tables to state.
pub uninterp spec fn alphanumeric(c: char) -> bool;

/// `char::is_alphanumeric`; its result is named by `alphanumeric`.
#[verifier::external_body]
fn is_alphanumeric(c: char) -> (r: bool)
    ensures
        r == alphanumeric(c),
{
    c.is_alphanumeric()
}

/// Every character that is not alphanumeric replaced by a space.
pub open spec fn blank_symbols(s: Seq<char>) -> Seq<char> {
    s.map_values(|c: char| if alphanumeric(c) { c } else { ' ' })
}

/// A title reduced for fuzzy comparison: symbols become spaces, letters
/// are lowercased, and the words are joined by single spaces.
pub open spec fn normalized(s: Seq<char>) -> Seq<char> {
    join(split_ws(lowercase(blank_symbols(s))), seq![' '])
}

/// Strips special characters and collapses whitespace for fuzzy matching.
pub fn normalize_title(s: &str) -> (r: String)
    ensures
        r@ == normalized(s@),
{
    let v = chars_of(s);
    let mut m: Vec<char> = Vec::new();
    let mut i: usize = 0;
    while i < v.len()
        invariant
            i <= v.len(),
            m@ == blank_symbols(v@.take(i as int)),
        decreases v.len() - i,
    {
        let c = v[i];
        if is_alphanumeric(c) {
            m.push(c);
        } else {
            m.push(' ');
        }
        i += 1;
        assert(m@ =~= blank_symbols(v@.take(i as int)));
    }
    assert(v@.take(v.len() as int) =~= v@);
    let ms = string_of(&m);
    let low = to_lowercase(ms.as_str());
    let lv = chars_of(low.as_str());
    let words = split_whitespace(&lv);
    assert(words@.map_values(|w: Vec<char>| w@) =~= split_ws(lv@));
    let j = join_words(&words);
    string_of(&j)
}

/// The normalized title has no whitespace at its ends and no run of
/// spaces: it is its own words joined by single spaces.
pub proof fn lemma_normalized_is_joined_words(s: Seq<char>)
    ensures
        normalized(s) == join(split_ws(normalized(s)), seq![' ']),
{
    let ws = split_ws(lowercase(blank_symbols(s)));
    crate::text::lemma_split_ws_words(lowercase(blank_symbols(s)));
    crate::text::lemma_split_join(ws);
}

// ── YouTube ids in file names ────────────────────────────────────────────────

/// The characters of a YouTube id: ASCII letters and digits, `_` and `-`.
pub open spec fn id_char(c: char) -> bool {
    ('A' <= c && c <= 'Z') || ('a' <= c && c <= 'z') || ('0' <= c && c <= '9') || c == '_' || c
        == '-'
}

fn is_id_char(c: char) -> (r: bool)
    ensures
        r == id_char(c),
{
    ('A' <= c && c <= 'Z') || ('a' <= c && c <= 'z') || ('0' <= c && c <= '9') || c == '_' || c
        == '-'
}

/// The number of id characters in a row starting at `i`.
pub open spec fn id_run(s: Seq<char>, i: int) -> nat
    decreases s.len() - i,
{
    if 0 <= i < s.len() && id_char(s[i]) {
        1 + id_run(s, i + 1)
    } else {
        0
    }
}

/// A bracketed id `[…]` of 6 to 12 id characters starts at `i`: YouTube's
/// eleven-character ids, and shorter ones such as `abc123` in
/// `"My Video [abc123].webm"`.
pub open spec fn id_at(s: Seq<char>, i: int) -> bool {
    let r = id_run(s, i + 1);
    &&& 0 <= i < s.len()
    &&& s[i] == '['
    &&& 6 <= r <= 12
    &&& i + 1 + r < s.len()
    &&& s[i + 1 + r] == ']'
}

/// The first position from `i` on where a bracketed id starts.
pub open spec fn first_id_from(s: Seq<char>, i: int) -> Option<int>
    decreases s.len() - i,
{
    if i < 0 || i >= s.len() {
        None
    } else if id_at(s, i) {
        Some(i)
    } else {
        first_id_from(s, i + 1)
    }
}

/// The first bracketed YouTube id in `s`, without its brackets.
pub open spec fn extracted_id(s: Seq<char>) -> Option<Seq<char>> {
    match first_id_from(s, 0) {
        Some(i) => Some(s.subrange(i + 1, i + 1 + id_run(s, i + 1))),
        None => None,
    }
}

/// `s` with its first bracketed id removed.
pub open spec fn without_first_id(s: Seq<char>) -> Seq<char> {
    match first_id_from(s, 0) {
        Some(i) => s.take(i) + s.skip(i + 2 + id_run(s, i + 1)),
        None => s,
    }
}

proof fn lemma_id_run_bound(s: Seq<char>, i: int)
    requires
        0 <= i,
    ensures
        i + id_run(s, i) <= s.len() || id_run(s, i) == 0,
        forall|k: int| i <= k < i + id_run(s, i) ==> id_char(#[trigger] s[k]),
        i + id_run(s, i) < s.len() ==> !id_char(s[i + id_run(s, i)]),
    decreases s.len() - i,
{
    if 0 <= i < s.len() && id_char(s[i]) {
        lemma_id_run_bound(s, i + 1);
    }
}

/// The length of the run of id characters starting at `i`.
fn id_run_exec(s: &Vec<char>, i: usize) -> (r: usize)
    requires
        i <= s.len(),
    ensures
        r == id_run(s@, i as int),
        i + r <= s.len(),
{
    let mut j = i;
    while j < s.len() && is_id_char(s[j])
        invariant
            i <= j <= s.len(),
            id_run(s@, i as int) == (j - i) + id_run(s@, j as int),
        decreases s.len() - j,
    {
        j += 1;
    }
    j - i
}

fn first_id_exec(s: &Vec<char>) -> (r: Option<(usize, usize)>)
    ensures
        r matches Some((i, n)) ==> first_id_from(s@, 0) == Some(i as int) && n == id_run(
            s@,
            i + 1,
        ) && i + 2 + n <= s@.len(),
        r is None ==> first_id_from(s@, 0) is None,
{
    let mut i: usize = 0;
    while i < s.len()
        invariant
            i <= s.len(),
            first_id_from(s@, 0) == first_id_from(s@, i as int),
        decreases s.len() - i,
    {
        if s[i] == '[' {
            let r = id_run_exec(s, i + 1);
            if 6 <= r && r <= 12 && i + 1 + r < s.len() && s[i + 1 + r] == ']' {
                assert(id_at(s@, i as int));
                return Some((i, r));
            }
        }
        assert(!id_at(s@, i as int));
        i += 1;
    }
    None
}

/// Extracts a YouTube video ID like `[dQw4w9WgXcQ]` from a filename stem.
pub fn extract_id(s: &str) -> (r: Option<String>)
    ensures
        match extracted_id(s@) {
            Some(id) => r matches Some(x) && x@ == id,
            None => r is None,
        },
{
    let v = chars_of(s);
    assert(v@.len() == v.len());
    match first_id_exec(&v) {
        Some((i, n)) => {
            let mut out: Vec<char> = Vec::new();
            let mut k = i + 1;
            while k < i + 1 + n
                invariant
                    i + 1 <= k <= i + 1 + n,
                    i + 2 + n <= v@.len(),
                    v@.len() <= usize::MAX,
                    out@ == v@.subrange(i + 1, k as int),
                decreases i + 1 + n - k,
            {
                out.push(v[k]);
                k += 1;
                assert(out@ =~= v@.subrange(i + 1, k as int));
            }
            Some(string_of(&out))
        },
        None => None,
    }
}

/// The clean title and the optional YouTube id of a video file name:
/// `"My Video [abc123].webm"` gives `("My Video", Some("abc123"))`.
pub open spec fn video_name_parts(name: Seq<char>) -> (Seq<char>, Option<Seq<char>>) {
    let stem = match file_stem(name) {
        Some(s) => s,
        None => name,
    };
    (trim(without_first_id(stem)), extracted_id(stem))
}

/// Splits a video filename into (clean title, optional YouTube ID).
///
/// `"My Video [abc123].webm"` → `("My Video", Some("abc123"))`
pub fn parse_video_name(filename: &str) -> (r: (String, Option<String>))
    ensures
        r.0@ == video_name_parts(filename@).0,
        match video_name_parts(filename@).1 {
            Some(id) => r.1 matches Some(x) && x@ == id,
            None => r.1 is None,
        },
{
    let name = chars_of(filename);
    let stem = match stem_of(&name) {
        Some(s) => s,
        None => copy_chars(&name),
    };
    let stem_str = string_of(&stem);
    let id = extract_id(stem_str.as_str());
    let without: Vec<char> = match first_id_exec(&stem) {
        Some((i, n)) => {
            let mut out: Vec<char> = Vec::new();
            let mut k: usize = 0;
            while k < i
                invariant
                    k <= i,
                    i + 2 + n <= stem@.len(),
                    stem@.len() == stem.len(),
                    out@ == stem@.take(k as int),
                decreases i - k,
            {
                out.push(stem[k]);
                k += 1;
                assert(out@ =~= stem@.take(k as int));
            }
            let mut k = i + 2 + n;
            while k < stem.len()
                invariant
                    i + 2 + n <= k <= stem@.len(),
                    out@ == stem@.take(i as int) + stem@.subrange(i + 2 + n, k as int),
                decreases stem@.len() - k,
            {
                out.push(stem[k]);
                k += 1;
                assert(out@ =~= stem@.take(i as int) + stem@.subrange(i + 2 + n, k as int));
            }
            assert(stem@.subrange(i + 2 + n, stem@.len() as int) =~= stem@.skip(i + 2 + n));
            out
        },
        None => copy_chars(&stem),
    };
    let title = trim_chars(&without);
    (string_of(&title), id)
}

// ── subtitle file names ──────────────────────────────────────────────────────

pub open spec fn ascii_letter(c: char) -> bool {
    ('a' <= c && c <= 'z') || ('A' <= c && c <= 'Z')
}

pub open spec fn ascii_alnum(c: char) -> bool {
    ascii_letter(c) || ('0' <= c && c <= '9')
}

pub open spec fn ascii_lower(c: char) -> bool {
    'a' <= c && c <= 'z'
}

/// The first position of `c` in `s`.
pub open spec fn index_of(s: Seq<char>, c: char) -> Option<int>
    decreases s.len(),
{
    if s.len() == 0 {
        None
    } else if s[0] == c {
        Some(0)
    } else {
        match index_of(s.drop_first(), c) {
            Some(k) => Some(k + 1),
            None => None,
        }
    }
}

/// A language code as subtitle file names carry it: two or three ASCII
/// letters, optionally followed by `-` and ASCII letters or digits
/// (`ar`, `ar-orig`, `zh-Hans`, `es-419`, `pt-PT`).
pub open spec fn lang_code_ok(l: Seq<char>) -> bool {
    match index_of(l, '-') {
        None => 2 <= l.len() <= 3 && forall|i: int| 0 <= i < l.len() ==> ascii_letter(#[trigger] l[i]),
        Some(d) => {
            &&& 2 <= d <= 3
            &&& forall|i: int| 0 <= i < d ==> ascii_letter(#[trigger] l[i])
            &&& d + 1 < l.len()
            &&& forall|i: int| d + 1 <= i < l.len() ==> ascii_alnum(#[trigger] l[i])
        },
    }
}

/// The part after ` - ` in a subtitle file name: a language code, a `.`,
/// and a lowercase extension.
pub open spec fn lang_tail_ok(b: Seq<char>) -> bool {
    match index_of(b, '.') {
        None => false,
        Some(q) => {
            &&& lang_code_ok(b.take(q))
            &&& q + 1 < b.len()
            &&& forall|i: int| q + 1 <= i < b.len() ==> ascii_lower(#[trigger] b[i])
        },
    }
}

/// `name` splits after its first `p` characters into a title (no line
/// break), ` - `, and a language tail.
pub open spec fn sub_split_at(name: Seq<char>, p: int) -> bool {
    &&& 1 <= p
    &&& p + 3 <= name.len()
    &&& forall|i: int| 0 <= i < p ==> #[trigger] name[i] != '\n'
    &&& name[p] == ' ' && name[p + 1] == '-' && name[p + 2] == ' '
    &&& lang_tail_ok(name.skip(p + 3))
}

/// The largest split position not above `p`.
pub open spec fn last_sub_split(name: Seq<char>, p: int) -> Option<int>
    decreases p,
{
    if p < 1 {
        None
    } else if sub_split_at(name, p) {
        Some(p)
    } else {
        last_sub_split(name, p - 1)
    }
}

/// The (base title, language code) of a subtitle file name, as the pattern
/// `^(.+) - ([a-zA-Z]{2,3}(?:-[a-zA-Z0-9]+)?)\.[a-z]+$` reads it (the
/// title taking as much as it can); `(stem, "und")` when it does not match.
pub open spec fn sub_name_parts(name: Seq<char>) -> (Seq<char>, Seq<char>) {
    match last_sub_split(name, name.len() as int) {
        Some(p) => {
            let b = name.skip(p + 3);
            (name.take(p), b.take(index_of(b, '.')->0))
        },
        None => (
            match file_stem(name) {
                Some(s) => s,
                None => name,
            },
            "und"@,
        ),
    }
}

fn index_of_exec(s: &Vec<char>, from: usize, c: char) -> (r: Option<usize>)
    requires
        from <= s.len(),
    ensures
        r matches Some(i) ==> index_of(s@.skip(from as int), c) == Some(i - from) && from <= i
            < s.len(),
        r is None ==> index_of(s@.skip(from as int), c) is None,
{
    let mut i = from;
    while i < s.len()
        invariant
            from <= i <= s.len(),
            index_of(s@.skip(from as int), c) == match index_of(s@.skip(i as int), c) {
                Some(k) => Some(k + (i - from)),
                None => None,
            },
        decreases s.len() - i,
    {
        assert(s@.skip(i as int)[0] == s@[i as int]);
        if s[i] == c {
            return Some(i);
        }
        assert(s@.skip(i as int).drop_first() =~= s@.skip(i + 1));
        i += 1;
    }
    assert(s@.skip(i as int) =~= Seq::<char>::empty());
    None
}

pub proof fn lemma_index_of_props(s: Seq<char>, c: char)
    ensures
        index_of(s, c) matches Some(k) ==> 0 <= k < s.len() && s[k] == c && forall|j: int|
            0 <= j < k ==> s[j] != c,
        index_of(s, c) is None ==> forall|j: int| 0 <= j < s.len() ==> s[j] != c,
    decreases s.len(),
{
    if s.len() > 0 && s[0] != c {
        lemma_index_of_props(s.drop_first(), c);
        if index_of(s.drop_first(), c) is None {
            assert forall|j: int| 0 <= j < s.len() implies s[j] != c by {
                if j > 0 {
                    assert(s[j] == s.drop_first()[j - 1]);
                }
            }
        } else {
            let k = index_of(s.drop_first(), c)->0;
            assert forall|j: int| 0 <= j < k + 1 implies s[j] != c by {
                if j > 0 {
                    assert(s[j] == s.drop_first()[j - 1]);
                }
            }
        }
    }
}

/// A character of the given kind: an ASCII letter (0), an ASCII letter or
/// digit (1), or an ASCII lowercase letter (2).
pub open spec fn kind_ok(c: char, kind: u8) -> bool {
    if kind == 0 {
        ascii_letter(c)
    } else if kind == 1 {
        ascii_alnum(c)
    } else {
        ascii_lower(c)
    }
}

fn all_in(s: &Vec<char>, from: usize, to: usize, kind: u8) -> (r: bool)
    requires
        from <= to <= s.len(),
    ensures
        r == forall|i: int| from <= i < to ==> kind_ok(#[trigger] s@[i], kind),
{
    let mut i = from;
    while i < to
        invariant
            from <= i <= to <= s.len(),
            forall|k: int| from <= k < i ==> kind_ok(#[trigger] s@[k], kind),
        decreases to - i,
    {
        let c = s[i];
        let letter = ('a' <= c && c <= 'z') || ('A' <= c && c <= 'Z');
        let ok = if kind == 0 {
            letter
        } else if kind == 1 {
            letter || ('0' <= c && c <= '9')
        } else {
            'a' <= c && c <= 'z'
        };
        if !ok {
            assert(!kind_ok(s@[i as int], kind));
            return false;
        }
        i += 1;
    }
    true
}

/// Whether `name` splits at `p` (see `sub_split_at`); on success, where the
/// language code ends.
fn sub_split_exec(name: &Vec<char>, p: usize) -> (r: Option<usize>)
    requires
        p <= name.len(),
    ensures
        r is Some <==> sub_split_at(name@, p as int),
        r matches Some(q) ==> q == p + 3 + index_of(name@.skip(p + 3), '.')->0 && p + 3 <= q
            < name.len(),
{
    if p < 1 || name.len() < 3 || p > name.len() - 3 {
        return None;
    }
    let mut i: usize = 0;
    while i < p
        invariant
            i <= p <= name.len(),
            forall|k: int| 0 <= k < i ==> #[trigger] name@[k] != '\n',
        decreases p - i,
    {
        if name[i] == '\n' {
            return None;
        }
        i += 1;
    }
    if !(name[p] == ' ' && name[p + 1] == '-' && name[p + 2] == ' ') {
        return None;
    }
    let b = crate::util::skip_chars(name, p + 3);
    assert(b@.skip(0) =~= b@);
    proof {
        lemma_index_of_props(b@, '.');
    }
    let q = match index_of_exec(&b, 0, '.') {
        Some(q) => q,
        None => {
            return None;
        },
    };
    let l = crate::util::take_chars(&b, q);
    assert(l@.skip(0) =~= l@);
    proof {
        lemma_index_of_props(l@, '-');
    }
    let code_ok = match index_of_exec(&l, 0, '-') {
        Some(d) => 2 <= d && d <= 3 && all_in(&l, 0, d, 0) && d + 1 < l.len() && all_in(
            &l,
            d + 1,
            l.len(),
            1,
        ),
        None => 2 <= l.len() && l.len() <= 3 && all_in(&l, 0, l.len(), 0),
    };
    assert(code_ok == lang_code_ok(l@));
    if !code_ok {
        return None;
    }
    if !(q + 1 < b.len() && all_in(&b, q + 1, b.len(), 2)) {
        return None;
    }
    Some(p + 3 + q)
}

proof fn lemma_index_of_first(l: Seq<char>, b: Seq<char>, c: char)
    requires
        l.len() <= b.len(),
        l == b.take(l.len() as int),
        index_of(b, c) matches Some(d) && d < l.len(),
    ensures
        index_of(l, c) == index_of(b, c),
    decreases l.len(),
{
    lemma_index_of_props(b, c);
    if l.len() > 0 && b[0] != c {
        assert(l.drop_first() =~= b.drop_first().take(l.len() - 1));
        lemma_index_of_first(l.drop_first(), b.drop_first(), c);
    }
}

proof fn lemma_index_of_none_prefix(l: Seq<char>, b: Seq<char>, c: char)
    requires
        l.len() <= b.len(),
        l == b.take(l.len() as int),
        index_of(b, c) matches Some(d) ==> d >= l.len(),
    ensures
        index_of(l, c) is None,
    decreases l.len(),
{
    lemma_index_of_props(b, c);
    if l.len() > 0 {
        assert(l[0] == b[0]);
        assert(b[0] != c);
        assert(l.drop_first() =~= b.drop_first().take(l.len() - 1));
        lemma_index_of_none_prefix(l.drop_first(), b.drop_first(), c);
    }
}

/// Splits a subtitle filename into (base title, language code).
///
/// `"My Video - ar.srt"` → `("My Video", "ar")`. Also handles the language
/// variant suffixes YouTube itself produces — `ar-orig`, `zh-Hans`/`zh-Hant`,
/// `es-419` — and region codes like `en-US`. A name of another shape gives
/// its stem and `"und"`.
pub fn parse_sub_name(filename: &str) -> (r: (String, String))
    ensures
        r.0@ == sub_name_parts(filename@).0,
        r.1@ == sub_name_parts(filename@).1,
{
    let name = chars_of(filename);
    let mut p = name.len();
    while p >= 1
        invariant
            p <= name.len(),
            name@ == filename@,
            last_sub_split(name@, name@.len() as int) == last_sub_split(name@, p as int),
        decreases p,
    {
        match sub_split_exec(&name, p) {
            Some(q) => {
                let mut title: Vec<char> = Vec::new();
                let mut i: usize = 0;
                while i < p
                    invariant
                        i <= p <= name.len(),
                        title@ == name@.take(i as int),
                    decreases p - i,
                {
                    title.push(name[i]);
                    i += 1;
                    assert(title@ =~= name@.take(i as int));
                }
                let mut lang: Vec<char> = Vec::new();
                let mut k = p + 3;
                while k < q
                    invariant
                        p + 3 <= k <= q,
                        q < name.len(),
                        lang@ == name@.subrange(p + 3, k as int),
                    decreases q - k,
                {
                    lang.push(name[k]);
                    k += 1;
                    assert(lang@ =~= name@.subrange(p + 3, k as int));
                }
                proof {
                    let b = name@.skip(p + 3);
                    assert(lang@ =~= b.take(index_of(b, '.')->0));
                    assert(last_sub_split(name@, p as int) == Some(p as int));
                    assert(name@ == filename@);
                    assert(last_sub_split(filename@, filename@.len() as int) == Some(p as int));
                    assert(sub_name_parts(filename@).0 == name@.take(p as int));
                    assert(sub_name_parts(filename@).1 == b.take(index_of(b, '.')->0));
                }
                return (string_of(&title), string_of(&lang));
            },
            None => {},
        }
        p -= 1;
    }
    assert(last_sub_split(name@, 0) is None);
    let stem = match stem_of(&name) {
        Some(s) => s,
        None => copy_chars(&name),
    };
    assert(sub_name_parts(filename@).1 == "und"@);
    (string_of(&stem), "und".to_string())
}

// ── language codes ───────────────────────────────────────────────────────────

/// The three-letter ISO 639-3 code `isolang` gives for a two-letter ISO 639-1
/// code (`Language::from_639_1(code).map(|l| l.to_639_3())`).
pub uninterp spec fn iso639_3_of(code: Seq<char>) -> Option<Seq<char>>;

/// The English language name `isolang` gives for a two-letter ISO 639-1
/// code (`Language::from_639_1(code).map(|l| l.to_name())`).
pub uninterp spec fn iso_name_of(code: Seq<char>) -> Option<Seq<char>>;

/// `isolang::Language::from_639_1` followed by `to_639_3`; named by
/// `iso639_3_of`. A code that is not two bytes long is refused.
#[verifier::external_body]
fn lookup_639_3(code: &str) -> (r: Option<String>)
    ensures
        match iso639_3_of(code@) {
            Some(c) => r matches Some(x) && x@ == c,
            None => r is None,
        },
        code.spec_bytes().len() != 2 ==> r is None,
{
    isolang::Language::from_639_1(code).map(|l| l.to_639_3().to_string())
}

/// `isolang::Language::from_639_1` followed by `to_name`; named by
/// `iso_name_of`. A code that is not two bytes long is refused.
#[verifier::external_body]
fn lookup_name(code: &str) -> (r: Option<String>)
    ensures
        match iso_name_of(code@) {
            Some(c) => r matches Some(x) && x@ == c,
            None => r is None,
        },
        code.spec_bytes().len() != 2 ==> r is None,
{
    isolang::Language::from_639_1(code).map(|l| l.to_name().to_string())
}

/// The part of a language code before its first `-`.
pub open spec fn base_code(lang: Seq<char>) -> Seq<char> {
    match index_of(lang, '-') {
        Some(d) => lang.take(d),
        None => lang,
    }
}

fn base_code_exec(lang: &str) -> (r: String)
    ensures
        r@ == base_code(lang@),
{
    let v = chars_of(lang);
    assert(v@.skip(0) =~= v@);
    match index_of_exec(&v, 0, '-') {
        Some(d) => {
            let mut out: Vec<char> = Vec::new();
            let mut i: usize = 0;
            while i < d
                invariant
                    i <= d < v.len(),
                    out@ == v@.take(i as int),
                decreases d - i,
            {
                out.push(v[i]);
                i += 1;
                assert(out@ =~= v@.take(i as int));
            }
            string_of(&out)
        },
        None => lang.to_string(),
    }
}

/// The ISO 639-2/3 code for MKV `language` metadata: the ISO 639-3 code of
/// the base code (before any `-`), or the base code itself when it is not
/// a known ISO 639-1 code.
pub open spec fn iso639_2_code(lang: Seq<char>) -> Seq<char> {
    match iso639_3_of(base_code(lang)) {
        Some(c) => c,
        None => base_code(lang),
    }
}

/// The English display name of a language: that of its base code, or the
/// whole code unchanged when the base is not a known ISO 639-1 code.
pub open spec fn display_name(lang: Seq<char>) -> Seq<char> {
    match iso_name_of(base_code(lang)) {
        Some(c) => c,
        None => lang,
    }
}

/// Converts a language code to an ISO 639-2/3 code for MKV `language`
/// metadata; falls back to the base code when it is not recognized.
pub fn to_iso639_2(lang: &str) -> (r: String)
    ensures
        r@ == iso639_2_code(lang@),
        encode_utf8(base_code(lang@)).len() != 2 ==> r@ == base_code(lang@),
{
    let base = base_code_exec(lang);
    match lookup_639_3(base.as_str()) {
        Some(c) => c,
        None => base,
    }
}

/// Converts a language code to an English display name (e.g. for the MKV
/// track `title`); falls back to the code unchanged when not recognized.
pub fn lang_display_name(lang: &str) -> (r: String)
    ensures
        r@ == display_name(lang@),
        encode_utf8(base_code(lang@)).len() != 2 ==> r@ == lang@,
{
    let base = base_code_exec(lang);
    match lookup_name(base.as_str()) {
        Some(c) => c,
        None => lang.to_string(),
    }
}

// ── selecting media files ───────────────────────────────────────────────────

/// The extensions of video files.
pub open spec fn video_exts() -> Seq<Seq<char>> {
    seq!["mp4"@, "webm"@, "mkv"@, "avi"@, "mov"@]
}

/// The extensions of subtitle files.
pub open spec fn sub_exts() -> Seq<Seq<char>> {
    seq!["srt"@, "vtt"@]
}

/// A file name whose lowercased extension is one of `exts`.
pub open spec fn has_ext_in(name: Seq<char>, exts: Seq<Seq<char>>) -> bool {
    match file_ext(name) {
        Some(e) => exts.contains(lowercase(e)),
        None => false,
    }
}

/// The names with an extension in `exts`, in their order.
pub open spec fn names_with_ext(names: Seq<Seq<char>>, exts: Seq<Seq<char>>) -> Seq<Seq<char>>
    decreases names.len(),
{
    if names.len() == 0 {
        seq![]
    } else {
        let r = names_with_ext(names.drop_last(), exts);
        if has_ext_in(names.last(), exts) {
            r.push(names.last())
        } else {
            r
        }
    }
}

/// Names in sorted order.
pub open spec fn sorted_names(names: Seq<Seq<char>>) -> Seq<Seq<char>> {
    crate::text::sorted_by_key(names.map_values(|n: Seq<char>| (n, n))).map_values(
        |p: (Seq<char>, Seq<char>)| p.1,
    )
}

/// The media files of a folder listing: those with an extension in `exts`
/// (compared case-insensitively), sorted by name.
pub open spec fn media_files(names: Seq<Seq<char>>, exts: Seq<Seq<char>>) -> Seq<Seq<char>> {
    sorted_names(names_with_ext(names, exts))
}

fn ext_in(name: &String, videos: bool) -> (r: bool)
    ensures
        r == has_ext_in(name@, if videos { video_exts() } else { sub_exts() }),
{
    let v = chars_of(name.as_str());
    match ext_of(&v) {
        Some(e) => {
            let es = string_of(&e);
            let low = to_lowercase(es.as_str());
            let lv = chars_of(low.as_str());
            assert(lv@ == lowercase(e@));
            let exts: Vec<&str> = if videos {
                vec!["mp4", "webm", "mkv", "avi", "mov"]
            } else {
                vec!["srt", "vtt"]
            };
            let ghost ev = if videos { video_exts() } else { sub_exts() };
            assert(exts@.map_values(|x: &str| x@) =~= ev);
            let mut i: usize = 0;
            while i < exts.len()
                invariant
                    i <= exts@.len(),
                    exts@.map_values(|x: &str| x@) == ev,
                    forall|k: int| 0 <= k < i ==> ev[k] != lv@,
                    file_ext(name@) == Some(e@),
                    lv@ == lowercase(e@),
                    ev == if videos { video_exts() } else { sub_exts() },
                decreases exts@.len() - i,
            {
                let x = chars_of(exts[i]);
                assert(ev[i as int] == exts@[i as int]@);
                if chars_eq(&x, &lv) {
                    assert(ev.contains(lv@));
                    assert(file_ext(name@) == Some(e@));
                    assert(has_ext_in(name@, ev));
                    return true;
                }
                i += 1;
            }
            assert(!ev.contains(lv@));
            assert(file_ext(name@) == Some(e@));
            assert(!has_ext_in(name@, ev));
            false
        },
        None => false,
    }
}

pub open spec fn name_views(v: Seq<String>) -> Seq<Seq<char>> {
    v.map_values(|s: String| s@)
}

/// The names in sorted order (see `sorted_names`).
pub fn sort_names(names: &Vec<String>) -> (r: Vec<String>)
    ensures
        name_views(r@) == sorted_names(name_views(names@)),
{
    let ghost nv = name_views(names@);
    let mut keyed: Vec<(Vec<char>, String)> = Vec::new();
    let mut i: usize = 0;
    while i < names.len()
        invariant
            i <= names@.len(),
            nv == name_views(names@),
            crate::text::keyed_views(keyed@) == nv.take(i as int).map_values(
                |n: Seq<char>| (n, n),
            ),
        decreases names@.len() - i,
    {
        let ghost before = keyed@;
        let k = chars_of(names[i].as_str());
        keyed.push((k, names[i].clone()));
        assert(crate::text::keyed_views(keyed@) =~= crate::text::keyed_views(before).push(
            (names@[i as int]@, names@[i as int]@),
        ));
        assert(nv.take(i + 1).map_values(|n: Seq<char>| (n, n)) =~= nv.take(i as int).map_values(
            |n: Seq<char>| (n, n),
        ).push((nv[i as int], nv[i as int])));
        i += 1;
    }
    assert(nv.take(names@.len() as int) =~= nv);
    let sorted = crate::text::sort_by_key(keyed);
    let mut out: Vec<String> = Vec::new();
    let mut k: usize = 0;
    let ghost sv = crate::text::keyed_views(sorted@);
    while k < sorted.len()
        invariant
            k <= sorted@.len(),
            sv == crate::text::keyed_views(sorted@),
            name_views(out@) == sv.take(k as int).map_values(|p: (Seq<char>, Seq<char>)| p.1),
        decreases sorted@.len() - k,
    {
        let ghost before = out@;
        assert(sv[k as int].1 == sorted@[k as int].1@);
        let item = sorted[k].1.clone();
        assert(item@ == sv[k as int].1);
        out.push(item);
        assert(name_views(out@) =~= name_views(before).push(item@));
        assert(sv.take(k + 1).map_values(|p: (Seq<char>, Seq<char>)| p.1) =~= sv.take(
            k as int,
        ).map_values(|p: (Seq<char>, Seq<char>)| p.1).push(sv[k as int].1));
        assert(name_views(out@) =~= sv.take(k + 1).map_values(|p: (Seq<char>, Seq<char>)| p.1));
        k += 1;
    }
    assert(sv.take(sorted@.len() as int) =~= sv);
    out
}

/// The media files of a folder listing (see `media_files`).
pub fn select_files(names: &Vec<String>, videos: bool) -> (r: Vec<String>)
    ensures
        name_views(r@) == media_files(name_views(names@), if videos {
            video_exts()
        } else {
            sub_exts()
        }),
{
    let ghost exts = if videos { video_exts() } else { sub_exts() };
    let ghost nv = name_views(names@);
    let mut picked: Vec<String> = Vec::new();
    let mut i: usize = 0;
    while i < names.len()
        invariant
            i <= names@.len(),
            nv == name_views(names@),
            exts == if videos { video_exts() } else { sub_exts() },
            name_views(picked@) == names_with_ext(nv.take(i as int), exts),
        decreases names@.len() - i,
    {
        assert(nv.take(i + 1).drop_last() =~= nv.take(i as int));
        assert(nv.take(i + 1).last() == names@[i as int]@);
        let ghost before = picked@;
        if ext_in(&names[i], videos) {
            picked.push(names[i].clone());
            assert(name_views(picked@) =~= name_views(before).push(names@[i as int]@));
        }
        i += 1;
    }
    assert(nv.take(names@.len() as int) =~= nv);
    sort_names(&picked)
}

// ── matching videos with subtitles ──────────────────────────────────────────

/// All subtitle files sharing one normalized base title.
pub struct SubGroup {
    pub entries: Vec<crate::types::SubEntry>,
    pub norm: Vec<char>,
    pub embedded_id: Option<Vec<char>>,
}

/// A subtitle group as plain values.
pub struct GroupView {
    pub entries: Seq<crate::types::EntryView>,
    pub norm: Seq<char>,
    pub id: Option<Seq<char>>,
}

pub open spec fn opt_chars(o: Option<Vec<char>>) -> Option<Seq<char>> {
    match o {
        Some(v) => Some(v@),
        None => None,
    }
}

impl View for SubGroup {
    type V = GroupView;

    open spec fn view(&self) -> GroupView {
        GroupView {
            entries: crate::types::entry_views(self.entries@),
            norm: self.norm@,
            id: opt_chars(self.embedded_id),
        }
    }
}

/// The first group with normalized title `norm`, from `i` on.
pub open spec fn find_norm_from(gs: Seq<GroupView>, norm: Seq<char>, i: int) -> Option<int>
    decreases gs.len() - i,
{
    if i < 0 || i >= gs.len() {
        None
    } else if gs[i].norm == norm {
        Some(i)
    } else {
        find_norm_from(gs, norm, i + 1)
    }
}

pub open spec fn find_norm(gs: Seq<GroupView>, norm: Seq<char>) -> Option<int> {
    find_norm_from(gs, norm, 0)
}

/// Adds a subtitle file to the group of its normalized base title, opening
/// a group (with the id embedded in this file's base title) if none exists.
pub open spec fn add_sub(gs: Seq<GroupView>, name: Seq<char>) -> Seq<GroupView> {
    let parts = sub_name_parts(name);
    let norm = normalized(parts.0);
    let e = crate::types::EntryView { path: name, lang: parts.1 };
    match find_norm(gs, norm) {
        Some(i) => gs.update(
            i,
            GroupView { entries: gs[i].entries.push(e), norm: gs[i].norm, id: gs[i].id },
        ),
        None => gs.push(GroupView { entries: seq![e], norm, id: extracted_id(parts.0) }),
    }
}

/// The groups of a list of subtitle files, in order of first appearance.
pub open spec fn groups_of(subs: Seq<Seq<char>>) -> Seq<GroupView>
    decreases subs.len(),
{
    if subs.len() == 0 {
        seq![]
    } else {
        add_sub(groups_of(subs.drop_last()), subs.last())
    }
}

/// The groups sorted by normalized title.
pub open spec fn sorted_groups(subs: Seq<Seq<char>>) -> Seq<GroupView> {
    crate::text::sorted_by_key(groups_of(subs).map_values(|g: GroupView| (g.norm, g))).map_values(
        |p: (Seq<char>, GroupView)| p.1,
    )
}

/// The last group (among the first `n`) whose embedded id is `id`: later
/// groups win, as when the id index is collected into a map.
pub open spec fn last_with_id(gs: Seq<GroupView>, id: Seq<char>, n: int) -> Option<int>
    decreases n,
{
    if n <= 0 || n > gs.len() {
        None
    } else if gs[n - 1].id == Some(id) {
        Some(n - 1)
    } else {
        last_with_id(gs, id, n - 1)
    }
}

/// The matching state after some videos: the jobs made so far, which groups
/// are taken, and the videos (with output names) left for the last stage.
pub struct MatchState {
    pub jobs: Seq<crate::types::JobView>,
    pub used: Seq<bool>,
    pub queue: Seq<(Seq<char>, Seq<char>)>,
}

/// Matches one video: by YouTube id (stage 1), else by normalized title
/// (stage 2), else leaves it for matching by position.
pub open spec fn match_video(gs: Seq<GroupView>, st: MatchState, name: Seq<char>) -> MatchState {
    let parts = video_name_parts(name);
    let norm = normalized(parts.0);
    let out = clean_name(parts.0);
    let by_id = match parts.1 {
        Some(d) => last_with_id(gs, d, gs.len() as int),
        None => None,
    };
    match by_id {
        Some(i) => MatchState {
            jobs: st.jobs.push(
                crate::types::JobView {
                    video_path: name,
                    subs: gs[i].entries,
                    output_name: out,
                    match_stage: 1,
                },
            ),
            used: st.used.update(i, true),
            queue: st.queue,
        },
        None => match find_norm(gs, norm) {
            Some(i) => MatchState {
                jobs: st.jobs.push(
                    crate::types::JobView {
                        video_path: name,
                        subs: gs[i].entries,
                        output_name: out,
                        match_stage: 2,
                    },
                ),
                used: st.used.update(i, true),
                queue: st.queue,
            },
            None => MatchState { jobs: st.jobs, used: st.used, queue: st.queue.push((name, out)) },
        },
    }
}

pub open spec fn match_all(gs: Seq<GroupView>, vids: Seq<Seq<char>>) -> MatchState
    decreases vids.len(),
{
    if vids.len() == 0 {
        MatchState { jobs: seq![], used: Seq::new(gs.len(), |i: int| false), queue: seq![] }
    } else {
        match_video(gs, match_all(gs, vids.drop_last()), vids.last())
    }
}

/// The indices of the groups no video took, in increasing order.
pub open spec fn unused_upto(used: Seq<bool>, n: int) -> Seq<int>
    decreases n,
{
    if n <= 0 || n > used.len() {
        seq![]
    } else if !used[n - 1] {
        unused_upto(used, n - 1).push(n - 1)
    } else {
        unused_upto(used, n - 1)
    }
}

/// The `k`-th left-over video takes the `k`-th untaken group (stage 3).
pub open spec fn position_jobs(
    gs: Seq<GroupView>,
    queue: Seq<(Seq<char>, Seq<char>)>,
    unused: Seq<int>,
) -> Seq<crate::types::JobView> {
    Seq::new(
        if queue.len() < unused.len() {
            queue.len()
        } else {
            unused.len()
        },
        |k: int|
            crate::types::JobView {
                video_path: queue[k].0,
                subs: gs[unused[k]].entries,
                output_name: queue[k].1,
                match_stage: 3,
            },
    )
}

/// The left-over videos beyond the untaken groups stay unmatched.
pub open spec fn unmatched_videos(queue: Seq<(Seq<char>, Seq<char>)>, unused: Seq<int>) -> Seq<
    Seq<char>,
> {
    if queue.len() > unused.len() {
        queue.skip(unused.len() as int).map_values(|p: (Seq<char>, Seq<char>)| p.0)
    } else {
        seq![]
    }
}

pub open spec fn sorted_jobs(jobs: Seq<crate::types::JobView>) -> Seq<crate::types::JobView> {
    crate::text::sorted_by_key(
        jobs.map_values(|j: crate::types::JobView| (j.video_path, j)),
    ).map_values(|p: (Seq<char>, crate::types::JobView)| p.1)
}

/// The jobs (sorted by video) and the unmatched videos that
/// `match_videos_to_subs` gives for the listings of two folders.
pub open spec fn matching(video_names: Seq<Seq<char>>, sub_names: Seq<Seq<char>>) -> (
    Seq<crate::types::JobView>,
    Seq<Seq<char>>,
) {
    let vids = media_files(video_names, video_exts());
    let subs = media_files(sub_names, sub_exts());
    let gs = sorted_groups(subs);
    let st = match_all(gs, vids);
    let unused = unused_upto(st.used, gs.len() as int);
    (
        sorted_jobs(st.jobs + position_jobs(gs, st.queue, unused)),
        unmatched_videos(st.queue, unused),
    )
}

pub open spec fn group_views(v: Seq<SubGroup>) -> Seq<GroupView> {
    v.map_values(|g: SubGroup| g@)
}

fn find_norm_exec(gs: &Vec<SubGroup>, norm: &Vec<char>) -> (r: Option<usize>)
    ensures
        r matches Some(i) ==> find_norm(group_views(gs@), norm@) == Some(i as int) && i
            < gs@.len(),
        r is None ==> find_norm(group_views(gs@), norm@) is None,
{
    let ghost g = group_views(gs@);
    let mut i: usize = 0;
    while i < gs.len()
        invariant
            i <= gs@.len(),
            g == group_views(gs@),
            find_norm(g, norm@) == find_norm_from(g, norm@, i as int),
        decreases gs@.len() - i,
    {
        assert(g[i as int] == gs@[i as int]@);
        if chars_eq(&gs[i].norm, norm) {
            return Some(i);
        }
        i += 1;
    }
    None
}

fn opt_chars_eq(a: &Option<Vec<char>>, b: &Vec<char>) -> (r: bool)
    ensures
        r == (opt_chars(*a) == Some(b@)),
{
    match a {
        Some(x) => chars_eq(x, b),
        None => false,
    }
}

fn last_with_id_exec(gs: &Vec<SubGroup>, id: &Vec<char>) -> (r: Option<usize>)
    ensures
        r matches Some(i) ==> last_with_id(group_views(gs@), id@, gs@.len() as int) == Some(
            i as int,
        ) && i < gs@.len(),
        r is None ==> last_with_id(group_views(gs@), id@, gs@.len() as int) is None,
{
    let ghost g = group_views(gs@);
    let mut n = gs.len();
    while n > 0
        invariant
            n <= gs@.len(),
            g == group_views(gs@),
            last_with_id(g, id@, gs@.len() as int) == last_with_id(g, id@, n as int),
        decreases n,
    {
        assert(g[n - 1] == gs@[n - 1]@);
        if opt_chars_eq(&gs[n - 1].embedded_id, id) {
            return Some(n - 1);
        }
        n -= 1;
    }
    None
}

fn build_groups(subs: &Vec<String>) -> (r: Vec<SubGroup>)
    ensures
        group_views(r@) == groups_of(name_views(subs@)),
{
    let ghost sv = name_views(subs@);
    let mut gs: Vec<SubGroup> = Vec::new();
    let mut i: usize = 0;
    while i < subs.len()
        invariant
            i <= subs@.len(),
            sv == name_views(subs@),
            group_views(gs@) == groups_of(sv.take(i as int)),
        decreases subs@.len() - i,
    {
        assert(sv.take(i + 1).drop_last() =~= sv.take(i as int));
        assert(sv.take(i + 1).last() == subs@[i as int]@);
        let name = &subs[i];
        let (base, lang) = parse_sub_name(name.as_str());
        let norm_s = normalize_title(base.as_str());
        let norm = chars_of(norm_s.as_str());
        let entry = crate::types::SubEntry { path: name.clone(), lang };
        let ghost before = group_views(gs@);
        match find_norm_exec(&gs, &norm) {
            Some(k) => {
                let mut g = gs.remove(k);
                g.entries.push(entry);
                gs.insert(k, g);
                proof {
                    assert(crate::types::entry_views(g.entries@) =~= before[k as int].entries.push(
                        entry@,
                    ));
                    assert(group_views(gs@) =~= before.update(k as int, g@));
                }
            },
            None => {
                let id = extract_id(base.as_str());
                let embedded_id = match id {
                    Some(x) => Some(chars_of(x.as_str())),
                    None => None,
                };
                let mut entries: Vec<crate::types::SubEntry> = Vec::new();
                entries.push(entry);
                let g = SubGroup { entries, norm, embedded_id };
                gs.push(g);
                proof {
                    assert(crate::types::entry_views(g.entries@) =~= seq![entry@]);
                    assert(group_views(gs@) =~= before.push(g@));
                }
            },
        }
        i += 1;
    }
    assert(sv.take(subs@.len() as int) =~= sv);
    gs
}

fn sort_groups(gs: Vec<SubGroup>) -> (r: Vec<SubGroup>)
    ensures
        group_views(r@) == crate::text::sorted_by_key(
            group_views(gs@).map_values(|g: GroupView| (g.norm, g)),
        ).map_values(|p: (Seq<char>, GroupView)| p.1),
{
    let ghost gv = group_views(gs@);
    let mut keyed: Vec<(Vec<char>, SubGroup)> = Vec::new();
    let mut src = gs;
    // move the groups out, keeping their order
    let mut rev: Vec<SubGroup> = Vec::new();
    let ghost orig = src@;
    while src.len() > 0
        invariant
            rev@ + src@.reverse() =~= orig.reverse(),
        decreases src.len(),
    {
        let g = src.pop().unwrap();
        proof {
            assert(src@.push(g).reverse() =~= seq![g] + src@.reverse());
        }
        rev.push(g);
        proof {
            assert(rev@ + src@.reverse() =~= orig.reverse());
        }
    }
    assert(rev@ =~= orig.reverse());
    let total = rev.len();
    let mut n: usize = 0;
    while rev.len() > 0
        invariant
            n + rev@.len() == orig.len(),
            orig.len() == total,
            rev@ == orig.skip(n as int).reverse(),
            gv == group_views(orig),
            crate::text::keyed_views(keyed@) == gv.take(n as int).map_values(
                |g: GroupView| (g.norm, g),
            ),
        decreases rev.len(),
    {
        let g = rev.pop().unwrap();
        proof {
            assert(orig.skip(n as int).reverse().last() == orig[n as int]);
            assert(orig.skip(n as int).reverse().drop_last() =~= orig.skip(n + 1).reverse());
        }
        assert(g == orig[n as int]);
        let k = copy_chars(&g.norm);
        let ghost before = keyed@;
        keyed.push((k, g));
        proof {
            assert(gv[n as int] == orig[n as int]@);
            assert(crate::text::keyed_views(keyed@) =~= crate::text::keyed_views(before).push(
                (gv[n as int].norm, gv[n as int]),
            ));
            assert(gv.take(n + 1).map_values(|g: GroupView| (g.norm, g)) =~= gv.take(
                n as int,
            ).map_values(|g: GroupView| (g.norm, g)).push((gv[n as int].norm, gv[n as int])));
        }
        n += 1;
    }
    assert(gv.take(orig.len() as int) =~= gv);
    let sorted = crate::text::sort_by_key(keyed);
    let ghost sv = crate::text::keyed_views(sorted@);
    let mut src2 = sorted;
    let mut rev2: Vec<(Vec<char>, SubGroup)> = Vec::new();
    let ghost orig2 = src2@;
    while src2.len() > 0
        invariant
            rev2@ + src2@.reverse() =~= orig2.reverse(),
        decreases src2.len(),
    {
        let g = src2.pop().unwrap();
        proof {
            assert(src2@.push(g).reverse() =~= seq![g] + src2@.reverse());
        }
        rev2.push(g);
        proof {
            assert(rev2@ + src2@.reverse() =~= orig2.reverse());
        }
    }
    assert(rev2@ =~= orig2.reverse());
    let mut out: Vec<SubGroup> = Vec::new();
    let total2 = rev2.len();
    let mut m: usize = 0;
    while rev2.len() > 0
        invariant
            m + rev2@.len() == orig2.len(),
            orig2.len() == total2,
            rev2@ == orig2.skip(m as int).reverse(),
            sv == crate::text::keyed_views(orig2),
            group_views(out@) == sv.take(m as int).map_values(|p: (Seq<char>, GroupView)| p.1),
        decreases rev2.len(),
    {
        let p = rev2.pop().unwrap();
        proof {
            assert(orig2.skip(m as int).reverse().last() == orig2[m as int]);
            assert(orig2.skip(m as int).reverse().drop_last() =~= orig2.skip(m + 1).reverse());
        }
        assert(p == orig2[m as int]);
        let ghost before = out@;
        out.push(p.1);
        proof {
            assert(sv[m as int] == (orig2[m as int].0@, orig2[m as int].1@));
            assert(group_views(out@) =~= group_views(before).push(sv[m as int].1));
            assert(sv.take(m + 1).map_values(|p: (Seq<char>, GroupView)| p.1) =~= sv.take(
                m as int,
            ).map_values(|p: (Seq<char>, GroupView)| p.1).push(sv[m as int].1));
        }
        m += 1;
    }
    assert(sv.take(orig2.len() as int) =~= sv);
    out
}

pub open spec fn job_views(v: Seq<crate::types::MergeJob>) -> Seq<crate::types::JobView> {
    v.map_values(|j: crate::types::MergeJob| j@)
}

pub open spec fn queue_views(v: Seq<(String, String)>) -> Seq<(Seq<char>, Seq<char>)> {
    v.map_values(|p: (String, String)| (p.0@, p.1@))
}

fn make_job(name: &String, g: &SubGroup, output_name: String, stage: u8) -> (r:
    crate::types::MergeJob)
    ensures
        r@ == (crate::types::JobView {
            video_path: name@,
            subs: g@.entries,
            output_name: output_name@,
            match_stage: stage,
        }),
{
    crate::types::MergeJob {
        video_path: name.clone(),
        subs: crate::types::copy_entries(&g.entries),
        output_name,
        match_stage: stage,
    }
}

/// Matches every video file with its subtitle file(s).
///
/// `video_names` and `sub_names` list the files of the videos folder and
/// of the subtitles folder; only video (`mp4`, `webm`, `mkv`, `avi`,
/// `mov`) and subtitle (`srt`, `vtt`) files take part, in name order.
/// Subtitle files are grouped by normalized base title. Matching runs in
/// three stages:
/// 1. YouTube ID match  — most reliable
/// 2. Normalized title  — handles special-character differences
/// 3. Alphabetical position — last resort fallback
///
/// Returns `(matched jobs sorted by video, unmatched videos)`; jobs and
/// entries name files by their file names.
pub fn match_videos_to_subs(video_names: &Vec<String>, sub_names: &Vec<String>) -> (r: (
    Vec<crate::types::MergeJob>,
    Vec<String>,
))
    ensures
        job_views(r.0@) == matching(name_views(video_names@), name_views(sub_names@)).0,
        name_views(r.1@) == matching(name_views(video_names@), name_views(sub_names@)).1,
{
    let vids = select_files(video_names, true);
    let subs = select_files(sub_names, false);
    let built = build_groups(&subs);
    let groups = sort_groups(built);
    let ghost gs = group_views(groups@);
    let ghost vv = name_views(vids@);
    assert(gs == sorted_groups(name_views(subs@)));
    let mut used: Vec<bool> = Vec::new();
    let mut u: usize = 0;
    while u < groups.len()
        invariant
            u <= groups@.len(),
            used@ == Seq::new(u as nat, |i: int| false),
        decreases groups@.len() - u,
    {
        used.push(false);
        u += 1;
        assert(used@ =~= Seq::new(u as nat, |i: int| false));
    }
    let mut jobs: Vec<crate::types::MergeJob> = Vec::new();
    let mut queue: Vec<(String, String)> = Vec::new();
    assert(job_views(jobs@) =~= Seq::<crate::types::JobView>::empty());
    assert(queue_views(queue@) =~= Seq::<(Seq<char>, Seq<char>)>::empty());
    assert(vv.take(0) =~= Seq::<Seq<char>>::empty());
    let mut i: usize = 0;
    while i < vids.len()
        invariant
            i <= vids@.len(),
            vv == name_views(vids@),
            gs == group_views(groups@),
            ({
                let st = match_all(gs, vv.take(i as int));
                &&& job_views(jobs@) == st.jobs
                &&& used@ == st.used
                &&& queue_views(queue@) == st.queue
            }),
            used@.len() == groups@.len(),
        decreases vids@.len() - i,
    {
        assert(vv.take(i + 1).drop_last() =~= vv.take(i as int));
        assert(vv.take(i + 1).last() == vids@[i as int]@);
        let name = &vids[i];
        let (title, id) = parse_video_name(name.as_str());
        let norm_s = normalize_title(title.as_str());
        let norm = chars_of(norm_s.as_str());
        let output_name = clean_filename(title.as_str());
        let by_id: Option<usize> = match &id {
            Some(d) => {
                let dv = chars_of(d.as_str());
                last_with_id_exec(&groups, &dv)
            },
            None => None,
        };
        let ghost jb = jobs@;
        let ghost qb = queue@;
        match by_id {
            Some(k) => {
                let job = make_job(name, &groups[k], output_name, 1);
                assert(gs[k as int] == groups@[k as int]@);
                jobs.push(job);
                used.set(k, true);
                assert(job_views(jobs@) =~= job_views(jb).push(job@));
            },
            None => match find_norm_exec(&groups, &norm) {
                Some(k) => {
                    let job = make_job(name, &groups[k], output_name, 2);
                    assert(gs[k as int] == groups@[k as int]@);
                    jobs.push(job);
                    used.set(k, true);
                    assert(job_views(jobs@) =~= job_views(jb).push(job@));
                },
                None => {
                    let ghost o = output_name@;
                    queue.push((name.clone(), output_name));
                    assert(queue_views(queue@) =~= queue_views(qb).push((name@, o)));
                },
            },
        }
        i += 1;
    }
    assert(vv.take(vids@.len() as int) =~= vv);
    let ghost st = match_all(gs, vv);
    // the groups no video took, in increasing order
    let mut unused: Vec<usize> = Vec::new();
    let mut g: usize = 0;
    while g < used.len()
        invariant
            g <= used@.len(),
            used@ == st.used,
            used@.len() == gs.len(),
            unused@.map_values(|x: usize| x as int) == unused_upto(st.used, g as int),
            forall|k: int| 0 <= k < unused@.len() ==> unused@[k] < used@.len(),
        decreases used@.len() - g,
    {
        let ghost before = unused@;
        if !used[g] {
            unused.push(g);
            assert(unused@.map_values(|x: usize| x as int) =~= before.map_values(
                |x: usize| x as int,
            ).push(g as int));
        }
        g += 1;
    }
    let ghost un = unused_upto(st.used, gs.len() as int);
    // stage 3: position
    let mut unmatched: Vec<String> = Vec::new();
    let mut k: usize = 0;
    let ghost pj = position_jobs(gs, st.queue, un);
    while k < queue.len()
        invariant
            k <= queue@.len(),
            queue_views(queue@) == st.queue,
            gs == group_views(groups@),
            unused@.map_values(|x: usize| x as int) == un,
            forall|m: int| 0 <= m < unused@.len() ==> unused@[m] < groups@.len(),
            pj == position_jobs(gs, st.queue, un),
            job_views(jobs@) == st.jobs + pj.take(if k < un.len() { k as int } else { un.len() as int }),
            name_views(unmatched@) == (if k <= un.len() {
                Seq::<Seq<char>>::empty()
            } else {
                st.queue.subrange(un.len() as int, k as int).map_values(
                    |p: (Seq<char>, Seq<char>)| p.0,
                )
            }),
        decreases queue@.len() - k,
    {
        let ghost jb = jobs@;
        let ghost ub = unmatched@;
        assert(st.queue[k as int] == (queue@[k as int].0@, queue@[k as int].1@));
        if k < unused.len() {
            let gi = unused[k];
            assert(un[k as int] == gi as int);
            let job = make_job(&queue[k].0, &groups[gi], queue[k].1.clone(), 3);
            jobs.push(job);
            proof {
                assert(gs[gi as int] == groups@[gi as int]@);
                assert(pj[k as int] == job@);
                assert(job_views(jobs@) =~= job_views(jb).push(job@));
                assert(pj.take(k + 1) =~= pj.take(k as int).push(pj[k as int]));
            }
        } else {
            unmatched.push(queue[k].0.clone());
            proof {
                assert(name_views(unmatched@) =~= name_views(ub).push(queue@[k as int].0@));
                if k == un.len() {
                    assert(st.queue.subrange(un.len() as int, k + 1).map_values(
                        |p: (Seq<char>, Seq<char>)| p.0,
                    ) =~= seq![queue@[k as int].0@]);
                } else {
                    assert(st.queue.subrange(un.len() as int, k + 1).map_values(
                        |p: (Seq<char>, Seq<char>)| p.0,
                    ) =~= st.queue.subrange(un.len() as int, k as int).map_values(
                        |p: (Seq<char>, Seq<char>)| p.0,
                    ).push(queue@[k as int].0@));
                }
            }
        }
        k += 1;
    }
    proof {
        if queue@.len() < un.len() {
            assert(pj.take(queue@.len() as int) =~= pj);
        } else {
            assert(pj.take(un.len() as int) =~= pj);
        }
        if queue@.len() > un.len() {
            assert(st.queue.subrange(un.len() as int, queue@.len() as int) =~= st.queue.skip(
                un.len() as int,
            ));
        }
    }
    let ghost all = st.jobs + pj;
    assert(job_views(jobs@) == all);
    // sort the jobs by video
    let total = jobs.len();
    let mut keyed: Vec<(Vec<char>, crate::types::MergeJob)> = Vec::new();
    let mut src = jobs;
    let ghost orig = src@;
    let mut rev: Vec<crate::types::MergeJob> = Vec::new();
    while src.len() > 0
        invariant
            rev@ + src@.reverse() =~= orig.reverse(),
        decreases src.len(),
    {
        let x = src.pop().unwrap();
        proof {
            assert(src@.push(x).reverse() =~= seq![x] + src@.reverse());
        }
        rev.push(x);
        proof {
            assert(rev@ + src@.reverse() =~= orig.reverse());
        }
    }
    assert(rev@ =~= orig.reverse());
    let mut n: usize = 0;
    while rev.len() > 0
        invariant
            n + rev@.len() == orig.len(),
            orig.len() == total,
            rev@ == orig.skip(n as int).reverse(),
            all == job_views(orig),
            crate::text::keyed_views(keyed@) == all.take(n as int).map_values(
                |j: crate::types::JobView| (j.video_path, j),
            ),
        decreases rev.len(),
    {
        let x = rev.pop().unwrap();
        proof {
            assert(orig.skip(n as int).reverse().last() == orig[n as int]);
            assert(orig.skip(n as int).reverse().drop_last() =~= orig.skip(n + 1).reverse());
        }
        assert(x == orig[n as int]);
        let key = chars_of(x.video_path.as_str());
        let ghost before = keyed@;
        keyed.push((key, x));
        proof {
            assert(all[n as int] == orig[n as int]@);
            assert(crate::text::keyed_views(keyed@) =~= crate::text::keyed_views(before).push(
                (all[n as int].video_path, all[n as int]),
            ));
            assert(all.take(n + 1).map_values(|j: crate::types::JobView| (j.video_path, j))
                =~= all.take(n as int).map_values(
                |j: crate::types::JobView| (j.video_path, j),
            ).push((all[n as int].video_path, all[n as int])));
        }
        n += 1;
    }
    assert(all.take(orig.len() as int) =~= all);
    let sorted = crate::text::sort_by_key(keyed);
    let out = crate::text::unkey(sorted);
    (out, unmatched)
}

// ── laws of the matching ─────────────────────────────────────────────────────

/// The videos of a list of jobs.
pub open spec fn videos_of(js: Seq<crate::types::JobView>) -> Seq<Seq<char>> {
    js.map_values(|j: crate::types::JobView| j.video_path)
}

pub open spec fn queued_videos(q: Seq<(Seq<char>, Seq<char>)>) -> Seq<Seq<char>> {
    q.map_values(|p: (Seq<char>, Seq<char>)| p.0)
}

proof fn lemma_match_all_videos(gs: Seq<GroupView>, vids: Seq<Seq<char>>)
    ensures
        videos_of(match_all(gs, vids).jobs).to_multiset().add(
            queued_videos(match_all(gs, vids).queue).to_multiset(),
        ) == vids.to_multiset(),
    decreases vids.len(),
{
    broadcast use vstd::seq_lib::group_to_multiset_ensures;

    if vids.len() == 0 {
        assert(videos_of(match_all(gs, vids).jobs) =~= Seq::<Seq<char>>::empty());
        assert(queued_videos(match_all(gs, vids).queue) =~= Seq::<Seq<char>>::empty());
        assert(vids =~= Seq::<Seq<char>>::empty());
        assert(vstd::multiset::Multiset::<Seq<char>>::empty().add(vstd::multiset::Multiset::empty()) =~= vstd::multiset::Multiset::empty());
    } else {
        let p = vids.drop_last();
        let name = vids.last();
        lemma_match_all_videos(gs, p);
        let st = match_all(gs, p);
        let st2 = match_all(gs, vids);
        assert(vids =~= p.push(name));
        assert(st2 == match_video(gs, st, name));
        if st2.jobs.len() == st.jobs.len() + 1 {
            assert(videos_of(st2.jobs) =~= videos_of(st.jobs).push(name)) by {
                assert(st2.jobs.last().video_path == name);
                assert(st2.jobs.drop_last() == st.jobs);
            }
            assert(st2.queue == st.queue);
            assert(videos_of(st2.jobs).to_multiset().add(queued_videos(st2.queue).to_multiset())
                =~= vids.to_multiset());
        } else {
            assert(st2.jobs == st.jobs);
            assert(queued_videos(st2.queue) =~= queued_videos(st.queue).push(name)) by {
                assert(st2.queue.last().0 == name);
                assert(st2.queue.drop_last() == st.queue);
            }
            assert(videos_of(st2.jobs).to_multiset().add(queued_videos(st2.queue).to_multiset())
                =~= vids.to_multiset());
        }
    }
}

proof fn lemma_sorted_jobs(all: Seq<crate::types::JobView>)
    ensures
        videos_of(sorted_jobs(all)).to_multiset() == videos_of(all).to_multiset(),
        forall|i: int, j: int|
            0 <= i < j < sorted_jobs(all).len() ==> !crate::text::str_lt(
                #[trigger] sorted_jobs(all)[j].video_path,
                #[trigger] sorted_jobs(all)[i].video_path,
            ),
{
    let keyed = all.map_values(|j: crate::types::JobView| (j.video_path, j));
    let srt = crate::text::sorted_by_key(keyed);
    let f = |p: (Seq<char>, crate::types::JobView)| p.1.video_path;
    crate::text::lemma_sorted_by_key_map_multiset(keyed, f);
    crate::text::lemma_sorted_by_key(keyed);
    assert(videos_of(sorted_jobs(all)) =~= srt.map_values(f));
    assert(videos_of(all) =~= keyed.map_values(f));
    assert forall|i: int| 0 <= i < srt.len() implies #[trigger] srt[i].0 == srt[i].1.video_path by {
        crate::text::lemma_sorted_by_key_contains(keyed, i);
        let k = choose|k: int| 0 <= k < keyed.len() && keyed[k] == srt[i];
    }
    assert forall|i: int, j: int| 0 <= i < j < sorted_jobs(all).len() implies !crate::text::str_lt(
        #[trigger] sorted_jobs(all)[j].video_path,
        #[trigger] sorted_jobs(all)[i].video_path,
    ) by {
        assert(srt[i].0 == srt[i].1.video_path);
        assert(srt[j].0 == srt[j].1.video_path);
    }
}

/// Every selected video appears exactly once: in a job, or among the
/// unmatched videos; so jobs and unmatched videos together are as many as
/// the selected videos.
pub proof fn lemma_every_video_once(video_names: Seq<Seq<char>>, sub_names: Seq<Seq<char>>)
    ensures
        videos_of(matching(video_names, sub_names).0).to_multiset().add(
            matching(video_names, sub_names).1.to_multiset(),
        ) == media_files(video_names, video_exts()).to_multiset(),
        matching(video_names, sub_names).0.len() + matching(video_names, sub_names).1.len()
            == media_files(video_names, video_exts()).len(),
{
    broadcast use vstd::seq_lib::group_to_multiset_ensures;

    let vids = media_files(video_names, video_exts());
    let subs = media_files(sub_names, sub_exts());
    let gs = sorted_groups(subs);
    let st = match_all(gs, vids);
    let un = unused_upto(st.used, gs.len() as int);
    let pj = position_jobs(gs, st.queue, un);
    let um = unmatched_videos(st.queue, un);
    lemma_match_all_videos(gs, vids);
    lemma_sorted_jobs(st.jobs + pj);
    let q = queued_videos(st.queue);
    let m = if st.queue.len() < un.len() {
        st.queue.len() as int
    } else {
        un.len() as int
    };
    assert(videos_of(pj) =~= q.take(m));
    assert(um =~= q.skip(m));
    assert(q =~= q.take(m) + q.skip(m));
    vstd::seq_lib::lemma_multiset_commutative(q.take(m), q.skip(m));
    assert(videos_of(st.jobs + pj) =~= videos_of(st.jobs) + videos_of(pj));
    vstd::seq_lib::lemma_multiset_commutative(videos_of(st.jobs), videos_of(pj));
    assert(videos_of(matching(video_names, sub_names).0).to_multiset().add(um.to_multiset())
        =~= vids.to_multiset());
    assert(videos_of(matching(video_names, sub_names).0).len() == matching(
        video_names,
        sub_names,
    ).0.len());
    assert(videos_of(matching(video_names, sub_names).0).to_multiset().add(um.to_multiset()).len()
        == vids.to_multiset().len());
}

proof fn lemma_names_with_ext_count(names: Seq<Seq<char>>, exts: Seq<Seq<char>>, v: Seq<char>)
    ensures
        names_with_ext(names, exts).to_multiset().count(v) == if has_ext_in(v, exts) {
            names.to_multiset().count(v)
        } else {
            0
        },
    decreases names.len(),
{
    broadcast use vstd::seq_lib::group_to_multiset_ensures;

    if names.len() == 0 {
        assert(names_with_ext(names, exts) =~= Seq::<Seq<char>>::empty());
    } else {
        let p = names.drop_last();
        lemma_names_with_ext_count(p, exts, names.last());
        lemma_names_with_ext_count(p, exts, v);
        assert(names =~= p.push(names.last()));
    }
}

/// A file of the video folder is taken as a video exactly when its
/// lowercased extension is `mp4`, `webm`, `mkv`, `avi` or `mov`: each such
/// file appears among the jobs and the unmatched videos as often as the
/// listing holds it (once, in a folder listing), and no other file appears
/// there.
pub proof fn lemma_videos_by_extension(
    video_names: Seq<Seq<char>>,
    sub_names: Seq<Seq<char>>,
    v: Seq<char>,
)
    ensures
        videos_of(matching(video_names, sub_names).0).to_multiset().add(
            matching(video_names, sub_names).1.to_multiset(),
        ).count(v) == if (match file_ext(v) {
            Some(e) => seq!["mp4"@, "webm"@, "mkv"@, "avi"@, "mov"@].contains(lowercase(e)),
            None => false,
        }) {
            video_names.to_multiset().count(v)
        } else {
            0
        },
{
    lemma_every_video_once(video_names, sub_names);
    crate::cli::lemma_sorted_names_items(names_with_ext(video_names, video_exts()));
    lemma_names_with_ext_count(video_names, video_exts(), v);
    assert(video_exts() =~= seq!["mp4"@, "webm"@, "mkv"@, "avi"@, "mov"@]);
}

/// A file of the subtitle folder is taken as a subtitle exactly when its
/// lowercased extension is `srt` or `vtt`.
pub proof fn lemma_subtitles_by_extension(sub_names: Seq<Seq<char>>, n: Seq<char>)
    ensures
        media_files(sub_names, sub_exts()).contains(n) <==> sub_names.contains(n) && match file_ext(
            n,
        ) {
            Some(e) => seq!["srt"@, "vtt"@].contains(lowercase(e)),
            None => false,
        },
{
    broadcast use vstd::seq_lib::group_to_multiset_ensures;

    crate::cli::lemma_sorted_names_items(names_with_ext(sub_names, sub_exts()));
    lemma_names_with_ext_count(sub_names, sub_exts(), n);
    assert(sub_exts() =~= seq!["srt"@, "vtt"@]);
}

/// The jobs come sorted by video file name.
pub proof fn lemma_jobs_sorted_by_video(video_names: Seq<Seq<char>>, sub_names: Seq<Seq<char>>)
    ensures
        forall|i: int, j: int|
            0 <= i < j < matching(video_names, sub_names).0.len() ==> !crate::text::str_lt(
                #[trigger] matching(video_names, sub_names).0[j].video_path,
                #[trigger] matching(video_names, sub_names).0[i].video_path,
            ),
{
    let vids = media_files(video_names, video_exts());
    let subs = media_files(sub_names, sub_exts());
    let gs = sorted_groups(subs);
    let st = match_all(gs, vids);
    let un = unused_upto(st.used, gs.len() as int);
    lemma_sorted_jobs(st.jobs + position_jobs(gs, st.queue, un));
}

// ── ffmpeg ───────────────────────────────────────────────────────────────────

/// How many lines of `s` hold something other than whitespace, lines being
/// separated by `\n` (what counting the non-blank `lines()` of ffprobe's
/// output gives: one line per subtitle stream).
pub open spec fn content_lines(s: Seq<char>) -> (nat, bool)
    decreases s.len(),
{
    if s.len() == 0 {
        (0, false)
    } else {
        let (c, h) = content_lines(s.drop_last());
        if s.last() == '\n' {
            (if h { c + 1 } else { c }, false)
        } else {
            (c, h || !crate::text::is_ws(s.last()))
        }
    }
}

pub open spec fn count_content_lines(s: Seq<char>) -> nat {
    let (c, h) = content_lines(s);
    if h {
        c + 1
    } else {
        c
    }
}

/// The number of subtitle streams that ffprobe's output lists: its
/// non-blank lines.
pub fn count_subtitle_streams_in(output: &str) -> (r: usize)
    ensures
        r == count_content_lines(output@),
{
    let v = chars_of(output);
    let mut count: usize = 0;
    let mut has: bool = false;
    let mut i: usize = 0;
    while i < v.len()
        invariant
            i <= v.len(),
            (count as nat, has) == content_lines(v@.take(i as int)),
            count + (if has { 1int } else { 0int }) <= i,
            v@.len() == v.len(),
        decreases v.len() - i,
    {
        assert(v@.take(i + 1).drop_last() =~= v@.take(i as int));
        assert(v@.take(i + 1).last() == v@[i as int]);
        let c = v[i];
        if c == '\n' {
            if has {
                count += 1;
            }
            has = false;
        } else if !is_whitespace(c) {
            has = true;
        }
        i += 1;
    }
    assert(v@.take(v.len() as int) =~= v@);
    if has {
        count + 1
    } else {
        count
    }
}

/// The decimal text of `n`.
pub fn decimal_string(n: u128) -> (r: String)
    ensures
        r@ == decimal(n as nat),
{
    let mut v: Vec<char> = Vec::new();
    push_decimal(&mut v, n);
    assert(v@ =~= decimal(n as nat));
    string_of(&v)
}

/// `prefix` followed by the decimal text of `n`.
fn prefixed_decimal(prefix: &str, n: u128) -> (r: String)
    ensures
        r@ == prefix@ + decimal(n as nat),
{
    let mut v: Vec<char> = Vec::new();
    append_str(&mut v, prefix);
    push_decimal(&mut v, n);
    string_of(&v)
}

/// `prefix` followed by `s`.
fn prefixed(prefix: &str, s: &str) -> (r: String)
    ensures
        r@ == prefix@ + s@,
{
    let mut v: Vec<char> = Vec::new();
    append_str(&mut v, prefix);
    append_str(&mut v, s);
    string_of(&v)
}

/// The `-map` arguments of a merge: the video (input 0) and each of the
/// `n` subtitle inputs (1..=n).
pub open spec fn map_args(n: nat) -> Seq<Seq<char>>
    decreases n,
{
    if n == 0 {
        seq!["-map"@, "0"@]
    } else {
        map_args((n - 1) as nat).push("-map"@).push(decimal(n))
    }
}

/// The `-map` arguments for the video and `n_subs` subtitle inputs.
pub fn ffmpeg_map_args(n_subs: usize) -> (r: Vec<String>)
    ensures
        name_views(r@) == map_args(n_subs as nat),
{
    let mut r: Vec<String> = Vec::new();
    r.push("-map".to_string());
    r.push("0".to_string());
    assert(name_views(r@) =~= map_args(0));
    let mut i: usize = 0;
    while i < n_subs
        invariant
            i <= n_subs,
            name_views(r@) == map_args(i as nat),
        decreases n_subs - i,
    {
        let ghost before = r@;
        r.push("-map".to_string());
        r.push(decimal_string(i as u128 + 1));
        assert(name_views(r@) =~= name_views(before).push("-map"@).push(decimal((i + 1) as nat)));
        i += 1;
    }
    r
}

/// The metadata arguments for the subtitle tracks: track `existing + i`
/// (after the tracks already in the video) gets the ISO code and the
/// display name of the `i`-th language.
pub open spec fn metadata_args(langs: Seq<Seq<char>>, existing: nat) -> Seq<Seq<char>>
    decreases langs.len(),
{
    if langs.len() == 0 {
        seq![]
    } else {
        let i = (langs.len() - 1) as nat;
        let sel = "-metadata:s:s:"@ + decimal(existing + i);
        metadata_args(langs.drop_last(), existing).push(sel).push(
            "language="@ + iso639_2_code(langs.last()),
        ).push(sel).push("title="@ + display_name(langs.last()))
    }
}

/// New subtitle tracks are numbered after the existing ones: the `i`-th
/// language sets the metadata of track `existing + i` (its language, then
/// its title), so the tracks already in the video keep theirs.
pub proof fn lemma_metadata_targets_new_tracks(langs: Seq<Seq<char>>, existing: nat)
    ensures
        metadata_args(langs, existing).len() == 4 * langs.len(),
        forall|i: int|
            0 <= i < langs.len() ==> {
                &&& #[trigger] metadata_args(langs, existing)[4 * i] == "-metadata:s:s:"@ + decimal(
                    (existing + i) as nat,
                )
                &&& metadata_args(langs, existing)[4 * i + 1] == "language="@ + iso639_2_code(
                    langs[i],
                )
                &&& metadata_args(langs, existing)[4 * i + 2] == "-metadata:s:s:"@ + decimal(
                    (existing + i) as nat,
                )
                &&& metadata_args(langs, existing)[4 * i + 3] == "title="@ + display_name(langs[i])
            },
    decreases langs.len(),
{
    if langs.len() > 0 {
        let dl = langs.drop_last();
        lemma_metadata_targets_new_tracks(dl, existing);
        let m = metadata_args(langs, existing);
        let p = metadata_args(dl, existing);
        assert forall|i: int| 0 <= i < langs.len() implies {
            &&& #[trigger] m[4 * i] == "-metadata:s:s:"@ + decimal((existing + i) as nat)
            &&& m[4 * i + 1] == "language="@ + iso639_2_code(langs[i])
            &&& m[4 * i + 2] == "-metadata:s:s:"@ + decimal((existing + i) as nat)
            &&& m[4 * i + 3] == "title="@ + display_name(langs[i])
        } by {
            if i < dl.len() {
                assert(4 * i + 3 < p.len());
                assert(m[4 * i] == p[4 * i]);
                assert(m[4 * i + 1] == p[4 * i + 1]);
                assert(m[4 * i + 2] == p[4 * i + 2]);
                assert(m[4 * i + 3] == p[4 * i + 3]);
                assert(dl[i] == langs[i]);
            } else {
                assert(i == dl.len());
                assert(4 * i == p.len());
            }
        }
    }
}

/// The metadata arguments for subtitle tracks in `langs`, numbered after
/// the `existing` subtitle tracks so that their metadata is left alone.
pub fn ffmpeg_metadata_args(langs: &Vec<String>, existing: usize) -> (r: Vec<String>)
    ensures
        name_views(r@) == metadata_args(name_views(langs@), existing as nat),
{
    let ghost lv = name_views(langs@);
    let mut r: Vec<String> = Vec::new();
    let mut i: usize = 0;
    assert(lv.take(0) =~= Seq::<Seq<char>>::empty());
    while i < langs.len()
        invariant
            i <= langs@.len(),
            lv == name_views(langs@),
            name_views(r@) == metadata_args(lv.take(i as int), existing as nat),
        decreases langs@.len() - i,
    {
        assert(lv.take(i + 1).drop_last() =~= lv.take(i as int));
        assert(lv.take(i + 1).last() == langs@[i as int]@);
        let idx: u128 = existing as u128 + i as u128;
        let sel = prefixed_decimal("-metadata:s:s:", idx);
        let sel2 = prefixed_decimal("-metadata:s:s:", idx);
        let iso = to_iso639_2(langs[i].as_str());
        let name = lang_display_name(langs[i].as_str());
        let ghost before = r@;
        let l1 = prefixed("language=", iso.as_str());
        let l2 = prefixed("title=", name.as_str());
        r.push(sel);
        r.push(l1);
        r.push(sel2);
        r.push(l2);
        assert(name_views(r@) =~= name_views(before).push(sel@).push(l1@).push(sel2@).push(l2@));
        i += 1;
    }
    assert(lv.take(langs@.len() as int) =~= lv);
    r
}

/// The file name of a merged video: its output name with `.mkv`.
pub fn merged_file_name(output_name: &str) -> (r: String)
    ensures
        r@ == output_name@ + ".mkv"@,
{
    let mut v = chars_of(output_name);
    append_str(&mut v, ".mkv");
    string_of(&v)
}

/// The name of the folder that receives merged videos by default: the
/// videos folder's name with ` merged`.
pub fn merged_folder_name(videos_dir_name: &str) -> (r: String)
    ensures
        r@ == videos_dir_name@ + " merged"@,
{
    let mut v = chars_of(videos_dir_name);
    append_str(&mut v, " merged");
    string_of(&v)
}

/// The file name a single merge writes: the cleaned title of the video with
/// `.mkv`, or with `_merged.mkv` when that would be the video itself (the
/// output going to the video's own folder).
pub open spec fn single_output_name(video_file_name: Seq<char>, same_folder: bool) -> Seq<char> {
    let out = clean_name(video_name_parts(video_file_name).0);
    let candidate = out + ".mkv"@;
    if same_folder && candidate == video_file_name {
        out + "_merged.mkv"@
    } else {
        candidate
    }
}

/// A single merge into the video's own folder never writes onto the video.
pub proof fn lemma_single_output_is_not_the_source(video_file_name: Seq<char>)
    ensures
        single_output_name(video_file_name, true) != video_file_name,
{
    reveal_strlit(".mkv");
    reveal_strlit("_merged.mkv");
    let out = clean_name(video_name_parts(video_file_name).0);
    if out + ".mkv"@ == video_file_name {
        assert((out + "_merged.mkv"@).len() != video_file_name.len());
    }
}

/// The file name `merge_single` writes before avoiding existing files;
/// `same_folder` tells whether the output folder is the video's own.
pub fn merge_single_output_name(video_file_name: &str, same_folder: bool) -> (r: String)
    ensures
        r@ == single_output_name(video_file_name@, same_folder),
{
    let (title, _) = parse_video_name(video_file_name);
    let out = clean_filename(title.as_str());
    let mut c = chars_of(out.as_str());
    append_str(&mut c, ".mkv");
    let vf = chars_of(video_file_name);
    if same_folder && chars_eq(&c, &vf) {
        let mut m = chars_of(out.as_str());
        append_str(&mut m, "_merged.mkv");
        string_of(&m)
    } else {
        string_of(&c)
    }
}

/// The languages of subtitle files, read from their names.
pub fn sub_file_langs(sub_file_names: &Vec<String>) -> (r: Vec<String>)
    ensures
        name_views(r@) == name_views(sub_file_names@).map_values(
            |n: Seq<char>| sub_name_parts(n).1,
        ),
{
    let ghost sv = name_views(sub_file_names@);
    let mut r: Vec<String> = Vec::new();
    let mut i: usize = 0;
    while i < sub_file_names.len()
        invariant
            i <= sub_file_names@.len(),
            sv == name_views(sub_file_names@),
            name_views(r@) == sv.take(i as int).map_values(|n: Seq<char>| sub_name_parts(n).1),
        decreases sub_file_names@.len() - i,
    {
        let (_, lang) = parse_sub_name(sub_file_names[i].as_str());
        let ghost before = r@;
        r.push(lang);
        proof {
            assert(sv[i as int] == sub_file_names@[i as int]@);
            assert(name_views(r@) =~= name_views(before).push(sub_name_parts(sv[i as int]).1));
            assert(sv.take(i + 1).map_values(|n: Seq<char>| sub_name_parts(n).1) =~= sv.take(
                i as int,
            ).map_values(|n: Seq<char>| sub_name_parts(n).1).push(sub_name_parts(sv[i as int]).1));
        }
        i += 1;
    }
    assert(sv.take(sub_file_names@.len() as int) =~= sv);
    r
}

/// How many jobs were matched by position only (stage 3).
pub open spec fn position_match_count(js: Seq<crate::types::MergeJob>) -> nat
    decreases js.len(),
{
    if js.len() == 0 {
        0
    } else {
        position_match_count(js.drop_last()) + if js.last().match_stage == 3 {
            1nat
        } else {
            0nat
        }
    }
}

/// The number of jobs matched by position only, which deserve a manual check.
pub fn count_position_matches(jobs: &Vec<crate::types::MergeJob>) -> (r: usize)
    ensures
        r == position_match_count(jobs@),
{
    let mut n: usize = 0;
    let mut i: usize = 0;
    while i < jobs.len()
        invariant
            i <= jobs@.len(),
            n == position_match_count(jobs@.take(i as int)),
            n <= i,
        decreases jobs@.len() - i,
    {
        assert(jobs@.take(i + 1).drop_last() =~= jobs@.take(i as int));
        if jobs[i].match_stage == 3 {
            n += 1;
        }
        i += 1;
    }
    assert(jobs@.take(jobs@.len() as int) =~= jobs@);
    n
}

// ── what the matching gives ─────────────────────────────────────────────────

proof fn lemma_groups_nonempty(subs: Seq<Seq<char>>)
    ensures
        forall|i: int|
            0 <= i < groups_of(subs).len() ==> (#[trigger] groups_of(subs)[i]).entries.len() > 0,
    decreases subs.len(),
{
    if subs.len() > 0 {
        lemma_groups_nonempty(subs.drop_last());
        let gs = groups_of(subs.drop_last());
        let name = subs.last();
        let parts = sub_name_parts(name);
        let norm = normalized(parts.0);
        let e = crate::types::EntryView { path: name, lang: parts.1 };
        assert(groups_of(subs) == add_sub(gs, name));
        lemma_find_norm_range(gs, norm, 0);
        match find_norm(gs, norm) {
            Some(i) => {
                assert(groups_of(subs) == gs.update(
                    i,
                    GroupView { entries: gs[i].entries.push(e), norm: gs[i].norm, id: gs[i].id },
                ));
                assert forall|k: int|
                    0 <= k < groups_of(subs).len() implies (#[trigger] groups_of(
                    subs,
                )[k]).entries.len() > 0 by {
                    if k != i {
                        assert(groups_of(subs)[k] == gs[k]);
                    }
                }
            },
            None => {
                assert forall|k: int|
                    0 <= k < groups_of(subs).len() implies (#[trigger] groups_of(
                    subs,
                )[k]).entries.len() > 0 by {
                    if k < gs.len() {
                        assert(groups_of(subs)[k] == gs[k]);
                    }
                }
            },
        }
    }
}

proof fn lemma_sorted_groups_nonempty(subs: Seq<Seq<char>>)
    ensures
        forall|i: int|
            0 <= i < sorted_groups(subs).len() ==> (#[trigger] sorted_groups(subs)[i]).entries.len()
                > 0,
{
    lemma_groups_nonempty(subs);
    let gs = groups_of(subs);
    let ps = gs.map_values(|g: GroupView| (g.norm, g));
    let sb = crate::text::sorted_by_key(ps);
    assert forall|i: int| 0 <= i < sorted_groups(subs).len() implies (#[trigger] sorted_groups(
        subs,
    )[i]).entries.len() > 0 by {
        crate::text::lemma_sorted_by_key_contains(ps, i);
        let k = choose|k: int| 0 <= k < ps.len() && ps[k] == sb[i];
        assert(ps[k].1 == gs[k]);
        assert(sorted_groups(subs)[i] == sb[i].1);
    }
}

proof fn lemma_last_with_id_range(gs: Seq<GroupView>, id: Seq<char>, n: int)
    ensures
        last_with_id(gs, id, n) matches Some(i) ==> 0 <= i < n && n <= gs.len(),
    decreases n,
{
    if n > 0 && n <= gs.len() && gs[n - 1].id != Some(id) {
        lemma_last_with_id_range(gs, id, n - 1);
    }
}

proof fn lemma_find_norm_range(gs: Seq<GroupView>, norm: Seq<char>, i: int)
    requires
        0 <= i,
    ensures
        find_norm_from(gs, norm, i) matches Some(k) ==> i <= k < gs.len(),
    decreases gs.len() - i,
{
    if i < gs.len() && gs[i].norm != norm {
        lemma_find_norm_range(gs, norm, i + 1);
    }
}

/// The names of `v` in non-decreasing order.
pub open spec fn names_sorted(v: Seq<Seq<char>>) -> bool {
    forall|a: int, b: int|
        0 <= a < b < v.len() ==> !crate::text::str_lt(#[trigger] v[b], #[trigger] v[a])
}

/// A job holds subtitle files, was matched at stage 1, 2 or 3, and is
/// named after its video's cleaned title.
pub open spec fn job_well_formed(j: crate::types::JobView) -> bool {
    &&& j.subs.len() > 0
    &&& 1 <= j.match_stage <= 3
    &&& j.output_name == clean_name(video_name_parts(j.video_path).0)
}

proof fn lemma_match_all(gs: Seq<GroupView>, vids: Seq<Seq<char>>)
    requires
        forall|i: int| 0 <= i < gs.len() ==> (#[trigger] gs[i]).entries.len() > 0,
    ensures
        match_all(gs, vids).used.len() == gs.len(),
        forall|k: int|
            0 <= k < match_all(gs, vids).jobs.len() ==> job_well_formed(
                #[trigger] match_all(gs, vids).jobs[k],
            ),
        forall|k: int|
            0 <= k < match_all(gs, vids).queue.len() ==> (#[trigger] match_all(
                gs,
                vids,
            ).queue[k]).1 == clean_name(video_name_parts(match_all(gs, vids).queue[k].0).0)
                && vids.contains(match_all(gs, vids).queue[k].0),
        names_sorted(vids) ==> names_sorted(
            match_all(gs, vids).queue.map_values(|p: (Seq<char>, Seq<char>)| p.0),
        ),
    decreases vids.len(),
{
    if vids.len() > 0 {
        let dl = vids.drop_last();
        let name = vids.last();
        lemma_match_all(gs, dl);
        let st = match_all(gs, dl);
        let st2 = match_all(gs, vids);
        let parts = video_name_parts(name);
        let norm = normalized(parts.0);
        match parts.1 {
            Some(d) => lemma_last_with_id_range(gs, d, gs.len() as int),
            None => {},
        }
        lemma_find_norm_range(gs, norm, 0);
        assert forall|k: int| 0 <= k < st2.jobs.len() implies job_well_formed(
            #[trigger] st2.jobs[k],
        ) by {
            if k < st.jobs.len() {
                assert(st2.jobs[k] == st.jobs[k]);
            }
        }
        assert forall|k: int| 0 <= k < st.queue.len() implies vids.contains(
            #[trigger] st.queue[k].0,
        ) by {
            let j = choose|j: int| 0 <= j < dl.len() && dl[j] == st.queue[k].0;
            assert(vids[j] == dl[j]);
        }
        assert(vids[vids.len() - 1] == name);
        assert forall|k: int| 0 <= k < st2.queue.len() implies (#[trigger] st2.queue[k]).1
            == clean_name(video_name_parts(st2.queue[k].0).0) && vids.contains(st2.queue[k].0) by {
            if k < st.queue.len() {
                assert(st2.queue[k] == st.queue[k]);
            }
        }
        if names_sorted(vids) {
            assert(names_sorted(dl)) by {
                assert forall|a: int, b: int| 0 <= a < b < dl.len() implies !crate::text::str_lt(
                    #[trigger] dl[b],
                    #[trigger] dl[a],
                ) by {
                    assert(dl[a] == vids[a] && dl[b] == vids[b]);
                }
            }
            let q = st.queue.map_values(|p: (Seq<char>, Seq<char>)| p.0);
            let q2 = st2.queue.map_values(|p: (Seq<char>, Seq<char>)| p.0);
            if st2.queue.len() > st.queue.len() {
                assert(q2 =~= q.push(name));
                assert forall|a: int, b: int| 0 <= a < b < q2.len() implies !crate::text::str_lt(
                    #[trigger] q2[b],
                    #[trigger] q2[a],
                ) by {
                    if b < q.len() {
                        assert(q2[a] == q[a] && q2[b] == q[b]);
                    } else {
                        assert(q2[a] == st.queue[a].0);
                        let j = choose|j: int| 0 <= j < dl.len() && dl[j] == st.queue[a].0;
                        assert(vids[j] == dl[j]);
                        assert(!crate::text::str_lt(vids[vids.len() - 1], vids[j]));
                    }
                }
            } else {
                assert(q2 =~= q);
            }
        }
    } else {
        let st = match_all(gs, vids);
        assert(st.queue.map_values(|p: (Seq<char>, Seq<char>)| p.0) =~= Seq::<Seq<char>>::empty());
    }
}

proof fn lemma_unused_range(used: Seq<bool>, n: int)
    ensures
        forall|k: int|
            0 <= k < unused_upto(used, n).len() ==> 0 <= #[trigger] unused_upto(used, n)[k] < n,
    decreases n,
{
    if n > 0 && n <= used.len() {
        lemma_unused_range(used, n - 1);
        let u = unused_upto(used, n - 1);
        assert forall|k: int| 0 <= k < unused_upto(used, n).len() implies 0
            <= #[trigger] unused_upto(used, n)[k] < n by {
            if k < u.len() {
                assert(unused_upto(used, n)[k] == u[k]);
            }
        }
    }
}

/// Every job holds subtitle files, was matched at stage 1, 2 or 3, and is
/// named after its video's cleaned title.
pub proof fn lemma_jobs_well_formed(video_names: Seq<Seq<char>>, sub_names: Seq<Seq<char>>)
    ensures
        forall|k: int|
            0 <= k < matching(video_names, sub_names).0.len() ==> job_well_formed(
                #[trigger] matching(video_names, sub_names).0[k],
            ),
{
    let vids = media_files(video_names, video_exts());
    let subs = media_files(sub_names, sub_exts());
    let gs = sorted_groups(subs);
    lemma_sorted_groups_nonempty(subs);
    lemma_match_all(gs, vids);
    let st = match_all(gs, vids);
    let unused = unused_upto(st.used, gs.len() as int);
    lemma_unused_range(st.used, gs.len() as int);
    let pj = position_jobs(gs, st.queue, unused);
    let all = st.jobs + pj;
    assert forall|k: int| 0 <= k < all.len() implies job_well_formed(#[trigger] all[k]) by {
        if k < st.jobs.len() {
            assert(all[k] == st.jobs[k]);
        } else {
            let m = k - st.jobs.len();
            assert(all[k] == pj[m]);
            assert(st.queue[m].1 == clean_name(video_name_parts(st.queue[m].0).0));
            assert(0 <= unused[m] < gs.len());
        }
    }
    let ps = all.map_values(|j: crate::types::JobView| (j.video_path, j));
    let sb = crate::text::sorted_by_key(ps);
    assert forall|k: int|
        0 <= k < matching(video_names, sub_names).0.len() implies job_well_formed(
        #[trigger] matching(video_names, sub_names).0[k],
    ) by {
        crate::text::lemma_sorted_by_key_contains(ps, k);
        let i = choose|i: int| 0 <= i < ps.len() && ps[i] == sb[k];
        assert(ps[i].1 == all[i]);
        assert(matching(video_names, sub_names).0[k] == sb[k].1);
    }
}

/// The unmatched videos come out in name order.
pub proof fn lemma_unmatched_sorted(video_names: Seq<Seq<char>>, sub_names: Seq<Seq<char>>)
    ensures
        names_sorted(matching(video_names, sub_names).1),
{
    let vids = media_files(video_names, video_exts());
    let subs = media_files(sub_names, sub_exts());
    let gs = sorted_groups(subs);
    crate::cli::lemma_sorted_names_items(names_with_ext(video_names, video_exts()));
    assert(names_sorted(vids));
    lemma_sorted_groups_nonempty(subs);
    lemma_match_all(gs, vids);
    let st = match_all(gs, vids);
    let unused = unused_upto(st.used, gs.len() as int);
    let q = st.queue.map_values(|p: (Seq<char>, Seq<char>)| p.0);
    let u = matching(video_names, sub_names).1;
    if st.queue.len() > unused.len() {
        let off = unused.len() as int;
        assert(u =~= st.queue.skip(off).map_values(|p: (Seq<char>, Seq<char>)| p.0));
        assert forall|a: int, b: int| 0 <= a < b < u.len() implies !crate::text::str_lt(
            #[trigger] u[b],
            #[trigger] u[a],
        ) by {
            assert(u[a] == q[a + off] && u[b] == q[b + off]);
        }
    }
}

proof fn lemma_last_with_id_found(gs: Seq<GroupView>, id: Seq<char>, n: int)
    requires
        n <= gs.len(),
    ensures
        last_with_id(gs, id, n) matches Some(i) ==> 0 <= i < n && gs[i].id == Some(id),
        last_with_id(gs, id, n) is None ==> forall|i: int| 0 <= i < n ==> (#[trigger] gs[i]).id
            != Some(id),
    decreases n,
{
    if n > 0 && gs[n - 1].id != Some(id) {
        lemma_last_with_id_found(gs, id, n - 1);
    }
}

proof fn lemma_find_norm_found(gs: Seq<GroupView>, norm: Seq<char>, i: int)
    requires
        0 <= i,
    ensures
        find_norm_from(gs, norm, i) matches Some(k) ==> i <= k < gs.len() && gs[k].norm == norm,
        find_norm_from(gs, norm, i) is None ==> forall|k: int| i <= k < gs.len() ==> (
        #[trigger] gs[k]).norm != norm,
    decreases gs.len() - i,
{
    if i < gs.len() && gs[i].norm != norm {
        lemma_find_norm_found(gs, norm, i + 1);
    }
}

/// Some group carries the YouTube id found in the video's name.
pub open spec fn id_group(gs: Seq<GroupView>, video: Seq<char>) -> bool {
    exists|i: int|
        0 <= i < gs.len() && video_name_parts(video).1 is Some && (#[trigger] gs[i]).id
            == video_name_parts(video).1
}

/// Some group has the normalized title of the video.
pub open spec fn title_group(gs: Seq<GroupView>, video: Seq<char>) -> bool {
    exists|i: int| 0 <= i < gs.len() && (#[trigger] gs[i]).norm == normalized(video_name_parts(video).0)
}

/// How a job came about: stage 1 takes a group carrying the video's id;
/// stage 2, when no group does, a group with the video's normalized title;
/// stage 3, when neither exists, some group by position.
pub open spec fn stage_reason(gs: Seq<GroupView>, j: crate::types::JobView) -> bool {
    if j.match_stage == 1 {
        exists|i: int|
            0 <= i < gs.len() && video_name_parts(j.video_path).1 is Some && (#[trigger] gs[i]).id
                == video_name_parts(j.video_path).1 && j.subs == gs[i].entries
    } else if j.match_stage == 2 {
        !id_group(gs, j.video_path) && exists|i: int|
            0 <= i < gs.len() && (#[trigger] gs[i]).norm == normalized(
                video_name_parts(j.video_path).0,
            ) && j.subs == gs[i].entries
    } else {
        !id_group(gs, j.video_path) && !title_group(gs, j.video_path) && exists|i: int|
            0 <= i < gs.len() && j.subs == (#[trigger] gs[i]).entries
    }
}

proof fn lemma_match_all_stages(gs: Seq<GroupView>, vids: Seq<Seq<char>>)
    ensures
        forall|k: int|
            0 <= k < match_all(gs, vids).jobs.len() ==> stage_reason(
                gs,
                #[trigger] match_all(gs, vids).jobs[k],
            ) && 1 <= match_all(gs, vids).jobs[k].match_stage <= 2,
        forall|k: int|
            0 <= k < match_all(gs, vids).queue.len() ==> !id_group(
                gs,
                (#[trigger] match_all(gs, vids).queue[k]).0,
            ) && !title_group(gs, match_all(gs, vids).queue[k].0),
    decreases vids.len(),
{
    if vids.len() > 0 {
        let dl = vids.drop_last();
        let name = vids.last();
        lemma_match_all_stages(gs, dl);
        let st = match_all(gs, dl);
        let st2 = match_all(gs, vids);
        let parts = video_name_parts(name);
        let norm = normalized(parts.0);
        match parts.1 {
            Some(d) => lemma_last_with_id_found(gs, d, gs.len() as int),
            None => {},
        }
        lemma_find_norm_found(gs, norm, 0);
        let by_id = match parts.1 {
            Some(d) => last_with_id(gs, d, gs.len() as int),
            None => None,
        };
        if by_id is None {
            assert(!id_group(gs, name)) by {
                if id_group(gs, name) {
                    let i = choose|i: int|
                        0 <= i < gs.len() && video_name_parts(name).1 is Some && (
                        #[trigger] gs[i]).id == video_name_parts(name).1;
                    assert(gs[i].id != parts.1);
                }
            }
            if find_norm(gs, norm) is None {
                assert(!title_group(gs, name)) by {
                    if title_group(gs, name) {
                        let i = choose|i: int|
                            0 <= i < gs.len() && (#[trigger] gs[i]).norm == normalized(
                                video_name_parts(name).0,
                            );
                        assert(gs[i].norm != norm);
                    }
                }
            }
        }
        assert forall|k: int| 0 <= k < st2.jobs.len() implies stage_reason(
            gs,
            #[trigger] st2.jobs[k],
        ) && 1 <= st2.jobs[k].match_stage <= 2 by {
            if k < st.jobs.len() {
                assert(st2.jobs[k] == st.jobs[k]);
            } else {
                let j = st2.jobs[k];
                if j.match_stage == 1 {
                    let i = by_id->0;
                    assert(gs[i].id == video_name_parts(j.video_path).1);
                } else {
                    let i = find_norm(gs, norm)->0;
                    assert(gs[i].norm == normalized(video_name_parts(j.video_path).0));
                }
            }
        }
        assert forall|k: int| 0 <= k < st2.queue.len() implies !id_group(
            gs,
            (#[trigger] st2.queue[k]).0,
        ) && !title_group(gs, st2.queue[k].0) by {
            if k < st.queue.len() {
                assert(st2.queue[k] == st.queue[k]);
            }
        }
    }
}

/// Each job was matched for its stage's reason: by a group carrying the
/// video's YouTube id (stage 1); else by a group with its normalized title
/// (stage 2); else, with neither, by position among the groups left
/// (stage 3). Its subtitles are its group's files.
pub proof fn lemma_job_stages(video_names: Seq<Seq<char>>, sub_names: Seq<Seq<char>>)
    ensures
        forall|k: int|
            0 <= k < matching(video_names, sub_names).0.len() ==> stage_reason(
                sorted_groups(media_files(sub_names, sub_exts())),
                #[trigger] matching(video_names, sub_names).0[k],
            ),
{
    let vids = media_files(video_names, video_exts());
    let subs = media_files(sub_names, sub_exts());
    let gs = sorted_groups(subs);
    lemma_sorted_groups_nonempty(subs);
    lemma_match_all(gs, vids);
    lemma_match_all_stages(gs, vids);
    let st = match_all(gs, vids);
    let unused = unused_upto(st.used, gs.len() as int);
    lemma_unused_range(st.used, gs.len() as int);
    let pj = position_jobs(gs, st.queue, unused);
    let all = st.jobs + pj;
    assert forall|k: int| 0 <= k < all.len() implies stage_reason(gs, #[trigger] all[k]) by {
        if k < st.jobs.len() {
            assert(all[k] == st.jobs[k]);
        } else {
            let m = k - st.jobs.len();
            assert(all[k] == pj[m]);
            let i = unused[m];
            assert(0 <= i < gs.len());
            assert(pj[m].subs == gs[i].entries);
            assert(st.queue[m] == st.queue[m]);
            assert(!id_group(gs, st.queue[m].0) && !title_group(gs, st.queue[m].0));
        }
    }
    let ps = all.map_values(|j: crate::types::JobView| (j.video_path, j));
    let sb = crate::text::sorted_by_key(ps);
    assert forall|k: int|
        0 <= k < matching(video_names, sub_names).0.len() implies stage_reason(
        gs,
        #[trigger] matching(video_names, sub_names).0[k],
    ) by {
        crate::text::lemma_sorted_by_key_contains(ps, k);
        let i = choose|i: int| 0 <= i < ps.len() && ps[i] == sb[k];
        assert(ps[i].1 == all[i]);
        assert(matching(video_names, sub_names).0[k] == sb[k].1);
    }
}

// ── pairing by position ─────────────────────────────────────────────────────

/// The subtitle groups of a listing, sorted by normalized title.
pub open spec fn stage_groups(sub_names: Seq<Seq<char>>) -> Seq<GroupView> {
    sorted_groups(media_files(sub_names, sub_exts()))
}

/// The state after stages 1 and 2 over the videos of a listing.
pub open spec fn stage_state(video_names: Seq<Seq<char>>, sub_names: Seq<Seq<char>>) -> MatchState {
    match_all(stage_groups(sub_names), media_files(video_names, video_exts()))
}

/// The groups no stage-1 or stage-2 job took, in order.
pub open spec fn left_groups(video_names: Seq<Seq<char>>, sub_names: Seq<Seq<char>>) -> Seq<int> {
    unused_upto(
        stage_state(video_names, sub_names).used,
        stage_groups(sub_names).len() as int,
    )
}

proof fn lemma_unused_props(used: Seq<bool>, n: int)
    requires
        n <= used.len(),
    ensures
        forall|k: int|
            0 <= k < unused_upto(used, n).len() ==> 0 <= #[trigger] unused_upto(used, n)[k] < n
                && !used[unused_upto(used, n)[k]],
        forall|a: int, b: int|
            0 <= a < b < unused_upto(used, n).len() ==> #[trigger] unused_upto(used, n)[a]
                < #[trigger] unused_upto(used, n)[b],
    decreases n,
{
    if n > 0 {
        lemma_unused_props(used, n - 1);
        let u = unused_upto(used, n - 1);
        let w = unused_upto(used, n);
        assert forall|k: int| 0 <= k < w.len() implies 0 <= #[trigger] w[k] < n && !used[w[k]] by {
            if k < u.len() {
                assert(w[k] == u[k]);
            }
        }
        assert forall|a: int, b: int| 0 <= a < b < w.len() implies #[trigger] w[a] < #[trigger] w[b] by {
            assert(w[a] == u[a]);
            if b < u.len() {
                assert(w[b] == u[b]);
            }
        }
    }
}

/// The job holds the files of a group that is marked as taken.
pub open spec fn holds_taken_group(gs: Seq<GroupView>, used: Seq<bool>, j: crate::types::JobView) -> bool {
    exists|i: int| 0 <= i < gs.len() && used[i] && j.subs == (#[trigger] gs[i]).entries
}

proof fn lemma_match_all_used(gs: Seq<GroupView>, vids: Seq<Seq<char>>)
    ensures
        match_all(gs, vids).used.len() == gs.len(),
        forall|k: int|
            0 <= k < match_all(gs, vids).jobs.len() ==> holds_taken_group(
                gs,
                match_all(gs, vids).used,
                #[trigger] match_all(gs, vids).jobs[k],
            ),
    decreases vids.len(),
{
    if vids.len() > 0 {
        let dl = vids.drop_last();
        let name = vids.last();
        lemma_match_all_used(gs, dl);
        let st = match_all(gs, dl);
        let st2 = match_all(gs, vids);
        let parts = video_name_parts(name);
        let norm = normalized(parts.0);
        match parts.1 {
            Some(d) => lemma_last_with_id_found(gs, d, gs.len() as int),
            None => {},
        }
        lemma_find_norm_found(gs, norm, 0);
        assert forall|k: int| 0 <= k < st2.jobs.len() implies holds_taken_group(
            gs,
            st2.used,
            #[trigger] st2.jobs[k],
        ) by {
            if k < st.jobs.len() {
                assert(st2.jobs[k] == st.jobs[k]);
                assert(holds_taken_group(gs, st.used, st.jobs[k]));
                let i = choose|i: int|
                    0 <= i < gs.len() && st.used[i] && st.jobs[k].subs == (#[trigger] gs[i]).entries;
                assert(st2.used[i]);
            } else {
                let by_id = match parts.1 {
                    Some(d) => last_with_id(gs, d, gs.len() as int),
                    None => None,
                };
                let i = match by_id {
                    Some(i) => i,
                    None => find_norm(gs, norm)->0,
                };
                assert(0 <= i < gs.len() && st2.used[i] && st2.jobs[k].subs == gs[i].entries);
            }
        }
    }
}

/// Stage 3 pairs by position: the `i`-th video left after stages 1 and 2
/// gets the `i`-th group left over, for as many as there are of both. The
/// groups left over are distinct and none was taken by a stage-1 or
/// stage-2 job, each of which holds a taken group.
pub proof fn lemma_position_pairing(video_names: Seq<Seq<char>>, sub_names: Seq<Seq<char>>)
    ensures
        ({
            let gs = stage_groups(sub_names);
            let st = stage_state(video_names, sub_names);
            let u = left_groups(video_names, sub_names);
            &&& forall|i: int|
                0 <= i < st.queue.len() && i < u.len() ==> matching(video_names, sub_names).0.contains(
                    crate::types::JobView {
                        video_path: (#[trigger] st.queue[i]).0,
                        subs: gs[u[i]].entries,
                        output_name: st.queue[i].1,
                        match_stage: 3,
                    },
                )
            &&& forall|a: int, b: int| 0 <= a < b < u.len() ==> #[trigger] u[a] < #[trigger] u[b]
            &&& forall|k: int| 0 <= k < u.len() ==> 0 <= #[trigger] u[k] < gs.len() && !st.used[u[k]]
            &&& forall|k: int|
                0 <= k < st.jobs.len() ==> holds_taken_group(gs, st.used, #[trigger] st.jobs[k])
        }),
{
    broadcast use vstd::seq_lib::group_to_multiset_ensures;

    let gs = stage_groups(sub_names);
    let vids = media_files(video_names, video_exts());
    let st = stage_state(video_names, sub_names);
    lemma_match_all_used(gs, vids);
    lemma_unused_props(st.used, gs.len() as int);
    let u = left_groups(video_names, sub_names);
    let pj = position_jobs(gs, st.queue, u);
    let all = st.jobs + pj;
    let ps = all.map_values(|j: crate::types::JobView| (j.video_path, j));
    let f = |p: (Seq<char>, crate::types::JobView)| p.1;
    crate::text::lemma_sorted_by_key_map_multiset(ps, f);
    assert(ps.map_values(f) =~= all);
    let res = matching(video_names, sub_names).0;
    assert(res == crate::text::sorted_by_key(ps).map_values(f));
    assert forall|i: int| 0 <= i < st.queue.len() && i < u.len() implies res.contains(
        crate::types::JobView {
            video_path: (#[trigger] st.queue[i]).0,
            subs: gs[u[i]].entries,
            output_name: st.queue[i].1,
            match_stage: 3,
        },
    ) by {
        let j = crate::types::JobView {
            video_path: st.queue[i].0,
            subs: gs[u[i]].entries,
            output_name: st.queue[i].1,
            match_stage: 3,
        };
        assert(pj[i] == j);
        assert(all[st.jobs.len() + i] == j);
        assert(all.to_multiset().count(j) > 0);
        assert(res.to_multiset().count(j) > 0);
    }
}

} // verus!
