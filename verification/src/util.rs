//! File-name rules shared by the downloader and the merger: removing
//! characters that file systems refuse, and choosing a name that does not
//! overwrite an existing file.
use vstd::prelude::*;

use crate::text::{
    append_chars, append_str, chars_eq, chars_of, decimal, digit_char, digits, lemma_digits_len,
    push_decimal, string_of, trim, trim_chars, trim_end, trim_start, is_ws,
};

verus! {

// ── clean file names ─────────────────────────────────────────────────────────

/// The characters removed from file names: `\ / * ? : " < > |`.
pub open spec fn unsafe_char(c: char) -> bool {
    c == '\\' || c == '/' || c == '*' || c == '?' || c == ':' || c == '"' || c == '<' || c
        == '>' || c == '|'
}

/// `s` without its unsafe characters.
pub open spec fn remove_unsafe(s: Seq<char>) -> Seq<char>
    decreases s.len(),
{
    if s.len() == 0 {
        seq![]
    } else {
        remove_unsafe(s.drop_last()) + if unsafe_char(s.last()) {
            Seq::<char>::empty()
        } else {
            seq![s.last()]
        }
    }
}

/// The file name made of `s`: trimmed, without unsafe characters, trimmed
/// again, and `untitled` when nothing is left.
pub open spec fn clean_name(s: Seq<char>) -> Seq<char> {
    let c = trim(remove_unsafe(trim(s)));
    if c.len() == 0 {
        "untitled"@
    } else {
        c
    }
}

fn remove_unsafe_chars(s: &Vec<char>) -> (r: Vec<char>)
    ensures
        r@ == remove_unsafe(s@),
{
    let mut r: Vec<char> = Vec::new();
    let mut i: usize = 0;
    while i < s.len()
        invariant
            i <= s.len(),
            r@ == remove_unsafe(s@.take(i as int)),
        decreases s.len() - i,
    {
        let c = s[i];
        assert(s@.take(i + 1).drop_last() =~= s@.take(i as int));
        assert(s@.take(i + 1).last() == c);
        if c == '\\' || c == '/' || c == '*' || c == '?' || c == ':' || c == '"' || c == '<' || c
            == '>' || c == '|' {
            assert(r@ + Seq::<char>::empty() =~= r@);
        } else {
            r.push(c);
        }
        i += 1;
    }
    assert(s@.take(s.len() as int) =~= s@);
    r
}

/// Removes filesystem-unsafe characters from a string for use as a filename.
/// Falls back to `"untitled"` if nothing usable remains.
pub fn clean_filename(s: &str) -> (r: String)
    ensures
        r@ == clean_name(s@),
{
    let v = chars_of(s);
    let t = trim_chars(&v);
    let c = remove_unsafe_chars(&t);
    let c = trim_chars(&c);
    if c.len() == 0 {
        "untitled".to_string()
    } else {
        string_of(&c)
    }
}

proof fn lemma_trim_start_idem(s: Seq<char>)
    ensures
        trim_start(trim_start(s)) == trim_start(s),
        trim_start(s).len() > 0 ==> !is_ws(trim_start(s)[0]),
    decreases s.len(),
{
    if s.len() > 0 && is_ws(s[0]) {
        lemma_trim_start_idem(s.drop_first());
    }
}

proof fn lemma_trim_end_idem(s: Seq<char>)
    ensures
        trim_end(trim_end(s)) == trim_end(s),
        trim_end(s).len() > 0 ==> !is_ws(trim_end(s).last()),
    decreases s.len(),
{
    if s.len() > 0 && is_ws(s.last()) {
        lemma_trim_end_idem(s.drop_last());
    }
}

proof fn lemma_trim_end_keeps_first(s: Seq<char>)
    requires
        s.len() > 0,
        !is_ws(s[0]),
    ensures
        trim_end(s).len() > 0,
        trim_end(s)[0] == s[0],
        trim_start(trim_end(s)) == trim_end(s),
    decreases s.len(),
{
    if is_ws(s.last()) {
        assert(s.len() > 1);
        assert(s.drop_last()[0] == s[0]);
        lemma_trim_end_keeps_first(s.drop_last());
    }
}

/// `trim` leaves a trimmed string unchanged.
pub proof fn lemma_trim_idem(s: Seq<char>)
    ensures
        trim(trim(s)) == trim(s),
{
    let a = trim_start(s);
    lemma_trim_start_idem(s);
    if a.len() > 0 {
        lemma_trim_end_keeps_first(a);
    }
    let t = trim_end(a);
    // trim(t) = trim_end(trim_start(t)) = trim_end(t) = t
    lemma_trim_end_idem(a);
}

proof fn lemma_remove_unsafe_none(s: Seq<char>)
    requires
        forall|i: int| 0 <= i < s.len() ==> !unsafe_char(#[trigger] s[i]),
    ensures
        remove_unsafe(s) == s,
    decreases s.len(),
{
    if s.len() > 0 {
        let p = s.drop_last();
        assert forall|i: int| 0 <= i < p.len() implies !unsafe_char(#[trigger] p[i]) by {
            assert(p[i] == s[i]);
        }
        lemma_remove_unsafe_none(p);
        assert(!unsafe_char(s[s.len() - 1]));
        assert(p + seq![s.last()] =~= s);
    }
}

proof fn lemma_remove_unsafe_safe(s: Seq<char>)
    ensures
        forall|i: int|
            0 <= i < remove_unsafe(s).len() ==> !unsafe_char(#[trigger] remove_unsafe(s)[i]),
    decreases s.len(),
{
    if s.len() > 0 {
        lemma_remove_unsafe_safe(s.drop_last());
        let p = remove_unsafe(s.drop_last());
        assert forall|i: int| 0 <= i < remove_unsafe(s).len() implies !unsafe_char(
            #[trigger] remove_unsafe(s)[i],
        ) by {
            if i < p.len() {
                assert(remove_unsafe(s)[i] == p[i]);
            }
        }
    }
}

proof fn lemma_trim_start_sub(s: Seq<char>)
    ensures
        exists|k: int| 0 <= k <= s.len() && trim_start(s) == s.skip(k),
    decreases s.len(),
{
    if s.len() > 0 && is_ws(s[0]) {
        lemma_trim_start_sub(s.drop_first());
        let k = choose|k: int|
            0 <= k <= s.drop_first().len() && trim_start(s.drop_first()) == s.drop_first().skip(k);
        assert(s.drop_first().skip(k) =~= s.skip(k + 1));
    } else {
        assert(s.skip(0) =~= s);
    }
}

proof fn lemma_trim_end_sub(s: Seq<char>)
    ensures
        exists|k: int| 0 <= k <= s.len() && trim_end(s) == s.take(k),
    decreases s.len(),
{
    if s.len() > 0 && is_ws(s.last()) {
        lemma_trim_end_sub(s.drop_last());
        let k = choose|k: int|
            0 <= k <= s.drop_last().len() && trim_end(s.drop_last()) == s.drop_last().take(k);
        assert(s.drop_last().take(k) =~= s.take(k));
    } else {
        assert(s.take(s.len() as int) =~= s);
    }
}

/// Every character of `trim(s)` is a character of `s`.
proof fn lemma_trim_chars_from(s: Seq<char>)
    ensures
        forall|i: int|
            0 <= i < trim(s).len() ==> exists|j: int| 0 <= j < s.len() && s[j] == #[trigger] trim(s)[i],
{
    lemma_trim_start_sub(s);
    let k1 = choose|k: int| 0 <= k <= s.len() && trim_start(s) == s.skip(k);
    let a = trim_start(s);
    lemma_trim_end_sub(a);
    let k2 = choose|k: int| 0 <= k <= a.len() && trim_end(a) == a.take(k);
    assert forall|i: int| 0 <= i < trim(s).len() implies exists|j: int|
        0 <= j < s.len() && s[j] == #[trigger] trim(s)[i] by {
        assert(trim(s)[i] == a[i]);
        assert(a[i] == s[i + k1]);
    }
}

/// What `clean_filename` returns is never empty, holds no unsafe character,
/// has no whitespace at either end, and is left unchanged by a second
/// cleaning.
pub proof fn lemma_clean_name_props(s: Seq<char>)
    ensures
        clean_name(s).len() > 0,
        forall|i: int| 0 <= i < clean_name(s).len() ==> !unsafe_char(#[trigger] clean_name(s)[i]),
        trim(clean_name(s)) == clean_name(s),
        clean_name(clean_name(s)) == clean_name(s),
{
    reveal_strlit("untitled");
    let c = trim(remove_unsafe(trim(s)));
    lemma_remove_unsafe_safe(trim(s));
    lemma_trim_chars_from(remove_unsafe(trim(s)));
    lemma_trim_idem(remove_unsafe(trim(s)));
    let r = clean_name(s);
    assert forall|i: int| 0 <= i < r.len() implies !unsafe_char(#[trigger] r[i]) by {
        if c.len() > 0 {
            let j = choose|j: int|
                0 <= j < remove_unsafe(trim(s)).len() && remove_unsafe(trim(s))[j] == c[i];
        }
    }
    let u = "untitled"@;
    assert(trim(r) == r) by {
        if c.len() == 0 {
            assert(!is_ws(u[0]));
            assert(trim_start(u) == u);
            assert(!is_ws(u.last()));
            assert(trim_end(u) == u);
        }
    }
    // cleaning r again: trim(r) == r, remove_unsafe(r) == r, trim(r) == r
    lemma_remove_unsafe_none(r);
}

// ── file names: stem and extension ──────────────────────────────────────────

/// The position of the last `.` in `s`, if any.
pub open spec fn last_dot(s: Seq<char>) -> Option<int>
    decreases s.len(),
{
    if s.len() == 0 {
        None
    } else if s.last() == '.' {
        Some(s.len() - 1)
    } else {
        last_dot(s.drop_last())
    }
}

/// Whether `name` is no file name at all (`""`, `.` or `..`).
pub open spec fn no_file_name(name: Seq<char>) -> bool {
    name.len() == 0 || name == seq!['.'] || name == seq!['.', '.']
}

/// `Path::file_stem` of a file name: the part before the last `.`, or the
/// whole name when it has no `.` or only a leading one.
pub open spec fn file_stem(name: Seq<char>) -> Option<Seq<char>> {
    if no_file_name(name) {
        None
    } else {
        match last_dot(name) {
            Some(k) => if k == 0 {
                Some(name)
            } else {
                Some(name.take(k))
            },
            None => Some(name),
        }
    }
}

/// `Path::extension` of a file name: the part after the last `.`, when the
/// name has a `.` that is not its first character.
pub open spec fn file_ext(name: Seq<char>) -> Option<Seq<char>> {
    if no_file_name(name) {
        None
    } else {
        match last_dot(name) {
            Some(k) => if k == 0 {
                None
            } else {
                Some(name.skip(k + 1))
            },
            None => None,
        }
    }
}

fn last_dot_exec(s: &Vec<char>) -> (r: Option<usize>)
    ensures
        r matches Some(k) ==> last_dot(s@) == Some(k as int) && k < s@.len(),
        r is None ==> last_dot(s@) is None,
{
    let mut i = s.len();
    assert(s@.take(i as int) =~= s@);
    while i > 0
        invariant
            i <= s.len(),
            last_dot(s@) == last_dot(s@.take(i as int)),
        decreases i,
    {
        assert(s@.take(i as int).last() == s@[i - 1]);
        if s[i - 1] == '.' {
            return Some(i - 1);
        }
        assert(s@.take(i as int).drop_last() =~= s@.take(i - 1));
        i -= 1;
    }
    assert(s@.take(0) =~= Seq::<char>::empty());
    None
}

proof fn lemma_last_dot_range(s: Seq<char>)
    ensures
        last_dot(s) matches Some(k) ==> 0 <= k < s.len() && s[k] == '.',
    decreases s.len(),
{
    if s.len() > 0 && s.last() != '.' {
        lemma_last_dot_range(s.drop_last());
    }
}

fn is_no_file_name(s: &Vec<char>) -> (r: bool)
    ensures
        r == no_file_name(s@),
{
    if s.len() == 0 {
        return true;
    }
    if s.len() == 1 {
        let r = s[0] == '.';
        assert(r == (s@ == seq!['.'])) by {
            if r {
                assert(s@ =~= seq!['.']);
            }
        }
        assert(s@ != seq!['.', '.']);
        return r;
    }
    if s.len() == 2 {
        let r = s[0] == '.' && s[1] == '.';
        assert(r == (s@ == seq!['.', '.'])) by {
            if r {
                assert(s@ =~= seq!['.', '.']);
            } else if s@ == seq!['.', '.'] {
                assert(s@[0] == '.' && s@[1] == '.');
            }
        }
        return r;
    }
    false
}

pub fn take_chars(s: &Vec<char>, k: usize) -> (r: Vec<char>)
    requires
        k <= s.len(),
    ensures
        r@ == s@.take(k as int),
{
    let mut r: Vec<char> = Vec::new();
    let mut i: usize = 0;
    while i < k
        invariant
            i <= k <= s.len(),
            r@ == s@.take(i as int),
        decreases k - i,
    {
        r.push(s[i]);
        i += 1;
        assert(r@ =~= s@.take(i as int));
    }
    r
}

pub fn skip_chars(s: &Vec<char>, k: usize) -> (r: Vec<char>)
    requires
        k <= s.len(),
    ensures
        r@ == s@.skip(k as int),
{
    let mut r: Vec<char> = Vec::new();
    let mut i: usize = k;
    while i < s.len()
        invariant
            k <= i <= s.len(),
            r@ == s@.subrange(k as int, i as int),
        decreases s.len() - i,
    {
        r.push(s[i]);
        i += 1;
        assert(r@ =~= s@.subrange(k as int, i as int));
    }
    assert(s@.subrange(k as int, s@.len() as int) =~= s@.skip(k as int));
    r
}

/// The stem of a file name (see `file_stem`).
pub fn stem_of(name: &Vec<char>) -> (r: Option<Vec<char>>)
    ensures
        match file_stem(name@) {
            Some(s) => r matches Some(v) && v@ == s,
            None => r is None,
        },
{
    if is_no_file_name(name) {
        return None;
    }
    proof {
        lemma_last_dot_range(name@);
    }
    match last_dot_exec(name) {
        Some(k) => {
            assert(last_dot(name@) == Some(k as int));
            if k == 0 {
                Some(crate::text::copy_chars(name))
            } else {
                Some(take_chars(name, k))
            }
        },
        None => Some(crate::text::copy_chars(name)),
    }
}

/// The extension of a file name (see `file_ext`).
pub fn ext_of(name: &Vec<char>) -> (r: Option<Vec<char>>)
    ensures
        match file_ext(name@) {
            Some(s) => r matches Some(v) && v@ == s,
            None => r is None,
        },
{
    if is_no_file_name(name) {
        return None;
    }
    proof {
        lemma_last_dot_range(name@);
    }
    match last_dot_exec(name) {
        Some(k) => {
            assert(last_dot(name@) == Some(k as int));
            assert(name@.len() == name.len());
            if k == 0 {
                None
            } else {
                Some(skip_chars(name, k + 1))
            }
        },
        None => None,
    }
}

// ── unique names ─────────────────────────────────────────────────────────────

/// The `n`-th alternative to a taken file name: `stem (n).ext`, or
/// `stem (n)` without an extension; the stem is `file` when the name has none.
pub open spec fn candidate(name: Seq<char>, n: nat) -> Seq<char> {
    let stem = match file_stem(name) {
        Some(s) => s,
        None => "file"@,
    };
    stem + " ("@ + decimal(n) + match file_ext(name) {
        Some(e) => ")."@ + e,
        None => ")"@,
    }
}

/// The name that `unique_path` chooses for `name` among the taken names:
/// `name` itself when it is free, else the first free alternative.
pub open spec fn is_unique_choice(name: Seq<char>, taken: Seq<Seq<char>>, r: Seq<char>) -> bool {
    if !taken.contains(name) {
        r == name
    } else {
        exists|n: nat|
            n >= 1 && r == candidate(name, n) && !taken.contains(candidate(name, n)) && forall|
                m: nat,
            |
                1 <= m < n ==> taken.contains(#[trigger] candidate(name, m))
    }
}

proof fn lemma_digit_char_inj(a: nat, b: nat)
    requires
        a < 10,
        b < 10,
        digit_char(a) == digit_char(b),
    ensures
        a == b,
{
}

proof fn lemma_decimal_inj(a: nat, b: nat)
    requires
        decimal(a) == decimal(b),
    ensures
        a == b,
    decreases a,
{
    lemma_digits_len(a, 10);
    lemma_digits_len(b, 10);
    if a < 10 && b < 10 {
        assert(decimal(a)[0] == digit_char(a));
        assert(decimal(b)[0] == digit_char(b));
        lemma_digit_char_inj(a, b);
    } else if a >= 10 && b >= 10 {
        lemma_digits_len(a / 10, 10);
        lemma_digits_len(b / 10, 10);
        assert(decimal(a).drop_last() =~= decimal(a / 10));
        assert(decimal(b).drop_last() =~= decimal(b / 10));
        assert(decimal(a).last() == digit_char(a % 10));
        assert(decimal(b).last() == digit_char(b % 10));
        lemma_decimal_inj(a / 10, b / 10);
        lemma_digit_char_inj(a % 10, b % 10);
    } else if a >= 10 {
        lemma_digits_len(a / 10, 10);
        assert(decimal(a).len() >= 2);
    } else {
        lemma_digits_len(b / 10, 10);
        assert(decimal(b).len() >= 2);
    }
}

/// Different numbers give different alternatives.
pub proof fn lemma_candidate_inj(name: Seq<char>, a: nat, b: nat)
    requires
        candidate(name, a) == candidate(name, b),
    ensures
        a == b,
{
    let stem = match file_stem(name) {
        Some(s) => s,
        None => "file"@,
    };
    let tail = match file_ext(name) {
        Some(e) => ")."@ + e,
        None => ")"@,
    };
    let ca = stem + " ("@ + decimal(a) + tail;
    let cb = stem + " ("@ + decimal(b) + tail;
    assert(ca == candidate(name, a));
    assert(cb == candidate(name, b));
    let p = stem.len() + " ("@.len();
    assert(decimal(a).len() == decimal(b).len());
    assert(ca.subrange(p as int, (p + decimal(a).len()) as int) =~= decimal(a));
    assert(cb.subrange(p as int, (p + decimal(b).len()) as int) =~= decimal(b));
    lemma_decimal_inj(a, b);
}

fn build_candidate(stem: &Vec<char>, ext: &Option<Vec<char>>, n: u128) -> (r: Vec<char>)
    ensures
        r@ == stem@ + " ("@ + decimal(n as nat) + match ext {
            Some(e) => ")."@ + e@,
            None => ")"@,
        },
{
    let mut r = crate::text::copy_chars(stem);
    append_str(&mut r, " (");
    push_decimal(&mut r, n);
    match ext {
        Some(e) => {
            append_str(&mut r, ").");
            append_chars(&mut r, e);
        },
        None => {
            append_str(&mut r, ")");
        },
    }
    proof {
        match ext {
            Some(e) => {
                assert(r@ =~= stem@ + " ("@ + decimal(n as nat) + (")."@ + e@));
            },
            None => {},
        }
    }
    r
}

pub open spec fn string_views(v: Seq<String>) -> Seq<Seq<char>> {
    v.map_values(|s: String| s@)
}

fn contains_name(taken: &Vec<String>, name: &Vec<char>) -> (r: bool)
    ensures
        r == string_views(taken@).contains(name@),
{
    let ghost tv = string_views(taken@);
    let mut i: usize = 0;
    while i < taken.len()
        invariant
            i <= taken@.len(),
            tv == string_views(taken@),
            forall|k: int| 0 <= k < i ==> tv[k] != name@,
        decreases taken@.len() - i,
    {
        let t = chars_of(taken[i].as_str());
        if chars_eq(&t, name) {
            assert(tv[i as int] == name@);
            return true;
        }
        i += 1;
    }
    false
}

/// Returns `name` unchanged if no taken name equals it. Otherwise appends
/// " (1)", " (2)", … right before the extension until a free name is found,
/// so downloads and merges never silently overwrite an existing file.
///
/// `name` is the last component of the wanted path; `taken` lists the names
/// already present in its folder.
pub fn unique_path(name: &str, taken: &Vec<String>) -> (r: String)
    ensures
        is_unique_choice(name@, string_views(taken@), r@),
        !string_views(taken@).contains(r@),
{
    let ghost tv = string_views(taken@);
    let nv = chars_of(name);
    if !contains_name(taken, &nv) {
        return name.to_string();
    }
    let stem = match stem_of(&nv) {
        Some(s) => s,
        None => chars_of("file"),
    };
    let ext = ext_of(&nv);
    let mut n: u128 = 1;
    loop
        invariant
            1 <= n,
            tv == string_views(taken@),
            tv.contains(name@),
            nv@ == name@,
            stem@ == match file_stem(name@) {
                Some(s) => s,
                None => "file"@,
            },
            match file_ext(name@) {
                Some(e) => ext matches Some(v) && v@ == e,
                None => ext is None,
            },
            forall|m: nat| 1 <= m < n ==> tv.contains(#[trigger] candidate(name@, m)),
            n - 1 <= taken@.len(),
        decreases taken@.len() + 1 - n,
    {
        let c = build_candidate(&stem, &ext, n);
        assert(c@ == candidate(name@, n as nat)) by {
            match file_ext(name@) {
                Some(e) => {},
                None => {},
            }
        }
        if !contains_name(taken, &c) {
            let r = string_of(&c);
            assert(is_unique_choice(name@, tv, r@)) by {
                assert(r@ == candidate(name@, n as nat));
            }
            return r;
        }
        proof {
            // the alternatives 1..=n are distinct taken names, so there are
            // at most as many of them as taken names
            let cands = Seq::new(n as nat, |k: int| candidate(name@, (k + 1) as nat));
            assert forall|i: int, j: int|
                0 <= i < cands.len() && 0 <= j < cands.len() && i != j implies cands[i]
                != cands[j] by {
                if cands[i] == cands[j] {
                    lemma_candidate_inj(name@, (i + 1) as nat, (j + 1) as nat);
                }
            }
            assert(cands.no_duplicates());
            cands.unique_seq_to_set();
            assert forall|x: Seq<char>| cands.to_set().contains(x) implies tv.to_set().contains(
                x,
            ) by {
                let k = choose|k: int| 0 <= k < cands.len() && cands[k] == x;
                assert(tv.contains(candidate(name@, (k + 1) as nat)));
            }
            vstd::set_lib::lemma_len_subset(cands.to_set(), tv.to_set());
            tv.lemma_cardinality_of_set();
            assert(tv.len() == taken@.len());
            assert(taken@.len() == taken.len());
            assert(n <= taken.len());
        }
        n += 1;
    }
}

proof fn lemma_remove_unsafe_filter(t: Seq<char>, keep: spec_fn(char) -> bool)
    requires
        forall|c: char| #[trigger] keep(c) == !unsafe_char(c),
    ensures
        remove_unsafe(t) == t.filter(keep),
    decreases t.len(),
{
    reveal(Seq::filter);
    if t.len() > 0 {
        lemma_remove_unsafe_filter(t.drop_last(), keep);
        assert(keep(t.last()) == !unsafe_char(t.last()));
        if unsafe_char(t.last()) {
            assert(remove_unsafe(t) =~= remove_unsafe(t.drop_last()));
        } else {
            assert(remove_unsafe(t) =~= remove_unsafe(t.drop_last()).push(t.last()));
        }
    }
}

/// A cleaned file name removes exactly the characters `\ / * ? : " < > |`:
/// the trimmed title keeps every other character, in order, and is trimmed
/// again; `untitled` stands for a title with nothing left.
pub proof fn lemma_clean_name_removes_exactly_the_unsafe(s: Seq<char>)
    ensures
        ({
            let kept = trim(
                trim(s).filter(
                    |c: char|
                        !(c == '\\' || c == '/' || c == '*' || c == '?' || c == ':' || c == '"'
                            || c == '<' || c == '>' || c == '|'),
                ),
            );
            clean_name(s) == if kept.len() == 0 {
                "untitled"@
            } else {
                kept
            }
        }),
{
    let keep = |c: char|
        !(c == '\\' || c == '/' || c == '*' || c == '?' || c == ':' || c == '"' || c == '<' || c
            == '>' || c == '|');
    lemma_remove_unsafe_filter(trim(s), keep);
}

} // verus!
