//! Character-level text helpers shared by the parser, the writers and the
//! file-name rules: whitespace trimming and splitting, joining, decimal and
//! hexadecimal rendering, and the lexicographic order on strings.
use vstd::prelude::*;

verus! {

// ── whitespace ───────────────────────────────────────────────────────────────

/// The Unicode `White_Space` property, which `char::is_whitespace` tests.
pub open spec fn is_ws(c: char) -> bool {
    let u = c as u32;
    ||| (0x09 <= u && u <= 0x0d)
    ||| u == 0x20
    ||| u == 0x85
    ||| u == 0xa0
    ||| u == 0x1680
    ||| (0x2000 <= u && u <= 0x200a)
    ||| u == 0x2028
    ||| u == 0x2029
    ||| u == 0x202f
    ||| u == 0x205f
    ||| u == 0x3000
}

pub fn is_whitespace(c: char) -> (r: bool)
    ensures
        r == is_ws(c),
{
    let u = c as u32;
    (0x09 <= u && u <= 0x0d) || u == 0x20 || u == 0x85 || u == 0xa0 || u == 0x1680 || (0x2000
        <= u && u <= 0x200a) || u == 0x2028 || u == 0x2029 || u == 0x202f || u == 0x205f || u
        == 0x3000
}

/// `s` with its leading whitespace removed.
pub open spec fn trim_start(s: Seq<char>) -> Seq<char>
    decreases s.len(),
{
    if s.len() > 0 && is_ws(s[0]) {
        trim_start(s.drop_first())
    } else {
        s
    }
}

/// `s` with its trailing whitespace removed.
pub open spec fn trim_end(s: Seq<char>) -> Seq<char>
    decreases s.len(),
{
    if s.len() > 0 && is_ws(s.last()) {
        trim_end(s.drop_last())
    } else {
        s
    }
}

/// `s` with whitespace removed at both ends (`str::trim`).
pub open spec fn trim(s: Seq<char>) -> Seq<char> {
    trim_end(trim_start(s))
}

/// The maximal runs of non-whitespace characters of `s`, in order
/// (`str::split_whitespace`).
pub open spec fn split_ws(s: Seq<char>) -> Seq<Seq<char>>
    decreases s.len(),
{
    if s.len() == 0 {
        seq![]
    } else {
        let rest = split_ws(s.drop_last());
        let c = s.last();
        if is_ws(c) {
            rest
        } else if s.len() >= 2 && !is_ws(s[s.len() - 2]) {
            rest.drop_last().push(rest.last().push(c))
        } else {
            rest.push(seq![c])
        }
    }
}

/// The items of `words` with `sep` between consecutive ones.
pub open spec fn join(words: Seq<Seq<char>>, sep: Seq<char>) -> Seq<char>
    decreases words.len(),
{
    if words.len() == 0 {
        seq![]
    } else if words.len() == 1 {
        words[0]
    } else {
        join(words.drop_last(), sep) + sep + words.last()
    }
}

/// A word as `split_ws` produces it: non-empty and free of whitespace.
pub open spec fn is_word(w: Seq<char>) -> bool {
    w.len() > 0 && forall|i: int| 0 <= i < w.len() ==> !is_ws(#[trigger] w[i])
}

pub open spec fn all_words(ws: Seq<Seq<char>>) -> bool {
    forall|i: int| 0 <= i < ws.len() ==> is_word(#[trigger] ws[i])
}

/// The concatenation of a sequence of sequences.
pub open spec fn flatten<A>(ss: Seq<Seq<A>>) -> Seq<A>
    decreases ss.len(),
{
    if ss.len() == 0 {
        seq![]
    } else {
        flatten(ss.drop_last()) + ss.last()
    }
}

pub proof fn lemma_flatten_push<A>(ss: Seq<Seq<A>>, s: Seq<A>)
    ensures
        flatten(ss.push(s)) == flatten(ss) + s,
{
    assert(ss.push(s).drop_last() =~= ss);
}

pub proof fn lemma_flatten_concat<A>(a: Seq<Seq<A>>, b: Seq<Seq<A>>)
    ensures
        flatten(a + b) == flatten(a) + flatten(b),
    decreases b.len(),
{
    if b.len() == 0 {
        assert(a + b =~= a);
        assert(flatten(a) + flatten(b) =~= flatten(a));
    } else {
        lemma_flatten_concat(a, b.drop_last());
        assert((a + b).drop_last() =~= a + b.drop_last());
        assert(flatten(a) + flatten(b) =~= flatten(a) + flatten(b.drop_last()) + b.last());
    }
}

proof fn lemma_split_ws_all_words(s: Seq<char>)
    ensures
        all_words(split_ws(s)),
        split_ws(s).len() > 0 && s.len() > 0 && !is_ws(s.last()) ==> split_ws(s).last().last()
            == s.last(),
        s.len() > 0 && !is_ws(s.last()) ==> split_ws(s).len() > 0,
    decreases s.len(),
{
    if s.len() > 0 {
        lemma_split_ws_all_words(s.drop_last());
        let rest = split_ws(s.drop_last());
        let c = s.last();
        if !is_ws(c) && s.len() >= 2 && !is_ws(s[s.len() - 2]) {
            assert(s.drop_last().last() == s[s.len() - 2]);
            let w = rest.last().push(c);
            assert(is_word(w)) by {
                assert(is_word(rest[rest.len() - 1]));
            }
            let r = rest.drop_last().push(w);
            assert forall|i: int| 0 <= i < r.len() implies is_word(#[trigger] r[i]) by {
                if i < r.len() - 1 {
                    assert(r[i] == rest[i]);
                }
            }
        } else if !is_ws(c) {
            let r = rest.push(seq![c]);
            assert forall|i: int| 0 <= i < r.len() implies is_word(#[trigger] r[i]) by {
                if i < r.len() - 1 {
                    assert(r[i] == rest[i]);
                }
            }
        }
    }
}

/// The words of `s`, `split_ws(s)`, are all non-empty and free of whitespace.
pub proof fn lemma_split_ws_words(s: Seq<char>)
    ensures
        all_words(split_ws(s)),
{
    lemma_split_ws_all_words(s);
}

/// Joining words with a single space and splitting again gives the words back.
pub proof fn lemma_split_join(ws: Seq<Seq<char>>)
    requires
        all_words(ws),
    ensures
        split_ws(join(ws, seq![' '])) == ws,
    decreases ws.len(),
{
    if ws.len() == 0 {
    } else if ws.len() == 1 {
        assert(is_word(ws[0]));
        lemma_split_word(ws[0]);
        assert(seq![ws[0]] =~= ws);
    } else {
        let pre = ws.drop_last();
        assert forall|i: int| 0 <= i < pre.len() implies is_word(#[trigger] pre[i]) by {
            assert(pre[i] == ws[i]);
        }
        lemma_split_join(pre);
        let w = ws.last();
        assert(is_word(ws[ws.len() - 1]));
        let left = join(pre, seq![' ']) + seq![' '];
        lemma_split_ws_append_space(join(pre, seq![' ']));
        lemma_split_ws_after_space(left, w);
        assert(join(ws, seq![' ']) == left + w);
        assert(pre.push(w) =~= ws);
    }
}

proof fn lemma_split_ws_append_space(s: Seq<char>)
    ensures
        split_ws(s + seq![' ']) == split_ws(s),
{
    let t = s + seq![' '];
    assert(t.drop_last() =~= s);
    assert(is_ws(' '));
}

/// A single word splits into itself.
proof fn lemma_split_word(w: Seq<char>)
    requires
        is_word(w),
    ensures
        split_ws(w) == seq![w],
    decreases w.len(),
{
    assert(!is_ws(w[w.len() - 1]));
    assert(w.last() == w[w.len() - 1]);
    if w.len() == 1 {
        assert(w.drop_last() =~= Seq::<char>::empty());
        assert(split_ws(w.drop_last()) =~= Seq::<Seq<char>>::empty());
        assert(seq![w[0]] =~= w);
        assert(split_ws(w) =~= seq![seq![w.last()]]);
    } else {
        let p = w.drop_last();
        assert(is_word(p)) by {
            assert forall|i: int| 0 <= i < p.len() implies !is_ws(#[trigger] p[i]) by {
                assert(p[i] == w[i]);
            }
        }
        lemma_split_word(p);
        assert(!is_ws(w[w.len() - 2]));
        assert(p.push(w.last()) =~= w);
        assert(split_ws(w) =~= seq![p].drop_last().push(p.push(w.last())));
    }
}

/// Splitting `left + w`, where `left` ends in whitespace and `w` is a word,
/// gives the words of `left` followed by `w`.
proof fn lemma_split_ws_after_space(left: Seq<char>, w: Seq<char>)
    requires
        left.len() > 0,
        is_ws(left.last()),
        is_word(w),
    ensures
        split_ws(left + w) == split_ws(left).push(w),
    decreases w.len(),
{
    if w.len() == 1 {
        let s = left + w;
        assert(s.drop_last() =~= left);
        assert(s[s.len() - 2] == left.last());
        assert(seq![w[0]] =~= w);
    } else {
        let p = w.drop_last();
        assert(is_word(p)) by {
            assert forall|i: int| 0 <= i < p.len() implies !is_ws(#[trigger] p[i]) by {
                assert(p[i] == w[i]);
            }
        }
        lemma_split_ws_after_space(left, p);
        let s = left + w;
        assert(s.drop_last() =~= left + p);
        assert(s[s.len() - 2] == w[w.len() - 2]);
        assert(!is_ws(w[w.len() - 2]));
        assert(!is_ws(w[w.len() - 1]));
        assert(p.push(w.last()) =~= w);
    }
}

// ── case mapping ─────────────────────────────────────────────────────────────

/// What `str::to_lowercase` makes of a string: the Unicode lowercase
/// mapping of each character, which takes tables to state.
pub uninterp spec fn lowercase(s: Seq<char>) -> Seq<char>;

/// `str::to_lowercase`; its result is named by `lowercase`.
#[verifier::external_body]
pub(crate) fn to_lowercase(s: &str) -> (r: String)
    ensures
        r@ == lowercase(s@),
{
    s.to_lowercase()
}

// ── exec string helpers ──────────────────────────────────────────────────────

/// Appends one character to a string (`String::push`).
#[verifier::external_body]
pub(crate) fn push_char(s: &mut String, c: char)
    ensures
        final(s)@ == old(s)@.push(c),
{
    s.push(c);
}

/// The characters of a string slice, in order.
pub fn chars_of(s: &str) -> (r: Vec<char>)
    ensures
        r@ == s@,
{
    let mut r: Vec<char> = Vec::new();
    for c in it: s.chars()
        invariant
            r@ == it.seq().take(it.index()),
    {
        r.push(c);
    }
    r
}

/// A string holding the characters of `v`.
pub fn string_of(v: &Vec<char>) -> (r: String)
    ensures
        r@ == v@,
{
    let mut r = String::new();
    let mut i: usize = 0;
    while i < v.len()
        invariant
            i <= v.len(),
            r@ == v@.take(i as int),
        decreases v.len() - i,
    {
        push_char(&mut r, v[i]);
        i += 1;
        assert(r@ =~= v@.take(i as int));
    }
    assert(v@.take(v.len() as int) =~= v@);
    r
}

/// Appends all of `b` to `a`.
pub fn append_chars(a: &mut Vec<char>, b: &Vec<char>)
    ensures
        final(a)@ == old(a)@ + b@,
{
    let mut i: usize = 0;
    while i < b.len()
        invariant
            i <= b.len(),
            a@ == old(a)@ + b@.take(i as int),
        decreases b.len() - i,
    {
        a.push(b[i]);
        i += 1;
        assert(a@ =~= old(a)@ + b@.take(i as int));
    }
    assert(b@.take(b.len() as int) =~= b@);
}

/// Appends the characters of `s` to `a`.
pub fn append_str(a: &mut Vec<char>, s: &str)
    ensures
        final(a)@ == old(a)@ + s@,
{
    let v = chars_of(s);
    append_chars(a, &v);
}

/// A copy of `v`.
pub fn copy_chars(v: &Vec<char>) -> (r: Vec<char>)
    ensures
        r@ == v@,
{
    let mut r: Vec<char> = Vec::new();
    append_chars(&mut r, v);
    r
}

/// Whether two character sequences are equal.
pub fn chars_eq(a: &Vec<char>, b: &Vec<char>) -> (r: bool)
    ensures
        r == (a@ == b@),
{
    if a.len() != b.len() {
        return false;
    }
    let mut i: usize = 0;
    while i < a.len()
        invariant
            a.len() == b.len(),
            i <= a.len(),
            forall|j: int| 0 <= j < i ==> a@[j] == b@[j],
        decreases a.len() - i,
    {
        if a[i] != b[i] {
            return false;
        }
        i += 1;
    }
    assert(a@ =~= b@);
    true
}

/// Whether `s` starts with `p`.
pub fn has_prefix(s: &Vec<char>, p: &Vec<char>) -> (r: bool)
    ensures
        r == (p@.len() <= s@.len() && s@.take(p@.len() as int) == p@),
{
    if p.len() > s.len() {
        return false;
    }
    let mut i: usize = 0;
    while i < p.len()
        invariant
            p.len() <= s.len(),
            i <= p.len(),
            forall|j: int| 0 <= j < i ==> s@[j] == p@[j],
        decreases p.len() - i,
    {
        if s[i] != p[i] {
            assert(s@.take(p@.len() as int)[i as int] != p@[i as int]);
            return false;
        }
        i += 1;
    }
    assert(s@.take(p@.len() as int) =~= p@);
    true
}

/// Whether `p` occurs in `s` as a contiguous run.
pub open spec fn contains_at(s: Seq<char>, p: Seq<char>, i: int) -> bool {
    0 <= i && i + p.len() <= s.len() && s.subrange(i, i + p.len()) == p
}

pub open spec fn contains_seq(s: Seq<char>, p: Seq<char>) -> bool {
    exists|i: int| contains_at(s, p, i)
}

/// Whether `p` occurs in `s` (`str::contains`).
pub fn contains_chars(s: &Vec<char>, p: &Vec<char>) -> (r: bool)
    ensures
        r == contains_seq(s@, p@),
{
    if p.len() > s.len() {
        assert forall|i: int| !contains_at(s@, p@, i) by {}
        return false;
    }
    let mut i: usize = 0;
    while i <= s.len() - p.len()
        invariant
            p.len() <= s.len(),
            i <= s.len() - p.len() + 1,
            forall|k: int| 0 <= k < i ==> !contains_at(s@, p@, k),
        decreases s.len() - i,
    {
        let mut j: usize = 0;
        let mut ok = true;
        while j < p.len()
            invariant
                i + p.len() <= s.len(),
                j <= p.len(),
                ok == (forall|k: int| 0 <= k < j ==> s@[i + k] == p@[k]),
            decreases p.len() - j,
        {
            if s[i + j] != p[j] {
                ok = false;
            }
            j += 1;
        }
        if ok {
            assert(s@.subrange(i as int, i + p.len()) =~= p@);
            assert(contains_at(s@, p@, i as int));
            return true;
        } else {
            assert(!contains_at(s@, p@, i as int)) by {
                let k = choose|k: int| 0 <= k < p.len() && s@[i + k] != p@[k];
                if contains_at(s@, p@, i as int) {
                    assert(s@.subrange(i as int, i + p.len())[k] == s@[i + k]);
                }
            }
        }
        i += 1;
    }
    assert forall|k: int| !contains_at(s@, p@, k) by {
        if 0 <= k && k < i {
        }
    }
    false
}

/// `s` with leading and trailing whitespace removed.
pub fn trim_chars(s: &Vec<char>) -> (r: Vec<char>)
    ensures
        r@ == trim(s@),
{
    let mut a: usize = 0;
    assert(s@.skip(0) =~= s@);
    while a < s.len() && is_whitespace(s[a])
        invariant
            a <= s.len(),
            trim_start(s@) == trim_start(s@.skip(a as int)),
        decreases s.len() - a,
    {
        assert(s@.skip(a as int).drop_first() =~= s@.skip(a + 1));
        a += 1;
    }
    let mut b: usize = s.len();
    let ghost t = s@.skip(a as int);
    assert(trim_start(s@) == t) by {
        if t.len() > 0 {
            assert(t[0] == s@[a as int]);
        }
    }
    while b > a && is_whitespace(s[b - 1])
        invariant
            a <= b <= s.len(),
            t == s@.skip(a as int),
            trim_end(t) == trim_end(s@.subrange(a as int, b as int)),
        decreases b,
    {
        assert(s@.subrange(a as int, b as int).drop_last() =~= s@.subrange(a as int, b - 1));
        b -= 1;
    }
    let ghost u = s@.subrange(a as int, b as int);
    assert(trim_end(u) == u) by {
        if u.len() > 0 {
            assert(u.last() == s@[b - 1]);
        }
    }
    assert(t == s@.subrange(a as int, s.len() as int));
    let mut r: Vec<char> = Vec::new();
    let mut i = a;
    while i < b
        invariant
            a <= i <= b <= s.len(),
            r@ == s@.subrange(a as int, i as int),
        decreases b - i,
    {
        r.push(s[i]);
        i += 1;
        assert(r@ =~= s@.subrange(a as int, i as int));
    }
    r
}

/// `s` with trailing whitespace removed.
pub fn trim_end_chars(s: &Vec<char>) -> (r: Vec<char>)
    ensures
        r@ == trim_end(s@),
{
    let mut b: usize = s.len();
    assert(s@.subrange(0, b as int) =~= s@);
    while b > 0 && is_whitespace(s[b - 1])
        invariant
            b <= s.len(),
            trim_end(s@) == trim_end(s@.subrange(0, b as int)),
        decreases b,
    {
        assert(s@.subrange(0, b as int).drop_last() =~= s@.subrange(0, b - 1));
        b -= 1;
    }
    let ghost u = s@.subrange(0, b as int);
    assert(trim_end(u) == u) by {
        if u.len() > 0 {
            assert(u.last() == s@[b - 1]);
        }
    }
    let mut r: Vec<char> = Vec::new();
    let mut i: usize = 0;
    while i < b
        invariant
            i <= b <= s.len(),
            r@ == s@.subrange(0, i as int),
        decreases b - i,
    {
        r.push(s[i]);
        i += 1;
        assert(r@ =~= s@.subrange(0, i as int));
    }
    r
}

/// The whitespace-separated words of `s`.
pub fn split_whitespace(s: &Vec<char>) -> (r: Vec<Vec<char>>)
    ensures
        r@.len() == split_ws(s@).len(),
        forall|i: int| 0 <= i < r@.len() ==> (#[trigger] r@[i])@ == split_ws(s@)[i],
{
    let mut words: Vec<Vec<char>> = Vec::new();
    let mut cur: Vec<char> = Vec::new();
    let mut i: usize = 0;
    while i < s.len()
        invariant
            i <= s.len(),
            ({
                let done = words@.map_values(|w: Vec<char>| w@);
                split_ws(s@.take(i as int)) == if cur@.len() == 0 {
                    done
                } else {
                    done.push(cur@)
                }
            }),
            cur@.len() > 0 <==> (i > 0 && !is_ws(s@[i - 1])),
        decreases s.len() - i,
    {
        let ghost done = words@.map_values(|w: Vec<char>| w@);
        let ghost old_cur = cur@;
        let c = s[i];
        let ghost pre = s@.take(i as int);
        let ghost nxt = s@.take(i + 1);
        assert(nxt.drop_last() =~= pre);
        assert(nxt.last() == c);
        if is_whitespace(c) {
            assert(split_ws(nxt) == split_ws(pre));
            if cur.len() > 0 {
                let w = cur;
                cur = Vec::new();
                words.push(w);
                assert(words@.map_values(|w: Vec<char>| w@) =~= done.push(w@));
            }
        } else {
            if i > 0 {
                assert(nxt[nxt.len() - 2] == s@[i - 1]);
            }
            cur.push(c);
            proof {
                if old_cur.len() > 0 {
                    assert(split_ws(pre) == done.push(old_cur));
                    assert(split_ws(nxt) == done.push(old_cur).drop_last().push(
                        done.push(old_cur).last().push(c),
                    ));
                    assert(done.push(old_cur).drop_last() =~= done);
                    assert(split_ws(nxt) =~= done.push(cur@));
                } else {
                    assert(split_ws(nxt) == split_ws(pre).push(seq![c]));
                    assert(cur@ =~= seq![c]);
                }
            }
        }
        i += 1;
    }
    assert(s@.take(s.len() as int) =~= s@);
    if cur.len() > 0 {
        let ghost done = words@.map_values(|w: Vec<char>| w@);
        words.push(cur);
        assert(words@.map_values(|w: Vec<char>| w@) =~= done.push(cur@));
    }
    proof {
        let m = words@.map_values(|w: Vec<char>| w@);
        assert forall|k: int| 0 <= k < words@.len() implies (#[trigger] words@[k])@
            == split_ws(s@)[k] by {
            assert(m[k] == words@[k]@);
        }
    }
    words
}

/// The words of `ws` with a single space between consecutive ones.
pub fn join_words(ws: &Vec<Vec<char>>) -> (r: Vec<char>)
    ensures
        r@ == join(ws@.map_values(|w: Vec<char>| w@), seq![' ']),
{
    let ghost m = ws@.map_values(|w: Vec<char>| w@);
    let mut r: Vec<char> = Vec::new();
    let mut i: usize = 0;
    while i < ws.len()
        invariant
            i <= ws.len(),
            m == ws@.map_values(|w: Vec<char>| w@),
            r@ == join(m.take(i as int), seq![' ']),
        decreases ws.len() - i,
    {
        assert(m.take(i + 1).drop_last() =~= m.take(i as int));
        if i > 0 {
            r.push(' ');
        }
        append_chars(&mut r, &ws[i]);
        proof {
            if i == 0 {
                assert(r@ =~= m.take(1)[0]);
            } else {
                assert(r@ =~= join(m.take(i as int), seq![' ']) + seq![' '] + m.take(i + 1).last());
            }
        }
        i += 1;
    }
    assert(m.take(ws.len() as int) =~= m);
    r
}

// ── numbers ──────────────────────────────────────────────────────────────────

pub open spec fn digit_char(d: nat) -> char {
    if d == 0 { '0' }
    else if d == 1 { '1' }
    else if d == 2 { '2' }
    else if d == 3 { '3' }
    else if d == 4 { '4' }
    else if d == 5 { '5' }
    else if d == 6 { '6' }
    else if d == 7 { '7' }
    else if d == 8 { '8' }
    else if d == 9 { '9' }
    else if d == 10 { 'a' }
    else if d == 11 { 'b' }
    else if d == 12 { 'c' }
    else if d == 13 { 'd' }
    else if d == 14 { 'e' }
    else { 'f' }
}

fn digit(d: u8) -> (c: char)
    requires
        d < 16,
    ensures
        c == digit_char(d as nat),
{
    if d == 0 { '0' }
    else if d == 1 { '1' }
    else if d == 2 { '2' }
    else if d == 3 { '3' }
    else if d == 4 { '4' }
    else if d == 5 { '5' }
    else if d == 6 { '6' }
    else if d == 7 { '7' }
    else if d == 8 { '8' }
    else if d == 9 { '9' }
    else if d == 10 { 'a' }
    else if d == 11 { 'b' }
    else if d == 12 { 'c' }
    else if d == 13 { 'd' }
    else if d == 14 { 'e' }
    else { 'f' }
}

/// The digits of `n` in base `b` (2 ≤ b ≤ 16), most significant first,
/// with no leading zeros (`"0"` for zero).
pub open spec fn digits(n: nat, b: nat) -> Seq<char>
    decreases n,
{
    if b < 2 || n < b {
        seq![digit_char(n)]
    } else {
        proof {
            assert(n / b < n) by (nonlinear_arith)
                requires
                    b >= 2,
                    n >= b,
            ;
        }
        digits(n / b, b).push(digit_char(n % b))
    }
}

/// The decimal rendering of `n` (`n.to_string()`).
pub open spec fn decimal(n: nat) -> Seq<char> {
    digits(n, 10)
}

/// The lowercase hexadecimal rendering of `n` (`format!("{:x}", n)`).
pub open spec fn hex(n: nat) -> Seq<char> {
    digits(n, 16)
}

/// `k` copies of `'0'` (none when `k` is not positive).
pub open spec fn zeros(k: int) -> Seq<char> {
    Seq::new(if k > 0 { k as nat } else { 0 }, |i: int| '0')
}

/// `n` in decimal, zero-padded to `w` characters with the sign in front,
/// as `format!("{:0w$}", n)` renders a signed integer.
pub open spec fn pad_signed(n: int, w: int) -> Seq<char> {
    if n >= 0 {
        zeros(w - decimal(n as nat).len()) + decimal(n as nat)
    } else {
        seq!['-'] + zeros(w - 1 - decimal((-n) as nat).len()) + decimal((-n) as nat)
    }
}

/// `digits(n, b)` has at least one character.
pub proof fn lemma_digits_len(n: nat, b: nat)
    ensures
        digits(n, b).len() >= 1,
        b >= 2 && n < b ==> digits(n, b).len() == 1,
    decreases n,
{
    if b >= 2 && n >= b {
        assert(n / b < n) by (nonlinear_arith)
            requires
                b >= 2,
                n >= b,
        ;
        lemma_digits_len(n / b, b);
    }
}

fn push_digits(out: &mut Vec<char>, n: u128, b: u128)
    requires
        2 <= b <= 16,
    ensures
        final(out)@ == old(out)@ + digits(n as nat, b as nat),
    decreases n,
{
    if n >= b {
        assert(n / b < n) by (nonlinear_arith)
            requires
                b >= 2,
                n >= b,
        ;
        push_digits(out, n / b, b);
    }
    assert(n % b < 16) by (nonlinear_arith)
        requires
            b <= 16,
            b >= 2,
    ;
    let d = (n % b) as u8;
    let c = digit(d);
    out.push(c);
    proof {
        if n >= b {
            assert(digits(n as nat, b as nat) == digits((n / b) as nat, b as nat).push(
                digit_char((n % b) as nat),
            ));
        } else {
            assert(n % b == n) by (nonlinear_arith)
                requires
                    n < b,
            ;
        }
    }
}

/// Appends the decimal digits of `n`.
pub fn push_decimal(out: &mut Vec<char>, n: u128)
    ensures
        final(out)@ == old(out)@ + decimal(n as nat),
{
    push_digits(out, n, 10);
}

/// Appends `k` zeros.
fn push_zeros(out: &mut Vec<char>, k: usize)
    ensures
        final(out)@ == old(out)@ + zeros(k as int),
{
    let mut i: usize = 0;
    while i < k
        invariant
            i <= k,
            out@ == old(out)@ + zeros(i as int),
        decreases k - i,
    {
        out.push('0');
        i += 1;
        assert(out@ =~= old(out)@ + zeros(i as int));
    }
}

/// Appends `n` zero-padded to `w` characters, sign first, as `{:0w$}` does.
pub fn push_padded_signed(out: &mut Vec<char>, n: i64, w: usize)
    ensures
        final(out)@ == old(out)@ + pad_signed(n as int, w as int),
{
    let neg = n < 0;
    let mag: u128 = if neg {
        (0i128 - n as i128) as u128
    } else {
        n as u128
    };
    let mut d: Vec<char> = Vec::new();
    push_decimal(&mut d, mag);
    assert(d@ =~= decimal(mag as nat));
    if neg {
        out.push('-');
        if w >= 1 && w - 1 > d.len() {
            push_zeros(out, w - 1 - d.len());
        } else {
            assert(zeros(w - 1 - d@.len()) =~= Seq::<char>::empty());
        }
    } else {
        if w > d.len() {
            push_zeros(out, w - d.len());
        } else {
            assert(zeros(w - d@.len()) =~= Seq::<char>::empty());
        }
    }
    append_chars(out, &d);
    proof {
        if neg {
            assert(out@ =~= old(out)@ + pad_signed(n as int, w as int));
        } else {
            assert(out@ =~= old(out)@ + pad_signed(n as int, w as int));
        }
    }
}

/// Appends the lowercase hexadecimal digits of `n`, zero-padded to `w`.
pub fn push_padded_hex(out: &mut Vec<char>, n: u128, w: usize)
    ensures
        final(out)@ == old(out)@ + zeros(w - hex(n as nat).len()) + hex(n as nat),
{
    let mut d: Vec<char> = Vec::new();
    push_digits(&mut d, n, 16);
    assert(d@ =~= hex(n as nat));
    if w > d.len() {
        push_zeros(out, w - d.len());
    } else {
        assert(zeros(w - d@.len()) =~= Seq::<char>::empty());
    }
    append_chars(out, &d);
    assert(out@ =~= old(out)@ + zeros(w - hex(n as nat).len()) + hex(n as nat));
}

// ── lexicographic order ──────────────────────────────────────────────────────

/// Lexicographic "less than" on character sequences from position `i` on,
/// comparing characters by code point (the order of `str` and `String`).
pub open spec fn lt_from(a: Seq<char>, b: Seq<char>, i: int) -> bool
    decreases a.len() - i,
{
    if i < 0 || i >= a.len() {
        0 <= i < b.len()
    } else if i >= b.len() {
        false
    } else if a[i] != b[i] {
        (a[i] as u32) < (b[i] as u32)
    } else {
        lt_from(a, b, i + 1)
    }
}

/// `a` sorts strictly before `b`.
pub open spec fn str_lt(a: Seq<char>, b: Seq<char>) -> bool {
    lt_from(a, b, 0)
}

proof fn lemma_lt_from_irrefl(a: Seq<char>, i: int)
    requires
        0 <= i,
    ensures
        !lt_from(a, a, i),
    decreases a.len() - i,
{
    if i < a.len() {
        lemma_lt_from_irrefl(a, i + 1);
    }
}

proof fn lemma_lt_from_trans(a: Seq<char>, b: Seq<char>, c: Seq<char>, i: int)
    requires
        0 <= i,
        lt_from(a, b, i),
        lt_from(b, c, i),
    ensures
        lt_from(a, c, i),
    decreases a.len() - i,
{
    if i < a.len() && i < b.len() && i < c.len() && a[i] == b[i] && b[i] == c[i] {
        lemma_lt_from_trans(a, b, c, i + 1);
    }
}

proof fn lemma_lt_from_total(a: Seq<char>, b: Seq<char>, i: int)
    requires
        0 <= i <= a.len(),
        i <= b.len(),
        a.subrange(0, i) == b.subrange(0, i),
    ensures
        a == b || lt_from(a, b, i) || lt_from(b, a, i),
    decreases a.len() - i,
{
    if i < a.len() && i < b.len() && a[i] == b[i] {
        assert(a.subrange(0, i + 1) =~= a.subrange(0, i).push(a[i]));
        assert(b.subrange(0, i + 1) =~= b.subrange(0, i).push(b[i]));
        lemma_lt_from_total(a, b, i + 1);
    } else if i == a.len() && i == b.len() {
        assert(a =~= a.subrange(0, i));
        assert(b =~= b.subrange(0, i));
    } else if i < a.len() && i < b.len() {
        lemma_char_u32_inj(a[i], b[i]);
    }
}

/// `str_lt` is a strict total order.
proof fn lemma_char_u32_inj(x: char, y: char)
    requires
        x != y,
    ensures
        (x as u32) != (y as u32),
{
}

pub proof fn lemma_str_lt_order(a: Seq<char>, b: Seq<char>, c: Seq<char>)
    ensures
        !str_lt(a, a),
        str_lt(a, b) && str_lt(b, c) ==> str_lt(a, c),
        a == b || str_lt(a, b) || str_lt(b, a),
{
    lemma_lt_from_irrefl(a, 0);
    if str_lt(a, b) && str_lt(b, c) {
        lemma_lt_from_trans(a, b, c, 0);
    }
    assert(a.subrange(0, 0) =~= b.subrange(0, 0));
    lemma_lt_from_total(a, b, 0);
}

/// Whether `a` sorts strictly before `b`.
pub fn chars_lt(a: &Vec<char>, b: &Vec<char>) -> (r: bool)
    ensures
        r == str_lt(a@, b@),
{
    let mut i: usize = 0;
    while i < a.len() && i < b.len() && a[i] == b[i]
        invariant
            i <= a.len(),
            i <= b.len(),
            lt_from(a@, b@, 0) == lt_from(a@, b@, i as int),
        decreases a.len() - i,
    {
        i += 1;
    }
    if i == a.len() {
        i < b.len()
    } else if i == b.len() {
        false
    } else {
        (a[i] as u32) < (b[i] as u32)
    }
}

// ── stable sort by a string key ──────────────────────────────────────────────

/// Inserts `x` after every element whose key is not greater than its own.
pub open spec fn insert_sorted<A>(s: Seq<(Seq<char>, A)>, x: (Seq<char>, A)) -> Seq<(Seq<char>, A)>
    decreases s.len(),
{
    if s.len() == 0 {
        seq![x]
    } else if str_lt(x.0, s.last().0) {
        insert_sorted(s.drop_last(), x).push(s.last())
    } else {
        s.push(x)
    }
}

/// Stable insertion sort by key: the order in which `sort_by_key` leaves `s`.
pub open spec fn sorted_by_key<A>(s: Seq<(Seq<char>, A)>) -> Seq<(Seq<char>, A)>
    decreases s.len(),
{
    if s.len() == 0 {
        seq![]
    } else {
        insert_sorted(sorted_by_key(s.drop_last()), s.last())
    }
}

/// Keys in non-decreasing order.
pub open spec fn keys_sorted<A>(s: Seq<(Seq<char>, A)>) -> bool {
    forall|i: int, j: int| 0 <= i < j < s.len() ==> !str_lt(s[j].0, s[i].0)
}

proof fn lemma_key_le_trans(x: Seq<char>, y: Seq<char>, z: Seq<char>)
    requires
        !str_lt(y, x),
        !str_lt(z, y),
    ensures
        !str_lt(z, x),
{
    lemma_str_lt_order(x, y, z);
    lemma_str_lt_order(z, y, x);
    lemma_str_lt_order(y, x, z);
    lemma_str_lt_order(z, x, y);
    lemma_str_lt_order(x, z, y);
    lemma_str_lt_order(y, z, x);
}

proof fn lemma_insert_sorted_props<A>(s: Seq<(Seq<char>, A)>, x: (Seq<char>, A))
    requires
        keys_sorted(s),
    ensures
        keys_sorted(insert_sorted(s, x)),
        insert_sorted(s, x).to_multiset() == s.to_multiset().insert(x),
        insert_sorted(s, x).len() == s.len() + 1,
        forall|i: int|
            0 <= i < insert_sorted(s, x).len() ==> #[trigger] insert_sorted(s, x)[i] == x
                || s.contains(insert_sorted(s, x)[i]),
    decreases s.len(),
{
    broadcast use vstd::seq_lib::group_to_multiset_ensures;

    if s.len() == 0 {
        assert(seq![x] =~= Seq::<(Seq<char>, A)>::empty().push(x));
    } else {
        let l = s.last();
        let p = s.drop_last();
        assert(keys_sorted(p)) by {
            assert forall|i: int, j: int| 0 <= i < j < p.len() implies !str_lt(
                p[j].0,
                p[i].0,
            ) by {
                assert(p[i] == s[i] && p[j] == s[j]);
            }
        }
        assert(s =~= p.push(l));
        if str_lt(x.0, l.0) {
            lemma_insert_sorted_props(p, x);
            let q = insert_sorted(p, x);
            let r = q.push(l);
            assert(r == insert_sorted(s, x));
            assert forall|i: int, j: int| 0 <= i < j < r.len() implies !str_lt(
                r[j].0,
                r[i].0,
            ) by {
                if j == r.len() - 1 {
                    assert(r[i] == q[i]);
                    if q[i] == x {
                        lemma_str_lt_order(x.0, l.0, x.0);
                    } else {
                        assert(p.contains(q[i]));
                        let k = choose|k: int| 0 <= k < p.len() && p[k] == q[i];
                        assert(s[k] == p[k]);
                        assert(s[s.len() - 1] == l);
                    }
                } else {
                    assert(r[i] == q[i] && r[j] == q[j]);
                }
            }
            assert forall|i: int| 0 <= i < r.len() implies #[trigger] r[i] == x || s.contains(
                r[i],
            ) by {
                if i < r.len() - 1 {
                    assert(r[i] == q[i]);
                    if q[i] != x {
                        assert(p.contains(q[i]));
                        let k = choose|k: int| 0 <= k < p.len() && p[k] == q[i];
                        assert(s[k] == p[k]);
                    }
                } else {
                    assert(s[s.len() - 1] == l);
                }
            }
            assert(r.to_multiset() =~= s.to_multiset().insert(x));
        } else {
            let r = s.push(x);
            assert forall|i: int, j: int| 0 <= i < j < r.len() implies !str_lt(
                r[j].0,
                r[i].0,
            ) by {
                if j == r.len() - 1 {
                    if i < s.len() - 1 {
                        assert(!str_lt(s[s.len() - 1].0, s[i].0));
                        lemma_key_le_trans(s[i].0, l.0, x.0);
                    }
                } else {
                    assert(r[i] == s[i] && r[j] == s[j]);
                }
            }
            assert forall|i: int| 0 <= i < r.len() implies #[trigger] r[i] == x || s.contains(
                r[i],
            ) by {
                if i < s.len() {
                    assert(r[i] == s[i]);
                }
            }
        }
    }
}

/// The result of `sorted_by_key` is sorted by key and holds the same items.
pub proof fn lemma_sorted_by_key<A>(s: Seq<(Seq<char>, A)>)
    ensures
        keys_sorted(sorted_by_key(s)),
        sorted_by_key(s).to_multiset() == s.to_multiset(),
        sorted_by_key(s).len() == s.len(),
    decreases s.len(),
{
    broadcast use vstd::seq_lib::group_to_multiset_ensures;

    if s.len() > 0 {
        lemma_sorted_by_key(s.drop_last());
        lemma_insert_sorted_props(sorted_by_key(s.drop_last()), s.last());
        assert(s =~= s.drop_last().push(s.last()));
    }
}

proof fn lemma_insert_sorted_split<A>(s: Seq<(Seq<char>, A)>, x: (Seq<char>, A), k: int)
    requires
        0 <= k <= s.len(),
        forall|j: int| k <= j < s.len() ==> str_lt(x.0, #[trigger] s[j].0),
    ensures
        insert_sorted(s, x) == insert_sorted(s.take(k), x) + s.skip(k),
    decreases s.len() - k,
{
    if k < s.len() {
        let p = s.drop_last();
        assert(str_lt(x.0, s[s.len() - 1].0));
        assert forall|j: int| k <= j < p.len() implies str_lt(x.0, #[trigger] p[j].0) by {
            assert(p[j] == s[j]);
        }
        lemma_insert_sorted_split(p, x, k);
        assert(p.take(k) =~= s.take(k));
        assert(p.skip(k).push(s.last()) =~= s.skip(k));
        assert(insert_sorted(s.take(k), x) + s.skip(k) =~= (insert_sorted(p.take(k), x) + p.skip(
            k,
        )).push(s.last()));
    } else {
        assert(s.take(k) =~= s);
        assert(s.skip(k) =~= Seq::<(Seq<char>, A)>::empty());
        assert(insert_sorted(s, x) + s.skip(k) =~= insert_sorted(s, x));
    }
}

proof fn lemma_insert_sorted_is_insert<A>(s: Seq<(Seq<char>, A)>, x: (Seq<char>, A))
    ensures
        exists|k: int| 0 <= k <= s.len() && insert_sorted(s, x) == s.insert(k, x),
    decreases s.len(),
{
    if s.len() == 0 {
        assert(insert_sorted(s, x) =~= s.insert(0, x));
    } else if str_lt(x.0, s.last().0) {
        lemma_insert_sorted_is_insert(s.drop_last(), x);
        let k = choose|k: int|
            0 <= k <= s.drop_last().len() && insert_sorted(s.drop_last(), x) == s.drop_last().insert(
                k,
                x,
            );
        assert(s.drop_last().insert(k, x).push(s.last()) =~= s.insert(k, x));
    } else {
        assert(s.push(x) =~= s.insert(s.len() as int, x));
    }
}

/// Sorting keeps every item: mapped through any function, the sorted
/// sequence holds the same multiset of values as the original.
pub proof fn lemma_sorted_by_key_map_multiset<A, B>(s: Seq<(Seq<char>, A)>, f: spec_fn((Seq<char>, A)) -> B)
    ensures
        sorted_by_key(s).map_values(f).to_multiset() == s.map_values(f).to_multiset(),
    decreases s.len(),
{
    broadcast use vstd::seq_lib::group_to_multiset_ensures;

    if s.len() > 0 {
        let dl = s.drop_last();
        lemma_sorted_by_key_map_multiset(dl, f);
        let sd = sorted_by_key(dl);
        lemma_insert_sorted_is_insert(sd, s.last());
        let k = choose|k: int| 0 <= k <= sd.len() && insert_sorted(sd, s.last()) == sd.insert(k, s.last());
        assert(sd.insert(k, s.last()).map_values(f) =~= sd.map_values(f).insert(k, f(s.last())));
        assert(s.map_values(f) =~= dl.map_values(f).push(f(s.last())));
    }
}

/// Every item of the sorted sequence is an item of the original one.
pub proof fn lemma_sorted_by_key_contains<A>(s: Seq<(Seq<char>, A)>, i: int)
    requires
        0 <= i < sorted_by_key(s).len(),
    ensures
        s.contains(sorted_by_key(s)[i]),
{
    broadcast use vstd::seq_lib::group_to_multiset_ensures;

    lemma_sorted_by_key(s);
    assert(sorted_by_key(s).to_multiset().count(sorted_by_key(s)[i]) > 0);
}

/// Pairs of a key and an item, as plain values.
pub open spec fn keyed_views<T: View>(v: Seq<(Vec<char>, T)>) -> Seq<(Seq<char>, T::V)> {
    v.map_values(|p: (Vec<char>, T)| (p.0@, p.1@))
}

/// Sorts pairs by their key, keeping the order of pairs with equal keys
/// (as `slice::sort_by` does).
pub fn sort_by_key<T: View>(v: Vec<(Vec<char>, T)>) -> (r: Vec<(Vec<char>, T)>)
    ensures
        keyed_views(r@) == sorted_by_key(keyed_views(v@)),
{
    let mut input = v;
    let ghost orig = keyed_views(input@);
    let ghost orig_exec = input@;
    let total = input.len();
    let mut out: Vec<(Vec<char>, T)> = Vec::new();
    let mut n: usize = 0;
    // reverse the input so that popping yields it in order
    let mut rest: Vec<(Vec<char>, T)> = Vec::new();
    while input.len() > 0
        invariant
            rest@ + input@.reverse() =~= orig_exec.reverse(),
        decreases input.len(),
    {
        let x = input.pop().unwrap();
        proof {
            assert(input@.push(x).reverse() =~= seq![x] + input@.reverse());
        }
        rest.push(x);
        proof {
            assert(rest@ + input@.reverse() =~= orig_exec.reverse());
        }
    }
    assert(rest@ =~= orig_exec.reverse());
    assert(orig == keyed_views(orig_exec));
    while rest.len() > 0
        invariant
            n + rest@.len() == orig_exec.len(),
            orig_exec.len() == total,
            orig == keyed_views(orig_exec),
            rest@ == orig_exec.skip(n as int).reverse(),
            keyed_views(out@) == sorted_by_key(orig.take(n as int)),
        decreases rest.len(),
    {
        let x = rest.pop().unwrap();
        let ghost xv = (x.0@, x.1@);
        proof {
            assert(orig_exec.skip(n as int).reverse().last() == orig_exec[n as int]);
            assert(x == orig_exec[n as int]);
            assert(orig_exec.skip(n as int).reverse().drop_last() =~= orig_exec.skip(
                n + 1,
            ).reverse());
            assert(orig.take(n + 1).drop_last() =~= orig.take(n as int));
            assert(orig.take(n + 1).last() == xv);
        }
        let ghost s = keyed_views(out@);
        let mut k = out.len();
        while k > 0 && chars_lt(&x.0, &out[k - 1].0)
            invariant
                k <= out.len(),
                s == keyed_views(out@),
                xv == (x.0@, x.1@),
                forall|j: int| k <= j < s.len() ==> str_lt(xv.0, #[trigger] s[j].0),
            decreases k,
        {
            assert(s[k - 1] == (out@[k - 1].0@, out@[k - 1].1@));
            k -= 1;
        }
        proof {
            lemma_insert_sorted_split(s, xv, k as int);
            if k > 0 {
                assert(s.take(k as int).last() == s[k - 1]);
                assert(s[k - 1] == (out@[k - 1].0@, out@[k - 1].1@));
                assert(insert_sorted(s.take(k as int), xv) == s.take(k as int).push(xv));
            } else {
                assert(s.take(0) =~= Seq::<(Seq<char>, T::V)>::empty());
            }
        }
        let ghost before = out@;
        out.insert(k, x);
        proof {
            assert(keyed_views(out@) =~= s.take(k as int).push(xv) + s.skip(k as int));
        }
        n += 1;
    }
    assert(orig.take(orig.len() as int) =~= orig);
    out
}

/// The items of keyed pairs, keys dropped, in order.
pub fn unkey<T: View>(v: Vec<(Vec<char>, T)>) -> (r: Vec<T>)
    ensures
        r@.map_values(|t: T| t@) == keyed_views(v@).map_values(|p: (Seq<char>, T::V)| p.1),
{
    let ghost kv = keyed_views(v@);
    let mut src = v;
    let ghost orig = src@;
    let mut rev: Vec<(Vec<char>, T)> = Vec::new();
    while src.len() > 0
        invariant
            rev@ + src@.reverse() =~= orig.reverse(),
        decreases src.len(),
    {
        let x = src.pop().unwrap();
        proof {
            assert(src@.push(x).reverse() =~= seq![x] + src@.reverse());
        }
        rev.push(x);
        proof {
            assert(rev@ + src@.reverse() =~= orig.reverse());
        }
    }
    assert(rev@ =~= orig.reverse());
    let total = rev.len();
    let mut out: Vec<T> = Vec::new();
    let mut m: usize = 0;
    while rev.len() > 0
        invariant
            m + rev@.len() == orig.len(),
            orig.len() == total,
            rev@ == orig.skip(m as int).reverse(),
            kv == keyed_views(orig),
            out@.map_values(|t: T| t@) == kv.take(m as int).map_values(|p: (Seq<char>, T::V)| p.1),
        decreases rev.len(),
    {
        let p = rev.pop().unwrap();
        proof {
            assert(orig.skip(m as int).reverse().last() == orig[m as int]);
            assert(orig.skip(m as int).reverse().drop_last() =~= orig.skip(m + 1).reverse());
        }
        assert(p == orig[m as int]);
        let ghost before = out@;
        out.push(p.1);
        proof {
            assert(kv[m as int] == (orig[m as int].0@, orig[m as int].1@));
            assert(out@.map_values(|t: T| t@) =~= before.map_values(|t: T| t@).push(kv[m as int].1));
            assert(kv.take(m + 1).map_values(|p: (Seq<char>, T::V)| p.1) =~= kv.take(
                m as int,
            ).map_values(|p: (Seq<char>, T::V)| p.1).push(kv[m as int].1));
        }
        m += 1;
    }
    assert(kv.take(orig.len() as int) =~= kv);
    out
}

} // verus!
