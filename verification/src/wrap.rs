//! Packing a list of items (language codes) into lines of limited width,
//! joined by `  ·  `, for a terminal listing.
use vstd::prelude::*;
use vstd::string::StringSliceAdditionalSpecFns;
use vstd::utf8::encode_utf8;

use crate::text::{append_str, chars_of, join, string_of};

verus! {

/// The separator between items on a line.
pub open spec fn sep() -> Seq<char> {
    "  ·  "@
}

/// The length of a text in bytes, as UTF-8 (what `str::len` counts).
pub open spec fn byte_len(s: Seq<char>) -> nat {
    encode_utf8(s).len()
}

/// Adding `item` to the line `cur` would make it longer than `width`.
pub open spec fn breaks(cur: Seq<char>, item: Seq<char>, width: nat) -> bool {
    cur.len() > 0 && byte_len(cur) + byte_len(sep()) + byte_len(item) > width
}

/// The finished lines and the line being filled after packing `items`.
pub open spec fn wrap_state(items: Seq<Seq<char>>, width: nat) -> (Seq<Seq<char>>, Seq<char>)
    decreases items.len(),
{
    if items.len() == 0 {
        (seq![], seq![])
    } else {
        let (lines, cur) = wrap_state(items.drop_last(), width);
        let item = items.last();
        if breaks(cur, item, width) {
            (lines.push(cur), item)
        } else if cur.len() > 0 {
            (lines, cur + sep() + item)
        } else {
            (lines, item)
        }
    }
}

/// The lines `items` are packed into: greedily, an item starting a new
/// line only when it would not fit on the current one.
pub open spec fn wrapped(items: Seq<Seq<char>>, width: nat) -> Seq<Seq<char>> {
    let (lines, cur) = wrap_state(items, width);
    if cur.len() > 0 {
        lines.push(cur)
    } else {
        lines
    }
}

proof fn lemma_encode_concat(a: Seq<char>, b: Seq<char>)
    ensures
        encode_utf8(a + b) == encode_utf8(a) + encode_utf8(b),
    decreases a.len(),
{
    if a.len() == 0 {
        assert(a + b =~= b);
    } else {
        assert((a + b).drop_first() =~= a.drop_first() + b);
        assert((a + b)[0] == a[0]);
        lemma_encode_concat(a.drop_first(), b);
        assert(encode_utf8(a + b) =~= encode_utf8(a) + encode_utf8(b));
    }
}

/// Byte lengths add up over concatenation.
pub proof fn lemma_byte_len_concat(a: Seq<char>, b: Seq<char>)
    ensures
        byte_len(a + b) == byte_len(a) + byte_len(b),
{
    lemma_encode_concat(a, b);
}

/// The separator is 6 bytes long (`·` takes two).
pub proof fn lemma_sep_len()
    ensures
        byte_len(sep()) == 6,
        sep().len() == 5,
{
    reveal_strlit("  ·  ");
    let s = sep();
    assert(s.drop_first().drop_first().drop_first().drop_first().drop_first().len() == 0);
    reveal_with_fuel(encode_utf8, 6);
    assert(s[0] == ' ' && s[1] == ' ' && s[2] == '·' && s[3] == ' ' && s[4] == ' ');
    assert(s.drop_first() =~= seq![' ', '·', ' ', ' ']);
    assert(s.drop_first().drop_first() =~= seq!['·', ' ', ' ']);
    assert(s.drop_first().drop_first().drop_first() =~= seq![' ', ' ']);
    assert(s.drop_first().drop_first().drop_first().drop_first() =~= seq![' ']);
    assert(('·' as u32) == 0xB7);
}

/// Packs `items` into lines of at most `width` bytes, joined by `  ·  `,
/// fitting as many per line as will fit (see `wrapped`); an item longer
/// than `width` stands on a line of its own.
pub fn wrap_items(items: &[String], width: usize) -> (r: Vec<String>)
    requires
        forall|i: int| 0 <= i < items@.len() ==> byte_len(#[trigger] items@[i]@) <= usize::MAX,
    ensures
        crate::merger::name_views(r@) == wrapped(crate::merger::name_views(items@), width as nat),
{
    let ghost iv = crate::merger::name_views(items@);
    let mut lines: Vec<String> = Vec::new();
    let mut cur: Vec<char> = Vec::new();
    let mut cur_len: usize = 0;
    let mut i: usize = 0;
    proof {
        lemma_sep_len();
    }
    while i < items.len()
        invariant
            i <= items@.len(),
            iv == crate::merger::name_views(items@),
            forall|k: int| 0 <= k < items@.len() ==> byte_len(#[trigger] items@[k]@) <= usize::MAX,
            byte_len(sep()) == 6,
            (crate::merger::name_views(lines@), cur@) == wrap_state(iv.take(i as int), width as nat),
            cur_len == byte_len(cur@),
        decreases items@.len() - i,
    {
        let item = items[i].as_str();
        let item_len = item.len();
        assert(item@ == iv[i as int]);
        assert(byte_len(items@[i as int]@) <= usize::MAX);
        assert(item_len == byte_len(item@));
        assert(iv.take(i + 1).drop_last() =~= iv.take(i as int));
        assert(iv.take(i + 1).last() == item@);
        let fits = cur_len <= width && item_len <= width - cur_len && 6 <= width - cur_len - item_len;
        let nonempty = cur.len() > 0;
        if nonempty && !fits {
            let ghost before = lines@;
            lines.push(string_of(&cur));
            assert(crate::merger::name_views(lines@) =~= crate::merger::name_views(before).push(
                cur@,
            ));
            cur = chars_of(item);
            cur_len = item_len;
        } else if nonempty {
            let ghost c0 = cur@;
            append_str(&mut cur, "  ·  ");
            append_str(&mut cur, item);
            proof {
                lemma_byte_len_concat(c0, sep());
                lemma_byte_len_concat(c0 + sep(), item@);
            }
            cur_len = cur_len + 6 + item_len;
        } else {
            cur = chars_of(item);
            cur_len = item_len;
        }
        i += 1;
    }
    assert(iv.take(items@.len() as int) =~= iv);
    if cur.len() > 0 {
        let ghost before = lines@;
        lines.push(string_of(&cur));
        assert(crate::merger::name_views(lines@) =~= crate::merger::name_views(before).push(cur@));
    }
    lines
}

proof fn lemma_join_push(s: Seq<Seq<char>>, a: Seq<char>, sp: Seq<char>)
    ensures
        s.len() == 0 ==> join(s.push(a), sp) == a,
        s.len() > 0 ==> join(s.push(a), sp) == join(s, sp) + sp + a,
{
    assert(s.push(a).drop_last() =~= s);
    if s.len() == 0 {
        assert(s.push(a)[0] == a);
    }
}

/// Every item is non-empty: the lines being filled are non-empty too.
proof fn lemma_wrap_state_lines_nonempty(items: Seq<Seq<char>>, width: nat)
    ensures
        forall|k: int|
            0 <= k < wrap_state(items, width).0.len() ==> (#[trigger] wrap_state(
                items,
                width,
            ).0[k]).len() > 0,
    decreases items.len(),
{
    if items.len() > 0 {
        let dl = items.drop_last();
        lemma_wrap_state_lines_nonempty(dl, width);
        let (lines, cur) = wrap_state(dl, width);
        if breaks(cur, items.last(), width) {
            assert forall|k: int| 0 <= k < lines.push(cur).len() implies (#[trigger] lines.push(
                cur,
            )[k]).len() > 0 by {
                if k < lines.len() {
                    assert(lines.push(cur)[k] == lines[k]);
                }
            }
        }
    }
}

/// No line of the packing is empty.
pub proof fn lemma_wrap_lines_nonempty(items: Seq<Seq<char>>, width: nat)
    ensures
        forall|k: int|
            0 <= k < wrapped(items, width).len() ==> (#[trigger] wrapped(items, width)[k]).len()
                > 0,
{
    lemma_wrap_state_lines_nonempty(items, width);
}

proof fn lemma_wrap_state_width(items: Seq<Seq<char>>, width: nat)
    requires
        forall|k: int| 0 <= k < items.len() ==> byte_len(#[trigger] items[k]) <= width,
    ensures
        forall|k: int|
            0 <= k < wrap_state(items, width).0.len() ==> byte_len(
                #[trigger] wrap_state(items, width).0[k],
            ) <= width,
        byte_len(wrap_state(items, width).1) <= width,
    decreases items.len(),
{
    if items.len() > 0 {
        let dl = items.drop_last();
        assert forall|k: int| 0 <= k < dl.len() implies byte_len(#[trigger] dl[k]) <= width by {
            assert(dl[k] == items[k]);
        }
        lemma_wrap_state_width(dl, width);
        let (lines, cur) = wrap_state(dl, width);
        let item = items.last();
        assert(byte_len(item) <= width);
        if !breaks(cur, item, width) && cur.len() > 0 {
            lemma_byte_len_concat(cur, sep());
            lemma_byte_len_concat(cur + sep(), item);
        }
    } else {
        assert(encode_utf8(seq![]).len() == 0);
    }
}

/// When every item is at most `width` bytes long, so is every line.
pub proof fn lemma_wrap_respects_width(items: Seq<Seq<char>>, width: nat)
    requires
        forall|k: int| 0 <= k < items.len() ==> byte_len(#[trigger] items[k]) <= width,
    ensures
        forall|k: int|
            0 <= k < wrapped(items, width).len() ==> byte_len(#[trigger] wrapped(items, width)[k])
                <= width,
{
    lemma_wrap_state_width(items, width);
}

proof fn lemma_wrap_state_join(items: Seq<Seq<char>>, width: nat)
    requires
        forall|k: int| 0 <= k < items.len() ==> (#[trigger] items[k]).len() > 0,
    ensures
        items.len() == 0 ==> wrap_state(items, width).0.len() == 0 && wrap_state(
            items,
            width,
        ).1.len() == 0,
        items.len() > 0 ==> wrap_state(items, width).1.len() > 0 && join(
            wrap_state(items, width).0.push(wrap_state(items, width).1),
            sep(),
        ) == join(items, sep()),
    decreases items.len(),
{
    if items.len() > 0 {
        let dl = items.drop_last();
        assert forall|k: int| 0 <= k < dl.len() implies (#[trigger] dl[k]).len() > 0 by {
            assert(dl[k] == items[k]);
        }
        lemma_wrap_state_join(dl, width);
        let (lines, cur) = wrap_state(dl, width);
        let item = items.last();
        assert(item.len() > 0);
        lemma_join_push(dl, item, sep());
        assert(dl.push(item) =~= items);
        if dl.len() == 0 {
        } else if breaks(cur, item, width) {
            lemma_join_push(lines.push(cur), item, sep());
        } else {
            lemma_join_push(lines, cur, sep());
            lemma_join_push(lines, cur + sep() + item, sep());
            if lines.len() > 0 {
                assert(join(lines, sep()) + sep() + (cur + sep() + item) =~= join(lines, sep())
                    + sep() + cur + sep() + item);
            }
        }
    }
}

/// Packing keeps every item, in order: when no item is empty, the lines
/// joined by the separator give the items joined by it.
pub proof fn lemma_wrap_keeps_items(items: Seq<Seq<char>>, width: nat)
    requires
        forall|k: int| 0 <= k < items.len() ==> (#[trigger] items[k]).len() > 0,
    ensures
        join(wrapped(items, width), sep()) == join(items, sep()),
{
    lemma_wrap_state_join(items, width);
}

proof fn lemma_wrap_state_fits(items: Seq<Seq<char>>, width: nat)
    requires
        items.len() > 0,
        forall|k: int| 0 <= k < items.len() ==> (#[trigger] items[k]).len() > 0,
        byte_len(join(items, sep())) <= width,
    ensures
        wrap_state(items, width).0.len() == 0,
        wrap_state(items, width).1 == join(items, sep()),
    decreases items.len(),
{
    let dl = items.drop_last();
    let item = items.last();
    lemma_join_push(dl, item, sep());
    assert(dl.push(item) =~= items);
    if dl.len() > 0 {
        assert forall|k: int| 0 <= k < dl.len() implies (#[trigger] dl[k]).len() > 0 by {
            assert(dl[k] == items[k]);
        }
        lemma_byte_len_concat(join(dl, sep()), sep());
        lemma_byte_len_concat(join(dl, sep()) + sep(), item);
        lemma_wrap_state_fits(dl, width);
        lemma_wrap_state_join(dl, width);
        assert(!breaks(wrap_state(dl, width).1, item, width));
    }
}

/// Items whose joined text fits in `width` stay on one line.
pub proof fn lemma_wrap_single_line_when_it_fits(items: Seq<Seq<char>>, width: nat)
    requires
        items.len() > 0,
        forall|k: int| 0 <= k < items.len() ==> (#[trigger] items[k]).len() > 0,
        byte_len(join(items, sep())) <= width,
    ensures
        wrapped(items, width) == seq![join(items, sep())],
{
    lemma_wrap_state_fits(items, width);
    assert(items[0].len() > 0);
    lemma_wrap_state_join(items, width);
    assert(seq![].push(join(items, sep())) =~= seq![join(items, sep())]);
}

/// The item each line starts with, in order (for items that are all
/// non-empty).
pub open spec fn wrap_firsts(items: Seq<Seq<char>>, width: nat) -> Seq<Seq<char>>
    decreases items.len(),
{
    if items.len() == 0 {
        seq![]
    } else {
        let dl = items.drop_last();
        let f = wrap_firsts(dl, width);
        let cur = wrap_state(dl, width).1;
        let item = items.last();
        if breaks(cur, item, width) || cur.len() == 0 {
            f.push(item)
        } else {
            f
        }
    }
}

proof fn lemma_wrap_state_greedy(items: Seq<Seq<char>>, width: nat)
    requires
        items.len() > 0,
        forall|k: int| 0 <= k < items.len() ==> (#[trigger] items[k]).len() > 0,
    ensures
        ({
            let (lines, cur) = wrap_state(items, width);
            let f = wrap_firsts(items, width);
            let all = lines.push(cur);
            &&& f.len() == all.len()
            &&& cur.len() > 0
            &&& forall|k: int| 0 <= k < f.len() ==> items.contains(#[trigger] f[k])
            &&& forall|k: int|
                0 <= k < all.len() ==> (#[trigger] all[k]).len() >= f[k].len() && all[k].take(
                    f[k].len() as int,
                ) == f[k]
            &&& forall|k: int|
                0 <= k < lines.len() ==> byte_len(#[trigger] lines[k]) + byte_len(sep())
                    + byte_len(f[k + 1]) > width
        }),
    decreases items.len(),
{
    let dl = items.drop_last();
    let item = items.last();
    assert(items[items.len() - 1] == item);
    if dl.len() == 0 {
        let f = wrap_firsts(items, width);
        assert(wrap_firsts(dl, width) =~= Seq::<Seq<char>>::empty());
        assert(wrap_state(dl, width).1.len() == 0);
        assert(f =~= seq![item]);
        assert(item.take(item.len() as int) =~= item);
    } else {
        assert forall|k: int| 0 <= k < dl.len() implies (#[trigger] dl[k]).len() > 0 by {
            assert(dl[k] == items[k]);
        }
        lemma_wrap_state_greedy(dl, width);
        let (lines, cur) = wrap_state(dl, width);
        let f0 = wrap_firsts(dl, width);
        let all0 = lines.push(cur);
        let (lines2, cur2) = wrap_state(items, width);
        let f = wrap_firsts(items, width);
        let all = lines2.push(cur2);
        assert forall|k: int| 0 <= k < f0.len() implies items.contains(#[trigger] f0[k]) by {
            let j = choose|j: int| 0 <= j < dl.len() && dl[j] == f0[k];
            assert(items[j] == f0[k]);
        }
        if breaks(cur, item, width) {
            assert(f == f0.push(item));
            assert(lines2 == lines.push(cur));
            assert(all =~= all0.push(item));
            assert(item.take(item.len() as int) =~= item);
            assert forall|k: int| 0 <= k < f.len() implies items.contains(#[trigger] f[k]) by {
                if k < f0.len() {
                    assert(f[k] == f0[k]);
                } else {
                    assert(f[k] == item);
                }
            }
            assert forall|k: int|
                0 <= k < all.len() implies (#[trigger] all[k]).len() >= f[k].len() && all[k].take(
                f[k].len() as int,
            ) == f[k] by {
                if k < all0.len() {
                    assert(all[k] == all0[k]);
                    assert(f[k] == f0[k]);
                }
            }
            assert forall|k: int|
                0 <= k < lines2.len() implies byte_len(#[trigger] lines2[k]) + byte_len(sep())
                + byte_len(f[k + 1]) > width by {
                if k < lines.len() {
                    assert(lines2[k] == lines[k]);
                    assert(f[k + 1] == f0[k + 1]);
                } else {
                    assert(lines2[k] == cur);
                    assert(f[k + 1] == item);
                }
            }
        } else {
            assert(cur.len() > 0);
            assert(f == f0);
            assert(lines2 == lines);
            assert(cur2 == cur + sep() + item);
            let last = all0.len() - 1;
            assert forall|k: int|
                0 <= k < all.len() implies (#[trigger] all[k]).len() >= f[k].len() && all[k].take(
                f[k].len() as int,
            ) == f[k] by {
                if k < last {
                    assert(all[k] == all0[k]);
                } else {
                    assert(all0[k] == cur);
                    assert(all[k] == cur2);
                    assert(cur2.take(f[k].len() as int) =~= cur.take(f[k].len() as int));
                }
            }
            assert forall|k: int|
                0 <= k < lines2.len() implies byte_len(#[trigger] lines2[k]) + byte_len(sep())
                + byte_len(f[k + 1]) > width by {
                assert(lines2[k] == lines[k]);
            }
        }
    }
}

/// Lines are filled greedily: each line could not also have held the item
/// that starts the next one. `wrap_firsts` gives the item each line starts
/// with; it is an item, and the line begins with it.
pub proof fn lemma_wrap_is_greedy(items: Seq<Seq<char>>, width: nat)
    requires
        forall|k: int| 0 <= k < items.len() ==> (#[trigger] items[k]).len() > 0,
    ensures
        wrap_firsts(items, width).len() == wrapped(items, width).len(),
        forall|k: int|
            0 <= k < wrap_firsts(items, width).len() ==> items.contains(
                #[trigger] wrap_firsts(items, width)[k],
            ),
        forall|k: int|
            0 <= k < wrapped(items, width).len() ==> (#[trigger] wrapped(items, width)[k]).take(
                wrap_firsts(items, width)[k].len() as int,
            ) == wrap_firsts(items, width)[k],
        forall|k: int|
            0 <= k && k + 1 < wrapped(items, width).len() ==> byte_len(
                #[trigger] wrapped(items, width)[k],
            ) + byte_len(sep()) + byte_len(wrap_firsts(items, width)[k + 1]) > width,
{
    if items.len() > 0 {
        lemma_wrap_state_greedy(items, width);
        let (lines, cur) = wrap_state(items, width);
        assert(wrapped(items, width) == lines.push(cur));
        assert forall|k: int| 0 <= k && k + 1 < wrapped(items, width).len() implies byte_len(
            #[trigger] wrapped(items, width)[k],
        ) + byte_len(sep()) + byte_len(wrap_firsts(items, width)[k + 1]) > width by {
            assert(wrapped(items, width)[k] == lines[k]);
        }
    } else {
        lemma_wrap_state_join(items, width);
    }
}

} // verus!
