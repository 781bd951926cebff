//! Reading a rendered timestamp back: below 100 hours its fields give the
//! time it was made from.
use vstd::prelude::*;

use crate::text::{decimal, digit_char, pad_signed, zeros};
use crate::writer::{abs_ms, timestamp};

verus! {

/// The value of a decimal digit.
pub open spec fn digit_value(c: char) -> int {
    (c as u32) as int - ('0' as u32) as int
}

/// The number a string of decimal digits reads as.
pub open spec fn decimal_value(s: Seq<char>) -> int
    decreases s.len(),
{
    if s.len() == 0 {
        0
    } else {
        decimal_value(s.drop_last()) * 10 + digit_value(s.last())
    }
}

proof fn lemma_decimal_value(n: nat)
    ensures
        decimal_value(decimal(n)) == n,
        n < 10 ==> decimal(n).len() == 1,
        n < 100 ==> decimal(n).len() <= 2,
        n < 1000 ==> decimal(n).len() <= 3,
    decreases n,
{
    let d = decimal(n);
    if n < 10 {
        assert(d == seq![digit_char(n)]);
        assert(d.drop_last() =~= Seq::<char>::empty());
        assert(decimal_value(d.drop_last()) == 0);
        assert(digit_value(digit_char(n)) == n);
        assert(decimal_value(d) == decimal_value(d.drop_last()) * 10 + digit_value(d.last()));
    } else {
        let q = n / 10;
        let r = n % 10;
        assert(q < n && n == q * 10 + r && r < 10) by (nonlinear_arith)
            requires
                n >= 10,
                q == n / 10,
                r == n % 10,
        ;
        lemma_decimal_value(q);
        assert(d == decimal(q).push(digit_char(r)));
        assert(d.drop_last() =~= decimal(q));
        assert(digit_value(digit_char(r)) == r);
        assert(decimal_value(d) == decimal_value(d.drop_last()) * 10 + digit_value(d.last()));
        assert(n < 100 ==> q < 10) by (nonlinear_arith)
            requires
                q == n / 10,
        ;
        assert(n < 1000 ==> q < 100) by (nonlinear_arith)
            requires
                q == n / 10,
        ;
    }
}

proof fn lemma_zeros_value(k: int, d: Seq<char>)
    ensures
        decimal_value(zeros(k) + d) == decimal_value(d),
    decreases d.len(), (if k > 0 { k } else { 0 }),
{
    if d.len() > 0 {
        assert((zeros(k) + d).drop_last() =~= zeros(k) + d.drop_last());
        lemma_zeros_value(k, d.drop_last());
    } else if k > 0 {
        assert(zeros(k) + d =~= zeros(k - 1) + seq!['0']);
        assert((zeros(k - 1) + seq!['0']).drop_last() =~= zeros(k - 1) + Seq::<char>::empty());
        lemma_zeros_value(k - 1, Seq::<char>::empty());
    } else {
        assert(zeros(k) + d =~= Seq::<char>::empty());
    }
}

proof fn lemma_padded(n: nat, w: int)
    requires
        w == 2 && n < 100 || w == 3 && n < 1000,
    ensures
        pad_signed(n as int, w).len() == w,
        decimal_value(pad_signed(n as int, w)) == n,
{
    lemma_decimal_value(n);
    lemma_zeros_value(w - decimal(n).len(), decimal(n));
}

/// Below 100 hours, a timestamp is twelve characters, `hh:mm:ss` and the
/// milliseconds, whose fields read back as the time: hours, minutes under
/// 60, seconds under 60 and milliseconds adding up to `ms`.
pub proof fn lemma_timestamp_reads_back(ms: i64, sep: char)
    requires
        0 <= ms < 360_000_000,
    ensures
        timestamp(ms, sep).len() == 12,
        timestamp(ms, sep)[2] == ':' && timestamp(ms, sep)[5] == ':' && timestamp(ms, sep)[8]
            == sep,
        decimal_value(timestamp(ms, sep).subrange(3, 5)) < 60,
        decimal_value(timestamp(ms, sep).subrange(6, 8)) < 60,
        decimal_value(timestamp(ms, sep).subrange(9, 12)) < 1000,
        decimal_value(timestamp(ms, sep).subrange(0, 2)) * 3_600_000 + decimal_value(
            timestamp(ms, sep).subrange(3, 5),
        ) * 60_000 + decimal_value(timestamp(ms, sep).subrange(6, 8)) * 1_000 + decimal_value(
            timestamp(ms, sep).subrange(9, 12),
        ) == ms,
{
    let a = abs_ms(ms);
    assert(a == ms);
    let h = a / 3_600_000;
    let m = (a % 3_600_000) / 60_000;
    let sc = (a % 60_000) / 1_000;
    let mi = a % 1_000;
    assert(h < 100 && m < 60 && sc < 60 && mi < 1000) by (nonlinear_arith)
        requires
            a < 360_000_000,
            h == a / 3_600_000,
            m == (a % 3_600_000) / 60_000,
            sc == (a % 60_000) / 1_000,
            mi == a % 1_000,
    ;
    vstd::arithmetic::div_mod::lemma_mod_mod(a as int, 60_000, 60);
    vstd::arithmetic::div_mod::lemma_mod_mod(a as int, 1_000, 60);
    assert(h * 3_600_000 + m * 60_000 + sc * 1_000 + mi == a) by (nonlinear_arith)
        requires
            h == a / 3_600_000,
            m == (a % 3_600_000) / 60_000,
            sc == (a % 60_000) / 1_000,
            mi == a % 1_000,
            (a % 3_600_000) % 60_000 == a % 60_000,
            (a % 60_000) % 1_000 == a % 1_000,
    ;
    lemma_padded(h, 2);
    lemma_padded(m, 2);
    lemma_padded(sc, 2);
    lemma_padded(mi, 3);
    let ph = pad_signed(h as int, 2);
    let pm = pad_signed(m as int, 2);
    let ps = pad_signed(sc as int, 2);
    let pi = pad_signed(mi as int, 3);
    let t = timestamp(ms, sep);
    assert(t == ph + seq![':'] + pm + seq![':'] + ps + seq![sep] + pi);
    assert(t.subrange(0, 2) =~= ph);
    assert(t.subrange(3, 5) =~= pm);
    assert(t.subrange(6, 8) =~= ps);
    assert(t.subrange(9, 12) =~= pi);
}

} // verus!
