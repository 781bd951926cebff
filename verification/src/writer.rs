//! Rendering cues as WebVTT and SubRip text.
use vstd::prelude::*;

use crate::text::{
    append_chars, append_str, chars_of, decimal, has_prefix, lowercase, pad_signed,
    push_decimal, push_padded_signed, string_of, to_lowercase,
};
use crate::types::SubCue;

verus! {

// ── timestamps ───────────────────────────────────────────────────────────────

/// `|ms|` as a natural number.
pub open spec fn abs_ms(ms: i64) -> nat {
    if ms < 0 {
        (-(ms as int)) as nat
    } else {
        ms as nat
    }
}

/// `x` with the sign of `ms`: the integer division and remainder of Rust
/// truncate towards zero, so every component of a negative time is negative.
pub open spec fn signed_like(ms: i64, x: nat) -> int {
    if ms < 0 {
        -(x as int)
    } else {
        x as int
    }
}

/// `hh:mm:ss` followed by `sep` and the milliseconds, each part zero-padded
/// as `format!("{h:02}:{m:02}:{s:02}{sep}{millis:03}")` renders it, where
/// `h = ms / 3_600_000`, `m = (ms % 3_600_000) / 60_000`,
/// `s = (ms % 60_000) / 1_000` and `millis = ms % 1_000`.
pub open spec fn timestamp(ms: i64, sep: char) -> Seq<char> {
    let a = abs_ms(ms);
    pad_signed(signed_like(ms, a / 3_600_000), 2) + seq![':'] + pad_signed(
        signed_like(ms, (a % 3_600_000) / 60_000),
        2,
    ) + seq![':'] + pad_signed(signed_like(ms, (a % 60_000) / 1_000), 2) + seq![sep]
        + pad_signed(signed_like(ms, a % 1_000), 3)
}

/// The WebVTT timestamp of `ms` (`hh:mm:ss.mmm`).
pub open spec fn vtt_timestamp(ms: i64) -> Seq<char> {
    timestamp(ms, '.')
}

/// The SubRip timestamp of `ms` (`hh:mm:ss,mmm`).
pub open spec fn srt_timestamp(ms: i64) -> Seq<char> {
    timestamp(ms, ',')
}

fn push_timestamp(out: &mut Vec<char>, ms: i64, sep: char)
    ensures
        final(out)@ == old(out)@ + timestamp(ms, sep),
{
    let neg = ms < 0;
    let a: u64 = if neg {
        (0i128 - ms as i128) as u64
    } else {
        ms as u64
    };
    assert(a as nat == abs_ms(ms));
    let h = a / 3_600_000;
    let m = (a % 3_600_000) / 60_000;
    let s = (a % 60_000) / 1_000;
    let millis = a % 1_000;
    assert(h <= 0x7fff_ffff_ffff_ffffu64);
    let sh: i64 = if neg { 0 - (h as i64) } else { h as i64 };
    let sm: i64 = if neg { 0 - (m as i64) } else { m as i64 };
    let ss: i64 = if neg { 0 - (s as i64) } else { s as i64 };
    let sms: i64 = if neg { 0 - (millis as i64) } else { millis as i64 };
    push_padded_signed(out, sh, 2);
    out.push(':');
    push_padded_signed(out, sm, 2);
    out.push(':');
    push_padded_signed(out, ss, 2);
    out.push(sep);
    push_padded_signed(out, sms, 3);
    assert(out@ =~= old(out)@ + timestamp(ms, sep));
}

/// The WebVTT timestamp of `ms`, e.g. `01:02:03.456`.
pub fn ms_to_vtt_timestamp(ms: i64) -> (r: String)
    ensures
        r@ == vtt_timestamp(ms),
{
    let mut out: Vec<char> = Vec::new();
    push_timestamp(&mut out, ms, '.');
    assert(out@ =~= vtt_timestamp(ms));
    string_of(&out)
}

/// The SubRip timestamp of `ms`, e.g. `01:02:03,456`.
pub fn ms_to_srt_timestamp(ms: i64) -> (r: String)
    ensures
        r@ == srt_timestamp(ms),
{
    let mut out: Vec<char> = Vec::new();
    push_timestamp(&mut out, ms, ',');
    assert(out@ =~= srt_timestamp(ms));
    string_of(&out)
}

// ── RTL detection ────────────────────────────────────────────────────────────

pub open spec fn starts_with(s: Seq<char>, p: Seq<char>) -> bool {
    p.len() <= s.len() && s.take(p.len() as int) == p
}

/// Whether a language is written right to left: its lowercased code starts
/// with `ar`, `he`, `fa` or `ur`.
pub open spec fn rtl_lang(lang: Seq<char>) -> bool {
    let l = lowercase(lang);
    starts_with(l, "ar"@) || starts_with(l, "he"@) || starts_with(l, "fa"@) || starts_with(
        l,
        "ur"@,
    )
}

/// Whether `lang` (Arabic, Hebrew, Persian or Urdu) is written right to left.
pub fn is_rtl_lang(lang: &str) -> (r: bool)
    ensures
        r == rtl_lang(lang@),
{
    let l = to_lowercase(lang);
    let lc = chars_of(l.as_str());
    let ar = chars_of("ar");
    let he = chars_of("he");
    let fa = chars_of("fa");
    let ur = chars_of("ur");
    has_prefix(&lc, &ar) || has_prefix(&lc, &he) || has_prefix(&lc, &fa) || has_prefix(&lc, &ur)
}

// ── writers ──────────────────────────────────────────────────────────────────

/// One cue as it stands in the output: its number, its timing line
/// (`start --> end`), its text and a blank line.
pub open spec fn cue_block(c: SubCue, sep: char) -> Seq<char> {
    decimal(c.index as nat) + seq!['\n'] + timestamp(c.start_ms, sep) + " --> "@ + timestamp(
        c.end_ms,
        sep,
    ) + seq!['\n'] + c.text@ + "\n\n"@
}

/// The blocks of the first `n` cues, in order.
pub open spec fn cue_blocks(cues: Seq<SubCue>, sep: char) -> Seq<char>
    decreases cues.len(),
{
    if cues.len() == 0 {
        seq![]
    } else {
        cue_blocks(cues.drop_last(), sep) + cue_block(cues.last(), sep)
    }
}

/// The style block that sets right-to-left cue direction.
pub open spec fn rtl_style() -> Seq<char> {
    "\nSTYLE\n::cue {\n  direction: rtl;\n  unicode-bidi: embed;\n}\n"@
}

/// A whole WebVTT file: the header, the RTL style block for right-to-left
/// languages, a blank line, then every cue.
pub open spec fn vtt_document(cues: Seq<SubCue>, lang: Seq<char>) -> Seq<char> {
    "WEBVTT\n"@ + (if rtl_lang(lang) {
        rtl_style()
    } else {
        seq![]
    }) + seq!['\n'] + cue_blocks(cues, '.')
}

/// A whole SubRip file: every cue, in order.
pub open spec fn srt_document(cues: Seq<SubCue>) -> Seq<char> {
    cue_blocks(cues, ',')
}

fn push_cue_blocks(out: &mut Vec<char>, cues: &[SubCue], sep: char)
    ensures
        final(out)@ == old(out)@ + cue_blocks(cues@, sep),
{
    let mut i: usize = 0;
    while i < cues.len()
        invariant
            i <= cues@.len(),
            out@ == old(out)@ + cue_blocks(cues@.take(i as int), sep),
        decreases cues@.len() - i,
    {
        let cue = &cues[i];
        let ghost before = out@;
        push_decimal(out, cue.index as u128);
        out.push('\n');
        push_timestamp(out, cue.start_ms, sep);
        append_str(out, " --> ");
        push_timestamp(out, cue.end_ms, sep);
        out.push('\n');
        append_str(out, cue.text.as_str());
        append_str(out, "\n\n");
        proof {
            assert(out@ =~= before + cue_block(*cue, sep));
            assert(cues@.take(i + 1).drop_last() =~= cues@.take(i as int));
            assert(cues@.take(i + 1).last() == *cue);
        }
        i += 1;
    }
    assert(cues@.take(cues@.len() as int) =~= cues@);
}

/// Renders `cues` as a WebVTT document; right-to-left languages get a style
/// block that sets the cue direction.
pub fn write_vtt(cues: &[SubCue], lang: &str) -> (r: String)
    ensures
        r@ == vtt_document(cues@, lang@),
{
    let mut out: Vec<char> = Vec::new();
    append_str(&mut out, "WEBVTT\n");
    if is_rtl_lang(lang) {
        append_str(&mut out, "\nSTYLE\n::cue {\n  direction: rtl;\n  unicode-bidi: embed;\n}\n");
    }
    out.push('\n');
    push_cue_blocks(&mut out, cues, '.');
    assert(out@ =~= vtt_document(cues@, lang@));
    string_of(&out)
}

/// Renders `cues` as a SubRip document.
pub fn write_srt(cues: &[SubCue]) -> (r: String)
    ensures
        r@ == srt_document(cues@),
{
    let mut out: Vec<char> = Vec::new();
    push_cue_blocks(&mut out, cues, ',');
    assert(out@ =~= srt_document(cues@));
    string_of(&out)
}

} // verus!
