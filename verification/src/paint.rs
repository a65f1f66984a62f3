//! Painting: a rendered line as text for a terminal, with each occurrence
//! emphasized by `colored`.

use crate::matcher::{contains, extents, spans_in_order, Extent, RenderedLine, Rendering};
use crate::text::{push_range, string_of_range, texts};
use colored::Colorize;
use vstd::prelude::*;
use vstd::string::StringExecFns;

verus! {

/// The escape character, with which every terminal code begins.
pub open spec fn escape() -> char {
    '\u{1b}'
}

/// The code that ends an emphasis.
pub open spec fn reset_code() -> Seq<char> {
    seq!['\u{1b}', '[', '0', 'm']
}

/// The code that begins the emphasis of a match: bold, bright red.
pub open spec fn match_code() -> Seq<char> {
    seq!['\u{1b}', '[', '1', ';', '9', '1', 'm']
}

/// The code that begins the emphasis of a path: bright magenta.
pub open spec fn path_code() -> Seq<char> {
    seq!['\u{1b}', '[', '9', '5', 'm']
}

/// The code that begins the emphasis of the separator: bright cyan.
pub open spec fn separator_code() -> Seq<char> {
    seq!['\u{1b}', '[', '9', '6', 'm']
}

/// `out` is one of the forms in which `text` comes back from painting with
/// `code`: as it is, where colors are switched off; between `code` and the
/// reset code, where they are on; or followed by the reset code alone, where
/// the switch changed while the text was being formatted.
pub open spec fn is_painting(out: Seq<char>, text: Seq<char>, code: Seq<char>) -> bool {
    ||| out == text
    ||| out == code + text + reset_code()
    ||| out == text + reset_code()
}

/// What is known of `out` when it is `text` painted with `code`: one of the
/// three forms, unless `text` itself holds a reset code.
pub open spec fn paints(out: Seq<char>, text: Seq<char>, code: Seq<char>) -> bool {
    !contains(text, reset_code()) ==> is_painting(out, text, code)
}

/// Calls `bright_red`, `bold` and `to_string` of `colored` on `text`. Whether
/// the text is painted depends on the environment and on `colored`'s override,
/// which `colored` reads several times while it formats: so the result is
/// `text` itself, or `text` between the bold bright red code and the reset
/// code, or `text` followed by the reset code. Where `text` holds a reset code
/// of its own, `colored` changes it and nothing is claimed.
#[verifier::external_body]
pub(crate) fn paint_match(text: &str) -> (out: String)
    ensures
        paints(out@, text@, match_code()),
{
    text.bright_red().bold().to_string()
}

/// Calls `bright_magenta` and `to_string` of `colored` on `text`; the result
/// has one of the three forms of `is_painting` with the bright magenta code,
/// unless `text` holds a reset code.
#[verifier::external_body]
pub(crate) fn paint_path(text: &str) -> (out: String)
    ensures
        paints(out@, text@, path_code()),
{
    text.bright_magenta().to_string()
}

/// Calls `bright_cyan` and `to_string` of `colored` on `text`; the result has
/// one of the three forms of `is_painting` with the bright cyan code, unless
/// `text` holds a reset code.
#[verifier::external_body]
pub(crate) fn paint_separator(text: &str) -> (out: String)
    ensures
        paints(out@, text@, separator_code()),
{
    text.bright_cyan().to_string()
}

/// Where the plain text before the extent of index `k` begins: at the end of
/// the extent before it, or at the start of the line.
pub open spec fn gap_start(spans: Seq<Extent>, k: int) -> int {
    if k <= 0 {
        0
    } else {
        spans[k - 1].end
    }
}

/// The piece that stands for the extent of index `k`: the one given, or the
/// text of the extent where `pieces` is too short to give one.
pub open spec fn piece_at(text: Seq<char>, spans: Seq<Extent>, pieces: Seq<Seq<char>>, k: int) -> Seq<
    char,
> {
    if k < pieces.len() {
        pieces[k]
    } else {
        text.subrange(spans[k].start, spans[k].end)
    }
}

/// The line from the plain text before the extent of index `k` to its end,
/// each extent replaced by its piece.
pub open spec fn woven_from(
    text: Seq<char>,
    spans: Seq<Extent>,
    pieces: Seq<Seq<char>>,
    k: nat,
) -> Seq<char>
    decreases spans.len() - k,
{
    if k >= spans.len() {
        text.subrange(gap_start(spans, spans.len() as int), text.len() as int)
    } else {
        text.subrange(gap_start(spans, k as int), spans[k as int].start) + piece_at(
            text,
            spans,
            pieces,
            k as int,
        ) + woven_from(text, spans, pieces, k + 1)
    }
}

/// The whole line with each extent replaced by its piece.
pub open spec fn woven(text: Seq<char>, spans: Seq<Extent>, pieces: Seq<Seq<char>>) -> Seq<char> {
    woven_from(text, spans, pieces, 0)
}

/// Puts a line together from its plain parts and one piece for each
/// emphasized extent, in order. An extent for which `pieces` has no entry
/// keeps its plain text.
pub fn weave(line: &RenderedLine, pieces: &Vec<String>) -> (out: String)
    ensures
        out@ == woven(line@.text, line@.spans, texts(pieces@)),
{
    let chars = line.chars();
    let spans = line.spans();
    let ghost text = line@.text;
    let ghost exts = line@.spans;
    let ghost given = texts(pieces@);
    let mut out = String::new();
    let mut at: usize = 0;
    let mut k: usize = 0;
    while k < spans.len()
        invariant
            k <= spans.len(),
            chars@ == text,
            extents(spans@) == exts,
            given == texts(pieces@),
            spans_in_order(exts, 0, text.len() as int),
            at == gap_start(exts, k as int),
            at <= text.len(),
            out@ + woven_from(text, exts, given, k as nat) == woven(text, exts, given),
        decreases spans.len() - k,
    {
        let span = spans[k];
        let ghost before = out@;
        let ghost gap = text.subrange(at as int, span.start as int);
        let ghost piece = piece_at(text, exts, given, k as int);
        let ghost rest = woven_from(text, exts, given, (k + 1) as nat);
        assert(exts[k as int] == span@);
        assert(k > 0 ==> exts[k - 1].end <= exts[k as int].start);
        push_range(&mut out, chars, at, span.start);
        if k < pieces.len() {
            assert(given[k as int] == pieces@[k as int]@);
            out.append(pieces[k].as_str());
        } else {
            push_range(&mut out, chars, span.start, span.end);
        }
        assert(out@ + rest == before + (gap + piece + rest)) by {
            assert(out@ == before + gap + piece);
            assert(before + gap + piece + rest =~= before + (gap + piece + rest));
        }
        at = span.end;
        k += 1;
    }
    push_range(&mut out, chars, at, chars.len());
    out
}

/// `out` is a painting of the rendered line `r`: the line with each
/// emphasized extent replaced by a piece that is that extent's text painted
/// as a match.
pub open spec fn is_painted_line(out: Seq<char>, r: Rendering) -> bool {
    exists|pieces: Seq<Seq<char>>|
        {
            &&& pieces.len() == r.spans.len()
            &&& forall|i: int|
                0 <= i < pieces.len() ==> paints(
                    #[trigger] pieces[i],
                    r.text.subrange(r.spans[i].start, r.spans[i].end),
                    match_code(),
                )
            &&& out == woven(r.text, r.spans, pieces)
        }
}

/// Paints each emphasized extent of `line` as a match and puts the line
/// together again. Which form each painted piece takes is decided by
/// `colored` at each call.
pub fn paint_line(line: &RenderedLine) -> (out: String)
    ensures
        is_painted_line(out@, line@),
{
    let chars = line.chars();
    let spans = line.spans();
    let ghost text = line@.text;
    let ghost exts = line@.spans;
    let mut pieces: Vec<String> = Vec::new();
    let mut k: usize = 0;
    while k < spans.len()
        invariant
            k <= spans.len(),
            chars@ == text,
            extents(spans@) == exts,
            spans_in_order(exts, 0, text.len() as int),
            pieces@.len() == k,
            forall|i: int|
                0 <= i < k ==> paints(
                    #[trigger] texts(pieces@)[i],
                    text.subrange(exts[i].start, exts[i].end),
                    match_code(),
                ),
        decreases spans.len() - k,
    {
        let span = spans[k];
        assert(exts[k as int] == span@);
        let plain = string_of_range(chars, span.start, span.end);
        let piece = paint_match(plain.as_str());
        let ghost before = texts(pieces@);
        pieces.push(piece);
        assert(texts(pieces@) == before.push(piece@));
        k += 1;
    }
    let out = weave(line, &pieces);
    assert(is_painted_line(out@, line@)) by {
        let given = texts(pieces@);
        assert(given.len() == exts.len());
        assert(out@ == woven(text, exts, given));
    }
    out
}

} // verus!
