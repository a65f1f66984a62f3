//! Stripping: a painted text without its emphasis codes, and the round trip
//! from a line to its painting and back.

use crate::matcher::{
    contains, lemma_rendering_marks_every_occurrence, occurs_at, occurs_here, rendering_of,
    spans_in_order, Extent, Rendering,
};
use crate::paint::{
    escape, gap_start, is_painted_line, is_painting, match_code, paints, path_code, piece_at,
    reset_code, separator_code, woven, woven_from,
};
use crate::text::chars_of;
use vstd::prelude::*;

verus! {

/// `code` is one of the four emphasis codes.
pub open spec fn is_code(code: Seq<char>) -> bool {
    ||| code == match_code()
    ||| code == path_code()
    ||| code == separator_code()
    ||| code == reset_code()
}

/// The length of the code that stands in `s` at position `at`, or 0 where
/// none of the four codes stands there.
pub open spec fn code_len_at(s: Seq<char>, at: int) -> int {
    if occurs_at(s, match_code(), at) {
        match_code().len() as int
    } else if occurs_at(s, path_code(), at) {
        path_code().len() as int
    } else if occurs_at(s, separator_code(), at) {
        separator_code().len() as int
    } else if occurs_at(s, reset_code(), at) {
        reset_code().len() as int
    } else {
        0
    }
}

/// `s` from position `from` on, without the codes that stand in it.
pub open spec fn stripped_from(s: Seq<char>, from: int) -> Seq<char>
    decreases s.len() - from,
{
    if from < 0 || from >= s.len() {
        Seq::empty()
    } else if code_len_at(s, from) > 0 {
        stripped_from(s, from + code_len_at(s, from))
    } else {
        seq![s[from]] + stripped_from(s, from + 1)
    }
}

/// `s` without the emphasis codes: every occurrence of the match, path,
/// separator and reset codes is left out, read from left to right.
pub open spec fn stripped(s: Seq<char>) -> Seq<char> {
    stripped_from(s, 0)
}

/// The text holds no escape character.
pub open spec fn escape_free(text: Seq<char>) -> bool {
    forall|i: int| 0 <= i < text.len() ==> #[trigger] text[i] != escape()
}

/// The text holds none of the four emphasis codes.
pub open spec fn code_free(text: Seq<char>) -> bool {
    forall|at: int| #[trigger] code_len_at(text, at) == 0
}

fn match_code_chars() -> (code: Vec<char>)
    ensures
        code@ == match_code(),
{
    let code = vec!['\u{1b}', '[', '1', ';', '9', '1', 'm'];
    assert(code@ =~= match_code());
    code
}

fn path_code_chars() -> (code: Vec<char>)
    ensures
        code@ == path_code(),
{
    let code = vec!['\u{1b}', '[', '9', '5', 'm'];
    assert(code@ =~= path_code());
    code
}

fn separator_code_chars() -> (code: Vec<char>)
    ensures
        code@ == separator_code(),
{
    let code = vec!['\u{1b}', '[', '9', '6', 'm'];
    assert(code@ =~= separator_code());
    code
}

fn reset_code_chars() -> (code: Vec<char>)
    ensures
        code@ == reset_code(),
{
    let code = vec!['\u{1b}', '[', '0', 'm'];
    assert(code@ =~= reset_code());
    code
}

/// Removes the emphasis codes from a text.
pub fn strip_codes(s: &str) -> (plain: String)
    ensures
        plain@ == stripped(s@),
{
    let chars = chars_of(s);
    let match_code = match_code_chars();
    let path_code = path_code_chars();
    let separator_code = separator_code_chars();
    let reset_code = reset_code_chars();
    let mut plain = String::new();
    let mut i: usize = 0;
    while i < chars.len()
        invariant
            i <= chars.len(),
            chars@ == s@,
            match_code@ == crate::paint::match_code(),
            path_code@ == crate::paint::path_code(),
            separator_code@ == crate::paint::separator_code(),
            reset_code@ == crate::paint::reset_code(),
            plain@ + stripped_from(s@, i as int) == stripped(s@),
        decreases chars.len() - i,
    {
        if occurs_here(&chars, &match_code, i) {
            i = i + match_code.len();
        } else if occurs_here(&chars, &path_code, i) {
            i = i + path_code.len();
        } else if occurs_here(&chars, &separator_code, i) {
            i = i + separator_code.len();
        } else if occurs_here(&chars, &reset_code, i) {
            i = i + reset_code.len();
        } else {
            let ghost before = plain@;
            plain.push(chars[i]);
            assert(plain@ + stripped_from(s@, i + 1) == before + (seq![s@[i as int]]
                + stripped_from(s@, i + 1)));
            i = i + 1;
        }
    }
    plain
}

/// No code begins in the first `upto` characters of `text` when `behind`
/// follows them.
spec fn clear_before(text: Seq<char>, upto: int, behind: Seq<char>) -> bool {
    forall|at: int| 0 <= at < upto ==> #[trigger] code_len_at(text.take(upto) + behind, at) == 0
}

proof fn lemma_occurs_shift(a: Seq<char>, b: Seq<char>, code: Seq<char>, at: int)
    requires
        0 <= at,
    ensures
        occurs_at(a + b, code, a.len() + at) == occurs_at(b, code, at),
{
    if occurs_at(b, code, at) {
        assert forall|k: int| 0 <= k < code.len() implies (a + b)[a.len() + at + k]
            == #[trigger] code[k] by {
            assert((a + b)[a.len() + at + k] == b[at + k]);
        }
    }
    if occurs_at(a + b, code, a.len() + at) {
        assert forall|k: int| 0 <= k < code.len() implies b[at + k] == #[trigger] code[k] by {
            assert((a + b)[a.len() + at + k] == b[at + k]);
        }
    }
}

proof fn lemma_code_len_shift(a: Seq<char>, b: Seq<char>, at: int)
    requires
        0 <= at,
    ensures
        code_len_at(a + b, a.len() + at) == code_len_at(b, at),
{
    lemma_occurs_shift(a, b, match_code(), at);
    lemma_occurs_shift(a, b, path_code(), at);
    lemma_occurs_shift(a, b, separator_code(), at);
    lemma_occurs_shift(a, b, reset_code(), at);
}

proof fn lemma_stripped_shift(a: Seq<char>, b: Seq<char>, at: int)
    requires
        0 <= at,
    ensures
        stripped_from(a + b, a.len() + at) == stripped_from(b, at),
    decreases b.len() - at,
{
    lemma_code_len_shift(a, b, at);
    if at < b.len() {
        let n = code_len_at(b, at);
        if n > 0 {
            lemma_stripped_shift(a, b, at + n);
        } else {
            lemma_stripped_shift(a, b, at + 1);
            assert((a + b)[a.len() + at] == b[at]);
        }
    }
}

/// A code begins with the escape character and holds no other.
proof fn lemma_code_shape(code: Seq<char>)
    requires
        is_code(code),
    ensures
        code.len() >= 4,
        code[0] == escape(),
        forall|k: int| 1 <= k < code.len() ==> #[trigger] code[k] != escape(),
{
}

/// A code that stands in a text begins with the escape character there.
proof fn lemma_code_begins_with_escape(s: Seq<char>, at: int)
    requires
        code_len_at(s, at) > 0,
    ensures
        0 <= at < s.len(),
        s[at] == escape(),
{
    if occurs_at(s, match_code(), at) {
        assert(s[at + 0] == match_code()[0]);
    } else if occurs_at(s, path_code(), at) {
        assert(s[at + 0] == path_code()[0]);
    } else if occurs_at(s, separator_code(), at) {
        assert(s[at + 0] == separator_code()[0]);
    } else {
        assert(s[at + 0] == reset_code()[0]);
    }
}

/// Stripping keeps a text without escape characters as it is and goes on
/// behind it.
pub proof fn lemma_stripped_plain(a: Seq<char>, b: Seq<char>, from: int)
    requires
        escape_free(a),
        0 <= from <= a.len(),
    ensures
        stripped_from(a + b, from) == a.subrange(from, a.len() as int) + stripped(b),
    decreases a.len() - from,
{
    if from == a.len() {
        lemma_stripped_shift(a, b, 0);
        assert(a.subrange(from, a.len() as int) + stripped(b) =~= stripped(b));
    } else {
        assert((a + b)[from] == a[from]);
        if code_len_at(a + b, from) > 0 {
            lemma_code_begins_with_escape(a + b, from);
        }
        lemma_stripped_plain(a, b, from + 1);
        assert(a.subrange(from, a.len() as int) + stripped(b) =~= seq![a[from]] + (a.subrange(
            from + 1,
            a.len() as int,
        ) + stripped(b)));
    }
}

/// Stripping leaves out a code at the start of a text and goes on behind it.
pub proof fn lemma_stripped_code(code: Seq<char>, b: Seq<char>)
    requires
        is_code(code),
    ensures
        stripped(code + b) == stripped(b),
{
    let s = code + b;
    assert(occurs_at(s, code, 0)) by {
        assert forall|k: int| 0 <= k < code.len() implies s[0 + k] == #[trigger] code[k] by {}
    }
    assert(code_len_at(s, 0) == code.len()) by {
        if code != match_code() {
            assert(match_code()[2] == '1');
            assert(match_code()[3] == ';');
            assert(s[2] == code[2]);
            assert(s[3] == code[3]);
            assert(!occurs_at(s, match_code(), 0));
        }
        if code != match_code() && code != path_code() {
            assert(path_code()[2] == '9');
            assert(path_code()[3] == '5');
            assert(s[2] == code[2]);
            assert(s[3] == code[3]);
            assert(!occurs_at(s, path_code(), 0));
        }
        if code == reset_code() {
            assert(separator_code()[2] == '9');
            assert(s[2] == code[2]);
            assert(!occurs_at(s, separator_code(), 0));
        }
    }
    lemma_stripped_shift(code, b, 0);
}

/// Stripping turns a painted piece back into its text, whatever form the
/// painting took, and goes on behind it, provided that the text holds no
/// escape character.
pub proof fn lemma_stripped_painting(piece: Seq<char>, text: Seq<char>, code: Seq<char>, b: Seq<char>)
    requires
        is_code(code),
        escape_free(text),
        is_painting(piece, text, code),
    ensures
        stripped(piece + b) == text + stripped(b),
{
    assert(text.subrange(0, text.len() as int) == text);
    if piece == text {
        lemma_stripped_plain(text, b, 0);
    } else if piece == text + reset_code() {
        assert(piece + b =~= text + (reset_code() + b));
        lemma_stripped_plain(text, reset_code() + b, 0);
        lemma_stripped_code(reset_code(), b);
    } else {
        assert(piece + b =~= code + (text + (reset_code() + b)));
        lemma_stripped_code(code, text + (reset_code() + b));
        lemma_stripped_plain(text, reset_code() + b, 0);
        lemma_stripped_code(reset_code(), b);
    }
}

/// A text without escape characters holds none of the codes.
pub proof fn lemma_escape_free_is_code_free(text: Seq<char>)
    requires
        escape_free(text),
    ensures
        code_free(text),
        !contains(text, reset_code()),
{
    assert forall|at: int| #[trigger] code_len_at(text, at) == 0 by {
        if code_len_at(text, at) > 0 {
            lemma_code_begins_with_escape(text, at);
        }
    }
    lemma_code_free_has_no_reset(text);
}

/// A text that holds none of the codes holds no reset code.
pub proof fn lemma_code_free_has_no_reset(text: Seq<char>)
    requires
        code_free(text),
    ensures
        !contains(text, reset_code()),
{
    if contains(text, reset_code()) {
        let at = choose|at: int| occurs_at(text, reset_code(), at);
        assert(code_len_at(text, at) > 0);
    }
}

/// A code that stands in a part of a text stands in the text.
proof fn lemma_occurs_in_part(text: Seq<char>, from: int, to: int, code: Seq<char>, at: int)
    requires
        0 <= from <= to <= text.len(),
        occurs_at(text.subrange(from, to), code, at),
    ensures
        occurs_at(text, code, from + at),
{
    let part = text.subrange(from, to);
    assert forall|k: int| 0 <= k < code.len() implies text[from + at + k] == #[trigger] code[k] by {
        assert(part[at + k] == text[from + at + k]);
    }
}

/// A part of a text that holds none of the codes holds none.
proof fn lemma_part_is_code_free(text: Seq<char>, from: int, to: int)
    requires
        code_free(text),
        0 <= from <= to <= text.len(),
    ensures
        code_free(text.subrange(from, to)),
        !contains(text.subrange(from, to), reset_code()),
{
    let part = text.subrange(from, to);
    assert forall|at: int| #[trigger] code_len_at(part, at) == 0 by {
        if code_len_at(part, at) > 0 {
            assert(code_len_at(text, from + at) == 0);
            if occurs_at(part, match_code(), at) {
                lemma_occurs_in_part(text, from, to, match_code(), at);
            } else if occurs_at(part, path_code(), at) {
                lemma_occurs_in_part(text, from, to, path_code(), at);
            } else if occurs_at(part, separator_code(), at) {
                lemma_occurs_in_part(text, from, to, separator_code(), at);
            } else {
                lemma_occurs_in_part(text, from, to, reset_code(), at);
            }
        }
    }
    lemma_code_free_has_no_reset(part);
}

/// Stripping keeps a stretch of a text as it is and goes on behind it,
/// where no code begins in the stretch.
proof fn lemma_stripped_stretch(text: Seq<char>, from: int, upto: int, behind: Seq<char>)
    requires
        0 <= from <= upto <= text.len(),
        clear_before(text, upto, behind),
    ensures
        stripped(text.subrange(from, upto) + behind) == text.subrange(from, upto) + stripped(behind),
{
    let whole = text.take(upto) + behind;
    lemma_stripped_stretch_from(text, from, upto, behind);
    assert(whole =~= text.take(from) + (text.subrange(from, upto) + behind));
    lemma_stripped_shift(text.take(from), text.subrange(from, upto) + behind, 0);
}

proof fn lemma_stripped_stretch_from(text: Seq<char>, from: int, upto: int, behind: Seq<char>)
    requires
        0 <= from <= upto <= text.len(),
        clear_before(text, upto, behind),
    ensures
        stripped_from(text.take(upto) + behind, from) == text.subrange(from, upto) + stripped(
            behind,
        ),
    decreases upto - from,
{
    let whole = text.take(upto) + behind;
    if from == upto {
        lemma_stripped_shift(text.take(upto), behind, 0);
        assert(text.subrange(from, upto) + stripped(behind) =~= stripped(behind));
    } else {
        assert(code_len_at(whole, from) == 0);
        assert(whole[from] == text[from]);
        lemma_stripped_stretch_from(text, from + 1, upto, behind);
        assert(text.subrange(from, upto) + stripped(behind) =~= seq![text[from]] + (text.subrange(
            from + 1,
            upto,
        ) + stripped(behind)));
    }
}

/// In a text that holds none of the codes, no code begins before its end.
proof fn lemma_clear_before_end(text: Seq<char>, upto: int)
    requires
        code_free(text),
        0 <= upto <= text.len(),
    ensures
        clear_before(text, upto, Seq::empty()),
{
    let whole = text.take(upto) + Seq::<char>::empty();
    assert(whole =~= text.subrange(0, upto));
    lemma_part_is_code_free(text, 0, upto);
}

/// In a text that holds none of the codes, no code begins before a place
/// at which an escape character follows.
proof fn lemma_clear_before_escape(text: Seq<char>, upto: int, behind: Seq<char>)
    requires
        code_free(text),
        0 <= upto <= text.len(),
        behind.len() > 0,
        behind[0] == escape(),
    ensures
        clear_before(text, upto, behind),
{
    let whole = text.take(upto) + behind;
    assert forall|at: int| 0 <= at < upto implies #[trigger] code_len_at(whole, at) == 0 by {
        if code_len_at(whole, at) > 0 {
            let code = if occurs_at(whole, match_code(), at) {
                match_code()
            } else if occurs_at(whole, path_code(), at) {
                path_code()
            } else if occurs_at(whole, separator_code(), at) {
                separator_code()
            } else {
                reset_code()
            };
            assert(is_code(code) && occurs_at(whole, code, at));
            lemma_code_shape(code);
            if at + code.len() <= upto {
                assert forall|k: int| 0 <= k < code.len() implies text[at + k]
                    == #[trigger] code[k] by {
                    assert(whole[at + k] == text[at + k]);
                }
                assert(occurs_at(text, code, at));
                assert(code_len_at(text, at) > 0);
            } else {
                let k = upto - at;
                assert(whole[at + k] == behind[0]);
                assert(whole[at + k] == code[k]);
            }
        }
    }
}

/// Where no code begins before a later place, none begins before an
/// earlier one when the text between the two follows.
proof fn lemma_clear_before_stretch(text: Seq<char>, from: int, upto: int, behind: Seq<char>)
    requires
        0 <= from <= upto <= text.len(),
        clear_before(text, upto, behind),
    ensures
        clear_before(text, from, text.subrange(from, upto) + behind),
{
    assert(text.take(from) + (text.subrange(from, upto) + behind) =~= text.take(upto) + behind);
}

/// A stretch of the text before something that strips to the rest of the
/// text strips, with it, to the text from the start of the stretch on; and
/// no code begins before the stretch.
proof fn lemma_stretch_then(text: Seq<char>, from: int, upto: int, behind: Seq<char>)
    requires
        0 <= from <= upto <= text.len(),
        clear_before(text, upto, behind),
        stripped(behind) == text.subrange(upto, text.len() as int),
    ensures
        stripped(text.subrange(from, upto) + behind) == text.subrange(from, text.len() as int),
        clear_before(text, from, text.subrange(from, upto) + behind),
{
    lemma_stripped_stretch(text, from, upto, behind);
    lemma_clear_before_stretch(text, from, upto, behind);
    assert(text.subrange(from, upto) + text.subrange(upto, text.len() as int) =~= text.subrange(
        from,
        text.len() as int,
    ));
}

/// A code before something strips, with it, to what that strips to; and no
/// code of the text begins before the code.
proof fn lemma_code_then(text: Seq<char>, upto: int, code: Seq<char>, behind: Seq<char>)
    requires
        code_free(text),
        is_code(code),
        0 <= upto <= text.len(),
    ensures
        stripped(code + behind) == stripped(behind),
        clear_before(text, upto, code + behind),
{
    lemma_code_shape(code);
    assert((code + behind)[0] == escape());
    lemma_clear_before_escape(text, upto, code + behind);
    lemma_stripped_code(code, behind);
}

/// A painted piece before something that strips to the rest of the text
/// strips, with it, to the text from the start of the extent on; and no code
/// begins before the extent.
proof fn lemma_piece_then(text: Seq<char>, start: int, end: int, piece: Seq<char>, rest: Seq<char>)
    requires
        code_free(text),
        0 <= start <= end <= text.len(),
        is_painting(piece, text.subrange(start, end), match_code()),
        stripped(rest) == text.subrange(end, text.len() as int),
        clear_before(text, end, rest),
    ensures
        stripped(piece + rest) == text.subrange(start, text.len() as int),
        clear_before(text, start, piece + rest),
{
    let inner = text.subrange(start, end);
    let closed = reset_code() + rest;
    if piece == inner {
        lemma_stretch_then(text, start, end, rest);
    } else {
        lemma_code_then(text, end, reset_code(), rest);
        lemma_stretch_then(text, start, end, closed);
        if piece == inner + reset_code() {
            assert(piece + rest =~= inner + closed);
        } else {
            assert(piece + rest =~= match_code() + (inner + closed));
            lemma_code_then(text, start, match_code(), inner + closed);
        }
    }
}

/// One more extent: stripping turns the plain text before the extent, the
/// painted piece and what follows back into the text, and no code begins
/// before them.
proof fn lemma_stripped_piece(
    text: Seq<char>,
    from: int,
    start: int,
    end: int,
    piece: Seq<char>,
    rest: Seq<char>,
)
    requires
        code_free(text),
        0 <= from <= start <= end <= text.len(),
        is_painting(piece, text.subrange(start, end), match_code()),
        stripped(rest) == text.subrange(end, text.len() as int),
        clear_before(text, end, rest),
    ensures
        stripped(text.subrange(from, start) + piece + rest) == text.subrange(
            from,
            text.len() as int,
        ),
        clear_before(text, from, text.subrange(from, start) + piece + rest),
{
    let gap = text.subrange(from, start);
    lemma_piece_then(text, start, end, piece, rest);
    lemma_stretch_then(text, from, start, piece + rest);
    assert(gap + piece + rest == gap + (piece + rest)) by {
        assert(gap + piece + rest =~= gap + (piece + rest));
    }
}

proof fn lemma_stripped_woven_from(
    text: Seq<char>,
    spans: Seq<Extent>,
    pieces: Seq<Seq<char>>,
    k: nat,
)
    requires
        code_free(text),
        spans_in_order(spans, 0, text.len() as int),
        k <= spans.len(),
        pieces.len() == spans.len(),
        forall|i: int|
            0 <= i < pieces.len() ==> paints(
                #[trigger] pieces[i],
                text.subrange(spans[i].start, spans[i].end),
                match_code(),
            ),
    ensures
        stripped(woven_from(text, spans, pieces, k)) == text.subrange(
            gap_start(spans, k as int),
            text.len() as int,
        ),
        clear_before(text, gap_start(spans, k as int), woven_from(text, spans, pieces, k)),
    decreases spans.len() - k,
{
    let from = gap_start(spans, k as int);
    assert(0 <= from <= text.len()) by {
        if k > 0 {
            assert(spans[k - 1].end <= text.len());
        }
    }
    if k == spans.len() {
        let tail = text.subrange(from, text.len() as int);
        lemma_clear_before_end(text, text.len() as int);
        lemma_stripped_stretch(text, from, text.len() as int, Seq::empty());
        lemma_clear_before_stretch(text, from, text.len() as int, Seq::empty());
        assert(tail + Seq::<char>::empty() =~= tail);
        assert(stripped(Seq::<char>::empty()) =~= Seq::<char>::empty());
    } else {
        let start = spans[k as int].start;
        let end = spans[k as int].end;
        assert(from <= start < end <= text.len()) by {
            if k > 0 {
                assert(spans[k - 1].end <= spans[k as int].start);
            }
        }
        let piece = pieces[k as int];
        let rest = woven_from(text, spans, pieces, k + 1);
        lemma_stripped_woven_from(text, spans, pieces, k + 1);
        lemma_part_is_code_free(text, start, end);
        assert(paints(piece, text.subrange(start, end), match_code()));
        assert(piece_at(text, spans, pieces, k as int) == piece);
        lemma_stripped_piece(text, from, start, end, piece, rest);
    }
}

/// Stripping a painted line gives back the line that was matched, character
/// for character, provided that the line holds none of the four codes.
pub proof fn lemma_stripped_painted_line(out: Seq<char>, r: Rendering)
    requires
        code_free(r.text),
        spans_in_order(r.spans, 0, r.text.len() as int),
        is_painted_line(out, r),
    ensures
        stripped(out) == r.text,
{
    let pieces = choose|pieces: Seq<Seq<char>>|
        {
            &&& pieces.len() == r.spans.len()
            &&& forall|i: int|
                0 <= i < pieces.len() ==> paints(
                    #[trigger] pieces[i],
                    r.text.subrange(r.spans[i].start, r.spans[i].end),
                    match_code(),
                )
            &&& out == woven(r.text, r.spans, pieces)
        };
    lemma_stripped_woven_from(r.text, r.spans, pieces, 0);
    assert(r.text.subrange(0, r.text.len() as int) == r.text);
}

/// Round trip: whatever line was matched against whatever pattern, with or
/// without regard to case, stripping any painting of its rendering gives the
/// line back, provided that the line holds none of the four codes.
pub proof fn lemma_stripped_painting_of_match(
    line: Seq<char>,
    pattern: Seq<char>,
    case_insensitive: bool,
    out: Seq<char>,
)
    requires
        pattern.len() > 0,
        code_free(line),
        rendering_of(line, pattern, case_insensitive) matches Some(r) && is_painted_line(out, r),
    ensures
        stripped(out) == line,
{
    lemma_rendering_marks_every_occurrence(line, pattern, case_insensitive);
    lemma_stripped_painted_line(out, rendering_of(line, pattern, case_insensitive)->0);
}

/// Stripping changes nothing in a text that holds none of the four codes.
pub proof fn lemma_stripped_code_free(text: Seq<char>)
    requires
        code_free(text),
    ensures
        stripped(text) == text,
{
    lemma_clear_before_end(text, text.len() as int);
    lemma_stripped_stretch(text, 0, text.len() as int, Seq::empty());
    assert(text.subrange(0, text.len() as int) + Seq::<char>::empty() =~= text);
    assert(stripped(Seq::<char>::empty()) =~= Seq::<char>::empty());
    assert(text.subrange(0, text.len() as int) == text);
}

proof fn lemma_stripped_len(s: Seq<char>, from: int)
    requires
        0 <= from <= s.len(),
    ensures
        stripped_from(s, from).len() <= s.len() - from,
    decreases s.len() - from,
{
    if from < s.len() {
        let n = code_len_at(s, from);
        if n > 0 {
            lemma_stripped_len(s, from + n);
        } else {
            lemma_stripped_len(s, from + 1);
        }
    }
}

proof fn lemma_stripped_shrinks(s: Seq<char>, from: int, at: int)
    requires
        0 <= from <= at,
        code_len_at(s, at) > 0,
    ensures
        stripped_from(s, from).len() < s.len() - from,
    decreases at - from,
{
    let n = code_len_at(s, from);
    if n > 0 {
        lemma_stripped_len(s, from + n);
    } else {
        lemma_stripped_shrinks(s, from + 1, at);
    }
}

/// Stripping changes nothing in exactly those texts that hold none of the
/// four codes.
pub proof fn lemma_unchanged_iff_code_free(text: Seq<char>)
    ensures
        stripped(text) == text <==> code_free(text),
{
    if code_free(text) {
        lemma_stripped_code_free(text);
    } else {
        let at = choose|at: int| code_len_at(text, at) != 0;
        lemma_stripped_shrinks(text, 0, at);
    }
}

/// The pieces that leave every extent as it is.
pub open spec fn plain_pieces(text: Seq<char>, spans: Seq<Extent>) -> Seq<Seq<char>> {
    Seq::new(spans.len(), |i: int| text.subrange(spans[i].start, spans[i].end))
}

proof fn lemma_woven_plain(text: Seq<char>, spans: Seq<Extent>, k: nat)
    requires
        spans_in_order(spans, 0, text.len() as int),
        k <= spans.len(),
    ensures
        woven_from(text, spans, plain_pieces(text, spans), k) == text.subrange(
            gap_start(spans, k as int),
            text.len() as int,
        ),
    decreases spans.len() - k,
{
    let from = gap_start(spans, k as int);
    if k < spans.len() {
        let start = spans[k as int].start;
        let end = spans[k as int].end;
        assert(0 <= from <= start < end <= text.len()) by {
            if k > 0 {
                assert(spans[k - 1].end <= spans[k as int].start);
            }
        }
        lemma_woven_plain(text, spans, k + 1);
        assert(text.subrange(from, start) + text.subrange(start, end) + text.subrange(
            end,
            text.len() as int,
        ) =~= text.subrange(from, text.len() as int));
    }
}

/// A line is one of the paintings of its rendering: the one that comes out
/// where colors are switched off.
pub proof fn lemma_line_paints_itself(r: Rendering)
    requires
        spans_in_order(r.spans, 0, r.text.len() as int),
    ensures
        is_painted_line(r.text, r),
{
    let pieces = plain_pieces(r.text, r.spans);
    lemma_woven_plain(r.text, r.spans, 0);
    assert(r.text.subrange(0, r.text.len() as int) == r.text);
    assert(pieces.len() == r.spans.len());
    assert forall|i: int| 0 <= i < pieces.len() implies paints(
        #[trigger] pieces[i],
        r.text.subrange(r.spans[i].start, r.spans[i].end),
        match_code(),
    ) by {}
    assert(r.text == woven(r.text, r.spans, pieces));
}

/// The round trip holds of no other line: a line that holds one of the four
/// codes has a painting, the line itself, that stripping does not give
/// back.
pub proof fn lemma_round_trip_needs_code_free(
    line: Seq<char>,
    pattern: Seq<char>,
    case_insensitive: bool,
)
    requires
        pattern.len() > 0,
        !code_free(line),
        rendering_of(line, pattern, case_insensitive) is Some,
    ensures
        is_painted_line(line, rendering_of(line, pattern, case_insensitive)->0),
        stripped(line) != line,
{
    lemma_rendering_marks_every_occurrence(line, pattern, case_insensitive);
    lemma_line_paints_itself(rendering_of(line, pattern, case_insensitive)->0);
    lemma_unchanged_iff_code_free(line);
}

} // verus!
