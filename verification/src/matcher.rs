//! Matching a line against a literal pattern: where the pattern stands in
//! the line, and the rendering of a line that holds it.

use crate::casefold::{fold_chars, fold_seq};
use crate::text::{chars_of, string_of};
use vstd::prelude::*;

verus! {

/// A half-open range `[start, end)` of character positions in a line.
#[derive(Clone, Copy, Debug, PartialEq, Eq, Structural)]
pub struct Span {
    pub start: usize,
    pub end: usize,
}

/// The mathematical counterpart of a [`Span`].
pub struct Extent {
    pub start: int,
    pub end: int,
}

impl View for Span {
    type V = Extent;

    open spec fn view(&self) -> Extent {
        Extent { start: self.start as int, end: self.end as int }
    }
}

/// The extents that a sequence of spans stands for.
pub open spec fn extents(spans: Seq<Span>) -> Seq<Extent> {
    spans.map_values(|s: Span| s@)
}

/// `needle` stands in `hay` at position `at`.
pub open spec fn occurs_at(hay: Seq<char>, needle: Seq<char>, at: int) -> bool {
    &&& 0 <= at
    &&& at + needle.len() <= hay.len()
    &&& forall|k: int| 0 <= k < needle.len() ==> hay[at + k] == #[trigger] needle[k]
}

/// `needle` stands somewhere in `hay`.
pub open spec fn contains(hay: Seq<char>, needle: Seq<char>) -> bool {
    exists|at: int| occurs_at(hay, needle, at)
}

/// The occurrences of a non-empty `needle` in `hay` at or after `from`, taken
/// from left to right, each one starting where the one before it has ended
/// or later. For an empty `needle` there are none.
pub open spec fn spans_from(hay: Seq<char>, needle: Seq<char>, from: int) -> Seq<Extent>
    decreases hay.len() - from,
{
    if needle.len() == 0 || from < 0 || from + needle.len() > hay.len() {
        Seq::empty()
    } else if occurs_at(hay, needle, from) {
        seq![Extent { start: from, end: from + needle.len() }] + spans_from(
            hay,
            needle,
            from + needle.len(),
        )
    } else {
        spans_from(hay, needle, from + 1)
    }
}

/// All non-overlapping occurrences of `needle` in `hay`, leftmost first.
pub open spec fn all_spans(hay: Seq<char>, needle: Seq<char>) -> Seq<Extent> {
    spans_from(hay, needle, 0)
}

/// The extents lie between `from` and `limit`, none is empty, and each starts
/// where the one before it has ended or later.
pub open spec fn spans_in_order(spans: Seq<Extent>, from: int, limit: int) -> bool {
    &&& forall|i: int|
        0 <= i < spans.len() ==> from <= (#[trigger] spans[i]).start < spans[i].end <= limit
    &&& forall|i: int, j: int|
        0 <= i < j < spans.len() ==> (#[trigger] spans[i]).end <= (#[trigger] spans[j]).start
}

/// Every extent of `spans` is an occurrence of `needle` in `hay`.
pub open spec fn spans_are_occurrences(hay: Seq<char>, needle: Seq<char>, spans: Seq<Extent>) -> bool {
    forall|i: int|
        0 <= i < spans.len() ==> occurs_at(hay, needle, (#[trigger] spans[i]).start)
            && spans[i].end == spans[i].start + needle.len()
}

/// Position `at` lies inside one of the extents.
pub open spec fn covered(spans: Seq<Extent>, at: int) -> bool {
    exists|i: int| 0 <= i < spans.len() && (#[trigger] spans[i]).start <= at < spans[i].end
}

/// What `spans_from` returns is made of occurrences of `needle`, in order and
/// without overlap, all of them at or after `from`.
pub proof fn lemma_spans_from_sound(hay: Seq<char>, needle: Seq<char>, from: int)
    requires
        0 <= from,
    ensures
        spans_in_order(spans_from(hay, needle, from), from, hay.len() as int),
        spans_are_occurrences(hay, needle, spans_from(hay, needle, from)),
    decreases hay.len() - from,
{
    if needle.len() == 0 || from + needle.len() > hay.len() {
    } else if occurs_at(hay, needle, from) {
        let next = from + needle.len();
        lemma_spans_from_sound(hay, needle, next);
        let head = Extent { start: from, end: next };
        let rest = spans_from(hay, needle, next);
        let spans = spans_from(hay, needle, from);
        assert(spans == seq![head] + rest);
        assert forall|i: int| 0 <= i < spans.len() implies from <= (#[trigger] spans[i]).start
            < spans[i].end <= hay.len() && occurs_at(hay, needle, spans[i].start) && spans[i].end
            == spans[i].start + needle.len() by {
            if i > 0 {
                assert(spans[i] == rest[i - 1]);
            }
        }
        assert forall|i: int, j: int| 0 <= i < j < spans.len() implies (#[trigger] spans[i]).end
            <= (#[trigger] spans[j]).start by {
            assert(spans[j] == rest[j - 1]);
            if i > 0 {
                assert(spans[i] == rest[i - 1]);
            }
        }
    } else {
        lemma_spans_from_sound(hay, needle, from + 1);
    }
}

/// No occurrence is passed over: wherever a non-empty `needle` stands at or
/// after `from`, that position lies inside one of the extents of `spans_from`.
pub proof fn lemma_spans_from_cover(hay: Seq<char>, needle: Seq<char>, from: int, at: int)
    requires
        needle.len() > 0,
        0 <= from <= at,
        occurs_at(hay, needle, at),
    ensures
        covered(spans_from(hay, needle, from), at),
    decreases hay.len() - from,
{
    let spans = spans_from(hay, needle, from);
    if occurs_at(hay, needle, from) {
        let next = from + needle.len();
        let rest = spans_from(hay, needle, next);
        assert(spans == seq![Extent { start: from, end: next }] + rest);
        if at < next {
            assert(spans[0].start <= at < spans[0].end);
        } else {
            lemma_spans_from_cover(hay, needle, next, at);
            let i = choose|i: int| 0 <= i < rest.len() && (#[trigger] rest[i]).start <= at < rest[i].end;
            assert(spans[i + 1] == rest[i]);
        }
    } else {
        lemma_spans_from_cover(hay, needle, from + 1, at);
    }
}

/// `spans_from` is the only choice of occurrences that is in order, free of
/// overlap and passes over no occurrence at or after `from`.
pub proof fn lemma_spans_from_unique(
    hay: Seq<char>,
    needle: Seq<char>,
    from: int,
    spans: Seq<Extent>,
)
    requires
        needle.len() > 0,
        0 <= from,
        spans_in_order(spans, from, hay.len() as int),
        spans_are_occurrences(hay, needle, spans),
        forall|at: int| from <= at && occurs_at(hay, needle, at) ==> covered(spans, at),
    ensures
        spans == spans_from(hay, needle, from),
    decreases hay.len() - from,
{
    if from + needle.len() > hay.len() {
        if spans.len() > 0 {
            assert(occurs_at(hay, needle, spans[0].start));
        }
        assert(spans =~= Seq::empty());
    } else if occurs_at(hay, needle, from) {
        let next = from + needle.len();
        assert(covered(spans, from));
        let i = choose|i: int| 0 <= i < spans.len() && (#[trigger] spans[i]).start <= from < spans[i].end;
        if i > 0 {
            assert(spans[0].end <= spans[i].start);
        }
        assert(spans[0] == Extent { start: from, end: next });
        let rest = spans.drop_first();
        assert forall|k: int| 0 <= k < rest.len() implies next <= (#[trigger] rest[k]).start
            < rest[k].end <= hay.len() && occurs_at(hay, needle, rest[k].start) && rest[k].end
            == rest[k].start + needle.len() by {
            assert(rest[k] == spans[k + 1]);
            assert(spans[0].end <= spans[k + 1].start);
        }
        assert forall|k: int, l: int| 0 <= k < l < rest.len() implies (#[trigger] rest[k]).end
            <= (#[trigger] rest[l]).start by {
            assert(rest[k] == spans[k + 1]);
            assert(rest[l] == spans[l + 1]);
        }
        assert forall|at: int| next <= at && occurs_at(hay, needle, at) implies covered(
            rest,
            at,
        ) by {
            assert(covered(spans, at));
            let j = choose|j: int| 0 <= j < spans.len() && (#[trigger] spans[j]).start <= at < spans[j].end;
            assert(rest[j - 1] == spans[j]);
        }
        lemma_spans_from_unique(hay, needle, next, rest);
        assert(spans =~= seq![spans[0]] + rest);
    } else {
        assert forall|k: int| 0 <= k < spans.len() implies from + 1 <= (#[trigger] spans[k]).start by {
            assert(occurs_at(hay, needle, spans[k].start));
        }
        lemma_spans_from_unique(hay, needle, from + 1, spans);
    }
}

/// Tells whether `needle` stands in `hay` at position `at`.
pub fn occurs_here(hay: &Vec<char>, needle: &Vec<char>, at: usize) -> (found: bool)
    ensures
        found == occurs_at(hay@, needle@, at as int),
{
    if at > hay.len() || needle.len() > hay.len() - at {
        return false;
    }
    let mut k: usize = 0;
    while k < needle.len()
        invariant
            k <= needle.len(),
            at + needle.len() <= hay.len(),
            forall|j: int| 0 <= j < k ==> hay@[at + j] == #[trigger] needle@[j],
        decreases needle.len() - k,
    {
        if hay[at + k] != needle[k] {
            return false;
        }
        k += 1;
    }
    true
}

/// Finds every non-overlapping occurrence of `needle` in `hay`, scanning from
/// the left and resuming after each occurrence found.
pub fn find_spans(hay: &Vec<char>, needle: &Vec<char>) -> (spans: Vec<Span>)
    requires
        needle@.len() > 0,
    ensures
        extents(spans@) == all_spans(hay@, needle@),
{
    let mut spans: Vec<Span> = Vec::new();
    let n = needle.len();
    if hay.len() < n {
        return spans;
    }
    let last = hay.len() - n;
    let mut i: usize = 0;
    while i <= last
        invariant
            n == needle.len(),
            n > 0,
            last + n == hay.len(),
            i <= hay.len(),
            extents(spans@) + spans_from(hay@, needle@, i as int) == all_spans(hay@, needle@),
        decreases hay.len() - i,
    {
        if occurs_here(hay, needle, i) {
            let ghost before = extents(spans@);
            spans.push(Span { start: i, end: i + n });
            assert(extents(spans@) == before.push(Extent { start: i as int, end: i + n }));
            i = i + n;
        } else {
            i = i + 1;
        }
    }
    spans
}

/// What a rendered line is: the text of the line as it was read, and the
/// extents in it that are emphasized.
pub struct Rendering {
    pub text: Seq<char>,
    pub spans: Seq<Extent>,
}

/// A line in which the pattern was found, with the place of every occurrence.
/// The text keeps the casing of the line; at least one extent is marked.
#[derive(Debug, PartialEq, Eq)]
pub struct RenderedLine {
    text: Vec<char>,
    spans: Vec<Span>,
}

impl View for RenderedLine {
    type V = Rendering;

    closed spec fn view(&self) -> Rendering {
        Rendering { text: self.text@, spans: extents(self.spans@) }
    }
}

impl RenderedLine {
    #[verifier::type_invariant]
    spec fn well_formed(&self) -> bool {
        &&& self.spans@.len() > 0
        &&& spans_in_order(extents(self.spans@), 0, self.text@.len() as int)
    }

    /// The characters of the line, unchanged.
    pub fn chars(&self) -> (chars: &Vec<char>)
        ensures
            chars@ == self@.text,
    {
        &self.text
    }

    /// The line as text, unchanged.
    pub fn text(&self) -> (text: String)
        ensures
            text@ == self@.text,
    {
        string_of(&self.text)
    }

    /// The emphasized extents: there is at least one, each lies inside the
    /// line and is not empty, and they come in order without overlap.
    pub fn spans(&self) -> (spans: &Vec<Span>)
        ensures
            extents(spans@) == self@.spans,
            spans@.len() > 0,
            spans_in_order(self@.spans, 0, self@.text.len() as int),
    {
        proof {
            use_type_invariant(self);
        }
        &self.spans
    }
}

/// The extents that are emphasized in `line` for `pattern`: its occurrences
/// in the line as written or, when case is ignored, the occurrences of the
/// folded pattern in the folded line.
pub open spec fn match_spans(line: Seq<char>, pattern: Seq<char>, case_insensitive: bool) -> Seq<
    Extent,
> {
    if case_insensitive {
        all_spans(fold_seq(line), fold_seq(pattern))
    } else {
        all_spans(line, pattern)
    }
}

/// The rendering of `line` for `pattern`, or `None` where the line holds no
/// occurrence.
pub open spec fn rendering_of(line: Seq<char>, pattern: Seq<char>, case_insensitive: bool) -> Option<
    Rendering,
> {
    let spans = match_spans(line, pattern, case_insensitive);
    if spans.len() > 0 {
        Some(Rendering { text: line, spans })
    } else {
        None
    }
}

/// The texts in which a line and a pattern are compared: folded where case
/// is ignored, as written where it is not.
pub open spec fn compared(text: Seq<char>, case_insensitive: bool) -> Seq<char> {
    if case_insensitive {
        fold_seq(text)
    } else {
        text
    }
}

/// A line is rendered if and only if it holds the pattern; where case is
/// ignored, if and only if the folded line holds the folded pattern.
pub proof fn lemma_rendered_iff_contained(
    line: Seq<char>,
    pattern: Seq<char>,
    case_insensitive: bool,
)
    requires
        pattern.len() > 0,
    ensures
        rendering_of(line, pattern, case_insensitive) is Some <==> contains(
            compared(line, case_insensitive),
            compared(pattern, case_insensitive),
        ),
{
    let hay = compared(line, case_insensitive);
    let needle = compared(pattern, case_insensitive);
    let spans = match_spans(line, pattern, case_insensitive);
    assert(spans == all_spans(hay, needle));
    lemma_spans_from_sound(hay, needle, 0);
    if spans.len() > 0 {
        assert(occurs_at(hay, needle, spans[0].start));
    }
    if contains(hay, needle) {
        let at = choose|at: int| occurs_at(hay, needle, at);
        lemma_spans_from_cover(hay, needle, 0, at);
    }
}

/// A rendering holds the line as it was given, casing included. Its extents
/// are not empty, lie inside the line and come in order without overlap.
/// Each of them is an occurrence of the pattern, and no occurrence is passed
/// over: wherever the pattern stands in the line, that position is
/// emphasized. Where case is ignored, this holds of the folded pattern in
/// the folded line.
pub proof fn lemma_rendering_marks_every_occurrence(
    line: Seq<char>,
    pattern: Seq<char>,
    case_insensitive: bool,
)
    requires
        pattern.len() > 0,
    ensures
        rendering_of(line, pattern, case_insensitive) matches Some(r) ==> {
            &&& r.text == line
            &&& r.spans.len() > 0
            &&& spans_in_order(r.spans, 0, line.len() as int)
            &&& spans_are_occurrences(
                compared(line, case_insensitive),
                compared(pattern, case_insensitive),
                r.spans,
            )
            &&& forall|at: int|
                occurs_at(
                    compared(line, case_insensitive),
                    compared(pattern, case_insensitive),
                    at,
                ) ==> covered(r.spans, at)
        },
{
    let hay = compared(line, case_insensitive);
    let needle = compared(pattern, case_insensitive);
    assert(match_spans(line, pattern, case_insensitive) == all_spans(hay, needle));
    lemma_spans_from_sound(hay, needle, 0);
    assert forall|at: int| occurs_at(hay, needle, at) implies covered(
        all_spans(hay, needle),
        at,
    ) by {
        lemma_spans_from_cover(hay, needle, 0, at);
    }
}

/// Where case is not ignored, the text of every emphasized extent is the
/// pattern itself.
pub proof fn lemma_emphasized_text_is_the_pattern(line: Seq<char>, pattern: Seq<char>, i: int)
    requires
        pattern.len() > 0,
        rendering_of(line, pattern, false) is Some,
        0 <= i < rendering_of(line, pattern, false)->0.spans.len(),
    ensures
        ({
            let r = rendering_of(line, pattern, false)->0;
            line.subrange(r.spans[i].start, r.spans[i].end) == pattern
        }),
{
    let r = rendering_of(line, pattern, false)->0;
    lemma_spans_from_sound(line, pattern, 0);
    assert(occurs_at(line, pattern, r.spans[i].start));
    assert(line.subrange(r.spans[i].start, r.spans[i].end) =~= pattern);
}

/// Where case is ignored, only the folded pattern counts: two patterns that
/// fold to the same text give the same rendering of every line, and the
/// rendering keeps the casing of the line whatever the casing of the
/// pattern.
pub proof fn lemma_pattern_casing_is_irrelevant(
    line: Seq<char>,
    first: Seq<char>,
    second: Seq<char>,
)
    requires
        fold_seq(first) == fold_seq(second),
    ensures
        rendering_of(line, first, true) == rendering_of(line, second, true),
        rendering_of(line, first, true) matches Some(r) ==> r.text == line,
{
}

/// Decides whether `line` holds `pattern` and, if it does, marks every
/// non-overlapping occurrence, leftmost first. The pattern must not be empty.
pub fn match_line(line: &str, pattern: &str, case_insensitive: bool) -> (rendered: Option<
    RenderedLine,
>)
    requires
        pattern@.len() > 0,
    ensures
        match rendered {
            Some(r) => rendering_of(line@, pattern@, case_insensitive) == Some(r@),
            None => rendering_of(line@, pattern@, case_insensitive) is None,
        },
{
    let text = chars_of(line);
    let needle = chars_of(pattern);
    let spans = if case_insensitive {
        let folded_text = fold_chars(&text);
        let folded_needle = fold_chars(&needle);
        proof {
            lemma_spans_from_sound(folded_text@, folded_needle@, 0);
        }
        find_spans(&folded_text, &folded_needle)
    } else {
        proof {
            lemma_spans_from_sound(text@, needle@, 0);
        }
        find_spans(&text, &needle)
    };
    if spans.len() == 0 {
        None
    } else {
        Some(RenderedLine { text, spans })
    }
}

} // verus!
