//! What is written for a visit: the records of its matches, or the line
//! that reports its error.

use crate::matcher::spans_in_order;
use crate::paint::{
    is_painted_line, paint_line, paint_path, paint_separator, paints, path_code, separator_code,
};
use crate::strip::{
    code_free, escape_free, lemma_escape_free_is_code_free, lemma_stripped_painted_line,
    lemma_stripped_painting, stripped,
};
use crate::search::{Found, MatchResult};
use crate::text::texts;
use crate::request::Request;
use crate::traverse::{
    is_failure, start_walk, visit_of, Outcome, ProbeView, SearchError, SkipReason,
    TraversalOutcome, Visit, Visited, Walk,
};
use vstd::prelude::*;
use vstd::string::StringExecFns;

verus! {

/// What stands between the path and the line in the record of a match.
pub open spec fn separator() -> Seq<char> {
    ": "@
}

/// The line that reports an error at `path`.
pub open spec fn error_message(error: SearchError, path: Seq<char>) -> Seq<char> {
    match error {
        SearchError::PathNotFound => "'"@ + path + "' no such file or directory"@,
        SearchError::NotAFile => "no such file "@ + path,
        SearchError::IsADirectory => "'"@ + path + "' is a directory"@,
        SearchError::ReadError(_) => "could not read file `"@ + path + "`"@,
    }
}

/// The line that reports that the entry at `path` was passed over.
pub open spec fn skip_message(reason: SkipReason, path: Seq<char>) -> Seq<char> {
    match reason {
        SkipReason::DepthLimit => "'"@ + path + "' is nested too deeply"@,
    }
}

/// `out` is a record of the match `found`: the path painted as a path, the
/// separator painted as a separator, and the painted line.
pub open spec fn is_match_record(out: Seq<char>, found: Found) -> bool {
    exists|head: Seq<char>, middle: Seq<char>, body: Seq<char>|
        {
            &&& paints(head, found.source_path, path_code())
            &&& paints(middle, separator(), separator_code())
            &&& is_painted_line(body, found.rendered_line)
            &&& out == #[trigger] (head + middle + body)
        }
}

/// `lines` is what is written for the visit `visit`: one record for each
/// match, in order; one line for an error or for an entry passed over;
/// nothing else.
pub open spec fn is_report(lines: Seq<Seq<char>>, visit: Visited) -> bool {
    match visit.outcome {
        Outcome::Matched(found) => {
            &&& lines.len() == found.len()
            &&& forall|i: int| 0 <= i < lines.len() ==> is_match_record(#[trigger] lines[i], found[i])
        },
        Outcome::NoMatch => lines.len() == 0,
        Outcome::Descended => lines.len() == 0,
        Outcome::Skipped(reason) => lines == seq![skip_message(reason, visit.path)],
        Outcome::Errored(error) => lines == seq![error_message(error, visit.path)],
    }
}

/// Writes the line that reports an error at `path`.
pub fn describe_error(error: SearchError, path: &str) -> (message: String)
    ensures
        message@ == error_message(error, path@),
{
    match error {
        SearchError::PathNotFound => {
            let mut message = String::from_str("'");
            message.append(path);
            message.append("' no such file or directory");
            message
        },
        SearchError::NotAFile => {
            let mut message = String::from_str("no such file ");
            message.append(path);
            message
        },
        SearchError::IsADirectory => {
            let mut message = String::from_str("'");
            message.append(path);
            message.append("' is a directory");
            message
        },
        SearchError::ReadError(_) => {
            let mut message = String::from_str("could not read file `");
            message.append(path);
            message.append("`");
            message
        },
    }
}

/// Writes the line that reports that the entry at `path` was passed over.
pub fn describe_skip(reason: SkipReason, path: &str) -> (message: String)
    ensures
        message@ == skip_message(reason, path@),
{
    match reason {
        SkipReason::DepthLimit => {
            let mut message = String::from_str("'");
            message.append(path);
            message.append("' is nested too deeply");
            message
        },
    }
}

/// Writes the record of a match: `<path>: <line>`, with the path, the
/// separator and each occurrence in the line painted.
pub fn format_match(result: &MatchResult) -> (out: String)
    ensures
        is_match_record(out@, result@),
{
    let head = paint_path(result.source_path.as_str());
    let middle = paint_separator(": ");
    let body = paint_line(&result.rendered_line);
    let mut out = String::new();
    out.append(head.as_str());
    out.append(middle.as_str());
    out.append(body.as_str());
    assert(out@ =~= head@ + middle@ + body@);
    out
}

/// Writes what is to be shown for a visit.
pub fn report(visit: &Visit) -> (lines: Vec<String>)
    ensures
        is_report(texts(lines@), visit@),
{
    let mut lines: Vec<String> = Vec::new();
    match &visit.outcome {
        TraversalOutcome::Matched(results) => {
            let mut i: usize = 0;
            while i < results.len()
                invariant
                    i <= results.len(),
                    lines@.len() == i,
                    forall|k: int|
                        0 <= k < i ==> is_match_record(#[trigger] texts(lines@)[k], results@[k]@),
                decreases results.len() - i,
            {
                let line = format_match(&results[i]);
                let ghost before = texts(lines@);
                lines.push(line);
                assert(texts(lines@) == before.push(line@));
                i += 1;
            }
        },
        TraversalOutcome::NoMatch => {},
        TraversalOutcome::Descended => {},
        TraversalOutcome::Skipped(reason) => {
            let line = describe_skip(*reason, visit.path.as_str());
            lines.push(line);
            assert(texts(lines@) =~= seq![line@]);
        },
        TraversalOutcome::Errored(error) => {
            let line = describe_error(*error, visit.path.as_str());
            lines.push(line);
            assert(texts(lines@) =~= seq![line@]);
        },
    }
    lines
}

/// The search of a directory without recursion writes one line, which says
/// that the path is a directory, and no record of a match.
pub proof fn lemma_directory_without_recursion_reports_once(
    request: Request,
    limit: nat,
    children: Seq<Seq<char>>,
    lines: Seq<Seq<char>>,
)
    requires
        !request.recursive,
        visit_of(start_walk(request, limit), ProbeView::Directory(children)) matches Some(visit)
            && is_report(lines, visit),
    ensures
        lines == seq![error_message(SearchError::IsADirectory, request.root)],
{
}

/// A failure at an entry writes one line, which names that entry, and no
/// record of a match.
pub proof fn lemma_failure_reports_once(walk: Walk, probe: ProbeView, lines: Seq<Seq<char>>)
    requires
        is_failure(probe),
        visit_of(walk, probe) matches Some(visit) && is_report(lines, visit),
    ensures
        exists|error: SearchError| lines == seq![#[trigger] error_message(error, walk.pending.last().path)],
{
    let visit = visit_of(walk, probe)->0;
    let error = visit.outcome->Errored_0;
    assert(lines == seq![error_message(error, walk.pending.last().path)]);
}

proof fn lemma_stripped_parts(
    head: Seq<char>,
    middle: Seq<char>,
    body: Seq<char>,
    path: Seq<char>,
    text: Seq<char>,
)
    requires
        escape_free(path),
        paints(head, path, path_code()),
        paints(middle, separator(), separator_code()),
        stripped(body) == text,
    ensures
        stripped(head + middle + body) == path + separator() + text,
{
    reveal_strlit(": ");
    assert(escape_free(separator()));
    lemma_escape_free_is_code_free(path);
    lemma_escape_free_is_code_free(separator());
    lemma_stripped_painting(head, path, path_code(), middle + body);
    lemma_stripped_painting(middle, separator(), separator_code(), body);
    assert(head + middle + body == head + (middle + body)) by {
        assert(head + middle + body =~= head + (middle + body));
    }
    assert(path + (separator() + text) == path + separator() + text) by {
        assert(path + (separator() + text) =~= path + separator() + text);
    }
}

/// Stripping the record of a match gives the path, the separator and the
/// line as they were, provided that the path holds no escape character and
/// the line none of the four codes.
pub proof fn lemma_stripped_match_record(out: Seq<char>, found: Found)
    requires
        escape_free(found.source_path),
        code_free(found.rendered_line.text),
        spans_in_order(found.rendered_line.spans, 0, found.rendered_line.text.len() as int),
        is_match_record(out, found),
    ensures
        stripped(out) == found.source_path + separator() + found.rendered_line.text,
{
    let (head, middle, body) = choose|head: Seq<char>, middle: Seq<char>, body: Seq<char>|
        {
            &&& paints(head, found.source_path, path_code())
            &&& paints(middle, separator(), separator_code())
            &&& is_painted_line(body, found.rendered_line)
            &&& out == #[trigger] (head + middle + body)
        };
    lemma_stripped_painted_line(body, found.rendered_line);
    lemma_stripped_parts(head, middle, body, found.source_path, found.rendered_line.text);
}

/// Stripping the record of `found` gives its path, the separator and its
/// line: the path holds no escape character, the line none of the four
/// codes, and the extents are in order.
pub open spec fn strips_clean(found: Found) -> bool {
    &&& escape_free(found.source_path)
    &&& code_free(found.rendered_line.text)
    &&& spans_in_order(found.rendered_line.spans, 0, found.rendered_line.text.len() as int)
}

/// What is written for a visit is the same whenever it is written, but for
/// the emphasis: two reports of one visit have as many lines, and line for
/// line they are the same text once the codes are stripped.
pub proof fn lemma_reports_agree(visit: Visited, first: Seq<Seq<char>>, second: Seq<Seq<char>>)
    requires
        is_report(first, visit),
        is_report(second, visit),
        visit.outcome matches Outcome::Matched(found) ==> forall|i: int|
            0 <= i < found.len() ==> strips_clean(#[trigger] found[i]),
    ensures
        first.len() == second.len(),
        forall|i: int| 0 <= i < first.len() ==> stripped(#[trigger] first[i]) == stripped(second[i]),
{
    match visit.outcome {
        Outcome::Matched(found) => {
            assert forall|i: int| 0 <= i < first.len() implies stripped(#[trigger] first[i])
                == stripped(second[i]) by {
                assert(strips_clean(found[i]));
                lemma_stripped_match_record(first[i], found[i]);
                lemma_stripped_match_record(second[i], found[i]);
            }
        },
        _ => {},
    }
}

} // verus!
