//! The search of the contents of one file.

use crate::lines::{lines_of, split_lines};
use crate::matcher::{match_line, rendering_of, RenderedLine, Rendering};
use crate::request::SearchRequest;
use crate::text::texts;
use vstd::prelude::*;
use vstd::string::StringExecFns;

verus! {

/// What a match result holds.
pub struct Found {
    pub source_path: Seq<char>,
    pub rendered_line: Rendering,
}

/// One matching line of a file: the path of the file and the rendered line.
#[derive(Debug, PartialEq, Eq)]
pub struct MatchResult {
    pub source_path: String,
    pub rendered_line: RenderedLine,
}

impl View for MatchResult {
    type V = Found;

    open spec fn view(&self) -> Found {
        Found { source_path: self.source_path@, rendered_line: self.rendered_line@ }
    }
}

/// What a sequence of match results holds.
pub open spec fn founds(results: Seq<MatchResult>) -> Seq<Found> {
    results.map_values(|m: MatchResult| m@)
}

/// What a line gives: a match result for the file at `path` where the line
/// holds the pattern, nothing where it does not.
pub open spec fn match_of(path: Seq<char>, pattern: Seq<char>, case_insensitive: bool) -> spec_fn(
    Seq<char>,
) -> Option<Found> {
    |line: Seq<char>|
        match rendering_of(line, pattern, case_insensitive) {
            Some(rendered_line) => Some(Found { source_path: path, rendered_line }),
            None => None,
        }
}

/// The match results of the file at `path` whose lines are `lines`: one for
/// each line that holds the pattern, in the order of the lines.
pub open spec fn matches_in(
    path: Seq<char>,
    lines: Seq<Seq<char>>,
    pattern: Seq<char>,
    case_insensitive: bool,
) -> Seq<Found> {
    lines.filter_map(match_of(path, pattern, case_insensitive))
}

/// Searches the contents of the file that the request names: every line is
/// matched against the pattern, and each matching line gives one result, in
/// the order of the file.
pub fn search_file(request: &SearchRequest, contents: &str) -> (results: Vec<MatchResult>)
    ensures
        founds(results@) == matches_in(
            request@.root,
            lines_of(contents@),
            request@.pattern,
            request@.case_insensitive,
        ),
{
    let lines = split_lines(contents);
    let pattern = request.pattern();
    let case_insensitive = request.case_insensitive();
    let mut results: Vec<MatchResult> = Vec::new();
    let mut i: usize = 0;
    while i < lines.len()
        invariant
            i <= lines.len(),
            texts(lines@) == lines_of(contents@),
            pattern@ == request@.pattern,
            pattern@.len() > 0,
            case_insensitive == request@.case_insensitive,
            founds(results@) == matches_in(
                request@.root,
                lines_of(contents@).take(i as int),
                request@.pattern,
                request@.case_insensitive,
            ),
        decreases lines.len() - i,
    {
        let ghost all = lines_of(contents@);
        assert(all[i as int] == lines@[i as int]@);
        proof {
            all.lemma_filter_map_take_succ(
                match_of(request@.root, request@.pattern, request@.case_insensitive),
                i as int,
            );
        }
        match match_line(lines[i].as_str(), pattern, case_insensitive) {
            Some(rendered_line) => {
                let ghost before = founds(results@);
                let result = MatchResult {
                    source_path: String::from_str(request.root()),
                    rendered_line,
                };
                results.push(result);
                assert(founds(results@) == before + seq![result@]);
            },
            None => {},
        }
        i += 1;
    }
    assert(lines_of(contents@).take(i as int) == lines_of(contents@));
    results
}

} // verus!
