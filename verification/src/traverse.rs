//! The traversal of a tree of directories as a state machine: it is told
//! what was found at a path and decides what comes of it and where to look
//! next.

use crate::lines::lines_of;
use crate::order::{sort_names, sorted_names};
use crate::request::{Request, SearchRequest};
use crate::search::{founds, matches_in, search_file, Found, MatchResult};
use crate::text::texts;
use vstd::prelude::*;

verus! {

/// Why a file or a directory could not be read.
#[derive(Clone, Copy, Debug, PartialEq, Eq, Structural)]
pub enum ReadFailure {
    /// Access was refused.
    PermissionDenied,
    /// The file does not hold valid text.
    InvalidText,
    /// Any other failure.
    Other,
}

/// What went wrong at one entry. None of these ends the search: the entries
/// that are still pending are visited all the same.
#[derive(Clone, Copy, Debug, PartialEq, Eq, Structural)]
pub enum SearchError {
    /// Nothing exists at the path.
    PathNotFound,
    /// What exists at the path is neither a file nor a directory.
    NotAFile,
    /// The path is a directory and directories are not entered.
    IsADirectory,
    /// The entry exists and could not be read.
    ReadError(ReadFailure),
}

/// Why an entry was passed over.
#[derive(Clone, Copy, Debug, PartialEq, Eq, Structural)]
pub enum SkipReason {
    /// The directory lies as deep as the search is allowed to go.
    DepthLimit,
}

/// The number of directories below its root that a search enters unless it
/// is told otherwise.
pub const DEPTH_LIMIT: usize = 64;

/// What the file system holds at a path, as found by whoever looked.
#[derive(Debug, PartialEq, Eq)]
pub enum Probe {
    /// Nothing exists there.
    Missing,
    /// A file, with its contents as text.
    File(String),
    /// A file that could not be read as text.
    UnreadableFile(ReadFailure),
    /// A directory, with the paths of its immediate entries in any order.
    Directory(Vec<String>),
    /// A directory whose entries could not be listed.
    UnreadableDirectory(ReadFailure),
    /// Something that is neither a file nor a directory.
    Other,
}

/// What a probe holds.
pub enum ProbeView {
    Missing,
    File(Seq<char>),
    UnreadableFile(ReadFailure),
    Directory(Seq<Seq<char>>),
    UnreadableDirectory(ReadFailure),
    Other,
}

impl View for Probe {
    type V = ProbeView;

    open spec fn view(&self) -> ProbeView {
        match self {
            Probe::Missing => ProbeView::Missing,
            Probe::File(contents) => ProbeView::File(contents@),
            Probe::UnreadableFile(failure) => ProbeView::UnreadableFile(*failure),
            Probe::Directory(entries) => ProbeView::Directory(texts(entries@)),
            Probe::UnreadableDirectory(failure) => ProbeView::UnreadableDirectory(*failure),
            Probe::Other => ProbeView::Other,
        }
    }
}

/// What came of visiting one entry.
#[derive(Debug, PartialEq, Eq)]
pub enum TraversalOutcome {
    /// A file in which at least one line matched, with its matches in the
    /// order of the file.
    Matched(Vec<MatchResult>),
    /// A file in which no line matched.
    NoMatch,
    /// A directory whose entries are now pending.
    Descended,
    /// An entry that was passed over.
    Skipped(SkipReason),
    /// An entry at which something went wrong.
    Errored(SearchError),
}

/// What a traversal outcome holds.
pub enum Outcome {
    Matched(Seq<Found>),
    NoMatch,
    Descended,
    Skipped(SkipReason),
    Errored(SearchError),
}

impl View for TraversalOutcome {
    type V = Outcome;

    open spec fn view(&self) -> Outcome {
        match self {
            TraversalOutcome::Matched(results) => Outcome::Matched(founds(results@)),
            TraversalOutcome::NoMatch => Outcome::NoMatch,
            TraversalOutcome::Descended => Outcome::Descended,
            TraversalOutcome::Skipped(reason) => Outcome::Skipped(*reason),
            TraversalOutcome::Errored(error) => Outcome::Errored(*error),
        }
    }
}

/// The outcome of visiting the root of `request`, which lies `depth`
/// directories below the start of the search, when `probe` was found there.
pub open spec fn outcome_of(request: Request, depth: nat, limit: nat, probe: ProbeView) -> Outcome {
    match probe {
        ProbeView::Missing => Outcome::Errored(SearchError::PathNotFound),
        ProbeView::Other => Outcome::Errored(SearchError::NotAFile),
        ProbeView::File(contents) => {
            let found = matches_in(
                request.root,
                lines_of(contents),
                request.pattern,
                request.case_insensitive,
            );
            if found.len() > 0 {
                Outcome::Matched(found)
            } else {
                Outcome::NoMatch
            }
        },
        ProbeView::UnreadableFile(failure) => Outcome::Errored(SearchError::ReadError(failure)),
        ProbeView::Directory(_) => {
            if !request.recursive {
                Outcome::Errored(SearchError::IsADirectory)
            } else if depth >= limit {
                Outcome::Skipped(SkipReason::DepthLimit)
            } else {
                Outcome::Descended
            }
        },
        ProbeView::UnreadableDirectory(failure) => {
            if !request.recursive {
                Outcome::Errored(SearchError::IsADirectory)
            } else {
                Outcome::Errored(SearchError::ReadError(failure))
            }
        },
    }
}

/// An entry that is still to be visited.
pub struct Entry {
    pub path: Seq<char>,
    pub depth: nat,
}

/// The state of a search: the request it was started with, the entries
/// that are still to be visited, the next one last, and the depth below
/// which no directory is entered.
pub struct Walk {
    pub request: Request,
    pub pending: Seq<Entry>,
    pub depth_limit: nat,
}

/// The entries at `names` as they are made pending: the first name last, so
/// that it is visited next.
pub open spec fn stacked(names: Seq<Seq<char>>, depth: nat) -> Seq<Entry> {
    names.reverse().map_values(|path: Seq<char>| Entry { path, depth })
}

/// The entries of a directory as they become pending: in the order of
/// names, the first name to be visited next.
pub open spec fn entries_below(children: Seq<Seq<char>>, depth: nat) -> Seq<Entry> {
    stacked(sorted_names(children), depth)
}

/// The state in which a search starts: its root is the one pending entry.
pub open spec fn start_walk(request: Request, depth_limit: nat) -> Walk {
    Walk { request, pending: seq![Entry { path: request.root, depth: 0 }], depth_limit }
}

/// The request for the entry that is visited next.
pub open spec fn next_request(walk: Walk) -> Request {
    Request { root: walk.pending.last().path, ..walk.request }
}

/// The state after the next entry was visited and `probe` found there: the
/// entry is no longer pending, and where it is a directory that is entered,
/// its entries are.
pub open spec fn step_walk(walk: Walk, probe: ProbeView) -> Walk {
    if walk.pending.len() == 0 {
        walk
    } else {
        let top = walk.pending.last();
        let rest = walk.pending.drop_last();
        match probe {
            ProbeView::Directory(children) if walk.request.recursive && top.depth
                < walk.depth_limit => Walk {
                pending: rest + entries_below(children, top.depth + 1),
                ..walk
            },
            _ => Walk { pending: rest, ..walk },
        }
    }
}

/// What a visit holds.
pub struct Visited {
    pub path: Seq<char>,
    pub outcome: Outcome,
}

/// The visit that the next step makes, or none where nothing is pending.
pub open spec fn visit_of(walk: Walk, probe: ProbeView) -> Option<Visited> {
    if walk.pending.len() == 0 {
        None
    } else {
        let top = walk.pending.last();
        Some(
            Visited {
                path: top.path,
                outcome: outcome_of(next_request(walk), top.depth, walk.depth_limit, probe),
            },
        )
    }
}

/// No pending entry lies deeper than the limit allows.
pub open spec fn within_limit(walk: Walk) -> bool {
    forall|i: int| 0 <= i < walk.pending.len() ==> (#[trigger] walk.pending[i]).depth <= walk.depth_limit
}

/// The probe tells of a failure: nothing is there, or what is there cannot
/// be read or is neither a file nor a directory.
pub open spec fn is_failure(probe: ProbeView) -> bool {
    probe is Missing || probe is Other || probe is UnreadableFile || probe is UnreadableDirectory
}

/// A search starts with no entry pending that lies deeper than its limit.
pub proof fn lemma_start_is_within_limit(request: Request, limit: nat)
    ensures
        within_limit(start_walk(request, limit)),
{
}

/// No step makes an entry pending that lies deeper than the limit. However
/// the directories link to each other, no path of more than `depth_limit`
/// directories is followed.
pub proof fn lemma_step_stays_within_limit(walk: Walk, probe: ProbeView)
    requires
        within_limit(walk),
    ensures
        within_limit(step_walk(walk, probe)),
{
    let after = step_walk(walk, probe);
    if walk.pending.len() > 0 {
        let top = walk.pending.last();
        let rest = walk.pending.drop_last();
        assert forall|i: int| 0 <= i < after.pending.len() implies (#[trigger] after.pending[i]).depth
            <= after.depth_limit by {
            if i < rest.len() {
                assert(after.pending[i] == walk.pending[i]);
            }
        }
    }
}

/// A directory is not entered unless the request is recursive: the search
/// of a directory without recursion makes one visit, which ends in the
/// error that the path is a directory, and nothing is pending after it.
pub proof fn lemma_directory_without_recursion(
    request: Request,
    limit: nat,
    children: Seq<Seq<char>>,
)
    requires
        !request.recursive,
    ensures
        visit_of(start_walk(request, limit), ProbeView::Directory(children)) == Some(
            Visited {
                path: request.root,
                outcome: Outcome::Errored(SearchError::IsADirectory),
            },
        ),
        step_walk(start_walk(request, limit), ProbeView::Directory(children)).pending.len() == 0,
{
}

/// A failure at one entry is the outcome of that entry alone: the visit ends
/// in an error, and the entries that were pending beside it are pending as
/// before, in the same order.
pub proof fn lemma_failure_leaves_the_rest_pending(walk: Walk, probe: ProbeView)
    requires
        walk.pending.len() > 0,
        is_failure(probe),
    ensures
        visit_of(walk, probe) matches Some(visit) && visit.path == walk.pending.last().path
            && visit.outcome is Errored,
        step_walk(walk, probe).pending == walk.pending.drop_last(),
        step_walk(walk, probe).request == walk.request,
{
}

/// Whatever is found at an entry, no other pending entry is dropped or
/// moved: what a step makes pending comes on top of the rest.
pub proof fn lemma_step_keeps_the_rest_pending(walk: Walk, probe: ProbeView)
    requires
        walk.pending.len() > 0,
    ensures
        step_walk(walk, probe).pending.len() >= walk.pending.len() - 1,
        step_walk(walk, probe).pending.take(walk.pending.len() - 1) == walk.pending.drop_last(),
{
    let after = step_walk(walk, probe);
    let rest = walk.pending.drop_last();
    assert(after.pending.take(rest.len() as int) =~= rest);
}

/// The search of a file gives the same visit whenever it is made: the
/// outcome rests on the request and on the contents of the file and on
/// nothing else, the depth limit included, and the search is over after
/// the one visit.
pub proof fn lemma_file_search_repeats(
    request: Request,
    contents: Seq<char>,
    first_limit: nat,
    second_limit: nat,
)
    ensures
        visit_of(start_walk(request, first_limit), ProbeView::File(contents)) == visit_of(
            start_walk(request, second_limit),
            ProbeView::File(contents),
        ),
        visit_of(start_walk(request, first_limit), ProbeView::File(contents)) matches Some(visit)
            && visit.path == request.root && visit.outcome == outcome_of(
            request,
            0,
            first_limit,
            ProbeView::File(contents),
        ),
        step_walk(start_walk(request, first_limit), ProbeView::File(contents)).pending.len() == 0,
{
}

/// One visited entry: its path and what came of the visit.
#[derive(Debug, PartialEq, Eq)]
pub struct Visit {
    pub path: String,
    pub outcome: TraversalOutcome,
}

impl View for Visit {
    type V = Visited;

    open spec fn view(&self) -> Visited {
        Visited { path: self.path@, outcome: self.outcome@ }
    }
}

#[derive(Debug, PartialEq, Eq)]
struct Pending {
    path: String,
    depth: usize,
}

impl View for Pending {
    type V = Entry;

    closed spec fn view(&self) -> Entry {
        Entry { path: self.path@, depth: self.depth as nat }
    }
}

/// A search in progress. It decides; it does not look at the file system.
/// Whoever runs it asks for the next path, looks what is there, and hands
/// that back as a probe, until no path is left.
#[derive(Debug, PartialEq, Eq)]
pub struct Traversal {
    request: SearchRequest,
    pending: Vec<Pending>,
    depth_limit: usize,
}

impl View for Traversal {
    type V = Walk;

    closed spec fn view(&self) -> Walk {
        Walk {
            request: self.request@,
            pending: self.pending@.map_values(|p: Pending| p@),
            depth_limit: self.depth_limit as nat,
        }
    }
}

impl Traversal {
    /// Starts a search at the root of `request`. Directories that lie
    /// `depth_limit` directories below the root are not entered.
    pub fn new(request: SearchRequest, depth_limit: usize) -> (traversal: Traversal)
        ensures
            traversal@ == start_walk(request@, depth_limit as nat),
    {
        let mut pending: Vec<Pending> = Vec::new();
        pending.push(Pending { path: request.root().to_owned(), depth: 0 });
        let traversal = Traversal { request, pending, depth_limit };
        assert(traversal@.pending =~= seq![Entry { path: request@.root, depth: 0 }]);
        traversal
    }

    /// The path to look at next, or none when the search is over.
    pub fn next_path(&self) -> (path: Option<String>)
        ensures
            path is Some <==> self@.pending.len() > 0,
            path matches Some(p) ==> p@ == self@.pending.last().path,
    {
        let n = self.pending.len();
        if n == 0 {
            None
        } else {
            Some(self.pending[n - 1].path.clone())
        }
    }

    /// Makes the entries of a directory pending, at `depth`.
    fn descend(&mut self, children: Vec<String>, depth: usize)
        ensures
            final(self)@ == (Walk {
                pending: old(self)@.pending + entries_below(texts(children@), depth as nat),
                ..old(self)@
            }),
    {
        let ghost before = self@;
        let ghost below = entries_below(texts(children@), depth as nat);
        let mut sorted = sort_names(children);
        let ghost names = texts(sorted@);
        let count = sorted.len();
        while sorted.len() > 0
            invariant
                sorted@.len() <= count,
                names.len() == count,
                texts(sorted@) == names.take(sorted@.len() as int),
                below == stacked(names, depth as nat),
                self@.request == before.request,
                self@.depth_limit == before.depth_limit,
                self@.pending == before.pending + below.take(count - sorted@.len()),
            decreases sorted.len(),
        {
            let ghost had = self@.pending;
            let ghost k = sorted@.len();
            let ghost was = texts(sorted@);
            let name = sorted.pop().unwrap();
            assert(name@ == was[k - 1]);
            assert(texts(sorted@) =~= names.take(k - 1)) by {
                assert(texts(sorted@) =~= was.take(k - 1));
            }
            self.pending.push(Pending { path: name, depth });
            assert(self@.pending =~= had.push(below[count - k]));
            assert(before.pending + below.take(count - k + 1) =~= (before.pending + below.take(
                count - k,
            )).push(below[count - k]));
        }
        assert(below.take(count as int) =~= below);
    }

    /// Visits the next pending entry, at which `probe` was found. Returns
    /// the visit, or none where nothing was pending.
    pub fn step(&mut self, probe: Probe) -> (visit: Option<Visit>)
        ensures
            final(self)@ == step_walk(old(self)@, probe@),
            match visit {
                Some(v) => visit_of(old(self)@, probe@) == Some(v@),
                None => visit_of(old(self)@, probe@) is None,
            },
    {
        let ghost before = self@;
        let top = match self.pending.pop() {
            Some(top) => top,
            None => {
                return None;
            },
        };
        assert(self@.pending =~= before.pending.drop_last());
        assert(top@ == before.pending.last());
        let request = self.request.with_root(top.path.as_str());
        let outcome = match probe {
            Probe::Missing => TraversalOutcome::Errored(SearchError::PathNotFound),
            Probe::Other => TraversalOutcome::Errored(SearchError::NotAFile),
            Probe::File(contents) => {
                let results = search_file(&request, contents.as_str());
                if results.len() > 0 {
                    TraversalOutcome::Matched(results)
                } else {
                    TraversalOutcome::NoMatch
                }
            },
            Probe::UnreadableFile(failure) => TraversalOutcome::Errored(
                SearchError::ReadError(failure),
            ),
            Probe::Directory(children) => {
                if !request.recursive() {
                    TraversalOutcome::Errored(SearchError::IsADirectory)
                } else if top.depth >= self.depth_limit {
                    TraversalOutcome::Skipped(SkipReason::DepthLimit)
                } else {
                    self.descend(children, top.depth + 1);
                    TraversalOutcome::Descended
                }
            },
            Probe::UnreadableDirectory(failure) => {
                if !request.recursive() {
                    TraversalOutcome::Errored(SearchError::IsADirectory)
                } else {
                    TraversalOutcome::Errored(SearchError::ReadError(failure))
                }
            },
        };
        Some(Visit { path: top.path, outcome })
    }
}

} // verus!
