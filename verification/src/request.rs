//! The request for a search.

use vstd::prelude::*;
use vstd::string::StringExecFns;

verus! {

/// Why an invocation ends before any search begins.
#[derive(Clone, Copy, Debug, PartialEq, Eq, Structural)]
pub enum UsageError {
    /// No pattern was given, or an empty one.
    MissingPattern,
    /// Matching by regular expression was asked for.
    RegexNotImplemented,
}

/// What a search request holds.
pub struct Request {
    pub pattern: Seq<char>,
    pub root: Seq<char>,
    pub recursive: bool,
    pub case_insensitive: bool,
}

/// A search for a pattern under a root path. The pattern is never empty. A
/// request is not changed once it is made: a search that enters a directory
/// derives a new request for each entry.
#[derive(Debug, PartialEq, Eq)]
pub struct SearchRequest {
    pattern: String,
    root: String,
    recursive: bool,
    case_insensitive: bool,
}

impl View for SearchRequest {
    type V = Request;

    closed spec fn view(&self) -> Request {
        Request {
            pattern: self.pattern@,
            root: self.root@,
            recursive: self.recursive,
            case_insensitive: self.case_insensitive,
        }
    }
}

impl SearchRequest {
    #[verifier::type_invariant]
    spec fn well_formed(&self) -> bool {
        self.pattern@.len() > 0
    }

    /// Makes a request. An empty pattern is refused.
    pub fn new(pattern: &str, root: &str, recursive: bool, case_insensitive: bool) -> (request:
        Result<SearchRequest, UsageError>)
        ensures
            request is Ok <==> pattern@.len() > 0,
            request matches Ok(r) ==> r@ == (Request {
                pattern: pattern@,
                root: root@,
                recursive,
                case_insensitive,
            }),
            request matches Err(e) ==> e == UsageError::MissingPattern,
    {
        if pattern.is_empty() {
            Err(UsageError::MissingPattern)
        } else {
            Ok(
                SearchRequest {
                    pattern: String::from_str(pattern),
                    root: String::from_str(root),
                    recursive,
                    case_insensitive,
                },
            )
        }
    }

    /// The request for an entry below this one: the same pattern and flags,
    /// the entry's path as root.
    pub fn with_root(&self, root: &str) -> (derived: SearchRequest)
        ensures
            derived@ == (Request { root: root@, ..self@ }),
    {
        proof {
            use_type_invariant(self);
        }
        SearchRequest {
            pattern: self.pattern.clone(),
            root: String::from_str(root),
            recursive: self.recursive,
            case_insensitive: self.case_insensitive,
        }
    }

    /// The pattern, which is not empty.
    pub fn pattern(&self) -> (pattern: &str)
        ensures
            pattern@ == self@.pattern,
            pattern@.len() > 0,
    {
        proof {
            use_type_invariant(self);
        }
        self.pattern.as_str()
    }

    /// The path at which the search starts.
    pub fn root(&self) -> (root: &str)
        ensures
            root@ == self@.root,
    {
        self.root.as_str()
    }

    /// Whether directories are entered.
    pub fn recursive(&self) -> (recursive: bool)
        ensures
            recursive == self@.recursive,
    {
        self.recursive
    }

    /// Whether case is ignored.
    pub fn case_insensitive(&self) -> (case_insensitive: bool)
        ensures
            case_insensitive == self@.case_insensitive,
    {
        self.case_insensitive
    }
}

} // verus!
