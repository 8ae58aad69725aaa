//! The identifier of a reviewable diff: query, file and line range.

use vstd::prelude::*;

use crate::review::git_ref::{diff_query_text, DiffQuery, DiffQueryView};
use crate::text::{decimal, push_decimal, push_text};

verus! {

/// Lines of a file: 1-based inclusive line numbers and 0-based columns.
#[derive(Debug, Clone, Copy, PartialEq, Eq, Hash, Structural)]
pub struct LineRange {
    pub start_line: usize,
    pub end_line: usize,
    pub start_column: usize,
    pub end_column: usize,
}

/// The identifier of a reviewable diff.
#[derive(Debug, Clone, PartialEq, Eq, Hash)]
pub struct ReviewableDiffId {
    pub query: DiffQuery,
    pub file_path: String,
    pub line_range: LineRange,
}

/// The mathematical value of a `ReviewableDiffId`.
pub struct ReviewableDiffIdView {
    pub query: DiffQueryView,
    pub file_path: Seq<char>,
    pub line_range: LineRange,
}

impl View for ReviewableDiffId {
    type V = ReviewableDiffIdView;

    open spec fn view(&self) -> ReviewableDiffIdView {
        ReviewableDiffIdView {
            query: self.query@,
            file_path: self.file_path@,
            line_range: self.line_range,
        }
    }
}

/// How an identifier is shown: `query:file:Lstart-end`.
pub open spec fn reviewable_id_text(id: ReviewableDiffIdView) -> Seq<char> {
    diff_query_text(id.query) + ":"@ + id.file_path + ":L"@ + decimal(
        id.line_range.start_line as nat,
    ) + "-"@ + decimal(id.line_range.end_line as nat)
}

impl ReviewableDiffId {
    /// An identifier from its parts.
    pub fn new(query: DiffQuery, file_path: String, line_range: LineRange) -> (id: Self)
        ensures
            id@ == (ReviewableDiffIdView {
                query: query@,
                file_path: file_path@,
                line_range,
            }),
    {
        ReviewableDiffId { query, file_path, line_range }
    }

    /// The file path.
    pub fn file_path(&self) -> (p: &str)
        ensures
            p@ == self.file_path@,
    {
        self.file_path.as_str()
    }

    /// The diff query.
    pub fn query(&self) -> (q: &DiffQuery)
        ensures
            q@ == self.query@,
    {
        &self.query
    }

    /// The line range.
    pub fn line_range(&self) -> (r: LineRange)
        ensures
            r == self.line_range,
    {
        self.line_range
    }

    /// Whether both identifiers are for the same file and query.
    pub fn same_file_and_query(&self, other: &Self) -> (b: bool)
        ensures
            b == (self.file_path@ == other.file_path@ && self.query@ == other.query@),
    {
        self.file_path == other.file_path && self.query.same(&other.query)
    }

    /// Whether two identifiers are equal.
    pub fn same(&self, other: &Self) -> (b: bool)
        ensures
            b == (self@ == other@),
    {
        let r = self.line_range == other.line_range && self.file_path == other.file_path
            && self.query.same(&other.query);
        proof {
            if r {
                assert(self@ == other@);
            }
        }
        r
    }

    /// A copy of the identifier.
    pub fn duplicate(&self) -> (c: Self)
        ensures
            c@ == self@,
    {
        ReviewableDiffId {
            query: self.query.duplicate(),
            file_path: self.file_path.clone(),
            line_range: self.line_range,
        }
    }

    /// How the identifier is shown: `query:file:Lstart-end`.
    pub fn to_string(&self) -> (s: String)
        ensures
            s@ == reviewable_id_text(self@),
    {
        let mut s = String::new();
        self.query.push_text(&mut s);
        push_text(&mut s, ":");
        push_text(&mut s, self.file_path.as_str());
        push_text(&mut s, ":L");
        push_decimal(&mut s, self.line_range.start_line);
        push_text(&mut s, "-");
        push_decimal(&mut s, self.line_range.end_line);
        assert(s@ =~= reviewable_id_text(self@));
        s
    }
}

} // verus!
