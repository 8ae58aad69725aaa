//! Git states and the diff queries between them.

use vstd::prelude::*;

use crate::text::{push_char, push_text};

verus! {

/// A Git state that a diff can start or end at.
#[derive(Debug, Clone, PartialEq, Eq, Hash)]
pub enum GitRef {
    /// A specific commit (hash, branch, tag, ...).
    Commit(String),
    /// The current HEAD commit.
    Head,
    /// Changes staged in the index.
    Staged,
    /// Changes in the working tree.
    Unstaged,
}

/// The mathematical value of a `GitRef`.
pub enum GitRefView {
    Commit(Seq<char>),
    Head,
    Staged,
    Unstaged,
}

impl View for GitRef {
    type V = GitRefView;

    open spec fn view(&self) -> GitRefView {
        match self {
            GitRef::Commit(c) => GitRefView::Commit(c@),
            GitRef::Head => GitRefView::Head,
            GitRef::Staged => GitRefView::Staged,
            GitRef::Unstaged => GitRefView::Unstaged,
        }
    }
}

/// A diff between two Git states.
#[derive(Debug, Clone, PartialEq, Eq, Hash)]
pub struct DiffQuery {
    /// The state compared from.
    pub from: GitRef,
    /// The state compared to.
    pub to: GitRef,
}

/// The mathematical value of a `DiffQuery`.
pub struct DiffQueryView {
    pub from: GitRefView,
    pub to: GitRefView,
}

impl View for DiffQuery {
    type V = DiffQueryView;

    open spec fn view(&self) -> DiffQueryView {
        DiffQueryView { from: self.from@, to: self.to@ }
    }
}

/// How a Git state is shown: a commit by its first seven characters.
pub open spec fn git_ref_text(r: GitRefView) -> Seq<char> {
    match r {
        GitRefView::Commit(c) => if c.len() <= 7 {
            c
        } else {
            c.take(7)
        },
        GitRefView::Head => "HEAD"@,
        GitRefView::Staged => "staged"@,
        GitRefView::Unstaged => "unstaged"@,
    }
}

/// How a diff query is shown: `working` for HEAD against the working tree,
/// otherwise both states joined by `..`.
pub open spec fn diff_query_text(q: DiffQueryView) -> Seq<char> {
    if q.from == GitRefView::Head && q.to == GitRefView::Unstaged {
        "working"@
    } else {
        git_ref_text(q.from) + ".."@ + git_ref_text(q.to)
    }
}

/// A character as it appears inside a quoted string in debug output:
/// quotes, backslashes, newlines, carriage returns, tabs and NUL are
/// escaped; every other character is kept.
pub open spec fn escaped_char(c: char) -> Seq<char> {
    if c == '"' {
        "\\\""@
    } else if c == '\\' {
        "\\\\"@
    } else if c == '\n' {
        "\\n"@
    } else if c == '\r' {
        "\\r"@
    } else if c == '\t' {
        "\\t"@
    } else if c == '\0' {
        "\\0"@
    } else {
        seq![c]
    }
}

/// The characters of `s`, each escaped.
pub open spec fn escaped(s: Seq<char>) -> Seq<char>
    decreases s.len(),
{
    if s.len() == 0 {
        seq![]
    } else {
        escaped(s.drop_last()) + escaped_char(s.last())
    }
}

/// The debug form of a Git state: the variant's name, a commit with its
/// name quoted.
pub open spec fn git_ref_debug_text(r: GitRefView) -> Seq<char> {
    match r {
        GitRefView::Commit(c) => "Commit(\""@ + escaped(c) + "\")"@,
        GitRefView::Head => "Head"@,
        GitRefView::Staged => "Staged"@,
        GitRefView::Unstaged => "Unstaged"@,
    }
}

impl GitRef {
    /// A specific commit.
    pub fn commit(commit: String) -> (r: Self)
        ensures
            r@ == GitRefView::Commit(commit@),
    {
        GitRef::Commit(commit)
    }

    /// The current HEAD.
    pub fn head() -> (r: Self)
        ensures
            r@ == GitRefView::Head,
    {
        GitRef::Head
    }

    /// The staged changes.
    pub fn staged() -> (r: Self)
        ensures
            r@ == GitRefView::Staged,
    {
        GitRef::Staged
    }

    /// The working-tree changes.
    pub fn unstaged() -> (r: Self)
        ensures
            r@ == GitRefView::Unstaged,
    {
        GitRef::Unstaged
    }

    /// Whether two states are the same.
    pub fn same(&self, other: &GitRef) -> (b: bool)
        ensures
            b == (self@ == other@),
    {
        match (self, other) {
            (GitRef::Commit(a), GitRef::Commit(b)) => {
                let r = *a == *b;
                proof {
                    if r {
                        assert(self@ == other@);
                    }
                }
                r
            },
            (GitRef::Head, GitRef::Head) => true,
            (GitRef::Staged, GitRef::Staged) => true,
            (GitRef::Unstaged, GitRef::Unstaged) => true,
            _ => false,
        }
    }

    /// A copy of the state.
    pub fn duplicate(&self) -> (r: GitRef)
        ensures
            r@ == self@,
    {
        match self {
            GitRef::Commit(c) => GitRef::Commit(c.clone()),
            GitRef::Head => GitRef::Head,
            GitRef::Staged => GitRef::Staged,
            GitRef::Unstaged => GitRef::Unstaged,
        }
    }

    /// Appends the debug form of the state.
    pub fn push_debug_text(&self, out: &mut String)
        ensures
            final(out)@ == old(out)@ + git_ref_debug_text(self@),
    {
        match self {
            GitRef::Commit(c) => {
                push_text(out, "Commit(\"");
                let ghost start = out@;
                let s = c.as_str();
                let n = s.unicode_len();
                let mut i: usize = 0;
                while i < n
                    invariant
                        n == s@.len(),
                        s@ == c@,
                        i <= n,
                        out@ == start + escaped(s@.take(i as int)),
                    decreases n - i,
                {
                    let ch = s.get_char(i);
                    if ch == '"' {
                        push_text(out, "\\\"");
                    } else if ch == '\\' {
                        push_text(out, "\\\\");
                    } else if ch == '\n' {
                        push_text(out, "\\n");
                    } else if ch == '\r' {
                        push_text(out, "\\r");
                    } else if ch == '\t' {
                        push_text(out, "\\t");
                    } else if ch == '\0' {
                        push_text(out, "\\0");
                    } else {
                        push_char(out, ch);
                    }
                    assert(s@.take(i + 1).drop_last() =~= s@.take(i as int));
                    assert(out@ =~= start + escaped(s@.take(i + 1)));
                    i = i + 1;
                }
                assert(s@.take(n as int) =~= s@);
                push_text(out, "\")");
            },
            GitRef::Head => push_text(out, "Head"),
            GitRef::Staged => push_text(out, "Staged"),
            GitRef::Unstaged => push_text(out, "Unstaged"),
        }
    }

    /// Appends how the state is shown.
    pub fn push_text(&self, out: &mut String)
        ensures
            final(out)@ == old(out)@ + git_ref_text(self@),
    {
        match self {
            GitRef::Commit(c) => {
                let s = c.as_str();
                let n = s.unicode_len();
                let limit = if n <= 7 {
                    n
                } else {
                    7
                };
                let mut i: usize = 0;
                while i < limit
                    invariant
                        limit <= s@.len(),
                        limit == (if s@.len() <= 7 {
                            s@.len()
                        } else {
                            7
                        }),
                        s@ == c@,
                        i <= limit,
                        out@ == old(out)@ + s@.take(i as int),
                    decreases limit - i,
                {
                    push_char(out, s.get_char(i));
                    assert(s@.take(i + 1) =~= s@.take(i as int).push(s@[i as int]));
                    i = i + 1;
                }
                assert(s@.len() <= 7 ==> s@.take(limit as int) =~= s@);
            },
            GitRef::Head => push_text(out, "HEAD"),
            GitRef::Staged => push_text(out, "staged"),
            GitRef::Unstaged => push_text(out, "unstaged"),
        }
    }
}

impl DiffQuery {
    /// A query between two states.
    pub fn new(from: GitRef, to: GitRef) -> (q: Self)
        ensures
            q@ == (DiffQueryView { from: from@, to: to@ }),
    {
        DiffQuery { from, to }
    }

    /// From a commit to HEAD.
    pub fn commit_to_head(commit: String) -> (q: Self)
        ensures
            q@ == (DiffQueryView { from: GitRefView::Commit(commit@), to: GitRefView::Head }),
    {
        DiffQuery { from: GitRef::Commit(commit), to: GitRef::Head }
    }

    /// From HEAD to the working tree.
    pub fn head_to_unstaged() -> (q: Self)
        ensures
            q@ == (DiffQueryView { from: GitRefView::Head, to: GitRefView::Unstaged }),
    {
        DiffQuery { from: GitRef::Head, to: GitRef::Unstaged }
    }

    /// From the index to the working tree.
    pub fn staged_to_unstaged() -> (q: Self)
        ensures
            q@ == (DiffQueryView { from: GitRefView::Staged, to: GitRefView::Unstaged }),
    {
        DiffQuery { from: GitRef::Staged, to: GitRef::Unstaged }
    }

    /// From HEAD to the index.
    pub fn head_to_staged() -> (q: Self)
        ensures
            q@ == (DiffQueryView { from: GitRefView::Head, to: GitRefView::Staged }),
    {
        DiffQuery { from: GitRef::Head, to: GitRef::Staged }
    }

    /// Whether two queries are the same.
    pub fn same(&self, other: &DiffQuery) -> (b: bool)
        ensures
            b == (self@ == other@),
    {
        self.from.same(&other.from) && self.to.same(&other.to)
    }

    /// A copy of the query.
    pub fn duplicate(&self) -> (q: DiffQuery)
        ensures
            q@ == self@,
    {
        DiffQuery { from: self.from.duplicate(), to: self.to.duplicate() }
    }

    /// Appends how the query is shown.
    pub fn push_text(&self, out: &mut String)
        ensures
            final(out)@ == old(out)@ + diff_query_text(self@),
    {
        let is_working = match (&self.from, &self.to) {
            (GitRef::Head, GitRef::Unstaged) => true,
            _ => false,
        };
        if is_working {
            push_text(out, "working");
        } else {
            self.from.push_text(out);
            push_text(out, "..");
            self.to.push_text(out);
            assert(out@ =~= old(out)@ + diff_query_text(self@));
        }
    }

    /// How the query is shown.
    pub fn to_string(&self) -> (s: String)
        ensures
            s@ == diff_query_text(self@),
    {
        let mut s = String::new();
        self.push_text(&mut s);
        assert(s@ =~= diff_query_text(self@));
        s
    }
}

} // verus!
