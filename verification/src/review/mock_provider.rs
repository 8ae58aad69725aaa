//! A diff provider over curated fixtures and explicitly added file contents,
//! for tests that need no Git repository.

use vstd::prelude::*;

use crate::review::git_ref::{git_ref_debug_text, DiffQuery, GitRef, GitRefView};
use crate::review::providers::{DiffProvider, FileStats, FileStatus};
use crate::text::{push_text, from_text};

verus! {

/// Line counts a fixture expects.
#[derive(Debug, Clone, Copy, PartialEq, Eq, Structural)]
pub struct LineStats {
    pub additions: u32,
    pub deletions: u32,
}

/// Descriptive data of a fixture.
#[derive(Debug, Clone)]
pub struct FixtureMetadata {
    pub complexity_level: String,
    pub tags: Vec<String>,
}

/// A file before and after a change, with what a diff of it should find.
#[derive(Debug, Clone)]
pub struct ReviewFixture {
    pub name: String,
    pub file_path: String,
    pub language: String,
    pub description: String,
    pub old_code: String,
    pub new_code: String,
    pub expected_line_stats: LineStats,
    pub metadata: FixtureMetadata,
}

/// The position of the first stored content for `path` at `git_ref`.
pub open spec fn content_index(s: Seq<(String, GitRef, String)>, path: Seq<char>, r: GitRefView, i: int) -> Option<
    int,
>
    decreases s.len() - i,
{
    if i < 0 || i >= s.len() {
        None
    } else if s[i].0@ == path && s[i].1@ == r {
        Some(i)
    } else {
        content_index(s, path, r, i + 1)
    }
}

/// Replacing an entry by one for the same file and state finds the same
/// positions.
proof fn lemma_content_index_update(
    s: Seq<(String, GitRef, String)>,
    i: int,
    e: (String, GitRef, String),
    path: Seq<char>,
    r: GitRefView,
    j: int,
)
    requires
        0 <= i < s.len(),
        0 <= j,
        e.0@ == s[i].0@,
        e.1@ == s[i].1@,
    ensures
        content_index(s.update(i, e), path, r, j) == content_index(s, path, r, j),
    decreases s.len() - j,
{
    if j < s.len() {
        lemma_content_index_update(s, i, e, path, r, j + 1);
    }
}

/// Appending an entry finds it only where nothing earlier matches.
proof fn lemma_content_index_push(
    s: Seq<(String, GitRef, String)>,
    e: (String, GitRef, String),
    path: Seq<char>,
    r: GitRefView,
    j: int,
)
    requires
        0 <= j <= s.len(),
    ensures
        content_index(s.push(e), path, r, j) == match content_index(s, path, r, j) {
            Some(q) => Some(q),
            None => if e.0@ == path && e.1@ == r {
                Some(s.len() as int)
            } else {
                None
            },
        },
    decreases s.len() - j,
{
    if j < s.len() {
        assert(s.push(e)[j] == s[j]);
        lemma_content_index_push(s, e, path, r, j + 1);
    } else {
        assert(s.push(e)[j] == e);
        assert(content_index(s.push(e), path, r, j + 1) is None);
    }
}

/// Where `content_index` finds an entry, it is there and matches.
proof fn lemma_content_index(s: Seq<(String, GitRef, String)>, path: Seq<char>, r: GitRefView, j: int)
    requires
        0 <= j,
    ensures
        content_index(s, path, r, j) matches Some(q) ==> j <= q < s.len() && s[q].0@ == path && s[q].1@
            == r,
    decreases s.len() - j,
{
    if j < s.len() {
        lemma_content_index(s, path, r, j + 1);
    }
}

/// The position of the last fixture for `path` among the first `n`.
pub open spec fn fixture_index(s: Seq<ReviewFixture>, path: Seq<char>, n: int) -> Option<int>
    decreases n,
{
    if n <= 0 || n > s.len() {
        None
    } else if s[n - 1].file_path@ == path {
        Some(n - 1)
    } else {
        fixture_index(s, path, n - 1)
    }
}

/// A provider answering from fixtures and added file contents.
pub struct MockDiffProvider {
    /// At most one fixture per file path.
    pub fixtures: Vec<ReviewFixture>,
    pub changed_files: Vec<(String, FileStatus)>,
    /// Contents per file path and Git state, at most one per pair.
    pub file_contents: Vec<(String, GitRef, String)>,
}

fn find_content(s: &Vec<(String, GitRef, String)>, path: &str, git_ref: &GitRef) -> (r: Option<usize>)
    ensures
        r matches Some(i) ==> i < s@.len() && content_index(s@, path@, git_ref@, 0) == Some(i as int),
        r is None ==> content_index(s@, path@, git_ref@, 0) is None,
{
    let wanted = from_text(path);
    let mut i: usize = 0;
    while i < s.len()
        invariant
            i <= s@.len(),
            wanted@ == path@,
            content_index(s@, path@, git_ref@, 0) == content_index(s@, path@, git_ref@, i as int),
        decreases s@.len() - i,
    {
        if s[i].0 == wanted && s[i].1.same(git_ref) {
            return Some(i);
        }
        i = i + 1;
    }
    None
}

fn find_fixture(s: &Vec<ReviewFixture>, path: &str) -> (r: Option<usize>)
    ensures
        r matches Some(i) ==> i < s@.len() && fixture_index(s@, path@, s@.len() as int) == Some(
            i as int,
        ),
        r is None ==> fixture_index(s@, path@, s@.len() as int) is None,
{
    let wanted = from_text(path);
    let mut n: usize = s.len();
    while n > 0
        invariant
            n <= s@.len(),
            wanted@ == path@,
            fixture_index(s@, path@, s@.len() as int) == fixture_index(s@, path@, n as int),
        decreases n,
    {
        if s[n - 1].file_path == wanted {
            return Some(n - 1);
        }
        n = n - 1;
    }
    None
}

impl MockDiffProvider {
    /// A provider with no fixtures and no contents.
    pub fn new() -> (p: Self)
        ensures
            p.fixtures@.len() == 0,
            p.changed_files@.len() == 0,
            p.file_contents@.len() == 0,
    {
        MockDiffProvider { fixtures: Vec::new(), changed_files: Vec::new(), file_contents: Vec::new() }
    }

    /// A provider over fixtures: every fixture's file is changed (modified),
    /// and lookups by path find the last fixture for it.
    pub fn with_fixtures(fixtures: Vec<ReviewFixture>) -> (p: Self)
        ensures
            p.fixtures@ == fixtures@,
            p.file_contents@.len() == 0,
            p.changed_files@.len() == fixtures@.len(),
            forall|i: int|
                0 <= i < fixtures@.len() ==> (#[trigger] p.changed_files@[i]).0@
                    == fixtures@[i].file_path@ && p.changed_files@[i].1 == FileStatus::Modified,
    {
        let mut changed_files: Vec<(String, FileStatus)> = Vec::new();
        let mut i: usize = 0;
        while i < fixtures.len()
            invariant
                i <= fixtures@.len(),
                changed_files@.len() == i,
                forall|j: int|
                    0 <= j < i ==> (#[trigger] changed_files@[j]).0@ == fixtures@[j].file_path@
                        && changed_files@[j].1 == FileStatus::Modified,
            decreases fixtures@.len() - i,
        {
            changed_files.push((fixtures[i].file_path.clone(), FileStatus::Modified));
            i = i + 1;
        }
        MockDiffProvider { fixtures, changed_files, file_contents: Vec::new() }
    }

    /// Stores the content of a file at a Git state, replacing an earlier one.
    pub fn add_file_content(&mut self, file_path: &str, git_ref: &GitRef, content: &str)
        ensures
            final(self).fixtures == old(self).fixtures,
            final(self).changed_files == old(self).changed_files,
            match content_index(old(self).file_contents@, file_path@, git_ref@, 0) {
                Some(i) => final(self).file_contents@.len() == old(self).file_contents@.len()
                    && final(self).file_contents@[i].0@ == file_path@
                    && final(self).file_contents@[i].1@ == git_ref@
                    && final(self).file_contents@[i].2@ == content@
                    && forall|j: int| 0 <= j < old(self).file_contents@.len() && j != i ==> final(self).file_contents@[j] == old(self).file_contents@[j],
                None => final(self).file_contents@.len() == old(self).file_contents@.len() + 1
                    && final(self).file_contents@.last().0@ == file_path@
                    && final(self).file_contents@.last().1@ == git_ref@
                    && final(self).file_contents@.last().2@ == content@
                    && final(self).file_contents@.drop_last() == old(self).file_contents@,
            },
            mock_source(*final(self), file_path@, git_ref@) == Some(content@),
            forall|path: Seq<char>, r: GitRefView|
                !(path == file_path@ && r == git_ref@) ==> #[trigger] mock_source(*final(self), path, r)
                    == mock_source(*old(self), path, r),
    {
        let ghost s0 = self.file_contents@;
        let entry = (from_text(file_path), git_ref.duplicate(), from_text(content));
        let ghost ev = entry;
        match find_content(&self.file_contents, file_path, git_ref) {
            Some(i) => {
                self.file_contents.set(i, entry);
                proof {
                    lemma_content_index(s0, file_path@, git_ref@, 0);
                    assert(self.file_contents@ =~= s0.update(i as int, ev));
                    assert forall|path: Seq<char>, r: GitRefView|
                        #[trigger] content_index(self.file_contents@, path, r, 0) == content_index(
                            s0,
                            path,
                            r,
                            0,
                        ) by {
                        lemma_content_index_update(s0, i as int, ev, path, r, 0);
                    }
                    assert forall|path: Seq<char>, r: GitRefView|
                        !(path == file_path@ && r == git_ref@) implies #[trigger] mock_source(*self, path, r)
                            == mock_source(*old(self), path, r) by {
                        lemma_content_index(s0, path, r, 0);
                        assert(content_index(self.file_contents@, path, r, 0) == content_index(s0, path, r, 0));
                    }
                }
            },
            None => {
                self.file_contents.push(entry);
                proof {
                    assert(self.file_contents@ =~= s0.push(ev));
                    assert forall|path: Seq<char>, r: GitRefView|
                        #[trigger] content_index(self.file_contents@, path, r, 0) == match content_index(
                            s0,
                            path,
                            r,
                            0,
                        ) {
                            Some(q) => Some(q),
                            None => if ev.0@ == path && ev.1@ == r {
                                Some(s0.len() as int)
                            } else {
                                None
                            },
                        } by {
                        lemma_content_index_push(s0, ev, path, r, 0);
                    }
                    assert(content_index(self.file_contents@, file_path@, git_ref@, 0) == Some(
                        s0.len() as int,
                    ));
                    assert forall|path: Seq<char>, r: GitRefView|
                        !(path == file_path@ && r == git_ref@) implies #[trigger] mock_source(*self, path, r)
                            == mock_source(*old(self), path, r) by {
                        lemma_content_index(s0, path, r, 0);
                        lemma_content_index_push(s0, ev, path, r, 0);
                    }
                }
            },
        }
    }
}

impl Default for MockDiffProvider {
    fn default() -> (p: Self)
        ensures
            p.fixtures@.len() == 0,
            p.changed_files@.len() == 0,
            p.file_contents@.len() == 0,
    {
        MockDiffProvider::new()
    }
}

/// The content a mock provider gives for a file at a Git state: an added
/// content, else the fixture's new code for the working tree and its old
/// code for every other state; none without either.
pub open spec fn mock_source(p: MockDiffProvider, path: Seq<char>, r: GitRefView) -> Option<Seq<char>> {
    match content_index(p.file_contents@, path, r, 0) {
        Some(i) => Some(p.file_contents@[i].2@),
        None => match fixture_index(p.fixtures@, path, p.fixtures@.len() as int) {
            Some(f) => Some(
                if r == GitRefView::Unstaged {
                    p.fixtures@[f].new_code@
                } else {
                    p.fixtures@[f].old_code@
                },
            ),
            None => None,
        },
    }
}

impl DiffProvider for MockDiffProvider {
    open spec fn source_of(&self, file_path: Seq<char>, git_ref: GitRefView) -> Result<Seq<char>, Seq<char>> {
        match mock_source(*self, file_path, git_ref) {
            Some(c) => Ok(c),
            None => Err("File not found: "@ + file_path + " at ref "@ + git_ref_debug_text(git_ref)),
        }
    }

    fn get_changed_files(&self, _query: &DiffQuery) -> (r: Result<Vec<(String, FileStatus)>, String>)
        ensures
            r matches Ok(v) && v@.len() == self.changed_files@.len() && forall|i: int|
                0 <= i < v@.len() ==> (#[trigger] v@[i]).0@ == self.changed_files@[i].0@ && v@[i].1
                    == self.changed_files@[i].1,
    {
        let mut out: Vec<(String, FileStatus)> = Vec::new();
        let mut i: usize = 0;
        while i < self.changed_files.len()
            invariant
                i <= self.changed_files@.len(),
                out@.len() == i,
                forall|j: int|
                    0 <= j < i ==> (#[trigger] out@[j]).0@ == self.changed_files@[j].0@ && out@[j].1
                        == self.changed_files@[j].1,
            decreases self.changed_files@.len() - i,
        {
            out.push((self.changed_files[i].0.clone(), self.changed_files[i].1));
            i = i + 1;
        }
        Ok(out)
    }

    fn get_file_stats(&self, file_path: &str, _query: &DiffQuery) -> (r: Result<FileStats, String>)
        ensures
            match fixture_index(self.fixtures@, file_path@, self.fixtures@.len() as int) {
                Some(f) => {
                    let a = self.fixtures@[f].expected_line_stats.additions;
                    let d = self.fixtures@[f].expected_line_stats.deletions;
                    if a + d <= u32::MAX {
                        r == Ok::<FileStats, String>(
                            FileStats { additions: a, deletions: d, total_changes: (a + d) as u32 },
                        )
                    } else {
                        r matches Err(m) && m@ == "Line counts overflow for path: "@ + file_path@
                    }
                },
                None => r matches Err(m) && m@ == "Fixture not found for path: "@ + file_path@,
            },
    {
        match find_fixture(&self.fixtures, file_path) {
            Some(f) => {
                let a = self.fixtures[f].expected_line_stats.additions;
                let d = self.fixtures[f].expected_line_stats.deletions;
                match a.checked_add(d) {
                    Some(_) => Ok(FileStats::new(a, d)),
                    None => {
                        let mut m = from_text("Line counts overflow for path: ");
                        push_text(&mut m, file_path);
                        Err(m)
                    },
                }
            },
            None => {
                let mut m = from_text("Fixture not found for path: ");
                push_text(&mut m, file_path);
                Err(m)
            },
        }
    }

    fn get_source_code(&self, file_path: &str, git_ref: &GitRef) -> (r: Result<String, String>)
        ensures
            match mock_source(*self, file_path@, git_ref@) {
                Some(c) => r matches Ok(s) && s@ == c,
                None => r matches Err(m) && m@ == "File not found: "@ + file_path@ + " at ref "@
                    + git_ref_debug_text(git_ref@),
            },
    {
        if let Some(i) = find_content(&self.file_contents, file_path, git_ref) {
            return Ok(self.file_contents[i].2.clone());
        }
        match find_fixture(&self.fixtures, file_path) {
            Some(f) => {
                let unstaged = match git_ref {
                    GitRef::Unstaged => true,
                    _ => false,
                };
                if unstaged {
                    Ok(self.fixtures[f].new_code.clone())
                } else {
                    Ok(self.fixtures[f].old_code.clone())
                }
            },
            None => {
                let mut m = from_text("File not found: ");
                push_text(&mut m, file_path);
                push_text(&mut m, " at ref ");
                git_ref.push_debug_text(&mut m);
                Err(m)
            },
        }
    }
}

} // verus!
