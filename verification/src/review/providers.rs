//! What the review layer needs from a source of diffs, and the file
//! fingerprints and excerpts computed from file contents.

use sha2::Digest;
use vstd::string::StringSliceAdditionalSpecFns;
use vstd::prelude::*;
use vstd::utf8::encode_utf8;

use crate::review::git_ref::{DiffQuery, GitRef, GitRefView};
use crate::review::reviewable_diff_id::LineRange;
use crate::text::hex_bytes;

verus! {

/// Line statistics of a changed file.
#[derive(Debug, Clone, Copy, PartialEq, Eq, Structural)]
pub struct FileStats {
    pub additions: u32,
    pub deletions: u32,
    pub total_changes: u32,
}

impl FileStats {
    /// Statistics with the total of both counts.
    pub fn new(additions: u32, deletions: u32) -> (s: Self)
        requires
            additions + deletions <= u32::MAX,
        ensures
            s == (FileStats { additions, deletions, total_changes: (additions + deletions) as u32 }),
    {
        FileStats { additions, deletions, total_changes: additions + deletions }
    }

    /// Only additions: the file was created.
    pub fn is_creation(&self) -> (b: bool)
        ensures
            b == (self.additions > 0 && self.deletions == 0),
    {
        self.additions > 0 && self.deletions == 0
    }

    /// Only deletions: the file was deleted.
    pub fn is_deletion(&self) -> (b: bool)
        ensures
            b == (self.additions == 0 && self.deletions > 0),
    {
        self.additions == 0 && self.deletions > 0
    }

    /// Both additions and deletions.
    pub fn is_modification(&self) -> (b: bool)
        ensures
            b == (self.additions > 0 && self.deletions > 0),
    {
        self.additions > 0 && self.deletions > 0
    }

    /// No changes at all.
    pub fn is_unchanged(&self) -> (b: bool)
        ensures
            b == (self.additions == 0 && self.deletions == 0),
    {
        self.additions == 0 && self.deletions == 0
    }
}

/// How a file changed.
#[derive(Debug, Clone, Copy, PartialEq, Eq, Structural)]
pub enum FileStatus {
    Added,
    Modified,
    Deleted,
    Renamed,
    Copied,
    Untracked,
}

/// The SHA-256 digest of `data` (the result of `sha2::Sha256::digest`).
pub uninterp spec fn sha256(data: Seq<u8>) -> Seq<u8>;

/// The SHA-256 digest of `data`, by `sha2::Sha256::digest`: 32 bytes, the
/// digest of exactly these bytes.
#[verifier::external_body]
fn sha256_digest(data: &[u8]) -> (d: Vec<u8>)
    ensures
        d@ == sha256(data@),
        d@.len() == 32,
{
    sha2::Sha256::digest(data).to_vec()
}

/// The bytes with every CR LF pair replaced by LF, scanning from the start.
pub open spec fn crlf_normalized(b: Seq<u8>) -> Seq<u8>
    decreases b.len(),
{
    if b.len() == 0 {
        seq![]
    } else if b.len() >= 2 && b[0] == 13 && b[1] == 10 {
        seq![10u8] + crlf_normalized(b.skip(2))
    } else {
        seq![b[0]] + crlf_normalized(b.skip(1))
    }
}

/// The fingerprint of a file: lowercase hex of the SHA-256 digest of its
/// bytes with line endings normalized to LF.
pub open spec fn file_hash_text(content: Seq<u8>) -> Seq<char> {
    hex_bytes(sha256(crlf_normalized(content)))
}

/// The bytes with CR LF pairs replaced by LF.
pub fn normalize_line_endings(bytes: &[u8]) -> (out: Vec<u8>)
    ensures
        out@ == crlf_normalized(bytes@),
{
    let mut out: Vec<u8> = Vec::new();
    let mut i: usize = 0;
    assert(bytes@.skip(0) =~= bytes@);
    assert(out@ + crlf_normalized(bytes@) =~= crlf_normalized(bytes@));
    while i < bytes.len()
        invariant
            i <= bytes@.len(),
            crlf_normalized(bytes@) == out@ + crlf_normalized(bytes@.skip(i as int)),
        decreases bytes@.len() - i,
    {
        let ghost rest = bytes@.skip(i as int);
        if i + 1 < bytes.len() && bytes[i] == 13 && bytes[i + 1] == 10 {
            let ghost before = out@;
            out.push(10);
            assert(rest.skip(2) =~= bytes@.skip(i + 2));
            assert(out@ + crlf_normalized(bytes@.skip(i + 2)) =~= before + crlf_normalized(rest));
            i = i + 2;
        } else {
            let ghost before = out@;
            out.push(bytes[i]);
            assert(rest.skip(1) =~= bytes@.skip(i + 1));
            assert(out@ + crlf_normalized(bytes@.skip(i + 1)) =~= before + crlf_normalized(rest));
            i = i + 1;
        }
    }
    assert(bytes@.skip(i as int) =~= Seq::<u8>::empty());
    assert(out@ + crlf_normalized(bytes@.skip(i as int)) =~= out@);
    out
}

/// The fingerprint of a file's content.
pub fn file_hash(content: &str) -> (h: String)
    ensures
        h@ == file_hash_text(content.spec_bytes()),
{
    let normalized = normalize_line_endings(content.as_bytes());
    let digest = sha256_digest(normalized.as_slice());
    let mut h = String::new();
    crate::text::push_hex(&mut h, digest.as_slice());
    h
}

/// Position of the first `\n` of `s` at or after `i`, or -1.
pub open spec fn next_newline(s: Seq<char>, i: int) -> int
    decreases s.len() - i,
{
    if i < 0 || i >= s.len() {
        -1
    } else if s[i] == '\n' {
        i
    } else {
        next_newline(s, i + 1)
    }
}

/// Where a newline is found, it lies at or after the start of the search.
pub proof fn lemma_next_newline(s: Seq<char>, i: int)
    requires
        0 <= i,
    ensures
        next_newline(s, i) == -1 || (i <= next_newline(s, i) < s.len() && s[next_newline(s, i)]
            == '\n'),
        next_newline(s, i) == -1 ==> forall|j: int| i <= j < s.len() ==> s[j] != '\n',
        next_newline(s, i) != -1 ==> forall|j: int| i <= j < next_newline(s, i) ==> s[j] != '\n',
    decreases s.len() - i,
{
    if 0 <= i < s.len() && s[i] != '\n' {
        lemma_next_newline(s, i + 1);
    }
}

/// A line without its trailing carriage return, if any.
pub open spec fn strip_cr(line: Seq<char>) -> Seq<char> {
    if line.len() > 0 && line.last() == '\r' {
        line.drop_last()
    } else {
        line
    }
}

/// The lines of `s` from position `start` on, as `str::lines` gives them:
/// split at `\n`, a final `\r` dropped from each, no empty last line.
pub open spec fn lines_from(s: Seq<char>, start: int) -> Seq<Seq<char>>
    decreases s.len() - start,
{
    if start < 0 || start >= s.len() {
        seq![]
    } else {
        let n = next_newline(s, start);
        if n < start {
            seq![strip_cr(s.subrange(start, s.len() as int))]
        } else {
            proof {
                lemma_next_newline(s, start);
            }
            seq![strip_cr(s.subrange(start, n))] + lines_from(s, n + 1)
        }
    }
}

/// Lines joined with `\n`.
pub open spec fn joined(lines: Seq<Seq<char>>) -> Seq<char>
    decreases lines.len(),
{
    if lines.len() == 0 {
        seq![]
    } else if lines.len() == 1 {
        lines[0]
    } else {
        joined(lines.drop_last()) + seq!['\n'] + lines.last()
    }
}

/// The excerpt of a file for a 1-based inclusive line range: the lines from
/// `start_line` to `end_line` (or the last line) joined with `\n`; none where
/// the range starts before line 1 or after the last line.
pub open spec fn snapshot_of(content: Seq<char>, range: LineRange) -> Option<Seq<char>> {
    let lines = lines_from(content, 0);
    if range.start_line == 0 || range.start_line > lines.len() {
        None
    } else {
        let end = if range.end_line < range.start_line {
            range.start_line - 1
        } else if range.end_line > lines.len() {
            lines.len() as int
        } else {
            range.end_line as int
        };
        Some(joined(lines.subrange(range.start_line - 1, end)))
    }
}

/// The character sequences of a list of lines.
pub open spec fn line_views(v: Seq<Vec<char>>) -> Seq<Seq<char>> {
    v.map_values(|l: Vec<char>| l@)
}

/// The lines of a text, as `str::lines` gives them.
pub fn split_lines(chars: &Vec<char>) -> (lines: Vec<Vec<char>>)
    ensures
        line_views(lines@) == lines_from(chars@, 0),
{
    let n = chars.len();
    let mut lines: Vec<Vec<char>> = Vec::new();
    let mut start: usize = 0;
    assert(line_views(lines@) + lines_from(chars@, 0) =~= lines_from(chars@, 0));
    while start < n
        invariant
            n == chars@.len(),
            start <= n,
            lines_from(chars@, 0) == line_views(lines@) + lines_from(chars@, start as int),
        decreases n - start,
    {
        let mut j: usize = start;
        while j < n && chars[j] != '\n'
            invariant
                start <= j <= n,
                n == chars@.len(),
                forall|k: int| start <= k < j ==> chars@[k] != '\n',
                next_newline(chars@, start as int) == next_newline(chars@, j as int),
            decreases n - j,
        {
            j = j + 1;
        }
        let mut line: Vec<char> = Vec::new();
        let mut k: usize = start;
        while k < j
            invariant
                start <= k <= j <= n,
                n == chars@.len(),
                line@ == chars@.subrange(start as int, k as int),
            decreases j - k,
        {
            line.push(chars[k]);
            assert(line@ =~= chars@.subrange(start as int, k + 1));
            k = k + 1;
        }
        if line.len() > 0 && line[line.len() - 1] == '\r' {
            line.pop();
        }
        let ghost before = line_views(lines@);
        proof {
            lemma_next_newline(chars@, start as int);
        }
        lines.push(line);
        assert(line_views(lines@) =~= before.push(strip_cr(chars@.subrange(start as int, j as int))));
        if j < n {
            assert(next_newline(chars@, start as int) == j);
            start = j + 1;
        } else {
            assert(next_newline(chars@, start as int) == -1);
            assert(lines_from(chars@, n as int) =~= Seq::<Seq<char>>::empty());
            start = n;
        }
        assert(lines_from(chars@, 0) =~= line_views(lines@) + lines_from(chars@, start as int));
    }
    assert(lines_from(chars@, start as int) =~= Seq::<Seq<char>>::empty());
    assert(line_views(lines@) + lines_from(chars@, start as int) =~= line_views(lines@));
    lines
}

/// The excerpt of a text for a line range: see `snapshot_of`.
pub fn content_snapshot(content: &str, line_range: &LineRange) -> (r: Option<String>)
    ensures
        match snapshot_of(content@, *line_range) {
            Some(t) => r matches Some(s) && s@ == t,
            None => r is None,
        },
{
    let chars = crate::text::chars_of(content);
    let lines = split_lines(&chars);
    let ghost lv = line_views(lines@);
    let count = lines.len();
    if line_range.start_line == 0 || line_range.start_line > count {
        return None;
    }
    let first = line_range.start_line - 1;
    let end = if line_range.end_line < line_range.start_line {
        first
    } else if line_range.end_line > count {
        count
    } else {
        line_range.end_line
    };
    let mut out = String::new();
    let mut i: usize = first;
    while i < end
        invariant
            first <= i <= end <= count,
            count == lines@.len(),
            lv == line_views(lines@),
            out@ == joined(lv.subrange(first as int, i as int)),
        decreases end - i,
    {
        if i > first {
            crate::text::push_char(&mut out, '\n');
        }
        let line = &lines[i];
        let mut k: usize = 0;
        let ghost base = out@;
        while k < line.len()
            invariant
                k <= line@.len(),
                out@ == base + line@.subrange(0, k as int),
            decreases line@.len() - k,
        {
            crate::text::push_char(&mut out, line[k]);
            assert(out@ =~= base + line@.subrange(0, k + 1));
            k = k + 1;
        }
        proof {
            assert(line@.subrange(0, k as int) =~= line@);
            let sub = lv.subrange(first as int, i + 1);
            assert(sub.drop_last() =~= lv.subrange(first as int, i as int));
            assert(sub.last() == line@);
            if i == first {
                assert(sub.len() == 1);
                assert(out@ =~= joined(sub));
            } else {
                assert(out@ =~= joined(sub));
            }
        }
        i = i + 1;
    }
    Some(out)
}

/// A source of diffs: changed files, their statistics and their contents at
/// a Git state. Errors are messages.
pub trait DiffProvider {
    /// The files changed by a query, with how they changed.
    fn get_changed_files(&self, query: &DiffQuery) -> Result<Vec<(String, FileStatus)>, String>;

    /// The line statistics of a changed file.
    fn get_file_stats(&self, file_path: &str, query: &DiffQuery) -> Result<FileStats, String>;

    /// What `get_source_code` gives for a file at a Git state: the file's
    /// content, or the message of the failure.
    spec fn source_of(&self, file_path: Seq<char>, git_ref: GitRefView) -> Result<Seq<char>, Seq<char>>;

    /// The content of a file at a Git state.
    fn get_source_code(&self, file_path: &str, git_ref: &GitRef) -> (r: Result<String, String>)
        ensures
            match r {
                Ok(s) => self.source_of(file_path@, git_ref@) == Ok::<Seq<char>, Seq<char>>(s@),
                Err(e) => self.source_of(file_path@, git_ref@) == Err::<Seq<char>, Seq<char>>(e@),
            },
    ;

    /// The fingerprint (see `file_hash`) of a file at a Git state: that of
    /// its content, or the message of the failure to read it.
    fn get_file_hash(&self, file_path: &str, git_ref: &GitRef) -> (r: Result<String, String>)
        ensures
            match self.source_of(file_path@, git_ref@) {
                Ok(c) => r matches Ok(h) && h@ == file_hash_text(encode_utf8(c)),
                Err(e) => r matches Err(m) && m@ == e,
            },
    {
        match self.get_source_code(file_path, git_ref) {
            Ok(content) => Ok(file_hash(content.as_str())),
            Err(e) => Err(e),
        }
    }

    /// The excerpt (see `content_snapshot`) of a file at a Git state: that
    /// of its content, or the message of the failure to read it.
    fn get_content_snapshot(&self, file_path: &str, git_ref: &GitRef, line_range: &LineRange) -> (r: Result<
        Option<String>,
        String,
    >)
        ensures
            match self.source_of(file_path@, git_ref@) {
                Ok(c) => r matches Ok(o) && match snapshot_of(c, *line_range) {
                    Some(t) => o matches Some(x) && x@ == t,
                    None => o is None,
                },
                Err(e) => r matches Err(m) && m@ == e,
            },
    {
        match self.get_source_code(file_path, git_ref) {
            Ok(content) => Ok(content_snapshot(content.as_str(), line_range)),
            Err(e) => Err(e),
        }
    }
}

} // verus!
