//! Instructions exported for coding agents, and imported back: the records
//! and the rules that build and read them. Turning them into JSON and back
//! is left to the caller.

use vstd::prelude::*;

use crate::review::git_ref::{DiffQuery, DiffQueryView, GitRef, GitRefView};
use crate::review::engine::ReviewEngine;
use crate::review::instruction::{
    all_notes, appended, Instruction, InstructionStatus, InstructionView, ReviewInstructions,
};
use crate::review::keyed::{find_key, lemma_find_key};
use crate::review::reviewable_diff_id::{
    reviewable_id_text, LineRange, ReviewableDiffId, ReviewableDiffIdView,
};
use crate::review::state::same_but_instructions;
use crate::review::text_order::same_text;
use crate::text::{chars_of, decimal_digits, from_text, push_char, push_text};

verus! {

/// Which instructions an export holds.
#[derive(Debug, Clone)]
pub enum ExportScope {
    /// The instructions of one file.
    SingleFile(String),
    /// The instructions of one chunk.
    SingleInstruction(ReviewableDiffId),
    /// All instructions.
    All,
}

/// The lines an exported instruction applies to.
#[derive(Debug, Clone, Copy, PartialEq, Eq, Structural)]
pub struct ExportedLineRange {
    pub start_line: usize,
    pub end_line: usize,
}

/// An instruction as exported.
#[derive(Debug, Clone)]
pub struct ExportedInstruction {
    pub file: String,
    pub query: String,
    pub line_range: ExportedLineRange,
    pub content: String,
    pub author: String,
    pub timestamp: String,
    pub status: String,
    pub file_content_hash: String,
    pub content_snapshot: Option<String>,
}

/// The mathematical value of an `ExportedInstruction`.
pub struct ExportedInstructionView {
    pub file: Seq<char>,
    pub query: Seq<char>,
    pub line_range: ExportedLineRange,
    pub content: Seq<char>,
    pub author: Seq<char>,
    pub timestamp: Seq<char>,
    pub status: Seq<char>,
    pub file_content_hash: Seq<char>,
    pub content_snapshot: Option<Seq<char>>,
}

impl View for ExportedInstruction {
    type V = ExportedInstructionView;

    open spec fn view(&self) -> ExportedInstructionView {
        ExportedInstructionView {
            file: self.file@,
            query: self.query@,
            line_range: self.line_range,
            content: self.content@,
            author: self.author@,
            timestamp: self.timestamp@,
            status: self.status@,
            file_content_hash: self.file_content_hash@,
            content_snapshot: match self.content_snapshot {
                Some(s) => Some(s@),
                None => None,
            },
        }
    }
}

/// What each field of an export means.
#[derive(Debug, Clone)]
pub struct ExportFieldDescriptions {
    pub file: String,
    pub query: String,
    pub line_range: String,
    pub content: String,
    pub author: String,
    pub timestamp: String,
    pub status: String,
    pub file_content_hash: String,
    pub content_snapshot: String,
}

/// What each form of query means.
#[derive(Debug, Clone)]
pub struct ExportQueryFormats {
    pub head_to_unstaged: String,
    pub commit_to_head: String,
    pub head_to_commit: String,
    pub commit_to_commit: String,
}

/// Git commands that read what an export refers to.
#[derive(Debug, Clone)]
pub struct ExportGitExamples {
    pub view_diff: String,
    pub view_historical_diff: String,
    pub get_file_at_head: String,
    pub get_file_at_commit: String,
}

/// The documentation carried by an export.
#[derive(Debug, Clone)]
pub struct ExportMetadata {
    pub format_version: String,
    pub description: String,
    pub field_descriptions: Option<ExportFieldDescriptions>,
    pub query_formats: Option<ExportQueryFormats>,
    pub git_usage_examples: Option<ExportGitExamples>,
}

/// An export: documentation and instructions.
#[derive(Debug, Clone)]
pub struct ExportedInstructions {
    pub meta: ExportMetadata,
    pub instructions: Vec<ExportedInstruction>,
}

/// What an import did.
#[derive(Debug, Clone)]
pub struct ImportSummary {
    pub total_imported: usize,
    pub active_count: usize,
    pub stale_count: usize,
    pub errors: Vec<String>,
}

/// The text before the first `:`, or all of it.
pub open spec fn before_colon(s: Seq<char>) -> Seq<char>
    decreases s.len(),
{
    if s.len() == 0 || s[0] == ':' {
        seq![]
    } else {
        seq![s[0]] + before_colon(s.drop_first())
    }
}

/// The query of an exported chunk: the part of its identifier before the
/// first `:`, with `working` written as `HEAD..unstaged`.
pub open spec fn export_query(id: ReviewableDiffIdView) -> Seq<char> {
    let q = before_colon(reviewable_id_text(id));
    if q == "working"@ {
        "HEAD..unstaged"@
    } else {
        q
    }
}

/// The name of an instruction status.
pub open spec fn status_name(st: InstructionStatus) -> Seq<char> {
    match st {
        InstructionStatus::Active => "active"@,
        InstructionStatus::Addressed => "addressed"@,
    }
}

/// How a note of a chunk is exported.
pub open spec fn exported(id: ReviewableDiffIdView, note: InstructionView) -> ExportedInstructionView {
    ExportedInstructionView {
        file: id.file_path,
        query: export_query(id),
        line_range: ExportedLineRange {
            start_line: id.line_range.start_line,
            end_line: id.line_range.end_line,
        },
        content: note.content,
        author: note.author,
        timestamp: note.timestamp,
        status: status_name(note.status),
        file_content_hash: seq![],
        content_snapshot: None,
    }
}

/// The value of an export scope.
pub enum ExportScopeView {
    SingleFile(Seq<char>),
    SingleInstruction(ReviewableDiffIdView),
    All,
}

impl View for ExportScope {
    type V = ExportScopeView;

    open spec fn view(&self) -> ExportScopeView {
        match self {
            ExportScope::SingleFile(f) => ExportScopeView::SingleFile(f@),
            ExportScope::SingleInstruction(id) => ExportScopeView::SingleInstruction(id@),
            ExportScope::All => ExportScopeView::All,
        }
    }
}

/// Whether a chunk's notes are in the scope.
pub open spec fn in_scope(scope: ExportScopeView, id: ReviewableDiffIdView) -> bool {
    match scope {
        ExportScopeView::SingleFile(f) => id.file_path == f,
        ExportScopeView::SingleInstruction(wanted) => id == wanted,
        ExportScopeView::All => true,
    }
}

/// The exported notes of the entries in scope, entry by entry.
pub open spec fn exported_notes(
    entries: Seq<(ReviewableDiffIdView, Seq<InstructionView>)>,
    scope: ExportScopeView,
) -> Seq<ExportedInstructionView>
    decreases entries.len(),
{
    if entries.len() == 0 {
        seq![]
    } else {
        let e = entries.last();
        exported_notes(entries.drop_last(), scope) + if in_scope(scope, e.0) {
            e.1.map_values(|n: InstructionView| exported(e.0, n))
        } else {
            seq![]
        }
    }
}

/// The values of a list of exported instructions.
pub open spec fn exported_view(v: Seq<ExportedInstruction>) -> Seq<ExportedInstructionView> {
    v.map_values(|x: ExportedInstruction| x@)
}

/// The text of `s` before its first `:`.
fn text_before_colon(s: &str) -> (r: String)
    ensures
        r@ == before_colon(s@),
{
    let cs = chars_of(s);
    let mut out = String::new();
    let mut i: usize = 0;
    assert(cs@.skip(0) =~= cs@);
    while i < cs.len() && cs[i] != ':'
        invariant
            i <= cs@.len(),
            cs@ == s@,
            out@ + before_colon(cs@.skip(i as int)) == before_colon(s@),
        decreases cs@.len() - i,
    {
        assert(cs@.skip(i as int).drop_first() =~= cs@.skip(i + 1));
        assert(cs@.skip(i as int)[0] == cs@[i as int]);
        push_char(&mut out, cs[i]);
        assert(out@ + before_colon(cs@.skip(i + 1)) =~= before_colon(s@));
        i = i + 1;
    }
    proof {
        if i < cs@.len() {
            assert(cs@.skip(i as int)[0] == ':');
        } else {
            assert(cs@.skip(i as int).len() == 0);
        }
    }
    assert(out@ =~= before_colon(s@));
    out
}

/// The query written into the export of a chunk.
fn query_for_export(id: &ReviewableDiffId) -> (q: String)
    ensures
        q@ == export_query(id@),
{
    let full = id.to_string();
    let part = text_before_colon(full.as_str());
    if same_text(part.as_str(), "working") {
        from_text("HEAD..unstaged")
    } else {
        part
    }
}

/// How a note of a chunk is exported.
fn export_note(id: &ReviewableDiffId, note: &Instruction) -> (x: ExportedInstruction)
    ensures
        x@ == exported(id@, note@),
{
    let status = match note.status {
        InstructionStatus::Active => from_text("active"),
        InstructionStatus::Addressed => from_text("addressed"),
    };
    ExportedInstruction {
        file: id.file_path.clone(),
        query: query_for_export(id),
        line_range: ExportedLineRange {
            start_line: id.line_range.start_line,
            end_line: id.line_range.end_line,
        },
        content: note.content.clone(),
        author: note.author.clone(),
        timestamp: note.timestamp.clone(),
        status,
        file_content_hash: String::new(),
        content_snapshot: None,
    }
}

/// Whether a chunk's notes are in the scope.
fn scope_holds(scope: &ExportScope, id: &ReviewableDiffId) -> (b: bool)
    ensures
        b == in_scope(scope@, id@),
{
    match scope {
        ExportScope::SingleFile(f) => id.file_path == *f,
        ExportScope::SingleInstruction(wanted) => id.same(wanted),
        ExportScope::All => true,
    }
}

/// The documentation that every export carries: format version 1.1, a
/// description, and descriptions of the fields, queries and Git commands.
pub open spec fn standard_metadata(m: ExportMetadata) -> bool {
    &&& m.format_version@ == "1.1"@
    &&& m.description@ == "DiffViz instruction export for coding agents"@
    &&& m.field_descriptions matches Some(d) && d.file@ == "Relative path to the file from repository root"@
            && d.query@
            == "Git diff query to retrieve file content. Format: 'from_ref..to_ref'. Use with: git diff <query> <file>"@
            && d.line_range@ == "1-based line numbers where instruction applies (inclusive range)"@
            && d.content@ == "The instruction text for the coding agent to follow"@
            && d.author@ == "Username/identifier of instruction author"@
            && d.timestamp@ == "When instruction was created/last modified (UTC format)"@
            && d.status@
            == "Instruction validity: 'active' (file unchanged), 'stale' (file changed), 'addressed' (completed)"@
            && d.file_content_hash@
            == "SHA256 hash of file content at time of instruction creation, used for validity verification"@
            && d.content_snapshot@ == "Code lines from instruction range for visual reference (optional)"@
    &&& m.query_formats matches Some(q) && q.head_to_unstaged@ == "Uncommitted changes in working directory"@
            && q.commit_to_head@ == "Changes from specific commit to current HEAD"@
            && q.head_to_commit@ == "Changes from HEAD to specific commit"@
            && q.commit_to_commit@ == "Changes between two commits"@
    &&& m.git_usage_examples matches Some(g) && g.view_diff@ == "git diff HEAD..unstaged src/main.rs"@
            && g.view_historical_diff@ == "git diff abc123d..HEAD src/main.rs"@
            && g.get_file_at_head@ == "git show HEAD:src/main.rs"@
            && g.get_file_at_commit@ == "git show abc123d:src/main.rs"@
}

/// The documentation that every export carries (format version 1.1).
pub fn export_metadata() -> (m: ExportMetadata)
    ensures
        standard_metadata(m),
{
    ExportMetadata {
        format_version: from_text("1.1"),
        description: from_text("DiffViz instruction export for coding agents"),
        field_descriptions: Some(
            ExportFieldDescriptions {
                file: from_text("Relative path to the file from repository root"),
                query: from_text(
                    "Git diff query to retrieve file content. Format: 'from_ref..to_ref'. Use with: git diff <query> <file>",
                ),
                line_range: from_text(
                    "1-based line numbers where instruction applies (inclusive range)",
                ),
                content: from_text("The instruction text for the coding agent to follow"),
                author: from_text("Username/identifier of instruction author"),
                timestamp: from_text("When instruction was created/last modified (UTC format)"),
                status: from_text(
                    "Instruction validity: 'active' (file unchanged), 'stale' (file changed), 'addressed' (completed)",
                ),
                file_content_hash: from_text(
                    "SHA256 hash of file content at time of instruction creation, used for validity verification",
                ),
                content_snapshot: from_text(
                    "Code lines from instruction range for visual reference (optional)",
                ),
            },
        ),
        query_formats: Some(
            ExportQueryFormats {
                head_to_unstaged: from_text("Uncommitted changes in working directory"),
                commit_to_head: from_text("Changes from specific commit to current HEAD"),
                head_to_commit: from_text("Changes from HEAD to specific commit"),
                commit_to_commit: from_text("Changes between two commits"),
            },
        ),
        git_usage_examples: Some(
            ExportGitExamples {
                view_diff: from_text("git diff HEAD..unstaged src/main.rs"),
                view_historical_diff: from_text("git diff abc123d..HEAD src/main.rs"),
                get_file_at_head: from_text("git show HEAD:src/main.rs"),
                get_file_at_commit: from_text("git show abc123d:src/main.rs"),
            },
        ),
    }
}

/// The position of the first `..` in `s` at or after `i`.
pub open spec fn dots_at(s: Seq<char>, i: int) -> Option<int>
    decreases s.len() - i,
{
    if i < 0 || i + 1 >= s.len() {
        None
    } else if s[i] == '.' && s[i + 1] == '.' {
        Some(i)
    } else {
        dots_at(s, i + 1)
    }
}

/// The query an exported query names: `HEAD..unstaged` as it is, otherwise
/// the commits before and after the first `..`; `None` without `..`.
pub open spec fn parsed_query(q: Seq<char>) -> Option<DiffQueryView> {
    if q == "HEAD..unstaged"@ {
        Some(DiffQueryView { from: GitRefView::Head, to: GitRefView::Unstaged })
    } else {
        match dots_at(q, 0) {
            Some(p) => Some(
                DiffQueryView {
                    from: GitRefView::Commit(q.take(p)),
                    to: GitRefView::Commit(q.skip(p + 2)),
                },
            ),
            None => None,
        }
    }
}

/// The text of characters `v[a..b]`.
fn text_of(v: &Vec<char>, a: usize, b: usize) -> (s: String)
    requires
        a <= b <= v@.len(),
    ensures
        s@ == v@.subrange(a as int, b as int),
{
    let mut s = String::new();
    let mut i = a;
    while i < b
        invariant
            a <= i <= b,
            b <= v@.len(),
            s@ == v@.subrange(a as int, i as int),
        decreases b - i,
    {
        push_char(&mut s, v[i]);
        assert(s@ =~= v@.subrange(a as int, i + 1));
        i = i + 1;
    }
    s
}

/// Reads the query of an exported instruction.
fn parse_diff_query_from_string(query: &str) -> (r: Option<DiffQuery>)
    ensures
        match r {
            Some(q) => parsed_query(query@) == Some(q@),
            None => parsed_query(query@) is None,
        },
{
    if same_text(query, "HEAD..unstaged") {
        return Some(DiffQuery::head_to_unstaged());
    }
    let cs = chars_of(query);
    let mut i: usize = 0;
    while i < cs.len()
        invariant
            cs@ == query@,
            i <= cs@.len(),
            query@ != "HEAD..unstaged"@,
            dots_at(cs@, 0) == dots_at(cs@, i as int),
        decreases cs@.len() - i,
    {
        if i + 1 < cs.len() && cs[i] == '.' && cs[i + 1] == '.' {
            let from = text_of(&cs, 0, i);
            let to = text_of(&cs, i + 2, cs.len());
            assert(cs@.subrange(0, i as int) =~= cs@.take(i as int));
            assert(cs@.subrange(i + 2, cs@.len() as int) =~= cs@.skip(i + 2));
            assert(dots_at(cs@, i as int) == Some(i as int));
            return Some(DiffQuery::new(GitRef::commit(from), GitRef::commit(to)));
        }
        i = i + 1;
    }
    None
}

/// The chunk an exported instruction is for, with columns 0.
pub open spec fn exported_id(x: ExportedInstructionView, q: DiffQueryView) -> ReviewableDiffIdView {
    ReviewableDiffIdView {
        query: q,
        file_path: x.file,
        line_range: LineRange {
            start_line: x.line_range.start_line,
            end_line: x.line_range.end_line,
            start_column: 0,
            end_column: 0,
        },
    }
}

/// Whether entry for chunk `id` has a first note.
pub open spec fn has_note(m: ReviewInstructions, id: ReviewableDiffIdView) -> bool {
    match find_key(m.instructions@, id, 0) {
        Some(p) => m.entries()[p].1.len() > 0,
        None => false,
    }
}

/// The message for an instruction without content.
pub open spec fn missing_content_text() -> Seq<char> {
    "Skipping instruction with missing content"@
}

/// The message for an instruction whose query cannot be read.
pub open spec fn bad_id_text() -> Seq<char> {
    "Failed to create ReviewableDiffId: Review operation failed"@
}

/// The message for an instruction whose chunk has a note already.
pub open spec fn duplicate_text(id: ReviewableDiffIdView) -> Seq<char> {
    "Skipping duplicate instruction for "@ + reviewable_id_text(id)
}

impl ReviewEngine {
    /// The export of the instructions in `scope`: each note of each chunk
    /// in scope, entry by entry.
    pub fn export_instructions(&self, scope: &ExportScope) -> (x: ExportedInstructions)
        ensures
            exported_view(x.instructions@) == exported_notes(
                self.state.instructions.entries(),
                scope@,
            ),
            standard_metadata(x.meta),
    {
        let ghost es = self.state.instructions.entries();
        let mut out: Vec<ExportedInstruction> = Vec::new();
        let mut i: usize = 0;
        while i < self.state.instructions.instructions.len()
            invariant
                es == self.state.instructions.entries(),
                i <= es.len(),
                exported_view(out@) == exported_notes(es.take(i as int), scope@),
            decreases es.len() - i,
        {
            let entry = &self.state.instructions.instructions[i];
            let ghost before = exported_view(out@);
            assert(es[i as int] == (entry.0@, crate::review::instruction::notes_view(entry.1@)));
            assert(es.take(i + 1).drop_last() =~= es.take(i as int));
            assert(es.take(i + 1).last() == es[i as int]);
            if scope_holds(scope, &entry.0) {
                let mut j: usize = 0;
                while j < entry.1.len()
                    invariant
                        j <= entry.1@.len(),
                        exported_view(out@) == before + crate::review::instruction::notes_view(
                            entry.1@,
                        ).take(j as int).map_values(|n: InstructionView| exported(entry.0@, n)),
                    decreases entry.1@.len() - j,
                {
                    let ghost o0 = out@;
                    let x = export_note(&entry.0, &entry.1[j]);
                    out.push(x);
                    proof {
                        let nv = crate::review::instruction::notes_view(entry.1@);
                        assert(nv[j as int] == entry.1@[j as int]@);
                        assert(exported_view(out@) =~= exported_view(o0).push(x@));
                        assert(nv.take(j + 1).map_values(|n: InstructionView| exported(entry.0@, n))
                            =~= nv.take(j as int).map_values(|n: InstructionView| exported(entry.0@, n)).push(
                            exported(entry.0@, nv[j as int]),
                        ));
                    }
                    j = j + 1;
                }
                assert(crate::review::instruction::notes_view(entry.1@).take(j as int)
                    =~= crate::review::instruction::notes_view(entry.1@));
            } else {
                assert(exported_view(out@) =~= before + Seq::<ExportedInstructionView>::empty());
            }
            i = i + 1;
        }
        assert(es.take(i as int) =~= es);
        ExportedInstructions { meta: export_metadata(), instructions: out }
    }

    /// Imports one exported instruction, under the identifier
    /// `chunk:stamp`: refused without content, with an unreadable query,
    /// or where the chunk has a note already; otherwise added as active.
    pub fn import_one(&mut self, item: &ExportedInstruction, stamp: &str) -> (r: Result<(), String>)
        requires
            old(self).wf(),
        ensures
            final(self).wf(),
            same_but_instructions(final(self).state, old(self).state),
            final(self).renderable_cache@ == old(self).renderable_cache@,
            item.content@.len() == 0 ==> (r matches Err(m) && m@ == missing_content_text())
                && final(self).state == old(self).state,
            item.content@.len() > 0 && parsed_query(item.query@) is None ==> (r matches Err(m)
                && m@ == bad_id_text()) && final(self).state == old(self).state,
            item.content@.len() > 0 && parsed_query(item.query@) is Some ==> ({
                let id = exported_id(item@, parsed_query(item.query@)->0);
                if has_note(old(self).state.instructions, id) {
                    (r matches Err(m) && m@ == duplicate_text(id)) && final(self).state == old(
                        self,
                    ).state
                } else {
                    r is Ok && final(self).state.instructions.entries() == old(
                        self,
                    ).state.instructions.added(
                        id,
                        InstructionView {
                            id: reviewable_id_text(id) + ":"@ + stamp@,
                            author: item.author@,
                            timestamp: item.timestamp@,
                            content: item.content@,
                            status: InstructionStatus::Active,
                        },
                    )
                }
            }),
    {
        if item.content.as_str().unicode_len() == 0 {
            return Err(from_text("Skipping instruction with missing content"));
        }
        let query = match parse_diff_query_from_string(item.query.as_str()) {
            Some(q) => q,
            None => {
                return Err(from_text("Failed to create ReviewableDiffId: Review operation failed"));
            },
        };
        let line_range = LineRange {
            start_line: item.line_range.start_line,
            end_line: item.line_range.end_line,
            start_column: 0,
            end_column: 0,
        };
        let id = ReviewableDiffId::new(query, item.file.clone(), line_range);
        proof {
            lemma_find_key(self.state.instructions.instructions@, id@, 0);
        }
        if self.state.instructions.get_instructions_for_reviewable(&id).is_some() {
            let mut m = from_text("Skipping duplicate instruction for ");
            let t = id.to_string();
            push_text(&mut m, t.as_str());
            return Err(m);
        }
        let mut name = id.to_string();
        push_text(&mut name, ":");
        push_text(&mut name, stamp);
        let instruction = Instruction {
            id: name,
            author: item.author.clone(),
            timestamp: item.timestamp.clone(),
            content: item.content.clone(),
            status: InstructionStatus::Active,
        };
        self.state.instructions.add_instruction(id, instruction);
        Ok(())
    }
}

/// The entries of instruction lists, by chunk.
pub type NoteEntries = Seq<(ReviewableDiffIdView, Seq<InstructionView>)>;

/// The position of the first entry of `e` at or after `i` for chunk `k`.
pub open spec fn entry_pos(e: NoteEntries, k: ReviewableDiffIdView, i: int) -> Option<int>
    decreases e.len() - i,
{
    if i < 0 || i >= e.len() {
        None
    } else if e[i].0 == k {
        Some(i)
    } else {
        entry_pos(e, k, i + 1)
    }
}

/// Whether the entry of chunk `k` has a first note.
pub open spec fn entries_have_note(e: NoteEntries, k: ReviewableDiffIdView) -> bool {
    match entry_pos(e, k, 0) {
        Some(p) => e[p].1.len() > 0,
        None => false,
    }
}

/// The entries after adding note `iv` for chunk `k`: folded into the
/// chunk's first note, or its first note, or a new entry.
pub open spec fn entries_added(e: NoteEntries, k: ReviewableDiffIdView, iv: InstructionView) -> NoteEntries {
    match entry_pos(e, k, 0) {
        Some(p) => e.update(
            p,
            (
                e[p].0,
                if e[p].1.len() > 0 {
                    e[p].1.update(0, appended(e[p].1[0], iv.content, iv.author, iv.timestamp))
                } else {
                    seq![iv]
                },
            ),
        ),
        None => e.push((k, seq![iv])),
    }
}

/// The note that importing `x` for chunk `id` adds, with `stamp` in its
/// identifier.
pub open spec fn imported_note(x: ExportedInstructionView, id: ReviewableDiffIdView, stamp: Seq<char>) -> InstructionView {
    InstructionView {
        id: reviewable_id_text(id) + ":"@ + stamp,
        author: x.author,
        timestamp: x.timestamp,
        content: x.content,
        status: InstructionStatus::Active,
    }
}

/// Importing one exported instruction into the entries `e`: the entries
/// after it and the message of its refusal, if it is refused.
pub open spec fn import_step(e: NoteEntries, x: ExportedInstructionView, stamp: Seq<char>) -> (NoteEntries, Option<Seq<char>>) {
    if x.content.len() == 0 {
        (e, Some(missing_content_text()))
    } else {
        match parsed_query(x.query) {
            None => (e, Some(bad_id_text())),
            Some(q) => {
                let id = exported_id(x, q);
                if entries_have_note(e, id) {
                    (e, Some(duplicate_text(id)))
                } else {
                    (entries_added(e, id, imported_note(x, id, stamp)), None)
                }
            },
        }
    }
}

/// Importing the instructions `xs` one after the other, the `i`-th with
/// `stamps[i]`: the entries at the end and the messages of the refusals,
/// in order.
pub open spec fn import_run(e: NoteEntries, xs: Seq<ExportedInstructionView>, stamps: Seq<Seq<char>>) -> (NoteEntries, Seq<Seq<char>>)
    decreases xs.len(),
{
    if xs.len() == 0 {
        (e, seq![])
    } else {
        let (e1, errs) = import_run(e, xs.drop_last(), stamps.drop_last());
        let (e2, err) = import_step(e1, xs.last(), stamps.last());
        (
            e2,
            match err {
                Some(m) => errs.push(m),
                None => errs,
            },
        )
    }
}

/// The texts of a list of messages.
pub open spec fn texts(v: Seq<String>) -> Seq<Seq<char>> {
    v.map_values(|m: String| m@)
}

/// Finding a key in an instruction list finds its entry.
proof fn lemma_find_entry(m: ReviewInstructions, k: ReviewableDiffIdView, i: int)
    requires
        0 <= i,
    ensures
        find_key(m.instructions@, k, i) == entry_pos(m.entries(), k, i),
    decreases m.instructions@.len() - i,
{
    if i < m.instructions@.len() {
        assert(m.entries()[i].0 == m.instructions@[i].0@);
        lemma_find_entry(m, k, i + 1);
    }
}

/// The list's own notions of a first note and of adding are those of its
/// entries.
proof fn lemma_entries_model(m: ReviewInstructions, k: ReviewableDiffIdView, iv: InstructionView)
    ensures
        has_note(m, k) == entries_have_note(m.entries(), k),
        m.added(k, iv) == entries_added(m.entries(), k, iv),
{
    lemma_find_entry(m, k, 0);
}

/// The time in milliseconds since the Unix epoch, as decimal text.
///
/// Calls `chrono::Utc::now` and `timestamp_millis`: the count is not
/// negative (`Utc::now` stops on a clock before the epoch), so its text is
/// decimal digits. Which count it is depends on the clock and is not
/// claimed.
#[verifier::external_body]
fn utc_millis_text() -> (s: String)
    ensures
        decimal_digits(s@),
{
    chrono::Utc::now().timestamp_millis().to_string()
}

impl ReviewEngine {
    /// Imports exported instructions one by one, each under its chunk's
    /// identifier and the current time in milliseconds; every refusal is
    /// listed in the summary's errors, in order.
    pub fn import_instructions(&mut self, exported: &ExportedInstructions) -> (s: ImportSummary)
        requires
            old(self).wf(),
        ensures
            final(self).wf(),
            same_but_instructions(final(self).state, old(self).state),
            final(self).renderable_cache@ == old(self).renderable_cache@,
            exists|stamps: Seq<Seq<char>>|
                stamps.len() == exported.instructions@.len() && (forall|j: int|
                    0 <= j < stamps.len() ==> decimal_digits(#[trigger] stamps[j])) && #[trigger] import_run(
                    old(self).state.instructions.entries(),
                    exported_view(exported.instructions@),
                    stamps,
                ) == (final(self).state.instructions.entries(), texts(s.errors@)),
            s.total_imported == s.active_count,
            s.stale_count == 0,
            s.total_imported + s.errors@.len() == exported.instructions@.len(),
    {
        let mut summary = ImportSummary {
            total_imported: 0,
            active_count: 0,
            stale_count: 0,
            errors: Vec::new(),
        };
        let ghost start = self.state.instructions.entries();
        let ghost xs = exported_view(exported.instructions@);
        let ghost mut stamps: Seq<Seq<char>> = seq![];
        let mut i: usize = 0;
        while i < exported.instructions.len()
            invariant
                self.wf(),
                same_but_instructions(self.state, old(self).state),
                self.renderable_cache@ == old(self).renderable_cache@,
                start == old(self).state.instructions.entries(),
                xs == exported_view(exported.instructions@),
                i <= exported.instructions@.len(),
                stamps.len() == i,
                forall|j: int| 0 <= j < stamps.len() ==> decimal_digits(#[trigger] stamps[j]),
                import_run(start, xs.take(i as int), stamps) == (self.state.instructions.entries(), texts(summary.errors@)),
                summary.total_imported == summary.active_count,
                summary.stale_count == 0,
                summary.total_imported + summary.errors@.len() == i,
            decreases exported.instructions@.len() - i,
        {
            let stamp = utc_millis_text();
            let ghost before = self.state.instructions;
            let ghost before_errors = texts(summary.errors@);
            let item = &exported.instructions[i];
            proof {
                assert(xs.take(i + 1).drop_last() =~= xs.take(i as int));
                assert(xs.take(i + 1).last() == item@);
                assert(stamps.push(stamp@).drop_last() =~= stamps);
                match parsed_query(item@.query) {
                    Some(q) => {
                        let id = exported_id(item@, q);
                        lemma_entries_model(before, id, imported_note(item@, id, stamp@));
                    },
                    None => {},
                }
            }
            match self.import_one(item, stamp.as_str()) {
                Ok(()) => {
                    summary.total_imported = summary.total_imported + 1;
                    summary.active_count = summary.active_count + 1;
                },
                Err(m) => {
                    summary.errors.push(m);
                    assert(texts(summary.errors@) =~= before_errors.push(m@));
                },
            }
            proof {
                stamps = stamps.push(stamp@);
            }
            i = i + 1;
        }
        assert(xs.take(i as int) =~= xs);
        summary
    }
}

} // verus!
