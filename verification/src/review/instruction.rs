//! Instructions: notes for changes that those reviewing attach to chunks or to
//! decisions. Each key holds a single shared note that later contributions
//! are folded into.

use vstd::prelude::*;

use crate::review::keyed::{find_key, lemma_find_key, position_of, ReviewKey};
use crate::review::reviewable_diff_id::ReviewableDiffId;
use crate::text::{push_char, push_text};

verus! {

/// Whether an instruction still needs handling.
#[derive(Debug, Clone, Copy, PartialEq, Eq, Structural)]
pub enum InstructionStatus {
    /// The instruction points to code that still needs the change.
    Active,
    /// The instruction was marked as handled.
    Addressed,
}

impl Default for InstructionStatus {
    fn default() -> (s: Self)
        ensures
            s == InstructionStatus::Active,
    {
        InstructionStatus::Active
    }
}

/// A note asking for a change.
#[derive(Debug, Clone, PartialEq, Eq)]
pub struct Instruction {
    pub id: String,
    pub author: String,
    pub timestamp: String,
    pub content: String,
    pub status: InstructionStatus,
}

/// The mathematical value of an `Instruction`.
pub struct InstructionView {
    pub id: Seq<char>,
    pub author: Seq<char>,
    pub timestamp: Seq<char>,
    pub content: Seq<char>,
    pub status: InstructionStatus,
}

impl View for Instruction {
    type V = InstructionView;

    open spec fn view(&self) -> InstructionView {
        InstructionView {
            id: self.id@,
            author: self.author@,
            timestamp: self.timestamp@,
            content: self.content@,
            status: self.status,
        }
    }
}

/// A `", "` separator starts at position `i` of `s`.
pub open spec fn sep_at(s: Seq<char>, i: int) -> bool {
    0 <= i && i + 1 < s.len() && s[i] == ',' && s[i + 1] == ' '
}

/// The first separator at or after `i`, or -1.
pub open spec fn first_sep(s: Seq<char>, i: int) -> int
    decreases s.len() - i,
{
    if i < 0 || i + 1 >= s.len() {
        -1
    } else if sep_at(s, i) {
        i
    } else {
        first_sep(s, i + 1)
    }
}

/// Where a separator is found, it lies at or after the start of the search.
pub proof fn lemma_first_sep(s: Seq<char>, i: int)
    requires
        0 <= i,
    ensures
        first_sep(s, i) == -1 || (i <= first_sep(s, i) && sep_at(s, first_sep(s, i)) && forall|
            j: int,
        | i <= j < first_sep(s, i) ==> !sep_at(s, j)),
        first_sep(s, i) == -1 ==> forall|j: int| i <= j ==> !sep_at(s, j),
    decreases s.len() - i,
{
    if i + 1 < s.len() && !sep_at(s, i) {
        lemma_first_sep(s, i + 1);
    }
}

/// The parts of `s` from `start` on between `", "` separators.
pub open spec fn segments_from(s: Seq<char>, start: int) -> Seq<Seq<char>>
    decreases s.len() - start,
{
    if start < 0 || start > s.len() {
        seq![]
    } else {
        let i = first_sep(s, start);
        if i < start {
            seq![s.subrange(start, s.len() as int)]
        } else {
            proof {
                lemma_first_sep(s, start);
            }
            seq![s.subrange(start, i)] + segments_from(s, i + 2)
        }
    }
}

/// The authors named in a comma-separated author list.
pub open spec fn author_names(list: Seq<char>) -> Seq<Seq<char>> {
    segments_from(list, 0)
}

/// The note after folding in a contribution: the content on a new line, the
/// author added where not listed yet, the latest timestamp, and active again.
pub open spec fn appended(
    note: InstructionView,
    content: Seq<char>,
    author: Seq<char>,
    timestamp: Seq<char>,
) -> InstructionView {
    InstructionView {
        id: note.id,
        author: if author_names(note.author).contains(author) {
            note.author
        } else {
            note.author + ", "@ + author
        },
        timestamp: timestamp,
        content: note.content.push('\n') + content,
        status: InstructionStatus::Active,
    }
}

/// Whether the characters of `s` in `from..to` are those of `t`.
fn part_equals(s: &str, from: usize, to: usize, t: &str) -> (b: bool)
    requires
        from <= to <= s@.len(),
    ensures
        b == (s@.subrange(from as int, to as int) == t@),
{
    let n = t.unicode_len();
    if to - from != n {
        proof {
            if s@.subrange(from as int, to as int) == t@ {
                assert(s@.subrange(from as int, to as int).len() == t@.len());
            }
        }
        return false;
    }
    let mut k: usize = 0;
    while k < n
        invariant
            n == t@.len(),
            to - from == n,
            to <= s@.len(),
            k <= n,
            forall|j: int| 0 <= j < k ==> s@[from + j] == t@[j],
        decreases n - k,
    {
        if s.get_char(from + k) != t.get_char(k) {
            proof {
                assert(s@.subrange(from as int, to as int)[k as int] != t@[k as int]);
            }
            return false;
        }
        k = k + 1;
    }
    assert(s@.subrange(from as int, to as int) =~= t@);
    true
}

/// Whether `name` is one of the parts of `list` from `start` on.
fn listed_from(list: &str, start: usize, name: &str) -> (b: bool)
    requires
        start <= list@.len(),
    ensures
        b == segments_from(list@, start as int).contains(name@),
    decreases list@.len() - start,
{
    let n = list.unicode_len();
    let mut i: usize = start;
    let mut found = false;
    proof {
        lemma_first_sep(list@, start as int);
    }
    while n > 0 && i < n - 1
        invariant_except_break
            !found,
        invariant
            n == list@.len(),
            start <= i <= n,
            forall|j: int| start <= j < i ==> !sep_at(list@, j),
            first_sep(list@, start as int) == first_sep(list@, i as int),
        ensures
            found ==> i + 1 < n && sep_at(list@, i as int),
            !found ==> first_sep(list@, start as int) == -1,
        decreases n - i,
    {
        if list.get_char(i) == ',' && list.get_char(i + 1) == ' ' {
            found = true;
            break;
        }
        i = i + 1;
    }
    let ghost segs = segments_from(list@, start as int);
    if found {
        proof {
            lemma_first_sep(list@, start as int);
            assert(first_sep(list@, start as int) == i);
        }
        let here = part_equals(list, start, i, name);
        let rest = listed_from(list, i + 2, name);
        proof {
            let first = seq![list@.subrange(start as int, i as int)];
            assert(segs == first + segments_from(list@, i + 2));
            if here {
                assert(segs[0] == name@);
            }
            if rest {
                let rs = segments_from(list@, i + 2);
                let k = choose|k: int| 0 <= k < rs.len() && #[trigger] rs[k] == name@;
                assert(segs[k + 1] == name@);
            }
            if segs.contains(name@) {
                let k = choose|k: int| 0 <= k < segs.len() && #[trigger] segs[k] == name@;
                if k > 0 {
                    assert(segments_from(list@, i + 2)[k - 1] == name@);
                }
            }
        }
        here || rest
    } else {
        let here = part_equals(list, start, n, name);
        proof {
            assert(segs == seq![list@.subrange(start as int, n as int)]);
            if here {
                assert(segs[0] == name@);
            }
        }
        here
    }
}

impl Instruction {
    /// Folds a contribution into this note: the content goes on a new line,
    /// a new contributor joins the comma-separated author list, the
    /// timestamp moves to the contribution's, and the note is active again.
    pub fn append(&mut self, content: &str, author: &str, timestamp: String)
        ensures
            final(self)@ == appended(old(self)@, content@, author@, timestamp@),
    {
        push_char(&mut self.content, '\n');
        push_text(&mut self.content, content);
        let listed = listed_from(self.author.as_str(), 0, author);
        if !listed {
            push_text(&mut self.author, ", ");
            push_text(&mut self.author, author);
        }
        self.timestamp = timestamp;
        self.status = InstructionStatus::Active;
    }
}

/// The values of a list of notes.
pub open spec fn notes_view(v: Seq<Instruction>) -> Seq<InstructionView> {
    v.map_values(|i: Instruction| i@)
}

/// The values of the notes that references point to.
pub open spec fn ref_views(s: Seq<&Instruction>) -> Seq<InstructionView> {
    s.map_values(|x: &Instruction| (*x)@)
}

/// The notes with status `st`, in order.
pub open spec fn with_status(notes: Seq<InstructionView>, st: InstructionStatus) -> Seq<InstructionView>
    decreases notes.len(),
{
    if notes.len() == 0 {
        seq![]
    } else if notes.last().status == st {
        with_status(notes.drop_last(), st).push(notes.last())
    } else {
        with_status(notes.drop_last(), st)
    }
}

/// All notes of all entries, entry by entry.
pub open spec fn all_notes<A>(s: Seq<(A, Seq<InstructionView>)>) -> Seq<InstructionView>
    decreases s.len(),
{
    if s.len() == 0 {
        seq![]
    } else {
        all_notes(s.drop_last()) + s.last().1
    }
}

/// The position of the first note with identifier `id` in `l`, from `j` on.
pub open spec fn note_index(l: Seq<InstructionView>, id: Seq<char>, j: int) -> Option<int>
    decreases l.len() - j,
{
    if j < 0 || j >= l.len() {
        None
    } else if l[j].id == id {
        Some(j)
    } else {
        note_index(l, id, j + 1)
    }
}

/// The first entry, from `i` on, holding a note with identifier `id`, and
/// the note's position in it.
pub open spec fn entry_with_note<A>(s: Seq<(A, Seq<InstructionView>)>, id: Seq<char>, i: int) -> Option<
    (int, int),
>
    decreases s.len() - i,
{
    if i < 0 || i >= s.len() {
        None
    } else {
        match note_index(s[i].1, id, 0) {
            Some(j) => Some((i, j)),
            None => entry_with_note(s, id, i + 1),
        }
    }
}

/// The number of notes of all entries.
pub open spec fn notes_count<A>(s: Seq<(A, Seq<InstructionView>)>) -> nat {
    all_notes(s).len()
}

/// Every entry holds at most one note.
pub open spec fn at_most_one_note<A>(s: Seq<(A, Seq<InstructionView>)>) -> bool {
    forall|i: int| 0 <= i < s.len() ==> (#[trigger] s[i]).1.len() <= 1
}

/// Replacing one entry changes the number of notes by the lengths of the
/// old and the new list.
pub proof fn lemma_notes_count_update<A>(s: Seq<(A, Seq<InstructionView>)>, p: int, e: (A, Seq<InstructionView>))
    requires
        0 <= p < s.len(),
    ensures
        notes_count(s.update(p, e)) + s[p].1.len() == notes_count(s) + e.1.len(),
    decreases s.len(),
{
    let u = s.update(p, e);
    if p == s.len() - 1 {
        assert(u.drop_last() =~= s.drop_last());
    } else {
        assert(u.drop_last() =~= s.drop_last().update(p, e));
        lemma_notes_count_update(s.drop_last(), p, e);
    }
}

/// Removing one entry takes its notes out of the count.
pub proof fn lemma_notes_count_remove<A>(s: Seq<(A, Seq<InstructionView>)>, p: int)
    requires
        0 <= p < s.len(),
    ensures
        notes_count(s.remove(p)) + s[p].1.len() == notes_count(s),
    decreases s.len(),
{
    if p == s.len() - 1 {
        assert(s.remove(p) =~= s.drop_last());
    } else {
        assert(s.remove(p).drop_last() =~= s.drop_last().remove(p));
        lemma_notes_count_remove(s.drop_last(), p);
    }
}

/// Adding one entry adds its notes to the count.
pub proof fn lemma_notes_count_push<A>(s: Seq<(A, Seq<InstructionView>)>, e: (A, Seq<InstructionView>))
    ensures
        notes_count(s.push(e)) == notes_count(s) + e.1.len(),
{
    assert(s.push(e).drop_last() =~= s);
}

/// Where `note_index` finds a note, it is there and has the identifier.
pub proof fn lemma_note_index(l: Seq<InstructionView>, id: Seq<char>, j: int)
    requires
        0 <= j,
    ensures
        note_index(l, id, j) matches Some(k) ==> j <= k < l.len() && l[k].id == id,
    decreases l.len() - j,
{
    if j < l.len() && l[j].id != id {
        lemma_note_index(l, id, j + 1);
    }
}

/// Where `entry_with_note` finds a note, it is there and has the identifier.
pub proof fn lemma_entry_with_note<A>(s: Seq<(A, Seq<InstructionView>)>, id: Seq<char>, i: int)
    requires
        0 <= i,
    ensures
        entry_with_note(s, id, i) matches Some((e, k)) ==> i <= e < s.len() && 0 <= k < s[e].1.len()
            && s[e].1[k].id == id && note_index(s[e].1, id, 0) == Some(k),
    decreases s.len() - i,
{
    if i < s.len() {
        lemma_note_index(s[i].1, id, 0);
        if note_index(s[i].1, id, 0) is None {
            lemma_entry_with_note(s, id, i + 1);
        }
    }
}

/// Instructions keyed by review items (chunks or decision numbers), one
/// shared note per key.
#[derive(Debug, Clone)]
pub struct InstructionMap<K: ReviewKey> {
    /// One entry per key, in the order the keys were first annotated.
    pub instructions: Vec<(K, Vec<Instruction>)>,
}

/// Instructions on chunks.
pub type ReviewInstructions = InstructionMap<ReviewableDiffId>;

/// Instructions on decisions, by number.
pub type DecisionInstructions = InstructionMap<u32>;

impl<K: ReviewKey> InstructionMap<K> {
    /// The keys and the values of their notes, entry by entry.
    pub open spec fn entries(&self) -> Seq<(K::V, Seq<InstructionView>)> {
        self.instructions@.map_values(|e: (K, Vec<Instruction>)| (e.0@, notes_view(e.1@)))
    }

    /// Each key has at most one entry.
    pub open spec fn wf(&self) -> bool {
        crate::review::keyed::distinct_keys(self.instructions@)
    }

    /// The entries after adding `iv` for key `k`: folded into the key's
    /// first note, or its first note, or a new entry.
    pub open spec fn added(&self, k: K::V, iv: InstructionView) -> Seq<(K::V, Seq<InstructionView>)> {
        let e = self.entries();
        match find_key(self.instructions@, k, 0) {
            Some(p) => e.update(
                p,
                (
                    e[p].0,
                    if e[p].1.len() > 0 {
                        e[p].1.update(0, appended(e[p].1[0], iv.content, iv.author, iv.timestamp))
                    } else {
                        seq![iv]
                    },
                ),
            ),
            None => e.push((k, seq![iv])),
        }
    }

    /// The entries after putting `iv` in place of key `k`'s first note, or
    /// as its first note, or in a new entry.
    pub open spec fn replaced(&self, k: K::V, iv: InstructionView) -> Seq<(K::V, Seq<InstructionView>)> {
        let e = self.entries();
        match find_key(self.instructions@, k, 0) {
            Some(p) => e.update(
                p,
                (
                    e[p].0,
                    if e[p].1.len() > 0 {
                        e[p].1.update(0, iv)
                    } else {
                        seq![iv]
                    },
                ),
            ),
            None => e.push((k, seq![iv])),
        }
    }

    /// No instructions.
    pub fn new() -> (m: Self)
        ensures
            m.wf(),
            m.entries().len() == 0,
    {
        InstructionMap { instructions: Vec::new() }
    }

    /// Adds an instruction for `key`: it becomes the key's note, or, where
    /// the key has a note already, is folded into it.
    pub fn add_instruction(&mut self, key: K, instruction: Instruction)
        requires
            old(self).wf(),
        ensures
            final(self).wf(),
            final(self).entries() == old(self).added(key@, instruction@),
            at_most_one_note(old(self).entries()) ==> at_most_one_note(final(self).entries()),
    {
        let ghost s0 = self.instructions@;
        proof {
            lemma_find_key(s0, key@, 0);
        }
        match position_of(&self.instructions, &key) {
            Some(p) => {
                assert(find_key(s0, key@, 0) == Some(p as int));
                if self.instructions[p].1.len() > 0 {
                    let entry = &mut self.instructions[p];
                    let notes = &mut entry.1;
                    let first = &mut notes[0];
                    first.append(
                        instruction.content.as_str(),
                        instruction.author.as_str(),
                        instruction.timestamp,
                    );
                } else {
                    let entry = &mut self.instructions[p];
                    entry.1.push(instruction);
                }
                proof {
                    let s = self.instructions@;
                    assert(s.len() == s0.len());
                    assert forall|i: int| 0 <= i < s.len() && i != p implies s[i] == s0[i] by {}
                    assert forall|i: int, j: int| 0 <= i < j < s.len() implies (#[trigger] s[i]).0@
                        != (#[trigger] s[j]).0@ by {
                        assert(s[i].0@ == s0[i].0@ && s[j].0@ == s0[j].0@);
                    }
                    assert(notes_view(s[p as int].1@) =~= (if notes_view(s0[p as int].1@).len()
                        > 0 {
                        notes_view(s0[p as int].1@).update(
                            0,
                            appended(
                                notes_view(s0[p as int].1@)[0],
                                instruction@.content,
                                instruction@.author,
                                instruction@.timestamp,
                            ),
                        )
                    } else {
                        seq![instruction@]
                    }));
                    assert(self.entries() =~= old(self).entries().update(
                        p as int,
                        (
                            old(self).entries()[p as int].0,
                            notes_view(s[p as int].1@),
                        ),
                    ));
                    assert(old(self).entries()[p as int].1 == notes_view(s0[p as int].1@));
                    if at_most_one_note(old(self).entries()) {
                        assert forall|i: int| 0 <= i < self.entries().len() implies (
                        #[trigger] self.entries()[i]).1.len() <= 1 by {
                            if i != p {
                                assert(self.entries()[i] == old(self).entries()[i]);
                            }
                        }
                    }
                }
            },
            None => {
                let ghost iv = instruction@;
                let mut notes: Vec<Instruction> = Vec::new();
                notes.push(instruction);
                self.instructions.push((key, notes));
                proof {
                    let s = self.instructions@;
                    assert forall|i: int, j: int| 0 <= i < j < s.len() implies (#[trigger] s[i]).0@
                        != (#[trigger] s[j]).0@ by {
                        if j == s0.len() {
                            assert(s[i] == s0[i]);
                        }
                    }
                    assert(notes_view(s[s0.len() as int].1@) =~= seq![iv]);
                    assert(self.entries() =~= old(self).entries().push((key@, seq![iv])));
                    if at_most_one_note(old(self).entries()) {
                        assert forall|i: int| 0 <= i < self.entries().len() implies (
                        #[trigger] self.entries()[i]).1.len() <= 1 by {
                            if i < s0.len() {
                                assert(self.entries()[i] == old(self).entries()[i]);
                            }
                        }
                    }
                }
            },
        }
    }

    /// Puts `instruction` in place of the first note of `key`, keeping any
    /// other notes; where `key` has no note, it becomes its note.
    pub fn replace_instruction(&mut self, key: K, instruction: Instruction)
        requires
            old(self).wf(),
        ensures
            final(self).wf(),
            final(self).entries() == old(self).replaced(key@, instruction@),
    {
        let ghost s0 = self.instructions@;
        let ghost iv = instruction@;
        proof {
            lemma_find_key(s0, key@, 0);
        }
        match position_of(&self.instructions, &key) {
            Some(p) => {
                assert(find_key(s0, key@, 0) == Some(p as int));
                if self.instructions[p].1.len() > 0 {
                    let entry = &mut self.instructions[p];
                    entry.1.set(0, instruction);
                } else {
                    let entry = &mut self.instructions[p];
                    entry.1.push(instruction);
                }
                proof {
                    let s = self.instructions@;
                    assert(s.len() == s0.len());
                    assert forall|i: int| 0 <= i < s.len() && i != p implies s[i] == s0[i] by {}
                    assert forall|i: int, j: int| 0 <= i < j < s.len() implies (#[trigger] s[i]).0@
                        != (#[trigger] s[j]).0@ by {
                        assert(s[i].0@ == s0[i].0@ && s[j].0@ == s0[j].0@);
                    }
                    assert(notes_view(s[p as int].1@) =~= (if notes_view(s0[p as int].1@).len()
                        > 0 {
                        notes_view(s0[p as int].1@).update(0, iv)
                    } else {
                        seq![iv]
                    }));
                    assert(self.entries() =~= old(self).entries().update(
                        p as int,
                        (old(self).entries()[p as int].0, notes_view(s[p as int].1@)),
                    ));
                }
            },
            None => {
                let mut notes: Vec<Instruction> = Vec::new();
                notes.push(instruction);
                self.instructions.push((key, notes));
                proof {
                    let s = self.instructions@;
                    assert forall|i: int, j: int| 0 <= i < j < s.len() implies (#[trigger] s[i]).0@
                        != (#[trigger] s[j]).0@ by {
                        if j == s0.len() {
                            assert(s[i] == s0[i]);
                        }
                    }
                    assert(notes_view(s[s0.len() as int].1@) =~= seq![iv]);
                    assert(self.entries() =~= old(self).entries().push((key@, seq![iv])));
                }
            },
        }
    }

    /// The notes of `key`, if it has an entry.
    pub fn get_instructions(&self, key: &K) -> (r: Option<&Vec<Instruction>>)
        ensures
            match find_key(self.instructions@, key@, 0) {
                Some(p) => r matches Some(v) && notes_view(v@) == self.entries()[p].1,
                None => r is None,
            },
    {
        proof {
            lemma_find_key(self.instructions@, key@, 0);
        }
        match position_of(&self.instructions, key) {
            Some(p) => Some(&self.instructions[p].1),
            None => None,
        }
    }

    /// Whether `key` has at least one note.
    pub fn has_instructions(&self, key: &K) -> (b: bool)
        ensures
            b == (match find_key(self.instructions@, key@, 0) {
                Some(p) => self.entries()[p].1.len() > 0,
                None => false,
            }),
    {
        proof {
            lemma_find_key(self.instructions@, key@, 0);
        }
        match position_of(&self.instructions, key) {
            Some(p) => self.instructions[p].1.len() > 0,
            None => false,
        }
    }

    /// The first note of `key`, if any.
    pub fn get_first_instruction(&self, key: &K) -> (r: Option<&Instruction>)
        ensures
            match find_key(self.instructions@, key@, 0) {
                Some(p) => if self.entries()[p].1.len() > 0 {
                    r matches Some(i) && i@ == self.entries()[p].1[0]
                } else {
                    r is None
                },
                None => r is None,
            },
    {
        proof {
            lemma_find_key(self.instructions@, key@, 0);
        }
        match position_of(&self.instructions, key) {
            Some(p) => {
                if self.instructions[p].1.len() > 0 {
                    Some(&self.instructions[p].1[0])
                } else {
                    None
                }
            },
            None => None,
        }
    }

    /// All notes of all entries, entry by entry.
    pub fn get_all_instructions(&self) -> (r: Vec<&Instruction>)
        ensures
            ref_views(r@) == all_notes(self.entries()),
    {
        let mut out: Vec<&Instruction> = Vec::new();
        let mut i: usize = 0;
        while i < self.instructions.len()
            invariant
                i <= self.instructions@.len(),
                ref_views(out@) == all_notes(
                    self.entries().take(i as int),
                ),
            decreases self.instructions@.len() - i,
        {
            let notes = &self.instructions[i].1;
            let ghost before = ref_views(out@);
            let mut j: usize = 0;
            while j < notes.len()
                invariant
                    j <= notes@.len(),
                    ref_views(out@) == before + notes_view(
                        notes@.take(j as int),
                    ),
                decreases notes@.len() - j,
            {
                let ghost old_out = out@;
                out.push(&notes[j]);
                assert(ref_views(out@) =~= ref_views(old_out).push(notes@[j as int]@));
                assert(notes_view(notes@.take(j + 1)) =~= notes_view(notes@.take(j as int)).push(
                    notes@[j as int]@,
                ));
                assert(ref_views(out@) =~= before + notes_view(
                    notes@.take(j + 1),
                ));
                j = j + 1;
            }
            proof {
                assert(notes@.take(j as int) =~= notes@);
                assert(self.entries().take(i + 1).drop_last() =~= self.entries().take(i as int));
            }
            i = i + 1;
        }
        assert(self.entries().take(i as int) =~= self.entries());
        out
    }

    /// The number of notes of all entries.
    pub fn total_instructions(&self) -> (n: usize)
        requires
            notes_count(self.entries()) <= usize::MAX,
        ensures
            n == notes_count(self.entries()),
    {
        let all = self.get_all_instructions();
        assert(all@.len() == ref_views(all@).len());
        all.len()
    }

    /// The notes of all entries with the given status, entry by entry.
    pub fn get_instructions_by_status(&self, status: &InstructionStatus) -> (r: Vec<&Instruction>)
        ensures
            ref_views(r@) == with_status(all_notes(self.entries()), *status),
    {
        let all = self.get_all_instructions();
        let ghost av = ref_views(all@);
        let mut out: Vec<&Instruction> = Vec::new();
        let mut i: usize = 0;
        while i < all.len()
            invariant
                i <= all@.len(),
                av == ref_views(all@),
                ref_views(out@) == with_status(av.take(i as int), *status),
            decreases all@.len() - i,
        {
            assert(av.take(i + 1).drop_last() =~= av.take(i as int));
            let ghost old_out = out@;
            if all[i].status == *status {
                out.push(all[i]);
                assert(ref_views(out@) =~= ref_views(old_out).push(av[i as int]));
            }
            assert(av.take(i + 1).last() == av[i as int]);
            assert(av.take(i + 1) =~= av.take(i as int).push(av[i as int]));
            assert(av.take(i as int).push(av[i as int]).drop_last() =~= av.take(i as int));
            assert(av.take(i as int).push(av[i as int]).last() == av[i as int]);
            assert(av[i as int] == (*all@[i as int])@);
            assert(with_status(av.take(i + 1), *status) == if av[i as int].status == *status {
                with_status(av.take(i as int), *status).push(av[i as int])
            } else {
                with_status(av.take(i as int), *status)
            });
            assert(ref_views(out@) =~= with_status(av.take(i + 1), *status));
            i = i + 1;
        }
        assert(av.take(i as int) =~= av);
        out
    }

    /// Takes out the entry of `key`, with all its notes.
    pub fn remove_instructions(&mut self, key: &K) -> (r: Option<Vec<Instruction>>)
        requires
            old(self).wf(),
        ensures
            final(self).wf(),
            match find_key(old(self).instructions@, key@, 0) {
                Some(p) => r matches Some(v) && notes_view(v@) == old(self).entries()[p].1
                    && final(self).entries() == old(self).entries().remove(p),
                None => r is None && final(self).entries() == old(self).entries(),
            },
    {
        let ghost s0 = self.instructions@;
        proof {
            lemma_find_key(s0, key@, 0);
        }
        match position_of(&self.instructions, key) {
            Some(p) => {
                let (_, notes) = self.instructions.remove(p);
                proof {
                    let s = self.instructions@;
                    assert forall|i: int, j: int| 0 <= i < j < s.len() implies (#[trigger] s[i]).0@
                        != (#[trigger] s[j]).0@ by {
                        if j < p {
                        } else if i < p {
                            assert(s[j] == s0[j + 1]);
                        } else {
                            assert(s[i] == s0[i + 1] && s[j] == s0[j + 1]);
                        }
                    }
                    assert(self.entries() =~= old(self).entries().remove(p as int));
                }
                Some(notes)
            },
            None => None,
        }
    }

    /// Takes out the first note, entry by entry, with identifier `id`.
    pub fn remove_instruction_by_id(&mut self, instruction_id: &str) -> (r: Option<Instruction>)
        requires
            old(self).wf(),
        ensures
            final(self).wf(),
            match entry_with_note(old(self).entries(), instruction_id@, 0) {
                Some((e, k)) => r matches Some(i) && i@ == old(self).entries()[e].1[k]
                    && final(self).entries() == old(self).entries().update(
                    e,
                    (old(self).entries()[e].0, old(self).entries()[e].1.remove(k)),
                ),
                None => r is None && final(self).entries() == old(self).entries(),
            },
    {
        let wanted = String::from_str(instruction_id);
        let ghost s0 = self.instructions@;
        let ghost e0 = self.entries();
        let mut i: usize = 0;
        while i < self.instructions.len()
            invariant
                self.instructions@ == s0,
                self.entries() == e0,
                wanted@ == instruction_id@,
                i <= s0.len(),
                crate::review::keyed::distinct_keys(s0),
                s0 == old(self).instructions@,
                e0 == old(self).entries(),
                entry_with_note(e0, instruction_id@, 0) == entry_with_note(
                    e0,
                    instruction_id@,
                    i as int,
                ),
            decreases s0.len() - i,
        {
            let notes = &self.instructions[i].1;
            let mut j: usize = 0;
            while j < notes.len()
                invariant
                    j <= notes@.len(),
                    notes@ == s0[i as int].1@,
                    wanted@ == instruction_id@,
                    note_index(e0[i as int].1, instruction_id@, 0) == note_index(
                        e0[i as int].1,
                        instruction_id@,
                        j as int,
                    ),
                    e0 == s0.map_values(|e: (K, Vec<Instruction>)| (e.0@, notes_view(e.1@))),
                    i < s0.len(),
                    self.instructions@ == s0,
                    self.entries() == e0,
                    crate::review::keyed::distinct_keys(s0),
                    s0 == old(self).instructions@,
                    e0 == old(self).entries(),
                    entry_with_note(e0, instruction_id@, 0) == entry_with_note(
                        e0,
                        instruction_id@,
                        i as int,
                    ),
                decreases notes@.len() - j,
            {
                if notes[j].id == wanted {
                    let ghost ev = e0[i as int];
                    assert(ev.1[j as int].id == instruction_id@);
                    assert(entry_with_note(e0, instruction_id@, i as int) == Some((i as int, j as int)));
                    let entry = &mut self.instructions[i];
                    let removed = entry.1.remove(j);
                    proof {
                        let s = self.instructions@;
                        assert(s.len() == s0.len());
                        assert(s[i as int].0 == s0[i as int].0);
                        assert(forall|a: int| 0 <= a < s.len() && a != i ==> s[a] == s0[a]);
                        assert(removed@ == ev.1[j as int]);
                        assert forall|a: int, b: int| 0 <= a < b < s.len() implies (#[trigger] s[a]).0@
                            != (#[trigger] s[b]).0@ by {
                            if a == i {
                                assert(s[b] == s0[b]);
                            } else if b == i {
                                assert(s[a] == s0[a]);
                            } else {
                                assert(s[a] == s0[a] && s[b] == s0[b]);
                            }
                        }
                        assert(notes_view(s[i as int].1@) =~= ev.1.remove(j as int));
                        assert(self.entries() =~= e0.update(i as int, (ev.0, ev.1.remove(j as int))));
                    }
                    return Some(removed);
                }
                j = j + 1;
            }
            i = i + 1;
        }
        None
    }
}

impl InstructionMap<ReviewableDiffId> {
    /// The first note of a chunk, if any.
    pub fn get_instructions_for_reviewable(&self, reviewable_id: &ReviewableDiffId) -> (r: Option<
        &Instruction,
    >)
        ensures
            match find_key(self.instructions@, reviewable_id@, 0) {
                Some(p) => if self.entries()[p].1.len() > 0 {
                    r matches Some(i) && i@ == self.entries()[p].1[0]
                } else {
                    r is None
                },
                None => r is None,
            },
    {
        self.get_first_instruction(reviewable_id)
    }
}

} // verus!
