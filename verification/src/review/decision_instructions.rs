//! Decision-level instructions kept as a list per decision number, every
//! added instruction staying a note of its own.

use vstd::prelude::*;

use crate::review::instruction::{
    all_notes, entry_with_note, lemma_entry_with_note, lemma_notes_count_push,
    lemma_notes_count_remove, lemma_notes_count_update, notes_count, notes_view, ref_views,
    with_status, Instruction, InstructionMap, InstructionStatus, InstructionView,
};
use crate::review::keyed::{
    distinct_keys, find_key, lemma_find_key, lemma_find_key_push, lemma_find_key_remove,
    lemma_find_key_update, position_of,
};

verus! {

/// Instructions per decision number, in the order they were added.
#[derive(Debug, Clone)]
pub struct DecisionInstructions {
    pub instructions: InstructionMap<u32>,
}

/// The notes listed for decision `n` in `e`: those of its entry, or none.
pub open spec fn notes_in(e: Seq<(u32, Seq<InstructionView>)>, n: u32) -> Seq<InstructionView> {
    match find_key(e, n, 0) {
        Some(p) => e[p].1,
        None => seq![],
    }
}

impl DecisionInstructions {
    /// The notes of decision `n`, in the order they were added.
    pub open spec fn notes_of(&self, n: u32) -> Seq<InstructionView> {
        notes_in(self.entries(), n)
    }

    /// Entries are found by key as the stored pairs are.
    proof fn lemma_find_entry(&self, n: u32, i: int)
        requires
            0 <= i,
        ensures
            find_key(self.entries(), n, i) == find_key(self.instructions.instructions@, n, i),
        decreases self.entries().len() - i,
    {
        if i < self.entries().len() {
            assert(self.entries()[i].0 == self.instructions.instructions@[i].0@);
            self.lemma_find_entry(n, i + 1);
        }
    }

    /// Distinct stored keys give distinct entry keys.
    proof fn lemma_distinct_entries(&self)
        requires
            self.wf(),
        ensures
            distinct_keys(self.entries()),
    {
        let e = self.entries();
        let s = self.instructions.instructions@;
        assert forall|i: int, j: int| 0 <= i < j < e.len() implies (#[trigger] e[i]).0@
            != (#[trigger] e[j]).0@ by {
            assert(e[i].0 == s[i].0@ && e[j].0 == s[j].0@);
        }
    }

    /// Appending `iv` for decision `n` appends it to `n`'s notes, keeps every
    /// other decision's notes, and counts one note more.
    proof fn lemma_pushed(&self, n: u32, iv: InstructionView)
        requires
            self.wf(),
        ensures
            notes_in(self.pushed(n, iv), n) == self.notes_of(n).push(iv),
            forall|m: u32| m != n ==> #[trigger] notes_in(self.pushed(n, iv), m) == self.notes_of(m),
            notes_count(self.pushed(n, iv)) == notes_count(self.entries()) + 1,
    {
        let e = self.entries();
        let u = self.pushed(n, iv);
        self.lemma_find_entry(n, 0);
        lemma_find_key(self.instructions.instructions@, n, 0);
        match find_key(self.instructions.instructions@, n, 0) {
            Some(p) => {
                let ne = (e[p].0, e[p].1.push(iv));
                assert forall|m: u32| #[trigger] find_key(u, m, 0) == find_key(e, m, 0) by {
                    lemma_find_key_update(e, p, ne, m, 0);
                }
                assert forall|m: u32| m != n implies #[trigger] notes_in(u, m) == self.notes_of(m) by {
                    lemma_find_key(e, m, 0);
                    assert(find_key(u, m, 0) == find_key(e, m, 0));
                }
                assert(find_key(u, n, 0) == Some(p));
                lemma_notes_count_update(e, p, ne);
            },
            None => {
                let ne = (n, seq![iv]);
                assert forall|m: u32| m != n implies #[trigger] notes_in(u, m) == self.notes_of(m) by {
                    lemma_find_key_push(e, ne, m, 0);
                    lemma_find_key(e, m, 0);
                }
                lemma_find_key_push(e, ne, n, 0);
                assert(find_key(u, n, 0) == Some(e.len() as int));
                assert(seq![iv] =~= Seq::<InstructionView>::empty().push(iv));
                lemma_notes_count_push(e, ne);
            },
        }
    }

    /// Removing entry `p` leaves decision `n` without notes, keeps every
    /// other decision's notes, and counts `n`'s notes less.
    proof fn lemma_removed(&self, n: u32, p: int)
        requires
            self.wf(),
            find_key(self.instructions.instructions@, n, 0) == Some(p),
        ensures
            notes_in(self.entries().remove(p), n) == Seq::<InstructionView>::empty(),
            forall|m: u32| m != n ==> #[trigger] notes_in(self.entries().remove(p), m) == self.notes_of(m),
            notes_count(self.entries().remove(p)) + self.notes_of(n).len() == notes_count(self.entries()),
    {
        let e = self.entries();
        self.lemma_find_entry(n, 0);
        self.lemma_distinct_entries();
        lemma_find_key(e, n, 0);
        lemma_find_key_remove(e, p, n);
        assert forall|m: u32| m != n implies #[trigger] notes_in(e.remove(p), m) == self.notes_of(m) by {
            lemma_find_key_remove(e, p, m);
            lemma_find_key(e, m, 0);
        }
        lemma_notes_count_remove(e, p);
    }

    /// The decision numbers and their notes, entry by entry.
    pub open spec fn entries(&self) -> Seq<(u32, Seq<InstructionView>)> {
        self.instructions.entries()
    }

    /// Each decision has at most one entry.
    pub open spec fn wf(&self) -> bool {
        self.instructions.wf()
    }

    /// The entries after appending `iv` to the list of decision `n`.
    pub open spec fn pushed(&self, n: u32, iv: InstructionView) -> Seq<(u32, Seq<InstructionView>)> {
        let e = self.entries();
        match find_key(self.instructions.instructions@, n, 0) {
            Some(p) => e.update(p, (e[p].0, e[p].1.push(iv))),
            None => e.push((n, seq![iv])),
        }
    }

    /// No instructions.
    pub fn new() -> (d: Self)
        ensures
            d.wf(),
            d.entries().len() == 0,
    {
        DecisionInstructions { instructions: InstructionMap::new() }
    }

    /// Appends an instruction to the list of a decision.
    pub fn add_instruction(&mut self, decision_number: u32, instruction: Instruction)
        requires
            old(self).wf(),
        ensures
            final(self).wf(),
            final(self).entries() == old(self).pushed(decision_number, instruction@),
            final(self).notes_of(decision_number) == old(self).notes_of(decision_number).push(
                instruction@,
            ),
            forall|m: u32|
                m != decision_number ==> #[trigger] final(self).notes_of(m) == old(self).notes_of(m),
            notes_count(final(self).entries()) == notes_count(old(self).entries()) + 1,
    {
        proof {
            old(self).lemma_pushed(decision_number, instruction@);
        }
        let ghost s0 = self.instructions.instructions@;
        let ghost iv = instruction@;
        proof {
            lemma_find_key(s0, decision_number, 0);
        }
        match position_of(&self.instructions.instructions, &decision_number) {
            Some(p) => {
                let entry = &mut self.instructions.instructions[p];
                entry.1.push(instruction);
                proof {
                    let s = self.instructions.instructions@;
                    assert(s.len() == s0.len());
                    assert(forall|a: int| 0 <= a < s.len() && a != p ==> s[a] == s0[a]);
                    assert forall|a: int, b: int| 0 <= a < b < s.len() implies (#[trigger] s[a]).0@
                        != (#[trigger] s[b]).0@ by {
                        if a == p {
                            assert(s[b] == s0[b]);
                        } else if b == p {
                            assert(s[a] == s0[a]);
                        } else {
                            assert(s[a] == s0[a] && s[b] == s0[b]);
                        }
                    }
                    assert(notes_view(s[p as int].1@) =~= notes_view(s0[p as int].1@).push(iv));
                    assert(self.entries() =~= old(self).entries().update(
                        p as int,
                        (old(self).entries()[p as int].0, old(self).entries()[p as int].1.push(iv)),
                    ));
                }
            },
            None => {
                let mut notes: Vec<Instruction> = Vec::new();
                notes.push(instruction);
                self.instructions.instructions.push((decision_number, notes));
                proof {
                    let s = self.instructions.instructions@;
                    assert forall|a: int, b: int| 0 <= a < b < s.len() implies (#[trigger] s[a]).0@
                        != (#[trigger] s[b]).0@ by {
                        if b == s0.len() {
                            assert(s[a] == s0[a]);
                        }
                    }
                    assert(notes_view(s[s0.len() as int].1@) =~= seq![iv]);
                    assert(self.entries() =~= old(self).entries().push((decision_number, seq![iv])));
                }
            },
        }
    }

    /// The instructions of a decision, if it has an entry.
    pub fn get_instructions(&self, decision_number: u32) -> (r: Option<&Vec<Instruction>>)
        ensures
            match find_key(self.instructions.instructions@, decision_number, 0) {
                Some(p) => r matches Some(v) && notes_view(v@) == self.entries()[p].1,
                None => r is None,
            },
            match r {
                Some(v) => notes_view(v@) == self.notes_of(decision_number),
                None => self.notes_of(decision_number).len() == 0,
            },
    {
        proof {
            self.lemma_find_entry(decision_number, 0);
        }
        self.instructions.get_instructions(&decision_number)
    }

    /// Whether a decision has at least one instruction.
    pub fn has_instructions(&self, decision_number: u32) -> (b: bool)
        ensures
            b == (match find_key(self.instructions.instructions@, decision_number, 0) {
                Some(p) => self.entries()[p].1.len() > 0,
                None => false,
            }),
    {
        self.instructions.has_instructions(&decision_number)
    }

    /// The number of instructions of all decisions.
    pub fn total_instructions(&self) -> (n: usize)
        requires
            notes_count(self.entries()) <= usize::MAX,
        ensures
            n == notes_count(self.entries()),
    {
        self.instructions.total_instructions()
    }

    /// All instructions, decision by decision.
    pub fn get_all_instructions(&self) -> (r: Vec<&Instruction>)
        ensures
            ref_views(r@) == all_notes(self.entries()),
    {
        self.instructions.get_all_instructions()
    }

    /// The first instruction of a decision, if any.
    pub fn get_instructions_for_decision(&self, decision_number: u32) -> (r: Option<&Instruction>)
        ensures
            match find_key(self.instructions.instructions@, decision_number, 0) {
                Some(p) => if self.entries()[p].1.len() > 0 {
                    r matches Some(i) && i@ == self.entries()[p].1[0]
                } else {
                    r is None
                },
                None => r is None,
            },
    {
        self.instructions.get_first_instruction(&decision_number)
    }

    /// Takes out all instructions of a decision.
    pub fn remove_instructions(&mut self, decision_number: u32) -> (r: Option<Vec<Instruction>>)
        requires
            old(self).wf(),
        ensures
            final(self).wf(),
            match find_key(old(self).instructions.instructions@, decision_number, 0) {
                Some(p) => r matches Some(v) && notes_view(v@) == old(self).entries()[p].1
                    && final(self).entries() == old(self).entries().remove(p),
                None => r is None && final(self).entries() == old(self).entries(),
            },
            match r {
                Some(v) => notes_view(v@) == old(self).notes_of(decision_number),
                None => old(self).notes_of(decision_number).len() == 0,
            },
            final(self).notes_of(decision_number).len() == 0,
            forall|m: u32|
                m != decision_number ==> #[trigger] final(self).notes_of(m) == old(self).notes_of(m),
            notes_count(final(self).entries()) + old(self).notes_of(decision_number).len()
                == notes_count(old(self).entries()),
    {
        let ghost before = *self;
        proof {
            before.lemma_find_entry(decision_number, 0);
            lemma_find_key(before.instructions.instructions@, decision_number, 0);
            if let Some(p) = find_key(before.instructions.instructions@, decision_number, 0) {
                before.lemma_removed(decision_number, p);
            }
        }
        self.instructions.remove_instructions(&decision_number)
    }

    /// The instructions with the given status, decision by decision.
    pub fn get_instructions_by_status(&self, status: &InstructionStatus) -> (r: Vec<&Instruction>)
        ensures
            ref_views(r@) == with_status(all_notes(self.entries()), *status),
    {
        self.instructions.get_instructions_by_status(status)
    }

    /// Takes out the first instruction, decision by decision, with
    /// identifier `id`.
    pub fn remove_instruction_by_id(&mut self, instruction_id: &str) -> (r: Option<Instruction>)
        requires
            old(self).wf(),
        ensures
            final(self).wf(),
            match entry_with_note(old(self).entries(), instruction_id@, 0) {
                Some((e, k)) => r matches Some(i) && i@ == old(self).entries()[e].1[k]
                    && final(self).entries() == old(self).entries().update(
                    e,
                    (old(self).entries()[e].0, old(self).entries()[e].1.remove(k)),
                ),
                None => r is None && final(self).entries() == old(self).entries(),
            },
            notes_count(final(self).entries()) + (if r is Some {
                1int
            } else {
                0int
            }) == notes_count(old(self).entries()),
    {
        let ghost e = self.entries();
        proof {
            lemma_entry_with_note(e, instruction_id@, 0);
            if let Some((i, k)) = entry_with_note(e, instruction_id@, 0) {
                lemma_notes_count_update(e, i, (e[i].0, e[i].1.remove(k)));
            }
        }
        self.instructions.remove_instruction_by_id(instruction_id)
    }
}

} // verus!
