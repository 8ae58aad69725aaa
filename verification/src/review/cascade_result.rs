//! What a decision approval or rejection did to the decision's chunks.

use vstd::prelude::*;

use crate::text::{decimal, push_decimal, push_text};

verus! {

/// The outcome of cascading a decision's approval state to its chunks.
#[derive(Debug, Clone, PartialEq, Eq, Structural)]
pub enum CascadeResult {
    /// The decision and its chunks were approved.
    DecisionApproved { decision_number: u32, chunks_affected: usize },
    /// The decision and its chunks were unapproved.
    DecisionUnapproved { decision_number: u32, chunks_affected: usize },
    /// The decision has no chunks.
    NoChunksAffected { decision_number: u32 },
}

/// `chunk` for one chunk, `chunks` otherwise.
pub open spec fn chunk_word(n: usize) -> Seq<char> {
    if n == 1 {
        "chunk"@
    } else {
        "chunks"@
    }
}

/// The description of a cascade.
pub open spec fn cascade_text(r: CascadeResult) -> Seq<char> {
    match r {
        CascadeResult::DecisionApproved { decision_number, chunks_affected } => "Decision #"@
            + decimal(decision_number as nat) + " and "@ + decimal(chunks_affected as nat) + " "@
            + chunk_word(chunks_affected) + " approved"@,
        CascadeResult::DecisionUnapproved { decision_number, chunks_affected } => "Decision #"@
            + decimal(decision_number as nat) + " and "@ + decimal(chunks_affected as nat) + " "@
            + chunk_word(chunks_affected) + " unapproved"@,
        CascadeResult::NoChunksAffected { decision_number } => "Decision #"@ + decimal(
            decision_number as nat,
        ) + " had no chunks to affect"@,
    }
}

fn push_chunk_word(s: &mut String, n: usize)
    ensures
        final(s)@ == old(s)@ + chunk_word(n),
{
    if n == 1 {
        push_text(s, "chunk");
    } else {
        push_text(s, "chunks");
    }
}

impl CascadeResult {
    /// The decision involved.
    pub fn decision_number(&self) -> (n: u32)
        ensures
            n == match *self {
                CascadeResult::DecisionApproved { decision_number, .. } => decision_number,
                CascadeResult::DecisionUnapproved { decision_number, .. } => decision_number,
                CascadeResult::NoChunksAffected { decision_number } => decision_number,
            },
    {
        match self {
            CascadeResult::DecisionApproved { decision_number, .. } => *decision_number,
            CascadeResult::DecisionUnapproved { decision_number, .. } => *decision_number,
            CascadeResult::NoChunksAffected { decision_number } => *decision_number,
        }
    }

    /// A human-readable description of the cascade.
    pub fn description(&self) -> (s: String)
        ensures
            s@ == cascade_text(*self),
    {
        let mut s = String::new();
        push_text(&mut s, "Decision #");
        match self {
            CascadeResult::DecisionApproved { decision_number, chunks_affected } => {
                push_decimal(&mut s, *decision_number as usize);
                push_text(&mut s, " and ");
                push_decimal(&mut s, *chunks_affected);
                push_text(&mut s, " ");
                push_chunk_word(&mut s, *chunks_affected);
                push_text(&mut s, " approved");
            },
            CascadeResult::DecisionUnapproved { decision_number, chunks_affected } => {
                push_decimal(&mut s, *decision_number as usize);
                push_text(&mut s, " and ");
                push_decimal(&mut s, *chunks_affected);
                push_text(&mut s, " ");
                push_chunk_word(&mut s, *chunks_affected);
                push_text(&mut s, " unapproved");
            },
            CascadeResult::NoChunksAffected { decision_number } => {
                push_decimal(&mut s, *decision_number as usize);
                push_text(&mut s, " had no chunks to affect");
            },
        }
        assert(s@ =~= cascade_text(*self));
        s
    }

    /// Whether the cascade actually affected some chunk.
    pub fn affected_any(&self) -> (b: bool)
        ensures
            b == match *self {
                CascadeResult::DecisionApproved { chunks_affected, .. } => chunks_affected > 0,
                CascadeResult::DecisionUnapproved { chunks_affected, .. } => chunks_affected > 0,
                CascadeResult::NoChunksAffected { .. } => false,
            },
    {
        match self {
            CascadeResult::DecisionApproved { chunks_affected, .. } => *chunks_affected > 0,
            CascadeResult::DecisionUnapproved { chunks_affected, .. } => *chunks_affected > 0,
            CascadeResult::NoChunksAffected { .. } => false,
        }
    }
}

} // verus!
