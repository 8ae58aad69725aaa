//! `Ordering` of reviewable diff identifiers.

use core::cmp::Ordering;
use vstd::prelude::*;

use crate::review::reviewable_diff_id::ReviewableDiffId;
use crate::review::text_order::{compare_ids, id_order, lemma_id_order_range};

verus! {

/// An order as -1, 0 or 1.
pub open spec fn sign_of(o: Ordering) -> int {
    match o {
        Ordering::Less => -1,
        Ordering::Equal => 0,
        Ordering::Greater => 1,
    }
}

fn to_ordering(o: i8) -> (r: Ordering)
    requires
        -1 <= o <= 1,
    ensures
        sign_of(r) == o,
{
    if o < 0 {
        Ordering::Less
    } else if o > 0 {
        Ordering::Greater
    } else {
        Ordering::Equal
    }
}

impl ReviewableDiffId {
    /// Compares two identifiers: by file path, then query, then start line,
    /// then end line.
    pub fn compare(&self, other: &Self) -> (o: Ordering)
        ensures
            sign_of(o) == id_order(self@, other@),
    {
        proof {
            lemma_id_order_range(self@, other@);
        }
        to_ordering(compare_ids(self, other))
    }
}

} // verus!
