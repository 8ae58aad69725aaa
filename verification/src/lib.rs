//! Verified core of a decision-based code review engine and of the graph side
//! of an HNSW vector index.

use vstd::prelude::*;

pub mod hnsw;
pub mod review;
pub mod text;
