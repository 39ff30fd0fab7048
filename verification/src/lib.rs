//! A priority queue over explicit `(score, item)` pairs.
//!
//! The queue is a binary min-heap kept in one growable buffer. Scores need only
//! be partially ordered: two scores may compare as less, equal, greater, or not
//! at all. The contracts describe the buffer as a sequence in storage order and
//! say, for every operation, which sequence it leaves behind.

pub mod heap;
pub mod iter;
pub mod laws;
pub mod order;
pub mod priq;
pub mod rawpq;
pub mod seqs;
pub mod sort;

pub use crate::iter::{Drain, IntoIter};
pub use crate::priq::{Entries, PriorityQueue};
pub use crate::rawpq::RawPQ;
