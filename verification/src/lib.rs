//! The commit check of a DAG-based consensus: whether a mapping from rounds to
//! certificates is the causal history of one leader certificate, no more and
//! no less.
//!
//! A [`subdag::Subdag`] is made from such a mapping once: it is checked for
//! more than two rounds, an even leader round, a single leader certificate,
//! consecutive rounds and causal closure, and cannot change afterwards.

pub mod certificate;
pub mod certificate_set;
pub mod closure;
pub mod dfs;
pub mod index_set;
pub mod levels;
pub mod rounds;
mod search;
pub mod subdag;
pub mod test_helpers;
