//! Finality engine for a proof-of-authority header chain: vote tallies over
//! the unfinalized ancestry of a header, and the decision which ancestors
//! have gathered enough distinct validators to be final.

pub mod address_set;
pub mod decide;
pub mod laws;
pub mod primitives;
pub mod signers;
pub mod tally;
pub mod vote_counts;
