//! A layered coin-flip cascade: trials of simultaneous coins classified by
//! outcome, and a controller that repeats rounds of single-coin trials under
//! one of two termination policies, with saturating counters.

pub mod cascade;
pub mod coin_flip;
pub mod page;
pub mod source;
