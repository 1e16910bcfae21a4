//! What the pages of the window decide: which rows they show, in what order,
//! and what they say about them.

pub mod processes;
pub mod services;
pub mod startup;

use vstd::prelude::*;

verus! {

/// A moment on the monotonic clock (`std::time::Instant`), carried as the
/// time a page was last loaded.
#[verifier::external_type_specification]
#[verifier::external_body]
pub struct ExInstant(std::time::Instant);

/// The colour role a piece of status text is drawn in.
#[derive(Clone, Copy, Debug, PartialEq, Eq, Structural)]
pub enum Tone {
    Good,
    Warning,
    Failure,
    Dim,
    Normal,
}

} // verus!
