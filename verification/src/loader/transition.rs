use vstd::prelude::*;

verus! {

/// The identity-mapped page holding the code that switches to the kernel's page tables.
#[derive(Clone, Copy, Debug, PartialEq, Eq, Structural)]
pub struct TransitionPage {
    pub physical_start: u64,
}

} // verus!
