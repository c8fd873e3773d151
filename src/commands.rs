use vstd::prelude::*;

verus! {

/// The arguments of `init`, which has none.
#[derive(Clone, Copy, Debug, PartialEq, Eq, Structural)]
pub struct InitArgs {}

/// The commands that the program offers.
#[derive(Clone, Copy, Debug, PartialEq, Eq, Structural)]
pub enum Commands {
    Init(InitArgs),
}

} // verus!
