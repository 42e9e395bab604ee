use vstd::prelude::*;

verus! {

/// Various signals that allow the app to communicate with the ui.
#[derive(Debug, Clone, Copy, PartialEq, Eq, Structural)]
pub enum Signal {
    // initial app loading
    StartLoading,
    FinishedLoading,
    // errors
    DismissErrors,
    // node tree
    SelectNode(u128),
}

} // verus!
