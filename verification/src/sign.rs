use vstd::prelude::*;

verus! {

/// Three-way comparison outcome, shared by the numeric handles.
#[derive(Clone, Copy, PartialEq, Eq, Debug, Structural)]
pub enum Sign {
    Less,
    Equal,
    Greater,
}

} // verus!
