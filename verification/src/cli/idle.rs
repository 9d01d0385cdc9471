//! Idle inhibitor subcommands.
use vstd::prelude::*;

verus! {

pub enum Command {
    Enable,
    Disable,
    Status,
    Watch,
}

} // verus!
