//! Cursor theme subcommands.
use vstd::prelude::*;

verus! {

pub enum Command {
    List,
    ApplyPreferred,
    SetTo { name: String, size: i64 },
    SavePreferred { name: String, size: i64 },
    Reset,
}

} // verus!
