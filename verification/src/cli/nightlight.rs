//! Night light subcommands.
use vstd::prelude::*;

use crate::percent::Percent;

verus! {

pub enum Command {
    Get,
    SetTo { percent: Percent },
    Off,
}

} // verus!
