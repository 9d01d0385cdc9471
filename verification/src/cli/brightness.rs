//! Brightness subcommands.
use vstd::prelude::*;

use crate::percent::Percent;

verus! {

pub enum Command {
    Get { name: String, dirty: bool },
    SetTo { name: String, percent: Percent, dirty: bool },
    Step { delta_percent: i64, name: String },
    Monitors,
}

} // verus!
