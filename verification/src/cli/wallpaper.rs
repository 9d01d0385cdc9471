//! Wallpaper subcommands.
use vstd::prelude::*;

verus! {

pub enum Command {
    Init,
    Get,
    List,
    Dir,
    SetTo { name: String },
    ApplyPreferred,
    SavePreferred,
    Reset,
}

} // verus!
