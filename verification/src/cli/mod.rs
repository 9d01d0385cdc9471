//! The commands a person gives, as plain values; the argument parser builds them.
use vstd::prelude::*;

use crate::notify::Icon;
use crate::sort::strings_view;
use crate::text::starts_with;

pub mod brightness;
pub mod cursor;
pub mod display;
pub mod idle;
pub mod nightlight;
pub mod wallpaper;

verus! {

pub enum TopCommand {
    Display(display::Command),
    Brightness(brightness::Command),
    Nightlight(nightlight::Command),
    Wallpaper(wallpaper::Command),
    Cursor(cursor::Command),
    Idle(idle::Command),
}

/// The whole command line.
pub struct Cli {
    /// Report a failure as a desktop notification.
    pub notify: bool,
    /// Show the value a command lands on as an on-screen display.
    pub osd: bool,
    pub command: TopCommand,
}

pub open spec fn subject_of(c: TopCommand) -> (Seq<char>, Icon) {
    match c {
        TopCommand::Display(_) => ("Display"@, Icon::VideoDisplay),
        TopCommand::Brightness(_) => ("Brightness"@, Icon::BrightnessSymbolic),
        TopCommand::Nightlight(_) => ("Night light"@, Icon::DialogError),
        TopCommand::Wallpaper(_) => ("Wallpaper"@, Icon::DialogError),
        TopCommand::Cursor(_) => ("Cursor"@, Icon::DialogError),
        TopCommand::Idle(_) => ("Idle inhibitor"@, Icon::DialogError),
    }
}

impl TopCommand {
    /// What a failure notification is headed, once the wording underneath it is settled.
    pub fn subject(&self) -> (r: (&'static str, Icon))
        ensures
            (r.0@, r.1) == subject_of(*self),
    {
        match self {
            TopCommand::Display(_) => ("Display", Icon::VideoDisplay),
            TopCommand::Brightness(_) => ("Brightness", Icon::BrightnessSymbolic),
            TopCommand::Nightlight(_) => ("Night light", Icon::DialogError),
            TopCommand::Wallpaper(_) => ("Wallpaper", Icon::DialogError),
            TopCommand::Cursor(_) => ("Cursor", Icon::DialogError),
            TopCommand::Idle(_) => ("Idle inhibitor", Icon::DialogError),
        }
    }
}

/// The names that begin with what has been typed so far, in order.
pub open spec fn prefixed(names: Seq<Seq<char>>, current: Seq<char>) -> Seq<Seq<char>>
    decreases names.len(),
{
    if names.len() == 0 {
        Seq::empty()
    } else {
        prefixed(names.drop_last(), current) + if current.is_prefix_of(names.last()) {
            seq![names.last()]
        } else {
            Seq::empty()
        }
    }
}

/// What a word being completed can become.
pub fn candidates(names: Vec<String>, current: &str) -> (r: Vec<String>)
    ensures
        strings_view(r@) == prefixed(strings_view(names@), current@),
{
    let ghost nv = strings_view(names@);
    let mut out: Vec<String> = Vec::new();
    let mut i: usize = 0;
    while i < names.len()
        invariant
            i <= names.len(),
            nv == strings_view(names@),
            strings_view(out@) == prefixed(nv.take(i as int), current@),
        decreases names.len() - i,
    {
        let ghost prev = strings_view(out@);
        if starts_with(names[i].as_str(), current) {
            out.push(names[i].clone());
        }
        proof {
            let t = nv.take(i + 1);
            assert(t.drop_last() =~= nv.take(i as int));
            assert(t.last() == names@[i as int]@);
            assert(strings_view(out@) =~= prefixed(t, current@));
        }
        i = i + 1;
    }
    assert(nv.take(names.len() as int) =~= nv);
    out
}

} // verus!
