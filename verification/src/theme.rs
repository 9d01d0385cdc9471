//! The desktop theme: variables it defines, and re-rendering it.
use vstd::prelude::*;

use crate::error::Error;
use crate::text::{string_of, trim, trim_str};

verus! {

/// A call made on the desktop theme, with what it answered, as a command records it.
pub enum ThemeCall {
    GetVar(Seq<char>, Result<Option<String>, Error>),
    Render(Result<(), Error>),
}

pub trait ThemeCtl {
    fn get_var(&self, key: &str) -> Result<Option<String>, Error>;

    fn render(&self) -> Result<(), Error>;
}

/// What `myarchy-theme get-var` printed, trimmed; nothing when it printed only white space.
pub open spec fn theme_value(output: Seq<char>) -> Option<Seq<char>> {
    if trim(output).len() == 0 {
        None
    } else {
        Some(trim(output))
    }
}

pub fn parse_theme_value(output: &str) -> (r: Option<String>)
    ensures
        match r {
            Some(v) => theme_value(output@) == Some(v@),
            None => theme_value(output@) is None,
        },
{
    let t = trim_str(output);
    if t.len() == 0 {
        None
    } else {
        Some(string_of(t.as_slice()))
    }
}

} // verus!
