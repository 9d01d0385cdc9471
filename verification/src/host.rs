//! Reading what the desktop's tools print, and deciding what their answers mean.
use vstd::prelude::*;

use crate::compositor::Monitor;
use crate::error::{Error, UserError};
use crate::percent::{parse_percent, Percent};
use crate::resolution::{parse_resolution, Resolution};
use crate::text::{chars_of, first_index, parse_int, push_str, push_string, split_once,
    split_once_chars, str_eq, string_of, trim, trim_str};

verus! {

/// The first line of a text, as `str::lines` gives it: up to the first newline, without a
/// carriage return before it.
pub open spec fn first_line(s: Seq<char>) -> Seq<char> {
    match split_once(s, '\n') {
        Some((line, _)) => if line.len() > 0 && line.last() == '\r' {
            line.drop_last()
        } else {
            line
        },
        None => s,
    }
}

/// The `n`-th comma-separated field.
pub open spec fn field(s: Seq<char>, n: nat) -> Option<Seq<char>>
    decreases n,
{
    match split_once(s, ',') {
        Some((head, rest)) => if n == 0 {
            Some(head)
        } else {
            field(rest, (n - 1) as nat)
        },
        None => if n == 0 {
            Some(s)
        } else {
            None
        },
    }
}

/// What `brightnessctl --machine-readable` reports, such as
/// `intel_backlight,backlight,60000,50%,120000`: the percentage is the fourth field of the first
/// line.
pub open spec fn backlight_reading(out: Seq<char>) -> Option<int> {
    let f = match field(first_line(out), 3) {
        Some(f) => f,
        None => Seq::empty(),
    };
    parse_percent(f)
}

fn first_line_chars(v: &[char]) -> (r: Vec<char>)
    ensures
        r@ == first_line(v@),
{
    match split_once_chars(v, '\n') {
        Some((line, _)) => {
            if line.len() > 0 && line[line.len() - 1] == '\r' {
                let r = crate::text::slice_of(line.as_slice(), 0, line.len() - 1);
                assert(r@ =~= line@.drop_last());
                r
            } else {
                line
            }
        },
        None => crate::text::slice_of(v, 0, v.len()),
    }
}

fn field_chars(v: &[char], n: u32) -> (r: Option<Vec<char>>)
    ensures
        match r {
            Some(f) => field(v@, n as nat) == Some(f@),
            None => field(v@, n as nat) is None,
        },
    decreases n,
{
    match split_once_chars(v, ',') {
        Some((head, rest)) => if n == 0 {
            Some(head)
        } else {
            field_chars(rest.as_slice(), n - 1)
        },
        None => if n == 0 {
            Some(crate::text::slice_of(v, 0, v.len()))
        } else {
            None
        },
    }
}

pub fn backlight_percent(out: &str) -> (r: Option<Percent>)
    ensures
        match r {
            Some(p) => p.wf() && backlight_reading(out@) == Some(p.value()),
            None => backlight_reading(out@) is None,
        },
{
    let v = chars_of(out);
    let line = first_line_chars(v.as_slice());
    let f = match field_chars(line.as_slice(), 3) {
        Some(f) => f,
        None => Vec::new(),
    };
    assert(f@ == match field(first_line(out@), 3) {
        Some(f) => f,
        None => Seq::<char>::empty(),
    });
    let s = string_of(f.as_slice());
    Percent::parse(s.as_str())
}

/// Some tools report their failure on standard output and leave standard error empty.
pub open spec fn detail_text(stdout: Seq<char>, stderr: Seq<char>) -> Seq<char> {
    if trim(stderr).len() == 0 {
        trim(stdout)
    } else {
        trim(stderr)
    }
}

pub fn detail(stdout: &str, stderr: &str) -> (r: String)
    ensures
        r@ == detail_text(stdout@, stderr@),
{
    let e = trim_str(stderr);
    if e.len() == 0 {
        let o = trim_str(stdout);
        string_of(o.as_slice())
    } else {
        string_of(e.as_slice())
    }
}

pub open spec fn socket_failure() -> Seq<char> {
    "Couldn't open a socket"@
}

/// A missing compositor is reported on standard output with a successful exit status, not as a
/// failure; either way `hyprctl` did not do what it was asked.
pub open spec fn hyprctl_failed(stdout: Seq<char>, success: bool) -> bool {
    !success || socket_failure().is_prefix_of(stdout)
}

pub fn hyprctl_outcome(args: &str, stdout: String, stderr: &str, success: bool) -> (r: Result<String, Error>)
    ensures
        hyprctl_failed(stdout@, success) ==> (r matches Err(Error::Other(m)) && m@ == "hyprctl "@
            + args@ + " failed: "@ + detail_text(stdout@, stderr@)),
        !hyprctl_failed(stdout@, success) ==> r == Ok::<String, Error>(stdout),
{
    if !success || crate::text::starts_with(stdout.as_str(), "Couldn't open a socket") {
        let mut m = String::new();
        push_str(&mut m, "hyprctl ");
        push_str(&mut m, args);
        push_str(&mut m, " failed: ");
        let d = detail(stdout.as_str(), stderr);
        push_string(&mut m, &d);
        assert(m@ =~= "hyprctl "@ + args@ + " failed: "@ + detail_text(stdout@, stderr@));
        return Err(Error::Other(m));
    }
    Ok(stdout)
}

/// What came of running a tool: what it printed when it succeeded, else a failure that names
/// the command and says why.
pub fn run_outcome(program: &str, args: &str, stdout: String, stderr: &str, success: bool) -> (r:
    Result<String, Error>)
    ensures
        !success ==> (r matches Err(Error::Other(m)) && m@ == program@ + " "@ + args@
            + " failed: "@ + detail_text(stdout@, stderr@)),
        success ==> r == Ok::<String, Error>(stdout),
{
    if !success {
        let mut m = String::new();
        push_str(&mut m, program);
        push_str(&mut m, " ");
        push_str(&mut m, args);
        push_str(&mut m, " failed: ");
        let d = detail(stdout.as_str(), stderr);
        push_string(&mut m, &d);
        assert(m@ =~= program@ + " "@ + args@ + " failed: "@ + detail_text(stdout@, stderr@));
        return Err(Error::Other(m));
    }
    Ok(stdout)
}

/// Why a tool could not be started: a tool that is not installed is the one a person can do
/// something about.
pub fn spawn_failure(program: &str, args: &str, not_found: bool, reason: &str) -> (e: Error)
    ensures
        not_found ==> (e matches Error::User(UserError::ToolMissing { tool }) && tool@ == program@),
        !not_found ==> (e matches Error::Other(m) && m@ == "failed to run "@ + program@ + " "@
            + args@ + ": "@ + reason@),
{
    if not_found {
        let mut tool = String::new();
        push_str(&mut tool, program);
        return Error::User(UserError::ToolMissing { tool });
    }
    let mut m = String::new();
    push_str(&mut m, "failed to run ");
    push_str(&mut m, program);
    push_str(&mut m, " ");
    push_str(&mut m, args);
    push_str(&mut m, ": ");
    push_str(&mut m, reason);
    assert(m@ =~= "failed to run "@ + program@ + " "@ + args@ + ": "@ + reason@);
    Error::Other(m)
}

/// What `hyprctl` reports as the mirror target of a screen that is not mirroring.
pub open spec fn mirror_field(m: Option<Seq<char>>) -> Option<Seq<char>> {
    match m {
        Some(s) => if s == "none"@ || s.len() == 0 {
            None
        } else {
            Some(s)
        },
        None => None,
    }
}

pub open spec fn parsed_modes(modes: Seq<Seq<char>>) -> Seq<Resolution>
    decreases modes.len(),
{
    if modes.len() == 0 {
        Seq::empty()
    } else {
        parsed_modes(modes.drop_last()) + match parse_resolution(modes.last()) {
            Some(r) => seq![r],
            None => Seq::empty(),
        }
    }
}

/// The modes of a mode list that parse, in order; the rest are skipped.
pub fn parse_modes(modes: &Vec<String>) -> (r: Vec<Resolution>)
    ensures
        r@ == parsed_modes(Seq::new(modes@.len(), |i: int| modes@[i]@)),
{
    let ghost mv = Seq::new(modes@.len(), |i: int| modes@[i]@);
    let mut out: Vec<Resolution> = Vec::new();
    let mut i: usize = 0;
    while i < modes.len()
        invariant
            i <= modes.len(),
            mv == Seq::new(modes@.len(), |i: int| modes@[i]@),
            out@ == parsed_modes(mv.take(i as int)),
        decreases modes.len() - i,
    {
        let ghost prev = out@;
        match Resolution::parse(modes[i].as_str()) {
            Some(r) => out.push(r),
            None => {},
        }
        proof {
            assert(mv.take(i + 1).drop_last() =~= mv.take(i as int));
            assert(mv.take(i + 1).last() == modes@[i as int]@);
            assert(out@ =~= parsed_modes(mv.take(i + 1)));
        }
        i = i + 1;
    }
    assert(mv.take(modes.len() as int) =~= mv);
    out
}

/// A monitor as `hyprctl monitors -j` reports it, with its refresh rate in millihertz and its
/// scale in ten-thousandths.
pub fn monitor_from(
    name: String,
    description: String,
    width: i64,
    height: i64,
    refresh: i64,
    x: i64,
    y: i64,
    scale: i64,
    disabled: bool,
    focused: bool,
    mirror_of: Option<String>,
    available_modes: &Vec<String>,
) -> (m: Monitor)
    ensures
        m.name == name,
        m.description == description,
        m.resolution == (Resolution { width, height, refresh }),
        m.x == x && m.y == y && m.scale == scale,
        m.disabled == disabled && m.focused == focused,
        m@.mirror_of == mirror_field(
            match mirror_of {
                Some(s) => Some(s@),
                None => None,
            },
        ),
        m.resolutions@ == parsed_modes(Seq::new(available_modes@.len(), |i: int| available_modes@[i]@)),
{
    let mirror = match mirror_of {
        Some(s) => if str_eq(s.as_str(), "none") || s.as_str().unicode_len() == 0 {
            None
        } else {
            Some(s)
        },
        None => None,
    };
    Monitor {
        name,
        description,
        resolution: Resolution::new(width, height, refresh),
        x,
        y,
        scale,
        disabled,
        focused,
        mirror_of: mirror,
        resolutions: parse_modes(available_modes),
    }
}

/// What `hyprctl setcursor` answers: a refusal carries the theme it refused.
pub fn cursor_outcome(name: &str, success: bool) -> (r: Result<(), UserError>)
    ensures
        success ==> r is Ok,
        !success ==> (r matches Err(UserError::CursorNotApplied { name: n }) && n@ == name@),
{
    if success {
        Ok(())
    } else {
        let mut n = String::new();
        push_str(&mut n, name);
        Err(UserError::CursorNotApplied { name: n })
    }
}

} // verus!
