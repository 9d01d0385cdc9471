//! Desktop notifications and on-screen displays.
use vstd::prelude::*;

use crate::sort::strings_view;
use crate::error::Error;
use crate::percent::Percent;
use crate::text::{int_text, push_char, push_int, push_str};

verus! {

#[derive(Clone, Copy, Debug, PartialEq, Eq, Structural)]
pub enum Icon {
    BrightnessSymbolic,
    DialogError,
    VideoDisplay,
}

pub open spec fn icon_name(icon: Icon) -> Seq<char> {
    match icon {
        Icon::BrightnessSymbolic => "display-brightness-symbolic"@,
        Icon::DialogError => "dialog-error"@,
        Icon::VideoDisplay => "video-display"@,
    }
}

impl Icon {
    /// The freedesktop icon name.
    pub fn as_str(self) -> (s: &'static str)
        ensures
            s@ == icon_name(self),
    {
        match self {
            Icon::BrightnessSymbolic => "display-brightness-symbolic",
            Icon::DialogError => "dialog-error",
            Icon::VideoDisplay => "video-display",
        }
    }
}

pub trait NotifierCtl {
    fn send(&self, summary: &str, body: &str, icon: Icon, timeout_ms: Option<u32>) -> Result<(), Error>;
}

pub trait OsdCtl {
    /// Shows a progress bar on a monitor, filled to the percentage.
    fn show_custom_progress(&self, monitor: &str, progress: Percent, icon: Icon) -> Result<(), Error>;
}

/// What a command wired without `--notify` or `--osd` talks to.
pub struct Silent;

impl NotifierCtl for Silent {
    fn send(&self, summary: &str, body: &str, icon: Icon, timeout_ms: Option<u32>) -> (r: Result<(), Error>)
        ensures
            r is Ok,
    {
        Ok(())
    }
}

impl OsdCtl for Silent {
    fn show_custom_progress(&self, monitor: &str, progress: Percent, icon: Icon) -> (r: Result<(), Error>)
        ensures
            r is Ok,
    {
        Ok(())
    }
}


fn owned(s: &str) -> (r: String)
    ensures
        r@ == s@,
{
    let mut r = String::new();
    push_str(&mut r, s);
    r
}

/// The arguments `notify-send` is run with.
pub fn notify_send_args(summary: &str, body: &str, icon: Icon, timeout_ms: Option<u32>) -> (args: Vec<String>)
    ensures
        strings_view(args@) == match timeout_ms {
            Some(t) => seq![summary@, body@, "-i"@, icon_name(icon), "-t"@, int_text(t as int)],
            None => seq![summary@, body@, "-i"@, icon_name(icon)],
        },
{
    let mut args: Vec<String> = Vec::new();
    args.push(owned(summary));
    args.push(owned(body));
    args.push(owned("-i"));
    args.push(owned(icon.as_str()));
    match timeout_ms {
        Some(t) => {
            args.push(owned("-t"));
            let mut s = String::new();
            push_int(&mut s, t as i64);
            args.push(s);
        },
        None => {},
    }
    assert(strings_view(args@) =~= match timeout_ms {
        Some(t) => seq![summary@, body@, "-i"@, icon_name(icon), "-t"@, int_text(t as int)],
        None => seq![summary@, body@, "-i"@, icon_name(icon)],
    });
    args
}

/// A percentage as a fraction with two decimals, as `swayosd-client` takes it.
pub open spec fn progress_text(p: int) -> Seq<char> {
    int_text(p / 100) + seq!['.'] + seq![
        crate::text::digit_char((p % 100) / 10),
        crate::text::digit_char(p % 10),
    ]
}

/// The arguments `swayosd-client` is run with.
pub fn osd_args(monitor: &str, progress: Percent, icon: Icon) -> (args: Vec<String>)
    requires
        progress.wf(),
    ensures
        strings_view(args@) == seq![
            "--monitor"@,
            monitor@,
            "--custom-progress"@,
            progress_text(progress.value()),
            "--custom-icon"@,
            icon_name(icon),
        ],
{
    let p = progress.get();
    let mut text = String::new();
    push_int(&mut text, p / 100);
    push_char(&mut text, '.');
    push_char(&mut text, digit((p % 100) / 10));
    push_char(&mut text, digit(p % 10));
    assert(text@ =~= progress_text(progress.value()));
    let mut args: Vec<String> = Vec::new();
    args.push(owned("--monitor"));
    args.push(owned(monitor));
    args.push(owned("--custom-progress"));
    args.push(text);
    args.push(owned("--custom-icon"));
    args.push(owned(icon.as_str()));
    assert(strings_view(args@) =~= seq![
        "--monitor"@,
        monitor@,
        "--custom-progress"@,
        progress_text(progress.value()),
        "--custom-icon"@,
        icon_name(icon),
    ]);
    args
}

fn digit(d: i64) -> (c: char)
    requires
        0 <= d < 10,
    ensures
        c == crate::text::digit_char(d as int),
{
    let mut s = String::new();
    push_int(&mut s, d);
    let v = crate::text::chars_of(s.as_str());
    assert(v@ =~= int_text(d as int));
    assert(int_text(d as int) == seq![crate::text::digit_char(d as int)]);
    v[0]
}

} // verus!
