//! Failures worth putting in front of whoever is at the keyboard.
use vstd::prelude::*;

use crate::layout::{side_text, Side};
use crate::resolution::{size_text, Size};
use crate::text::{push_str, push_string};

verus! {

/// Every variant keeps its parameters apart from its wording, so a catalogue lookup can replace
/// `message` without touching a single call site.
#[derive(Clone, Debug, PartialEq, Eq)]
pub enum UserError {
    UnknownMonitor { name: String },
    NoStoredScreen { description: String },
    CannotPlaceSelfRelative,
    CannotPlace { name: String, side: Side, reference: String },
    CannotDisableLastScreen,
    DidNotSwitchOff { name: String },
    DidNotSwitchOn { name: String },
    LayoutDidNotSettle,
    NoScreenToBuildAround,
    NoSuchMode { name: String, size: Size },
    InvalidMode { value: String },
    InvalidScale { value: String },
    CompositorNotRunning,
    CompositorRejected,
    AnotherDisplayCommandRunning,
    ProfileUnreadable { path: String },
    DdcNotResponding { name: String },
    UnknownWallpaper { name: String },
    NoWallpapers,
    NoCurrentWallpaper,
    WallpaperDirUnreadable { path: String },
    NoPreferredWallpaper,
    NoPreferredCursor,
    CursorNotApplied { name: String },
    InvalidThemeValue { key: String },
    NightlightNotApplied,
    IdleDaemonNotRunning,
    ToolMissing { tool: String },
    Unexpected,
}

/// The English wording of each failure.
pub open spec fn user_message(e: UserError) -> Seq<char> {
    match e {
        UserError::UnknownMonitor { name } => "Unknown monitor: "@ + name@,
        UserError::NoStoredScreen { description } => "No stored screen for "@ + description@,
        UserError::CannotPlaceSelfRelative => "Cannot place a monitor relative to itself"@,
        UserError::CannotPlace { name, side, reference } => "Cannot place "@ + name@ + " "@
            + side_text(side) + " "@ + reference@,
        UserError::CannotDisableLastScreen => "Cannot disable the last enabled screen"@,
        UserError::DidNotSwitchOff { name } => name@ + " did not switch off"@,
        UserError::DidNotSwitchOn { name } => name@ + " did not switch on"@,
        UserError::LayoutDidNotSettle => "The screen layout did not settle"@,
        UserError::NoScreenToBuildAround => "No enabled screen to build the layout around"@,
        UserError::NoSuchMode { name, size } => name@ + " has no "@ + size_text(
            size.width as int,
            size.height as int,
        ) + " mode"@,
        UserError::InvalidMode { value } => "Invalid mode: "@ + value@
            + " (like 1920x1080 or 1920x1080@60)"@,
        UserError::InvalidScale { value } => "Invalid scale: "@ + value@
            + " (a positive number, or auto)"@,
        UserError::CompositorNotRunning => "Hyprland is not running"@,
        UserError::CompositorRejected => "Hyprland refused the command"@,
        UserError::AnotherDisplayCommandRunning => "Another display command is still running"@,
        UserError::ProfileUnreadable { path } => "The saved display profile cannot be read: "@
            + path@,
        UserError::DdcNotResponding { name } => name@ + " does not respond to DDC/CI"@,
        UserError::UnknownWallpaper { name } => "Unknown wallpaper: "@ + name@,
        UserError::NoWallpapers => "No wallpapers found"@,
        UserError::NoCurrentWallpaper => "No wallpaper is currently set"@,
        UserError::WallpaperDirUnreadable { path } => "The wallpapers directory cannot be read: "@
            + path@,
        UserError::NoPreferredWallpaper => "No wallpaper name found in the current theme"@,
        UserError::NoPreferredCursor => "No cursor config found for the current theme"@,
        UserError::CursorNotApplied { name } => "The cursor theme "@ + name@ + " was not applied"@,
        UserError::InvalidThemeValue { key } => "The current theme has an unusable "@ + key@,
        UserError::NightlightNotApplied => "The night light was not changed"@,
        UserError::IdleDaemonNotRunning => "The idle inhibitor daemon is not running"@,
        UserError::ToolMissing { tool } => tool@ + " is not installed"@,
        UserError::Unexpected => "Something went wrong"@,
    }
}

impl UserError {
    /// What a person reads.
    pub fn message(&self) -> (s: String)
        ensures
            s@ == user_message(*self),
    {
        let mut s = String::new();
        match self {
            UserError::UnknownMonitor { name } => {
                push_str(&mut s, "Unknown monitor: ");
                push_string(&mut s, name);
            },
            UserError::NoStoredScreen { description } => {
                push_str(&mut s, "No stored screen for ");
                push_string(&mut s, description);
            },
            UserError::CannotPlaceSelfRelative => {
                push_str(&mut s, "Cannot place a monitor relative to itself");
            },
            UserError::CannotPlace { name, side, reference } => {
                push_str(&mut s, "Cannot place ");
                push_string(&mut s, name);
                push_str(&mut s, " ");
                let t = side.to_string();
                push_string(&mut s, &t);
                push_str(&mut s, " ");
                push_string(&mut s, reference);
            },
            UserError::CannotDisableLastScreen => {
                push_str(&mut s, "Cannot disable the last enabled screen");
            },
            UserError::DidNotSwitchOff { name } => {
                push_string(&mut s, name);
                push_str(&mut s, " did not switch off");
            },
            UserError::DidNotSwitchOn { name } => {
                push_string(&mut s, name);
                push_str(&mut s, " did not switch on");
            },
            UserError::LayoutDidNotSettle => {
                push_str(&mut s, "The screen layout did not settle");
            },
            UserError::NoScreenToBuildAround => {
                push_str(&mut s, "No enabled screen to build the layout around");
            },
            UserError::NoSuchMode { name, size } => {
                push_string(&mut s, name);
                push_str(&mut s, " has no ");
                let t = size.to_string();
                push_string(&mut s, &t);
                push_str(&mut s, " mode");
            },
            UserError::InvalidMode { value } => {
                push_str(&mut s, "Invalid mode: ");
                push_string(&mut s, value);
                push_str(&mut s, " (like 1920x1080 or 1920x1080@60)");
            },
            UserError::InvalidScale { value } => {
                push_str(&mut s, "Invalid scale: ");
                push_string(&mut s, value);
                push_str(&mut s, " (a positive number, or auto)");
            },
            UserError::CompositorNotRunning => {
                push_str(&mut s, "Hyprland is not running");
            },
            UserError::CompositorRejected => {
                push_str(&mut s, "Hyprland refused the command");
            },
            UserError::AnotherDisplayCommandRunning => {
                push_str(&mut s, "Another display command is still running");
            },
            UserError::ProfileUnreadable { path } => {
                push_str(&mut s, "The saved display profile cannot be read: ");
                push_string(&mut s, path);
            },
            UserError::DdcNotResponding { name } => {
                push_string(&mut s, name);
                push_str(&mut s, " does not respond to DDC/CI");
            },
            UserError::UnknownWallpaper { name } => {
                push_str(&mut s, "Unknown wallpaper: ");
                push_string(&mut s, name);
            },
            UserError::NoWallpapers => {
                push_str(&mut s, "No wallpapers found");
            },
            UserError::NoCurrentWallpaper => {
                push_str(&mut s, "No wallpaper is currently set");
            },
            UserError::WallpaperDirUnreadable { path } => {
                push_str(&mut s, "The wallpapers directory cannot be read: ");
                push_string(&mut s, path);
            },
            UserError::NoPreferredWallpaper => {
                push_str(&mut s, "No wallpaper name found in the current theme");
            },
            UserError::NoPreferredCursor => {
                push_str(&mut s, "No cursor config found for the current theme");
            },
            UserError::CursorNotApplied { name } => {
                push_str(&mut s, "The cursor theme ");
                push_string(&mut s, name);
                push_str(&mut s, " was not applied");
            },
            UserError::InvalidThemeValue { key } => {
                push_str(&mut s, "The current theme has an unusable ");
                push_string(&mut s, key);
            },
            UserError::NightlightNotApplied => {
                push_str(&mut s, "The night light was not changed");
            },
            UserError::IdleDaemonNotRunning => {
                push_str(&mut s, "The idle inhibitor daemon is not running");
            },
            UserError::ToolMissing { tool } => {
                push_string(&mut s, tool);
                push_str(&mut s, " is not installed");
            },
            UserError::Unexpected => {
                push_str(&mut s, "Something went wrong");
            },
        }
        assert(s@ =~= user_message(*self));
        s
    }
}

/// A failure: one a person can act on, or a technical one whose English detail goes to the log.
#[derive(Clone, Debug, PartialEq, Eq)]
pub enum Error {
    User(UserError),
    Other(String),
}

impl Error {
    /// The failure a person can act on, if this is one.
    pub fn user(&self) -> (r: Option<&UserError>)
        ensures
            match self {
                Error::User(u) => r == Some(u),
                Error::Other(_) => r is None,
            },
    {
        match self {
            Error::User(u) => Some(u),
            Error::Other(_) => None,
        }
    }

    /// What a notification shows: the user-facing wording, or a generic one.
    pub fn message(&self) -> (s: String)
        ensures
            s@ == match self {
                Error::User(u) => user_message(*u),
                Error::Other(_) => user_message(UserError::Unexpected),
            },
    {
        match self {
            Error::User(u) => u.message(),
            Error::Other(_) => UserError::Unexpected.message(),
        }
    }
}

} // verus!
