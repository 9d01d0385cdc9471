//! The compositor rules a layout is written as: one `hl.monitor` call per screen.
use vstd::prelude::*;

use crate::compositor::{described, find_described, monitors_view, Monitor, MonitorView};
use crate::layout::{mode_text, position_text, scale_text, Layout, LayoutView, ScreenView,
    StateView};
use crate::text::{push_char, push_str, push_string};

verus! {

/// What a mirror points at when its target is not plugged in.
pub open spec fn no_mirror() -> Seq<char> {
    "none"@
}

/// A backslash or a double quote escaped with a backslash, so the text can sit inside a quoted
/// string.
pub open spec fn lua_escaped(c: char) -> Seq<char> {
    if c == '\\' || c == '"' {
        seq!['\\', c]
    } else {
        seq![c]
    }
}

pub open spec fn lua_text(s: Seq<char>) -> Seq<char>
    decreases s.len(),
{
    if s.len() == 0 {
        Seq::empty()
    } else {
        lua_text(s.drop_last()) + lua_escaped(s.last())
    }
}

/// The connector name of the first monitor described as `desc`, or `none`.
pub open spec fn mirror_target(ms: Seq<MonitorView>, desc: Seq<char>) -> Seq<char> {
    match described(ms, desc) {
        Some(i) => ms[i].name,
        None => no_mirror(),
    }
}

/// The rule for one screen.
pub open spec fn rule_text(desc: Seq<char>, s: ScreenView, ms: Seq<MonitorView>) -> Seq<char> {
    let output = "hl.monitor({ output = \"desc:"@ + lua_text(desc);
    match s.state {
        StateView::Off => output + "\", disabled = true })\n"@,
        StateView::On => output + "\", mode = \""@ + mode_text(s.placement.mode)
            + "\", position = \""@ + position_text(s.placement.position) + "\", scale = \""@
            + scale_text(s.placement.scale) + "\", mirror = \"none\", disabled = false })\n"@,
        StateView::Mirroring(target) => output + "\", mode = \""@ + mode_text(s.placement.mode)
            + "\", scale = \""@ + scale_text(s.placement.scale) + "\", mirror = \""@ + lua_text(
            mirror_target(ms, target),
        ) + "\", disabled = false })\n"@,
    }
}

/// The rules for the first `n` screens, in order.
pub open spec fn rules_text(l: LayoutView, ms: Seq<MonitorView>, n: int) -> Seq<char>
    decreases n,
{
    if n <= 0 {
        Seq::empty()
    } else {
        rules_text(l, ms, n - 1) + rule_text(l.screens[n - 1].0, l.screens[n - 1].1, ms)
    }
}

/// Appends `s` escaped for a quoted Lua string.
pub fn push_lua(out: &mut String, s: &str)
    ensures
        final(out)@ == old(out)@ + lua_text(s@),
{
    let v = crate::text::chars_of(s);
    let mut i: usize = 0;
    while i < v.len()
        invariant
            i <= v.len(),
            v@ == s@,
            out@ == old(out)@ + lua_text(v@.take(i as int)),
        decreases v.len() - i,
    {
        let c = v[i];
        if c == '\\' || c == '"' {
            push_char(out, '\\');
        }
        push_char(out, c);
        proof {
            assert(v@.take(i + 1).drop_last() =~= v@.take(i as int));
            assert(out@ =~= old(out)@ + lua_text(v@.take(i + 1)));
        }
        i = i + 1;
    }
    assert(v@.take(v.len() as int) =~= v@);
}

/// `s` escaped for a quoted Lua string.
pub fn lua_string(s: &str) -> (r: String)
    ensures
        r@ == lua_text(s@),
{
    let mut r = String::new();
    push_lua(&mut r, s);
    assert(r@ =~= lua_text(s@));
    r
}

fn push_mirror_target(out: &mut String, monitors: &[Monitor], target: &str)
    ensures
        final(out)@ == old(out)@ + lua_text(mirror_target(monitors_view(monitors@), target@)),
{
    match find_described(monitors, target) {
        Some(t) => {
            assert(monitors_view(monitors@)[t as int] == monitors@[t as int]@);
            push_lua(out, monitors[t].name.as_str());
        },
        None => push_lua(out, "none"),
    }
}

/// Appends the rule for one screen.
#[verifier::rlimit(30)]
fn push_rule(out: &mut String, desc: &String, screen: &crate::layout::Screen, monitors: &[Monitor])
    ensures
        final(out)@ == old(out)@ + rule_text(desc@, screen@, monitors_view(monitors@)),
{
    push_str(out, "hl.monitor({ output = \"desc:");
    push_lua(out, desc.as_str());
    match &screen.state {
        crate::layout::State::Off => {
            push_str(out, "\", disabled = true })\n");
        },
        crate::layout::State::On => {
            push_str(out, "\", mode = \"");
            push_string(out, &screen.placement.mode.to_string());
            push_str(out, "\", position = \"");
            push_string(out, &screen.placement.position.to_string());
            push_str(out, "\", scale = \"");
            push_string(out, &screen.placement.scale.to_string());
            push_str(out, "\", mirror = \"none\", disabled = false })\n");
        },
        crate::layout::State::Mirroring(target) => {
            push_str(out, "\", mode = \"");
            push_string(out, &screen.placement.mode.to_string());
            push_str(out, "\", scale = \"");
            push_string(out, &screen.placement.scale.to_string());
            push_str(out, "\", mirror = \"");
            push_mirror_target(out, monitors, target.as_str());
            push_str(out, "\", disabled = false })\n");
        },
    }
    assert(final(out)@ =~= old(out)@ + rule_text(desc@, screen@, monitors_view(monitors@)));
}

/// Writes a layout as compositor rules: every rule spells out both the mode and the mirror, so
/// nothing left over from an earlier rule sticks.
pub fn render_rules(layout: &Layout, monitors: &[Monitor]) -> (out: String)
    ensures
        out@ == rules_text(layout@, monitors_view(monitors@), layout@.screens.len() as int),
{
    let ghost ms = monitors_view(monitors@);
    let mut out = String::new();
    let mut i: usize = 0;
    while i < layout.screens.len()
        invariant
            i <= layout.screens.len(),
            ms == monitors_view(monitors@),
            out@ == rules_text(layout@, ms, i as int),
        decreases layout.screens.len() - i,
    {
        let (desc, screen) = layout.entry(i);
        push_rule(&mut out, desc, screen, monitors);
        i = i + 1;
    }
    out
}

} // verus!
