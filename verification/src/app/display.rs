//! Display commands: each reads the monitors once, reconciles the stored profile with them,
//! decides, writes the rules and saves the profile the compositor settles on.
use vstd::prelude::*;

use crate::sort::strings_view;
use crate::compositor::{described, description_of, find_described, find_named, monitors_view,
    name_of, named, CompositorCtl, Monitor, MonitorView, Workspace};
use crate::engine::{
    self, enabled_screen, extended, lit_count, mirrored, only_kept, switched_off, updated,
};
use crate::error::{Error, UserError};
use crate::layout::{
    opt_view, parse_scale, Direction, Layout, LayoutView, Mode, Placement, Scale, ScreenView, Side,
};
use crate::notify::{Icon, NotifierCtl};
use crate::observe::{layout_matches, observed, synced};
use crate::place::{self, can_place, place_fits, placed};
use crate::resolution::{parse_resolution, parse_size, Resolution, Size};
use crate::store::LayoutStore;
use crate::text::{push_str, push_string, str_eq, string_of};

verus! {

/// Rules land asynchronously, so how long a reading is given to stop changing.
#[derive(Clone, Copy, Debug, PartialEq, Eq, Structural)]
pub struct Settle {
    pub tries: u32,
    pub interval_ms: u64,
}

impl Default for Settle {
    fn default() -> (s: Self)
        ensures
            s.tries == 30,
            s.interval_ms == 100,
    {
        Settle { tries: 30, interval_ms: 100 }
    }
}

/// Waiting between two readings.
pub trait Pause {
    fn pause(&self, millis: u64);
}

// ---------------------------------------------------------------------------------------------
// Decisions
// ---------------------------------------------------------------------------------------------

pub open spec fn empty_layout() -> LayoutView {
    LayoutView { anchor: None, screens: Seq::empty() }
}

/// A layout that some profile was reconciled into against these monitors.
pub open spec fn reconciled_with(ms: Seq<MonitorView>, l: LayoutView) -> bool {
    exists|p: LayoutView| synced(p, ms, l)
}

/// One snapshot per command, reconciled with the stored profile before anything is decided.
pub fn reconciled(stored: Option<Layout>, monitors: &[Monitor]) -> (r: Layout)
    requires
        stored matches Some(l) ==> l@.wf(),
    ensures
        synced(
            match stored {
                Some(l) => l@,
                None => empty_layout(),
            },
            monitors_view(monitors@),
            r@,
        ),
{
    let mut layout = match stored {
        Some(l) => l,
        None => {
            let l = Layout::new();
            assert(l@.screens =~= empty_layout().screens);
            l
        },
    };
    layout.sync(monitors);
    layout
}

/// Wayland has no primary display, so the anchor is only what `extend` and `mirror` build
/// around: the stored anchor while it is stored, else the focused screen, else the first lit one.
pub open spec fn anchor_choice(ms: Seq<MonitorView>, l: LayoutView) -> Option<Seq<char>> {
    match l.anchor {
        Some(a) if l.contains(a) => Some(a),
        _ => if exists|i: int| 0 <= i < ms.len() && #[trigger] ms[i].focused {
            Some(
                ms[choose|i: int|
                    0 <= i < ms.len() && #[trigger] ms[i].focused && forall|j: int|
                        0 <= j < i ==> !ms[j].focused].description,
            )
        } else if exists|i: int| 0 <= i < ms.len() && !#[trigger] ms[i].disabled {
            Some(
                ms[choose|i: int|
                    0 <= i < ms.len() && !#[trigger] ms[i].disabled && forall|j: int|
                        0 <= j < i ==> ms[j].disabled].description,
            )
        } else {
            None
        },
    }
}

fn first_where(monitors: &[Monitor], focused: bool) -> (r: Option<usize>)
    ensures
        focused ==> match r {
            Some(i) => i < monitors@.len() && monitors@[i as int].focused && forall|j: int|
                0 <= j < i ==> !monitors@[j].focused,
            None => forall|j: int| 0 <= j < monitors@.len() ==> !monitors@[j].focused,
        },
        !focused ==> match r {
            Some(i) => i < monitors@.len() && !monitors@[i as int].disabled && forall|j: int|
                0 <= j < i ==> monitors@[j].disabled,
            None => forall|j: int| 0 <= j < monitors@.len() ==> monitors@[j].disabled,
        },
{
    let mut i: usize = 0;
    while i < monitors.len()
        invariant
            i <= monitors.len(),
            focused ==> forall|j: int| 0 <= j < i ==> !monitors@[j].focused,
            !focused ==> forall|j: int| 0 <= j < i ==> monitors@[j].disabled,
        decreases monitors.len() - i,
    {
        if (focused && monitors[i].focused) || (!focused && !monitors[i].disabled) {
            return Some(i);
        }
        i = i + 1;
    }
    None
}

pub fn anchor_description(monitors: &[Monitor], layout: &Layout) -> (r: Result<String, UserError>)
    requires
        layout@.wf(),
    ensures
        match anchor_choice(monitors_view(monitors@), layout@) {
            Some(a) => r matches Ok(d) && d@ == a,
            None => r == Err::<String, UserError>(UserError::NoScreenToBuildAround),
        },
{
    let ghost ms = monitors_view(monitors@);
    match &layout.anchor {
        Some(a) => {
            if layout.contains_key(a.as_str()) {
                return Ok(a.clone());
            }
        },
        None => {},
    }
    match first_where(monitors, true) {
        Some(i) => {
            proof {
                assert(ms[i as int].focused);
                let w = choose|k: int|
                    0 <= k < ms.len() && #[trigger] ms[k].focused && forall|j: int|
                        0 <= j < k ==> !ms[j].focused;
                if w < i {
                    assert(!ms[w].focused);
                } else if w > i {
                    assert(!ms[i as int].focused);
                }
            }
            return Ok(monitors[i].description.clone());
        },
        None => {
            proof {
                assert forall|k: int| 0 <= k < ms.len() implies !#[trigger] ms[k].focused by {
                    assert(!monitors@[k].focused);
                }
            }
        },
    }
    match first_where(monitors, false) {
        Some(i) => {
            proof {
                assert(!ms[i as int].disabled);
                let w = choose|k: int|
                    0 <= k < ms.len() && !#[trigger] ms[k].disabled && forall|j: int|
                        0 <= j < k ==> ms[j].disabled;
                if w < i {
                    assert(ms[w].disabled);
                } else if w > i {
                    assert(ms[i as int].disabled);
                }
            }
            Ok(monitors[i].description.clone())
        },
        None => {
            proof {
                assert forall|k: int| 0 <= k < ms.len() implies #[trigger] ms[k].disabled by {
                    assert(monitors@[k].disabled);
                }
            }
            Err(UserError::NoScreenToBuildAround)
        },
    }
}

/// Among the first `n` modes, the last of the highest refresh rate with the given size.
pub open spec fn best_mode(rs: Seq<Resolution>, size: Size, n: int) -> Option<int>
    decreases n,
{
    if n <= 0 {
        None
    } else {
        let b = best_mode(rs, size, n - 1);
        let r = rs[n - 1];
        if r.width == size.width && r.height == size.height && (b is None || r.refresh
            >= rs[b.unwrap()].refresh) {
            Some(n - 1)
        } else {
            b
        }
    }
}

/// The modes of the first monitor with the name.
pub open spec fn modes_named(ms: Seq<MonitorView>, name: Seq<char>) -> Seq<Resolution> {
    match named(ms, name) {
        Some(i) => ms[i].resolutions,
        None => Seq::empty(),
    }
}

fn best_mode_exec(rs: &Vec<Resolution>, size: Size) -> (r: Option<usize>)
    ensures
        match r {
            Some(b) => best_mode(rs@, size, rs@.len() as int) == Some(b as int) && b < rs@.len(),
            None => best_mode(rs@, size, rs@.len() as int) is None,
        },
{
    let mut best: Option<usize> = None;
    let mut j: usize = 0;
    while j < rs.len()
        invariant
            j <= rs.len(),
            match best {
                Some(b) => best_mode(rs@, size, j as int) == Some(b as int) && b < j,
                None => best_mode(rs@, size, j as int) is None,
            },
        decreases rs.len() - j,
    {
        let r = rs[j];
        if r.width == size.width && r.height == size.height {
            match best {
                Some(b) => {
                    if r.refresh >= rs[b].refresh {
                        best = Some(j);
                    }
                },
                None => {
                    best = Some(j);
                },
            }
        }
        j = j + 1;
    }
    best
}

fn modes_named_exec(monitors: &[Monitor], name: &str) -> (r: Vec<Resolution>)
    ensures
        r@ == modes_named(monitors_view(monitors@), name@),
{
    match find_named(monitors, name) {
        Some(i) => {
            assert(monitors_view(monitors@)[i as int] == monitors@[i as int]@);
            crate::compositor::copy_resolutions(&monitors[i].resolutions)
        },
        None => Vec::new(),
    }
}

/// What a mode argument resolves to: `preferred`, a full mode, or a bare size taking the
/// highest refresh the screen offers (the last one listed among equals).
pub fn resolve_mode(monitors: &[Monitor], name: &str, mode: &str) -> (r: Result<Mode, UserError>)
    ensures
        mode@ == "preferred"@ ==> r == Ok::<Mode, UserError>(Mode::Preferred),
        mode@ != "preferred"@ && parse_resolution(mode@) is Some ==> r == Ok::<Mode, UserError>(
            Mode::Fixed(parse_resolution(mode@).unwrap()),
        ),
        mode@ != "preferred"@ && parse_resolution(mode@) is None && parse_size(mode@) is None ==> (r
            matches Err(UserError::InvalidMode { value }) && value@ == mode@),
        mode@ != "preferred"@ && parse_resolution(mode@) is None && parse_size(mode@) is Some ==> ({
            let rs = modes_named(monitors_view(monitors@), name@);
            let size = parse_size(mode@).unwrap();
            match best_mode(rs, size, rs.len() as int) {
                Some(j) => r == Ok::<Mode, UserError>(Mode::Fixed(rs[j])),
                None => r matches Err(UserError::NoSuchMode { name: n, size: s }) && n@ == name@
                    && s == size,
            }
        }),
{
    if str_eq(mode, "preferred") {
        return Ok(Mode::Preferred);
    }
    match Resolution::parse(mode) {
        Some(r) => return Ok(Mode::Fixed(r)),
        None => {},
    }
    let size = match Size::parse(mode) {
        Some(s) => s,
        None => {
            let mut v = String::new();
            push_str(&mut v, mode);
            return Err(UserError::InvalidMode { value: v });
        },
    };
    let rs = modes_named_exec(monitors, name);
    match best_mode_exec(&rs, size) {
        Some(b) => Ok(Mode::Fixed(rs[b])),
        None => {
            let mut n = String::new();
            push_str(&mut n, name);
            Err(UserError::NoSuchMode { name: n, size })
        },
    }
}

/// Any monitor that should be off but is still lit, named after the first such monitor.
pub open spec fn still_lit(ms: Seq<MonitorView>, keep: Seq<char>, only: bool, i: int) -> bool {
    !ms[i].disabled && if only {
        ms[i].name != keep
    } else {
        ms[i].name == keep
    }
}

/// Reports the first monitor that should have switched off and did not: with `only`, every
/// monitor but `name`; otherwise `name` itself.
pub fn confirm_off(settled: &[Monitor], name: &str, only: bool) -> (r: Result<(), UserError>)
    ensures
        (forall|i: int|
            0 <= i < settled@.len() ==> !still_lit(monitors_view(settled@), name@, only, i)) <==> r
            is Ok,
        r is Err ==> exists|i: int|
            0 <= i < settled@.len() && still_lit(monitors_view(settled@), name@, only, i) && (r
                matches Err(UserError::DidNotSwitchOff { name: n }) && n@ == settled@[i].name@)
                && forall|j: int|
                0 <= j < i ==> !still_lit(monitors_view(settled@), name@, only, j),
{
    let ghost ms = monitors_view(settled@);
    let mut i: usize = 0;
    while i < settled.len()
        invariant
            i <= settled.len(),
            ms == monitors_view(settled@),
            forall|j: int| 0 <= j < i ==> !still_lit(ms, name@, only, j),
        decreases settled.len() - i,
    {
        let m = &settled[i];
        assert(ms[i as int] == m@);
        let named_it = str_eq(m.name.as_str(), name);
        if !m.disabled && ((only && !named_it) || (!only && named_it)) {
            proof {
                assert(still_lit(ms, name@, only, i as int));
            }
            let n = m.name.clone();
            let r = Err(UserError::DidNotSwitchOff { name: n });
            proof {
                assert(r matches Err(UserError::DidNotSwitchOff { name: n }) && n@ == settled@[i as int].name@);
            }
            return r;
        }
        i = i + 1;
    }
    Ok(())
}

/// A screen asked to switch on that is still off or still mirroring.
pub open spec fn not_on(ms: Seq<MonitorView>, name: Seq<char>) -> bool {
    exists|i: int|
        0 <= i < ms.len() && #[trigger] ms[i].name == name && (ms[i].disabled
            || ms[i].mirror_of is Some)
}

pub fn confirm_on(settled: &[Monitor], name: &str) -> (r: Result<(), UserError>)
    ensures
        not_on(monitors_view(settled@), name@) ==> (r matches Err(UserError::DidNotSwitchOn { name: n })
            && n@ == name@),
        !not_on(monitors_view(settled@), name@) ==> r is Ok,
{
    let ghost ms = monitors_view(settled@);
    let mut i: usize = 0;
    while i < settled.len()
        invariant
            i <= settled.len(),
            ms == monitors_view(settled@),
            forall|j: int|
                0 <= j < i ==> !(#[trigger] ms[j].name == name@ && (ms[j].disabled
                    || ms[j].mirror_of is Some)),
        decreases settled.len() - i,
    {
        let m = &settled[i];
        assert(ms[i as int] == m@);
        if str_eq(m.name.as_str(), name) && (m.disabled || m.mirror_of.is_some()) {
            proof {
                assert(ms[i as int].name == name@ && (ms[i as int].disabled || ms[i as int].mirror_of is Some));
                assert(not_on(ms, name@));
            }
            let mut n = String::new();
            push_str(&mut n, name);
            return Err(UserError::DidNotSwitchOn { name: n });
        }
        i = i + 1;
    }
    Ok(())
}

/// Whether the first monitor with the name is switched off.
pub fn is_switched_off(monitors: &[Monitor], name: &str) -> (b: bool)
    ensures
        b == match named(monitors_view(monitors@), name@) {
            Some(i) => monitors_view(monitors@)[i].disabled,
            None => false,
        },
{
    match find_named(monitors, name) {
        Some(i) => {
            assert(monitors_view(monitors@)[i as int] == monitors@[i as int]@);
            monitors[i].disabled
        },
        None => false,
    }
}

/// The connector names of the screens in a given switch state, in key order, for the screens
/// that are plugged in.
pub open spec fn names_where(l: LayoutView, ms: Seq<MonitorView>, off: bool, n: int) -> Seq<Seq<char>>
    decreases n,
{
    if n <= 0 {
        Seq::empty()
    } else {
        names_where(l, ms, off, n - 1) + if l.screens[n - 1].1.off() == off && described(
            ms,
            l.screens[n - 1].0,
        ) is Some {
            seq![ms[described(ms, l.screens[n - 1].0).unwrap()].name]
        } else {
            Seq::empty()
        }
    }
}


fn name_if(monitors: &[Monitor], desc: &String, is_off: bool, off: bool) -> (r: Option<String>)
    ensures
        match r {
            Some(n) => is_off == off && described(monitors_view(monitors@), desc@) is Some && n@
                == monitors_view(monitors@)[described(monitors_view(monitors@), desc@).unwrap()].name,
            None => !(is_off == off && described(monitors_view(monitors@), desc@) is Some),
        },
{
    if is_off != off {
        return None;
    }
    match find_described(monitors, desc.as_str()) {
        Some(t) => {
            assert(monitors_view(monitors@)[t as int] == monitors@[t as int]@);
            Some(monitors[t].name.clone())
        },
        None => None,
    }
}

#[verifier::spinoff_prover]
#[verifier::rlimit(60)]
fn names_in_state(monitors: &[Monitor], layout: &Layout, off: bool) -> (r: Vec<String>)
    ensures
        strings_view(r@) == names_where(layout@, monitors_view(monitors@), off, layout@.screens.len() as int),
{
    let ghost ms = monitors_view(monitors@);
    let mut out: Vec<String> = Vec::new();
    let mut i: usize = 0;
    while i < layout.screens.len()
        invariant
            i <= layout.screens.len(),
            ms == monitors_view(monitors@),
            strings_view(out@) == names_where(layout@, ms, off, i as int),
        decreases layout.screens.len() - i,
    {
        let (desc, screen) = layout.entry(i);
        let ghost prev = strings_view(out@);
        let piece = name_if(monitors, desc, screen.is_off(), off);
        match piece {
            Some(n) => {
                out.push(n);
                assert(strings_view(out@) =~= prev.push(n@));
            },
            None => {
                assert(strings_view(out@) =~= prev);
            },
        }
        proof {
            let w = names_where(layout@, ms, off, i + 1);
            assert(w == names_where(layout@, ms, off, i as int) + if layout@.screens[i as int].1.off()
                == off && described(ms, layout@.screens[i as int].0) is Some {
                seq![ms[described(ms, layout@.screens[i as int].0).unwrap()].name]
            } else {
                Seq::empty()
            });
            assert(strings_view(out@) =~= w);
        }
        i = i + 1;
    }
    out
}

/// The connector name of the layout's anchor, if it is plugged in.
pub open spec fn anchor_name(l: LayoutView, ms: Seq<MonitorView>) -> Option<Seq<char>> {
    match l.anchor {
        Some(a) => match described(ms, a) {
            Some(i) => Some(ms[i].name),
            None => None,
        },
        None => None,
    }
}

/// Where evacuated workspaces go: the anchor's screen while it stays lit, else the first screen
/// that stays lit.
pub open spec fn evacuation_target(l: LayoutView, ms: Seq<MonitorView>) -> Option<Seq<char>> {
    let staying = names_where(l, ms, false, l.screens.len() as int);
    if anchor_name(l, ms) is Some && staying.contains(anchor_name(l, ms).unwrap()) {
        anchor_name(l, ms)
    } else if staying.len() > 0 {
        Some(staying[0])
    } else {
        None
    }
}

#[verifier::spinoff_prover]
#[verifier::rlimit(60)]
fn anchor_name_exec(monitors: &[Monitor], layout: &Layout) -> (r: Option<String>)
    ensures
        match r {
            Some(n) => anchor_name(layout@, monitors_view(monitors@)) == Some(n@),
            None => anchor_name(layout@, monitors_view(monitors@)) is None,
        },
{
    match &layout.anchor {
        Some(a) => name_of(monitors, a.as_str()),
        None => None,
    }
}

/// The connector name of a stored profile's anchor, if there is a profile and its anchor is
/// plugged in.
pub fn stored_anchor(stored: Option<Layout>, monitors: &[Monitor]) -> (r: Option<String>)
    ensures
        opt_view(r) == match stored {
            Some(l) => anchor_name(l@, monitors_view(monitors@)),
            None => None,
        },
{
    match stored {
        Some(l) => anchor_name_exec(monitors, &l),
        None => None,
    }
}

pub struct WorkspaceView {
    pub name: Seq<char>,
    pub monitor: Seq<char>,
}

pub open spec fn workspaces_view(ws: Seq<Workspace>) -> Seq<WorkspaceView> {
    Seq::new(ws.len(), |i: int| WorkspaceView { name: ws[i].name@, monitor: ws[i].monitor@ })
}

/// The workspaces that must move, in order, and where to: every ordinary workspace on a screen
/// that is going off goes to the evacuation target.
pub open spec fn evacuation_moves(l: LayoutView, ms: Seq<MonitorView>, ws: Seq<WorkspaceView>, n: int) -> Seq<(Seq<char>, Seq<char>)>
    decreases n,
{
    if n <= 0 {
        Seq::empty()
    } else {
        let leaving = names_where(l, ms, true, l.screens.len() as int);
        let w = ws[n - 1];
        evacuation_moves(l, ms, ws, n - 1) + match evacuation_target(l, ms) {
            Some(t) => if !"special"@.is_prefix_of(w.name) && leaving.contains(w.monitor) {
                seq![(w.name, t)]
            } else {
                Seq::empty()
            },
            None => Seq::empty(),
        }
    }
}

fn contains_name(v: &Vec<String>, n: &str) -> (b: bool)
    ensures
        b == strings_view(v@).contains(n@),
{
    let mut i: usize = 0;
    while i < v.len()
        invariant
            i <= v.len(),
            forall|j: int| 0 <= j < i ==> v@[j]@ != n@,
        decreases v.len() - i,
    {
        if str_eq(v[i].as_str(), n) {
            assert(strings_view(v@)[i as int] == n@);
            return true;
        }
        i = i + 1;
    }
    proof {
        if strings_view(v@).contains(n@) {
            let j = choose|j: int| 0 <= j < strings_view(v@).len() && strings_view(v@)[j] == n@;
            assert(v@[j]@ != n@);
        }
    }
    false
}

pub fn evacuation_target_of(monitors: &[Monitor], layout: &Layout) -> (r: Option<String>)
    ensures
        match r {
            Some(t) => evacuation_target(layout@, monitors_view(monitors@)) == Some(t@),
            None => evacuation_target(layout@, monitors_view(monitors@)) is None,
        },
{
    let staying = names_in_state(monitors, layout, false);
    let anchor = anchor_name_exec(monitors, layout);
    let keep = match &anchor {
        Some(n) => contains_name(&staying, n.as_str()),
        None => false,
    };
    if keep {
        return anchor;
    }
    if staying.len() > 0 {
        Some(staying[0].clone())
    } else {
        None
    }
}

/// Disabling a monitor does not move its workspaces off it, leaving a workspace key pointing at
/// a screen with no output; these are the moves that prevent it.
pub fn evacuation(monitors: &[Monitor], layout: &Layout, workspaces: &[Workspace]) -> (r: Vec<(String, String)>)
    ensures
        Seq::new(r@.len(), |i: int| (r@[i].0@, r@[i].1@)) == evacuation_moves(
            layout@,
            monitors_view(monitors@),
            workspaces_view(workspaces@),
            workspaces@.len() as int,
        ),
{
    let ghost ms = monitors_view(monitors@);
    let ghost wv = workspaces_view(workspaces@);
    let target = evacuation_target_of(monitors, layout);
    let leaving = names_in_state(monitors, layout, true);
    let mut moves: Vec<(String, String)> = Vec::new();
    let mut i: usize = 0;
    while i < workspaces.len()
        invariant
            i <= workspaces.len(),
            ms == monitors_view(monitors@),
            wv == workspaces_view(workspaces@),
            strings_view(leaving@) == names_where(layout@, ms, true, layout@.screens.len() as int),
            match target {
                Some(t) => evacuation_target(layout@, ms) == Some(t@),
                None => evacuation_target(layout@, ms) is None,
            },
            Seq::new(moves@.len(), |k: int| (moves@[k].0@, moves@[k].1@)) == evacuation_moves(
                layout@,
                ms,
                wv,
                i as int,
            ),
        decreases workspaces.len() - i,
    {
        let ghost prev = moves@;
        let w = &workspaces[i];
        assert(wv[i as int] == WorkspaceView { name: w.name@, monitor: w.monitor@ });
        match &target {
            Some(t) => {
                if !w.is_special() && contains_name(&leaving, w.monitor.as_str()) {
                    moves.push((w.name.clone(), t.clone()));
                }
            },
            None => {},
        }
        assert(Seq::new(moves@.len(), |k: int| (moves@[k].0@, moves@[k].1@)) =~= evacuation_moves(
            layout@,
            ms,
            wv,
            i + 1,
        ));
        i = i + 1;
    }
    moves
}

/// The screen a hotplug notice names: the last lit monitor.
pub fn last_lit_name(monitors: &[Monitor]) -> (r: Option<String>)
    ensures
        match r {
            Some(n) => exists|i: int|
                0 <= i < monitors@.len() && !monitors@[i].disabled && monitors@[i].name@ == n@
                    && forall|j: int| i < j < monitors@.len() ==> monitors@[j].disabled,
            None => forall|j: int| 0 <= j < monitors@.len() ==> monitors@[j].disabled,
        },
{
    let mut i: usize = monitors.len();
    while i > 0
        invariant
            i <= monitors.len(),
            forall|j: int| i <= j < monitors@.len() ==> monitors@[j].disabled,
        decreases i,
    {
        if !monitors[i - 1].disabled {
            return Some(monitors[i - 1].name.clone());
        }
        i = i - 1;
    }
    None
}

pub open spec fn connected_text(name: Seq<char>) -> Seq<char> {
    name + " extended to the right — MOD+P for display options"@
}

pub fn connected_message(name: &str) -> (s: String)
    ensures
        s@ == connected_text(name@),
{
    let mut s = String::new();
    push_str(&mut s, name);
    push_str(&mut s, " extended to the right — MOD+P for display options");
    s
}

/// The modes a monitor offers, once it is known.
pub fn modes_of(monitors: &[Monitor], name: &str) -> (r: Result<Vec<Resolution>, UserError>)
    ensures
        match named(monitors_view(monitors@), name@) {
            Some(i) => r matches Ok(v) && v@ == monitors@[i].resolutions@,
            None => r matches Err(UserError::UnknownMonitor { name: n }) && n@ == name@,
        },
{
    match description_of(monitors, name) {
        Ok(_) => {},
        Err(e) => return Err(e),
    }
    match find_named(monitors, name) {
        Some(i) => Ok(crate::compositor::copy_resolutions(&monitors[i].resolutions)),
        None => Ok(Vec::new()),
    }
}

/// What the hotplug hook does once the monitors have settled.
#[derive(Clone, Copy, Debug, PartialEq, Eq, Structural)]
pub enum AutoStep {
    /// The stored profile already describes the monitors: nothing is written.
    Settled,
    /// The stored profile is written back.
    Restore,
    /// One screen or none and nothing stored: what it shows is remembered.
    Remember,
    /// A new arrangement of several screens: they are extended to the right of the anchor.
    Extend,
}

pub open spec fn auto_step_of(stored: Option<LayoutView>, ms: Seq<MonitorView>) -> AutoStep {
    match stored {
        Some(l) => if layout_matches(l, ms) {
            AutoStep::Settled
        } else {
            AutoStep::Restore
        },
        None => if ms.len() <= 1 {
            AutoStep::Remember
        } else {
            AutoStep::Extend
        },
    }
}

pub fn auto_step(stored: Option<&Layout>, monitors: &[Monitor]) -> (s: AutoStep)
    requires
        stored matches Some(l) ==> l@.wf(),
    ensures
        s == auto_step_of(
            match stored {
                Some(l) => Some(l@),
                None => None,
            },
            monitors_view(monitors@),
        ),
{
    match stored {
        Some(l) => if l.matches(monitors) {
            AutoStep::Settled
        } else {
            AutoStep::Restore
        },
        None => if monitors.len() <= 1 {
            AutoStep::Remember
        } else {
            AutoStep::Extend
        },
    }
}

/// Our own writes fire the hotplug hooks: once a layout reconciled with the monitors is stored,
/// the hook finds it settled and writes nothing more.
pub proof fn lemma_auto_leaves_a_synced_layout_alone(old: LayoutView, ms: Seq<MonitorView>, stored: LayoutView)
    requires
        synced(old, ms, stored),
    ensures
        auto_step_of(Some(stored), ms) == AutoStep::Settled,
{
    crate::observe::lemma_synced_matches(old, ms, stored);
}

/// Whether two readings show the same layout.
pub fn same_reading(current: &[Monitor], previous: &[Monitor]) -> (b: bool)
    ensures
        b <==> exists|a: LayoutView, c: LayoutView|
            observed(monitors_view(current@), a) && observed(monitors_view(previous@), c) && a
                == c,
{
    let a = Layout::observe(current);
    let c = Layout::observe(previous);
    let same = a.same_as(&c);
    proof {
        if !same {
            assert forall|x: LayoutView, y: LayoutView|
                observed(monitors_view(current@), x) && observed(monitors_view(previous@), y)
                    implies x != y by {
                crate::observe::lemma_observed_unique(monitors_view(current@), x, a@);
                crate::observe::lemma_observed_unique(monitors_view(previous@), y, c@);
            }
        }
    }
    same
}

// ---------------------------------------------------------------------------------------------
// Commands
// ---------------------------------------------------------------------------------------------

/// A call a display command made on its controls, with what it answered.
pub enum DisplayCall {
    Monitors(Result<Vec<Monitor>, Error>),
    Reload(Result<(), Error>),
    Workspaces(Result<Vec<Workspace>, Error>),
    MoveWorkspace(Seq<char>, Seq<char>, Result<(), Error>),
    RenderRules(LayoutView, Seq<MonitorView>, String),
    Load(Seq<MonitorView>, Result<Option<Layout>, Error>),
    Save(Seq<MonitorView>, LayoutView, Result<(), Error>),
    Render(Seq<char>, Result<(), Error>),
    Reset(Seq<MonitorView>, Result<(), Error>),
    Lock(Result<(), Error>),
    Unlock,
    Notify(Seq<char>, Seq<char>, Result<(), Error>),
    Pause(u64),
}

/// `new` is `old` with more calls after it.
pub open spec fn extends(old: Seq<DisplayCall>, new: Seq<DisplayCall>) -> bool {
    &&& old.len() <= new.len()
    &&& forall|i: int| 0 <= i < old.len() ==> #[trigger] new[i] == old[i]
}

/// A call that lists workspaces or moves one.
pub open spec fn is_workspace_call(c: DisplayCall) -> bool {
    c is Workspaces || c is MoveWorkspace
}

/// A workspace call that succeeded.
pub open spec fn workspace_call_done(c: DisplayCall) -> bool {
    ||| c matches DisplayCall::Workspaces(Ok(_))
    ||| c matches DisplayCall::MoveWorkspace(_, _, Ok(_))
}

/// A call that writes rules.
pub open spec fn is_rules_write(c: DisplayCall) -> bool {
    c is Render
}

/// The calls after `old` touch no workspace.
pub open spec fn no_workspace_calls(old: Seq<DisplayCall>, new: Seq<DisplayCall>) -> bool {
    &&& extends(old, new)
    &&& forall|i: int| old.len() <= i < new.len() ==> !is_workspace_call(#[trigger] new[i])
}

/// The calls after `old` write no rules.
pub open spec fn no_rules_written(old: Seq<DisplayCall>, new: Seq<DisplayCall>) -> bool {
    &&& extends(old, new)
    &&& forall|i: int| old.len() <= i < new.len() ==> !is_rules_write(#[trigger] new[i])
}

/// The calls after `old` are workspace calls only, all of which succeeded if `done`.
pub open spec fn only_workspace_calls(old: Seq<DisplayCall>, new: Seq<DisplayCall>, done: bool) -> bool {
    &&& extends(old, new)
    &&& forall|i: int|
        old.len() <= i < new.len() ==> is_workspace_call(#[trigger] new[i]) && (done
            ==> workspace_call_done(new[i]))
}

/// From `at` on, the calls are a successful listing of the workspaces and then, each
/// succeeding, exactly the moves that take them off the screens the layout switches off.
pub open spec fn evacuation_recorded(calls: Seq<DisplayCall>, at: int, l: LayoutView, ms: Seq<MonitorView>) -> bool {
    &&& 0 <= at < calls.len()
    &&& calls[at] matches DisplayCall::Workspaces(Ok(ws))
    &&& calls.len() == at + 1 + evacuation_moves(l, ms, workspaces_view(ws@), ws@.len() as int).len()
    &&& forall|k: int|
        0 <= k < calls.len() - at - 1 ==> #[trigger] calls[at + 1 + k] == DisplayCall::MoveWorkspace(
            evacuation_moves(l, ms, workspaces_view(ws@), ws@.len() as int)[k].0,
            evacuation_moves(l, ms, workspaces_view(ws@), ws@.len() as int)[k].1,
            Ok(()),
        )
}

/// Among the calls after `old`, workspaces are moved off the screens going dark before any
/// rules are written, and rules are written only once every workspace call before them
/// succeeded.
pub open spec fn evacuated_before_rules(old: Seq<DisplayCall>, new: Seq<DisplayCall>) -> bool {
    &&& extends(old, new)
    &&& forall|i: int, j: int|
        #![trigger new[i], new[j]]
        old.len() <= i < new.len() && old.len() <= j < new.len() && is_workspace_call(new[i])
            && is_rules_write(new[j]) ==> i < j && workspace_call_done(new[i])
}

pub proof fn lemma_extends_trans(a: Seq<DisplayCall>, b: Seq<DisplayCall>, c: Seq<DisplayCall>)
    requires
        extends(a, b),
        extends(b, c),
    ensures
        extends(a, c),
        forall|i: int| 0 <= i < a.len() ==> c[i] == a[i],
        forall|i: int| 0 <= i < b.len() ==> c[i] == b[i],
{
    assert forall|i: int| 0 <= i < b.len() implies c[i] == b[i] by {
        assert(c.subrange(0, b.len() as int)[i] == c[i]);
    }
    assert forall|i: int| 0 <= i < a.len() implies c[i] == a[i] by {
        assert(b.subrange(0, a.len() as int)[i] == b[i]);
    }
    assert(c.subrange(0, a.len() as int) =~= a);
}

/// Reading, evacuating and then writing keeps workspaces off the screens before their rules.
pub proof fn lemma_evacuate_then_write(
    a: Seq<DisplayCall>,
    b: Seq<DisplayCall>,
    c: Seq<DisplayCall>,
    d: Seq<DisplayCall>,
)
    requires
        no_workspace_calls(a, b),
        no_rules_written(a, b),
        only_workspace_calls(b, c, true),
        no_workspace_calls(c, d),
    ensures
        evacuated_before_rules(a, d),
{
    lemma_extends_trans(a, b, c);
    lemma_extends_trans(a, c, d);
    lemma_extends_trans(b, c, d);
    assert forall|i: int, j: int|
        a.len() <= i < d.len() && a.len() <= j < d.len() && is_workspace_call(d[i])
            && is_rules_write(d[j]) implies i < j && workspace_call_done(d[i]) by {
        if i < b.len() {
            assert(d[i] == b[i]);
        } else if i >= c.len() {
        } else {
            assert(d[i] == c[i]);
            if j < b.len() {
                assert(d[j] == b[j]);
            } else if j < c.len() {
                assert(d[j] == c[j]);
            }
        }
    }
}

/// Every rules rendering among the calls after `old` is of layout `l` for monitors `m`.
pub open spec fn renders_only(old: Seq<DisplayCall>, new: Seq<DisplayCall>, l: LayoutView, m: Seq<MonitorView>) -> bool {
    &&& extends(old, new)
    &&& forall|i: int|
        old.len() <= i < new.len() ==> (#[trigger] new[i] matches DisplayCall::RenderRules(l2, m2, _)
            ==> l2 == l && m2 == m)
}

/// The calls after `old` render no rules.
pub open spec fn no_renderings(old: Seq<DisplayCall>, new: Seq<DisplayCall>) -> bool {
    &&& extends(old, new)
    &&& forall|i: int| old.len() <= i < new.len() ==> !(#[trigger] new[i] is RenderRules)
}

/// Before each rules rendering among the calls after `old`, the workspaces on the screens the
/// rendered layout switches off were moved, as `evacuation` plans the moves for that layout and
/// those monitors; a layout that keeps no screen lit has nowhere to move them to.
pub open spec fn evacuated_before_rendering(old: Seq<DisplayCall>, new: Seq<DisplayCall>) -> bool {
    &&& extends(old, new)
    &&& forall|j: int|
        old.len() <= j < new.len() ==> (#[trigger] new[j] matches DisplayCall::RenderRules(l, m, _)
            ==> evacuation_target(l, m) is None || exists|at: int, e: int|
            old.len() <= at < e <= j && #[trigger] evacuation_recorded(new.subrange(0, e), at, l, m))
}

/// Reading, evacuating for a layout and then rendering only that layout keeps the evacuation
/// before the rendering.
pub proof fn lemma_evacuation_before_rendering(
    a: Seq<DisplayCall>,
    b: Seq<DisplayCall>,
    c: Seq<DisplayCall>,
    d: Seq<DisplayCall>,
    l: LayoutView,
    m: Seq<MonitorView>,
)
    requires
        no_renderings(a, b),
        only_workspace_calls(b, c, true),
        evacuation_target(l, m) is Some ==> evacuation_recorded(c, b.len() as int, l, m),
        renders_only(c, d, l, m),
    ensures
        evacuated_before_rendering(a, d),
{
    lemma_extends_trans(a, b, c);
    lemma_extends_trans(a, c, d);
    lemma_extends_trans(b, c, d);
    assert forall|j: int|
        a.len() <= j < d.len() && (#[trigger] d[j] matches DisplayCall::RenderRules(l2, m2, _)) implies
        (match d[j] {
            DisplayCall::RenderRules(l2, m2, _) => evacuation_target(l2, m2) is None || exists|at: int, e: int|
                a.len() <= at < e <= j && #[trigger] evacuation_recorded(d.subrange(0, e), at, l2, m2),
            _ => true,
        }) by {
        if j < b.len() {
            assert(d[j] == b[j]);
        } else if j < c.len() {
            assert(d[j] == c[j]);
        } else {
            if evacuation_target(l, m) is Some {
                assert(d.subrange(0, c.len() as int) =~= c);
                assert(evacuation_recorded(d.subrange(0, c.len() as int), b.len() as int, l, m));
            }
        }
    }
}

/// Calls that render no rules keep the evacuation before every rendering.
pub proof fn lemma_no_renderings_evacuated(a: Seq<DisplayCall>, b: Seq<DisplayCall>)
    requires
        no_renderings(a, b),
    ensures
        evacuated_before_rendering(a, b),
{
}

/// A command wrapped in the store's lock keeps its evacuations before its renderings.
pub proof fn lemma_locked_evacuation(a: Seq<DisplayCall>, b: Seq<DisplayCall>, c: Seq<DisplayCall>, d: Seq<DisplayCall>)
    requires
        b == a.push(b.last()),
        !(b.last() is RenderRules),
        evacuated_before_rendering(b, c),
        d == c.push(d.last()),
        !(d.last() is RenderRules),
    ensures
        evacuated_before_rendering(a, d),
{
    lemma_extends_trans(a, b, c);
    lemma_extends_trans(a, c, d);
    assert forall|j: int|
        a.len() <= j < d.len() && (#[trigger] d[j] matches DisplayCall::RenderRules(l2, m2, _)) implies
        (match d[j] {
            DisplayCall::RenderRules(l2, m2, _) => evacuation_target(l2, m2) is None || exists|at: int, e: int|
                a.len() <= at < e <= j && #[trigger] evacuation_recorded(d.subrange(0, e), at, l2, m2),
            _ => true,
        }) by {
        assert(d[a.len() as int] == b.last());
        assert(d[c.len() as int] == d.last());
        assert(j != a.len() && j != c.len());
        assert(d[j] == c[j]);
        match c[j] {
            DisplayCall::RenderRules(l2, m2, _) => {
                if evacuation_target(l2, m2) is Some {
                    let (at, e) = choose|at: int, e: int|
                        b.len() <= at < e <= j && #[trigger] evacuation_recorded(c.subrange(0, e), at, l2, m2);
                    assert(d.subrange(0, e) =~= c.subrange(0, e));
                    assert(evacuation_recorded(d.subrange(0, e), at, l2, m2));
                }
            },
            _ => {},
        }
    }
}

/// A layout reconciled with the monitors it is rendered for and then lined up, in `direction`,
/// from its anchor.
pub open spec fn extension_of(l: LayoutView, m: Seq<MonitorView>, direction: Direction) -> bool {
    exists|l0: LayoutView|
        #[trigger] reconciled_with(m, l0) && (anchor_choice(m, l0) matches Some(a) && l == extended(
            l0,
            a,
            direction,
        ))
}

/// Every rules rendering among the calls after `old` is of such a layout.
pub open spec fn extended_only(old: Seq<DisplayCall>, new: Seq<DisplayCall>, direction: Direction) -> bool {
    &&& extends(old, new)
    &&& forall|j: int|
        old.len() <= j < new.len() ==> (#[trigger] new[j] matches DisplayCall::RenderRules(l, m, _)
            ==> extension_of(l, m, direction))
}

/// Every rules rendering the hotplug hook makes among the calls after `old` is either of the
/// profile it loaded, for the monitors it loaded it for, or of a layout extended to the right
/// from its anchor.
pub open spec fn hook_renderings(old: Seq<DisplayCall>, new: Seq<DisplayCall>) -> bool {
    &&& extends(old, new)
    &&& forall|j: int|
        old.len() <= j < new.len() ==> (#[trigger] new[j] matches DisplayCall::RenderRules(l, m, _)
            ==> extension_of(l, m, Direction::Right) || exists|i: int|
            old.len() <= i < j && (#[trigger] new[i] matches DisplayCall::Load(m2, Ok(Some(p)))
                && m2 == m && p@ == l))
}

/// A hook wrapped in the store's lock renders what it rendered.
pub proof fn lemma_locked_hook(a: Seq<DisplayCall>, b: Seq<DisplayCall>, c: Seq<DisplayCall>, d: Seq<DisplayCall>)
    requires
        b == a.push(b.last()),
        !(b.last() is RenderRules),
        hook_renderings(b, c),
        d == c.push(d.last()),
        !(d.last() is RenderRules),
    ensures
        hook_renderings(a, d),
{
    lemma_extends_trans(a, b, c);
    lemma_extends_trans(a, c, d);
    assert forall|j: int|
        a.len() <= j < d.len() && (#[trigger] d[j] matches DisplayCall::RenderRules(l, m, _)) implies
        (match d[j] {
            DisplayCall::RenderRules(l, m, _) => extension_of(l, m, Direction::Right) || exists|i: int|
                a.len() <= i < j && (#[trigger] d[i] matches DisplayCall::Load(m2, Ok(Some(p)))
                    && m2 == m && p@ == l),
            _ => true,
        }) by {
        assert(d[a.len() as int] == b.last());
        assert(d[c.len() as int] == d.last());
        assert(j != a.len() && j != c.len());
        assert(d[j] == c[j]);
        match c[j] {
            DisplayCall::RenderRules(l, m, _) => {
                if !extension_of(l, m, Direction::Right) {
                    let i = choose|i: int|
                        b.len() <= i < j && (#[trigger] c[i] matches DisplayCall::Load(m2, Ok(Some(p)))
                            && m2 == m && p@ == l);
                    assert(d[i] == c[i]);
                }
            },
            _ => {},
        }
    }
}

/// What a command makes of a reading and the layout reconciled with it, if it makes anything.
pub type PlanSpec = spec_fn(Seq<MonitorView>, LayoutView) -> Option<LayoutView>;

/// Every rules rendering among the calls after `old` is of what `plan` makes of a layout
/// reconciled with the monitors it is rendered for.
pub open spec fn renders_plan(old: Seq<DisplayCall>, new: Seq<DisplayCall>, plan: PlanSpec) -> bool {
    &&& extends(old, new)
    &&& forall|j: int|
        old.len() <= j < new.len() ==> (#[trigger] new[j] matches DisplayCall::RenderRules(l, m, _)
            ==> exists|l0: LayoutView| #[trigger] reconciled_with(m, l0) && plan(m, l0) == Some(l))
}

/// Calls that render nothing render nothing but the plan.
pub proof fn lemma_no_renderings_plan(a: Seq<DisplayCall>, b: Seq<DisplayCall>, plan: PlanSpec)
    requires
        no_renderings(a, b),
    ensures
        renders_plan(a, b, plan),
{
}

/// Reading, then rendering only what the plan makes of that reading, renders the plan.
pub proof fn lemma_plan_rendered(
    a: Seq<DisplayCall>,
    b: Seq<DisplayCall>,
    c: Seq<DisplayCall>,
    m: Seq<MonitorView>,
    l0: LayoutView,
    l: LayoutView,
    plan: PlanSpec,
)
    requires
        no_renderings(a, b),
        reconciled_with(m, l0),
        plan(m, l0) == Some(l),
        renders_only(b, c, l, m),
    ensures
        renders_plan(a, c, plan),
{
    lemma_extends_trans(a, b, c);
    assert forall|j: int|
        a.len() <= j < c.len() && (#[trigger] c[j] matches DisplayCall::RenderRules(l2, m2, _)) implies
        (match c[j] {
            DisplayCall::RenderRules(l2, m2, _) => exists|l1: LayoutView|
                #[trigger] reconciled_with(m2, l1) && plan(m2, l1) == Some(l2),
            _ => true,
        }) by {
        if j < b.len() {
            assert(c[j] == b[j]);
        }
    }
}

/// Reading and then only workspace calls render nothing.
pub proof fn lemma_no_renderings_then_workspaces(a: Seq<DisplayCall>, b: Seq<DisplayCall>, c: Seq<DisplayCall>, done: bool)
    requires
        no_renderings(a, b),
        only_workspace_calls(b, c, done),
    ensures
        no_renderings(a, c),
{
    lemma_extends_trans(a, b, c);
    assert forall|i: int| a.len() <= i < c.len() implies !(#[trigger] c[i] is RenderRules) by {
        if i < b.len() {
            assert(c[i] == b[i]);
        }
    }
}

/// A command wrapped in the store's lock renders what it rendered.
pub proof fn lemma_locked_plan(
    a: Seq<DisplayCall>,
    b: Seq<DisplayCall>,
    c: Seq<DisplayCall>,
    d: Seq<DisplayCall>,
    plan: PlanSpec,
)
    requires
        b == a.push(b.last()),
        !(b.last() is RenderRules),
        renders_plan(b, c, plan),
        d == c.push(d.last()),
        !(d.last() is RenderRules),
    ensures
        renders_plan(a, d, plan),
{
    lemma_extends_trans(a, b, c);
    lemma_extends_trans(a, c, d);
    assert forall|j: int|
        a.len() <= j < d.len() && (#[trigger] d[j] matches DisplayCall::RenderRules(l2, m2, _)) implies
        (match d[j] {
            DisplayCall::RenderRules(l2, m2, _) => exists|l1: LayoutView|
                #[trigger] reconciled_with(m2, l1) && plan(m2, l1) == Some(l2),
            _ => true,
        }) by {
        assert(d[a.len() as int] == b.last());
        assert(d[c.len() as int] == d.last());
        assert(j != a.len() && j != c.len());
        assert(d[j] == c[j]);
    }
}

/// Rendering a plan after calls that render nothing, and then one more call that renders
/// nothing, renders the plan.
pub proof fn lemma_prefixed_plan(
    a: Seq<DisplayCall>,
    b: Seq<DisplayCall>,
    c: Seq<DisplayCall>,
    d: Seq<DisplayCall>,
    plan: PlanSpec,
)
    requires
        no_renderings(a, b),
        renders_plan(b, c, plan),
        d == c.push(d.last()),
        !(d.last() is RenderRules),
    ensures
        renders_plan(a, d, plan),
{
    lemma_extends_trans(a, b, c);
    lemma_extends_trans(a, c, d);
    assert forall|j: int|
        a.len() <= j < d.len() && (#[trigger] d[j] matches DisplayCall::RenderRules(l2, m2, _)) implies
        (match d[j] {
            DisplayCall::RenderRules(l2, m2, _) => exists|l1: LayoutView|
                #[trigger] reconciled_with(m2, l1) && plan(m2, l1) == Some(l2),
            _ => true,
        }) by {
        assert(d[c.len() as int] == d.last());
        assert(j != c.len());
        assert(d[j] == c[j]);
        if j < b.len() {
            assert(c[j] == b[j]);
        }
    }
}

/// The calls after `old` save no profile.
pub open spec fn no_saves(old: Seq<DisplayCall>, new: Seq<DisplayCall>) -> bool {
    &&& extends(old, new)
    &&& forall|i: int| old.len() <= i < new.len() ==> !(#[trigger] new[i] is Save)
}

/// Every profile saved among the calls after `old` is what `plan` makes of a layout reconciled
/// with the monitors it is saved for.
pub open spec fn saves_plan(old: Seq<DisplayCall>, new: Seq<DisplayCall>, plan: PlanSpec) -> bool {
    &&& extends(old, new)
    &&& forall|j: int|
        old.len() <= j < new.len() ==> (#[trigger] new[j] matches DisplayCall::Save(m, l, _)
            ==> exists|l0: LayoutView| #[trigger] reconciled_with(m, l0) && plan(m, l0) == Some(l))
}

/// The calls the anchor is read with: the monitors, then the profile stored for them.
pub open spec fn anchor_read(a: Seq<DisplayCall>, b: Seq<DisplayCall>, res: Result<Vec<Monitor>, Error>, loaded: Result<Option<Layout>, Error>) -> bool {
    res matches Ok(ms) && b == a.push(DisplayCall::Monitors(res)).push(
        DisplayCall::Load(monitors_view(ms@), loaded),
    )
}

/// Saving a plan after calls that save nothing, and then one more call that saves nothing,
/// saves the plan.
pub proof fn lemma_prefixed_saves(
    a: Seq<DisplayCall>,
    b: Seq<DisplayCall>,
    c: Seq<DisplayCall>,
    d: Seq<DisplayCall>,
    plan: PlanSpec,
)
    requires
        no_saves(a, b),
        saves_plan(b, c, plan),
        d == c.push(d.last()),
        !(d.last() is Save),
    ensures
        saves_plan(a, d, plan),
{
    lemma_extends_trans(a, b, c);
    lemma_extends_trans(a, c, d);
    assert forall|j: int|
        a.len() <= j < d.len() && (#[trigger] d[j] matches DisplayCall::Save(m2, l2, _)) implies
        (match d[j] {
            DisplayCall::Save(m2, l2, _) => exists|l1: LayoutView|
                #[trigger] reconciled_with(m2, l1) && plan(m2, l1) == Some(l2),
            _ => true,
        }) by {
        assert(d[c.len() as int] == d.last());
        assert(j != c.len());
        assert(d[j] == c[j]);
        if j < b.len() {
            assert(c[j] == b[j]);
        }
    }
}

/// Every profile saved among the calls after `old` is `l` for monitors `m`.
pub open spec fn saves_only(old: Seq<DisplayCall>, new: Seq<DisplayCall>, l: LayoutView, m: Seq<MonitorView>) -> bool {
    &&& extends(old, new)
    &&& forall|i: int|
        old.len() <= i < new.len() ==> (#[trigger] new[i] matches DisplayCall::Save(m2, l2, _) ==> l2
            == l && m2 == m)
}

/// Two readings show the same layout.
pub open spec fn readings_agree(current: Seq<MonitorView>, previous: Seq<MonitorView>) -> bool {
    exists|a: LayoutView, c: LayoutView| observed(current, a) && observed(previous, c) && a == c
}

/// A settled reading among the calls after `old`: the first reading, then readings a pause
/// apart, at most `tries` of them after the first, the last of which is `ms` and agrees with the
/// one before it.
pub open spec fn settled_reading(old: Seq<DisplayCall>, new: Seq<DisplayCall>, tries: u32, ms: Vec<Monitor>) -> bool {
    &&& new.len() >= old.len() + 3
    &&& new.len() <= old.len() + 1 + 2 * tries
    &&& new.last() == DisplayCall::Monitors(Ok(ms))
    &&& new[new.len() - 2] is Pause
    &&& new[new.len() - 3] matches DisplayCall::Monitors(Ok(p)) && readings_agree(
        monitors_view(ms@),
        monitors_view(p@),
    )
}

/// The profile is saved at most once among the calls after `old`, as their last call, synced
/// from `l` with the monitors it is saved for; when `settled` came back, it was saved for them.
pub open spec fn saved_once_settled(old: Seq<DisplayCall>, new: Seq<DisplayCall>, l: LayoutView, settled: Option<Seq<MonitorView>>) -> bool {
    &&& extends(old, new)
    &&& forall|j: int|
        old.len() <= j < new.len() ==> (#[trigger] new[j] matches DisplayCall::Save(m, l2, _) ==> j
            == new.len() - 1 && synced(l, m, l2))
    &&& settled matches Some(ms) ==> new.len() > old.len() && (new.last() matches DisplayCall::Save(
        m,
        _,
        Ok(_),
    ) && m == ms)
}

/// Reading, then saving only what the plan makes of that reading, saves the plan.
pub proof fn lemma_plan_saved(
    a: Seq<DisplayCall>,
    b: Seq<DisplayCall>,
    c: Seq<DisplayCall>,
    m: Seq<MonitorView>,
    l0: LayoutView,
    l: LayoutView,
    plan: PlanSpec,
)
    requires
        no_saves(a, b),
        reconciled_with(m, l0),
        plan(m, l0) == Some(l),
        saves_only(b, c, l, m),
    ensures
        saves_plan(a, c, plan),
{
    lemma_extends_trans(a, b, c);
    assert forall|j: int|
        a.len() <= j < c.len() && (#[trigger] c[j] matches DisplayCall::Save(m2, l2, _)) implies
        (match c[j] {
            DisplayCall::Save(m2, l2, _) => exists|l1: LayoutView|
                #[trigger] reconciled_with(m2, l1) && plan(m2, l1) == Some(l2),
            _ => true,
        }) by {
        if j < b.len() {
            assert(c[j] == b[j]);
        }
    }
}

/// The calls a reset makes: the lock, the monitors, the reset of what is stored for them and a
/// reload, stopping at the first failure, and the lock released once it was taken.
pub open spec fn reset_calls(a: Seq<DisplayCall>, b: Seq<DisplayCall>, r: Result<(), Error>) -> bool {
    exists|locked: Result<(), Error>|
        #![trigger a.push(DisplayCall::Lock(locked))]
        {
            let m0 = a.push(DisplayCall::Lock(locked));
            match locked {
                Err(e) => b == m0 && r == Err::<(), Error>(e),
                Ok(()) => exists|res: Result<Vec<Monitor>, Error>|
                    #![trigger m0.push(DisplayCall::Monitors(res))]
                    {
                        let m1 = m0.push(DisplayCall::Monitors(res));
                        match res {
                            Err(e) => b == m1.push(DisplayCall::Unlock) && r == Err::<(), Error>(e),
                            Ok(ms) => exists|reset: Result<(), Error>|
                                #![trigger m1.push(DisplayCall::Reset(monitors_view(ms@), reset))]
                                {
                                    let m2 = m1.push(DisplayCall::Reset(monitors_view(ms@), reset));
                                    match reset {
                                        Err(e) => b == m2.push(DisplayCall::Unlock) && r == Err::<
                                            (),
                                            Error,
                                        >(e),
                                        Ok(()) => b == m2.push(DisplayCall::Reload(r)).push(
                                            DisplayCall::Unlock,
                                        ),
                                    }
                                },
                        }
                    },
            }
        }
}

/// Every rules rendering among the calls after `old` is of a profile loaded before it, for the
/// monitors it was loaded for.
pub open spec fn restores_loaded(old: Seq<DisplayCall>, new: Seq<DisplayCall>) -> bool {
    &&& extends(old, new)
    &&& forall|j: int|
        old.len() <= j < new.len() ==> (#[trigger] new[j] matches DisplayCall::RenderRules(l, m, _)
            ==> exists|i: int|
            old.len() <= i < j && (#[trigger] new[i] matches DisplayCall::Load(m2, Ok(Some(p)))
                && m2 == m && p@ == l))
}

/// The layout reconciled with the reading, as it is.
pub open spec fn kept_planned() -> PlanSpec {
    |m: Seq<MonitorView>, l0: LayoutView| Some(l0)
}

/// The layout reconciled with the reading, built around the monitor named `name`.
pub open spec fn primary_planned(name: Seq<char>) -> PlanSpec {
    |m: Seq<MonitorView>, l0: LayoutView|
        match named(m, name) {
            Some(i) => Some(LayoutView { anchor: Some(m[i].description), ..l0 }),
            None => None,
        }
}

/// Every screen mirroring the anchor of the layout reconciled with the reading.
pub open spec fn mirror_planned() -> PlanSpec {
    |m: Seq<MonitorView>, l0: LayoutView|
        match anchor_choice(m, l0) {
            Some(a) => Some(mirrored(l0, a)),
            None => None,
        }
}

/// Every screen lined up, in `direction`, from the anchor.
pub open spec fn extend_planned(direction: Direction) -> PlanSpec {
    |m: Seq<MonitorView>, l0: LayoutView|
        match anchor_choice(m, l0) {
            Some(a) => Some(extended(l0, a, direction)),
            None => None,
        }
}

/// Only the screen of the monitor named `keep` lit.
pub open spec fn only_planned(keep: Seq<char>) -> PlanSpec {
    |m: Seq<MonitorView>, l0: LayoutView|
        match named(m, keep) {
            Some(i) => Some(only_kept(l0, m[i].description)),
            None => None,
        }
}

/// The screen of the monitor named `name` switched on.
pub open spec fn enable_planned(name: Seq<char>) -> PlanSpec {
    |m: Seq<MonitorView>, l0: LayoutView|
        match named(m, name) {
            Some(i) => if l0.contains(m[i].description) {
                Some(updated(l0, m[i].description, |s: ScreenView| enabled_screen(s)))
            } else {
                None
            },
            None => None,
        }
}

/// The screen of the monitor named `name` switched off, while another stays lit.
pub open spec fn disable_planned(name: Seq<char>) -> PlanSpec {
    |m: Seq<MonitorView>, l0: LayoutView|
        match named(m, name) {
            Some(i) => if lit_count(l0.screens) > 1 && l0.contains(m[i].description) {
                Some(updated(l0, m[i].description, |s: ScreenView| switched_off(s)))
            } else {
                None
            },
            None => None,
        }
}

/// The screen of the monitor named `name` at another scale.
pub open spec fn scale_planned(name: Seq<char>, scale: Scale) -> PlanSpec {
    |m: Seq<MonitorView>, l0: LayoutView|
        match named(m, name) {
            Some(i) => if l0.contains(m[i].description) {
                Some(
                    updated(
                        l0,
                        m[i].description,
                        |s: ScreenView| ScreenView { placement: Placement { scale, ..s.placement }, ..s },
                    ),
                )
            } else {
                None
            },
            None => None,
        }
}

/// The screen of the monitor named `name` in the mode the request names.
pub open spec fn mode_planned(name: Seq<char>, mode: Seq<char>) -> PlanSpec {
    |m: Seq<MonitorView>, l0: LayoutView|
        match named(m, name) {
            Some(i) => match mode_asked(m, name, mode) {
                Some(md) => if l0.contains(m[i].description) {
                    Some(
                        updated(
                            l0,
                            m[i].description,
                            |s: ScreenView|
                                ScreenView { placement: Placement { mode: md, ..s.placement }, ..s },
                        ),
                    )
                } else {
                    None
                },
                None => None,
            },
            None => None,
        }
}

/// The screen of the monitor named `name` placed on a side of the reference monitor's.
pub open spec fn place_planned(name: Seq<char>, side: Side, reference: Seq<char>) -> PlanSpec {
    |m: Seq<MonitorView>, l0: LayoutView|
        match (named(m, name), named(m, reference)) {
            (Some(i), Some(j)) => {
                let mv = m[i].description;
                let t = m[j].description;
                if place_fits(l0, mv, side, t) && mv != t && can_place(l0, mv, t) {
                    Some(placed(l0, mv, side, t))
                } else {
                    None
                }
            },
            _ => None,
        }
}

/// Calls that write no rules keep every workspace call before the rules.
pub proof fn lemma_no_rules_ordered(a: Seq<DisplayCall>, b: Seq<DisplayCall>)
    requires
        no_rules_written(a, b),
    ensures
        evacuated_before_rules(a, b),
{
}

/// Reading and an evacuation that stopped write no rules at all.
pub proof fn lemma_stopped_before_rules(a: Seq<DisplayCall>, b: Seq<DisplayCall>, c: Seq<DisplayCall>)
    requires
        no_rules_written(a, b),
        only_workspace_calls(b, c, false),
    ensures
        evacuated_before_rules(a, c),
{
    lemma_extends_trans(a, b, c);
    assert forall|i: int, j: int|
        a.len() <= i < c.len() && a.len() <= j < c.len() && is_workspace_call(c[i])
            && is_rules_write(c[j]) implies i < j && workspace_call_done(c[i]) by {
        if j < b.len() {
            assert(c[j] == b[j]);
        }
    }
}

/// A command wrapped in the store's lock keeps the order of its own calls.
pub proof fn lemma_locked(a: Seq<DisplayCall>, b: Seq<DisplayCall>, c: Seq<DisplayCall>, d: Seq<DisplayCall>)
    requires
        b == a.push(b.last()),
        !is_workspace_call(b.last()),
        !is_rules_write(b.last()),
        evacuated_before_rules(b, c),
        d == c.push(d.last()),
        !is_workspace_call(d.last()),
        !is_rules_write(d.last()),
    ensures
        evacuated_before_rules(a, d),
{
    assert(b.subrange(0, a.len() as int) =~= a);
    assert(d.subrange(0, c.len() as int) =~= c);
    lemma_extends_trans(a, b, c);
    lemma_extends_trans(a, c, d);
    lemma_extends_trans(b, c, d);
    assert forall|i: int, j: int|
        a.len() <= i < d.len() && a.len() <= j < d.len() && is_workspace_call(d[i])
            && is_rules_write(d[j]) implies i < j && workspace_call_done(d[i]) by {
        assert(d[a.len() as int] == b[a.len() as int]);
        assert(d[c.len() as int] == d.last());
        assert(i != a.len() && i != c.len() && j != a.len() && j != c.len());
        assert(d[i] == c[i] && d[j] == c[j]);
    }
}

pub struct Display<'a> {
    pub compositor: &'a dyn CompositorCtl,
    pub store: &'a dyn LayoutStore,
    pub notifier: &'a dyn NotifierCtl,
    pub pause: &'a dyn Pause,
    pub settle: Settle,
    /// Every call this command made on its controls, in order, with what each answered.
    calls: Ghost<Seq<DisplayCall>>,
}

impl<'a> Display<'a> {
    pub fn new(
        compositor: &'a dyn CompositorCtl,
        store: &'a dyn LayoutStore,
        notifier: &'a dyn NotifierCtl,
        pause: &'a dyn Pause,
        settle: Settle,
    ) -> (d: Self)
        ensures
            d.settle_tries() == settle.tries,
            d.calls() == Seq::<DisplayCall>::empty(),
    {
        Display { compositor, store, notifier, pause, settle, calls: Ghost(Seq::empty()) }
    }
}

/// A stored profile is only used when it keeps its screens in order.
pub fn checked_profile(loaded: Option<Layout>) -> (r: Result<Option<Layout>, Error>)
    ensures
        match loaded {
            Some(l) => if l@.wf() {
                r == Ok::<Option<Layout>, Error>(Some(l))
            } else {
                r matches Err(Error::Other(m)) && m@
                    == "the stored profile does not keep its screens in order"@
            },
            None => r == Ok::<Option<Layout>, Error>(None),
        },
{
    match loaded {
        Some(l) => {
            if l.is_well_formed() {
                Ok(Some(l))
            } else {
                let mut m = String::new();
                push_str(&mut m, "the stored profile does not keep its screens in order");
                Err(Error::Other(m))
            }
        },
        None => Ok(None),
    }
}

/// A placement is refused when the moved screen would leave the coordinate range.
pub fn placement_fits(layout: &Layout, moving: &str, side: Side, reference: &str) -> (r: Result<
    (),
    Error,
>)
    requires
        layout@.wf(),
    ensures
        place_fits(layout@, moving@, side, reference@) ==> r is Ok,
        !place_fits(layout@, moving@, side, reference@) ==> (r matches Err(Error::Other(m)) && m@
            == "the placement does not fit the coordinate range"@),
{
    if place::fits(layout, moving, side, reference) {
        Ok(())
    } else {
        let mut m = String::new();
        push_str(&mut m, "the placement does not fit the coordinate range");
        Err(Error::Other(m))
    }
}

// ---------------------------------------------------------------------------------------------
// What each command does to the layout it read
// ---------------------------------------------------------------------------------------------

/// The refusal of a name that no plugged-in monitor has.
pub open spec fn unknown_monitor<T>(r: Result<T, Error>, name: Seq<char>) -> bool {
    r matches Err(Error::User(UserError::UnknownMonitor { name: n })) && n@ == name
}

/// The refusal of a screen the profile does not hold.
pub open spec fn no_stored_screen<T>(r: Result<T, Error>, desc: Seq<char>) -> bool {
    r matches Err(Error::User(UserError::NoStoredScreen { description })) && description@ == desc
}

/// A layout, still in order, to write.
pub open spec fn laid_out(r: Result<Layout, Error>, l: LayoutView) -> bool {
    r matches Ok(nl) && nl@ == l && nl@.wf()
}

/// Every screen mirrors the one the layout is built around.
pub fn mirror_plan(monitors: &[Monitor], layout: Layout) -> (r: Result<Layout, Error>)
    requires
        layout@.wf(),
    ensures
        match anchor_choice(monitors_view(monitors@), layout@) {
            Some(a) => laid_out(r, mirrored(layout@, a)),
            None => r == Err::<Layout, Error>(Error::User(UserError::NoScreenToBuildAround)),
        },
{
    let mut layout = layout;
    let anchor = user(anchor_description(monitors, &layout))?;
    engine::mirror(&mut layout, anchor.as_str());
    Ok(layout)
}

/// Every screen is lined up beside the one the layout is built around.
pub fn extend_plan(monitors: &[Monitor], layout: Layout, direction: Direction) -> (r: Result<
    Layout,
    Error,
>)
    requires
        layout@.wf(),
    ensures
        match anchor_choice(monitors_view(monitors@), layout@) {
            Some(a) => laid_out(r, extended(layout@, a, direction)),
            None => r == Err::<Layout, Error>(Error::User(UserError::NoScreenToBuildAround)),
        },
{
    let mut layout = layout;
    let anchor = user(anchor_description(monitors, &layout))?;
    engine::extend(&mut layout, anchor.as_str(), direction);
    Ok(layout)
}

/// Only the named monitor's screen stays lit.
pub fn only_plan(monitors: &[Monitor], layout: Layout, keep: &str) -> (r: Result<Layout, Error>)
    requires
        layout@.wf(),
    ensures
        match named(monitors_view(monitors@), keep@) {
            Some(i) => laid_out(r, only_kept(layout@, monitors_view(monitors@)[i].description)),
            None => unknown_monitor(r, keep@),
        },
{
    let mut layout = layout;
    let keep_desc = user(description_of(monitors, keep))?;
    engine::only(&mut layout, keep_desc.as_str());
    Ok(layout)
}

/// The named monitor's screen at another scale.
pub fn scale_plan(monitors: &[Monitor], layout: Layout, name: &str, scale: Scale) -> (r: Result<
    Layout,
    Error,
>)
    requires
        layout@.wf(),
    ensures
        match named(monitors_view(monitors@), name@) {
            Some(i) => {
                let d = monitors_view(monitors@)[i].description;
                if layout@.contains(d) {
                    laid_out(
                        r,
                        updated(
                            layout@,
                            d,
                            |s: ScreenView| ScreenView { placement: Placement { scale, ..s.placement }, ..s },
                        ),
                    )
                } else {
                    no_stored_screen(r, d)
                }
            },
            None => unknown_monitor(r, name@),
        },
{
    let mut layout = layout;
    let desc = user(description_of(monitors, name))?;
    user(engine::set_scale(&mut layout, desc.as_str(), scale))?;
    Ok(layout)
}

/// The named monitor's screen switched on.
pub fn enable_plan(monitors: &[Monitor], layout: Layout, name: &str) -> (r: Result<Layout, Error>)
    requires
        layout@.wf(),
    ensures
        match named(monitors_view(monitors@), name@) {
            Some(i) => {
                let d = monitors_view(monitors@)[i].description;
                if layout@.contains(d) {
                    laid_out(r, updated(layout@, d, |s: ScreenView| enabled_screen(s)))
                } else {
                    no_stored_screen(r, d)
                }
            },
            None => unknown_monitor(r, name@),
        },
{
    let mut layout = layout;
    let desc = user(description_of(monitors, name))?;
    user(engine::enable(&mut layout, desc.as_str()))?;
    Ok(layout)
}

/// The named monitor's screen switched off, unless it is the last one lit.
pub fn disable_plan(monitors: &[Monitor], layout: Layout, name: &str) -> (r: Result<Layout, Error>)
    requires
        layout@.wf(),
    ensures
        match named(monitors_view(monitors@), name@) {
            Some(i) => {
                let d = monitors_view(monitors@)[i].description;
                if lit_count(layout@.screens) <= 1 {
                    r == Err::<Layout, Error>(Error::User(UserError::CannotDisableLastScreen))
                } else if layout@.contains(d) {
                    laid_out(r, updated(layout@, d, |s: ScreenView| switched_off(s)))
                } else {
                    no_stored_screen(r, d)
                }
            },
            None => unknown_monitor(r, name@),
        },
{
    let mut layout = layout;
    let desc = user(description_of(monitors, name))?;
    user(engine::disable(&mut layout, desc.as_str()))?;
    Ok(layout)
}

/// The named monitor's screen built around.
pub fn primary_plan(monitors: &[Monitor], layout: Layout, name: &str) -> (r: Result<Layout, Error>)
    requires
        layout@.wf(),
    ensures
        match named(monitors_view(monitors@), name@) {
            Some(i) => laid_out(
                r,
                LayoutView { anchor: Some(monitors_view(monitors@)[i].description), ..layout@ },
            ),
            None => unknown_monitor(r, name@),
        },
{
    let mut layout = layout;
    layout.anchor = Some(user(description_of(monitors, name))?);
    Ok(layout)
}

/// The named monitor's screen placed on a side of the reference monitor's.
pub fn placement_plan(
    monitors: &[Monitor],
    layout: Layout,
    name: &str,
    side: Side,
    reference: &str,
) -> (r: Result<Layout, Error>)
    requires
        layout@.wf(),
    ensures
        match named(monitors_view(monitors@), name@) {
            None => unknown_monitor(r, name@),
            Some(i) => match named(monitors_view(monitors@), reference@) {
                None => unknown_monitor(r, reference@),
                Some(j) => {
                    let m = monitors_view(monitors@)[i].description;
                    let t = monitors_view(monitors@)[j].description;
                    if !place_fits(layout@, m, side, t) {
                        r matches Err(Error::Other(msg)) && msg@
                            == "the placement does not fit the coordinate range"@
                    } else if m == t {
                        r == Err::<Layout, Error>(Error::User(UserError::CannotPlaceSelfRelative))
                    } else if !can_place(layout@, m, t) {
                        r matches Err(
                            Error::User(UserError::CannotPlace { name: n, side: s, reference: f }),
                        ) && n@ == m && s == side && f@ == t
                    } else {
                        laid_out(r, placed(layout@, m, side, t))
                    }
                },
            },
        },
{
    let mut layout = layout;
    let moving = user(description_of(monitors, name))?;
    let target = user(description_of(monitors, reference))?;
    placement_fits(&layout, moving.as_str(), side, target.as_str())?;
    user(place::place(&mut layout, moving.as_str(), side, target.as_str()))?;
    Ok(layout)
}

/// The mode a request names for a monitor: `preferred`, an exact mode, or the best refresh rate
/// the monitor offers at a size.
pub open spec fn mode_asked(ms: Seq<MonitorView>, name: Seq<char>, mode: Seq<char>) -> Option<Mode> {
    if mode == "preferred"@ {
        Some(Mode::Preferred)
    } else if parse_resolution(mode) is Some {
        Some(Mode::Fixed(parse_resolution(mode).unwrap()))
    } else if parse_size(mode) is None {
        None
    } else {
        let rs = modes_named(ms, name);
        match best_mode(rs, parse_size(mode).unwrap(), rs.len() as int) {
            Some(j) => Some(Mode::Fixed(rs[j])),
            None => None,
        }
    }
}

/// The refusal of a mode request that names no mode.
pub open spec fn mode_refused<T>(r: Result<T, Error>, name: Seq<char>, mode: Seq<char>) -> bool {
    if parse_size(mode) is None {
        r matches Err(Error::User(UserError::InvalidMode { value })) && value@ == mode
    } else {
        r matches Err(Error::User(UserError::NoSuchMode { name: n, size })) && n@ == name && size
            == parse_size(mode).unwrap()
    }
}

/// The named monitor's screen in the mode the request names.
pub fn mode_plan(monitors: &[Monitor], layout: Layout, name: &str, mode: &str) -> (r: Result<
    Layout,
    Error,
>)
    requires
        layout@.wf(),
    ensures
        match named(monitors_view(monitors@), name@) {
            Some(i) => {
                let d = monitors_view(monitors@)[i].description;
                match mode_asked(monitors_view(monitors@), name@, mode@) {
                    Some(m) => if layout@.contains(d) {
                        laid_out(
                            r,
                            updated(
                                layout@,
                                d,
                                |s: ScreenView|
                                    ScreenView { placement: Placement { mode: m, ..s.placement }, ..s },
                            ),
                        )
                    } else {
                        no_stored_screen(r, d)
                    },
                    None => mode_refused(r, name@, mode@),
                }
            },
            None => unknown_monitor(r, name@),
        },
{
    let mut layout = layout;
    let desc = user(description_of(monitors, name))?;
    let resolved = user(resolve_mode(monitors, name, mode))?;
    user(engine::set_mode(&mut layout, desc.as_str(), resolved))?;
    Ok(layout)
}

/// What a settling wait does once a fresh reading was compared with the one before it.
#[derive(Clone, Copy, Debug, PartialEq, Eq, Structural)]
pub enum SettleStep {
    /// The two readings agree: the fresh one is trusted.
    Done,
    /// They differ: take another reading.
    Again,
    /// They differ and every reading allowed was taken: the layout did not settle.
    GiveUp,
}

/// `t` fresh readings were already compared without agreeing, and `same` says whether the next
/// one agrees with the one before it. Agreeing readings are trusted; otherwise another is taken
/// while fewer than `tries` were compared, and the wait gives up once `tries` were.
pub fn settle_step(same: bool, t: u32, tries: u32) -> (s: SettleStep)
    ensures
        same ==> s == SettleStep::Done,
        !same && t + 1 < tries ==> s == SettleStep::Again,
        !same && t + 1 >= tries ==> s == SettleStep::GiveUp,
{
    if same {
        SettleStep::Done
    } else if t < tries && t + 1 < tries {
        SettleStep::Again
    } else {
        SettleStep::GiveUp
    }
}

/// What the hotplug hook does about a settled reading.
pub enum AutoPlan {
    /// Nothing: the stored profile already describes the monitors.
    Nothing,
    /// Write this stored profile back.
    Restore(Layout),
    /// Remember this layout, the one the monitors show.
    Remember(Layout),
    /// Line the screens up this way from the anchor, then announce the last screen lit.
    Extend(Direction),
}

/// The hook's plan for a settled reading and the profile stored for it: a profile that still
/// describes the monitors is left alone and one that does not is written back; with nothing
/// stored, one screen or none is remembered as it is, and several are extended to the right.
pub fn hotplug_plan(stored: Option<Layout>, monitors: &[Monitor]) -> (r: AutoPlan)
    requires
        stored matches Some(l) ==> l@.wf(),
    ensures
        match auto_step_of(profile_view(stored), monitors_view(monitors@)) {
            AutoStep::Settled => r is Nothing,
            AutoStep::Restore => r matches AutoPlan::Restore(l) && stored == Some(l),
            AutoStep::Remember => r matches AutoPlan::Remember(l) && observed(
                monitors_view(monitors@),
                l@,
            ),
            AutoStep::Extend => r == AutoPlan::Extend(Direction::Right),
        },
{
    let step = match &stored {
        Some(l) => auto_step(Some(l), monitors),
        None => auto_step(None, monitors),
    };
    match step {
        AutoStep::Settled => AutoPlan::Nothing,
        AutoStep::Restore => match stored {
            Some(l) => AutoPlan::Restore(l),
            None => AutoPlan::Nothing,
        },
        AutoStep::Remember => AutoPlan::Remember(Layout::observe(monitors)),
        AutoStep::Extend => AutoPlan::Extend(Direction::Right),
    }
}

pub open spec fn profile_view(stored: Option<Layout>) -> Option<LayoutView> {
    match stored {
        Some(l) => Some(l@),
        None => None,
    }
}

fn user<T>(r: Result<T, UserError>) -> (o: Result<T, Error>)
    ensures
        match r {
            Ok(v) => o == Ok::<T, Error>(v),
            Err(e) => o == Err::<T, Error>(Error::User(e)),
        },
{
    match r {
        Ok(v) => Ok(v),
        Err(e) => Err(Error::User(e)),
    }
}

impl Display<'_> {
    pub closed spec fn calls(&self) -> Seq<DisplayCall> {
        self.calls@
    }

    /// How many further readings a settling wait may take.
    pub closed spec fn settle_tries(&self) -> u32 {
        self.settle.tries
    }

    fn record(&mut self, Ghost(c): Ghost<DisplayCall>)
        ensures
            final(self).calls() == old(self).calls().push(c),
            final(self).settle_tries() == old(self).settle_tries(),
    {
        self.calls = Ghost(self.calls@.push(c));
    }

    fn call_monitors(&mut self) -> (r: Result<Vec<Monitor>, Error>)
        ensures
            final(self).calls() == old(self).calls().push(DisplayCall::Monitors(r)),
            final(self).settle_tries() == old(self).settle_tries(),
    {
        let r = self.compositor.monitors();
        self.record(Ghost(DisplayCall::Monitors(r)));
        r
    }

    fn call_reload(&mut self) -> (r: Result<(), Error>)
        ensures
            final(self).calls() == old(self).calls().push(DisplayCall::Reload(r)),
            final(self).settle_tries() == old(self).settle_tries(),
    {
        let r = self.compositor.reload();
        self.record(Ghost(DisplayCall::Reload(r)));
        r
    }

    fn call_workspaces(&mut self) -> (r: Result<Vec<Workspace>, Error>)
        ensures
            final(self).calls() == old(self).calls().push(DisplayCall::Workspaces(r)),
            final(self).settle_tries() == old(self).settle_tries(),
    {
        let r = self.compositor.workspaces();
        self.record(Ghost(DisplayCall::Workspaces(r)));
        r
    }

    fn call_move_workspace(&mut self, workspace: &str, monitor: &str) -> (r: Result<(), Error>)
        ensures
            final(self).calls() == old(self).calls().push(
                DisplayCall::MoveWorkspace(workspace@, monitor@, r),
            ),
            final(self).settle_tries() == old(self).settle_tries(),
    {
        let r = self.compositor.move_workspace_to_monitor(workspace, monitor);
        self.record(Ghost(DisplayCall::MoveWorkspace(workspace@, monitor@, r)));
        r
    }

    fn call_render_rules(&mut self, layout: &Layout, monitors: &[Monitor]) -> (r: String)
        requires
            layout@.wf(),
        ensures
            final(self).calls() == old(self).calls().push(
                DisplayCall::RenderRules(layout@, monitors_view(monitors@), r),
            ),
            final(self).settle_tries() == old(self).settle_tries(),
    {
        let r = self.compositor.render_rules(layout, monitors);
        self.record(Ghost(DisplayCall::RenderRules(layout@, monitors_view(monitors@), r)));
        r
    }

    fn call_load(&mut self, monitors: &[Monitor]) -> (r: Result<Option<Layout>, Error>)
        ensures
            final(self).calls() == old(self).calls().push(
                DisplayCall::Load(monitors_view(monitors@), r),
            ),
            final(self).settle_tries() == old(self).settle_tries(),
    {
        let r = self.store.load(monitors);
        self.record(Ghost(DisplayCall::Load(monitors_view(monitors@), r)));
        r
    }

    fn call_save(&mut self, monitors: &[Monitor], layout: &Layout) -> (r: Result<(), Error>)
        requires
            layout@.wf(),
        ensures
            final(self).calls() == old(self).calls().push(
                DisplayCall::Save(monitors_view(monitors@), layout@, r),
            ),
            final(self).settle_tries() == old(self).settle_tries(),
    {
        let r = self.store.save(monitors, layout);
        self.record(Ghost(DisplayCall::Save(monitors_view(monitors@), layout@, r)));
        r
    }

    fn call_render(&mut self, rules: &str) -> (r: Result<(), Error>)
        ensures
            final(self).calls() == old(self).calls().push(DisplayCall::Render(rules@, r)),
            final(self).settle_tries() == old(self).settle_tries(),
    {
        let r = self.store.render(rules);
        self.record(Ghost(DisplayCall::Render(rules@, r)));
        r
    }

    fn call_reset(&mut self, monitors: &[Monitor]) -> (r: Result<(), Error>)
        ensures
            final(self).calls() == old(self).calls().push(
                DisplayCall::Reset(monitors_view(monitors@), r),
            ),
            final(self).settle_tries() == old(self).settle_tries(),
    {
        let r = self.store.reset(monitors);
        self.record(Ghost(DisplayCall::Reset(monitors_view(monitors@), r)));
        r
    }

    fn call_lock(&mut self) -> (r: Result<(), Error>)
        ensures
            final(self).calls() == old(self).calls().push(DisplayCall::Lock(r)),
            final(self).settle_tries() == old(self).settle_tries(),
    {
        let r = self.store.lock();
        self.record(Ghost(DisplayCall::Lock(r)));
        r
    }

    fn call_unlock(&mut self)
        ensures
            final(self).calls() == old(self).calls().push(DisplayCall::Unlock),
            final(self).settle_tries() == old(self).settle_tries(),
    {
        self.store.unlock();
        self.record(Ghost(DisplayCall::Unlock));
    }

    fn call_notify(&mut self, summary: &str, body: &str, icon: Icon, timeout_ms: Option<u32>) -> (r:
        Result<(), Error>)
        ensures
            final(self).calls() == old(self).calls().push(
                DisplayCall::Notify(summary@, body@, r),
            ),
            final(self).settle_tries() == old(self).settle_tries(),
    {
        let r = self.notifier.send(summary, body, icon, timeout_ms);
        self.record(Ghost(DisplayCall::Notify(summary@, body@, r)));
        r
    }

    fn call_pause(&mut self, millis: u64)
        ensures
            final(self).calls() == old(self).calls().push(DisplayCall::Pause(millis)),
            final(self).settle_tries() == old(self).settle_tries(),
    {
        self.pause.pause(millis);
        self.record(Ghost(DisplayCall::Pause(millis)));
    }
}

impl Display<'_> {
    pub fn monitors(&mut self) -> (r: Result<Vec<Monitor>, Error>)
        ensures
            final(self).calls() == old(self).calls().push(DisplayCall::Monitors(r)),
            final(self).settle_tries() == old(self).settle_tries(),
    {
        self.call_monitors()
    }

    pub fn modes(&mut self, name: &str) -> (r: Result<Vec<Resolution>, Error>)
        ensures
            exists|res: Result<Vec<Monitor>, Error>|
                #[trigger] old(self).calls().push(DisplayCall::Monitors(res)) == final(self).calls()
                    && match res {
                    Err(e) => r == Err::<Vec<Resolution>, Error>(e),
                    Ok(ms) => match named(monitors_view(ms@), name@) {
                        Some(i) => r matches Ok(v) && v@ == ms@[i].resolutions@,
                        None => r matches Err(Error::User(UserError::UnknownMonitor { name: n }))
                            && n@ == name@,
                    },
                },
            final(self).settle_tries() == old(self).settle_tries(),
    {
        let ghost a = self.calls();
        let monitors = self.monitors();
        assert(self.calls() == a.push(DisplayCall::Monitors(monitors)));
        let monitors = monitors?;
        user(modes_of(monitors.as_slice(), name))
    }

    /// The connector name of the stored anchor, if it is plugged in.
    pub fn anchor(&mut self) -> (r: Result<Option<String>, Error>)
        ensures
            exists|res: Result<Vec<Monitor>, Error>|
                #![trigger old(self).calls().push(DisplayCall::Monitors(res))]
                match res {
                    Err(e) => final(self).calls() == old(self).calls().push(DisplayCall::Monitors(res))
                        && r == Err::<Option<String>, Error>(e),
                    Ok(ms) => exists|loaded: Result<Option<Layout>, Error>|
                        #[trigger] anchor_read(old(self).calls(), final(self).calls(), res, loaded)
                            && match loaded {
                            Err(e) => r == Err::<Option<String>, Error>(e),
                            Ok(p) => r matches Ok(n) && opt_view(n) == match p {
                                Some(l) => anchor_name(l@, monitors_view(ms@)),
                                None => None,
                            },
                        },
                },
            final(self).settle_tries() == old(self).settle_tries(),
    {
        let ghost a = self.calls();
        let monitors = self.monitors();
        let ghost m0 = self.calls();
        assert(m0 == a.push(DisplayCall::Monitors(monitors)));
        let monitors = monitors?;
        let stored = self.call_load(monitors.as_slice());
        assert(anchor_read(a, self.calls(), Ok(monitors), stored));
        let stored = stored?;
        Ok(stored_anchor(stored, monitors.as_slice()))
    }

    pub fn extend(&mut self, direction: Direction) -> (r: Result<(), Error>)
        ensures
            renders_plan(old(self).calls(), final(self).calls(), extend_planned(direction)),
            final(self).settle_tries() == old(self).settle_tries(),
            old(self).settle_tries() == 0 ==> r is Err,
    {
        let ghost a = self.calls();
        let locked = self.call_lock();
        proof {
            lemma_no_renderings_plan(a, self.calls(), extend_planned(direction));
        }
        locked?;
        let ghost b = self.calls();
        let r = self.extend_now(direction);
        let ghost c = self.calls();
        self.call_unlock();
        proof {
            lemma_locked_plan(a, b, c, self.calls(), extend_planned(direction));
        }
        r
    }

    pub fn place(&mut self, name: &str, side: Side, reference: &str) -> (r: Result<(), Error>)
        ensures
            renders_plan(old(self).calls(), final(self).calls(), place_planned(name@, side, reference@)),
            final(self).settle_tries() == old(self).settle_tries(),
            old(self).settle_tries() == 0 ==> r is Err,
    {
        let ghost a = self.calls();
        let locked = self.call_lock();
        proof {
            lemma_no_renderings_plan(a, self.calls(), place_planned(name@, side, reference@));
        }
        locked?;
        let ghost b = self.calls();
        let r = self.place_now(name, side, reference);
        let ghost c = self.calls();
        self.call_unlock();
        proof {
            lemma_locked_plan(a, b, c, self.calls(), place_planned(name@, side, reference@));
        }
        r
    }

    fn place_now(&mut self, name: &str, side: Side, reference: &str) -> (r: Result<(), Error>)
        ensures
            renders_plan(old(self).calls(), final(self).calls(), place_planned(name@, side, reference@)),
            final(self).settle_tries() == old(self).settle_tries(),
            old(self).settle_tries() == 0 ==> r is Err,
    {
        let ghost a = self.calls();
        let read = self.read();
        proof {
            lemma_no_renderings_plan(a, self.calls(), place_planned(name@, side, reference@));
        }
        let (monitors, layout) = read?;
        let ghost b = self.calls();
        let ghost l0 = layout@;
        let layout = placement_plan(monitors.as_slice(), layout, name, side, reference)?;
        let ghost l = layout@;
        let r = self.commit(monitors.as_slice(), layout);
        proof {
            lemma_plan_rendered(a, b, self.calls(), monitors_view(monitors@), l0, l, place_planned(name@, side, reference@));
        }
        r
    }

    pub fn mirror(&mut self) -> (r: Result<(), Error>)
        ensures
            renders_plan(old(self).calls(), final(self).calls(), mirror_planned()),
            final(self).settle_tries() == old(self).settle_tries(),
            old(self).settle_tries() == 0 ==> r is Err,
    {
        let ghost a = self.calls();
        let locked = self.call_lock();
        proof {
            lemma_no_renderings_plan(a, self.calls(), mirror_planned());
        }
        locked?;
        let ghost b = self.calls();
        let r = self.mirror_now();
        let ghost c = self.calls();
        self.call_unlock();
        proof {
            lemma_locked_plan(a, b, c, self.calls(), mirror_planned());
        }
        r
    }

    fn mirror_now(&mut self) -> (r: Result<(), Error>)
        ensures
            renders_plan(old(self).calls(), final(self).calls(), mirror_planned()),
            final(self).settle_tries() == old(self).settle_tries(),
            old(self).settle_tries() == 0 ==> r is Err,
    {
        let ghost a = self.calls();
        let read = self.read();
        proof {
            lemma_no_renderings_plan(a, self.calls(), mirror_planned());
        }
        let (monitors, layout) = read?;
        let ghost b = self.calls();
        let ghost l0 = layout@;
        let layout = mirror_plan(monitors.as_slice(), layout)?;
        let ghost l = layout@;
        let r = self.commit(monitors.as_slice(), layout);
        proof {
            lemma_plan_rendered(a, b, self.calls(), monitors_view(monitors@), l0, l, mirror_planned());
        }
        r
    }

    pub fn only(&mut self, keep: &str) -> (r: Result<(), Error>)
        ensures
            renders_plan(old(self).calls(), final(self).calls(), only_planned(keep@)),
            evacuated_before_rendering(old(self).calls(), final(self).calls()),
            evacuated_before_rules(old(self).calls(), final(self).calls()),
            final(self).settle_tries() == old(self).settle_tries(),
            old(self).settle_tries() == 0 ==> r is Err,
    {
        let ghost a = self.calls();
        let locked = self.call_lock();
        proof {
            lemma_no_rules_ordered(a, self.calls());
            lemma_no_renderings_evacuated(a, self.calls());
            lemma_no_renderings_plan(a, self.calls(), only_planned(keep@));
        }
        locked?;
        let ghost b = self.calls();
        let r = self.only_now(keep);
        let ghost c = self.calls();
        self.call_unlock();
        proof {
            lemma_locked(a, b, c, self.calls());
            lemma_locked_evacuation(a, b, c, self.calls());
            lemma_locked_plan(a, b, c, self.calls(), only_planned(keep@));
        }
        r
    }

    fn only_now(&mut self, keep: &str) -> (r: Result<(), Error>)
        ensures
            renders_plan(old(self).calls(), final(self).calls(), only_planned(keep@)),
            evacuated_before_rendering(old(self).calls(), final(self).calls()),
            evacuated_before_rules(old(self).calls(), final(self).calls()),
            final(self).settle_tries() == old(self).settle_tries(),
            old(self).settle_tries() == 0 ==> r is Err,
    {
        let ghost a = self.calls();
        let read = self.read();
        proof {
            lemma_no_rules_ordered(a, self.calls());
            lemma_no_renderings_evacuated(a, self.calls());
            lemma_no_renderings_plan(a, self.calls(), only_planned(keep@));
        }
        let (monitors, layout) = read?;
        let ghost l0 = layout@;
        let ghost b = self.calls();
        let layout = only_plan(monitors.as_slice(), layout, keep)?;
        let evacuated = self.evacuate_workspaces(monitors.as_slice(), &layout);
        proof {
            if evacuated is Err {
                lemma_stopped_before_rules(a, b, self.calls());
                lemma_no_renderings_evacuated(a, self.calls());
                lemma_no_renderings_then_workspaces(a, b, self.calls(), false);
                lemma_no_renderings_plan(a, self.calls(), only_planned(keep@));
            }
        }
        evacuated?;
        let ghost c = self.calls();
        let ghost planned = layout@;
        let committed = self.commit_settled(monitors.as_slice(), layout);
        proof {
            lemma_evacuate_then_write(a, b, c, self.calls());
            lemma_evacuation_before_rendering(a, b, c, self.calls(), planned, monitors_view(monitors@));
            lemma_no_renderings_then_workspaces(a, b, c, true);
            lemma_plan_rendered(a, c, self.calls(), monitors_view(monitors@), l0, planned, only_planned(keep@));
        }
        let settled = committed?;
        user(confirm_off(settled.as_slice(), keep, true))
    }

    pub fn enable(&mut self, name: &str) -> (r: Result<(), Error>)
        ensures
            renders_plan(old(self).calls(), final(self).calls(), enable_planned(name@)),
            final(self).settle_tries() == old(self).settle_tries(),
            old(self).settle_tries() == 0 ==> r is Err,
    {
        let ghost a = self.calls();
        let locked = self.call_lock();
        proof {
            lemma_no_renderings_plan(a, self.calls(), enable_planned(name@));
        }
        locked?;
        let ghost b = self.calls();
        let r = self.enable_now(name);
        let ghost c = self.calls();
        self.call_unlock();
        proof {
            lemma_locked_plan(a, b, c, self.calls(), enable_planned(name@));
        }
        r
    }

    pub fn disable(&mut self, name: &str) -> (r: Result<(), Error>)
        ensures
            renders_plan(old(self).calls(), final(self).calls(), disable_planned(name@)),
            evacuated_before_rendering(old(self).calls(), final(self).calls()),
            evacuated_before_rules(old(self).calls(), final(self).calls()),
            final(self).settle_tries() == old(self).settle_tries(),
            old(self).settle_tries() == 0 ==> r is Err,
    {
        let ghost a = self.calls();
        let locked = self.call_lock();
        proof {
            lemma_no_rules_ordered(a, self.calls());
            lemma_no_renderings_evacuated(a, self.calls());
            lemma_no_renderings_plan(a, self.calls(), disable_planned(name@));
        }
        locked?;
        let ghost b = self.calls();
        let r = self.disable_now(name);
        let ghost c = self.calls();
        self.call_unlock();
        proof {
            lemma_locked(a, b, c, self.calls());
            lemma_locked_evacuation(a, b, c, self.calls());
            lemma_locked_plan(a, b, c, self.calls(), disable_planned(name@));
        }
        r
    }

    pub fn toggle(&mut self, name: &str) -> (r: Result<(), Error>)
        ensures
            renders_plan(old(self).calls(), final(self).calls(), enable_planned(name@)) || renders_plan(
                old(self).calls(),
                final(self).calls(),
                disable_planned(name@),
            ),
            final(self).settle_tries() == old(self).settle_tries(),
            old(self).settle_tries() == 0 ==> r is Err,
    {
        let ghost a = self.calls();
        self.call_lock()?;
        let read = self.monitors();
        let ghost b = self.calls();
        let ghost enabling = match &read {
            Ok(ms) => match named(monitors_view(ms@), name@) {
                Some(i) => monitors_view(ms@)[i].disabled,
                None => false,
            },
            Err(_) => false,
        };
        let r = match read {
            Ok(monitors) => if is_switched_off(monitors.as_slice(), name) {
                self.enable_now(name)
            } else {
                self.disable_now(name)
            },
            Err(e) => Err(e),
        };
        let ghost c = self.calls();
        self.call_unlock();
        proof {
            if read is Err {
                lemma_no_renderings_plan(a, c, enable_planned(name@));
                lemma_prefixed_plan(a, c, c, self.calls(), enable_planned(name@));
            } else if enabling {
                lemma_prefixed_plan(a, b, c, self.calls(), enable_planned(name@));
            } else {
                lemma_prefixed_plan(a, b, c, self.calls(), disable_planned(name@));
            }
        }
        r
    }

    pub fn set_mode(&mut self, name: &str, mode: &str) -> (r: Result<(), Error>)
        ensures
            renders_plan(old(self).calls(), final(self).calls(), mode_planned(name@, mode@)),
            final(self).settle_tries() == old(self).settle_tries(),
            old(self).settle_tries() == 0 ==> r is Err,
    {
        let ghost a = self.calls();
        let locked = self.call_lock();
        proof {
            lemma_no_renderings_plan(a, self.calls(), mode_planned(name@, mode@));
        }
        locked?;
        let ghost b = self.calls();
        let r = self.set_mode_now(name, mode);
        let ghost c = self.calls();
        self.call_unlock();
        proof {
            lemma_locked_plan(a, b, c, self.calls(), mode_planned(name@, mode@));
        }
        r
    }

    fn set_mode_now(&mut self, name: &str, mode: &str) -> (r: Result<(), Error>)
        ensures
            renders_plan(old(self).calls(), final(self).calls(), mode_planned(name@, mode@)),
            final(self).settle_tries() == old(self).settle_tries(),
            old(self).settle_tries() == 0 ==> r is Err,
    {
        let ghost a = self.calls();
        let read = self.read();
        proof {
            lemma_no_renderings_plan(a, self.calls(), mode_planned(name@, mode@));
        }
        let (monitors, layout) = read?;
        let ghost b = self.calls();
        let ghost l0 = layout@;
        let layout = mode_plan(monitors.as_slice(), layout, name, mode)?;
        let ghost l = layout@;
        let r = self.commit(monitors.as_slice(), layout);
        proof {
            lemma_plan_rendered(a, b, self.calls(), monitors_view(monitors@), l0, l, mode_planned(name@, mode@));
        }
        r
    }

    /// A scale that is not one is refused before anything is read or locked.
    pub fn set_scale(&mut self, name: &str, scale: &str) -> (r: Result<(), Error>)
        ensures
            parse_scale(scale@) is None ==> final(self).calls() == old(self).calls(),
            parse_scale(scale@) matches Some(sc) ==> renders_plan(
                old(self).calls(),
                final(self).calls(),
                scale_planned(name@, sc),
            ),
            final(self).settle_tries() == old(self).settle_tries(),
            parse_scale(scale@) is None ==> (r matches Err(Error::User(UserError::InvalidScale { value }))
                && value@ == scale@),
            old(self).settle_tries() == 0 ==> r is Err,
    {
        let scale = match Scale::parse(scale) {
            Ok(s) => s,
            Err(e) => return Err(Error::User(e)),
        };
        let ghost a = self.calls();
        let locked = self.call_lock();
        proof {
            lemma_no_renderings_plan(a, self.calls(), scale_planned(name@, scale));
        }
        locked?;
        let ghost b = self.calls();
        let r = self.set_scale_now(name, scale);
        let ghost c = self.calls();
        self.call_unlock();
        proof {
            lemma_locked_plan(a, b, c, self.calls(), scale_planned(name@, scale));
        }
        r
    }

    fn set_scale_now(&mut self, name: &str, scale: Scale) -> (r: Result<(), Error>)
        ensures
            renders_plan(old(self).calls(), final(self).calls(), scale_planned(name@, scale)),
            final(self).settle_tries() == old(self).settle_tries(),
            old(self).settle_tries() == 0 ==> r is Err,
    {
        let ghost a = self.calls();
        let read = self.read();
        proof {
            lemma_no_renderings_plan(a, self.calls(), scale_planned(name@, scale));
        }
        let (monitors, layout) = read?;
        let ghost b = self.calls();
        let ghost l0 = layout@;
        let layout = scale_plan(monitors.as_slice(), layout, name, scale)?;
        let ghost l = layout@;
        let r = self.commit(monitors.as_slice(), layout);
        proof {
            lemma_plan_rendered(a, b, self.calls(), monitors_view(monitors@), l0, l, scale_planned(name@, scale));
        }
        r
    }

    pub fn set_primary(&mut self, name: &str) -> (r: Result<(), Error>)
        ensures
            saves_plan(old(self).calls(), final(self).calls(), primary_planned(name@)),
            final(self).settle_tries() == old(self).settle_tries(),
    {
        let ghost a = self.calls();
        self.call_lock()?;
        let ghost b = self.calls();
        let r = self.set_primary_now(name);
        let ghost c = self.calls();
        self.call_unlock();
        proof {
            lemma_prefixed_saves(a, b, c, self.calls(), primary_planned(name@));
        }
        r
    }

    fn set_primary_now(&mut self, name: &str) -> (r: Result<(), Error>)
        ensures
            saves_plan(old(self).calls(), final(self).calls(), primary_planned(name@)),
            no_renderings(old(self).calls(), final(self).calls()),
            final(self).settle_tries() == old(self).settle_tries(),
    {
        let ghost a = self.calls();
        let (monitors, layout) = self.read()?;
        let ghost b = self.calls();
        let ghost l0 = layout@;
        let layout = primary_plan(monitors.as_slice(), layout, name)?;
        let r = self.call_save(monitors.as_slice(), &layout);
        proof {
            lemma_plan_saved(a, b, self.calls(), monitors_view(monitors@), l0, layout@, primary_planned(name@));
        }
        r
    }

    pub fn save(&mut self) -> (r: Result<(), Error>)
        ensures
            renders_plan(old(self).calls(), final(self).calls(), kept_planned()),
            saves_plan(old(self).calls(), final(self).calls(), kept_planned()),
            final(self).settle_tries() == old(self).settle_tries(),
    {
        let ghost a = self.calls();
        self.call_lock()?;
        let ghost b = self.calls();
        let r = self.save_now();
        let ghost c = self.calls();
        self.call_unlock();
        proof {
            lemma_prefixed_plan(a, b, c, self.calls(), kept_planned());
            lemma_prefixed_saves(a, b, c, self.calls(), kept_planned());
        }
        r
    }

    fn save_now(&mut self) -> (r: Result<(), Error>)
        ensures
            renders_plan(old(self).calls(), final(self).calls(), kept_planned()),
            saves_plan(old(self).calls(), final(self).calls(), kept_planned()),
            final(self).settle_tries() == old(self).settle_tries(),
    {
        let ghost a = self.calls();
        let read = self.read();
        proof {
            lemma_no_renderings_plan(a, self.calls(), kept_planned());
        }
        let (monitors, layout) = read?;
        let ghost b = self.calls();
        let ghost ms = monitors_view(monitors@);
        proof {
            assert(reconciled_with(ms, layout@));
        }
        let rules = self.call_render_rules(&layout, monitors.as_slice());
        let rendered = self.call_render(rules.as_str());
        proof {
            lemma_plan_rendered(a, b, self.calls(), ms, layout@, layout@, kept_planned());
        }
        rendered?;
        let ghost c = self.calls();
        let r = self.call_save(monitors.as_slice(), &layout);
        proof {
            lemma_plan_rendered(a, b, self.calls(), ms, layout@, layout@, kept_planned());
            lemma_plan_saved(a, b, self.calls(), ms, layout@, layout@, kept_planned());
        }
        r
    }

    pub fn apply(&mut self) -> (r: Result<(), Error>)
        ensures
            restores_loaded(old(self).calls(), final(self).calls()),
            final(self).settle_tries() == old(self).settle_tries(),
            old(self).settle_tries() == 0 ==> r is Err,
    {
        let ghost a = self.calls();
        self.call_lock()?;
        let ghost b = self.calls();
        let r = self.apply_now();
        let ghost c = self.calls();
        self.call_unlock();
        proof {
            let d = self.calls();
            assert forall|j: int|
                a.len() <= j < d.len() && (#[trigger] d[j] matches DisplayCall::RenderRules(l, m, _))
                implies (match d[j] {
                    DisplayCall::RenderRules(l, m, _) => exists|i: int|
                        a.len() <= i < j && (#[trigger] d[i] matches DisplayCall::Load(m2, Ok(Some(q)))
                            && m2 == m && q@ == l),
                    _ => true,
                }) by {
                assert(d[a.len() as int] == b.last());
                assert(d[c.len() as int] == d.last());
                assert(j != a.len() && j != c.len());
                assert(d[j] == c[j]);
                let i = choose|i: int|
                    b.len() <= i < j && (#[trigger] c[i] matches DisplayCall::Load(m2, Ok(Some(q)))
                        && m2 == match c[j] { DisplayCall::RenderRules(_, m, _) => m, _ => m2 }
                        && q@ == match c[j] { DisplayCall::RenderRules(l, _, _) => l, _ => q@ });
                assert(d[i] == c[i]);
            }
        }
        r
    }

    fn apply_now(&mut self) -> (r: Result<(), Error>)
        ensures
            restores_loaded(old(self).calls(), final(self).calls()),
            final(self).settle_tries() == old(self).settle_tries(),
            old(self).settle_tries() == 0 ==> r is Err,
    {
        let monitors = self.settle()?;
        let ghost b = self.calls();
        let stored = self.load_checked(monitors.as_slice())?;
        let ghost c = self.calls();
        let ghost p = profile_view(stored);
        let r = self.apply_act(monitors.as_slice(), stored);
        proof {
            let d = self.calls();
            assert forall|j: int|
                old(self).calls().len() <= j < d.len() && (#[trigger] d[j] matches DisplayCall::RenderRules(l, m, _))
                implies (match d[j] {
                    DisplayCall::RenderRules(l, m, _) => exists|i: int|
                        old(self).calls().len() <= i < j && (#[trigger] d[i] matches DisplayCall::Load(m2, Ok(Some(q)))
                            && m2 == m && q@ == l),
                    _ => true,
                }) by {
                if j < b.len() {
                    assert(d[j] == b[j]);
                } else if j < c.len() {
                    assert(d[j] == c[j]);
                } else {
                    let i = (c.len() - 1) as int;
                    assert(d[i] == c[i]);
                }
            }
        }
        r
    }

    /// The stored profile is written back only when the monitors no longer show it.
    fn apply_act(&mut self, monitors: &[Monitor], stored: Option<Layout>) -> (r: Result<(), Error>)
        requires
            stored matches Some(l) ==> l@.wf(),
        ensures
            stored matches Some(l) ==> renders_only(
                old(self).calls(),
                final(self).calls(),
                l@,
                monitors_view(monitors@),
            ),
            stored is None ==> final(self).calls() == old(self).calls(),
            final(self).settle_tries() == old(self).settle_tries(),
            stored is None || auto_step_of(profile_view(stored), monitors_view(monitors@))
                != AutoStep::Restore ==> r == Ok::<(), Error>(()),
            stored is Some && auto_step_of(profile_view(stored), monitors_view(monitors@))
                == AutoStep::Restore ==> (old(self).settle_tries() == 0 ==> r is Err),
    {
        match stored {
            Some(l) => match auto_step(Some(&l), monitors) {
                AutoStep::Restore => self.restore(monitors, l),
                _ => Ok(()),
            },
            None => Ok(()),
        }
    }

    pub fn reset(&mut self) -> (r: Result<(), Error>)
        ensures
            reset_calls(old(self).calls(), final(self).calls(), r),
            final(self).settle_tries() == old(self).settle_tries(),
    {
        let ghost a = self.calls();
        let locked = self.call_lock();
        let ghost m0 = self.calls();
        assert(m0 == a.push(DisplayCall::Lock(locked)));
        locked?;
        let read = self.monitors();
        let ghost m1 = self.calls();
        assert(m1 == m0.push(DisplayCall::Monitors(read)));
        let r = match read {
            Ok(monitors) => {
                let reset = self.call_reset(monitors.as_slice());
                assert(self.calls() == m1.push(DisplayCall::Reset(monitors_view(monitors@), reset)));
                match reset {
                    Ok(()) => self.call_reload(),
                    Err(e) => Err(e),
                }
            },
            Err(e) => Err(e),
        };
        self.call_unlock();
        r
    }

    /// Entry point for the hotplug and startup hooks.
    pub fn auto(&mut self) -> (r: Result<(), Error>)
        ensures
            hook_renderings(old(self).calls(), final(self).calls()),
            final(self).settle_tries() == old(self).settle_tries(),
            old(self).settle_tries() == 0 ==> r is Err,
    {
        let ghost a = self.calls();
        self.call_lock()?;
        let ghost b = self.calls();
        let r = self.auto_now();
        let ghost c = self.calls();
        self.call_unlock();
        proof {
            lemma_locked_hook(a, b, c, self.calls());
        }
        r
    }

    fn auto_now(&mut self) -> (r: Result<(), Error>)
        ensures
            hook_renderings(old(self).calls(), final(self).calls()),
            final(self).settle_tries() == old(self).settle_tries(),
            old(self).settle_tries() == 0 ==> r is Err,
    {
        let monitors = self.settle()?;
        let ghost b = self.calls();
        let stored = self.load_checked(monitors.as_slice())?;
        let ghost c = self.calls();
        let ghost p = profile_view(stored);
        let ghost step = auto_step_of(p, monitors_view(monitors@));
        let r = self.auto_act(monitors.as_slice(), stored);
        proof {
            let d = self.calls();
            let ms = monitors_view(monitors@);
            assert forall|j: int|
                old(self).calls().len() <= j < d.len() && (#[trigger] d[j] matches DisplayCall::RenderRules(l, m, _))
                implies (match d[j] {
                    DisplayCall::RenderRules(l, m, _) => extension_of(l, m, Direction::Right) || exists|i: int|
                        old(self).calls().len() <= i < j && (#[trigger] d[i] matches DisplayCall::Load(m2, Ok(Some(q)))
                            && m2 == m && q@ == l),
                    _ => true,
                }) by {
                if j < b.len() {
                    assert(d[j] == b[j]);
                } else if j < c.len() {
                    assert(d[j] == c[j]);
                } else if step == AutoStep::Restore {
                    assert(p is Some);
                    let i = (c.len() - 1) as int;
                    assert(d[i] == c[i]);
                } else if step == AutoStep::Settled {
                } else if step == AutoStep::Remember {
                    assert(d[j] == d.last());
                }
            }
        }
        r
    }

    /// What the hook does once the monitors settled and the profile was read: nothing when the
    /// profile already describes them, the profile written back when it no longer does, the
    /// monitors remembered as they are when one or none is plugged in and nothing is stored,
    /// and otherwise every screen lined up to the right, with a notice.
    fn auto_act(&mut self, monitors: &[Monitor], stored: Option<Layout>) -> (r: Result<(), Error>)
        requires
            stored matches Some(l) ==> l@.wf(),
        ensures
            final(self).settle_tries() == old(self).settle_tries(),
            auto_step_of(profile_view(stored), monitors_view(monitors@)) == AutoStep::Settled
                ==> r == Ok::<(), Error>(()) && final(self).calls() == old(self).calls(),
            auto_step_of(profile_view(stored), monitors_view(monitors@)) == AutoStep::Restore
                ==> (old(self).settle_tries() == 0 ==> r is Err) && renders_only(
                old(self).calls(),
                final(self).calls(),
                profile_view(stored).unwrap(),
                monitors_view(monitors@),
            ),
            auto_step_of(profile_view(stored), monitors_view(monitors@)) == AutoStep::Remember
                ==> final(self).calls() == old(self).calls().push(final(self).calls().last()) && (
            final(self).calls().last() matches DisplayCall::Save(m, l, saved) && m == monitors_view(
                monitors@,
            ) && observed(m, l) && r == saved),
            auto_step_of(profile_view(stored), monitors_view(monitors@)) == AutoStep::Extend
                ==> (old(self).settle_tries() == 0 ==> r is Err) && extended_only(
                old(self).calls(),
                final(self).calls(),
                Direction::Right,
            ),
    {
        let direction = match hotplug_plan(stored, monitors) {
            AutoPlan::Nothing => return Ok(()),
            AutoPlan::Restore(l) => return self.restore(monitors, l),
            AutoPlan::Remember(observed) => return self.call_save(monitors, &observed),
            AutoPlan::Extend(direction) => direction,
        };
        self.extend_now(direction)?;
        let fresh = self.monitors()?;
        match last_lit_name(fresh.as_slice()) {
            Some(name) => {
                let body = connected_message(name.as_str());
                // a notice that cannot be shown is no reason to fail the hook
                let _ = self.call_notify(
                    "Screen connected",
                    body.as_str(),
                    Icon::VideoDisplay,
                    Some(8000),
                );
            },
            None => {},
        }
        Ok(())
    }

    fn extend_now(&mut self, direction: Direction) -> (r: Result<(), Error>)
        ensures
            renders_plan(old(self).calls(), final(self).calls(), extend_planned(direction)),
            extended_only(old(self).calls(), final(self).calls(), direction),
            final(self).settle_tries() == old(self).settle_tries(),
            old(self).settle_tries() == 0 ==> r is Err,
    {
        let ghost a = self.calls();
        let read = self.read();
        proof {
            lemma_no_renderings_plan(a, self.calls(), extend_planned(direction));
        }
        let (monitors, layout) = read?;
        let ghost b = self.calls();
        let ghost read_layout = layout@;
        let layout = extend_plan(monitors.as_slice(), layout, direction)?;
        let ghost l = layout@;
        let r = self.commit(monitors.as_slice(), layout);
        proof {
            let ms = monitors_view(monitors@);
            lemma_plan_rendered(a, b, self.calls(), ms, read_layout, l, extend_planned(direction));
            assert forall|j: int|
                old(self).calls().len() <= j < self.calls().len() && (#[trigger] self.calls()[j] matches DisplayCall::RenderRules(l, m, _))
                implies (match self.calls()[j] {
                    DisplayCall::RenderRules(l, m, _) => extension_of(l, m, direction),
                    _ => true,
                }) by {
                if j < b.len() {
                    assert(self.calls()[j] == b[j]);
                } else {
                    assert(reconciled_with(ms, read_layout));
                }
            }
        }
        r
    }

    fn enable_now(&mut self, name: &str) -> (r: Result<(), Error>)
        ensures
            renders_plan(old(self).calls(), final(self).calls(), enable_planned(name@)),
            final(self).settle_tries() == old(self).settle_tries(),
            old(self).settle_tries() == 0 ==> r is Err,
    {
        let ghost a = self.calls();
        let read = self.read();
        proof {
            lemma_no_renderings_plan(a, self.calls(), enable_planned(name@));
        }
        let (monitors, layout) = read?;
        let ghost b = self.calls();
        let ghost l0 = layout@;
        let layout = enable_plan(monitors.as_slice(), layout, name)?;
        let ghost l = layout@;
        let committed = self.commit_settled(monitors.as_slice(), layout);
        proof {
            lemma_plan_rendered(a, b, self.calls(), monitors_view(monitors@), l0, l, enable_planned(name@));
        }
        let settled = committed?;
        user(confirm_on(settled.as_slice(), name))
    }

    fn disable_now(&mut self, name: &str) -> (r: Result<(), Error>)
        ensures
            renders_plan(old(self).calls(), final(self).calls(), disable_planned(name@)),
            evacuated_before_rendering(old(self).calls(), final(self).calls()),
            evacuated_before_rules(old(self).calls(), final(self).calls()),
            final(self).settle_tries() == old(self).settle_tries(),
            old(self).settle_tries() == 0 ==> r is Err,
    {
        let ghost a = self.calls();
        let read = self.read();
        proof {
            lemma_no_rules_ordered(a, self.calls());
            lemma_no_renderings_evacuated(a, self.calls());
            lemma_no_renderings_plan(a, self.calls(), disable_planned(name@));
        }
        let (monitors, layout) = read?;
        let ghost l0 = layout@;
        let ghost b = self.calls();
        let layout = disable_plan(monitors.as_slice(), layout, name)?;
        let evacuated = self.evacuate_workspaces(monitors.as_slice(), &layout);
        proof {
            if evacuated is Err {
                lemma_stopped_before_rules(a, b, self.calls());
                lemma_no_renderings_evacuated(a, self.calls());
                lemma_no_renderings_then_workspaces(a, b, self.calls(), false);
                lemma_no_renderings_plan(a, self.calls(), disable_planned(name@));
            }
        }
        evacuated?;
        let ghost c = self.calls();
        let ghost planned = layout@;
        let committed = self.commit_settled(monitors.as_slice(), layout);
        proof {
            lemma_evacuate_then_write(a, b, c, self.calls());
            lemma_evacuation_before_rendering(a, b, c, self.calls(), planned, monitors_view(monitors@));
            lemma_no_renderings_then_workspaces(a, b, c, true);
            lemma_plan_rendered(a, c, self.calls(), monitors_view(monitors@), l0, planned, disable_planned(name@));
        }
        let settled = committed?;
        user(confirm_off(settled.as_slice(), name, false))
    }

    /// A stored profile, refused when its screens are not kept in order.
    fn load_checked(&mut self, monitors: &[Monitor]) -> (r: Result<Option<Layout>, Error>)
        ensures
            r matches Ok(Some(l)) ==> (final(self).calls().last() matches DisplayCall::Load(m, Ok(Some(p)))
                && m == monitors_view(monitors@) && p == l),
            final(self).calls() == old(self).calls().push(final(self).calls().last()),
            final(self).calls().last() is Load,
            final(self).settle_tries() == old(self).settle_tries(),
            r matches Ok(Some(l)) ==> l@.wf(),
    {
        let loaded = self.call_load(monitors)?;
        checked_profile(loaded)
    }

    /// One snapshot per command, reconciled with the stored profile before anything is decided.
    fn read(&mut self) -> (r: Result<(Vec<Monitor>, Layout), Error>)
        ensures
            no_saves(old(self).calls(), final(self).calls()),
            no_renderings(old(self).calls(), final(self).calls()),
            no_workspace_calls(old(self).calls(), final(self).calls()),
            no_rules_written(old(self).calls(), final(self).calls()),
            final(self).settle_tries() == old(self).settle_tries(),
            r matches Ok((ms, l)) ==> l@.wf(),
            r matches Ok((ms, l)) ==> reconciled_with(monitors_view(ms@), l@),
    {
        let monitors = self.monitors()?;
        let stored = self.load_checked(monitors.as_slice())?;
        let ghost p = match &stored {
            Some(l) => l@,
            None => empty_layout(),
        };
        let layout = reconciled(stored, monitors.as_slice());
        assert(reconciled_with(monitors_view(monitors@), layout@)) by {
            assert(synced(p, monitors_view(monitors@), layout@));
        }
        Ok((monitors, layout))
    }

    fn commit(&mut self, monitors: &[Monitor], layout: Layout) -> (r: Result<(), Error>)
        requires
            layout@.wf(),
        ensures
            renders_only(old(self).calls(), final(self).calls(), layout@, monitors_view(monitors@)),
            no_workspace_calls(old(self).calls(), final(self).calls()),
            final(self).settle_tries() == old(self).settle_tries(),
            old(self).settle_tries() == 0 ==> r is Err,
    {
        self.commit_settled(monitors, layout)?;
        Ok(())
    }

    /// Writing the rules is what applies them. The profile is saved once, afterwards, from the
    /// settled snapshot, so symbolic requests never reach disk and a crash leaves the previous
    /// profile intact.
    fn commit_settled(&mut self, monitors: &[Monitor], layout: Layout) -> (r: Result<
        Vec<Monitor>,
        Error,
    >)
        requires
            layout@.wf(),
        ensures
            saved_once_settled(
                old(self).calls(),
                final(self).calls(),
                layout@,
                match r {
                    Ok(settled) => Some(monitors_view(settled@)),
                    Err(_) => None,
                },
            ),
            renders_only(old(self).calls(), final(self).calls(), layout@, monitors_view(monitors@)),
            no_workspace_calls(old(self).calls(), final(self).calls()),
            final(self).settle_tries() == old(self).settle_tries(),
            old(self).settle_tries() == 0 ==> r is Err,
    {
        let mut layout = layout;
        let ghost planned = layout@;
        let rules = self.call_render_rules(&layout, monitors);
        self.call_render(rules.as_str())?;
        self.call_reload()?;
        let ghost b = self.calls();
        let settled = self.settle()?;
        layout.sync(settled.as_slice());
        let ghost c = self.calls();
        let saved = self.call_save(settled.as_slice(), &layout);
        proof {
            assert(synced(planned, monitors_view(settled@), layout@));
            assert forall|j: int|
                old(self).calls().len() <= j < self.calls().len() && (#[trigger] self.calls()[j] matches DisplayCall::Save(m, l2, _))
                implies j == self.calls().len() - 1 && (match self.calls()[j] {
                    DisplayCall::Save(m, l2, _) => synced(planned, m, l2),
                    _ => true,
                }) by {
                if j < b.len() {
                    assert(self.calls()[j] == b[j]);
                } else if j < c.len() {
                    assert(self.calls()[j] == c[j]);
                }
            }
        }
        saved?;
        Ok(settled)
    }

    /// Writes a stored profile back, and stores it again as the settled monitors show it.
    fn restore(&mut self, monitors: &[Monitor], stored: Layout) -> (r: Result<(), Error>)
        requires
            stored@.wf(),
        ensures
            renders_only(old(self).calls(), final(self).calls(), stored@, monitors_view(monitors@)),
            no_workspace_calls(old(self).calls(), final(self).calls()),
            final(self).settle_tries() == old(self).settle_tries(),
            old(self).settle_tries() == 0 ==> r is Err,
    {
        let mut stored = stored;
        let rules = self.call_render_rules(&stored, monitors);
        self.call_render(rules.as_str())?;
        self.call_reload()?;
        let settled = self.settle()?;
        stored.sync(settled.as_slice());
        self.call_save(settled.as_slice(), &stored)
    }

    /// A reading is only trusted once two consecutive ones agree: after the first reading, up
    /// to `tries` more are taken, a pause apart, and the first that agrees with the one before
    /// it is returned. With no second reading allowed nothing is ever trusted.
    fn settle(&mut self) -> (r: Result<Vec<Monitor>, Error>)
        ensures
            no_saves(old(self).calls(), final(self).calls()),
            r matches Ok(ms) ==> final(self).calls().last() == DisplayCall::Monitors(Ok(ms))
                && settled_reading(old(self).calls(), final(self).calls(), old(self).settle_tries(), ms),
            no_renderings(old(self).calls(), final(self).calls()),
            no_workspace_calls(old(self).calls(), final(self).calls()),
            no_rules_written(old(self).calls(), final(self).calls()),
            final(self).settle_tries() == old(self).settle_tries(),
            old(self).settle_tries() == 0 ==> r is Err,
    {
        let mut previous = self.monitors()?;
        if self.settle.tries == 0 {
            return Err(Error::User(UserError::LayoutDidNotSettle));
        }
        let mut t: u32 = 0;
        loop
            invariant
                t < self.settle.tries,
                self.settle_tries() == old(self).settle_tries(),
                no_workspace_calls(old(self).calls(), self.calls()),
                no_rules_written(old(self).calls(), self.calls()),
                no_renderings(old(self).calls(), self.calls()),
                no_saves(old(self).calls(), self.calls()),
                self.calls().len() == old(self).calls().len() + 1 + 2 * t,
                self.calls().last() == DisplayCall::Monitors(Ok(previous)),
            decreases self.settle.tries - t,
        {
            self.call_pause(self.settle.interval_ms);
            let ghost paused = self.calls();
            let current = self.monitors()?;
            let same = same_reading(current.as_slice(), previous.as_slice());
            match settle_step(same, t, self.settle.tries) {
                SettleStep::Done => {
                    assert(self.calls()[self.calls().len() - 3] == paused[paused.len() - 2]);
                    return Ok(current);
                },
                SettleStep::Again => {
                    previous = current;
                    t = t + 1;
                },
                SettleStep::GiveUp => return Err(Error::User(UserError::LayoutDidNotSettle)),
            }
        }
    }

    /// Moves the workspaces off the screens the layout switches off, before the rules that
    /// switch them off are written.
    fn evacuate_workspaces(&mut self, monitors: &[Monitor], layout: &Layout) -> (r: Result<(), Error>)
        ensures
            only_workspace_calls(old(self).calls(), final(self).calls(), r is Ok),
            final(self).settle_tries() == old(self).settle_tries(),
            evacuation_target(layout@, monitors_view(monitors@)) is None ==> r is Ok
                && final(self).calls() == old(self).calls(),
            evacuation_target(layout@, monitors_view(monitors@)) is Some && r is Ok
                ==> evacuation_recorded(
                final(self).calls(),
                old(self).calls().len() as int,
                layout@,
                monitors_view(monitors@),
            ),
    {
        // with no screen staying lit there is nowhere to move workspaces to
        if evacuation_target_of(monitors, layout).is_none() {
            return Ok(());
        }
        let ghost base = self.calls().len() as int;
        let workspaces = self.call_workspaces()?;
        let moves = evacuation(monitors, layout, workspaces.as_slice());
        let ghost planned = evacuation_moves(
            layout@,
            monitors_view(monitors@),
            workspaces_view(workspaces@),
            workspaces@.len() as int,
        );
        assert(self.calls()[base] == DisplayCall::Workspaces(Ok(workspaces)));
        assert(planned.len() == moves@.len());
        let mut i: usize = 0;
        while i < moves.len()
            invariant
                evacuation_target(layout@, monitors_view(monitors@)) is Some,
                self.settle_tries() == old(self).settle_tries(),
                only_workspace_calls(old(self).calls(), self.calls(), true),
                base == old(self).calls().len(),
                i <= moves.len(),
                self.calls().len() == base + 1 + i,
                self.calls()[base] == DisplayCall::Workspaces(Ok(workspaces)),
                planned == Seq::new(moves@.len(), |k: int| (moves@[k].0@, moves@[k].1@)),
                forall|k: int|
                    0 <= k < i ==> #[trigger] self.calls()[base + 1 + k] == DisplayCall::MoveWorkspace(
                        planned[k].0,
                        planned[k].1,
                        Ok(()),
                    ),
            decreases moves.len() - i,
        {
            self.call_move_workspace(moves[i].0.as_str(), moves[i].1.as_str())?;
            i = i + 1;
        }
        Ok(())
    }
}

} // verus!
