//! What each layout command does to the layout, before anything is written or applied.
use vstd::prelude::*;

use crate::error::UserError;
use crate::layout::{has_key, key_index, lemma_lookup_at, logical_size_of, lookup, sorted_keys, Direction, Entries,
    Layout, LayoutView, Mode, Placement, Point, Position, Scale, Screen, ScreenView, State,
    StateView};
use crate::text::{push_str, str_eq};

verus! {

/// Applies `f` to every screen, keeping the descriptions.
pub open spec fn map_screens(es: Entries, f: spec_fn(Seq<char>, ScreenView) -> ScreenView) -> Entries {
    Seq::new(es.len(), |i: int| (es[i].0, f(es[i].0, es[i].1)))
}

pub open spec fn origin() -> Position {
    Position::At(Point { x: 0, y: 0 })
}

/// Every screen on, every mode back to its preferred one, laid out along `direction` from the
/// anchor, which sits at the origin; scales are kept.
pub open spec fn extended(l: LayoutView, anchor: Seq<char>, direction: Direction) -> LayoutView {
    LayoutView {
        anchor: l.anchor,
        screens: map_screens(
            l.screens,
            |k: Seq<char>, s: ScreenView|
                ScreenView {
                    state: StateView::On,
                    placement: Placement {
                        mode: Mode::Preferred,
                        position: if k == anchor {
                            origin()
                        } else {
                            Position::Toward(direction)
                        },
                        scale: s.placement.scale,
                    },
                },
        ),
    }
}

/// The anchor on at the origin, every other screen mirroring it; modes and scales are kept.
pub open spec fn mirrored(l: LayoutView, anchor: Seq<char>) -> LayoutView {
    LayoutView {
        anchor: l.anchor,
        screens: map_screens(
            l.screens,
            |k: Seq<char>, s: ScreenView|
                if k == anchor {
                    ScreenView {
                        state: StateView::On,
                        placement: Placement { position: origin(), ..s.placement },
                    }
                } else {
                    ScreenView { state: StateView::Mirroring(anchor), placement: s.placement }
                },
        ),
    }
}

/// Only `keep` on, at the origin and anchoring the layout; every other screen off, keeping its
/// geometry.
pub open spec fn only_kept(l: LayoutView, keep: Seq<char>) -> LayoutView {
    LayoutView {
        anchor: Some(keep),
        screens: map_screens(
            l.screens,
            |k: Seq<char>, s: ScreenView|
                if k == keep {
                    ScreenView {
                        state: StateView::On,
                        placement: Placement { position: origin(), ..s.placement },
                    }
                } else {
                    ScreenView { state: StateView::Off, placement: s.placement }
                },
        ),
    }
}

/// The screen stored under `desc` changed by `f`, every other one left alone.
pub open spec fn updated(l: LayoutView, desc: Seq<char>, f: spec_fn(ScreenView) -> ScreenView) -> LayoutView {
    LayoutView {
        anchor: l.anchor,
        screens: map_screens(
            l.screens,
            |k: Seq<char>, s: ScreenView|
                if k == desc {
                    f(s)
                } else {
                    s
                },
        ),
    }
}

/// Switched back on, or out of mirroring; a screen with no resolved size yet goes back to an
/// automatic position.
pub open spec fn enabled_screen(s: ScreenView) -> ScreenView {
    if s.on() {
        s
    } else {
        ScreenView {
            state: StateView::On,
            placement: if logical_size_of(s.placement) is None {
                Placement { position: Position::Auto, ..s.placement }
            } else {
                s.placement
            },
        }
    }
}

/// Switched off, keeping its geometry.
pub open spec fn switched_off(s: ScreenView) -> ScreenView {
    ScreenView { state: StateView::Off, ..s }
}

/// Switching a lit screen that has a size off and back on puts it back as it was, where it was.
pub proof fn lemma_switched_off_and_on(l: LayoutView, desc: Seq<char>)
    requires
        l.wf(),
        l.get(desc) matches Some(s) && s.on() && logical_size_of(s.placement) is Some,
    ensures
        updated(updated(l, desc, |s: ScreenView| switched_off(s)), desc, |s: ScreenView| enabled_screen(s))
            == l,
{
    let once = updated(l, desc, |s: ScreenView| switched_off(s));
    let twice = updated(once, desc, |s: ScreenView| enabled_screen(s));
    assert forall|i: int| 0 <= i < l.screens.len() implies twice.screens[i] == l.screens[i] by {
        if l.screens[i].0 == desc {
            lemma_lookup_at(l.screens, i);
        }
    }
    assert(twice.screens =~= l.screens);
}

impl Layout {
    /// How many screens are lit: on or mirroring.
    pub fn enabled_count(&self) -> (n: usize)
        ensures
            n == lit_count(self@.screens),
    {
        enabled_count(self)
    }
}

/// How many screens are lit: on or mirroring.
pub open spec fn lit_count(es: Entries) -> nat
    decreases es.len(),
{
    if es.len() == 0 {
        0
    } else {
        lit_count(es.drop_last()) + if es.last().1.off() {
            0nat
        } else {
            1nat
        }
    }
}

pub proof fn lemma_same_keys_sorted(a: Entries, b: Entries)
    requires
        sorted_keys(a),
        a.len() == b.len(),
        forall|i: int| 0 <= i < a.len() ==> (#[trigger] a[i]).0 == b[i].0,
    ensures
        sorted_keys(b),
{
    assert forall|i: int, j: int| 0 <= i < j < b.len() implies crate::text::seq_lt(
        #[trigger] b[i].0,
        #[trigger] b[j].0,
    ) by {
        assert(a[i].0 == b[i].0 && a[j].0 == b[j].0);
    }
}

/// Two entry lists with the same keys in the same order hold the same screens under each key,
/// at the same index.
pub proof fn lemma_lookup_same_keys(es: Entries, ms: Entries, k: Seq<char>)
    requires
        sorted_keys(es),
        es.len() == ms.len(),
        forall|i: int| 0 <= i < es.len() ==> (#[trigger] es[i]).0 == ms[i].0,
    ensures
        has_key(ms, k) == has_key(es, k),
        has_key(es, k) ==> 0 <= key_index(es, k) < es.len() && es[key_index(es, k)].0 == k
            && lookup(es, k) == Some(es[key_index(es, k)].1) && lookup(ms, k) == Some(
            ms[key_index(es, k)].1,
        ),
        !has_key(es, k) ==> lookup(es, k) is None && lookup(ms, k) is None,
{
    lemma_same_keys_sorted(es, ms);
    if has_key(es, k) {
        let i = key_index(es, k);
        lemma_lookup_at(es, i);
        assert(ms[i].0 == k);
        lemma_lookup_at(ms, i);
    } else {
        assert forall|i: int| 0 <= i < ms.len() implies #[trigger] ms[i].0 != k by {
            assert(es[i].0 == ms[i].0);
        }
    }
}

/// Extending switches every screen on at its preferred mode and keeps its scale: the anchor
/// lands at the origin and every other screen is laid out toward `direction`. It keeps the
/// same screens and the same anchor.
pub proof fn lemma_extend_keeps_scales(l: LayoutView, anchor: Seq<char>, direction: Direction, k: Seq<char>)
    requires
        l.wf(),
    ensures
        extended(l, anchor, direction).contains(k) == l.contains(k),
        extended(l, anchor, direction).anchor == l.anchor,
        l.get(k) matches Some(s) ==> extended(l, anchor, direction).get(k) matches Some(e) && e.state
            == StateView::On && e.placement.mode == Mode::Preferred && e.placement.scale
            == s.placement.scale && (k == anchor ==> e.placement.position == Position::At(
            Point { x: 0, y: 0 },
        )) && (k != anchor ==> e.placement.position == Position::Toward(direction)),
{
    let es = l.screens;
    let ms = extended(l, anchor, direction).screens;
    assert forall|i: int| 0 <= i < es.len() implies (#[trigger] es[i]).0 == ms[i].0 by {}
    lemma_lookup_same_keys(es, ms, k);
}

/// Mirroring moves the anchor to the origin and changes nothing else of its placement, mode and
/// scale included; every other screen mirrors the anchor and keeps its placement. It keeps the
/// same screens and the same anchor.
pub proof fn lemma_mirror_keeps_placements(l: LayoutView, anchor: Seq<char>, k: Seq<char>)
    requires
        l.wf(),
    ensures
        mirrored(l, anchor).contains(k) == l.contains(k),
        mirrored(l, anchor).anchor == l.anchor,
        l.get(k) matches Some(s) ==> mirrored(l, anchor).get(k) matches Some(e) && (if k == anchor {
            e.state == StateView::On && e.placement.mode == s.placement.mode && e.placement.scale
                == s.placement.scale && e.placement.position == Position::At(Point { x: 0, y: 0 })
        } else {
            e.state == StateView::Mirroring(anchor) && e.placement == s.placement
        }),
{
    let es = l.screens;
    let ms = mirrored(l, anchor).screens;
    assert forall|i: int| 0 <= i < es.len() implies (#[trigger] es[i]).0 == ms[i].0 by {}
    lemma_lookup_same_keys(es, ms, k);
}

/// Keeping only one screen moves it to the origin, switched on, and changes nothing else of its
/// placement, mode and scale included; every other screen is switched off and keeps its
/// placement; the kept screen anchors the layout, which keeps the same screens.
pub proof fn lemma_only_keeps_placements(l: LayoutView, keep: Seq<char>, k: Seq<char>)
    requires
        l.wf(),
    ensures
        only_kept(l, keep).contains(k) == l.contains(k),
        only_kept(l, keep).anchor == Some(keep),
        l.get(k) matches Some(s) ==> only_kept(l, keep).get(k) matches Some(e) && (if k == keep {
            e.state == StateView::On && e.placement.mode == s.placement.mode && e.placement.scale
                == s.placement.scale && e.placement.position == Position::At(Point { x: 0, y: 0 })
        } else {
            e.state == StateView::Off && e.placement == s.placement
        }),
{
    let es = l.screens;
    let ms = only_kept(l, keep).screens;
    assert forall|i: int| 0 <= i < es.len() implies (#[trigger] es[i]).0 == ms[i].0 by {}
    lemma_lookup_same_keys(es, ms, k);
}

fn no_stored_screen(desc: &str) -> (e: UserError)
    ensures
        e matches UserError::NoStoredScreen { description } && description@ == desc@,
{
    let mut d = String::new();
    push_str(&mut d, desc);
    UserError::NoStoredScreen { description: d }
}

/// Every screen on, every mode back to its preferred one, laid out along `direction` from the
/// anchor. The reliable way back from any layout.
pub fn extend(layout: &mut Layout, anchor_desc: &str, direction: Direction)
    requires
        old(layout)@.wf(),
    ensures
        final(layout)@ == extended(old(layout)@, anchor_desc@, direction),
        final(layout)@.wf(),
{
    let ghost target = extended(layout@, anchor_desc@, direction);
    let mut fresh: Vec<(String, Screen)> = Vec::new();
    let mut i: usize = 0;
    while i < layout.screens.len()
        invariant
            i <= layout.screens.len(),
            fresh@.len() == i,
            target == extended(layout@, anchor_desc@, direction),
            forall|j: int| 0 <= j < i ==> (#[trigger] fresh@[j]).0@ == target.screens[j].0
                && fresh@[j].1@ == target.screens[j].1,
        decreases layout.screens.len() - i,
    {
        let (desc, screen) = layout.entry(i);
        let position = if str_eq(desc.as_str(), anchor_desc) {
            Position::At(Point { x: 0, y: 0 })
        } else {
            Position::Toward(direction)
        };
        let s = Screen {
            state: State::On,
            placement: Placement {
                mode: Mode::Preferred,
                position,
                scale: screen.placement.scale,
            },
        };
        fresh.push((desc.clone(), s));
        i = i + 1;
    }
    layout.screens = fresh;
    proof {
        assert(layout@.screens =~= target.screens);
        lemma_same_keys_sorted(old(layout)@.screens, layout@.screens);
    }
}

/// Every other screen copies the anchor, which sits at the origin.
pub fn mirror(layout: &mut Layout, anchor_desc: &str)
    requires
        old(layout)@.wf(),
    ensures
        final(layout)@ == mirrored(old(layout)@, anchor_desc@),
        final(layout)@.wf(),
{
    let ghost target = mirrored(layout@, anchor_desc@);
    let mut fresh: Vec<(String, Screen)> = Vec::new();
    let mut i: usize = 0;
    while i < layout.screens.len()
        invariant
            i <= layout.screens.len(),
            fresh@.len() == i,
            target == mirrored(layout@, anchor_desc@),
            forall|j: int| 0 <= j < i ==> (#[trigger] fresh@[j]).0@ == target.screens[j].0
                && fresh@[j].1@ == target.screens[j].1,
        decreases layout.screens.len() - i,
    {
        let (desc, screen) = layout.entry(i);
        let s = if str_eq(desc.as_str(), anchor_desc) {
            Screen {
                state: State::On,
                placement: Placement {
                    position: Position::At(Point { x: 0, y: 0 }),
                    ..screen.placement
                },
            }
        } else {
            let mut a = String::new();
            push_str(&mut a, anchor_desc);
            Screen { state: State::Mirroring(a), placement: screen.placement }
        };
        fresh.push((desc.clone(), s));
        i = i + 1;
    }
    layout.screens = fresh;
    proof {
        assert(layout@.screens =~= target.screens);
        lemma_same_keys_sorted(old(layout)@.screens, layout@.screens);
    }
}

/// Leaves one screen on, at the origin, and anchors the layout on it.
pub fn only(layout: &mut Layout, keep_desc: &str)
    requires
        old(layout)@.wf(),
    ensures
        final(layout)@ == only_kept(old(layout)@, keep_desc@),
        final(layout)@.wf(),
{
    let ghost target = only_kept(layout@, keep_desc@);
    let mut fresh: Vec<(String, Screen)> = Vec::new();
    let mut i: usize = 0;
    while i < layout.screens.len()
        invariant
            i <= layout.screens.len(),
            fresh@.len() == i,
            target == only_kept(layout@, keep_desc@),
            forall|j: int| 0 <= j < i ==> (#[trigger] fresh@[j]).0@ == target.screens[j].0
                && fresh@[j].1@ == target.screens[j].1,
        decreases layout.screens.len() - i,
    {
        let (desc, screen) = layout.entry(i);
        let s = if str_eq(desc.as_str(), keep_desc) {
            Screen {
                state: State::On,
                placement: Placement {
                    position: Position::At(Point { x: 0, y: 0 }),
                    ..screen.placement
                },
            }
        } else {
            Screen { state: State::Off, placement: screen.placement }
        };
        fresh.push((desc.clone(), s));
        i = i + 1;
    }
    layout.screens = fresh;
    let mut k = String::new();
    push_str(&mut k, keep_desc);
    layout.anchor = Some(k);
    proof {
        assert(layout@.screens =~= target.screens);
        lemma_same_keys_sorted(old(layout)@.screens, layout@.screens);
    }
}

/// Replaces the screen stored under `desc` at index `i`.
fn replace_at(layout: &mut Layout, i: usize, screen: Screen)
    requires
        old(layout)@.wf(),
        i < old(layout)@.screens.len(),
    ensures
        final(layout)@.wf(),
        final(layout)@.anchor == old(layout)@.anchor,
        final(layout)@.screens == old(layout)@.screens.update(
            i as int,
            (old(layout)@.screens[i as int].0, screen@),
        ),
{
    let key = layout.screens[i].0.clone();
    let ghost before = layout@.screens;
    layout.screens.set(i, (key, screen));
    proof {
        assert(layout@.screens =~= before.update(i as int, (before[i as int].0, screen@)));
        lemma_same_keys_sorted(before, layout@.screens);
    }
}

proof fn lemma_updated_at(l: LayoutView, i: int, desc: Seq<char>, f: spec_fn(ScreenView) -> ScreenView)
    requires
        l.wf(),
        0 <= i < l.screens.len(),
        l.screens[i].0 == desc,
    ensures
        updated(l, desc, f).screens =~= l.screens.update(i, (desc, f(l.screens[i].1))),
{
    let u = updated(l, desc, f).screens;
    let v = l.screens.update(i, (desc, f(l.screens[i].1)));
    assert forall|j: int| 0 <= j < u.len() implies u[j] == v[j] by {
        if j != i && l.screens[j].0 == desc {
            crate::layout::lemma_sorted_unique(l.screens, i, j);
        }
    }
}

/// Sets the mode a stored screen asks for.
pub fn set_mode(layout: &mut Layout, desc: &str, mode: Mode) -> (r: Result<(), UserError>)
    requires
        old(layout)@.wf(),
    ensures
        final(layout)@.wf(),
        old(layout)@.contains(desc@) ==> r is Ok && final(layout)@ == updated(
            old(layout)@,
            desc@,
            |s: ScreenView| ScreenView { placement: Placement { mode, ..s.placement }, ..s },
        ),
        !old(layout)@.contains(desc@) ==> final(layout)@ == old(layout)@ && (r matches Err(
            UserError::NoStoredScreen { description },
        ) && description@ == desc@),
{
    match layout.index_of(desc) {
        Some(i) => {
            let (_, s) = layout.entry(i);
            let screen = Screen {
                state: s.state.duplicate(),
                placement: Placement { mode, ..s.placement },
            };
            replace_at(layout, i, screen);
            proof {
                lemma_updated_at(
                    old(layout)@,
                    i as int,
                    desc@,
                    |s: ScreenView| ScreenView { placement: Placement { mode, ..s.placement }, ..s },
                );
            }
            Ok(())
        },
        None => Err(no_stored_screen(desc)),
    }
}

/// Sets the scale a stored screen asks for.
pub fn set_scale(layout: &mut Layout, desc: &str, scale: Scale) -> (r: Result<(), UserError>)
    requires
        old(layout)@.wf(),
    ensures
        final(layout)@.wf(),
        old(layout)@.contains(desc@) ==> r is Ok && final(layout)@ == updated(
            old(layout)@,
            desc@,
            |s: ScreenView| ScreenView { placement: Placement { scale, ..s.placement }, ..s },
        ),
        !old(layout)@.contains(desc@) ==> final(layout)@ == old(layout)@ && (r matches Err(
            UserError::NoStoredScreen { description },
        ) && description@ == desc@),
{
    match layout.index_of(desc) {
        Some(i) => {
            let (_, s) = layout.entry(i);
            let screen = Screen {
                state: s.state.duplicate(),
                placement: Placement { scale, ..s.placement },
            };
            replace_at(layout, i, screen);
            proof {
                lemma_updated_at(
                    old(layout)@,
                    i as int,
                    desc@,
                    |s: ScreenView| ScreenView { placement: Placement { scale, ..s.placement }, ..s },
                );
            }
            Ok(())
        },
        None => Err(no_stored_screen(desc)),
    }
}

/// Also the way out of mirroring, since a mirror is on but has no place on the layout.
pub fn enable(layout: &mut Layout, desc: &str) -> (r: Result<(), UserError>)
    requires
        old(layout)@.wf(),
    ensures
        final(layout)@.wf(),
        old(layout)@.contains(desc@) ==> r is Ok && final(layout)@ == updated(
            old(layout)@,
            desc@,
            |s: ScreenView| enabled_screen(s),
        ),
        !old(layout)@.contains(desc@) ==> final(layout)@ == old(layout)@ && (r matches Err(
            UserError::NoStoredScreen { description },
        ) && description@ == desc@),
{
    match layout.index_of(desc) {
        Some(i) => {
            let (_, s) = layout.entry(i);
            if s.is_on() {
                proof {
                    lemma_updated_at(old(layout)@, i as int, desc@, |s: ScreenView| enabled_screen(s));
                    assert(layout@.screens =~= layout@.screens.update(
                        i as int,
                        (desc@, enabled_screen(layout@.screens[i as int].1)),
                    ));
                }
                return Ok(());
            }
            let mut placement = s.placement;
            if placement.logical_size().is_none() {
                placement.position = Position::Auto;
            }
            replace_at(layout, i, Screen { state: State::On, placement });
            proof {
                lemma_updated_at(old(layout)@, i as int, desc@, |s: ScreenView| enabled_screen(s));
            }
            Ok(())
        },
        None => Err(no_stored_screen(desc)),
    }
}

proof fn lemma_lit_count_update(es: Entries, i: int, e: (Seq<char>, ScreenView))
    requires
        0 <= i < es.len(),
    ensures
        lit_count(es.update(i, e)) + (if es[i].1.off() {
            0int
        } else {
            1int
        }) == lit_count(es) + (if e.1.off() {
            0int
        } else {
            1int
        }),
    decreases es.len(),
{
    let u = es.update(i, e);
    if i < es.len() - 1 {
        assert(u.drop_last() =~= es.drop_last().update(i, e));
        lemma_lit_count_update(es.drop_last(), i, e);
    } else {
        assert(u.drop_last() =~= es.drop_last());
    }
}

/// How many screens are lit.
pub fn enabled_count(layout: &Layout) -> (n: usize)
    ensures
        n == lit_count(layout@.screens),
{
    let mut n: usize = 0;
    let mut i: usize = 0;
    while i < layout.screens.len()
        invariant
            i <= layout.screens.len(),
            n == lit_count(layout@.screens.take(i as int)),
            n <= i,
        decreases layout.screens.len() - i,
    {
        proof {
            assert(layout@.screens.take(i + 1).drop_last() =~= layout@.screens.take(i as int));
        }
        if !layout.screens[i].1.is_off() {
            n = n + 1;
        }
        i = i + 1;
    }
    assert(layout@.screens.take(layout.screens.len() as int) =~= layout@.screens);
    n
}

/// Switches a screen off, refusing to leave none lit.
pub fn disable(layout: &mut Layout, desc: &str) -> (r: Result<(), UserError>)
    requires
        old(layout)@.wf(),
    ensures
        final(layout)@.wf(),
        lit_count(old(layout)@.screens) <= 1 ==> final(layout)@ == old(layout)@ && r matches Err(
            UserError::CannotDisableLastScreen,
        ),
        lit_count(old(layout)@.screens) > 1 && !old(layout)@.contains(desc@) ==> final(layout)@
            == old(layout)@ && (r matches Err(UserError::NoStoredScreen { description })
            && description@ == desc@),
        lit_count(old(layout)@.screens) > 1 && old(layout)@.contains(desc@) ==> r is Ok
            && final(layout)@ == updated(
            old(layout)@,
            desc@,
            |s: ScreenView| switched_off(s),
        ),
        // never the last lit screen
        r is Ok ==> lit_count(final(layout)@.screens) >= 1,
{
    if enabled_count(layout) <= 1 {
        return Err(UserError::CannotDisableLastScreen);
    }
    match layout.index_of(desc) {
        Some(i) => {
            let (_, s) = layout.entry(i);
            let placement = s.placement;
            replace_at(layout, i, Screen { state: State::Off, placement });
            proof {
                lemma_updated_at(
                    old(layout)@,
                    i as int,
                    desc@,
                    |s: ScreenView| switched_off(s),
                );
                lemma_lit_count_update(
                    old(layout)@.screens,
                    i as int,
                    (desc@, ScreenView { state: StateView::Off, placement }),
                );
            }
            Ok(())
        },
        None => Err(no_stored_screen(desc)),
    }
}

} // verus!
