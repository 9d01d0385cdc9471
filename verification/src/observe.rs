//! Reconciling a stored layout with what the compositor reports.
use vstd::prelude::*;

use crate::compositor::{find_named, monitors_view, named, Monitor, MonitorView};
use crate::layout::{copy_opt_string, default_placement, has_key, lemma_lookup_at, lookup,
    scale_factor, Layout, LayoutView, Mode, Placement, Point, Position, Scale, Screen, ScreenView,
    State, StateView};
use crate::text::str_eq;

verus! {

/// The last monitor below index `n` described as `d`.
pub open spec fn last_desc(ms: Seq<MonitorView>, d: Seq<char>, n: int) -> Option<int>
    decreases n,
{
    if n <= 0 {
        None
    } else if ms[n - 1].description == d {
        Some(n - 1)
    } else {
        last_desc(ms, d, n - 1)
    }
}

/// The last switched-on monitor below index `n` described as `d`.
pub open spec fn last_lit(ms: Seq<MonitorView>, d: Seq<char>, n: int) -> Option<int>
    decreases n,
{
    if n <= 0 {
        None
    } else if ms[n - 1].description == d && !ms[n - 1].disabled {
        Some(n - 1)
    } else {
        last_lit(ms, d, n - 1)
    }
}

pub open spec fn has_desc(ms: Seq<MonitorView>, d: Seq<char>) -> bool {
    exists|i: int| 0 <= i < ms.len() && #[trigger] ms[i].description == d
}

/// Off when the compositor switched it off; mirroring when it copies a screen it also reports;
/// on otherwise.
pub open spec fn observed_state(ms: Seq<MonitorView>, m: MonitorView) -> StateView {
    if m.disabled {
        StateView::Off
    } else {
        match m.mirror_of {
            Some(n) => match named(ms, n) {
                Some(t) => StateView::Mirroring(ms[t].description),
                None => StateView::On,
            },
            None => StateView::On,
        }
    }
}

/// The geometry a live screen reports.
pub open spec fn observed_placement(m: MonitorView) -> Placement {
    Placement {
        mode: Mode::Fixed(m.resolution),
        position: Position::At(Point { x: m.x, y: m.y }),
        scale: scale_factor(m.scale as int),
    }
}

/// The compositor is authoritative for a live screen; a screen it reports as off has no geometry
/// to report, so the stored placement is all there is. When a description is reported more than
/// once, the last report wins.
pub open spec fn synced_screen(old: Option<ScreenView>, ms: Seq<MonitorView>, d: Seq<char>) -> ScreenView {
    let j = last_desc(ms, d, ms.len() as int).unwrap();
    ScreenView {
        state: observed_state(ms, ms[j]),
        placement: match last_lit(ms, d, ms.len() as int) {
            Some(l) => observed_placement(ms[l]),
            None => match old {
                Some(s) => s.placement,
                None => default_placement(),
            },
        },
    }
}

/// `new` is `old` reconciled with the reported monitors: one screen per reported description,
/// and an anchor only while its screen is still reported.
pub open spec fn synced(old: LayoutView, ms: Seq<MonitorView>, new: LayoutView) -> bool {
    &&& new.wf()
    &&& forall|k: Seq<char>| #[trigger] new.contains(k) <==> has_desc(ms, k)
    &&& forall|k: Seq<char>|
        has_desc(ms, k) ==> #[trigger] new.get(k) == Some(synced_screen(old.get(k), ms, k))
    &&& new.anchor == match old.anchor {
        Some(a) => if has_desc(ms, a) {
            Some(a)
        } else {
            None
        },
        None => None,
    }
}

/// The layout the monitors show, with nothing stored to fall back on.
pub open spec fn observed(ms: Seq<MonitorView>, new: LayoutView) -> bool {
    synced(LayoutView { anchor: None, screens: Seq::empty() }, ms, new)
}

pub open spec fn screens_match(s: ScreenView, live: ScreenView) -> bool {
    s.state == live.state && (s.off() || s.placement == live.placement)
}

/// The stored layout still describes the monitors: the same screens, each in the same state and,
/// unless it is dark, with the same geometry.
pub open spec fn layout_matches(l: LayoutView, ms: Seq<MonitorView>) -> bool {
    &&& forall|k: Seq<char>| #[trigger] l.contains(k) <==> has_desc(ms, k)
    &&& forall|k: Seq<char>|
        #[trigger] l.contains(k) ==> screens_match(l.get(k).unwrap(), synced_screen(None, ms, k))
}

/// The monitors show one layout only.
pub proof fn lemma_observed_unique(ms: Seq<MonitorView>, a: LayoutView, b: LayoutView)
    requires
        observed(ms, a),
        observed(ms, b),
    ensures
        a == b,
{
    assert forall|k: Seq<char>| #[trigger] has_key(a.screens, k) <==> has_key(b.screens, k) by {
        assert(a.contains(k) <==> has_desc(ms, k));
        assert(b.contains(k) <==> has_desc(ms, k));
    }
    assert forall|k: Seq<char>| #[trigger] lookup(a.screens, k) == lookup(b.screens, k) by {
        if has_desc(ms, k) {
            assert(a.get(k) == b.get(k));
        } else {
            assert(!a.contains(k));
            assert(!b.contains(k));
        }
    }
    crate::layout::lemma_entries_unique(a.screens, b.screens);
}

proof fn lemma_lit_when_last_lit(ms: Seq<MonitorView>, d: Seq<char>, n: int)
    requires
        0 <= n <= ms.len(),
        last_desc(ms, d, n) matches Some(j) && !ms[j].disabled,
    ensures
        last_lit(ms, d, n) == last_desc(ms, d, n),
    decreases n,
{
    if n > 0 && ms[n - 1].description != d {
        lemma_lit_when_last_lit(ms, d, n - 1);
    }
}

/// A layout reconciled with the monitors matches them, so the hotplug hook that our own writes
/// fire finds nothing left to do.
pub proof fn lemma_synced_matches(old: LayoutView, ms: Seq<MonitorView>, new: LayoutView)
    requires
        synced(old, ms, new),
    ensures
        layout_matches(new, ms),
{
    assert forall|k: Seq<char>| #[trigger] new.contains(k) implies screens_match(
        new.get(k).unwrap(),
        synced_screen(None, ms, k),
    ) by {
        assert(has_desc(ms, k));
        assert(new.get(k) == Some(synced_screen(old.get(k), ms, k)));
        let i = choose|i: int| 0 <= i < ms.len() && #[trigger] ms[i].description == k;
        lemma_last_desc_found(ms, k, ms.len() as int);
        let j = last_desc(ms, k, ms.len() as int).unwrap();
        if !ms[j].disabled {
            lemma_lit_when_last_lit(ms, k, ms.len() as int);
        }
    }
}

/// A stored layout that matches the monitors runs every screen it keeps lit exactly as the last
/// monitor reporting that screen shows it: that monitor is lit, and the stored mode, position
/// and scale are the ones it reports. Every stored screen is plugged in, and every plugged-in
/// screen is stored.
pub proof fn lemma_matching_runs_as_shown(l: LayoutView, ms: Seq<MonitorView>, k: Seq<char>)
    requires
        layout_matches(l, ms),
    ensures
        l.contains(k) <==> exists|i: int| 0 <= i < ms.len() && #[trigger] ms[i].description == k,
        l.get(k) matches Some(s) ==> (!s.off() ==> (last_lit(ms, k, ms.len() as int) matches Some(j)
            && 0 <= j < ms.len() && ms[j].description == k && !ms[j].disabled && s.placement == (
        Placement {
            mode: Mode::Fixed(ms[j].resolution),
            position: Position::At(Point { x: ms[j].x, y: ms[j].y }),
            scale: scale_factor(ms[j].scale as int),
        }))),
{
    assert(l.contains(k) <==> has_desc(ms, k));
    if l.get(k) is Some && !l.get(k).unwrap().off() {
        let s = l.get(k).unwrap();
        assert(l.contains(k));
        assert(has_desc(ms, k));
        lemma_last_desc_found(ms, k, ms.len() as int);
        let j = last_desc(ms, k, ms.len() as int).unwrap();
        assert(screens_match(s, synced_screen(None, ms, k)));
        assert(!ms[j].disabled);
        lemma_lit_when_last_lit(ms, k, ms.len() as int);
    }
}

proof fn lemma_last_desc_found(ms: Seq<MonitorView>, d: Seq<char>, n: int)
    requires
        0 <= n <= ms.len(),
        exists|i: int| 0 <= i < n && #[trigger] ms[i].description == d,
    ensures
        last_desc(ms, d, n) matches Some(j) && 0 <= j < n && ms[j].description == d,
    decreases n,
{
    if ms[n - 1].description != d {
        let i = choose|i: int| 0 <= i < n && #[trigger] ms[i].description == d;
        assert(i < n - 1);
        lemma_last_desc_found(ms, d, n - 1);
    }
}

proof fn lemma_last_lit_bounds(ms: Seq<MonitorView>, d: Seq<char>, n: int)
    requires
        0 <= n <= ms.len(),
    ensures
        last_lit(ms, d, n) matches Some(j) ==> 0 <= j < n,
    decreases n,
{
    if n > 0 {
        lemma_last_lit_bounds(ms, d, n - 1);
    }
}

fn last_described(monitors: &[Monitor], d: &str, lit_only: bool) -> (r: Option<usize>)
    ensures
        lit_only ==> match r {
            Some(j) => last_lit(monitors_view(monitors@), d@, monitors@.len() as int) == Some(
                j as int,
            ),
            None => last_lit(monitors_view(monitors@), d@, monitors@.len() as int) is None,
        },
        !lit_only ==> match r {
            Some(j) => last_desc(monitors_view(monitors@), d@, monitors@.len() as int) == Some(
                j as int,
            ),
            None => last_desc(monitors_view(monitors@), d@, monitors@.len() as int) is None,
        },
        r matches Some(j) ==> j < monitors@.len(),
{
    let ghost ms = monitors_view(monitors@);
    let mut best: Option<usize> = None;
    let mut i: usize = 0;
    while i < monitors.len()
        invariant
            i <= monitors.len(),
            ms == monitors_view(monitors@),
            lit_only ==> match best {
                Some(j) => last_lit(ms, d@, i as int) == Some(j as int),
                None => last_lit(ms, d@, i as int) is None,
            },
            !lit_only ==> match best {
                Some(j) => last_desc(ms, d@, i as int) == Some(j as int),
                None => last_desc(ms, d@, i as int) is None,
            },
            best matches Some(j) ==> j < i,
        decreases monitors.len() - i,
    {
        let m = &monitors[i];
        assert(ms[i as int] == m@);
        if str_eq(m.description.as_str(), d) && (!lit_only || !m.disabled) {
            best = Some(i);
        }
        proof {
            lemma_last_lit_bounds(ms, d@, i as int);
        }
        i = i + 1;
    }
    best
}

impl Layout {
    /// The screen `d` becomes once reconciled with the monitors.
    fn synced_screen_exec(&self, monitors: &[Monitor], d: &str) -> (s: Screen)
        requires
            self@.wf(),
            has_desc(monitors_view(monitors@), d@),
        ensures
            s@ == synced_screen(self@.get(d@), monitors_view(monitors@), d@),
    {
        let ghost ms = monitors_view(monitors@);
        proof {
            let i = choose|i: int| 0 <= i < ms.len() && #[trigger] ms[i].description == d@;
            assert(0 <= i < ms.len() && ms[i].description == d@);
            lemma_last_desc_found(ms, d@, ms.len() as int);
        }
        let last = match last_described(monitors, d, false) {
            Some(j) => j,
            None => 0,
        };
        let m = &monitors[last];
        assert(ms[last as int] == m@);
        let state = if m.disabled {
            State::Off
        } else {
            match &m.mirror_of {
                Some(n) => match find_named(monitors, n.as_str()) {
                    Some(t) => {
                        assert(ms[t as int] == monitors@[t as int]@);
                        State::Mirroring(monitors[t].description.clone())
                    },
                    None => State::On,
                },
                None => State::On,
            }
        };
        let placement = match last_described(monitors, d, true) {
            Some(l) => {
                let lm = &monitors[l];
                assert(ms[l as int] == lm@);
                Placement {
                    mode: Mode::Fixed(lm.resolution),
                    position: Position::At(Point { x: lm.x, y: lm.y }),
                    scale: Scale::factor(lm.scale),
                }
            },
            None => match self.get(d) {
                Some(old) => old.placement,
                None => Placement::default(),
            },
        };
        Screen { state, placement }
    }

    /// Reconciles the layout with the monitors the compositor reports.
    pub fn sync(&mut self, monitors: &[Monitor])
        requires
            old(self)@.wf(),
        ensures
            synced(old(self)@, monitors_view(monitors@), final(self)@),
    {
        let ghost ms = monitors_view(monitors@);
        let mut fresh = Layout::new();
        let mut i: usize = 0;
        while i < monitors.len()
            invariant
                i <= monitors.len(),
                ms == monitors_view(monitors@),
                self@.wf(),
                fresh@.wf(),
                fresh@.anchor is None,
                forall|k: Seq<char>| #[trigger]
                    fresh@.contains(k) <==> exists|j: int|
                        0 <= j < i && #[trigger] ms[j].description == k,
                forall|k: Seq<char>| #[trigger]
                    fresh@.contains(k) ==> fresh@.get(k) == Some(
                        synced_screen(self@.get(k), ms, k),
                    ),
            decreases monitors.len() - i,
        {
            let d = &monitors[i].description;
            assert(ms[i as int].description == d@);
            let ghost before = fresh@;
            if !fresh.contains_key(d.as_str()) {
                proof {
                    assert(has_desc(ms, d@));
                }
                let screen = self.synced_screen_exec(monitors, d.as_str());
                fresh.insert(d.clone(), screen);
            }
            proof {
                assert forall|k: Seq<char>| #[trigger]
                    fresh@.contains(k) <==> exists|j: int|
                        0 <= j < i + 1 && #[trigger] ms[j].description == k by {
                    if fresh@.contains(k) && k != d@ {
                        assert(before.contains(k));
                    }
                    if exists|j: int| 0 <= j < i + 1 && #[trigger] ms[j].description == k {
                        let j = choose|j: int| 0 <= j < i + 1 && #[trigger] ms[j].description == k;
                        if j < i {
                            assert(before.contains(k));
                        }
                    }
                }
            }
            i = i + 1;
        }
        proof {
            assert forall|k: Seq<char>| #[trigger] fresh@.contains(k) <==> has_desc(ms, k) by {
                if has_desc(ms, k) {
                    let j = choose|j: int| 0 <= j < ms.len() && #[trigger] ms[j].description == k;
                    assert(exists|j: int| 0 <= j < monitors.len() && #[trigger] ms[j].description == k);
                }
            }
        }
        let anchor = match &self.anchor {
            Some(a) => if fresh.contains_key(a.as_str()) {
                Some(a.clone())
            } else {
                None
            },
            None => None,
        };
        let ghost before = fresh@;
        fresh.anchor = anchor;
        proof {
            assert(fresh@.screens == before.screens);
            assert forall|k: Seq<char>| has_desc(ms, k) implies #[trigger] fresh@.get(k) == Some(
                synced_screen(old(self)@.get(k), ms, k),
            ) by {
                assert(before.contains(k));
                assert(before.get(k) == fresh@.get(k));
            }
            assert forall|k: Seq<char>| #[trigger] fresh@.contains(k) <==> has_desc(ms, k) by {
                assert(before.contains(k) == fresh@.contains(k));
            }
        }
        *self = fresh;
    }

    /// The layout the monitors show.
    pub fn observe(monitors: &[Monitor]) -> (l: Self)
        ensures
            observed(monitors_view(monitors@), l@),
    {
        let mut l = Layout::new();
        proof {
            let e = LayoutView { anchor: None, screens: Seq::empty() };
            assert(l@.anchor == e.anchor);
            assert(l@.screens =~= e.screens);
        }
        l.sync(monitors);
        l
    }

    /// The re-entrancy guard: our own writes fire the hotplug hooks, and a matching layout is what
    /// stops the `auto` they trigger from reloading again.
    pub fn matches(&self, monitors: &[Monitor]) -> (b: bool)
        requires
            self@.wf(),
        ensures
            b == layout_matches(self@, monitors_view(monitors@)),
    {
        let ghost ms = monitors_view(monitors@);
        let live = Layout::observe(monitors);
        proof {
            assert forall|k: Seq<char>| has_desc(ms, k) implies #[trigger] live@.get(k) == Some(
                synced_screen(None, ms, k),
            ) by {
                assert(live@.get(k) == Some(
                    synced_screen(LayoutView { anchor: None, screens: Seq::empty() }.get(k), ms, k),
                ));
                assert(!has_key(Seq::<(Seq<char>, ScreenView)>::empty(), k));
            }
        }
        let mut i: usize = 0;
        while i < self.screens.len()
            invariant
                i <= self.screens.len(),
                self@.wf(),
                live@.wf(),
                ms == monitors_view(monitors@),
                forall|k: Seq<char>| #[trigger] live@.contains(k) <==> has_desc(ms, k),
                forall|k: Seq<char>|
                    has_desc(ms, k) ==> #[trigger] live@.get(k) == Some(synced_screen(None, ms, k)),
                forall|j: int|
                    0 <= j < i ==> has_desc(ms, #[trigger] self@.screens[j].0) && screens_match(
                        self@.screens[j].1,
                        synced_screen(None, ms, self@.screens[j].0),
                    ),
            decreases self.screens.len() - i,
        {
            let (desc, screen) = self.entry(i);
            proof {
                lemma_lookup_at(self@.screens, i as int);
                assert(self@.contains(desc@));
            }
            let other = match live.get(desc.as_str()) {
                Some(o) => o,
                None => {
                    return false;
                },
            };
            proof {
                assert(live@.contains(desc@));
                assert(has_desc(ms, desc@));
            }
            if !screen.state.same(&other.state) {
                return false;
            }
            if !screen.is_off() && screen.placement != other.placement {
                return false;
            }
            i = i + 1;
        }
        let mut j: usize = 0;
        while j < live.screens.len()
            invariant
                j <= live.screens.len(),
                self@.wf(),
                live@.wf(),
                ms == monitors_view(monitors@),
                forall|k: Seq<char>| #[trigger] live@.contains(k) <==> has_desc(ms, k),
                forall|j: int|
                    0 <= j < self@.screens.len() ==> has_desc(ms, #[trigger] self@.screens[j].0)
                        && screens_match(
                        self@.screens[j].1,
                        synced_screen(None, ms, self@.screens[j].0),
                    ),
                forall|t: int| 0 <= t < j ==> #[trigger] self@.contains(live@.screens[t].0),
            decreases live.screens.len() - j,
        {
            let (desc, _) = live.entry(j);
            if !self.contains_key(desc.as_str()) {
                proof {
                    lemma_lookup_at(live@.screens, j as int);
                    assert(live@.contains(desc@));
                    assert(has_desc(ms, desc@));
                }
                return false;
            }
            j = j + 1;
        }
        proof {
            assert forall|k: Seq<char>| #[trigger] self@.contains(k) <==> has_desc(ms, k) by {
                if self@.contains(k) {
                    let t = choose|t: int| 0 <= t < self@.screens.len() && #[trigger] self@.screens[t].0 == k;
                }
                if has_desc(ms, k) {
                    assert(live@.contains(k));
                    let t = choose|t: int| 0 <= t < live@.screens.len() && #[trigger] live@.screens[t].0 == k;
                }
            }
            assert forall|k: Seq<char>| #[trigger] self@.contains(k) implies screens_match(
                self@.get(k).unwrap(),
                synced_screen(None, ms, k),
            ) by {
                let t = choose|t: int| 0 <= t < self@.screens.len() && #[trigger] self@.screens[t].0 == k;
                lemma_lookup_at(self@.screens, t);
            }
        }
        true
    }

    /// Whether two layouts say the same thing.
    pub fn same_as(&self, other: &Layout) -> (b: bool)
        ensures
            b == (self@ == other@),
    {
        let anchors = match (&self.anchor, &other.anchor) {
            (Some(a), Some(b)) => str_eq(a.as_str(), b.as_str()),
            (None, None) => true,
            _ => false,
        };
        if !anchors || self.screens.len() != other.screens.len() {
            proof {
                if self@ == other@ {
                    assert(self@.screens.len() == other@.screens.len());
                }
            }
            return false;
        }
        let mut i: usize = 0;
        while i < self.screens.len()
            invariant
                i <= self.screens.len() == other.screens.len(),
                forall|j: int| 0 <= j < i ==> self@.screens[j] == other@.screens[j],
            decreases self.screens.len() - i,
        {
            let (ka, sa) = self.entry(i);
            let (kb, sb) = other.entry(i);
            if !str_eq(ka.as_str(), kb.as_str()) || !sa.state.same(&sb.state) || sa.placement
                != sb.placement {
                proof {
                    if self@ == other@ {
                        assert(self@.screens[i as int] == other@.screens[i as int]);
                    }
                }
                return false;
            }
            i = i + 1;
        }
        assert(self@.screens =~= other@.screens);
        true
    }
}

} // verus!
