use std::cell::{Cell, RefCell};
use std::collections::HashMap;

use myarchy::app::display::{
    auto_step, checked_profile, disable_plan, enable_plan, extend_plan, mirror_plan, mode_plan,
    only_plan, placement_fits, placement_plan, primary_plan, scale_plan, settle_step, stored_anchor,
    AutoStep, Display, Pause, Settle, SettleStep,
};
use myarchy::compositor::{name_of, CompositorCtl, Monitor, Workspace};
use myarchy::error::{Error, UserError};
use myarchy::layout::{Direction, Layout, Mode, Position, Scale, Side, State};
use myarchy::notify::Silent;
use myarchy::resolution::Resolution;
use myarchy::store::LayoutStore;

const BOE: &str = "BOE 0x08B9";
const LG: &str = "LG Electronics LG HDR WQHD 303NTZN51357";

fn monitor(name: &str, description: &str, mode: &str, at: (i64, i64)) -> Monitor {
    Monitor {
        name: name.into(),
        description: description.into(),
        resolution: Resolution::parse(mode).unwrap(),
        x: at.0,
        y: at.1,
        scale: 10_000,
        disabled: false,
        focused: false,
        mirror_of: None,
        resolutions: vec![Resolution::parse(mode).unwrap()],
    }
}

fn laptop() -> Monitor {
    monitor("eDP-1", BOE, "1920x1080@60.003", (0, 0))
}

fn ultrawide() -> Monitor {
    monitor("DP-3", LG, "3440x1440@99.997", (1920, 0))
}

/// Obeys the rules it is handed the way hyprland does: nothing changes until `reload`, `preferred`
/// resolves to the screen's first mode, and `auto-right` lands past whatever is already placed.
struct FakeCompositor {
    monitors: RefCell<Vec<Monitor>>,
    workspaces: RefCell<Vec<Workspace>>,
    pending: RefCell<Option<Layout>>,
    obeys: Cell<bool>,
    reloads: Cell<usize>,
    moved: RefCell<Vec<(String, String)>>,
}

impl FakeCompositor {
    fn new(monitors: Vec<Monitor>) -> Self {
        Self {
            monitors: RefCell::new(monitors),
            workspaces: RefCell::new(Vec::new()),
            pending: RefCell::new(None),
            obeys: Cell::new(true),
            reloads: Cell::new(0),
            moved: RefCell::new(Vec::new()),
        }
    }

    fn with_workspaces(self, workspaces: &[(&str, &str)]) -> Self {
        *self.workspaces.borrow_mut() = workspaces
            .iter()
            .map(|(name, monitor)| Workspace { name: (*name).into(), monitor: (*monitor).into() })
            .collect();
        self
    }

    fn replug(&self, monitors: Vec<Monitor>) {
        *self.monitors.borrow_mut() = monitors;
    }

    fn at(&self, name: &str) -> (i64, i64) {
        let monitors = self.monitors.borrow();
        let m = monitors.iter().find(|m| m.name == name).unwrap();
        (m.x, m.y)
    }

    fn mode_of(&self, name: &str) -> Resolution {
        let monitors = self.monitors.borrow();
        monitors.iter().find(|m| m.name == name).unwrap().resolution
    }

    fn is_disabled(&self, name: &str) -> bool {
        self.monitors.borrow().iter().find(|m| m.name == name).unwrap().disabled
    }

    fn apply(&self, layout: &Layout) {
        let before = self.monitors.borrow().clone();
        let mut monitors = before.clone();

        for monitor in &mut monitors {
            let Some(screen) = layout.get(&monitor.description) else {
                continue;
            };
            match &screen.state {
                State::Off => {
                    *monitor = switched_off(monitor.clone());
                }
                State::Mirroring(target) => {
                    monitor.disabled = false;
                    monitor.mirror_of = name_of(&before, target);
                }
                State::On => {
                    monitor.disabled = false;
                    monitor.mirror_of = None;
                    monitor.resolution = match screen.placement.mode {
                        Mode::Fixed(resolution) => resolution,
                        Mode::Preferred => monitor.resolutions[0],
                    };
                    monitor.scale = match screen.placement.scale {
                        Scale::Factor(v) if v > 0 => v,
                        _ => 10_000,
                    };
                }
            }
        }

        let laid_out: Vec<usize> = (0..monitors.len())
            .filter(|i| layout.get(&monitors[*i].description).is_some_and(|s| s.is_on()))
            .collect();

        let size_of = |m: &Monitor| {
            (
                (m.resolution.width as f64 * 10_000.0 / m.scale as f64).round() as i64,
                (m.resolution.height as f64 * 10_000.0 / m.scale as f64).round() as i64,
            )
        };

        let mut boxes: Vec<(i64, i64, i64, i64)> = Vec::new();
        let mut deferred = Vec::new();
        for i in laid_out {
            let position = layout.get(&monitors[i].description).unwrap().placement.position;
            let (width, height) = size_of(&monitors[i]);
            match position {
                Position::At(p) => {
                    monitors[i].x = p.x;
                    monitors[i].y = p.y;
                    boxes.push((p.x, p.y, width, height));
                }
                other => deferred.push((i, other, width, height)),
            }
        }
        for (i, position, width, height) in deferred {
            let (x, y) = free_spot(&boxes, position, width, height);
            monitors[i].x = x;
            monitors[i].y = y;
            boxes.push((x, y, width, height));
        }

        *self.monitors.borrow_mut() = monitors;
    }
}

fn switched_off(mut monitor: Monitor) -> Monitor {
    monitor.disabled = true;
    monitor.mirror_of = None;
    monitor.resolution = Resolution::new(0, 0, 0);
    monitor.x = 0;
    monitor.y = 0;
    monitor.scale = 0;
    monitor
}

fn free_spot(boxes: &[(i64, i64, i64, i64)], position: Position, width: i64, height: i64) -> (i64, i64) {
    if boxes.is_empty() {
        return (0, 0);
    }
    let right = boxes.iter().map(|(x, _, w, _)| x + w).max().unwrap();
    let left = boxes.iter().map(|(x, _, _, _)| *x).min().unwrap();
    let bottom = boxes.iter().map(|(_, y, _, h)| y + h).max().unwrap();
    let top = boxes.iter().map(|(_, y, _, _)| *y).min().unwrap();

    match position {
        Position::Toward(Direction::Left) => (left - width, 0),
        Position::Toward(Direction::Above) => (0, top - height),
        Position::Toward(Direction::Below) => (0, bottom),
        _ => (right, 0),
    }
}

impl CompositorCtl for FakeCompositor {
    fn monitors(&self) -> Result<Vec<Monitor>, Error> {
        Ok(self.monitors.borrow().clone())
    }

    fn reload(&self) -> Result<(), Error> {
        self.reloads.set(self.reloads.get() + 1);
        if let (true, Some(layout)) = (self.obeys.get(), self.pending.borrow().as_ref()) {
            self.apply(layout);
        }
        Ok(())
    }

    fn workspaces(&self) -> Result<Vec<Workspace>, Error> {
        Ok(self.workspaces.borrow().clone())
    }

    fn move_workspace_to_monitor(&self, workspace: &str, monitor: &str) -> Result<(), Error> {
        self.moved.borrow_mut().push((workspace.into(), monitor.into()));
        Ok(())
    }

    fn render_rules(&self, layout: &Layout, _monitors: &[Monitor]) -> String {
        *self.pending.borrow_mut() = Some(layout.clone());
        format!("{} screens", layout.len())
    }
}

#[derive(Default)]
struct MemoryStore {
    profiles: RefCell<HashMap<String, Layout>>,
}

fn key(monitors: &[Monitor]) -> String {
    let mut descriptions: Vec<&str> = monitors.iter().map(|m| m.description.as_str()).collect();
    descriptions.sort_unstable();
    descriptions.join("\n")
}

impl LayoutStore for MemoryStore {
    fn load(&self, monitors: &[Monitor]) -> Result<Option<Layout>, Error> {
        Ok(self.profiles.borrow().get(&key(monitors)).cloned())
    }

    fn save(&self, monitors: &[Monitor], layout: &Layout) -> Result<(), Error> {
        self.profiles.borrow_mut().insert(key(monitors), layout.clone());
        Ok(())
    }

    fn render(&self, _rules: &str) -> Result<(), Error> {
        Ok(())
    }

    fn reset(&self, monitors: &[Monitor]) -> Result<(), Error> {
        self.profiles.borrow_mut().remove(&key(monitors));
        Ok(())
    }

    fn lock(&self) -> Result<(), Error> {
        Ok(())
    }

    fn unlock(&self) {}
}

struct NoPause;

impl Pause for NoPause {
    fn pause(&self, _millis: u64) {}
}

fn display<'a>(compositor: &'a FakeCompositor, store: &'a MemoryStore) -> Display<'a> {
    Display::new(compositor, store, &Silent, &NoPause, Settle { tries: 3, interval_ms: 0 })
}

#[test]
fn auto_extends_a_new_screen_and_then_leaves_a_matching_layout_alone() {
    let compositor = FakeCompositor::new(vec![laptop(), ultrawide()]);
    let store = MemoryStore::default();
    let mut display = display(&compositor, &store);

    display.auto().unwrap();

    assert_eq!(compositor.at("eDP-1"), (0, 0));
    assert_eq!(compositor.at("DP-3"), (1920, 0), "extended to the right");

    let settled = compositor.reloads.get();
    display.auto().unwrap();
    assert_eq!(
        compositor.reloads.get(),
        settled,
        "our own writes fire the hotplug hooks, so a matching layout must not reload again"
    );
}

#[test]
fn a_profile_is_restored_when_the_screen_comes_back() {
    let compositor = FakeCompositor::new(vec![laptop(), ultrawide()]);
    let store = MemoryStore::default();
    let mut display = display(&compositor, &store);

    display.auto().unwrap();
    display.place("eDP-1", Side::RightOf, "DP-3").unwrap();
    assert_eq!(compositor.at("DP-3"), (0, 0));
    assert_eq!(compositor.at("eDP-1"), (3440, 180));

    compositor.replug(vec![laptop()]);
    display.auto().unwrap();

    compositor.replug(vec![laptop(), ultrawide()]);
    display.auto().unwrap();

    assert_eq!(compositor.at("DP-3"), (0, 0));
    assert_eq!(compositor.at("eDP-1"), (3440, 180));
}

#[test]
fn only_moves_the_workspaces_off_a_screen_before_switching_it_off() {
    let compositor = FakeCompositor::new(vec![laptop(), ultrawide()]).with_workspaces(&[
        ("1", "eDP-1"),
        ("2", "DP-3"),
        ("special:magic", "eDP-1"),
    ]);
    let store = MemoryStore::default();
    let mut display = display(&compositor, &store);

    display.only("DP-3").unwrap();

    assert_eq!(
        *compositor.moved.borrow(),
        vec![("1".to_string(), "DP-3".to_string())],
        "a special workspace has no place to go"
    );
    assert!(compositor.is_disabled("eDP-1"));
    assert_eq!(compositor.at("DP-3"), (0, 0));
}

#[test]
fn a_bare_size_takes_the_highest_refresh_the_screen_offers() {
    let mut dual_refresh = laptop();
    dual_refresh.resolutions = vec![
        Resolution::parse("1920x1080@59.951").unwrap(),
        Resolution::parse("1920x1080@60.003").unwrap(),
    ];
    let compositor = FakeCompositor::new(vec![dual_refresh, ultrawide()]);
    let store = MemoryStore::default();
    let mut display = display(&compositor, &store);

    display.set_mode("eDP-1", "1920x1080").unwrap();

    assert_eq!(compositor.mode_of("eDP-1"), Resolution::parse("1920x1080@60.003").unwrap());
}

#[test]
fn a_compositor_that_ignores_the_rules_is_reported() {
    let compositor = FakeCompositor::new(vec![laptop(), ultrawide()]);
    let store = MemoryStore::default();
    let mut display = display(&compositor, &store);
    compositor.obeys.set(false);

    let err = display.disable("eDP-1").unwrap_err();

    assert!(
        matches!(&err, Error::User(UserError::DidNotSwitchOff { name }) if name == "eDP-1"),
        "{err:?}"
    );
}

/// Anything a person can trigger from the command line has to arrive as a `UserError`, the only
/// thing a catalogue can translate.
#[test]
fn every_display_failure_a_person_can_trigger_carries_a_user_error() {
    let compositor = FakeCompositor::new(vec![laptop(), ultrawide()]);
    let store = MemoryStore::default();
    let mut display = display(&compositor, &store);

    let failures = [
        ("unknown monitor", display.enable("DP-9").unwrap_err()),
        ("a size the screen has not got", display.set_mode("eDP-1", "800x600").unwrap_err()),
        ("a mode that is not a mode", display.set_mode("eDP-1", "enormous").unwrap_err()),
        ("a scale of zero", display.set_scale("eDP-1", "0").unwrap_err()),
        ("a scale that is not a number", display.set_scale("eDP-1", "big").unwrap_err()),
        ("placed against itself", display.place("eDP-1", Side::RightOf, "eDP-1").unwrap_err()),
        ("placed against an unknown screen", display.place("eDP-1", Side::RightOf, "DP-9").unwrap_err()),
    ];

    for (what, err) in failures {
        assert!(matches!(err, Error::User(_)), "{what} reaches the user untranslatable: {err:?}");
    }
}

#[test]
fn mirror_copies_every_screen_onto_the_anchor_and_extend_takes_them_back() {
    let compositor = FakeCompositor::new(vec![laptop(), ultrawide()]);
    let store = MemoryStore::default();
    let mut display = display(&compositor, &store);
    display.auto().unwrap();

    display.mirror().unwrap();
    assert_eq!(compositor.monitors.borrow()[1].mirror_of.as_deref(), Some("eDP-1"));

    display.extend(Direction::Left).unwrap();
    assert_eq!(compositor.monitors.borrow()[1].mirror_of, None);
    assert_eq!(compositor.at("eDP-1"), (0, 0));
    assert_eq!(compositor.at("DP-3"), (-3440, 0));
}

#[test]
fn the_anchor_is_named_by_connector_while_it_is_plugged_in() {
    let compositor = FakeCompositor::new(vec![laptop(), ultrawide()]);
    let store = MemoryStore::default();
    let mut display = display(&compositor, &store);
    assert_eq!(display.anchor().unwrap(), None);
    display.set_primary("DP-3").unwrap();
    assert_eq!(display.anchor().unwrap(), Some("DP-3".to_string()));
    assert_eq!(display.modes("eDP-1").unwrap(), vec![Resolution::new(1920, 1080, 60_003)]);
    assert!(matches!(display.modes("DP-9"), Err(Error::User(UserError::UnknownMonitor { .. }))));
}

#[test]
fn a_screen_that_never_settles_is_reported() {
    struct Restless {
        inner: FakeCompositor,
        reads: Cell<i64>,
    }
    impl CompositorCtl for Restless {
        fn monitors(&self) -> Result<Vec<Monitor>, Error> {
            self.reads.set(self.reads.get() + 1);
            let mut ms = self.inner.monitors()?;
            ms[0].x = self.reads.get();
            Ok(ms)
        }
        fn reload(&self) -> Result<(), Error> {
            Ok(())
        }
        fn workspaces(&self) -> Result<Vec<Workspace>, Error> {
            Ok(Vec::new())
        }
        fn move_workspace_to_monitor(&self, _w: &str, _m: &str) -> Result<(), Error> {
            Ok(())
        }
        fn render_rules(&self, _l: &Layout, _m: &[Monitor]) -> String {
            String::new()
        }
    }
    let compositor = Restless { inner: FakeCompositor::new(vec![laptop(), ultrawide()]), reads: Cell::new(0) };
    let store = MemoryStore::default();
    let mut display =
        Display::new(&compositor, &store, &Silent, &NoPause, Settle { tries: 3, interval_ms: 0 });
    assert!(matches!(display.auto(), Err(Error::User(UserError::LayoutDidNotSettle))));
    assert_eq!(Settle::default(), Settle { tries: 30, interval_ms: 100 });
}

#[test]
fn toggle_switches_a_screen_off_and_back_on() {
    let compositor = FakeCompositor::new(vec![laptop(), ultrawide()]);
    let store = MemoryStore::default();
    let mut display = display(&compositor, &store);
    display.auto().unwrap();
    display.toggle("DP-3").unwrap();
    assert!(compositor.is_disabled("DP-3"));
    display.toggle("DP-3").unwrap();
    assert!(!compositor.is_disabled("DP-3"));
    assert_eq!(compositor.at("DP-3"), (1920, 0), "back where it was");
}

#[test]
fn the_hook_decides_from_the_stored_profile_and_the_screens() {
    let live = [laptop(), ultrawide()];
    let stored = Layout::observe(&live);
    assert_eq!(auto_step(Some(&stored), &live), AutoStep::Settled);
    let mut moved = laptop();
    moved.x = 10;
    assert_eq!(auto_step(Some(&stored), &[moved, ultrawide()]), AutoStep::Restore);
    assert_eq!(auto_step(None, &live), AutoStep::Extend);
    assert_eq!(auto_step(None, &[laptop()]), AutoStep::Remember);
    assert_eq!(auto_step(None, &[]), AutoStep::Remember);
}

#[test]
fn a_profile_out_of_order_is_refused() {
    let good = Layout::observe(&[laptop(), ultrawide()]);
    assert_eq!(checked_profile(Some(good.clone())), Ok(Some(good.clone())));
    assert_eq!(checked_profile(None), Ok(None));
    let mut bad = good;
    bad.screens.reverse();
    assert_eq!(
        checked_profile(Some(bad)),
        Err(Error::Other("the stored profile does not keep its screens in order".into()))
    );
}

#[test]
fn the_stored_anchor_is_named_by_its_connector() {
    let live = [laptop(), ultrawide()];
    let mut layout = Layout::observe(&live);
    layout.anchor = Some(LG.into());
    assert_eq!(stored_anchor(Some(layout.clone()), &live), Some("DP-3".to_string()));
    assert_eq!(stored_anchor(Some(layout), &[laptop()]), None);
    assert_eq!(stored_anchor(None, &live), None);
}

#[test]
fn an_ordinary_placement_fits() {
    let layout = Layout::observe(&[laptop(), ultrawide()]);
    assert_eq!(placement_fits(&layout, BOE, Side::RightOf, LG), Ok(()));
}

fn state_of(layout: &Layout, desc: &str) -> State {
    layout.screens.iter().find(|(d, _)| d == desc).map(|(_, s)| s.state.clone()).unwrap()
}

#[test]
fn plans_refuse_a_monitor_that_is_not_plugged_in() {
    let live = [laptop(), ultrawide()];
    let layout = Layout::observe(&live);
    let unknown = Err(Error::User(UserError::UnknownMonitor { name: "HDMI-A-9".into() }));
    assert_eq!(primary_plan(&live, layout.clone(), "HDMI-A-9"), unknown);
    assert_eq!(only_plan(&live, layout.clone(), "HDMI-A-9"), unknown);
    assert_eq!(enable_plan(&live, layout.clone(), "HDMI-A-9"), unknown);
    assert_eq!(disable_plan(&live, layout.clone(), "HDMI-A-9"), unknown);
    assert_eq!(scale_plan(&live, layout.clone(), "HDMI-A-9", Scale::factor(20_000)), unknown);
    assert_eq!(mode_plan(&live, layout.clone(), "HDMI-A-9", "preferred"), unknown);
    assert_eq!(placement_plan(&live, layout.clone(), "eDP-1", Side::LeftOf, "HDMI-A-9"), unknown);
}

#[test]
fn plans_change_the_named_screen() {
    let live = [laptop(), ultrawide()];
    let layout = Layout::observe(&live);
    assert_eq!(primary_plan(&live, layout.clone(), "DP-3").unwrap().anchor, Some(LG.to_string()));
    let only = only_plan(&live, layout.clone(), "DP-3").unwrap();
    assert_eq!(state_of(&only, BOE), State::Off);
    assert_eq!(state_of(&only, LG), State::On);
    let off = disable_plan(&live, layout.clone(), "eDP-1").unwrap();
    assert_eq!(state_of(&off, BOE), State::Off);
    let on = enable_plan(&live, off, "eDP-1").unwrap();
    assert_eq!(state_of(&on, BOE), State::On);
    let preferred = mode_plan(&live, layout, "DP-3", "preferred").unwrap();
    let lg = preferred.screens.iter().find(|(d, _)| d == LG).unwrap();
    assert_eq!(lg.1.placement.mode, Mode::Preferred);
}

#[test]
fn plans_refuse_what_the_layout_cannot_do() {
    let live = [laptop(), ultrawide()];
    let layout = Layout::observe(&live);
    assert_eq!(
        mode_plan(&live, layout.clone(), "DP-3", "fast"),
        Err(Error::User(UserError::InvalidMode { value: "fast".into() }))
    );
    assert_eq!(
        placement_plan(&live, layout.clone(), "DP-3", Side::LeftOf, "DP-3"),
        Err(Error::User(UserError::CannotPlaceSelfRelative))
    );
    let alone = Layout::observe(&[laptop()]);
    assert_eq!(
        disable_plan(&[laptop()], alone.clone(), "eDP-1"),
        Err(Error::User(UserError::CannotDisableLastScreen))
    );
    assert_eq!(
        enable_plan(&live, alone, "DP-3"),
        Err(Error::User(UserError::NoStoredScreen { description: LG.into() }))
    );
    assert_eq!(mirror_plan(&[], Layout::new()), Err(Error::User(UserError::NoScreenToBuildAround)));
    assert_eq!(
        extend_plan(&[], Layout::new(), Direction::Right),
        Err(Error::User(UserError::NoScreenToBuildAround))
    );
}

#[test]
fn a_reading_is_trusted_once_two_agree() {
    assert_eq!(settle_step(true, 0, 30), SettleStep::Done);
    assert_eq!(settle_step(true, 29, 30), SettleStep::Done);
    assert_eq!(settle_step(false, 0, 30), SettleStep::Again);
    assert_eq!(settle_step(false, 28, 30), SettleStep::Again);
    assert_eq!(settle_step(false, 29, 30), SettleStep::GiveUp);
    assert_eq!(settle_step(false, 0, 1), SettleStep::GiveUp);
}
