use std::cell::{Cell, RefCell};

use myarchy::app::brightness::{required, with_control, BrightnessCtl, BrightnessSource};
use myarchy::app::cursor::{cursor_size, kept_choice, theme_cursor_name, theme_cursor_size, CursorCtl};
use myarchy::app::wallpaper::{current_wallpaper, first_wallpaper, known_wallpaper, theme_wallpaper, WallpaperCtl};
use myarchy::app::{Brightness, Cursor, Wallpaper};
use myarchy::cli::candidates;
use myarchy::cli::display::{mode_names, row};
use myarchy::compositor::{described_monitors, CompositorCtl, Monitor, Workspace};
use myarchy::error::{Error, UserError};
use myarchy::layout::Layout;
use myarchy::notify::{Icon, OsdCtl};
use myarchy::percent::Percent;
use myarchy::resolution::Resolution;
use myarchy::store::{CursorStore, PreferredCursor, WallpaperStore};
use myarchy::theme::ThemeCtl;

fn monitor(name: &str, description: &str) -> Monitor {
    Monitor {
        name: name.into(),
        description: description.into(),
        resolution: Resolution::new(1920, 1080, 60_003),
        x: 0,
        y: 0,
        scale: 10_000,
        disabled: false,
        focused: false,
        mirror_of: None,
        resolutions: vec![Resolution::new(1920, 1080, 60_003), Resolution::new(1280, 720, 60_000)],
    }
}

fn strings(v: &[&str]) -> Vec<String> {
    v.iter().map(|s| s.to_string()).collect()
}

struct Theme {
    vars: Vec<(&'static str, &'static str)>,
    renders: Cell<usize>,
}

impl ThemeCtl for Theme {
    fn get_var(&self, key: &str) -> Result<Option<String>, Error> {
        Ok(self.vars.iter().find(|(k, _)| *k == key).map(|(_, v)| v.to_string()))
    }

    fn render(&self) -> Result<(), Error> {
        self.renders.set(self.renders.get() + 1);
        Ok(())
    }
}

fn theme_with(vars: Vec<(&'static str, &'static str)>) -> Theme {
    Theme { vars, renders: Cell::new(0) }
}

// ---------------------------------------------------------------------------------------------
// Cursor
// ---------------------------------------------------------------------------------------------

struct CursorBackend {
    applied: RefCell<Vec<(String, i64)>>,
    accepts: bool,
}

impl CursorCtl for CursorBackend {
    fn set(&self, name: &str, size: i64) -> Result<(), Error> {
        self.applied.borrow_mut().push((name.into(), size));
        if self.accepts {
            Ok(())
        } else {
            Err(Error::User(UserError::CursorNotApplied { name: name.into() }))
        }
    }
}

#[derive(Default)]
struct CursorMemory {
    preferred: RefCell<Option<PreferredCursor>>,
}

impl CursorStore for CursorMemory {
    fn list(&self) -> Result<Vec<String>, Error> {
        Ok(strings(&["Adwaita", "Bibata"]))
    }

    fn load_preferred(&self) -> Option<PreferredCursor> {
        self.preferred.borrow().clone()
    }

    fn save_preferred(&self, name: &str, size: i64) -> Result<(), Error> {
        *self.preferred.borrow_mut() = Some(PreferredCursor { name: name.into(), size });
        Ok(())
    }

    fn forget_preferred(&self) {
        *self.preferred.borrow_mut() = None;
    }
}

#[test]
fn a_cursor_choice_is_remembered_even_when_the_compositor_refuses_it() {
    let backend = CursorBackend { applied: RefCell::new(Vec::new()), accepts: false };
    let store = CursorMemory::default();
    let theme = theme_with(vec![]);
    let mut cursor = Cursor::new(&backend, &store, &theme);

    assert_eq!(
        cursor.set("Bibata", 24),
        Err(Error::User(UserError::CursorNotApplied { name: "Bibata".into() }))
    );
    assert_eq!(store.load_preferred(), Some(PreferredCursor { name: "Bibata".into(), size: 24 }));
    assert_eq!(theme.renders.get(), 1);
    assert_eq!(cursor.list().unwrap(), strings(&["Adwaita", "Bibata"]));
}

#[test]
fn the_preferred_cursor_falls_back_to_the_desktop_theme() {
    let backend = CursorBackend { applied: RefCell::new(Vec::new()), accepts: true };
    let store = CursorMemory::default();
    let theme = theme_with(vec![("cursor-name", "Breeze"), ("cursor-size", "32")]);
    let mut cursor = Cursor::new(&backend, &store, &theme);

    cursor.apply_preferred().unwrap();
    store.save_preferred("Bibata", 24).unwrap();
    cursor.apply_preferred().unwrap();
    cursor.reset().unwrap();

    assert_eq!(
        *backend.applied.borrow(),
        vec![("Breeze".to_string(), 32), ("Bibata".to_string(), 24), ("Breeze".to_string(), 32)]
    );
    assert_eq!(store.load_preferred(), None, "reset forgets the choice");

    let bare = theme_with(vec![("cursor-name", "Breeze")]);
    let mut cursor = Cursor::new(&backend, &store, &bare);
    assert_eq!(cursor.apply_preferred(), Err(Error::User(UserError::NoPreferredCursor)));

    let odd = theme_with(vec![("cursor-name", "Breeze"), ("cursor-size", "big")]);
    let mut cursor = Cursor::new(&backend, &store, &odd);
    assert_eq!(
        cursor.apply_preferred(),
        Err(Error::User(UserError::InvalidThemeValue { key: "cursor-size".into() }))
    );
    assert_eq!(cursor_size(" 24"), Err(UserError::InvalidThemeValue { key: "cursor-size".into() }));
    assert_eq!(cursor_size("-8"), Ok(-8));
}

// ---------------------------------------------------------------------------------------------
// Wallpaper
// ---------------------------------------------------------------------------------------------

#[derive(Default)]
struct Shown {
    paths: RefCell<Vec<String>>,
}

impl WallpaperCtl for Shown {
    fn apply(&self, path: &str) -> Result<(), Error> {
        self.paths.borrow_mut().push(path.into());
        Ok(())
    }
}

struct WallpaperMemory {
    names: Vec<String>,
    current: RefCell<Option<String>>,
    preferred: RefCell<Option<String>>,
}

impl WallpaperMemory {
    fn new(names: &[&str]) -> Self {
        WallpaperMemory { names: strings(names), current: RefCell::new(None), preferred: RefCell::new(None) }
    }
}

impl WallpaperStore for WallpaperMemory {
    fn dir(&self) -> String {
        "/walls".into()
    }

    fn list(&self) -> Result<Vec<String>, Error> {
        Ok(self.names.clone())
    }

    fn contains(&self, name: &str) -> bool {
        self.names.iter().any(|n| n == name)
    }

    fn current(&self) -> Option<String> {
        self.current.borrow().clone()
    }

    fn has_current(&self) -> bool {
        self.current.borrow().is_some()
    }

    fn point_current_at(&self, name: &str) -> Result<String, Error> {
        *self.current.borrow_mut() = Some(name.into());
        Ok(format!("/walls/{name}"))
    }

    fn load_preferred(&self) -> Option<String> {
        self.preferred.borrow().clone()
    }

    fn save_preferred(&self, name: &str) -> Result<(), Error> {
        *self.preferred.borrow_mut() = Some(name.into());
        Ok(())
    }

    fn forget_preferred(&self) {
        *self.preferred.borrow_mut() = None;
    }
}

#[test]
fn a_fresh_install_starts_with_the_first_wallpaper() {
    let shown = Shown::default();
    let store = WallpaperMemory::new(&["a.png", "b.jpg"]);
    let theme = theme_with(vec![("wallpaper", "b.jpg")]);
    let mut wallpaper = Wallpaper::new(&shown, &store, &theme);

    wallpaper.init().unwrap();
    assert_eq!(wallpaper.current(), Some("a.png".to_string()));
    assert_eq!(*store.preferred.borrow(), Some("a.png".to_string()));
    wallpaper.init().unwrap();
    assert_eq!(shown.paths.borrow().len(), 1, "init leaves a set wallpaper alone");
    assert_eq!(wallpaper.dir(), "/walls");

    assert_eq!(
        wallpaper.set("c.png"),
        Err(Error::User(UserError::UnknownWallpaper { name: "c.png".into() }))
    );
    wallpaper.reset().unwrap();
    assert_eq!(*shown.paths.borrow(), strings(&["/walls/a.png", "/walls/b.jpg"]), "back to the theme's");
    assert_eq!(first_wallpaper(Vec::new()), Err(UserError::NoWallpapers));

    let empty = WallpaperMemory::new(&[]);
    let mut wallpaper = Wallpaper::new(&shown, &empty, &theme);
    assert_eq!(wallpaper.init(), Err(Error::User(UserError::NoWallpapers)));
    assert_eq!(wallpaper.save_preferred(), Err(Error::User(UserError::NoCurrentWallpaper)));
    let bare = theme_without_wallpaper();
    let mut wallpaper = Wallpaper::new(&shown, &empty, &bare);
    assert_eq!(wallpaper.apply_preferred(), Err(Error::User(UserError::NoPreferredWallpaper)));
}

fn theme_without_wallpaper() -> Theme {
    theme_with(vec![])
}

// ---------------------------------------------------------------------------------------------
// Brightness
// ---------------------------------------------------------------------------------------------

struct Screens {
    monitors: Vec<Monitor>,
}

impl CompositorCtl for Screens {
    fn monitors(&self) -> Result<Vec<Monitor>, Error> {
        Ok(self.monitors.clone())
    }

    fn reload(&self) -> Result<(), Error> {
        Ok(())
    }

    fn workspaces(&self) -> Result<Vec<Workspace>, Error> {
        Ok(Vec::new())
    }

    fn move_workspace_to_monitor(&self, _workspace: &str, _monitor: &str) -> Result<(), Error> {
        Ok(())
    }

    fn render_rules(&self, _layout: &Layout, _monitors: &[Monitor]) -> String {
        String::new()
    }
}

struct Level {
    value: Cell<i64>,
}

impl BrightnessCtl for &'static Level {
    fn get(&self, _dirty: bool) -> Result<Percent, Error> {
        Ok(Percent::new(self.value.get()))
    }

    fn set(&self, percent: Percent, _dirty: bool) -> Result<(), Error> {
        self.value.set(percent.get());
        Ok(())
    }

    fn step(&self, delta: i64) -> Result<Percent, Error> {
        let p = Percent::new(self.value.get()).offset(delta);
        self.value.set(p.get());
        Ok(p)
    }

    fn settle(&self) -> Result<(), Error> {
        Ok(())
    }
}

struct PanelOnly {
    level: &'static Level,
}

impl BrightnessSource for PanelOnly {
    fn open(&self, name: &str, _monitors: &[Monitor]) -> Result<Option<Box<dyn BrightnessCtl>>, Error> {
        if name == "eDP-1" {
            Ok(Some(Box::new(self.level)))
        } else {
            Ok(None)
        }
    }
}

#[derive(Default)]
struct Osd {
    shown: RefCell<Vec<(String, i64)>>,
}

impl OsdCtl for Osd {
    fn show_custom_progress(&self, monitor: &str, progress: Percent, _icon: Icon) -> Result<(), Error> {
        self.shown.borrow_mut().push((monitor.into(), progress.get()));
        Ok(())
    }
}

#[test]
fn brightness_reaches_the_screens_that_have_a_control() {
    let level: &'static Level = Box::leak(Box::new(Level { value: Cell::new(50) }));
    let mut dark = monitor("DP-2", "Dell");
    dark.disabled = true;
    let screens = Screens { monitors: vec![monitor("eDP-1", "BOE"), monitor("DP-3", "LG"), dark] };
    let source = PanelOnly { level };
    let osd = Osd::default();
    let mut brightness = Brightness::new(&screens, &source, &osd);

    assert_eq!(brightness.get("eDP-1", false).unwrap(), Some(Percent::new(50)));
    assert_eq!(brightness.get("DP-3", false).unwrap(), None, "a screen with no control is not a failure");
    assert_eq!(
        brightness.get("DP-2", false),
        Err(Error::User(UserError::UnknownMonitor { name: "DP-2".into() })),
        "a dark screen has no brightness"
    );
    assert_eq!(
        brightness.set("DP-3", Percent::new(10), false),
        Err(Error::User(UserError::DdcNotResponding { name: "DP-3".into() }))
    );
    brightness.set("eDP-1", Percent::new(70), false).unwrap();
    brightness.step(40, "eDP-1").unwrap();
    assert_eq!(level.value.get(), 100);
    assert_eq!(*osd.shown.borrow(), vec![("eDP-1".to_string(), 100)]);
    assert_eq!(brightness.monitors().unwrap(), strings(&["eDP-1"]));
}

// ---------------------------------------------------------------------------------------------
// Listings and completion
// ---------------------------------------------------------------------------------------------

#[test]
fn the_monitor_listing_is_one_tab_separated_row_each() {
    let mut m = monitor("DP-3", "LG Electronics");
    m.resolution = Resolution::new(3440, 1440, 99_997);
    assert_eq!(row(&m), "DP-3\tLG Electronics\t3440x1440@99\tenabled");
    m.mirror_of = Some("eDP-1".into());
    assert_eq!(row(&m), "DP-3\tLG Electronics\t3440x1440@99\tmirroring");
    m.disabled = true;
    assert_eq!(row(&m), "DP-3\tLG Electronics\t3440x1440@99\tdisabled");
}

#[test]
fn modes_complete_to_every_mode_once_in_order() {
    let ms = [monitor("eDP-1", "BOE"), monitor("DP-3", "LG")];
    assert_eq!(mode_names(&ms), strings(&["1280x720@60", "1920x1080@60.003"]));
    assert_eq!(candidates(strings(&["DP-3", "eDP-1", "DP-1"]), "DP"), strings(&["DP-3", "DP-1"]));
    assert_eq!(candidates(strings(&["DP-3"]), ""), strings(&["DP-3"]));
    assert!(candidates(strings(&["DP-3"]), "HDMI").is_empty());
}

#[test]
fn a_monitor_without_a_description_takes_no_part() {
    let ms = [monitor("eDP-1", "BOE"), monitor("HEADLESS-1", "")];
    let kept = described_monitors(&ms);
    assert_eq!(kept.len(), 1);
    assert_eq!(kept[0].name, "eDP-1");
}

#[test]
fn with_control_keeps_the_answering_screens_in_order() {
    let ms = vec![monitor("eDP-1", "BOE"), monitor("DP-3", "LG"), monitor("HDMI-A-1", "Dell")];
    assert_eq!(with_control(&ms, &[true, false, true]), strings(&["eDP-1", "HDMI-A-1"]));
    assert_eq!(with_control(&ms, &[false, false, false]), Vec::<String>::new());
}

#[test]
fn required_names_the_screen_that_has_no_control() {
    assert_eq!(required(Some(7), "DP-3"), Ok(7));
    assert_eq!(
        required::<i32>(None, "DP-3"),
        Err(Error::User(UserError::DdcNotResponding { name: "DP-3".into() }))
    );
}

#[test]
fn theme_cursor_values_are_checked() {
    assert_eq!(theme_cursor_name(Some("Bibata".into())), Ok("Bibata".to_string()));
    assert_eq!(theme_cursor_name(None), Err(Error::User(UserError::NoPreferredCursor)));
    assert_eq!(theme_cursor_size(Some("24".into())), Ok(24));
    assert_eq!(theme_cursor_size(None), Err(Error::User(UserError::NoPreferredCursor)));
    assert_eq!(
        theme_cursor_size(Some("big".into())),
        Err(Error::User(UserError::InvalidThemeValue { key: "cursor-size".into() }))
    );
}

#[test]
fn a_choice_that_could_not_be_kept_fails_first() {
    let applied = Err(Error::Other("not applied".into()));
    assert_eq!(kept_choice(applied.clone(), Ok(())), applied);
    assert_eq!(
        kept_choice(applied, Err(Error::Other("not saved".into()))),
        Err(Error::Other("not saved".into()))
    );
    assert_eq!(kept_choice(Ok(()), Ok(())), Ok(()));
}

#[test]
fn wallpaper_values_are_checked() {
    assert_eq!(known_wallpaper(true, "dunes.jpg"), Ok(()));
    assert_eq!(
        known_wallpaper(false, "dunes.jpg"),
        Err(Error::User(UserError::UnknownWallpaper { name: "dunes.jpg".into() }))
    );
    assert_eq!(theme_wallpaper(Some("dunes.jpg".into())), Ok("dunes.jpg".to_string()));
    assert_eq!(theme_wallpaper(None), Err(Error::User(UserError::NoPreferredWallpaper)));
    assert_eq!(current_wallpaper(Some("dunes.jpg".into())), Ok("dunes.jpg".to_string()));
    assert_eq!(current_wallpaper(None), Err(Error::User(UserError::NoCurrentWallpaper)));
}

/// A cursor store that cannot be written.
struct Refusing;

impl CursorStore for Refusing {
    fn list(&self) -> Result<Vec<String>, Error> {
        Ok(Vec::new())
    }

    fn load_preferred(&self) -> Option<PreferredCursor> {
        None
    }

    fn save_preferred(&self, _name: &str, _size: i64) -> Result<(), Error> {
        Err(Error::Other("read-only".into()))
    }

    fn forget_preferred(&self) {}
}

#[test]
fn a_failed_save_is_not_rendered() {
    let backend = CursorBackend { applied: RefCell::new(Vec::new()), accepts: true };
    let store = Refusing;
    let theme = theme_with(vec![]);
    let mut cursor = Cursor::new(&backend, &store, &theme);
    assert_eq!(cursor.save_preferred("Bibata", 24), Err(Error::Other("read-only".into())));
    assert_eq!(cursor.set("Bibata", 24), Err(Error::Other("read-only".into())));
    assert_eq!(theme.renders.get(), 0);
    assert_eq!(*backend.applied.borrow(), vec![("Bibata".to_string(), 24)]);
}
