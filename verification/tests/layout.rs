use myarchy::compositor::Monitor;
use myarchy::layout::{Direction, Layout, Mode, Placement, Point, Position, Scale, Screen, State};
use myarchy::resolution::Resolution;

const BOE: &str = "BOE 0x08B9";
const LG: &str = "LG Electronics LG HDR WQHD 303NTZN51357";
const DELL: &str = "Dell Inc. DELL U2412M PMSXXXX";

fn monitor(name: &str, description: &str, mode: &str, at: (i64, i64)) -> Monitor {
    Monitor {
        name: name.into(),
        description: description.into(),
        resolution: Resolution::parse(mode).unwrap(),
        x: at.0,
        y: at.1,
        scale: 10_000,
        disabled: false,
        focused: false,
        mirror_of: None,
        resolutions: vec![Resolution::parse(mode).unwrap()],
    }
}

fn switched_off(mut monitor: Monitor) -> Monitor {
    monitor.disabled = true;
    monitor.resolution = Resolution::new(0, 0, 0);
    monitor.x = 0;
    monitor.y = 0;
    monitor.scale = 0;
    monitor
}

fn laptop() -> Monitor {
    monitor("eDP-1", BOE, "1920x1080@60.003", (0, 0))
}

fn ultrawide() -> Monitor {
    monitor("DP-3", LG, "3440x1440@99.997", (1920, 0))
}

fn screen_of<'a>(layout: &'a Layout, desc: &str) -> &'a Screen {
    layout.get(desc).unwrap()
}

#[test]
fn sync_takes_geometry_from_a_live_screen_and_keeps_it_for_a_dark_one() {
    let mut layout = Layout::observe(&[laptop(), ultrawide()]);
    assert_eq!(
        screen_of(&layout, LG).placement.position,
        Position::parse("1920x0").unwrap()
    );

    let mut moved = laptop();
    moved.x = 500;
    moved.y = 300;
    layout.sync(&[moved, switched_off(ultrawide())]);

    assert_eq!(
        screen_of(&layout, BOE).placement.position,
        Position::parse("500x300").unwrap(),
        "adopted from the snapshot"
    );
    assert_eq!(screen_of(&layout, LG).state, State::Off);
    assert_eq!(
        screen_of(&layout, LG).placement.position,
        Position::parse("1920x0").unwrap(),
        "kept, not hyprctl's 0x0"
    );
    assert_eq!(
        screen_of(&layout, LG).placement.mode,
        Mode::parse("3440x1440@99.997").unwrap()
    );
    assert_eq!(screen_of(&layout, LG).placement.scale, Scale::factor(10_000));
}

#[test]
fn sync_follows_screens_arriving_and_leaving() {
    let mut layout = Layout::observe(&[laptop(), ultrawide()]);
    layout.anchor = Some(LG.into());

    let dell = monitor("DP-1", DELL, "1920x1200@59.95", (0, 0));
    layout.sync(&[laptop(), dell]);

    assert_eq!(layout.keys(), vec![BOE.to_string(), DELL.to_string()]);
    assert_eq!(layout.anchor, None, "an anchor that left is not kept");
}

#[test]
fn sync_records_which_screen_a_mirror_is_copying() {
    let mut mirroring = laptop();
    mirroring.mirror_of = Some("DP-3".into());

    let layout = Layout::observe(&[mirroring, ultrawide()]);

    assert_eq!(screen_of(&layout, BOE).state, State::Mirroring(LG.into()));
}

#[test]
fn matches_holds_while_the_screens_still_look_like_the_layout() {
    let live = [laptop(), switched_off(ultrawide())];
    let layout = Layout::observe(&live);

    assert!(layout.matches(&live));
    assert!(
        layout.matches(&[laptop(), switched_off(ultrawide())]),
        "a dark screen's geometry is not compared"
    );

    let mut moved = laptop();
    moved.x = 500;
    assert!(!layout.matches(&[moved, switched_off(ultrawide())]));

    assert!(!layout.matches(&[laptop(), ultrawide()]), "switched back on");
}

#[test]
fn a_scale_has_to_be_a_positive_number() {
    for bad in ["0", "-1", "-0.5", "nonsense", ""] {
        assert!(Scale::parse(bad).is_err(), "{bad:?}");
    }
    assert_eq!(Scale::parse("auto").unwrap(), Scale::Auto);
    assert_eq!(Scale::parse("1.25").unwrap(), Scale::factor(12_500));
}

#[test]
fn a_layout_synced_with_the_monitors_matches_them() {
    let mut layout = Layout::observe(&[laptop()]);
    layout.anchor = Some(BOE.into());
    let now = [laptop(), switched_off(ultrawide()), monitor("DP-1", DELL, "1920x1200@59.95", (3440, 0))];
    layout.sync(&now);
    assert!(layout.matches(&now));
    assert_eq!(layout.anchor, Some(BOE.to_string()));
}

#[test]
fn a_screen_reported_twice_is_taken_from_its_last_report() {
    let mut second = laptop();
    second.x = 77;
    let layout = Layout::observe(&[laptop(), second]);
    assert_eq!(layout.len(), 1);
    assert_eq!(screen_of(&layout, BOE).placement.position, Position::At(Point { x: 77, y: 0 }));
}

#[test]
fn a_mirror_of_a_screen_that_is_not_reported_is_on() {
    let mut mirroring = laptop();
    mirroring.mirror_of = Some("HDMI-A-1".into());
    let layout = Layout::observe(&[mirroring]);
    assert_eq!(screen_of(&layout, BOE).state, State::On);
}

#[test]
fn every_placement_a_profile_writes_reads_back() {
    for position in [
        Position::Auto,
        Position::Toward(Direction::Left),
        Position::Toward(Direction::Right),
        Position::Toward(Direction::Above),
        Position::Toward(Direction::Below),
        Position::At(Point { x: -1920, y: 180 }),
    ] {
        assert_eq!(Position::parse(&position.to_string()), Some(position));
    }
    for mode in [Mode::Preferred, Mode::Fixed(Resolution::new(3440, 1440, 99_997))] {
        assert_eq!(Mode::parse(&mode.to_string()), Some(mode));
    }
    for scale in [Scale::Auto, Scale::factor(10_000), Scale::factor(12_500), Scale::factor(3)] {
        assert_eq!(Scale::parse(&scale.to_string()), Ok(scale));
    }
    assert_eq!(Scale::factor(12_500).to_string(), "1.25");
    assert_eq!(Scale::factor(0), Scale::Auto, "a switched-off screen reports scale 0");
}

#[test]
fn a_logical_size_is_the_mode_divided_by_the_scale() {
    let placement = Placement {
        mode: Mode::parse("1920x1080@60").unwrap(),
        position: Position::Auto,
        scale: Scale::factor(20_000),
    };
    let size = placement.logical_size().unwrap();
    assert_eq!((size.width, size.height), (960, 540));

    let rounded = Placement { scale: Scale::factor(12_500), ..placement };
    let size = rounded.logical_size().unwrap();
    assert_eq!((size.width, size.height), (1536, 864));

    let preferred = Placement { mode: Mode::Preferred, ..placement };
    assert!(preferred.logical_size().is_none());
}
