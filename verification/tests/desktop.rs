use myarchy::cli::{brightness, TopCommand};
use myarchy::compositor::{description_of, name_of, Monitor, Workspace};
use myarchy::error::{Error, UserError};
use myarchy::host::{
    backlight_percent, cursor_outcome, detail, hyprctl_outcome, monitor_from, parse_modes, run_outcome,
    spawn_failure,
};
use myarchy::idle::{label, oneshot_reply, status_reply, Daemon, Request, Response, Step};
use myarchy::layout::Side;
use myarchy::nightlight::{kelvin_from_percent, nightlight_state, percent_from_kelvin, state_file_text, NightlightState};
use myarchy::notify::{notify_send_args, osd_args, Icon};
use myarchy::percent::Percent;
use myarchy::resolution::{Resolution, Size};
use myarchy::store::{cursor_theme_names, digest_key, profile_key, wallpaper_names};
use myarchy::theme::parse_theme_value;

fn monitor(name: &str, description: &str) -> Monitor {
    Monitor {
        name: name.into(),
        description: description.into(),
        resolution: Resolution::new(1920, 1080, 60_000),
        x: 0,
        y: 0,
        scale: 10_000,
        disabled: false,
        focused: false,
        mirror_of: None,
        resolutions: Vec::new(),
    }
}

fn strings(v: &[&str]) -> Vec<String> {
    v.iter().map(|s| s.to_string()).collect()
}

#[test]
fn a_profile_key_is_the_digest_of_the_sorted_descriptions() {
    let boe = monitor("eDP-1", "BOE 0x08B9");
    let lg = monitor("DP-3", "LG Electronics LG HDR WQHD 303NTZN51357");
    assert_eq!(profile_key(&[boe.clone()]), "61d1f7d8fb96");
    assert_eq!(profile_key(&[boe.clone(), lg.clone()]), "c566f0877144");
    assert_eq!(profile_key(&[lg.clone(), boe.clone()]), "c566f0877144", "whatever the order");
    let mut renamed = boe.clone();
    renamed.name = "eDP-2".into();
    assert_eq!(profile_key(&[renamed]), "61d1f7d8fb96", "connector names do not count");
    assert_eq!(profile_key(&[]), "01ba4719c80b");
}

#[test]
fn the_night_light_reads_back_the_warmth_it_was_set_to() {
    for p in [0i64, 1, 37, 50, 99, 100] {
        let kelvin = kelvin_from_percent(Percent::new(p));
        let text = state_file_text(kelvin);
        match nightlight_state(Some(&text)) {
            NightlightState::On(read) => assert_eq!(read.get(), p),
            NightlightState::Off => panic!("{p} read back as off"),
        }
    }
    assert_eq!(kelvin_from_percent(Percent::new(0)), 6500);
    assert_eq!(kelvin_from_percent(Percent::new(100)), 2500);
    assert_eq!(kelvin_from_percent(Percent::new(25)), 5500);
    assert_eq!(percent_from_kelvin(9000).get(), 0, "colder than neutral clamps");
    assert_eq!(percent_from_kelvin(1000).get(), 100);
    assert_eq!(percent_from_kelvin(4501).get(), 49, "truncated toward zero");
    assert!(matches!(nightlight_state(None), NightlightState::Off));
    assert!(matches!(nightlight_state(Some("warm")), NightlightState::Off));
    assert_eq!(state_file_text(4500), "4500\n");
    assert_eq!(NightlightState::Off.to_string(), "off");
    assert_eq!(NightlightState::On(Percent::new(30)).to_string(), "30");
}

#[test]
fn the_idle_daemon_holds_one_inhibition_at_a_time() {
    let mut daemon = Daemon::new();
    assert!(matches!(daemon.handle(Request::Status), Step::Reply(Response::Status(false))));
    assert!(matches!(daemon.handle(Request::Enable), Step::Inhibit));
    let (reply, broadcast) = daemon.inhibited(Ok(7));
    assert_eq!(reply, Response::Done);
    assert_eq!(broadcast, Some(true));
    assert!(daemon.is_inhibited());
    assert!(matches!(daemon.handle(Request::Enable), Step::Reply(Response::Done)), "enabling twice changes nothing");
    assert!(matches!(daemon.handle(Request::Status), Step::Reply(Response::Status(true))));
    assert!(matches!(daemon.handle(Request::Disable), Step::UnInhibit(7)));
    assert!(!daemon.is_inhibited());
    let (reply, broadcast) = daemon.released(Ok(()));
    assert_eq!(reply, Response::Done);
    assert_eq!(broadcast, Some(false));
    assert!(matches!(daemon.handle(Request::Disable), Step::Reply(Response::Done)));
    match daemon.handle(Request::Watch) {
        Step::Reply(Response::Failure(m)) => assert_eq!(m, "watch is a streaming request"),
        _ => panic!("a watch is not answered once"),
    }
    let (reply, broadcast) = daemon.inhibited(Err("no session bus".into()));
    assert_eq!(reply, Response::Failure("no session bus".into()));
    assert_eq!(broadcast, None);
    assert!(!daemon.is_inhibited());
}

#[test]
fn the_idle_client_reads_replies() {
    assert_eq!(label(true), "inhibited");
    assert_eq!(label(false), "not inhibited");
    assert_eq!(status_reply(Response::Status(true)), Ok(true));
    assert_eq!(status_reply(Response::Failure("x".into())), Err(Error::Other("x".into())));
    assert_eq!(
        status_reply(Response::Done),
        Err(Error::Other("unexpected response from daemon".into()))
    );
    assert_eq!(oneshot_reply(Response::Done), Ok(Response::Done));
    assert_eq!(oneshot_reply(Response::Failure("y".into())), Err(Error::Other("y".into())));
}

#[test]
fn a_backlight_reading_is_the_fourth_field_of_the_first_line() {
    assert_eq!(
        backlight_percent("intel_backlight,backlight,60000,50%,120000\nother,x,1,9%,2\n").map(|p| p.get()),
        Some(50)
    );
    assert_eq!(backlight_percent("a,b,c,250%,d\r\n").map(|p| p.get()), Some(100));
    assert_eq!(backlight_percent("a,b,c\n"), None);
    assert_eq!(backlight_percent(""), None);
}

#[test]
fn a_tool_failure_is_reported_with_what_it_said() {
    assert_eq!(detail(" out \n", "  "), "out");
    assert_eq!(detail("out", " err\n"), "err");
    assert_eq!(hyprctl_outcome("reload", "ok".into(), "", true), Ok("ok".to_string()));
    assert_eq!(
        hyprctl_outcome("monitors -j", "Couldn't open a socket (2)".into(), "", true),
        Err(Error::Other("hyprctl monitors -j failed: Couldn't open a socket (2)".into()))
    );
    assert_eq!(
        hyprctl_outcome("reload", "".into(), "boom", false),
        Err(Error::Other("hyprctl reload failed: boom".into()))
    );
    assert_eq!(cursor_outcome("Bibata", true), Ok(()));
    assert_eq!(cursor_outcome("Bibata", false), Err(UserError::CursorNotApplied { name: "Bibata".into() }));
}

#[test]
fn a_reported_monitor_keeps_the_modes_that_parse() {
    let modes = parse_modes(&strings(&["1920x1080@60.00Hz", "garbage", "1280x720@59.94Hz"]));
    assert_eq!(modes, vec![Resolution::new(1920, 1080, 60_000), Resolution::new(1280, 720, 59_940)]);

    let m = monitor_from(
        "DP-3".into(),
        "LG".into(),
        3440,
        1440,
        99_997,
        1920,
        0,
        12_500,
        false,
        true,
        Some("none".into()),
        &strings(&["3440x1440@99.99Hz"]),
    );
    assert_eq!(m.mirror_of, None, "hyprctl says none for no mirror");
    assert_eq!(m.resolution, Resolution::new(3440, 1440, 99_997));
    assert_eq!(m.resolutions, vec![Resolution::new(3440, 1440, 99_990)]);
    assert!(m.focused);
    let mirror = monitor_from("eDP-1".into(), "BOE".into(), 0, 0, 0, 0, 0, 0, false, false, Some("DP-3".into()), &Vec::new());
    assert_eq!(mirror.mirror_of, Some("DP-3".to_string()));
}

#[test]
fn a_monitor_is_found_by_name_or_description() {
    let ms = [monitor("eDP-1", "BOE"), monitor("DP-3", "LG")];
    assert_eq!(description_of(&ms, "DP-3"), Ok("LG".to_string()));
    assert_eq!(description_of(&ms, "DP-9"), Err(UserError::UnknownMonitor { name: "DP-9".into() }));
    assert_eq!(name_of(&ms, "BOE"), Some("eDP-1".to_string()));
    assert_eq!(name_of(&ms, "Dell"), None);
    assert!(ms[0].is_internal());
    assert!(!ms[1].is_internal());
    assert!(Workspace { name: "special:magic".into(), monitor: "eDP-1".into() }.is_special());
    assert!(!Workspace { name: "1".into(), monitor: "eDP-1".into() }.is_special());
}

#[test]
fn notifications_and_the_osd_get_their_arguments() {
    assert_eq!(
        notify_send_args("Display", "DP-3 connected", Icon::VideoDisplay, Some(8000)),
        strings(&["Display", "DP-3 connected", "-i", "video-display", "-t", "8000"])
    );
    assert_eq!(
        notify_send_args("Cursor", "failed", Icon::DialogError, None),
        strings(&["Cursor", "failed", "-i", "dialog-error"])
    );
    assert_eq!(
        osd_args("eDP-1", Percent::new(5), Icon::BrightnessSymbolic),
        strings(&["--monitor", "eDP-1", "--custom-progress", "0.05", "--custom-icon", "display-brightness-symbolic"])
    );
    assert_eq!(osd_args("x", Percent::new(100), Icon::BrightnessSymbolic)[3], "1.00");
    assert_eq!(Icon::DialogError.as_str(), "dialog-error");
}

#[test]
fn listings_are_sorted_and_skip_what_is_not_a_choice() {
    assert_eq!(
        wallpaper_names(strings(&["b.jpg", "current", ".hidden.png", "a.png"])),
        strings(&["a.png", "b.jpg"])
    );
    assert_eq!(
        cursor_theme_names(strings(&["Bibata", "Adwaita", "Bibata", "Breeze"])),
        strings(&["Adwaita", "Bibata", "Breeze"])
    );
    assert_eq!(parse_theme_value("  Bibata-Modern \n"), Some("Bibata-Modern".to_string()));
    assert_eq!(parse_theme_value(" \n"), None);
}

#[test]
fn every_user_error_has_a_message() {
    assert_eq!(UserError::UnknownMonitor { name: "DP-9".into() }.message(), "Unknown monitor: DP-9");
    assert_eq!(
        UserError::NoSuchMode { name: "eDP-1".into(), size: Size::new(800, 600) }.message(),
        "eDP-1 has no 800x600 mode"
    );
    assert_eq!(
        UserError::CannotPlace { name: "a".into(), side: Side::LeftOf, reference: "b".into() }.message(),
        "Cannot place a left-of b"
    );
    assert_eq!(Error::User(UserError::CannotDisableLastScreen).message(), "Cannot disable the last enabled screen");
    assert_eq!(Error::Other("plain".into()).message(), "Something went wrong", "technical detail is not shown");
    assert_eq!(Error::User(UserError::NoWallpapers).user(), Some(&UserError::NoWallpapers));
    assert_eq!(Error::Other("plain".into()).user(), None);
}

#[test]
fn a_failure_is_headed_by_the_command_it_came_from() {
    let top = TopCommand::Brightness(brightness::Command::Monitors);
    let (subject, icon) = top.subject();
    assert_eq!(subject, "Brightness");
    assert_eq!(icon, Icon::BrightnessSymbolic);
}

#[test]
fn a_refused_enable_is_asked_again() {
    let mut daemon = Daemon::new();
    assert!(matches!(daemon.handle(Request::Enable), Step::Inhibit));
    let (_, broadcast) = daemon.inhibited(Err("busy".into()));
    assert_eq!(broadcast, None);
    assert!(matches!(daemon.handle(Request::Enable), Step::Inhibit), "nothing is held yet");
    daemon.inhibited(Ok(3));
    assert!(matches!(daemon.handle(Request::Enable), Step::Reply(Response::Done)));
    assert!(matches!(daemon.handle(Request::Disable), Step::UnInhibit(3)));
    daemon.released(Err("gone".into()));
    assert!(!daemon.is_inhibited(), "a disable lets go whatever the screen saver says");
}

#[test]
fn a_tool_run_reports_what_failed() {
    assert_eq!(run_outcome("brightnessctl", "get", "42\n".into(), "", true), Ok("42\n".to_string()));
    assert!(matches!(
        run_outcome("brightnessctl", "get", String::new(), "no device", false),
        Err(Error::Other(m)) if m.starts_with("brightnessctl get failed: ")
    ));
    assert_eq!(
        spawn_failure("hyprsunset", "-t 4000", true, "not found"),
        Error::User(UserError::ToolMissing { tool: "hyprsunset".into() })
    );
    assert_eq!(
        spawn_failure("hyprsunset", "-t 4000", false, "permission denied"),
        Error::Other("failed to run hyprsunset -t 4000: permission denied".into())
    );
}

#[test]
fn a_digest_names_a_profile_by_its_first_six_bytes() {
    assert_eq!(digest_key(&[0x01, 0xba, 0x47, 0x19, 0xc8, 0x0b, 0xff]), "01ba4719c80b");
}
