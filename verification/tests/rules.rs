use myarchy::compositor::Monitor;
use myarchy::layout::{Layout, Mode, Placement, Position, Scale, Screen, State};
use myarchy::resolution::Resolution;
use myarchy::rules::{lua_string, render_rules};

const BOE: &str = "BOE 0x08B9";
const LG: &str = "LG Electronics LG HDR WQHD 303NTZN51357";
const DELL: &str = "Dell Inc. DELL U2412M PMSXXXX";

fn monitor(name: &str, description: &str, mode: &str, at: (i64, i64)) -> Monitor {
    Monitor {
        name: name.into(),
        description: description.into(),
        resolution: Resolution::parse(mode).unwrap(),
        x: at.0,
        y: at.1,
        scale: 10_000,
        disabled: false,
        focused: false,
        mirror_of: None,
        resolutions: vec![Resolution::parse(mode).unwrap()],
    }
}

fn laptop() -> Monitor {
    monitor("eDP-1", BOE, "1920x1080@60.003", (0, 0))
}

fn ultrawide() -> Monitor {
    monitor("DP-3", LG, "3440x1440@99.997", (1920, 0))
}

fn screen(state: State, mode: &str, position: &str, scale: &str) -> Screen {
    Screen {
        state,
        placement: Placement {
            mode: Mode::parse(mode).unwrap(),
            position: Position::parse(position).unwrap(),
            scale: Scale::parse(scale).unwrap(),
        },
    }
}

#[test]
fn renders_a_profile_spelling_out_both_sticky_fields_on_every_rule() {
    let mut layout = Layout::new();
    layout.insert(LG.into(), screen(State::On, "3440x1440@99.997", "0x0", "1"));
    layout.insert(
        BOE.into(),
        screen(State::Mirroring(LG.into()), "1920x1080@60.003", "0x0", "1.25"),
    );
    layout.insert(DELL.into(), screen(State::Off, "1920x1200@59.95", "5360x0", "1"));

    assert_eq!(
        render_rules(&layout, &[laptop(), ultrawide()]),
        [
            "hl.monitor({ output = \"desc:BOE 0x08B9\", mode = \"1920x1080@60.003\", scale = \"1.25\", mirror = \"DP-3\", disabled = false })\n",
            "hl.monitor({ output = \"desc:Dell Inc. DELL U2412M PMSXXXX\", disabled = true })\n",
            "hl.monitor({ output = \"desc:LG Electronics LG HDR WQHD 303NTZN51357\", mode = \"3440x1440@99.997\", position = \"0x0\", scale = \"1\", mirror = \"none\", disabled = false })\n",
        ]
        .concat()
    );
}

#[test]
fn a_mirror_of_an_unplugged_screen_falls_back_to_no_mirror() {
    let mut layout = Layout::new();
    layout.insert(
        BOE.into(),
        screen(State::Mirroring(DELL.into()), "1920x1080@60.003", "0x0", "1"),
    );

    assert!(render_rules(&layout, &[laptop()]).contains("mirror = \"none\""));
}

#[test]
fn a_quote_in_a_description_cannot_break_the_generated_lua() {
    let mut layout = Layout::new();
    layout.insert(
        "Acme 24\" \\ Pro".into(),
        screen(State::Off, "1920x1080@60", "0x0", "1"),
    );

    assert_eq!(
        render_rules(&layout, &[]),
        "hl.monitor({ output = \"desc:Acme 24\\\" \\\\ Pro\", disabled = true })\n"
    );
}

#[test]
fn a_lua_string_escapes_quotes_and_backslashes_only() {
    assert_eq!(lua_string("plain"), "plain");
    assert_eq!(lua_string("a\"b\\c"), "a\\\"b\\\\c");
    assert_eq!(lua_string(""), "");
}

#[test]
fn an_empty_layout_renders_no_rule() {
    assert_eq!(render_rules(&Layout::new(), &[laptop()]), "");
}
