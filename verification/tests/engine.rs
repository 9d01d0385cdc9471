use myarchy::engine::{disable, enable, extend, mirror, only, set_mode, set_scale};
use myarchy::error::UserError;
use myarchy::layout::{Axis, Direction, Layout, Mode, Placement, Position, Scale, Screen, Side, State};
use myarchy::place::place;

const BOE: &str = "BOE 0x08B9";
const LG: &str = "LG Electronics LG HDR WQHD 303NTZN51357";
const DELL: &str = "Dell Inc. DELL U2412M PMSXXXX";

fn screen(state: State, mode: &str, position: &str, scale: &str) -> Screen {
    Screen {
        state,
        placement: Placement {
            mode: Mode::parse(mode).unwrap(),
            position: Position::parse(position).unwrap(),
            scale: Scale::parse(scale).unwrap(),
        },
    }
}

fn on(mode: &str, position: &str) -> Screen {
    screen(State::On, mode, position, "1")
}

fn layout_of(entries: Vec<(&str, Screen)>) -> Layout {
    let mut layout = Layout::new();
    for (desc, screen) in entries {
        layout.insert(desc.to_string(), screen);
    }
    layout
}

fn pair() -> Layout {
    layout_of(vec![
        (BOE, on("1920x1080@60.003", "0x0")),
        (LG, on("3440x1440@99.997", "5000x900")),
    ])
}

fn trio() -> Layout {
    layout_of(vec![
        (BOE, on("1920x1080@60.003", "0x0")),
        (LG, on("3440x1440@99.997", "1920x0")),
        (DELL, on("1920x1200@59.95", "5360x0")),
    ])
}

fn screen_mut<'a>(layout: &'a mut Layout, desc: &str) -> &'a mut Screen {
    &mut layout.screens.iter_mut().find(|(d, _)| d == desc).unwrap().1
}

fn screen_of<'a>(layout: &'a Layout, desc: &str) -> &'a Screen {
    layout.get(desc).unwrap()
}

fn position_of(layout: &Layout, desc: &str) -> Position {
    screen_of(layout, desc).placement.position
}

fn at(s: &str) -> Position {
    Position::parse(s).unwrap()
}

fn rects(layout: &Layout) -> Vec<(String, i64, i64, i64, i64)> {
    layout
        .screens
        .iter()
        .filter(|(_, s)| s.is_on())
        .filter_map(|(desc, s)| {
            let Position::At(p) = s.placement.position else {
                return None;
            };
            let size = s.placement.logical_size()?;
            Some((desc.clone(), p.x, p.y, size.width, size.height))
        })
        .collect()
}

fn assert_laid_out_along(layout: &Layout, axis: Axis) {
    let rects = rects(layout);
    for (i, a) in rects.iter().enumerate() {
        for b in &rects[i + 1..] {
            let apart = a.1 + a.3 <= b.1 || b.1 + b.3 <= a.1 || a.2 + a.4 <= b.2 || b.2 + b.4 <= a.2;
            assert!(apart, "{} and {} overlap: {a:?} {b:?}", a.0, b.0);
        }
    }

    let mut spans: Vec<(i64, i64)> = rects
        .iter()
        .map(|(_, x, y, w, h)| match axis {
            Axis::Horizontal => (*x, *w),
            Axis::Vertical => (*y, *h),
        })
        .collect();
    spans.sort();
    assert_eq!(spans[0].0, 0, "the row does not start at the origin");
    for window in spans.windows(2) {
        let (start, size) = window[0];
        assert_eq!(start + size, window[1].0, "gap or overlap along the axis");
    }
}

#[test]
fn place_lays_the_row_edge_to_edge_and_centers_it() {
    let mut layout = pair();
    place(&mut layout, LG, Side::RightOf, BOE).unwrap();

    assert_eq!(position_of(&layout, BOE), at("0x180"));
    assert_eq!(position_of(&layout, LG), at("1920x0"));
    assert_laid_out_along(&layout, Axis::Horizontal);
}

#[test]
fn place_reorders_the_row_around_the_reference() {
    let mut left = pair();
    place(&mut left, LG, Side::LeftOf, BOE).unwrap();
    assert_eq!(position_of(&left, LG), at("0x0"));
    assert_eq!(position_of(&left, BOE), at("3440x180"));

    let mut middle = trio();
    place(&mut middle, DELL, Side::RightOf, BOE).unwrap();
    assert_eq!(position_of(&middle, BOE), at("0x180"));
    assert_eq!(position_of(&middle, DELL), at("1920x120"));
    assert_eq!(position_of(&middle, LG), at("3840x0"));
    assert_laid_out_along(&middle, Axis::Horizontal);
}

#[test]
fn place_stacks_on_the_vertical_axis_centered_on_x() {
    let mut below = pair();
    place(&mut below, BOE, Side::Below, LG).unwrap();
    assert_eq!(position_of(&below, LG), at("0x0"));
    assert_eq!(position_of(&below, BOE), at("760x1440"));

    let mut above = pair();
    place(&mut above, BOE, Side::Above, LG).unwrap();
    assert_eq!(position_of(&above, BOE), at("760x0"));
    assert_eq!(position_of(&above, LG), at("0x1080"));
    assert_laid_out_along(&above, Axis::Vertical);
}

#[test]
fn place_never_overlaps_whatever_the_order() {
    for side in [Side::LeftOf, Side::RightOf, Side::Above, Side::Below] {
        for (moving, reference) in [(BOE, LG), (LG, DELL), (DELL, BOE), (LG, BOE)] {
            let mut layout = trio();
            place(&mut layout, moving, side, reference).unwrap();
            assert_laid_out_along(&layout, side.axis());
        }
    }
}

#[test]
fn place_is_idempotent() {
    let mut layout = trio();
    place(&mut layout, LG, Side::RightOf, BOE).unwrap();
    let once = layout.clone();
    place(&mut layout, LG, Side::RightOf, BOE).unwrap();

    assert_eq!(layout, once);
}

#[test]
fn place_measures_in_logical_pixels() {
    let mut layout = pair();
    screen_mut(&mut layout, BOE).placement.scale = Scale::factor(20_000);
    place(&mut layout, LG, Side::RightOf, BOE).unwrap();

    assert_eq!(position_of(&layout, BOE), at("0x450"));
    assert_eq!(position_of(&layout, LG), at("960x0"));
}

#[test]
fn place_leaves_screens_that_are_not_in_the_row_where_they_were() {
    let mut layout = trio();
    screen_mut(&mut layout, DELL).state = State::Off;
    place(&mut layout, LG, Side::RightOf, BOE).unwrap();
    assert_eq!(position_of(&layout, DELL), at("5360x0"));

    let mut mirrored = trio();
    screen_mut(&mut mirrored, DELL).state = State::Mirroring(BOE.into());
    place(&mut mirrored, LG, Side::RightOf, BOE).unwrap();
    assert_eq!(position_of(&mirrored, DELL), at("5360x0"));
    assert_eq!(position_of(&mirrored, LG), at("1920x0"));
}

#[test]
fn place_refuses_what_it_cannot_lay_out() {
    let mut layout = pair();
    assert!(place(&mut layout, LG, Side::RightOf, LG).is_err(), "itself");
    assert!(place(&mut layout, "ghost", Side::RightOf, BOE).is_err());
    assert!(place(&mut layout, LG, Side::RightOf, "ghost").is_err());

    let mut dark = pair();
    screen_mut(&mut dark, BOE).state = State::Off;
    assert!(place(&mut dark, LG, Side::RightOf, BOE).is_err());

    let mut unsized_yet = pair();
    screen_mut(&mut unsized_yet, BOE).placement.mode = Mode::Preferred;
    assert!(
        place(&mut unsized_yet, LG, Side::RightOf, BOE).is_err(),
        "no size yet"
    );
}

#[test]
fn extend_resets_the_whole_layout_around_the_anchor() {
    let mut layout = trio();
    screen_mut(&mut layout, BOE).state = State::Off;
    screen_mut(&mut layout, DELL).state = State::Mirroring(LG.into());
    screen_mut(&mut layout, BOE).placement.scale = Scale::factor(12_500);

    extend(&mut layout, LG, Direction::Right);

    assert!(layout.screens.iter().all(|(_, s)| s.state == State::On));
    assert!(layout
        .screens
        .iter()
        .all(|(_, s)| s.placement.mode == Mode::Preferred));
    assert_eq!(position_of(&layout, LG), at("0x0"));
    assert_eq!(position_of(&layout, BOE), Position::Toward(Direction::Right));
    assert_eq!(position_of(&layout, DELL), Position::Toward(Direction::Right));
    assert_eq!(
        screen_of(&layout, BOE).placement.scale,
        Scale::factor(12_500),
        "extend resets the layout, not the scale"
    );
}

#[test]
fn extend_maps_every_direction() {
    for direction in [Direction::Left, Direction::Right, Direction::Above, Direction::Below] {
        let mut layout = pair();
        extend(&mut layout, BOE, direction);
        assert_eq!(position_of(&layout, LG), Position::Toward(direction));
    }
}

#[test]
fn mirror_duplicates_every_other_screen_onto_the_anchor() {
    let mut layout = trio();
    screen_mut(&mut layout, DELL).state = State::Off;
    screen_mut(&mut layout, BOE).placement.scale = Scale::factor(15_000);

    mirror(&mut layout, LG);

    assert_eq!(screen_of(&layout, LG).state, State::On);
    assert_eq!(position_of(&layout, LG), at("0x0"));
    assert_eq!(screen_of(&layout, BOE).state, State::Mirroring(LG.into()));
    assert_eq!(screen_of(&layout, DELL).state, State::Mirroring(LG.into()), "was off");
    assert_eq!(
        screen_of(&layout, BOE).placement.mode,
        Mode::parse("1920x1080@60.003").unwrap()
    );
    assert_eq!(screen_of(&layout, BOE).placement.scale, Scale::factor(15_000));
}

#[test]
fn mirror_re_anchoring_repoints_every_mirror() {
    let mut layout = trio();
    mirror(&mut layout, LG);
    mirror(&mut layout, BOE);

    assert_eq!(screen_of(&layout, BOE).state, State::On);
    assert_eq!(screen_of(&layout, LG).state, State::Mirroring(BOE.into()));
    assert_eq!(screen_of(&layout, DELL).state, State::Mirroring(BOE.into()));
}

#[test]
fn only_leaves_one_screen_on_and_anchors_it() {
    let mut layout = trio();
    mirror(&mut layout, LG);
    only(&mut layout, BOE);

    assert_eq!(screen_of(&layout, BOE).state, State::On);
    assert_eq!(position_of(&layout, BOE), at("0x0"));
    assert!(screen_of(&layout, LG).is_off());
    assert!(screen_of(&layout, DELL).is_off());
    assert_eq!(layout.anchor.as_deref(), Some(BOE));
}

#[test]
fn a_screen_switched_off_keeps_the_geometry_it_had() {
    let mut layout = pair();
    disable(&mut layout, LG).unwrap();

    assert_eq!(position_of(&layout, LG), at("5000x900"));
    assert_eq!(
        screen_of(&layout, LG).placement.mode,
        Mode::parse("3440x1440@99.997").unwrap()
    );
}

#[test]
fn enable_switches_a_screen_back_on_or_ends_its_mirroring() {
    let mut dark = pair();
    disable(&mut dark, LG).unwrap();
    enable(&mut dark, LG).unwrap();
    assert_eq!(screen_of(&dark, LG).state, State::On);
    assert_eq!(position_of(&dark, LG), at("5000x900"), "kept its place");

    let mut mirrored = pair();
    mirror(&mut mirrored, LG);
    enable(&mut mirrored, BOE).unwrap();
    assert_eq!(screen_of(&mirrored, BOE).state, State::On);

    let mut fresh = layout_of(vec![("NEW", screen(State::Off, "preferred", "0x0", "auto"))]);
    enable(&mut fresh, "NEW").unwrap();
    assert_eq!(position_of(&fresh, "NEW"), Position::Auto, "no size yet");
}

#[test]
fn the_last_screen_on_cannot_be_switched_off() {
    let mut layout = pair();
    disable(&mut layout, BOE).unwrap();
    assert!(disable(&mut layout, LG).is_err());

    let mut mirrored = pair();
    mirror(&mut mirrored, LG);
    assert!(disable(&mut mirrored, BOE).is_ok(), "a mirror is still lit");
    assert!(disable(&mut mirrored, LG).is_err());
}

#[test]
fn each_refusal_names_what_was_refused() {
    let mut layout = pair();
    assert_eq!(place(&mut layout, LG, Side::RightOf, LG), Err(UserError::CannotPlaceSelfRelative));
    assert_eq!(
        place(&mut layout, "ghost", Side::Above, BOE),
        Err(UserError::CannotPlace { name: "ghost".into(), side: Side::Above, reference: BOE.into() })
    );
    assert_eq!(enable(&mut layout, "ghost"), Err(UserError::NoStoredScreen { description: "ghost".into() }));
    disable(&mut layout, BOE).unwrap();
    assert_eq!(disable(&mut layout, LG), Err(UserError::CannotDisableLastScreen));
    assert_eq!(layout, {
        let mut expected = pair();
        screen_mut(&mut expected, BOE).state = State::Off;
        expected
    }, "a refusal changes nothing");
}

#[test]
fn set_mode_and_set_scale_touch_one_screen() {
    let mut layout = pair();
    set_mode(&mut layout, BOE, Mode::Preferred).unwrap();
    set_scale(&mut layout, LG, Scale::factor(15_000)).unwrap();
    assert_eq!(screen_of(&layout, BOE).placement.mode, Mode::Preferred);
    assert_eq!(screen_of(&layout, LG).placement.scale, Scale::factor(15_000));
    assert_eq!(
        set_mode(&mut layout, "ghost", Mode::Preferred),
        Err(UserError::NoStoredScreen { description: "ghost".into() })
    );
}

#[test]
fn a_screen_switched_off_and_on_again_is_back_as_it_was() {
    let before = trio();
    let mut layout = before.clone();
    disable(&mut layout, LG).unwrap();
    enable(&mut layout, LG).unwrap();
    assert_eq!(layout, before);
}
