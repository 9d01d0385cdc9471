use myarchy::percent::Percent;

#[test]
fn a_percentage_never_leaves_its_range_however_it_is_built() {
    for value in [-300i64, -1, 0, 1, 50, 100, 101, 9000] {
        let percent = Percent::new(value);
        assert!((0..=100).contains(&percent.get()), "{value}");
        assert_eq!(percent.get(), value.clamp(0, 100));
    }

    for (start, delta) in [
        (0, -10),
        (100, 10),
        (50, -80),
        (50, 80),
        (50, i64::MIN),
        (50, i64::MAX),
    ] {
        let moved = Percent::new(start).offset(delta);
        assert!((0..=100).contains(&moved.get()), "{start} {delta}");
    }

    assert_eq!(Percent::parse("60%").unwrap(), Percent::new(60));
    assert_eq!(Percent::parse("150").unwrap(), Percent::new(100));
}

#[test]
fn an_offset_moves_by_the_delta_inside_the_range() {
    assert_eq!(Percent::new(50).offset(-20).get(), 30);
    assert_eq!(Percent::new(50).offset(80).get(), 100);
    assert_eq!(Percent::new(5).offset(-10).get(), 0);
}

#[test]
fn a_percentage_is_read_with_white_space_and_percent_signs() {
    assert_eq!(Percent::parse(" 42 ").unwrap().get(), 42);
    assert_eq!(Percent::parse("7%%").unwrap().get(), 7);
    assert_eq!(Percent::parse("-5").unwrap().get(), 0);
    assert!(Percent::parse("half").is_none());
    assert!(Percent::parse("").is_none());
    assert_eq!(Percent::new(60).to_string(), "60");
}
