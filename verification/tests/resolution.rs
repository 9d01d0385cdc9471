use myarchy::resolution::{Resolution, Size};

#[test]
fn it_reads_every_form_a_refresh_rate_arrives_in() {
    for form in ["1920x1080@60", "1920x1080@60.0", "1920x1080@60.00Hz"] {
        assert_eq!(
            Resolution::parse(form).unwrap(),
            Resolution::new(1920, 1080, 60_000),
            "{form}"
        );
    }
    assert_ne!(Resolution::new(1, 1, 59_940), Resolution::new(1, 1, 60_000));

    let exact = Resolution::new(3440, 1440, 99_997);
    assert_eq!(exact.to_string(), "3440x1440@99.997");
    assert_eq!(Resolution::parse(&exact.to_string()).unwrap(), exact);
    assert_eq!(exact.rounded(), "3440x1440@99", "the form the menu lists");

    for bad in ["", "nonsense", "1920", "x1080", "1920x1080@fast", "1920x1080"] {
        assert!(Resolution::parse(bad).is_none(), "{bad:?}");
    }
}

#[test]
fn size_round_trips_a_bare_width_and_height() {
    for form in ["1920x1080", "3440x1440"] {
        assert_eq!(Size::parse(form).unwrap().to_string(), form);
    }
    for bad in ["", "nonsense", "1920", "x1080"] {
        assert!(Size::parse(bad).is_none(), "{bad:?}");
    }
}

#[test]
fn a_refresh_rate_is_rounded_to_thousandths_half_away_from_zero() {
    assert_eq!(Resolution::parse("1920x1080@59.9505").unwrap().refresh, 59_951);
    assert_eq!(Resolution::parse("1920x1080@59.9504").unwrap().refresh, 59_950);
    assert_eq!(Resolution::parse(" 1920 x 1080 @ 144 Hz ").unwrap(), Resolution::new(1920, 1080, 144_000));
}

#[test]
fn a_rate_is_written_in_its_shortest_form() {
    assert_eq!(Resolution::new(1920, 1080, 60_000).to_string(), "1920x1080@60");
    assert_eq!(Resolution::new(1920, 1200, 59_950).to_string(), "1920x1200@59.95");
    assert_eq!(Resolution::new(1920, 1080, 60_003).rounded(), "1920x1080@60");
}

#[test]
fn every_written_mode_reads_back_the_same() {
    for r in [
        Resolution::new(1920, 1080, 60_003),
        Resolution::new(0, 0, 0),
        Resolution::new(-5, 7, -1),
        Resolution::new(i64::MAX, i64::MIN, i64::MAX),
    ] {
        assert_eq!(Resolution::parse(&r.to_string()), Some(r));
    }
    for s in [Size::new(0, 0), Size::new(-1, 9), Size::new(i64::MIN, i64::MAX)] {
        assert_eq!(Size::parse(&s.to_string()), Some(s));
    }
}

#[test]
fn a_size_with_a_side_out_of_range_is_refused() {
    assert!(Size::parse("9223372036854775808x1").is_none());
    assert_eq!(Size::parse("+5x-6"), Some(Size::new(5, -6)));
}
