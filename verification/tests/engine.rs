use scz::{CivilDate, NaturalSquaresEngine};

#[test]
fn zodiac_boundaries() {
    let expected = [29, 53, 90, 119, 138, 174, 217, 241, 248, 266, 299, 327, 351];
    for (i, e) in expected.iter().enumerate() {
        assert_eq!(NaturalSquaresEngine::zodiac_to_angle(i as u32), *e);
    }
    assert_eq!(NaturalSquaresEngine::zodiac_to_angle(13), 0);
    assert_eq!(NaturalSquaresEngine::zodiac_to_angle(u32::MAX), 0);
}

#[test]
fn zodiac_boundaries_rise() {
    for i in 0..12u32 {
        assert!(
            NaturalSquaresEngine::zodiac_to_angle(i) < NaturalSquaresEngine::zodiac_to_angle(i + 1)
        );
    }
}

#[test]
fn zodiac_segment_examples() {
    assert_eq!(NaturalSquaresEngine::zodiac_segment_of(29), 0);
    assert_eq!(NaturalSquaresEngine::zodiac_segment_of(52), 0);
    assert_eq!(NaturalSquaresEngine::zodiac_segment_of(53), 1);
    assert_eq!(NaturalSquaresEngine::zodiac_segment_of(100), 2);
    assert_eq!(NaturalSquaresEngine::zodiac_segment_of(247), 7);
    assert_eq!(NaturalSquaresEngine::zodiac_segment_of(248), 8);
    assert_eq!(NaturalSquaresEngine::zodiac_segment_of(350), 11);
    assert_eq!(NaturalSquaresEngine::zodiac_segment_of(351), 0);
    assert_eq!(NaturalSquaresEngine::zodiac_segment_of(359), 0);
    assert_eq!(NaturalSquaresEngine::zodiac_segment_of(0), 0);
    assert_eq!(NaturalSquaresEngine::zodiac_segment_of(28), 0);
    assert_eq!(NaturalSquaresEngine::zodiac_segment_of(360), 0);
    assert_eq!(NaturalSquaresEngine::zodiac_segment_of(u32::MAX), 0);
}

#[test]
fn zodiac_segment_holds_every_degree() {
    for t in 29..351u32 {
        let i = NaturalSquaresEngine::zodiac_segment_of(t);
        assert!(NaturalSquaresEngine::zodiac_to_angle(i as u32) <= t);
        assert!(t < NaturalSquaresEngine::zodiac_to_angle(i as u32 + 1));
    }
}

#[test]
fn hour_angles() {
    assert_eq!(NaturalSquaresEngine::hour_to_angle(1), 0);
    assert_eq!(NaturalSquaresEngine::hour_to_angle(2), 15);
    assert_eq!(NaturalSquaresEngine::hour_to_angle(24), 345);
    assert_eq!(NaturalSquaresEngine::hour_to_angle(25), 360);
    assert_eq!(
        NaturalSquaresEngine::hour_to_angle(u32::MAX),
        (u32::MAX as u64 - 1) * 15
    );
}

#[test]
fn day_count_of_the_year() {
    let jan1 = CivilDate::new(2026, 1, 1).unwrap();
    let may23 = CivilDate::new(2026, 5, 23).unwrap();
    assert_eq!(NaturalSquaresEngine::get_current_day_count(jan1), 1);
    assert_eq!(NaturalSquaresEngine::get_current_day_count(may23), 143);
}

#[test]
fn engine_keeps_its_epoch() {
    let epoch = CivilDate::new(2000, 1, 1).unwrap();
    let engine = NaturalSquaresEngine::new(epoch);
    assert_eq!(
        (engine.epoch_date.year(), engine.epoch_date.month(), engine.epoch_date.day()),
        (2000, 1, 1)
    );
}

#[test]
fn day_count_stays_within_the_year() {
    for (y, m, d, last) in [(2023, 12, 31, 365), (2024, 12, 31, 366), (2024, 2, 29, 60)] {
        let date = CivilDate::new(y, m, d).unwrap();
        assert_eq!(NaturalSquaresEngine::get_current_day_count(date), last);
    }
}
