use buflog::LogTimeStamp;
use buflog::get_current_time;

/// Checks the literal pattern `D+.M+.Y+ - H+:M+:S+`: six nonempty digit
/// groups, no leading zeros, joined by the exact separators.
fn is_rendered_shape(s: &str) -> bool {
    let halves: Vec<&str> = s.split(" - ").collect();
    if halves.len() != 2 {
        return false;
    }
    let date: Vec<&str> = halves[0].split('.').collect();
    let time: Vec<&str> = halves[1].split(':').collect();
    if date.len() != 3 || time.len() != 3 {
        return false;
    }
    let mut groups = date;
    groups.extend(time);
    groups.iter().all(|g| {
        !g.is_empty() && g.chars().all(|c| c.is_ascii_digit()) && (g.len() == 1 || !g.starts_with('0'))
    })
}

#[test]
fn test_timestamp() {
    println!("{}", get_current_time().render());
}

#[test]
fn epoch_fields_and_render() {
    let t = LogTimeStamp::from_secs(0);
    assert_eq!(t.raw, 0);
    assert_eq!(t.days, 1);
    assert_eq!(t.months, 1);
    assert_eq!(t.years, 1970);
    assert_eq!(t.hours, 0);
    assert_eq!(t.minutes, 0);
    assert_eq!(t.seconds, 0);
    assert_eq!(t.render(), "1.1.1970 - 0:0:0");
}

#[test]
fn time_of_day_fields() {
    let t = LogTimeStamp::from_secs(3723);
    assert_eq!(t.hours, 1);
    assert_eq!(t.minutes, 2);
    assert_eq!(t.seconds, 3);
    assert_eq!(t.render(), "1.1.1970 - 1:2:3");

    let end_of_day = LogTimeStamp::from_secs(86399);
    assert_eq!(end_of_day.hours, 23);
    assert_eq!(end_of_day.minutes, 59);
    assert_eq!(end_of_day.seconds, 59);
}

#[test]
fn derivation_is_deterministic() {
    let a = LogTimeStamp::from_secs(123456789);
    let b = LogTimeStamp::from_secs(123456789);
    assert_eq!(a, b);
    assert_eq!(a.render(), b.render());
}

#[test]
fn rendering_matches_shape() {
    let raws: [u64; 7] = [
        0,
        3723,
        123456789,
        4 * 365 * 86400,
        1700000000,
        u64::MAX,
        365 * 86400 - 1,
    ];
    for &x in raws.iter() {
        let r = LogTimeStamp::from_secs(x).render();
        assert!(is_rendered_shape(&r), "bad shape: {}", r);
    }
}

#[test]
fn month_table_boundaries() {
    let cases: [(u64, u64, u64); 23] = [
        (31, 1, 31),
        (32, 2, 1),
        (59, 2, 28),
        (60, 3, 1),
        (90, 3, 31),
        (91, 4, 1),
        (120, 4, 30),
        (121, 5, 1),
        (151, 5, 31),
        (152, 6, 1),
        (181, 6, 30),
        (182, 7, 1),
        (212, 7, 31),
        (213, 8, 1),
        (243, 8, 31),
        (244, 9, 1),
        (273, 9, 30),
        (274, 10, 1),
        (304, 10, 31),
        (305, 11, 1),
        (334, 11, 30),
        (335, 12, 1),
        (365, 12, 31),
    ];
    for &(day_of_year, month, day_of_month) in cases.iter() {
        let t = LogTimeStamp::from_secs((day_of_year - 1) * 86400);
        assert_eq!(t.months, month, "day of year {}", day_of_year);
        assert_eq!(t.days, day_of_month, "day of year {}", day_of_year);
        assert_eq!(t.years, 1970);
    }
}

#[test]
fn leap_adjustment_wraps_at_four_years() {
    // Exactly four 365-day years: one leap day is subtracted from zero
    // elapsed seconds of the new year, so the day-of-year wraps past 366 and
    // the month is clamped to 12 with the day left as is.
    let wrapped = LogTimeStamp::from_secs(4 * 365 * 86400);
    assert_eq!(wrapped.years, 1974);
    assert_eq!(wrapped.months, 12);
    assert_eq!(wrapped.days, 213503982334601);

    // One day later the adjustment is covered and the year starts over.
    let after = LogTimeStamp::from_secs(4 * 365 * 86400 + 86400);
    assert_eq!(after.years, 1974);
    assert_eq!(after.months, 1);
    assert_eq!(after.days, 1);
}

#[test]
fn current_time_is_well_formed() {
    let t = get_current_time();
    assert_eq!(t, LogTimeStamp::from_secs(t.raw));
    assert!(t.years >= 1970);
    assert!(1 <= t.months && t.months <= 12);
    assert!(t.hours < 24 && t.minutes < 60 && t.seconds < 60);
    assert!(is_rendered_shape(&t.render()));
}
