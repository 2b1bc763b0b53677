use transcript_marker::{ParseOutlineError, TimeCode, TimeCodeError};

#[test]
fn with_valid() {
    assert_eq!(
        TimeCode::new(0, 0, 0).unwrap(),
        TimeCode {
            hours: 0,
            minutes: 0,
            seconds: 0
        }
    );
    assert_eq!(
        TimeCode::new(0, 0, 1).unwrap(),
        TimeCode {
            hours: 0,
            minutes: 0,
            seconds: 1
        }
    );
    assert_eq!(
        TimeCode::new(0, 1, 0).unwrap(),
        TimeCode {
            hours: 0,
            minutes: 1,
            seconds: 0
        }
    );
    assert_eq!(
        TimeCode::new(1, 0, 0).unwrap(),
        TimeCode {
            hours: 1,
            minutes: 0,
            seconds: 0
        }
    );
    assert_eq!(
        TimeCode::new(1, 1, 1).unwrap(),
        TimeCode {
            hours: 1,
            minutes: 1,
            seconds: 1
        }
    );
    assert_eq!(
        TimeCode::new(1, 59, 59).unwrap(),
        TimeCode {
            hours: 1,
            minutes: 59,
            seconds: 59,
        }
    );
}

#[test]
fn with_invalid() {
    assert!(TimeCode::new(0, 0, 60).is_err());
    assert!(TimeCode::new(0, 60, 0).is_err());
    assert!(TimeCode::new(0, 60, 60).is_err());
    assert!(TimeCode::new(0, 100, 200).is_err());
}

#[test]
fn new_reports_which_component_is_out_of_range() {
    assert_eq!(TimeCode::new(0, 0, 60), Err(TimeCodeError::SecondsOutOfRange));
    assert_eq!(TimeCode::new(0, 60, 0), Err(TimeCodeError::MinutesOutOfRange));
    assert_eq!(TimeCode::new(0, 60, 60), Err(TimeCodeError::MinutesOutOfRange));
    assert_eq!(
        TimeCode::new(u32::MAX, 59, 59),
        Ok(TimeCode {
            hours: u32::MAX,
            minutes: 59,
            seconds: 59
        })
    );
}

#[test]
fn with_mmss() {
    assert_eq!(
        TimeCode::from_str("00:00").unwrap(),
        TimeCode {
            hours: 0,
            minutes: 0,
            seconds: 0
        }
    );
    assert_eq!(
        TimeCode::from_str("00:01").unwrap(),
        TimeCode {
            hours: 0,
            minutes: 0,
            seconds: 1
        }
    );
    assert_eq!(
        TimeCode::from_str("01:00").unwrap(),
        TimeCode {
            hours: 0,
            minutes: 1,
            seconds: 0
        }
    );
    assert_eq!(
        TimeCode::from_str("01:01").unwrap(),
        TimeCode {
            hours: 0,
            minutes: 1,
            seconds: 1
        }
    );
}

#[test]
fn with_mss() {
    assert_eq!(
        TimeCode::from_str("0:00").unwrap(),
        TimeCode {
            hours: 0,
            minutes: 0,
            seconds: 0
        }
    );
    assert_eq!(
        TimeCode::from_str("0:01").unwrap(),
        TimeCode {
            hours: 0,
            minutes: 0,
            seconds: 1
        }
    );
    assert_eq!(
        TimeCode::from_str("1:00").unwrap(),
        TimeCode {
            hours: 0,
            minutes: 1,
            seconds: 0
        }
    );
    assert_eq!(
        TimeCode::from_str("1:01").unwrap(),
        TimeCode {
            hours: 0,
            minutes: 1,
            seconds: 1
        }
    );
}

#[test]
fn with_hhmmss() {
    assert_eq!(
        TimeCode::from_str("00:00:00").unwrap(),
        TimeCode {
            hours: 0,
            minutes: 0,
            seconds: 0
        }
    );
    assert_eq!(
        TimeCode::from_str("00:00:01").unwrap(),
        TimeCode {
            hours: 0,
            minutes: 0,
            seconds: 1
        }
    );
    assert_eq!(
        TimeCode::from_str("00:01:00").unwrap(),
        TimeCode {
            hours: 0,
            minutes: 1,
            seconds: 0
        }
    );
    assert_eq!(
        TimeCode::from_str("01:00:00").unwrap(),
        TimeCode {
            hours: 1,
            minutes: 0,
            seconds: 0
        }
    );
    assert_eq!(
        TimeCode::from_str("01:01:01").unwrap(),
        TimeCode {
            hours: 1,
            minutes: 1,
            seconds: 1
        }
    );
}

#[test]
fn from_str_with_hmmss() {
    assert_eq!(
        TimeCode::from_str("0:00:00").unwrap(),
        TimeCode {
            hours: 0,
            minutes: 0,
            seconds: 0
        }
    );
    assert_eq!(
        TimeCode::from_str("0:00:01").unwrap(),
        TimeCode {
            hours: 0,
            minutes: 0,
            seconds: 1
        }
    );
    assert_eq!(
        TimeCode::from_str("0:01:00").unwrap(),
        TimeCode {
            hours: 0,
            minutes: 1,
            seconds: 0
        }
    );
    assert_eq!(
        TimeCode::from_str("1:00:00").unwrap(),
        TimeCode {
            hours: 1,
            minutes: 0,
            seconds: 0
        }
    );
    assert_eq!(
        TimeCode::from_str("1:01:01").unwrap(),
        TimeCode {
            hours: 1,
            minutes: 1,
            seconds: 1
        }
    );
}

#[test]
fn time_code_with_invalid() {
    assert!(TimeCode::from_str("00:00:").is_err());
    assert!(TimeCode::from_str("00::00").is_err());
    assert!(TimeCode::from_str(":00:00").is_err());
    assert!(TimeCode::from_str("::").is_err());
    assert!(TimeCode::from_str("a:b:c").is_err());
    assert!(TimeCode::from_str("00:00:00:00").is_err());
    assert!(TimeCode::from_str("00:00:00:00:00").is_err());
}

#[test]
fn displays_correctly() {
    assert_eq!(
        TimeCode {
            hours: 0,
            minutes: 0,
            seconds: 0
        }
        .to_string(),
        "0:00"
    );
    assert_eq!(
        TimeCode {
            hours: 0,
            minutes: 0,
            seconds: 1
        }
        .to_string(),
        "0:01"
    );
    assert_eq!(
        TimeCode {
            hours: 0,
            minutes: 1,
            seconds: 0
        }
        .to_string(),
        "1:00"
    );
    assert_eq!(
        TimeCode {
            hours: 0,
            minutes: 10,
            seconds: 0
        }
        .to_string(),
        "10:00"
    );
    assert_eq!(
        TimeCode {
            hours: 1,
            minutes: 0,
            seconds: 0
        }
        .to_string(),
        "1:00:00"
    );
    assert_eq!(
        TimeCode {
            hours: 1,
            minutes: 1,
            seconds: 1
        }
        .to_string(),
        "1:01:01"
    );
    assert_eq!(
        TimeCode {
            hours: 10,
            minutes: 10,
            seconds: 10
        }
        .to_string(),
        "10:10:10"
    );
    assert_eq!(
        TimeCode {
            hours: 100,
            minutes: 59,
            seconds: 59
        }
        .to_string(),
        "100:59:59"
    )
}

#[test]
fn leading_zeros_of_the_first_group_are_ignored() {
    assert_eq!(
        TimeCode::from_str("001:22:33").unwrap(),
        TimeCode {
            hours: 1,
            minutes: 22,
            seconds: 33
        }
    );
    assert_eq!(
        TimeCode::from_str("0005:09").unwrap(),
        TimeCode {
            hours: 0,
            minutes: 5,
            seconds: 9
        }
    );
}

#[test]
fn out_of_range_minutes_is_an_invalid_time_code() {
    match TimeCode::from_str("00:60:00") {
        Err(ParseOutlineError::InvalidTimeCode(raw)) => assert_eq!(raw, "00:60:00"),
        other => panic!("unexpected result {:?}", other),
    }
    assert!(TimeCode::from_str("60:00").is_err());
    assert!(TimeCode::from_str("00:00:60").is_err());
}

#[test]
fn trailing_groups_take_exactly_two_digits() {
    assert!(TimeCode::from_str("1:2:3").is_err());
    assert!(TimeCode::from_str("1:002").is_err());
    assert!(TimeCode::from_str("12").is_err());
    assert!(TimeCode::from_str("").is_err());
    assert!(TimeCode::from_str("+1:00").is_err());
}

#[test]
fn hours_beyond_u32_are_refused() {
    assert_eq!(
        TimeCode::from_str("4294967295:00:00").unwrap().hours,
        u32::MAX
    );
    assert!(TimeCode::from_str("4294967296:00:00").is_err());
}

#[test]
fn format_then_parse_gives_the_same_code() {
    for t in [
        TimeCode { hours: 0, minutes: 0, seconds: 0 },
        TimeCode { hours: 0, minutes: 59, seconds: 7 },
        TimeCode { hours: 3, minutes: 4, seconds: 5 },
        TimeCode { hours: 1234, minutes: 0, seconds: 59 },
    ] {
        assert_eq!(TimeCode::from_str(&t.to_string()).unwrap(), t);
    }
}

#[test]
fn order_is_lexicographic_on_hours_minutes_seconds() {
    let a = TimeCode { hours: 0, minutes: 59, seconds: 59 };
    let b = TimeCode { hours: 1, minutes: 0, seconds: 0 };
    let c = TimeCode { hours: 1, minutes: 0, seconds: 1 };
    assert!(a < b && b < c && a < c);
    assert!(c > a);
    assert!(b >= b.clone() && b <= b.clone());
    assert_eq!(a.partial_cmp(&b), Some(std::cmp::Ordering::Less));
    assert_eq!(
        c.partial_cmp(&b),
        (c.hours, c.minutes, c.seconds).partial_cmp(&(b.hours, b.minutes, b.seconds))
    );
}
