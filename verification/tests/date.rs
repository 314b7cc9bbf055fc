use rata_die::date::{
    is_leap_year, last_day_of_month, Calendar, Day, FieldDate, FieldDateError, Month,
    MonthOutofRangeError, SerialDate, UGregorian, Weekday, MAX_RD,
};
use rata_die::period::{Days, Months};

#[test]
fn field_date_new() {
    assert_eq!(
        FieldDate::new(2000, 1, 1).unwrap(),
        FieldDate {
            year: 2000,
            month: Month(1),
            day: Day(1)
        }
    );
}

#[test]
fn field_date_new_invalid() {
    assert_eq!(
        FieldDate::new(2000, 14, 1),
        Err(FieldDateError::MonthOutOfRange)
    );
}

#[test]
fn field_date_roundtrip() {
    let unix_epoch = FieldDate::new(1970, 1, 1).unwrap();
    assert_eq!(unix_epoch, unix_epoch.to_serial_date().to_field_date());
}

#[test]
fn serial_date_roundtrip() {
    let serial_date = SerialDate { rd: 10000 };
    assert_eq!(serial_date, serial_date.to_field_date().to_serial_date());
}

#[test]
fn unix_epoch() {
    let unix_epoch = FieldDate::new(1970, 1, 1).unwrap().to_serial_date();
    let unix_weekday = unix_epoch.to_weekday();
    assert_eq!(unix_weekday, Weekday::Thursday);
    assert_eq!(unix_weekday - Days(1), Weekday::Wednesday);
    assert_eq!(unix_weekday + Days(1), Weekday::Friday);
}

#[test]
fn weekday_add() {
    assert_eq!(Weekday::Monday + Days(2), Weekday::Wednesday);
    assert_eq!(Weekday::Wednesday + Days(7), Weekday::Wednesday);
    assert_eq!(Weekday::Saturday + Days(2), Weekday::Monday);
}

#[test]
fn weekday_sub_period() {
    assert_eq!(Weekday::Monday - Days(2), Weekday::Saturday);
    assert_eq!(Weekday::Wednesday - Days(7), Weekday::Wednesday);
    assert_eq!(Weekday::Saturday - Days(2), Weekday::Thursday);
}

#[test]
fn weekday_sub_weekday() {
    assert_eq!(Weekday::Monday - Weekday::Saturday, Days(2));
    assert_eq!(Weekday::Wednesday - Weekday::Wednesday, Days(0));
    assert_eq!(Weekday::Saturday - Weekday::Thursday, Days(2));
}

#[test]
fn unix_epoch_serial_value() {
    let unix_epoch = FieldDate::new(1970, 1, 1).unwrap().to_serial_date();
    assert_eq!(unix_epoch, SerialDate { rd: 719468 });
}

#[test]
fn leap_year_reference_values() {
    assert!(is_leap_year(1600));
    assert!(is_leap_year(2000));
    assert!(is_leap_year(2004));
    assert!(!is_leap_year(1700));
    assert!(!is_leap_year(1800));
    assert!(!is_leap_year(1900));
    assert!(!is_leap_year(2023));
}

#[test]
fn last_day_of_month_reference_values() {
    assert_eq!(last_day_of_month(2000, Month(2)), Day(29));
    assert_eq!(last_day_of_month(1900, Month(2)), Day(28));
    for y in [0, 1, 1970, 2000, 2023, 2024, 2939744] {
        assert_eq!(last_day_of_month(y, Month(4)), Day(30));
        assert_eq!(last_day_of_month(y, Month(1)), Day(31));
    }
}

#[test]
fn last_day_of_month_full_year() {
    let lengths = [31, 28, 31, 30, 31, 30, 31, 31, 30, 31, 30, 31];
    for (i, len) in lengths.iter().enumerate() {
        assert_eq!(last_day_of_month(2023, Month(i as u8 + 1)), Day(*len));
    }
    assert_eq!(last_day_of_month(2024, Month(2)), Day(29));
}

#[test]
fn month_validation() {
    assert_eq!(Month::new(0), Err(MonthOutofRangeError));
    assert_eq!(Month::new(13), Err(MonthOutofRangeError));
    assert_eq!(Month::new(1), Ok(Month(1)));
    assert_eq!(Month::new(12), Ok(Month(12)));
}

#[test]
fn invalid_day_is_fatal() {
    assert_eq!(
        FieldDate::new(2000, 2, 30),
        Err(FieldDateError::DayOutOfRange)
    );
    assert_eq!(FieldDate::new(2000, 2, 29).unwrap().day, Day(29));
    assert_eq!(
        FieldDate::new(2023, 2, 29),
        Err(FieldDateError::DayOutOfRange)
    );
    assert_eq!(FieldDate::new(2000, 1, 0), Err(FieldDateError::DayOutOfRange));
}

#[test]
fn month_addition_carries_year() {
    let date = FieldDate::new(2000, 12, 1).unwrap();
    assert_eq!(
        date.wrapping_add(Months(1)),
        FieldDate::new(2001, 1, 1).unwrap()
    );
}

#[test]
fn month_addition_overflows_day() {
    let jan_31 = FieldDate::new(2001, 1, 31).unwrap();
    assert_eq!(
        jan_31.wrapping_add(Months(1)),
        FieldDate::new(2001, 3, 3).unwrap()
    );
    let leap_jan_31 = FieldDate::new(2000, 1, 31).unwrap();
    assert_eq!(
        leap_jan_31.wrapping_add(Months(1)),
        FieldDate::new(2000, 3, 2).unwrap()
    );
    let nov_30 = FieldDate::new(1999, 11, 30).unwrap();
    assert_eq!(
        nov_30.wrapping_add(Months(3)),
        FieldDate::new(2000, 3, 1).unwrap()
    );
}

#[test]
fn month_subtraction() {
    let jan_1 = FieldDate::new(2001, 1, 1).unwrap();
    assert_eq!(
        jan_1.wrapping_sub(Months(1)),
        FieldDate::new(2000, 12, 1).unwrap()
    );
    let mar_31 = FieldDate::new(2001, 3, 31).unwrap();
    assert_eq!(
        mar_31.wrapping_sub(Months(1)),
        FieldDate::new(2001, 3, 3).unwrap()
    );
    let jun_15 = FieldDate::new(2023, 6, 15).unwrap();
    assert_eq!(
        jun_15.wrapping_sub(Months(18)),
        FieldDate::new(2021, 12, 15).unwrap()
    );
}

#[test]
fn day_arithmetic_on_dates() {
    let date = FieldDate::new(1970, 1, 1).unwrap();
    assert_eq!(date.add(Days(31)), FieldDate::new(1970, 2, 1).unwrap());
    assert_eq!(date.add(Days(365)), FieldDate::new(1971, 1, 1).unwrap());
    assert_eq!(date.sub(Days(1)), FieldDate::new(1969, 12, 31).unwrap());
    let leap_eve = FieldDate::new(2000, 2, 28).unwrap();
    assert_eq!(leap_eve.add(Days(1)), FieldDate::new(2000, 2, 29).unwrap());
    assert_eq!(leap_eve.add(Days(2)), FieldDate::new(2000, 3, 1).unwrap());
}

#[test]
fn day_arithmetic_on_serials() {
    assert_eq!(SerialDate { rd: 10 } + Days(5), SerialDate { rd: 15 });
    assert_eq!(SerialDate { rd: 10 } - Days(5), SerialDate { rd: 5 });
}

#[test]
fn serial_roundtrip_sweep() {
    for rd in (0..2000).chain([146096, 146097, 719468, 1000000000, MAX_RD]) {
        let serial_date = SerialDate { rd };
        let field_date = serial_date.to_field_date();
        assert_eq!(field_date.to_serial_date(), serial_date);
        assert!(1 <= field_date.month.0 && field_date.month.0 <= 12);
        assert!(
            1 <= field_date.day.0
                && field_date.day.0 <= last_day_of_month(field_date.year, field_date.month).0
        );
    }
}

#[test]
fn field_roundtrip_sweep() {
    for year in [0u32, 1, 4, 100, 400, 1899, 1900, 2000, 2023, 2024, 2939744] {
        for month in 1..=12u8 {
            let last = last_day_of_month(year, Month(month)).0;
            for day in [1, 2, 27, 28, 29, 30, 31] {
                if day > last || (year == 0 && month < 3) {
                    continue;
                }
                let date = FieldDate::new(year, month, day).unwrap();
                assert_eq!(date.to_serial_date().to_field_date(), date);
            }
        }
    }
}

#[test]
fn known_weekdays() {
    assert_eq!(
        FieldDate::new(2023, 6, 15).unwrap().to_weekday(),
        Weekday::Thursday
    );
    assert_eq!(
        FieldDate::new(2000, 1, 1).unwrap().to_weekday(),
        Weekday::Saturday
    );
    assert_eq!(SerialDate { rd: 0 }.to_weekday(), Weekday::Wednesday);
}

#[test]
fn weekday_from_ordinal() {
    assert_eq!(Weekday::from(0), Weekday::Sunday);
    assert_eq!(Weekday::from(4), Weekday::Thursday);
    assert_eq!(Weekday::from(6), Weekday::Saturday);
    assert_eq!(Weekday::Friday.ordinal(), 5);
    assert_eq!(Weekday::MAX, 6);
}

#[test]
fn weekday_distance_forward() {
    for a in 0..7u32 {
        for b in 0..7u32 {
            let wa = Weekday::from(a);
            let wb = Weekday::from(b);
            let dist = wa - wb;
            assert!(dist.0 <= 6);
            assert_eq!(wb + dist, wa);
            assert_eq!(wa + Days(7), wa);
        }
    }
}

#[test]
fn in_place_day_arithmetic() {
    let mut serial = SerialDate { rd: 100 };
    serial.add_assign(Days(5));
    assert_eq!(serial, SerialDate { rd: 105 });
    serial.sub_assign(Days(10));
    assert_eq!(serial, SerialDate { rd: 95 });

    let mut date = FieldDate::new(1999, 12, 31).unwrap();
    date.add_assign(Days(1));
    assert_eq!(date, FieldDate::new(2000, 1, 1).unwrap());
    date.sub_assign(Days(365));
    assert_eq!(date, FieldDate::new(1999, 1, 1).unwrap());
}

#[test]
fn bounds_constants() {
    assert_eq!(Day::MAX, 31);
    assert_eq!(MAX_RD, 1073719812);
}

#[test]
fn gregorian_calendar_epoch() {
    let epoch = UGregorian::epoch();
    assert_eq!(epoch, FieldDate::new(0, 3, 1).unwrap());
    assert_eq!(UGregorian::to_serial_date(&epoch), SerialDate { rd: 0 });
    assert_eq!(UGregorian::to_field_date(SerialDate { rd: 0 }), epoch);
}
