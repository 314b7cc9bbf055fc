use rata_die::period::{Days, Months, Years};

#[test]
fn add_days() {
    assert_eq!(Days(1_u32) + Days(2_u32), Days(3_u32))
}

#[test]
fn add_months() {
    assert_eq!(Months(11) + Months(1), Months(12));
}

#[test]
fn add_years() {
    assert_eq!(Years(399) + Years(1), Years(400));
}

#[test]
fn add_assign_periods() {
    let mut days = Days(1);
    days.add_assign(Days(2));
    assert_eq!(days, Days(3));
    let mut months = Months(6);
    months.add_assign(Months(6));
    assert_eq!(months, Months(12));
    let mut years = Years(1999);
    years.add_assign(Years(1));
    assert_eq!(years, Years(2000));
}

#[test]
fn it_works() {
    assert_eq!(2 + 2, 4);
}
