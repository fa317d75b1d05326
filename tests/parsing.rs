use tanken::{Date, ParseError, Record, Statistics};

#[test]
fn parse_date() {
    let d = Date::new("7.04.2022").unwrap();
    assert_eq!(d.day, 7);
    assert_eq!(d.month, 4);
    assert_eq!(d.year, 2022);
}

#[test]
fn parse_record() {
    let r = Record::new("7.04.2022\t100000\t90,5\t120,6").unwrap();
    assert_eq!(r.date.day, 7);
    assert_eq!(r.date.month, 4);
    assert_eq!(r.date.year, 2022);
    assert_eq!(r.km, 100000);
    assert_eq!(r.liter as f64 / 1000.0, 90.5);
    assert_eq!(r.costs as f64 / 1000.0, 120.6);
}

#[test]
fn record_amounts_in_thousandths() {
    let r = Record::new("7.04.2022\t100000\t90,5\t120,6").unwrap();
    assert_eq!(r.liter, 90500);
    assert_eq!(r.costs, 120600);
}

#[test]
fn date_is_not_checked_against_calendar() {
    let d = Date::new("99.13.2022").unwrap();
    assert_eq!(d, Date { day: 99, month: 13, year: 2022 });
}

#[test]
fn date_with_plus_and_leading_zeros() {
    let d = Date::new("+07.004.02022").unwrap();
    assert_eq!(d, Date { day: 7, month: 4, year: 2022 });
}

#[test]
fn date_errors() {
    assert_eq!(Date::new("7.04"), Err(ParseError::BadDate));
    assert_eq!(Date::new(""), Err(ParseError::BadDate));
    assert_eq!(Date::new("7.x.2022"), Err(ParseError::BadDate));
    assert_eq!(Date::new("256.1.2022"), Err(ParseError::BadDate));
    assert_eq!(Date::new("1.1.65536"), Err(ParseError::BadDate));
    assert_eq!(Date::new("-1.1.2022"), Err(ParseError::BadDate));
}

#[test]
fn decimal_forms() {
    let r = Record::new("1.1.2022\t5\t90.5\t+3").unwrap();
    assert_eq!(r.liter, 90500);
    assert_eq!(r.costs, 3000);
    let r = Record::new("1.1.2022\t5\t,25\t7,\textra").unwrap();
    assert_eq!(r.liter, 250);
    assert_eq!(r.costs, 7000);
    let r = Record::new("1.1.2022\t5\t0,125\t18446744073709551,615").unwrap();
    assert_eq!(r.liter, 125);
    assert_eq!(r.costs, u64::MAX);
}

#[test]
fn missing_field_is_an_error() {
    assert_eq!(Record::new("7.04.2022\t100000\t90,5"), Err(ParseError::MissingField));
    assert_eq!(Record::new(""), Err(ParseError::MissingField));
}

#[test]
fn non_numeric_km_is_an_error() {
    assert_eq!(Record::new("7.04.2022\tabc\t90,5\t120,6"), Err(ParseError::BadKilometers));
    assert_eq!(Record::new("7.04.2022\t4294967296\t90,5\t120,6"), Err(ParseError::BadKilometers));
    assert_eq!(Record::new("7.04.2022\t\t90,5\t120,6"), Err(ParseError::BadKilometers));
}

#[test]
fn field_errors_in_order() {
    assert_eq!(Record::new("7-04-2022\t100000\t90,5\t120,6"), Err(ParseError::BadDate));
    assert_eq!(Record::new("7.04.2022\t100000\t90,5,1\t120,6"), Err(ParseError::BadLiters));
    assert_eq!(Record::new("7.04.2022\t100000\t90,5555\t120,6"), Err(ParseError::BadLiters));
    assert_eq!(Record::new("7.04.2022\t100000\t,\t120,6"), Err(ParseError::BadLiters));
    assert_eq!(Record::new("7.04.2022\t100000\t90,5\t-1"), Err(ParseError::BadCosts));
    assert_eq!(
        Record::new("7.04.2022\t100000\t90,5\t18446744073709552"),
        Err(ParseError::BadCosts)
    );
}

#[test]
fn bad_line_stops_loading_and_is_named() {
    let lines = [
        "7.04.2022\t100000\t90,5\t120,6",
        "8.05.2022\tabc\t50\t70",
        "9.06.2022\t\t",
    ];
    let err = Statistics::new(&lines).unwrap_err();
    assert_eq!(err.line, 2);
    assert_eq!(err.error, ParseError::BadKilometers);
}

#[test]
fn good_lines_load_in_order() {
    let lines = ["1.1.2023\t100\t10\t15", "1.1.2022\t200\t20\t30"];
    let s = Statistics::new(&lines).unwrap();
    assert_eq!(s.get_kilometers(), Ok(100));
}
