use tanken::{Date, Field, Fraction, Record, Statistics, StatsError};

fn rec(day: u8, month: u8, year: u16, km: u32, liter: u64, costs: u64) -> Record {
    Record { date: Date { day, month, year }, km, liter, costs }
}

#[test]
fn years_are_summed_and_sorted() {
    let s = Statistics::from_records(vec![
        rec(1, 11, 2023, 1000, 10_000, 15_000),
        rec(1, 3, 2022, 1500, 20_000, 30_500),
        rec(1, 12, 2023, 2000, 5_000, 7_250),
        rec(1, 4, 2022, 2500, 1_000, 1_000),
    ]);
    assert_eq!(s.get_years(Field::Costs), vec![(2022, 31_500), (2023, 22_250)]);
    assert_eq!(s.get_years(Field::Liters), vec![(2022, 21_000), (2023, 15_000)]);
}

#[test]
fn years_without_records_are_absent() {
    let s = Statistics::from_records(vec![
        rec(1, 1, 2020, 0, 1_000, 2_000),
        rec(1, 1, 2024, 10, 3_000, 4_000),
    ]);
    assert_eq!(s.get_years(Field::Costs), vec![(2020, 2_000), (2024, 4_000)]);
}

#[test]
fn no_records_give_no_years() {
    let s = Statistics::from_records(vec![]);
    assert_eq!(s.get_years(Field::Costs), vec![]);
    assert_eq!(s.get_total(Field::Liters), 0);
}

#[test]
fn kilometers_follow_log_order() {
    let s = Statistics::from_records(vec![
        rec(1, 6, 2022, 100_000, 1_000, 1_000),
        rec(1, 1, 2022, 100_400, 1_000, 1_000),
        rec(1, 3, 2022, 100_900, 1_000, 1_000),
    ]);
    assert_eq!(s.get_kilometers(), Ok(900));
}

#[test]
fn kilometers_need_two_records() {
    let s = Statistics::from_records(vec![rec(1, 1, 2022, 100, 1_000, 1_000)]);
    assert_eq!(s.get_kilometers(), Err(StatsError::TooFewRecords));
    let s = Statistics::from_records(vec![]);
    assert_eq!(s.get_kilometers(), Err(StatsError::TooFewRecords));
}

#[test]
fn decreasing_odometer_is_an_error() {
    let s = Statistics::from_records(vec![
        rec(1, 1, 2022, 500, 1_000, 1_000),
        rec(2, 1, 2022, 400, 1_000, 1_000),
    ]);
    assert_eq!(s.get_kilometers(), Err(StatsError::OdometerDecreased));
    assert_eq!(s.get_consumption(), Err(StatsError::OdometerDecreased));
}

#[test]
fn consumption_leaves_out_last_fill() {
    let s = Statistics::from_records(vec![
        rec(1, 1, 2022, 1_000, 10_000, 1_000),
        rec(2, 1, 2022, 1_050, 20_000, 1_000),
        rec(3, 1, 2022, 1_100, 30_000, 1_000),
    ]);
    let c = s.get_consumption().unwrap();
    assert_eq!(c, Fraction { num: 30_000, den: 1_000 });
    assert_eq!(c.num, 30 * c.den);
}

#[test]
fn zero_distance_has_no_consumption() {
    let s = Statistics::from_records(vec![
        rec(1, 1, 2022, 700, 10_000, 1_000),
        rec(2, 1, 2022, 700, 20_000, 1_000),
    ]);
    assert_eq!(s.get_kilometers(), Ok(0));
    assert_eq!(s.get_consumption(), Err(StatsError::ZeroDistance));
}

#[test]
fn single_record_log_fails_distance_and_consumption() {
    let s = Statistics::new(&["7.04.2022\t100000\t90,5\t120,6"]).unwrap();
    assert_eq!(s.get_kilometers(), Err(StatsError::TooFewRecords));
    assert_eq!(s.get_consumption(), Err(StatsError::TooFewRecords));
}

#[test]
fn totals_add_every_record() {
    let s = Statistics::from_records(vec![
        rec(1, 1, 2022, 0, 10_500, 100_250),
        rec(2, 1, 2022, 10, 20_000, 30_000),
    ]);
    assert_eq!(s.get_total(Field::Liters), 30_500);
    assert_eq!(s.get_total(Field::Costs), 130_250);
}

#[test]
fn totals_do_not_overflow() {
    let s = Statistics::from_records(vec![
        rec(1, 1, 2022, 0, u64::MAX, u64::MAX),
        rec(2, 1, 2022, 10, u64::MAX, 1),
    ]);
    assert_eq!(s.get_total(Field::Liters), 2 * (u64::MAX as u128));
    assert_eq!(s.get_years(Field::Costs), vec![(2022, u64::MAX as u128 + 1)]);
}

#[test]
fn average_is_ratio_of_totals() {
    // 100 for 10 liters and 30 for 20 liters: 130 / 30, not (10 + 1.5) / 2.
    let s = Statistics::from_records(vec![
        rec(1, 1, 2022, 0, 10_000, 100_000),
        rec(2, 1, 2022, 10, 20_000, 30_000),
    ]);
    assert_eq!(s.get_average(), Ok(Fraction { num: 130_000, den: 30_000 }));
}

#[test]
fn average_needs_liters() {
    let s = Statistics::from_records(vec![rec(1, 1, 2022, 0, 0, 5_000)]);
    assert_eq!(s.get_average(), Err(StatsError::ZeroLiters));
    let s = Statistics::from_records(vec![]);
    assert_eq!(s.get_average(), Err(StatsError::ZeroLiters));
}

#[test]
fn field_selects_amount() {
    let r = rec(1, 1, 2022, 0, 12, 34);
    assert_eq!(Field::Liters.of(&r), 12);
    assert_eq!(Field::Costs.of(&r), 34);
}
