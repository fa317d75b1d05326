//! Fuel-log statistics: parsing of tab-separated log lines and verified
//! aggregate queries over the parsed records.

mod record;
mod stats;
mod text;

pub use record::{date_of, record_of, Date, ParseError, Record};
pub use stats::{
    average_of, consumption_of, field_value, has_year, is_year_table, kilometers_of,
    lemma_too_few_records, lemma_year_table_unique, lists_year, total, year_total,
    years_ascending, Field, Fraction, LoadError, Statistics, StatsError,
};
pub use text::{
    all_digits, commas_to_points, digits_value, is_digit, milli_of, place_scale, split_fields,
    unsigned_body, unsigned_of,
};
