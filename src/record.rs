//! Log entries: the date, the odometer reading and the two amounts of one fill.

use vstd::prelude::*;
use vstd::string::StringSliceAdditionalSpecFns;
use crate::text::{
    milli_of, parse_milli, parse_unsigned, split_bytes, split_fields, unsigned_of, DOT, TAB,
};

verus! {

/// A calendar date as written in the log; the parts are not checked against
/// a calendar.
#[derive(Debug, Clone, Copy, PartialEq, Eq, Structural)]
pub struct Date {
    pub day: u8,
    pub month: u8,
    pub year: u16,
}

/// One fuel-log entry. `liter` and `costs` are in thousandths of a liter and
/// of a currency unit.
#[derive(Debug, Clone, Copy, PartialEq, Eq, Structural)]
pub struct Record {
    pub date: Date,
    pub km: u32,
    pub liter: u64,
    pub costs: u64,
}

/// Why a log line could not be read.
#[derive(Debug, Clone, Copy, PartialEq, Eq, Structural)]
pub enum ParseError {
    /// The line has fewer than four tab-separated fields.
    MissingField,
    /// The date is not three point-separated numbers that fit their parts.
    BadDate,
    /// The odometer reading is not an unsigned 32-bit number.
    BadKilometers,
    /// The liters are not a decimal number as `milli_of` accepts it.
    BadLiters,
    /// The cost is not a decimal number as `milli_of` accepts it.
    BadCosts,
}

/// The date that `s` denotes: day, month and year separated by points, each
/// an unsigned number that fits its field; pieces after the third are ignored.
pub open spec fn date_of(s: Seq<u8>) -> Option<Date> {
    let parts = split_fields(s, DOT);
    if parts.len() >= 3 && unsigned_of(parts[0], 255) is Some && unsigned_of(parts[1], 255) is Some
        && unsigned_of(parts[2], 65535) is Some {
        Some(
            Date {
                day: unsigned_of(parts[0], 255).unwrap() as u8,
                month: unsigned_of(parts[1], 255).unwrap() as u8,
                year: unsigned_of(parts[2], 65535).unwrap() as u16,
            },
        )
    } else {
        None
    }
}

/// The record that a log line denotes: date, odometer, liters and cost
/// separated by tabs; fields after the fourth are ignored.
pub open spec fn record_of(s: Seq<u8>) -> Result<Record, ParseError> {
    let f = split_fields(s, TAB);
    if f.len() < 4 {
        Err(ParseError::MissingField)
    } else if date_of(f[0]) is None {
        Err(ParseError::BadDate)
    } else if unsigned_of(f[1], 0xffff_ffff) is None {
        Err(ParseError::BadKilometers)
    } else if milli_of(f[2]) is None {
        Err(ParseError::BadLiters)
    } else if milli_of(f[3]) is None {
        Err(ParseError::BadCosts)
    } else {
        Ok(
            Record {
                date: date_of(f[0]).unwrap(),
                km: unsigned_of(f[1], 0xffff_ffff).unwrap() as u32,
                liter: milli_of(f[2]).unwrap() as u64,
                costs: milli_of(f[3]).unwrap() as u64,
            },
        )
    }
}

/// Reads the bytes of a date, as `date_of` describes.
fn date_from_bytes(s: &[u8]) -> (r: Result<Date, ParseError>)
    ensures
        r == (match date_of(s@) {
            Some(d) => Ok(d),
            None => Err(ParseError::BadDate),
        }),
{
    let parts = split_bytes(s, DOT);
    if parts.len() < 3 {
        return Err(ParseError::BadDate);
    }
    let day = match parse_unsigned(parts[0].as_slice(), 255) {
        Some(v) => v,
        None => return Err(ParseError::BadDate),
    };
    let month = match parse_unsigned(parts[1].as_slice(), 255) {
        Some(v) => v,
        None => return Err(ParseError::BadDate),
    };
    let year = match parse_unsigned(parts[2].as_slice(), 65535) {
        Some(v) => v,
        None => return Err(ParseError::BadDate),
    };
    Ok(Date { day: day as u8, month: month as u8, year: year as u16 })
}

impl Date {
    /// Reads a date written as `day.month.year`.
    pub fn new(datetext: &str) -> (r: Result<Date, ParseError>)
        ensures
            r == (match date_of(datetext.spec_bytes()) {
                Some(d) => Ok(d),
                None => Err(ParseError::BadDate),
            }),
    {
        date_from_bytes(datetext.as_bytes())
    }
}

impl Record {
    /// Reads one log line: date, odometer reading in km, liters and cost,
    /// separated by tabs, the amounts with a decimal comma.
    pub fn new(line: &str) -> (r: Result<Record, ParseError>)
        ensures
            r == record_of(line.spec_bytes()),
    {
        let f = split_bytes(line.as_bytes(), TAB);
        if f.len() < 4 {
            return Err(ParseError::MissingField);
        }
        let date = match date_from_bytes(f[0].as_slice()) {
            Ok(d) => d,
            Err(e) => return Err(e),
        };
        let km = match parse_unsigned(f[1].as_slice(), 0xffff_ffff) {
            Some(v) => v,
            None => return Err(ParseError::BadKilometers),
        };
        let liter = match parse_milli(f[2].as_slice()) {
            Some(v) => v,
            None => return Err(ParseError::BadLiters),
        };
        let costs = match parse_milli(f[3].as_slice()) {
            Some(v) => v,
            None => return Err(ParseError::BadCosts),
        };
        Ok(Record { date, km: km as u32, liter, costs })
    }
}

} // verus!
