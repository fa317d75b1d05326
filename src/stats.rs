//! The statistics engine: aggregate queries over the records of a fuel log.

use vstd::prelude::*;
use vstd::string::StringSliceAdditionalSpecFns;
use crate::record::{record_of, ParseError, Record};

verus! {

/// Which amount of a record an aggregate query adds up.
#[derive(Debug, Clone, Copy, PartialEq, Eq, Structural)]
pub enum Field {
    Liters,
    Costs,
}

/// The amount that `f` selects from `r`, in thousandths.
pub open spec fn field_value(r: Record, f: Field) -> nat {
    match f {
        Field::Liters => r.liter as nat,
        Field::Costs => r.costs as nat,
    }
}

impl Field {
    /// The amount that this field selects from `r`.
    pub fn of(self, r: &Record) -> (v: u64)
        ensures
            v == field_value(*r, self),
    {
        match self {
            Field::Liters => r.liter,
            Field::Costs => r.costs,
        }
    }
}

/// The sum of the amounts that `f` selects, over all of `recs`.
pub open spec fn total(recs: Seq<Record>, f: Field) -> nat
    decreases recs.len(),
{
    if recs.len() == 0 {
        0
    } else {
        total(recs.drop_last(), f) + field_value(recs.last(), f)
    }
}

/// The sum of the amounts that `f` selects, over the records of year `y`.
pub open spec fn year_total(recs: Seq<Record>, y: u16, f: Field) -> nat
    decreases recs.len(),
{
    if recs.len() == 0 {
        0
    } else {
        year_total(recs.drop_last(), y, f) + if recs.last().date.year == y {
            field_value(recs.last(), f)
        } else {
            0
        }
    }
}

/// Some record of `recs` is dated in year `y`.
pub open spec fn has_year(recs: Seq<Record>, y: u16) -> bool {
    exists|i: int| 0 <= i < recs.len() && (#[trigger] recs[i]).date.year == y
}

/// `t` lists its years in strictly ascending order.
pub open spec fn years_ascending(t: Seq<(u16, u128)>) -> bool {
    forall|i: int, j: int| 0 <= i < j < t.len() ==> t[i].0 < t[j].0
}

/// Year `y` stands in `t`.
pub open spec fn lists_year(t: Seq<(u16, u128)>, y: u16) -> bool {
    exists|k: int| 0 <= k < t.len() && (#[trigger] t[k]).0 == y
}

/// `t` lists each year that occurs in `recs` exactly once, in ascending
/// order, with the total of `f` over that year's records.
pub open spec fn is_year_table(t: Seq<(u16, u128)>, recs: Seq<Record>, f: Field) -> bool {
    &&& years_ascending(t)
    &&& forall|k: int|
        0 <= k < t.len() ==> has_year(recs, #[trigger] t[k].0) && t[k].1 == year_total(
            recs,
            t[k].0,
            f,
        )
    &&& forall|y: u16| #[trigger] has_year(recs, y) ==> lists_year(t, y)
}

/// An exact non-negative quotient `num / den`; `den` is never zero.
#[derive(Debug, Clone, Copy, PartialEq, Eq, Structural)]
pub struct Fraction {
    pub num: u128,
    pub den: u128,
}

/// Why a query has no meaningful answer on the records at hand.
#[derive(Debug, Clone, Copy, PartialEq, Eq, Structural)]
pub enum StatsError {
    /// A distance needs at least two records.
    TooFewRecords,
    /// The last odometer reading is below the first one.
    OdometerDecreased,
    /// The first and the last odometer readings are equal.
    ZeroDistance,
    /// The liters add up to zero.
    ZeroLiters,
}

/// A log line that could not be read: its number, counted from 1, and why.
#[derive(Debug, Clone, Copy, PartialEq, Eq, Structural)]
pub struct LoadError {
    pub line: usize,
    pub error: ParseError,
}

/// The distance driven: the last odometer reading minus the first, in the
/// order of the log.
pub open spec fn kilometers_of(recs: Seq<Record>) -> Result<u32, StatsError> {
    if recs.len() < 2 {
        Err(StatsError::TooFewRecords)
    } else if recs.last().km < recs[0].km {
        Err(StatsError::OdometerDecreased)
    } else {
        Ok((recs.last().km - recs[0].km) as u32)
    }
}

/// Liters per 100 km: all liters but those of the last fill, which has not
/// been driven yet, over the distance. The liters are in thousandths, so the
/// quotient is liters in thousandths over ten times the kilometers.
pub open spec fn consumption_of(recs: Seq<Record>) -> Result<Fraction, StatsError> {
    match kilometers_of(recs) {
        Err(e) => Err(e),
        Ok(km) => if km == 0 {
            Err(StatsError::ZeroDistance)
        } else {
            Ok(
                Fraction {
                    num: (total(recs, Field::Liters) - recs.last().liter) as u128,
                    den: (10 * km) as u128,
                },
            )
        },
    }
}

/// The overall price per liter: total cost over total liters.
pub open spec fn average_of(recs: Seq<Record>) -> Result<Fraction, StatsError> {
    if total(recs, Field::Liters) == 0 {
        Err(StatsError::ZeroLiters)
    } else {
        Ok(
            Fraction {
                num: total(recs, Field::Costs) as u128,
                den: total(recs, Field::Liters) as u128,
            },
        )
    }
}

/// No record adds more than `u64::MAX` to a total.
proof fn lemma_total_bound(recs: Seq<Record>, f: Field)
    ensures
        total(recs, f) <= recs.len() * (u64::MAX as nat),
    decreases recs.len(),
{
    if recs.len() > 0 {
        lemma_total_bound(recs.drop_last(), f);
    }
}

/// No record adds more than `u64::MAX` to a year's total.
proof fn lemma_year_total_bound(recs: Seq<Record>, y: u16, f: Field)
    ensures
        year_total(recs, y, f) <= recs.len() * (u64::MAX as nat),
    decreases recs.len(),
{
    if recs.len() > 0 {
        lemma_year_total_bound(recs.drop_last(), y, f);
    }
}

/// As many `u64` amounts as a vector can hold add up within a `u128`.
proof fn lemma_fits(n: int)
    requires
        0 <= n <= usize::MAX,
    ensures
        n * (u64::MAX as int) <= u128::MAX,
{
}

/// A year without records has a total of zero.
proof fn lemma_year_total_absent(recs: Seq<Record>, y: u16, f: Field)
    requires
        !has_year(recs, y),
    ensures
        year_total(recs, y, f) == 0,
    decreases recs.len(),
{
    if recs.len() > 0 {
        let init = recs.drop_last();
        assert(!has_year(init, y)) by {
            if has_year(init, y) {
                let i = choose|i: int| 0 <= i < init.len() && (#[trigger] init[i]).date.year == y;
                assert(recs[i] == init[i]);
            }
        }
        assert(recs[recs.len() - 1] == recs.last());
        lemma_year_total_absent(init, y, f);
    }
}

/// How one more record changes the year totals and the years present.
proof fn lemma_push_facts(recs: Seq<Record>, rec: Record, f: Field)
    ensures
        forall|z: u16|
            #[trigger] year_total(recs.push(rec), z, f) == year_total(recs, z, f) + if rec.date.year
                == z {
                field_value(rec, f)
            } else {
                0
            },
        forall|z: u16| #[trigger] has_year(recs.push(rec), z) <==> has_year(recs, z) || rec.date.year == z,
{
    let next = recs.push(rec);
    assert(next.drop_last() =~= recs);
    assert forall|z: u16| #[trigger] has_year(next, z) <==> has_year(recs, z) || rec.date.year == z by {
        if has_year(recs, z) {
            let i = choose|i: int| 0 <= i < recs.len() && (#[trigger] recs[i]).date.year == z;
            assert(next[i] == recs[i]);
        }
        if rec.date.year == z {
            assert(next[recs.len() as int] == rec);
        }
        if has_year(next, z) && rec.date.year != z {
            let i = choose|i: int| 0 <= i < next.len() && (#[trigger] next[i]).date.year == z;
            assert(i < recs.len());
            assert(recs[i] == next[i]);
        }
    }
}

/// Adding a record of a listed year to that year's entry keeps the table right.
proof fn lemma_table_add(t: Seq<(u16, u128)>, recs: Seq<Record>, rec: Record, f: Field, p: int)
    requires
        is_year_table(t, recs, f),
        0 <= p < t.len(),
        t[p].0 == rec.date.year,
        t[p].1 + field_value(rec, f) <= u128::MAX,
    ensures
        is_year_table(
            t.update(p, (rec.date.year, (t[p].1 + field_value(rec, f)) as u128)),
            recs.push(rec),
            f,
        ),
{
    let y = rec.date.year;
    let t2 = t.update(p, (y, (t[p].1 + field_value(rec, f)) as u128));
    let next = recs.push(rec);
    lemma_push_facts(recs, rec, f);
    assert forall|k: int| 0 <= k < t2.len() implies has_year(next, #[trigger] t2[k].0)
        && t2[k].1 == year_total(next, t2[k].0, f) by {
        if k != p {
            assert(t[k].0 != y) by {
                if k < p {
                    assert(t[k].0 < t[p].0);
                } else {
                    assert(t[p].0 < t[k].0);
                }
            }
            assert(has_year(recs, t[k].0));
            assert(has_year(next, t[k].0));
            assert(year_total(next, t[k].0, f) == year_total(recs, t[k].0, f));
        } else {
            assert(has_year(recs, t[k].0));
            assert(has_year(next, y));
            assert(year_total(next, y, f) == year_total(recs, y, f) + field_value(rec, f));
        }
    }
    assert forall|z: u16| #[trigger] has_year(next, z) implies exists|k: int|
        0 <= k < t2.len() && t2[k].0 == z by {
        if z == y {
            assert(t2[p].0 == z);
        } else {
            assert(has_year(recs, z));
            let k = choose|k: int| 0 <= k < t.len() && t[k].0 == z;
            assert(t2[k].0 == z);
        }
    }
}

/// Inserting a record of an unlisted year at its place keeps the table right.
proof fn lemma_table_insert(t: Seq<(u16, u128)>, recs: Seq<Record>, rec: Record, f: Field, p: int)
    requires
        is_year_table(t, recs, f),
        0 <= p <= t.len(),
        forall|k: int| 0 <= k < p ==> t[k].0 < rec.date.year,
        p < t.len() ==> t[p].0 > rec.date.year,
    ensures
        is_year_table(
            t.insert(p, (rec.date.year, field_value(rec, f) as u128)),
            recs.push(rec),
            f,
        ),
{
    let y = rec.date.year;
    let e = (y, field_value(rec, f) as u128);
    let t2 = t.insert(p, e);
    let next = recs.push(rec);
    t.insert_ensures(p, e);
    lemma_push_facts(recs, rec, f);
    assert forall|k: int| 0 <= k < t2.len() implies #[trigger] t2[k] == (if k < p {
        t[k]
    } else if k == p {
        e
    } else {
        t[k - 1]
    }) by {
        if k > p {
            assert(t.insert(p, e)[(k - 1) + 1] == t[k - 1]);
        }
    }
    assert(!has_year(recs, y)) by {
        if has_year(recs, y) {
            let k = choose|k: int| 0 <= k < t.len() && t[k].0 == y;
            if k >= p {
                if k > p {
                    assert(t[p].0 < t[k].0);
                }
            }
        }
    }
    lemma_year_total_absent(recs, y, f);
    assert(field_value(rec, f) <= u64::MAX);
    assert forall|i: int, j: int| 0 <= i < j < t2.len() implies t2[i].0 < t2[j].0 by {
        assert(t2[i] == (if i < p {
            t[i]
        } else if i == p {
            e
        } else {
            t[i - 1]
        }));
        assert(t2[j] == (if j < p {
            t[j]
        } else if j == p {
            e
        } else {
            t[j - 1]
        }));
        if i > p {
            assert(t[i - 1].0 < t[j - 1].0);
        } else if i == p && j > p + 1 {
            assert(t[p].0 < t[j - 1].0);
        }
    }
    assert forall|k: int| 0 <= k < t2.len() implies has_year(next, #[trigger] t2[k].0)
        && t2[k].1 == year_total(next, t2[k].0, f) by {
        assert(t2[k] == (if k < p {
            t[k]
        } else if k == p {
            e
        } else {
            t[k - 1]
        }));
        if k != p {
            let j = if k < p {
                k
            } else {
                k - 1
            };
            assert(t[j].0 != y);
            assert(has_year(recs, t[j].0));
            assert(has_year(next, t[j].0));
            assert(year_total(next, t[j].0, f) == year_total(recs, t[j].0, f));
        } else {
            assert(has_year(next, y));
            assert(year_total(next, y, f) == year_total(recs, y, f) + field_value(rec, f));
        }
    }
    assert forall|z: u16| #[trigger] has_year(next, z) implies exists|k: int|
        0 <= k < t2.len() && t2[k].0 == z by {
        if z == y {
            assert(t2[p] == e);
        } else {
            assert(has_year(recs, z));
            let k = choose|k: int| 0 <= k < t.len() && t[k].0 == z;
            if k < p {
                assert(t2[k] == t[k]);
            } else {
                assert(t2[k + 1] == t[k]);
            }
        }
    }
}

/// A log with fewer than two records has no distance, and so no consumption
/// either: both queries fail with `TooFewRecords` rather than give a number.
pub proof fn lemma_too_few_records(recs: Seq<Record>)
    requires
        recs.len() < 2,
    ensures
        kilometers_of(recs) == Err::<u32, StatsError>(StatsError::TooFewRecords),
        consumption_of(recs) == Err::<Fraction, StatsError>(StatsError::TooFewRecords),
{
}

/// Two ascending tables that list the same years list them at the same places.
proof fn lemma_same_years(t1: Seq<(u16, u128)>, t2: Seq<(u16, u128)>)
    requires
        years_ascending(t1),
        years_ascending(t2),
        forall|y: u16| lists_year(t1, y) <==> lists_year(t2, y),
    ensures
        t1.len() == t2.len(),
        forall|k: int| 0 <= k < t1.len() ==> (#[trigger] t1[k]).0 == t2[k].0,
    decreases t1.len(),
{
    if t1.len() == 0 {
        if t2.len() > 0 {
            assert(lists_year(t2, t2[0].0));
        }
    } else if t2.len() == 0 {
        assert(lists_year(t1, t1[0].0));
    } else {
        let n1 = t1.len() - 1;
        let n2 = t2.len() - 1;
        let y1 = t1[n1].0;
        let y2 = t2[n2].0;
        assert(lists_year(t1, y1));
        assert(lists_year(t2, y2));
        let k2 = choose|k: int| 0 <= k < t2.len() && (#[trigger] t2[k]).0 == y1;
        let k1 = choose|k: int| 0 <= k < t1.len() && (#[trigger] t1[k]).0 == y2;
        if k2 < n2 {
            assert(t2[k2].0 < t2[n2].0);
        }
        if k1 < n1 {
            assert(t1[k1].0 < t1[n1].0);
        }
        assert(y1 == y2);
        let d1 = t1.drop_last();
        let d2 = t2.drop_last();
        assert forall|y: u16| lists_year(d1, y) <==> lists_year(d2, y) by {
            if lists_year(d1, y) {
                let k = choose|k: int| 0 <= k < d1.len() && (#[trigger] d1[k]).0 == y;
                assert(t1[k].0 < t1[n1].0);
                assert(lists_year(t1, y));
                let j = choose|j: int| 0 <= j < t2.len() && (#[trigger] t2[j]).0 == y;
                assert(j != n2);
                assert(d2[j] == t2[j]);
            }
            if lists_year(d2, y) {
                let k = choose|k: int| 0 <= k < d2.len() && (#[trigger] d2[k]).0 == y;
                assert(t2[k].0 < t2[n2].0);
                assert(lists_year(t2, y));
                let j = choose|j: int| 0 <= j < t1.len() && (#[trigger] t1[j]).0 == y;
                assert(j != n1);
                assert(d1[j] == t1[j]);
            }
        }
        lemma_same_years(d1, d2);
        assert forall|k: int| 0 <= k < t1.len() implies (#[trigger] t1[k]).0 == t2[k].0 by {
            if k < n1 {
                assert(d1[k] == t1[k]);
                assert(d2[k] == t2[k]);
            }
        }
    }
}

/// A log has exactly one year table: any two tables that list the years of
/// `recs` once each, ascending, with their totals of `f`, are equal.
pub proof fn lemma_year_table_unique(
    t1: Seq<(u16, u128)>,
    t2: Seq<(u16, u128)>,
    recs: Seq<Record>,
    f: Field,
)
    requires
        is_year_table(t1, recs, f),
        is_year_table(t2, recs, f),
    ensures
        t1 == t2,
{
    assert forall|y: u16| lists_year(t1, y) <==> lists_year(t2, y) by {
        if lists_year(t1, y) {
            let k = choose|k: int| 0 <= k < t1.len() && (#[trigger] t1[k]).0 == y;
            assert(has_year(recs, t1[k].0));
            let j = choose|j: int| 0 <= j < t2.len() && t2[j].0 == y;
            assert(t2[j].0 == y);
        }
        if lists_year(t2, y) {
            let k = choose|k: int| 0 <= k < t2.len() && (#[trigger] t2[k]).0 == y;
            assert(has_year(recs, t2[k].0));
            let j = choose|j: int| 0 <= j < t1.len() && t1[j].0 == y;
            assert(t1[j].0 == y);
        }
    }
    lemma_same_years(t1, t2);
    assert forall|k: int| 0 <= k < t1.len() implies #[trigger] t1[k] == t2[k] by {
        assert(t1[k].0 == t2[k].0);
        assert(has_year(recs, t1[k].0));
        assert(has_year(recs, t2[k].0));
    }
    assert(t1 =~= t2);
}

/// The first position of `t` whose year is not below `y`.
fn year_slot(t: &Vec<(u16, u128)>, y: u16) -> (p: usize)
    ensures
        p <= t@.len(),
        forall|k: int| 0 <= k < p ==> t@[k].0 < y,
        p < t@.len() ==> t@[p as int].0 >= y,
{
    let mut p: usize = 0;
    while p < t.len() && t[p].0 < y
        invariant
            p <= t@.len(),
            forall|k: int| 0 <= k < p ==> t@[k].0 < y,
        decreases t.len() - p,
    {
        p += 1;
    }
    p
}

/// The records of a fuel log, in the order of the log; built once and only
/// queried afterwards.
#[derive(Debug)]
pub struct Statistics {
    data: Vec<Record>,
}

impl View for Statistics {
    type V = Seq<Record>;

    closed spec fn view(&self) -> Seq<Record> {
        self.data@
    }
}

impl Statistics {
    /// Holds `data` as the log, in the given order.
    pub fn from_records(data: Vec<Record>) -> (r: Statistics)
        ensures
            r@ == data@,
    {
        Statistics { data }
    }

    /// Reads every line of a log; the first line that cannot be read makes the
    /// whole log fail, and the error gives its number.
    pub fn new(lines: &[&str]) -> (r: Result<Statistics, LoadError>)
        ensures
            match r {
                Ok(s) => s@.len() == lines@.len() && forall|i: int|
                    0 <= i < lines@.len() ==> record_of(#[trigger] lines@[i].spec_bytes()) == Ok::<
                        Record,
                        ParseError,
                    >(s@[i]),
                Err(e) => 1 <= e.line <= lines@.len() && record_of(
                    lines@[e.line - 1].spec_bytes(),
                ) == Err::<Record, ParseError>(e.error) && forall|i: int|
                    0 <= i < e.line - 1 ==> record_of(#[trigger] lines@[i].spec_bytes()) is Ok,
            },
    {
        let mut data: Vec<Record> = Vec::new();
        let mut i: usize = 0;
        while i < lines.len()
            invariant
                i <= lines@.len(),
                data@.len() == i,
                forall|k: int|
                    0 <= k < i ==> record_of(#[trigger] lines@[k].spec_bytes()) == Ok::<
                        Record,
                        ParseError,
                    >(data@[k]),
            decreases lines.len() - i,
        {
            match Record::new(lines[i]) {
                Ok(rec) => data.push(rec),
                Err(error) => {
                    return Err(LoadError { line: i + 1, error });
                },
            }
            i += 1;
        }
        Ok(Statistics { data })
    }

    /// For each year that occurs in the log, in ascending order, the total of
    /// `f` over that year's records.
    pub fn get_years(&self, f: Field) -> (r: Vec<(u16, u128)>)
        ensures
            is_year_table(r@, self@, f),
    {
        let mut table: Vec<(u16, u128)> = Vec::new();
        let mut i: usize = 0;
        proof {
            assert(self.data@.take(0) =~= Seq::<Record>::empty());
        }
        while i < self.data.len()
            invariant
                i <= self.data@.len(),
                is_year_table(table@, self.data@.take(i as int), f),
            decreases self.data.len() - i,
        {
            let ghost prev = self.data@.take(i as int);
            let rec = &self.data[i];
            let y = rec.date.year;
            let v = f.of(rec);
            proof {
                assert(self.data@.take(i + 1) =~= prev.push(*rec));
            }
            let p = year_slot(&table, y);
            if p < table.len() && table[p].0 == y {
                let sum = table[p].1;
                proof {
                    lemma_year_total_bound(prev, y, f);
                    lemma_fits(i + 1);
                    lemma_table_add(table@, prev, *rec, f, p as int);
                }
                table.set(p, (y, sum + v as u128));
            } else {
                proof {
                    lemma_table_insert(table@, prev, *rec, f, p as int);
                }
                table.insert(p, (y, v as u128));
            }
            i += 1;
        }
        proof {
            assert(self.data@.take(i as int) =~= self.data@);
        }
        table
    }

    /// The distance driven: last odometer reading minus first, in log order.
    pub fn get_kilometers(&self) -> (r: Result<u32, StatsError>)
        ensures
            r == kilometers_of(self@),
    {
        let n = self.data.len();
        if n < 2 {
            return Err(StatsError::TooFewRecords);
        }
        let first = self.data[0].km;
        let last = self.data[n - 1].km;
        if last < first {
            return Err(StatsError::OdometerDecreased);
        }
        Ok(last - first)
    }

    /// Liters per 100 km, leaving out the liters of the last fill.
    pub fn get_consumption(&self) -> (r: Result<Fraction, StatsError>)
        ensures
            r == consumption_of(self@),
    {
        let km = match self.get_kilometers() {
            Ok(km) => km,
            Err(e) => return Err(e),
        };
        if km == 0 {
            return Err(StatsError::ZeroDistance);
        }
        let liters = self.get_total(Field::Liters);
        let last = self.data[self.data.len() - 1].liter;
        Ok(Fraction { num: liters - last as u128, den: 10 * km as u128 })
    }

    /// The total of `f` over all records.
    pub fn get_total(&self, f: Field) -> (r: u128)
        ensures
            r == total(self@, f),
    {
        let mut sum: u128 = 0;
        let mut i: usize = 0;
        proof {
            assert(self.data@.take(0) =~= Seq::<Record>::empty());
        }
        while i < self.data.len()
            invariant
                i <= self.data@.len(),
                sum == total(self.data@.take(i as int), f),
            decreases self.data.len() - i,
        {
            proof {
                assert(self.data@.take(i + 1).drop_last() =~= self.data@.take(i as int));
                lemma_total_bound(self.data@.take(i as int), f);
                lemma_fits(i + 1);
            }
            sum = sum + f.of(&self.data[i]) as u128;
            i += 1;
        }
        proof {
            assert(self.data@.take(i as int) =~= self.data@);
        }
        sum
    }

    /// The overall price per liter: total cost over total liters.
    pub fn get_average(&self) -> (r: Result<Fraction, StatsError>)
        ensures
            r == average_of(self@),
    {
        let liters = self.get_total(Field::Liters);
        if liters == 0 {
            return Err(StatsError::ZeroLiters);
        }
        let costs = self.get_total(Field::Costs);
        Ok(Fraction { num: costs, den: liters })
    }
}

} // verus!
