//! Byte-level text helpers: splitting at a separator and reading decimal digits.

use vstd::prelude::*;
use vstd::slice::slice_subrange;

verus! {

/// The horizontal tab that separates the fields of a log line.
pub const TAB: u8 = 9;

/// The point that separates the parts of a date and the decimal places.
pub const DOT: u8 = 46;

/// The decimal comma.
pub const COMMA: u8 = 44;

/// An optional sign in front of a number.
pub const PLUS: u8 = 43;

/// The pieces of `s` between occurrences of `sep`, in order; `n` separators
/// give `n + 1` pieces, some of which may be empty.
pub open spec fn split_fields(s: Seq<u8>, sep: u8) -> Seq<Seq<u8>>
    decreases s.len(),
{
    if s.len() == 0 {
        seq![Seq::empty()]
    } else {
        let fields = split_fields(s.drop_last(), sep);
        if s.last() == sep {
            fields.push(Seq::empty())
        } else {
            fields.update(fields.len() - 1, fields.last().push(s.last()))
        }
    }
}

pub open spec fn is_digit(b: u8) -> bool {
    48 <= b <= 57
}

pub open spec fn all_digits(s: Seq<u8>) -> bool {
    forall|i: int| 0 <= i < s.len() ==> is_digit(#[trigger] s[i])
}

/// The number that a sequence of decimal digits denotes.
pub open spec fn digits_value(s: Seq<u8>) -> nat
    decreases s.len(),
{
    if s.len() == 0 {
        0
    } else {
        digits_value(s.drop_last()) * 10 + (s.last() - 48) as nat
    }
}

/// `s` without one leading plus sign, if it has one.
pub open spec fn unsigned_body(s: Seq<u8>) -> Seq<u8> {
    if s.len() > 0 && s[0] == PLUS {
        s.skip(1)
    } else {
        s
    }
}

/// The value of an unsigned integer written as an optional `+` and one or
/// more decimal digits, if it is at most `max`.
pub open spec fn unsigned_of(s: Seq<u8>, max: nat) -> Option<nat> {
    let d = unsigned_body(s);
    if d.len() > 0 && all_digits(d) && digits_value(d) <= max {
        Some(digits_value(d))
    } else {
        None
    }
}

/// Splitting always yields at least one piece.
proof fn lemma_split_nonempty(s: Seq<u8>, sep: u8)
    ensures
        split_fields(s, sep).len() >= 1,
    decreases s.len(),
{
    if s.len() > 0 {
        lemma_split_nonempty(s.drop_last(), sep);
    }
}

/// A prefix of a digit sequence denotes at most the value of the whole.
proof fn lemma_prefix_value_le(s: Seq<u8>, j: int)
    requires
        0 <= j <= s.len(),
        all_digits(s),
    ensures
        digits_value(s.take(j)) <= digits_value(s),
    decreases s.len(),
{
    if j < s.len() {
        assert(s.drop_last().take(j) =~= s.take(j));
        lemma_prefix_value_le(s.drop_last(), j);
    } else {
        assert(s.take(j) =~= s);
    }
}

/// Splits `s` at every `sep`, as `split_fields` describes.
pub(crate) fn split_bytes(s: &[u8], sep: u8) -> (r: Vec<Vec<u8>>)
    ensures
        r@.len() == split_fields(s@, sep).len(),
        forall|k: int| 0 <= k < r@.len() ==> #[trigger] r@[k]@ == split_fields(s@, sep)[k],
{
    let mut fields: Vec<Vec<u8>> = Vec::new();
    let mut cur: Vec<u8> = Vec::new();
    let mut i: usize = 0;
    proof {
        assert(s@.take(0) =~= Seq::<u8>::empty());
    }
    while i < s.len()
        invariant
            i <= s@.len(),
            fields@.len() + 1 == split_fields(s@.take(i as int), sep).len(),
            forall|k: int|
                0 <= k < fields@.len() ==> #[trigger] fields@[k]@ == split_fields(
                    s@.take(i as int),
                    sep,
                )[k],
            cur@ == split_fields(s@.take(i as int), sep).last(),
        decreases s.len() - i,
    {
        let ghost before = s@.take(i as int);
        proof {
            assert(s@.take(i + 1).drop_last() =~= before);
            lemma_split_nonempty(before, sep);
        }
        if s[i] == sep {
            fields.push(cur);
            cur = Vec::new();
        } else {
            cur.push(s[i]);
        }
        i += 1;
        proof {
            let after = split_fields(s@.take(i as int), sep);
            assert(cur@ =~= after.last());
        }
    }
    proof {
        assert(s@.take(i as int) =~= s@);
    }
    fields.push(cur);
    fields
}

/// Reads `s` as decimal digits whose value is at most `max`.
pub(crate) fn parse_digits(s: &[u8], max: u64) -> (r: Option<u64>)
    ensures
        r matches Some(v) ==> all_digits(s@) && v == digits_value(s@) && v <= max,
        r is None ==> !(all_digits(s@) && digits_value(s@) <= max),
{
    let mut acc: u64 = 0;
    let mut i: usize = 0;
    proof {
        assert(s@.take(0) =~= Seq::<u8>::empty());
    }
    while i < s.len()
        invariant
            i <= s@.len(),
            all_digits(s@.take(i as int)),
            acc == digits_value(s@.take(i as int)),
            acc <= max,
        decreases s.len() - i,
    {
        let b = s[i];
        proof {
            assert(s@.take(i + 1).drop_last() =~= s@.take(i as int));
        }
        if b < 48 || b > 57 {
            return None;
        }
        let next: u128 = (acc as u128) * 10 + (b - 48) as u128;
        if next > max as u128 {
            proof {
                if all_digits(s@) {
                    lemma_prefix_value_le(s@, i + 1);
                }
            }
            return None;
        }
        acc = next as u64;
        i += 1;
        proof {
            assert forall|k: int| 0 <= k < i implies is_digit(#[trigger] s@.take(i as int)[k]) by {
                if k < i - 1 {
                    assert(s@.take(i as int)[k] == s@.take(i - 1)[k]);
                }
            }
        }
    }
    proof {
        assert(s@.take(i as int) =~= s@);
    }
    Some(acc)
}

/// `s` without a leading plus sign, as `unsigned_body` describes.
fn strip_plus(s: &[u8]) -> (r: &[u8])
    ensures
        r@ == unsigned_body(s@),
{
    if s.len() > 0 && s[0] == PLUS {
        let r = slice_subrange(s, 1, s.len());
        assert(r@ =~= s@.skip(1));
        r
    } else {
        s
    }
}

/// Reads `s` as an unsigned integer, as `unsigned_of` describes.
pub(crate) fn parse_unsigned(s: &[u8], max: u64) -> (r: Option<u64>)
    ensures
        r matches Some(v) ==> unsigned_of(s@, max as nat) == Some(v as nat),
        r is None ==> unsigned_of(s@, max as nat) is None,
{
    let body = strip_plus(s);
    if body.len() == 0 {
        return None;
    }
    parse_digits(body, max)
}

/// `s` with every decimal comma turned into a point.
pub open spec fn commas_to_points(s: Seq<u8>) -> Seq<u8> {
    s.map_values(|b: u8| if b == COMMA { DOT } else { b })
}

/// What one unit of the last decimal place is worth in thousandths.
pub open spec fn place_scale(places: nat) -> nat {
    if places == 0 {
        1000
    } else if places == 1 {
        100
    } else if places == 2 {
        10
    } else {
        1
    }
}

/// The value, in thousandths, of a decimal number written as an optional `+`,
/// digits, and optionally a decimal comma or point followed by at most three
/// decimal places; at least one digit in all, and the value fits in a `u64`.
pub open spec fn milli_of(s: Seq<u8>) -> Option<nat> {
    let parts = split_fields(commas_to_points(unsigned_body(s)), DOT);
    let whole = parts[0];
    let frac = if parts.len() == 2 {
        parts[1]
    } else {
        Seq::empty()
    };
    let v = digits_value(whole) * 1000 + digits_value(frac) * place_scale(frac.len());
    if parts.len() <= 2 && all_digits(whole) && all_digits(frac) && whole.len() + frac.len() > 0
        && frac.len() <= 3 && v <= u64::MAX {
        Some(v)
    } else {
        None
    }
}

/// Reads `s` as a decimal number in thousandths, as `milli_of` describes.
pub(crate) fn parse_milli(s: &[u8]) -> (r: Option<u64>)
    ensures
        r matches Some(v) ==> milli_of(s@) == Some(v as nat),
        r is None ==> milli_of(s@) is None,
{
    let body = strip_plus(s);
    let mut norm: Vec<u8> = Vec::new();
    let mut i: usize = 0;
    while i < body.len()
        invariant
            i <= body@.len(),
            norm@.len() == i,
            forall|k: int|
                0 <= k < i ==> #[trigger] norm@[k] == (if body@[k] == COMMA {
                    DOT
                } else {
                    body@[k]
                }),
        decreases body.len() - i,
    {
        if body[i] == COMMA {
            norm.push(DOT);
        } else {
            norm.push(body[i]);
        }
        i += 1;
    }
    assert(norm@ =~= commas_to_points(unsigned_body(s@)));
    let parts = split_bytes(norm.as_slice(), DOT);
    proof {
        lemma_split_nonempty(norm@, DOT);
    }
    if parts.len() > 2 {
        return None;
    }
    let empty: Vec<u8> = Vec::new();
    let whole: &Vec<u8> = &parts[0];
    let frac: &Vec<u8> = if parts.len() == 2 {
        &parts[1]
    } else {
        &empty
    };
    assert(empty@ =~= Seq::<u8>::empty());
    if (whole.len() == 0 && frac.len() == 0) || frac.len() > 3 {
        return None;
    }
    let w = match parse_digits(whole.as_slice(), u64::MAX) {
        Some(w) => w,
        None => return None,
    };
    let f = match parse_digits(frac.as_slice(), u64::MAX) {
        Some(f) => f,
        None => {
            proof {
                let dv = digits_value(frac@);
                let sc = place_scale(frac@.len());
                assert(sc >= 1);
                assert(dv * sc >= dv) by (nonlinear_arith)
                    requires
                        sc >= 1,
                ;
            }
            return None;
        },
    };
    let scale: u128 = if frac.len() == 0 {
        1000
    } else if frac.len() == 1 {
        100
    } else if frac.len() == 2 {
        10
    } else {
        1
    };
    let v: u128 = (w as u128) * 1000 + (f as u128) * scale;
    if v > u64::MAX as u128 {
        return None;
    }
    Some(v as u64)
}

} // verus!
