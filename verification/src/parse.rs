//! Turning one raw input line into a `(key, value)` record.
//!
//! A line is `<key>;<value>`: the key is everything before the first `;`,
//! the value a decimal number in tenths, `-?digits` or `-?digits.digit`.
//! A line without a separator is a format error; one whose second field is
//! not such a number, or does not fit the value range, is a value error.
//! Parsing is a pure function of the line's bytes.

use vstd::prelude::*;

verus! {

/// The field separator `;`.
pub const SEMI: u8 = 59;

/// The sign `-`.
pub const MINUS: u8 = 45;

/// The decimal point `.`.
pub const DOT: u8 = 46;

/// The digit `0`.
pub const D0: u8 = 48;

/// The digit `9`.
pub const D9: u8 = 57;

/// One past the greatest magnitude (in tenths) that any value may have:
/// a negative value may reach `-2^63`, a positive one `2^63 - 1`.
pub const CAP: u128 = 9223372036854775809;

/// `2^63`, the magnitude of the least representable value.
pub const POW63: u128 = 9223372036854775808;

/// A parsed line: the key's bytes and the value in tenths.
#[derive(Debug)]
pub struct Record {
    pub key: Vec<u8>,
    pub value: i64,
}

/// Why a line was rejected: no separator, or a second field that is not a
/// number in range.
#[derive(Debug)]
pub enum ParseError {
    Format,
    Value,
}

/// Is `b` an ASCII digit?
pub open spec fn is_digit(b: u8) -> bool {
    D0 <= b && b <= D9
}

/// Is every byte of `s` an ASCII digit?
pub open spec fn all_digits(s: Seq<u8>) -> bool {
    forall|i: int| 0 <= i < s.len() ==> is_digit(s[i])
}

/// The number written by a sequence of digits, most significant first.
pub open spec fn digits_val(s: Seq<u8>) -> int
    decreases s.len(),
{
    if s.len() == 0 {
        0
    } else {
        digits_val(s.drop_last()) * 10 + (s.last() - D0)
    }
}

/// The magnitude in tenths written by an unsigned value field: either all
/// digits, or digits, a point, and exactly one fractional digit.
pub open spec fn tenths_of(body: Seq<u8>) -> Option<int> {
    if body.len() > 0 && all_digits(body) {
        Some(10 * digits_val(body))
    } else if body.len() >= 3 && body[body.len() - 2] == DOT && is_digit(body[body.len() - 1])
        && all_digits(body.take(body.len() - 2)) {
        Some(10 * digits_val(body.take(body.len() - 2)) + (body[body.len() - 1] - D0))
    } else {
        None
    }
}

/// The signed value in tenths written by a value field, before any range
/// check.
pub open spec fn value_of(s: Seq<u8>) -> Option<int> {
    if s.len() > 0 && s[0] == MINUS {
        match tenths_of(s.skip(1)) {
            Some(v) => Some(-v),
            None => None,
        }
    } else {
        tenths_of(s)
    }
}

/// The value in tenths written by a value field, if it is well formed and
/// representable.
pub open spec fn spec_parse_value(s: Seq<u8>) -> Option<int> {
    match value_of(s) {
        Some(v) => if i64::MIN as int <= v && v <= i64::MAX as int {
            Some(v)
        } else {
            None
        },
        None => None,
    }
}

/// The index of the first `;` in `s`, if any.
pub open spec fn first_semi(s: Seq<u8>) -> Option<int>
    decreases s.len(),
{
    if s.len() == 0 {
        None
    } else if s[0] == SEMI {
        Some(0)
    } else {
        match first_semi(s.skip(1)) {
            Some(i) => Some(i + 1),
            None => None,
        }
    }
}

/// What one line denotes: the key before the first separator and the parsed
/// value after it, or nothing if the line is malformed.
pub open spec fn spec_parse_line(s: Seq<u8>) -> Option<(Seq<u8>, int)> {
    match first_semi(s) {
        None => None,
        Some(i) => match spec_parse_value(s.skip(i + 1)) {
            None => None,
            Some(v) => Some((s.take(i), v)),
        },
    }
}

/// `first_semi` returns the least index holding a `;`, or reports that there
/// is none.
pub proof fn lemma_first_semi(s: Seq<u8>)
    ensures
        match first_semi(s) {
            Some(i) => 0 <= i < s.len() && s[i] == SEMI && forall|j: int|
                0 <= j < i ==> s[j] != SEMI,
            None => forall|j: int| 0 <= j < s.len() ==> s[j] != SEMI,
        },
    decreases s.len(),
{
    if s.len() > 0 && s[0] != SEMI {
        let t = s.skip(1);
        lemma_first_semi(t);
        match first_semi(t) {
            Some(i) => {
                assert(s[i + 1] == t[i]);
                assert forall|j: int| 0 <= j < i + 1 implies s[j] != SEMI by {
                    if j > 0 {
                        assert(t[j - 1] != SEMI);
                        assert(s[j] == t[j - 1]);
                    }
                }
            },
            None => {
                assert forall|j: int| 0 <= j < s.len() implies s[j] != SEMI by {
                    if j > 0 {
                        assert(t[j - 1] != SEMI);
                        assert(s[j] == t[j - 1]);
                    }
                }
            },
        }
    }
}

/// A sequence of digits denotes a nonnegative number.
pub proof fn lemma_digits_val_nonneg(s: Seq<u8>)
    requires
        all_digits(s),
    ensures
        digits_val(s) >= 0,
    decreases s.len(),
{
    if s.len() > 0 {
        lemma_digits_val_nonneg(s.drop_last());
    }
}

/// `x` cut off just above the greatest representable magnitude.  The
/// executable parser accumulates this instead of the exact magnitude, which
/// keeps it in bounds while still deciding representability exactly.
pub open spec fn capped(x: int) -> int {
    if x > CAP as int {
        CAP as int
    } else {
        x
    }
}

/// Parse the value field that starts at `start`, yielding exactly what the
/// field denotes whenever that is representable.
#[verifier::loop_isolation(false)]
#[verifier::rlimit(60)]
fn parse_value_from(line: &Vec<u8>, start: usize) -> (r: Option<i64>)
    requires
        start <= line@.len(),
    ensures
        match r {
            Some(v) => spec_parse_value(line@.skip(start as int)) == Some(v as int),
            None => spec_parse_value(line@.skip(start as int)) is None,
        },
{
    let ghost s = line@.skip(start as int);
    let len = line.len();
    let neg = start < len && line[start] == MINUS;
    let p = if neg {
        start + 1
    } else {
        start
    };
    let ghost body = line@.skip(p as int);
    proof {
        if neg {
            assert(s.skip(1) =~= body);
        }
    }
    let body_len = len - p;
    let has_dot = body_len >= 3 && line[len - 2] == DOT;
    let digits_end = if has_dot {
        len - 2
    } else {
        len
    };
    if digits_end <= p {
        // the field has no integer digits at all
        assert(body.len() == 0);
        return None;
    }
    let ghost ipart = body.take(digits_end as int - p as int);
    let mut acc: u128 = 0;
    let mut i = p;
    while i < digits_end
        invariant
            p <= i <= digits_end <= len,
            len == line@.len(),
            p <= len,
            body == line@.skip(p as int),
            all_digits(body.take(i as int - p as int)),
            acc as int == capped(digits_val(body.take(i as int - p as int))),
            acc <= CAP,
        decreases digits_end - i,
    {
        let b = line[i];
        if b < D0 || b > D9 {
            // a non-digit inside the integer part: no shape matches
            proof {
                let idx = i as int - p as int;
                assert(body[idx] == line@[i as int]);
                assert(!is_digit(body[idx]));
                assert(!all_digits(body));
                if has_dot {
                    let t = body.take(body.len() - 2);
                    assert(t[idx] == body[idx]);
                    assert(!all_digits(t));
                } else {
                    assert(!(body.len() >= 3 && body[body.len() - 2] == DOT));
                }
            }
            return None;
        }
        let d = (b - D0) as u128;
        let t = acc * 10 + d;
        let acc2 = if t > CAP {
            CAP
        } else {
            t
        };
        proof {
            let pre = body.take(i as int - p as int);
            let post = body.take(i as int + 1 - p as int);
            assert(post =~= pre.push(line@[i as int]));
            assert(post.drop_last() =~= pre);
            assert(digits_val(post) == digits_val(pre) * 10 + (b - D0));
            let dvt = digits_val(pre);
            if dvt > CAP as int {
                assert(digits_val(post) > CAP as int);
            }
            assert(acc2 as int == capped(digits_val(post)));
        }
        acc = acc2;
        i = i + 1;
    }
    assert(ipart == body.take(i as int - p as int));
    proof {
        lemma_digits_val_nonneg(ipart);
    }
    // fold in the fractional digit (0 when there is none)
    let mag: u128;
    let ghost v = if has_dot {
        10 * digits_val(ipart) + (line@[len - 1] - D0)
    } else {
        10 * digits_val(ipart)
    };
    if has_dot {
        let fb = line[len - 1];
        if fb < D0 || fb > D9 {
            // the fractional position does not hold a digit
            assert(body[body.len() - 2] == DOT);
            assert(!is_digit(DOT));
            assert(!all_digits(body));
            assert(body[body.len() - 1] == line@[len - 1]);
            return None;
        }
        let t = acc * 10 + (fb - D0) as u128;
        mag = if t > CAP {
            CAP
        } else {
            t
        };
        proof {
            assert(v == 10 * digits_val(ipart) + (fb - D0));
            if digits_val(ipart) > CAP as int {
                assert(v > CAP as int);
            }
            assert(mag as int == capped(v));
        }
    } else {
        let t = acc * 10;
        mag = if t > CAP {
            CAP
        } else {
            t
        };
        proof {
            if digits_val(ipart) > CAP as int {
                assert(v > CAP as int);
            }
            assert(mag as int == capped(v));
        }
    }
    proof {
        // the spec shape that applies, and the magnitude it denotes
        if has_dot {
            assert(body[body.len() - 2] == line@[len - 2]);
            assert(body[body.len() - 1] == line@[len - 1]);
            assert(body.take(body.len() - 2) =~= ipart);
            assert(!all_digits(body));
            assert(tenths_of(body) == Some(v));
        } else {
            assert(body =~= ipart);
            assert(tenths_of(body) == Some(v));
        }
        assert(v >= 0);
        if neg {
            assert(value_of(s) == Some(-v));
        } else {
            assert(value_of(s) == Some(v));
        }
    }
    if neg {
        if mag <= POW63 {
            let m = mag as i128;
            assert(-v >= i64::MIN as int && -v <= i64::MAX as int);
            Some((-m) as i64)
        } else {
            assert(v > POW63 as int);
            None
        }
    } else {
        if mag <= (POW63 - 1) {
            assert(v <= i64::MAX as int);
            Some(mag as i64)
        } else {
            assert(v > i64::MAX as int);
            None
        }
    }
}

/// Split a line at its first `;` and parse the value field.  Returns the
/// record a well-formed line denotes; `Format` exactly when the line has no
/// separator, `Value` exactly when it has one but the second field is not a
/// representable number.
#[verifier::loop_isolation(false)]
pub fn parse_line(line: &Vec<u8>) -> (r: Result<Record, ParseError>)
    ensures
        match r {
            Ok(rec) => spec_parse_line(line@) == Some((rec.key@, rec.value as int)),
            Err(ParseError::Format) => spec_parse_line(line@) is None && first_semi(line@) is None,
            Err(ParseError::Value) => spec_parse_line(line@) is None && first_semi(line@) is Some,
        },
{
    let n = line.len();
    let mut i: usize = 0;
    while i < n && line[i] != SEMI
        invariant
            i <= n,
            n == line@.len(),
            forall|j: int| 0 <= j < i ==> line@[j] != SEMI,
        decreases n - i,
    {
        i = i + 1;
    }
    proof {
        lemma_first_semi(line@);
    }
    if i == n {
        return Err(ParseError::Format);
    }
    assert(first_semi(line@) == Some(i as int));
    match parse_value_from(line, i + 1) {
        None => Err(ParseError::Value),
        Some(v) => {
            let mut key: Vec<u8> = Vec::new();
            let mut j: usize = 0;
            while j < i
                invariant
                    j <= i < n,
                    n == line@.len(),
                    key@ =~= line@.take(i as int).take(j as int),
                decreases i - j,
            {
                key.push(line[j]);
                proof {
                    assert(line@.take(i as int).take(j as int + 1) =~= line@.take(
                        i as int,
                    ).take(j as int).push(line@[j as int]));
                }
                j = j + 1;
            }
            assert(key@ =~= line@.take(i as int));
            Ok(Record { key, value: v })
        },
    }
}

} // verus!
