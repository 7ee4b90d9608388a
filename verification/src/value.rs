//! The values a cell can hold, the evaluation errors, and the parser that
//! turns literal (non-formula) cell text into a value.

use vstd::prelude::*;
use crate::chars::{
    all_digits, all_spaces, digit_value, digits_value, is_digit_char, is_space_char,
    lemma_digits_value_prefix, str_to_chars,
};

verus! {

/// Why a cell's value could not be computed.
#[derive(Clone, Copy, Debug, PartialEq, Eq, Structural)]
pub enum EvaluationError {
    /// The formula text did not lex or parse.
    ParseError,
    /// An operand was not numeric where a number was required.
    IncompatibleTypes,
    /// The divisor of a division was zero.
    DivisionByZero,
    /// The dependency graph contains a cycle, so no recalculation order exists.
    CyclicDependency,
}

pub type EvaluationResult = Result<Value, EvaluationError>;

/// A storable cell value.
#[derive(Debug, PartialEq)]
pub enum Value {
    /// The default for a cell never written or whose input text is blank.
    Empty,
    Integer(i64),
    Text(String),
}

/// The mathematical model of a [`Value`]: text is abstracted to its
/// character sequence.
pub enum ValueModel {
    Empty,
    Integer(i64),
    Text(Seq<char>),
}

impl View for Value {
    type V = ValueModel;

    open spec fn view(&self) -> ValueModel {
        match self {
            Value::Empty => ValueModel::Empty,
            Value::Integer(x) => ValueModel::Integer(*x),
            Value::Text(s) => ValueModel::Text(s@),
        }
    }
}

impl Clone for Value {
    fn clone(&self) -> (r: Self)
        ensures
            r@ == self@,
    {
        match self {
            Value::Empty => Value::Empty,
            Value::Integer(x) => Value::Integer(*x),
            Value::Text(s) => Value::Text(s.clone()),
        }
    }
}

impl Default for Value {
    /// The value of a cell never written: empty.
    fn default() -> (v: Value)
        ensures
            v@ == ValueModel::Empty,
    {
        Value::Empty
    }
}

/// The model of a `Result<Value, EvaluationError>`.
pub open spec fn result_view(r: EvaluationResult) -> Result<ValueModel, EvaluationError> {
    match r {
        Ok(v) => Ok(v@),
        Err(e) => Err(e),
    }
}

/// A signed decimal integer literal as `i64::from_str` accepts it: an
/// optional `+` or `-` sign followed by one or more decimal digits, denoting
/// a value in the range of `i64`.
pub open spec fn spec_parse_integer(s: Seq<char>) -> Option<i64> {
    let negative = s.len() > 0 && s[0] == '-';
    let ds = if s.len() > 0 && (s[0] == '+' || s[0] == '-') {
        s.skip(1)
    } else {
        s
    };
    if ds.len() > 0 && all_digits(ds) {
        let v = if negative {
            -digits_value(ds)
        } else {
            digits_value(ds)
        };
        if i64::MIN <= v <= i64::MAX {
            Some(v as i64)
        } else {
            None
        }
    } else {
        None
    }
}

/// What literal (non-formula) cell text denotes: blank text denotes the
/// empty value, a decimal integer in range denotes an integer, and anything
/// else is kept as text.
pub open spec fn spec_literal_value(s: Seq<char>) -> ValueModel {
    if all_spaces(s) {
        ValueModel::Empty
    } else {
        match spec_parse_integer(s) {
            Some(v) => ValueModel::Integer(v),
            None => ValueModel::Text(s),
        }
    }
}

/// Parses the digits of `v` from `start` on as a decimal magnitude, as
/// `spec_parse_integer` prescribes for the signed value.
fn parse_integer_chars(v: &Vec<char>) -> (r: Option<i64>)
    ensures
        r == spec_parse_integer(v@),
{
    let n = v.len();
    if n == 0 {
        return None;
    }
    let c0 = v[0];
    let negative = c0 == '-';
    let start: usize = if c0 == '+' || c0 == '-' {
        1
    } else {
        0
    };
    if start == n {
        return None;
    }
    let ghost ds = if start == 1 { v@.skip(1) } else { v@ };
    // The largest magnitude that still fits: one more for `-` because
    // `i64::MIN` is one further from zero than `i64::MAX`.
    let limit: u64 = if negative {
        9223372036854775808u64
    } else {
        9223372036854775807u64
    };
    let mut acc: u64 = 0;
    let mut j: usize = start;
    while j < n
        invariant
            start <= j <= n,
            0 < n == v@.len(),
            start == 0 || start == 1,
            (start == 1) == (v@[0] == '+' || v@[0] == '-'),
            negative == (v@[0] == '-'),
            limit == if negative { 9223372036854775808u64 } else { 9223372036854775807u64 },
            ds == if start == 1 { v@.skip(1) } else { v@ },
            ds.len() == n - start,
            ds.len() > 0,
            forall|i: int| 0 <= i < ds.len() ==> ds[i] == v@[i + start],
            all_digits(ds.take(j - start)),
            acc == digits_value(ds.take(j - start)),
            acc <= limit,
        decreases n - j,
    {
        let c = v[j];
        if !(c >= '0' && c <= '9') {
            assert(!is_digit_char(ds[j - start]));
            return None;
        }
        let d: u64 = (c as u32 - 48) as u64;
        assert(d == digit_value(c));
        let ghost prefix = ds.take(j + 1 - start);
        proof {
            assert(prefix.drop_last() =~= ds.take(j - start));
            assert(prefix.last() == ds[j - start]);
            assert(digits_value(prefix) == acc * 10 + d);
            assert(all_digits(prefix));
        }
        let grown = match acc.checked_mul(10) {
            Some(t) => t.checked_add(d),
            None => None,
        };
        match grown {
            Some(next) if next <= limit => {
                acc = next;
            },
            _ => {
                // The magnitude already exceeds the range, so the full
                // literal cannot denote an `i64` either.
                proof {
                    assert(digits_value(prefix) > limit);
                    if all_digits(ds) {
                        lemma_digits_value_prefix(ds, j + 1 - start);
                        assert(digits_value(ds) > limit);
                    }
                }
                return None;
            },
        }
        j = j + 1;
    }
    proof {
        assert(ds.take(n - start) =~= ds);
    }
    if negative {
        if acc == 9223372036854775808u64 {
            Some(i64::MIN)
        } else {
            Some(-(acc as i64))
        }
    } else {
        Some(acc as i64)
    }
}

impl Value {
    /// Parses literal cell text. This never fails: text that is neither
    /// blank nor a decimal integer in range is kept verbatim as text.
    pub fn from_str(text: &str) -> (v: Value)
        ensures
            v@ == spec_literal_value(text@),
    {
        let cs = str_to_chars(text);
        let n = cs.len();
        let mut i: usize = 0;
        let mut spaces_only = true;
        while i < n
            invariant
                i <= n,
                n == cs.len(),
                cs@ == text@,
                spaces_only == all_spaces(text@.take(i as int)),
            decreases n - i,
        {
            let c = cs[i];
            let sp = c == ' ' || c == '\t' || c == '\n' || c == '\r';
            proof {
                assert(text@.take(i + 1).drop_last() =~= text@.take(i as int));
                assert(text@.take(i + 1).last() == text@[i as int]);
                if spaces_only && sp {
                    assert(all_spaces(text@.take(i + 1)));
                } else {
                    let w = if !spaces_only {
                        choose|k: int| 0 <= k < i && !is_space_char(text@.take(i as int)[k])
                    } else {
                        i as int
                    };
                    assert(!is_space_char(text@.take(i + 1)[w]));
                }
            }
            spaces_only = spaces_only && sp;
            i = i + 1;
        }
        proof {
            assert(text@.take(n as int) =~= text@);
        }
        if spaces_only {
            return Value::Empty;
        }
        match parse_integer_chars(&cs) {
            Some(x) => Value::Integer(x),
            None => Value::Text(text.to_owned()),
        }
    }
}

} // verus!
