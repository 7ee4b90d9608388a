//! Cell addresses: one or two ASCII letters followed by one to three
//! digits, the first digit non-zero (`A1`, `ab42`, `ZZ999`).

use vstd::prelude::*;
use crate::chars::{
    all_digits, digits_value, is_digit_char, is_letter_char, is_nonzero_digit_char,
    lemma_digits_value_bound, pow10, str_to_chars,
};

verus! {

/// The address text did not match the address grammar.
#[derive(Debug, Clone, Copy)]
pub struct InvalidReference;

/// A grid position, stored as its letter bytes and row number. Equality and
/// ordering are structural; letters keep their case.
#[derive(Clone, Copy, Debug, Hash, PartialEq, Eq, Structural)]
pub struct Reference {
    /// The first letter of the column part.
    pub first: u8,
    /// The second letter of the column part, or 0 when there is only one.
    pub second: u8,
    /// The row number, between 1 and 999.
    pub number: u16,
}

/// How many leading letters the address grammar takes from `s`: at most two.
pub open spec fn letter_count(s: Seq<char>) -> int {
    if s.len() >= 1 && is_letter_char(s[0]) {
        if s.len() >= 2 && is_letter_char(s[1]) {
            2
        } else {
            1
        }
    } else {
        0
    }
}

/// Whether `s` is a well-formed cell address: one or two letters, then one
/// to three digits, the first digit non-zero, and nothing else.
pub open spec fn is_reference_text(s: Seq<char>) -> bool {
    let k = letter_count(s);
    &&& 1 <= k
    &&& k < s.len() <= k + 3
    &&& is_nonzero_digit_char(s[k])
    &&& forall|i: int| k < i < s.len() ==> is_digit_char(s[i])
}

/// The reference a well-formed address text denotes.
pub open spec fn spec_reference_of(s: Seq<char>) -> Reference {
    let k = letter_count(s);
    Reference {
        first: s[0] as u8,
        second: if k == 2 {
            s[1] as u8
        } else {
            0
        },
        number: digits_value(s.skip(k)) as u16,
    }
}

impl Reference {
    /// What `from_str` guarantees of every reference it returns.
    pub open spec fn wf(self) -> bool {
        &&& is_letter_char(self.first as char)
        &&& self.second == 0 || is_letter_char(self.second as char)
        &&& 1 <= self.number <= 999
    }

    /// A sort key that orders references by first letter, then second
    /// letter (one-letter columns before any second letter), then number.
    pub open spec fn spec_key(self) -> int {
        (self.first * 256 + self.second) * 65536 + self.number
    }

    pub fn key(&self) -> (k: u64)
        ensures
            k == self.spec_key(),
    {
        ((self.first as u64) * 256 + (self.second as u64)) * 65536 + (self.number as u64)
    }

    /// Distinct references have distinct sort keys.
    pub proof fn lemma_key_injective(a: Reference, b: Reference)
        requires
            a.spec_key() == b.spec_key(),
        ensures
            a == b,
    {
    }

    /// Parses an address text, accepting exactly the address grammar.
    pub fn from_str(text: &str) -> (r: Result<Reference, InvalidReference>)
        ensures
            r is Ok <==> is_reference_text(text@),
            r matches Ok(rr) ==> rr == spec_reference_of(text@) && rr.wf(),
    {
        let cs = str_to_chars(text);
        let n = cs.len();
        if n < 2 {
            return Err(InvalidReference);
        }
        let c0 = cs[0];
        if !((c0 >= 'A' && c0 <= 'Z') || (c0 >= 'a' && c0 <= 'z')) {
            return Err(InvalidReference);
        }
        let c1 = cs[1];
        let k: usize = if (c1 >= 'A' && c1 <= 'Z') || (c1 >= 'a' && c1 <= 'z') {
            2
        } else {
            1
        };
        proof {
            assert(letter_count(text@) == k);
        }
        if k >= n || n > k + 3 {
            return Err(InvalidReference);
        }
        let d0 = cs[k];
        if !(d0 >= '1' && d0 <= '9') {
            return Err(InvalidReference);
        }
        let ghost digits = text@.skip(k as int);
        let mut num: u32 = d0 as u32 - 48;
        let mut i: usize = k + 1;
        proof {
            assert(pow10(0) == 1);
            assert(pow10(1) == 10);
            assert(pow10(2) == 100);
            assert(pow10(3) == 1000);
            assert(digits.take(1).drop_last() =~= digits.take(0));
            assert(digits_value(digits.take(0)) == 0);
            assert(digits.take(1).last() == digits[0]);
            assert(num == digits_value(digits.take(1)));
        }
        while i < n
            invariant
                k + 1 <= i <= n <= k + 3,
                n == text@.len(),
                cs@ == text@,
                digits == text@.skip(k as int),
                digits.len() == n - k,
                forall|j: int| 0 <= j < digits.len() ==> digits[j] == text@[j + k],
                all_digits(digits.take(i - k)),
                num == digits_value(digits.take(i - k)),
                1 <= num,
            decreases n - i,
        {
            let c = cs[i];
            if !(c >= '0' && c <= '9') {
                assert(!is_digit_char(text@[i as int]));
                return Err(InvalidReference);
            }
            proof {
                assert(digits.take(i - k + 1).drop_last() =~= digits.take(i - k));
                assert(digits.take(i - k + 1).last() == digits[i - k]);
                lemma_digits_value_bound(digits.take(i - k));
                assert(digits_value(digits.take(i - k)) < pow10((i - k) as nat));
                assert(pow10(0) == 1);
                assert(pow10(1) == 10);
                assert(pow10(2) == 100);
            }
            num = num * 10 + (c as u32 - 48);
            i = i + 1;
        }
        proof {
            assert(digits.take(n - k) =~= digits);
            lemma_digits_value_bound(digits);
            assert(pow10(0) == 1);
            assert(pow10(1) == 10);
            assert(pow10(2) == 100);
            assert(pow10(3) == 1000);
            assert(digits_value(digits) == num);
        }
        let second: u8 = if k == 2 {
            c1 as u8
        } else {
            0
        };
        proof {
            assert(forall|i2: int| k < i2 < n ==> is_digit_char(#[trigger] text@[i2])) by {
                assert(forall|i2: int| k < i2 < n ==> #[trigger] text@[i2] == digits[i2 - k]);
            }
            assert(is_reference_text(text@));
            assert(c0 as u8 as char == c0);
            assert(k == 2 ==> c1 as u8 as char == c1);
            assert(num <= 999);
        }
        Ok(Reference { first: c0 as u8, second, number: num as u16 })
    }
}

} // verus!
