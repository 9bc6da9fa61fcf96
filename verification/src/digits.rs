//! ASCII decimal digit strings and their values.
use vstd::prelude::*;

verus! {

pub open spec fn is_digit(b: u8) -> bool {
    0x30 <= b <= 0x39
}

/// Every byte of `s` is an ASCII decimal digit.
pub open spec fn all_digits(s: Seq<u8>) -> bool {
    forall|i: int| 0 <= i < s.len() ==> #[trigger] is_digit(s[i])
}

/// The value of an ASCII decimal digit string (leading zeros allowed; the
/// empty string has value 0).
pub open spec fn digits_value(s: Seq<u8>) -> nat
    decreases s.len(),
{
    if s.len() == 0 {
        0
    } else {
        digits_value(s.drop_last()) * 10 + (s.last() - 0x30) as nat
    }
}

/// Number of ASCII decimal digits at the front of `s`.
pub open spec fn digit_prefix_len(s: Seq<u8>) -> nat
    decreases s.len(),
{
    if s.len() > 0 && is_digit(s[0]) {
        1 + digit_prefix_len(s.drop_first())
    } else {
        0
    }
}

/// Why a byte string is not a decimal number that fits in a `u64`.
#[derive(Clone, Copy, Debug, Eq, PartialEq)]
pub enum NumberError {
    /// A byte that is not a digit comes before the value overflows.
    NotDigits,
    /// The digits before the first non-digit byte exceed `u64::MAX`.
    TooLarge,
}

/// Reading `s` as a `u64` from left to right: it fails at the first
/// non-digit byte, unless the digits before it already exceed `u64::MAX`.
pub open spec fn number_spec(s: Seq<u8>) -> Result<u64, NumberError> {
    let k = digit_prefix_len(s);
    if digits_value(s.take(k as int)) > u64::MAX {
        Err(NumberError::TooLarge)
    } else if k < s.len() {
        Err(NumberError::NotDigits)
    } else {
        Ok(digits_value(s) as u64)
    }
}

/// `digit_prefix_len` is characterised by the position of the first
/// non-digit byte.
pub proof fn lemma_digit_prefix_len_is(s: Seq<u8>, k: int)
    requires
        0 <= k <= s.len(),
        forall|i: int| 0 <= i < k ==> #[trigger] is_digit(s[i]),
        k == s.len() || !is_digit(s[k]),
    ensures
        digit_prefix_len(s) == k,
    decreases k,
{
    if k > 0 {
        assert forall|i: int| 0 <= i < k - 1 implies #[trigger] is_digit(s.drop_first()[i]) by {
            assert(is_digit(s[i + 1]));
        }
        lemma_digit_prefix_len_is(s.drop_first(), k - 1);
    }
}

/// The digit prefix is made of digits and is followed by a non-digit, if
/// anything.
pub proof fn lemma_digit_prefix_len_bound(s: Seq<u8>)
    ensures
        digit_prefix_len(s) <= s.len(),
        forall|i: int| 0 <= i < digit_prefix_len(s) ==> #[trigger] is_digit(s[i]),
        digit_prefix_len(s) < s.len() ==> !is_digit(s[digit_prefix_len(s) as int]),
    decreases s.len(),
{
    if s.len() > 0 && is_digit(s[0]) {
        lemma_digit_prefix_len_bound(s.drop_first());
        assert forall|i: int| 0 <= i < digit_prefix_len(s) implies #[trigger] is_digit(s[i]) by {
            if i > 0 {
                assert(s[i] == s.drop_first()[i - 1]);
            }
        }
    }
}

/// A longer run of digits never has a smaller value.
pub proof fn lemma_digits_value_monotone(s: Seq<u8>, j: int, k: int)
    requires
        0 <= j <= k <= s.len(),
        forall|i: int| 0 <= i < k ==> #[trigger] is_digit(s[i]),
    ensures
        digits_value(s.take(j)) <= digits_value(s.take(k)),
    decreases k - j,
{
    if j < k {
        lemma_digits_value_monotone(s, j, k - 1);
        assert(s.take(k).drop_last() =~= s.take(k - 1));
    }
}

/// Appending one digit multiplies the value by ten and adds the digit.
pub proof fn lemma_digits_value_push(s: Seq<u8>, i: int)
    requires
        0 <= i < s.len(),
    ensures
        digits_value(s.take(i + 1)) == digits_value(s.take(i)) * 10 + (s[i] - 0x30) as nat,
{
    assert(s.take(i + 1).drop_last() =~= s.take(i));
}

/// Parses an ASCII decimal digit string as a `u64`.
pub fn parse_u64_digits(input: &[u8]) -> (res: Result<u64, NumberError>)
    ensures
        res == number_spec(input@),
{
    let mut value: u64 = 0;
    let mut i: usize = 0;
    let ghost s = input@;
    assert(s.take(0) =~= Seq::<u8>::empty());
    while i < input.len()
        invariant
            0 <= i <= s.len(),
            s == input@,
            forall|j: int| 0 <= j < i ==> #[trigger] is_digit(s[j]),
            value == digits_value(s.take(i as int)),
        decreases s.len() - i,
    {
        let byte = input[i];
        if !(0x30 <= byte && byte <= 0x39) {
            proof {
                lemma_digit_prefix_len_is(s, i as int);
            }
            return Err(NumberError::NotDigits);
        }
        proof {
            lemma_digits_value_push(s, i as int);
        }
        let next = match value.checked_mul(10) {
            Some(v) => v.checked_add((byte - 0x30) as u64),
            None => None,
        };
        match next {
            Some(v) => {
                value = v;
            },
            None => {
                proof {
                    let k = digit_prefix_len(s);
                    lemma_digit_prefix_len_bound(s);
                    if k < i + 1 {
                        assert(is_digit(s[k as int]));
                    }
                    lemma_digits_value_monotone(s, i as int + 1, k as int);
                }
                return Err(NumberError::TooLarge);
            },
        }
        i += 1;
    }
    proof {
        lemma_digit_prefix_len_is(s, s.len() as int);
        assert(s.take(s.len() as int) =~= s);
    }
    Ok(value)
}

/// Whether every byte is an ASCII decimal digit.
pub fn is_all_digits(input: &[u8]) -> (res: bool)
    ensures
        res == all_digits(input@),
{
    let mut i: usize = 0;
    while i < input.len()
        invariant
            0 <= i <= input@.len(),
            forall|j: int| 0 <= j < i ==> is_digit(#[trigger] input@[j]),
        decreases input@.len() - i,
    {
        if !(0x30 <= input[i] && input[i] <= 0x39) {
            assert(!is_digit(input@[i as int]));
            return false;
        }
        i += 1;
    }
    true
}

/// A leading zero does not change how a digit string reads as a number:
/// `01` reads as `1`.
pub proof fn lemma_number_leading_zero(s: Seq<u8>)
    ensures
        number_spec(seq![0x30u8] + s) == number_spec(s),
{
    let t = seq![0x30u8] + s;
    assert(t.drop_first() =~= s);
    assert(is_digit(t[0]));
    let k = digit_prefix_len(s);
    assert(digit_prefix_len(t) == 1 + k);
    lemma_digit_prefix_len_bound(s);
    assert(t.take(1 + k as int) =~= seq![0x30u8] + s.take(k as int));
    crate::decimal::lemma_value_prepend_zero(s.take(k as int));
    crate::decimal::lemma_value_prepend_zero(s);
}

} // verus!
