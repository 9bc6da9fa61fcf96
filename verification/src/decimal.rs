//! Byte order and decimal-number order of key fields, as signs: -1 when the
//! left value sorts first, 1 when the right one does, 0 when they are equal.
use vstd::prelude::*;

use crate::digits::{all_digits, digits_value, is_digit};
use crate::selector::{first_index_of, lemma_first_index_of};

verus! {

/// Ten to the power `n`.
pub open spec fn pow10(n: nat) -> nat
    decreases n,
{
    if n == 0 {
        1
    } else {
        10 * pow10((n - 1) as nat)
    }
}

/// The sign of `x`: -1, 0 or 1.
pub open spec fn sign_of(x: int) -> int {
    if x < 0 {
        -1
    } else if x > 0 {
        1
    } else {
        0
    }
}

/// Lexicographic byte order: the first differing byte decides, and a proper
/// prefix sorts first.
pub open spec fn lex_sign(a: Seq<u8>, b: Seq<u8>) -> int
    decreases a.len(),
{
    if a.len() == 0 && b.len() == 0 {
        0
    } else if a.len() == 0 {
        -1
    } else if b.len() == 0 {
        1
    } else if a[0] < b[0] {
        -1
    } else if a[0] > b[0] {
        1
    } else {
        lex_sign(a.drop_first(), b.drop_first())
    }
}

/// `n` ASCII zeros.
pub open spec fn zeros(n: nat) -> Seq<u8> {
    Seq::new(n, |i: int| 0x30u8)
}

/// `f` padded on the right with ASCII zeros to length `n`.
pub open spec fn pad_right(f: Seq<u8>, n: nat) -> Seq<u8> {
    if f.len() >= n {
        f
    } else {
        f + zeros((n - f.len()) as nat)
    }
}

pub open spec fn max_nat(a: nat, b: nat) -> nat {
    if a >= b {
        a
    } else {
        b
    }
}

/// The integer digits of a decimal number: `0` when none are written.
pub open spec fn integer_or_zero(s: Seq<u8>) -> Seq<u8> {
    if s.len() == 0 {
        seq![0x30u8]
    } else {
        s
    }
}

/// A decimal number as written: whether it carries a minus sign, the digits
/// before the point (`0` when there are none, as in `.5`), and the digits
/// after it.
pub open spec fn decimal_spec(s: Seq<u8>) -> Option<(bool, Seq<u8>, Seq<u8>)> {
    if s.len() == 0 {
        None
    } else {
        let negative = s[0] == 0x2Du8;
        let rest = if s[0] == 0x2Bu8 || s[0] == 0x2Du8 {
            s.drop_first()
        } else {
            s
        };
        if rest.len() == 0 {
            None
        } else {
            match first_index_of(rest, 0x2Eu8) {
                Some(d) => {
                    let int_part = rest.take(d);
                    let frac = rest.skip(d + 1);
                    if int_part.len() == 0 && frac.len() == 0 {
                        None
                    } else if !all_digits(int_part) || !all_digits(frac) {
                        None
                    } else {
                        Some((negative, integer_or_zero(int_part), frac))
                    }
                },
                None => if !all_digits(rest) {
                    None
                } else {
                    Some((negative, rest, Seq::empty()))
                },
            }
        }
    }
}

/// Order of two magnitudes: the integer parts by value, then the fractions by
/// value at a common number of digits.
pub open spec fn magnitude_sign(li: Seq<u8>, lf: Seq<u8>, ri: Seq<u8>, rf: Seq<u8>) -> int {
    let a = digits_value(li);
    let b = digits_value(ri);
    if a != b {
        sign_of(a - b)
    } else {
        let n = max_nat(lf.len(), rf.len());
        sign_of(digits_value(pad_right(lf, n)) - digits_value(pad_right(rf, n)))
    }
}

/// A decimal number whose digits are all zero: it is zero whatever its sign.
pub open spec fn is_zero_number(d: (bool, Seq<u8>, Seq<u8>)) -> bool {
    digits_value(d.1) == 0 && digits_value(d.2) == 0
}

/// A decimal number below zero: a minus sign and a digit other than zero.
pub open spec fn below_zero(d: (bool, Seq<u8>, Seq<u8>)) -> bool {
    d.0 && !is_zero_number(d)
}

/// Order of two signed decimal numbers by value. A number below zero sorts
/// before one that is not; between two numbers below zero the magnitude
/// order is reversed. Zero compares as zero whatever its sign, so `-0`,
/// `+0.0` and `0` are equal. `None` when either side is not a decimal number.
pub open spec fn numeric_sign(l: Seq<u8>, r: Seq<u8>) -> Option<int> {
    match (decimal_spec(l), decimal_spec(r)) {
        (Some(x), Some(y)) => Some(
            if below_zero(x) != below_zero(y) {
                if below_zero(x) {
                    -1
                } else {
                    1
                }
            } else {
                let m = magnitude_sign(x.1, x.2, y.1, y.2);
                if below_zero(x) {
                    -m
                } else {
                    m
                }
            },
        ),
        _ => None,
    }
}

// ---------------------------------------------------------------------------
// Lemmas on digit values
// ---------------------------------------------------------------------------

/// Powers of ten are positive.
pub proof fn lemma_pow10_positive(n: nat)
    ensures
        pow10(n) >= 1,
    decreases n,
{
    if n > 0 {
        lemma_pow10_positive((n - 1) as nat);
    }
}

/// Powers of ten grow with the exponent.
pub proof fn lemma_pow10_monotone(m: nat, n: nat)
    requires
        m <= n,
    ensures
        pow10(m) <= pow10(n),
    decreases n - m,
{
    if m < n {
        lemma_pow10_monotone(m, (n - 1) as nat);
        lemma_pow10_positive((n - 1) as nat);
    }
}

/// A leading zero does not change the value.
pub proof fn lemma_value_prepend_zero(s: Seq<u8>)
    ensures
        digits_value(seq![0x30u8] + s) == digits_value(s),
    decreases s.len(),
{
    let t = seq![0x30u8] + s;
    if s.len() > 0 {
        lemma_value_prepend_zero(s.drop_last());
        assert(t.drop_last() =~= seq![0x30u8] + s.drop_last());
        assert(t.last() == s.last());
        assert(digits_value(t) == digits_value(t.drop_last()) * 10 + (t.last() - 0x30) as nat);
        assert(digits_value(s) == digits_value(s.drop_last()) * 10 + (s.last() - 0x30) as nat);
    } else {
        assert(t.drop_last() =~= Seq::<u8>::empty());
        assert(t.last() == 0x30u8);
        assert(digits_value(t) == digits_value(t.drop_last()) * 10 + (t.last() - 0x30) as nat);
        assert(digits_value(t.drop_last()) == 0);
    }
}

/// Leading zeros do not change the value.
pub proof fn lemma_value_skip_zeros(s: Seq<u8>, k: int)
    requires
        0 <= k <= s.len(),
        forall|i: int| 0 <= i < k ==> #[trigger] s[i] == 0x30u8,
    ensures
        digits_value(s) == digits_value(s.skip(k)),
    decreases k,
{
    if k > 0 {
        let t = s.drop_first();
        assert(s =~= seq![0x30u8] + t);
        lemma_value_prepend_zero(t);
        assert forall|i: int| 0 <= i < k - 1 implies #[trigger] t[i] == 0x30u8 by {
            assert(s[i + 1] == 0x30u8);
        }
        lemma_value_skip_zeros(t, k - 1);
        assert(t.skip(k - 1) =~= s.skip(k));
    } else {
        assert(s.skip(0) =~= s);
    }
}

/// A digit string of length `n` has a value below `10^n`.
pub proof fn lemma_value_upper(s: Seq<u8>)
    requires
        all_digits(s),
    ensures
        digits_value(s) < pow10(s.len()),
    decreases s.len(),
{
    if s.len() > 0 {
        let t = s.drop_last();
        assert(all_digits(t)) by {
            assert forall|i: int| 0 <= i < t.len() implies #[trigger] is_digit(t[i]) by {
                assert(is_digit(s[i]));
            }
        }
        lemma_value_upper(t);
        assert(is_digit(s[s.len() - 1]));
    }
}

/// A digit string of length `n` whose first digit is not zero has a value of
/// at least `10^(n-1)`.
pub proof fn lemma_value_lower(s: Seq<u8>)
    requires
        all_digits(s),
        s.len() >= 1,
        s[0] != 0x30u8,
    ensures
        digits_value(s) >= pow10((s.len() - 1) as nat),
    decreases s.len(),
{
    assert(is_digit(s[0]));
    if s.len() > 1 {
        let t = s.drop_last();
        assert(all_digits(t)) by {
            assert forall|i: int| 0 <= i < t.len() implies #[trigger] is_digit(t[i]) by {
                assert(is_digit(s[i]));
            }
        }
        lemma_value_lower(t);
    } else {
        assert(s.drop_last() =~= Seq::<u8>::empty());
    }
}

/// The value splits at the first digit.
pub proof fn lemma_value_first_digit(s: Seq<u8>)
    requires
        s.len() >= 1,
        all_digits(s),
    ensures
        digits_value(s) == (s[0] - 0x30) * pow10((s.len() - 1) as nat) + digits_value(s.drop_first()),
    decreases s.len(),
{
    let d: int = s[0] - 0x30;
    assert(is_digit(s[0]));
    if s.len() == 1 {
        assert(s.drop_last() =~= Seq::<u8>::empty());
        assert(s.drop_first() =~= Seq::<u8>::empty());
        assert(s.last() == s[0]);
        assert(digits_value(s) == digits_value(s.drop_last()) * 10 + (s.last() - 0x30) as nat);
        assert(pow10(0) == 1);
        assert(d * pow10(0) == d);
        assert(digits_value(s.drop_last()) == 0);
        assert(digits_value(s.drop_first()) == 0);
        assert(digits_value(s) == d);
    } else {
        let t = s.drop_last();
        assert(all_digits(t)) by {
            assert forall|i: int| 0 <= i < t.len() implies #[trigger] is_digit(t[i]) by {
                assert(is_digit(s[i]));
            }
        }
        assert(is_digit(s[s.len() - 1]));
        lemma_value_first_digit(t);
        assert(s.drop_first().drop_last() =~= t.drop_first());
        assert(s.drop_first().last() == s.last());
        assert(t[0] == s[0]);
        let last: int = s.last() - 0x30;
        let v: int = digits_value(t.drop_first()) as int;
        let p: int = pow10((s.len() - 2) as nat) as int;
        assert(digits_value(s) == digits_value(t) * 10 + last);
        assert(digits_value(t) == d * p + v);
        assert(digits_value(s.drop_first()) == v * 10 + last);
        assert(pow10((s.len() - 1) as nat) == 10 * p);
        assert((d * p + v) * 10 == d * (10 * p) + v * 10) by (nonlinear_arith);
        assert(digits_value(s) == d * (10 * p) + digits_value(s.drop_first()));
    }
}

/// Between digit strings of equal length, byte order is value order.
pub proof fn lemma_same_len_lex(a: Seq<u8>, b: Seq<u8>)
    requires
        all_digits(a),
        all_digits(b),
        a.len() == b.len(),
    ensures
        lex_sign(a, b) == sign_of(digits_value(a) - digits_value(b)),
    decreases a.len(),
{
    if a.len() > 0 {
        let ra = a.drop_first();
        let rb = b.drop_first();
        assert(all_digits(ra)) by {
            assert forall|i: int| 0 <= i < ra.len() implies #[trigger] is_digit(ra[i]) by {
                assert(is_digit(a[i + 1]));
            }
        }
        assert(all_digits(rb)) by {
            assert forall|i: int| 0 <= i < rb.len() implies #[trigger] is_digit(rb[i]) by {
                assert(is_digit(b[i + 1]));
            }
        }
        lemma_value_first_digit(a);
        lemma_value_first_digit(b);
        lemma_value_upper(ra);
        lemma_value_upper(rb);
        assert(is_digit(a[0]));
        assert(is_digit(b[0]));
        let p = pow10((a.len() - 1) as nat);
        let da = (a[0] - 0x30) as int;
        let db = (b[0] - 0x30) as int;
        let va = digits_value(ra) as int;
        let vb = digits_value(rb) as int;
        if a[0] == b[0] {
            lemma_same_len_lex(ra, rb);
        } else if a[0] < b[0] {
            assert(da * p + va < db * p + vb) by (nonlinear_arith)
                requires
                    da + 1 <= db,
                    0 <= va < p,
                    0 <= vb,
            {
                assert((da + 1) * p <= db * p);
            }
        } else {
            assert(db * p + vb < da * p + va) by (nonlinear_arith)
                requires
                    db + 1 <= da,
                    0 <= vb < p,
                    0 <= va,
            {
                assert((db + 1) * p <= da * p);
            }
        }
    }
}

/// A common prefix does not decide the byte order.
pub proof fn lemma_lex_common_prefix(a: Seq<u8>, b: Seq<u8>, k: int)
    requires
        0 <= k <= a.len(),
        k <= b.len(),
        forall|i: int| 0 <= i < k ==> a[i] == b[i],
    ensures
        lex_sign(a, b) == lex_sign(a.skip(k), b.skip(k)),
    decreases k,
{
    if k > 0 {
        lemma_lex_common_prefix(a.drop_first(), b.drop_first(), k - 1);
        assert(a.drop_first().skip(k - 1) =~= a.skip(k));
        assert(b.drop_first().skip(k - 1) =~= b.skip(k));
    } else {
        assert(a.skip(0) =~= a);
        assert(b.skip(0) =~= b);
    }
}

// ---------------------------------------------------------------------------
// Laws of the two orders
// ---------------------------------------------------------------------------

/// Byte order is antisymmetric: swapping the sides negates the sign.
pub proof fn lemma_lex_sign_antisymmetric(a: Seq<u8>, b: Seq<u8>)
    ensures
        lex_sign(a, b) == -lex_sign(b, a),
        -1 <= lex_sign(a, b) <= 1,
    decreases a.len(),
{
    if a.len() > 0 && b.len() > 0 && a[0] == b[0] {
        lemma_lex_sign_antisymmetric(a.drop_first(), b.drop_first());
    }
}

/// A byte string is equal to itself in byte order.
pub proof fn lemma_lex_sign_reflexive(a: Seq<u8>)
    ensures
        lex_sign(a, a) == 0,
    decreases a.len(),
{
    if a.len() > 0 {
        lemma_lex_sign_reflexive(a.drop_first());
    }
}

/// Numeric order is antisymmetric: swapping the sides negates the sign, and
/// a side that is not a decimal number fails the comparison either way.
pub proof fn lemma_numeric_sign_antisymmetric(l: Seq<u8>, r: Seq<u8>)
    ensures
        numeric_sign(l, r) is None <==> numeric_sign(r, l) is None,
        numeric_sign(l, r) matches Some(s) ==> numeric_sign(r, l) == Some(-s) && -1 <= s <= 1,
{
}

/// A decimal number is equal to itself in numeric order.
pub proof fn lemma_numeric_sign_reflexive(x: Seq<u8>)
    requires
        decimal_spec(x) is Some,
    ensures
        numeric_sign(x, x) == Some(0int),
{
}

/// `s` followed by one ASCII zero.
pub open spec fn push_zero(s: Seq<u8>) -> Seq<u8> {
    s.push(0x30u8)
}

proof fn lemma_value_push_zero(s: Seq<u8>)
    ensures
        digits_value(push_zero(s)) == 10 * digits_value(s),
{
    assert(push_zero(s).drop_last() =~= s);
}

proof fn lemma_pad_right_push_zero(f: Seq<u8>, n: nat)
    requires
        f.len() <= n,
    ensures
        pad_right(f, n + 1) == push_zero(pad_right(f, n)),
{
    assert(pad_right(f, n + 1) =~= push_zero(pad_right(f, n)));
}

proof fn lemma_pad_right_zero_absorbed(f: Seq<u8>, n: nat)
    requires
        f.len() + 1 <= n,
    ensures
        pad_right(push_zero(f), n) == pad_right(f, n),
{
    assert(pad_right(push_zero(f), n) =~= pad_right(f, n));
}

/// Numbers compare by value: a leading zero in the integer part and a
/// trailing zero in the fraction do not change the order of magnitudes.
pub proof fn lemma_magnitude_ignores_zero_padding(li: Seq<u8>, lf: Seq<u8>, ri: Seq<u8>, rf: Seq<u8>)
    ensures
        magnitude_sign(seq![0x30u8] + li, push_zero(lf), ri, rf) == magnitude_sign(li, lf, ri, rf),
{
    lemma_value_prepend_zero(li);
    let n = max_nat(lf.len(), rf.len());
    let n2 = max_nat(lf.len() + 1, rf.len());
    lemma_value_push_zero(lf);
    if lf.len() >= rf.len() {
        assert(n2 == n + 1);
        assert(pad_right(push_zero(lf), n2) =~= push_zero(pad_right(lf, n)));
        lemma_pad_right_push_zero(rf, n);
        lemma_value_push_zero(pad_right(lf, n));
        lemma_value_push_zero(pad_right(rf, n));
    } else {
        assert(n2 == n);
        lemma_pad_right_zero_absorbed(lf, n);
    }
}

/// Byte order is transitive, and two steps that are not both "equal" give a
/// strict result.
pub proof fn lemma_lex_sign_transitive(a: Seq<u8>, b: Seq<u8>, c: Seq<u8>)
    requires
        lex_sign(a, b) <= 0,
        lex_sign(b, c) <= 0,
    ensures
        lex_sign(a, c) <= 0,
        lex_sign(a, c) == 0 <==> (lex_sign(a, b) == 0 && lex_sign(b, c) == 0),
    decreases a.len(),
{
    if a.len() > 0 && b.len() > 0 && c.len() > 0 && a[0] == b[0] && b[0] == c[0] {
        lemma_lex_sign_transitive(a.drop_first(), b.drop_first(), c.drop_first());
    }
}

/// The magnitude of a decimal number as an integer in units of `10^-n`.
pub open spec fn scaled_magnitude(int_part: Seq<u8>, frac: Seq<u8>, n: nat) -> int {
    (digits_value(int_part) * pow10(n) + digits_value(pad_right(frac, n))) as int
}

/// The number of fraction digits of a decimal number (0 for anything else).
pub open spec fn frac_len(x: Seq<u8>) -> nat {
    match decimal_spec(x) {
        Some(d) => d.2.len(),
        None => 0,
    }
}

/// An integer that orders decimal numbers as numeric order does, for any
/// scale `n` at least the number of fraction digits: the magnitude in units
/// of `10^-n`, negated for a number below zero.
pub open spec fn numeric_key(x: Seq<u8>, n: nat) -> int {
    match decimal_spec(x) {
        Some(d) => if below_zero(d) {
            -scaled_magnitude(d.1, d.2, n)
        } else {
            scaled_magnitude(d.1, d.2, n)
        },
        None => 0,
    }
}

proof fn lemma_decimal_parts_are_digits(x: Seq<u8>)
    ensures
        decimal_spec(x) matches Some(d) ==> all_digits(d.1) && all_digits(d.2),
{
    assert(is_digit(seq![0x30u8][0]));
}

/// The scaled magnitude of a number that is not zero is at least one unit.
proof fn lemma_nonzero_magnitude(i: Seq<u8>, f: Seq<u8>, n: nat)
    requires
        all_digits(i),
        all_digits(f),
        f.len() <= n,
        digits_value(i) != 0 || digits_value(f) != 0,
    ensures
        scaled_magnitude(i, f, n) >= 1,
{
    lemma_pow10_positive(n);
    let k = (n - f.len()) as nat;
    assert(pad_right(f, f.len()) == f);
    lemma_pad_more(f, f.len(), k);
    lemma_pow10_positive(k);
    let a = digits_value(i) as int;
    let b = digits_value(f) as int;
    let p = pow10(n) as int;
    let q = pow10(k) as int;
    assert(a * p + b * q >= 1) by (nonlinear_arith)
        requires
            a >= 0,
            b >= 0,
            p >= 1,
            q >= 1,
            a != 0 || b != 0,
    ;
}

proof fn lemma_pad_right_digits(f: Seq<u8>, n: nat)
    requires
        all_digits(f),
        f.len() <= n,
    ensures
        all_digits(pad_right(f, n)),
        pad_right(f, n).len() == n,
        digits_value(pad_right(f, n)) < pow10(n),
{
    let p = pad_right(f, n);
    assert forall|i: int| 0 <= i < p.len() implies #[trigger] is_digit(p[i]) by {
        if i < f.len() {
            assert(p[i] == f[i]);
        } else {
            assert(p[i] == 0x30u8);
        }
    }
    lemma_value_upper(p);
}

proof fn lemma_pad_more(f: Seq<u8>, n: nat, k: nat)
    requires
        f.len() <= n,
    ensures
        digits_value(pad_right(f, n + k)) == digits_value(pad_right(f, n)) * pow10(k),
    decreases k,
{
    if k > 0 {
        let m = (n + k - 1) as nat;
        lemma_pad_more(f, n, (k - 1) as nat);
        lemma_pad_right_push_zero(f, m);
        lemma_value_push_zero(pad_right(f, m));
        let v = digits_value(pad_right(f, n));
        let q = pow10((k - 1) as nat);
        assert(pow10(k) == 10 * q);
        assert((m + 1) as nat == n + k);
        assert(digits_value(pad_right(f, m)) == v * q);
        assert(digits_value(pad_right(f, (m + 1) as nat)) == 10 * digits_value(pad_right(f, m)));
        assert(10 * (v * q) == v * (10 * q)) by (nonlinear_arith);
    } else {
        assert(pad_right(f, n + k) == pad_right(f, n));
        assert(pow10(k) == 1);
    }
}

proof fn lemma_sign_scaled(a: int, b: int, p: int)
    requires
        p >= 1,
    ensures
        sign_of(a * p - b * p) == sign_of(a - b),
{
    assert(a < b ==> a * p < b * p) by (nonlinear_arith)
        requires
            p >= 1,
    ;
    assert(a > b ==> a * p > b * p) by (nonlinear_arith)
        requires
            p >= 1,
    ;
    assert(a == b ==> a * p == b * p);
}

/// The order of magnitudes is the order of their scaled integers.
proof fn lemma_magnitude_by_value(li: Seq<u8>, lf: Seq<u8>, ri: Seq<u8>, rf: Seq<u8>, n: nat)
    requires
        all_digits(li),
        all_digits(lf),
        all_digits(ri),
        all_digits(rf),
        lf.len() <= n,
        rf.len() <= n,
    ensures
        magnitude_sign(li, lf, ri, rf) == sign_of(scaled_magnitude(li, lf, n) - scaled_magnitude(ri, rf, n)),
{
    let a = digits_value(li) as int;
    let b = digits_value(ri) as int;
    let p = pow10(n) as int;
    lemma_pow10_positive(n);
    lemma_pad_right_digits(lf, n);
    lemma_pad_right_digits(rf, n);
    let fa = digits_value(pad_right(lf, n)) as int;
    let fb = digits_value(pad_right(rf, n)) as int;
    if a < b {
        assert(a * p + fa < b * p + fb) by (nonlinear_arith)
            requires
                a + 1 <= b,
                0 <= fa < p,
                0 <= fb,
        {
            assert((a + 1) * p <= b * p);
        }
    } else if a > b {
        assert(b * p + fb < a * p + fa) by (nonlinear_arith)
            requires
                b + 1 <= a,
                0 <= fb < p,
                0 <= fa,
        {
            assert((b + 1) * p <= a * p);
        }
    } else {
        let m = max_nat(lf.len(), rf.len());
        let k = (n - m) as nat;
        lemma_pad_more(lf, m, k);
        lemma_pad_more(rf, m, k);
        assert(m + k == n);
        lemma_pow10_positive(k);
        lemma_sign_scaled(digits_value(pad_right(lf, m)) as int, digits_value(pad_right(rf, m)) as int, pow10(k) as int);
    }
}

/// Numbers compare by value: numeric order is the order of `numeric_key`
/// at any scale that covers both numbers' fraction digits.
pub proof fn lemma_numeric_sign_by_value(x: Seq<u8>, y: Seq<u8>, n: nat)
    requires
        decimal_spec(x) is Some,
        decimal_spec(y) is Some,
        frac_len(x) <= n,
        frac_len(y) <= n,
    ensures
        numeric_sign(x, y) == Some(sign_of(numeric_key(x, n) - numeric_key(y, n))),
{
    lemma_decimal_parts_are_digits(x);
    lemma_decimal_parts_are_digits(y);
    let dx = decimal_spec(x)->Some_0;
    let dy = decimal_spec(y)->Some_0;
    lemma_magnitude_by_value(dx.1, dx.2, dy.1, dy.2, n);
    if below_zero(dx) {
        lemma_nonzero_magnitude(dx.1, dx.2, n);
    }
    if below_zero(dy) {
        lemma_nonzero_magnitude(dy.1, dy.2, n);
    }
    lemma_pow10_positive(n);
    assert(scaled_magnitude(dx.1, dx.2, n) >= 0) by (nonlinear_arith)
        requires
            pow10(n) >= 1,
    ;
    assert(scaled_magnitude(dy.1, dy.2, n) >= 0) by (nonlinear_arith)
        requires
            pow10(n) >= 1,
    ;
}

/// Zero is zero whatever its sign and however it is written: `-0`, `+0.0`,
/// `.00` and `0` are all equal in numeric order.
pub proof fn lemma_zeros_are_equal(x: Seq<u8>, y: Seq<u8>)
    requires
        decimal_spec(x) matches Some(d) && is_zero_number(d),
        decimal_spec(y) matches Some(d) && is_zero_number(d),
    ensures
        numeric_sign(x, y) == Some(0int),
{
    let dx = decimal_spec(x)->Some_0;
    let dy = decimal_spec(y)->Some_0;
    let n = max_nat(dx.2.len(), dy.2.len());
    assert(pad_right(dx.2, dx.2.len()) == dx.2);
    assert(pad_right(dy.2, dy.2.len()) == dy.2);
    lemma_pad_more(dx.2, dx.2.len(), (n - dx.2.len()) as nat);
    lemma_pad_more(dy.2, dy.2.len(), (n - dy.2.len()) as nat);
}

/// Numeric order is transitive, and two steps that are not both "equal" give
/// a strict result.
pub proof fn lemma_numeric_sign_transitive(a: Seq<u8>, b: Seq<u8>, c: Seq<u8>)
    requires
        numeric_sign(a, b) matches Some(s) && s <= 0,
        numeric_sign(b, c) matches Some(s) && s <= 0,
    ensures
        numeric_sign(a, c) matches Some(s3) && s3 <= 0 && (s3 == 0 <==> (numeric_sign(a, b) == Some(0int)
            && numeric_sign(b, c) == Some(0int))),
{
    let n = max_nat(max_nat(frac_len(a), frac_len(b)), frac_len(c));
    lemma_numeric_sign_by_value(a, b, n);
    lemma_numeric_sign_by_value(b, c, n);
    lemma_numeric_sign_by_value(a, c, n);
}

/// In byte order the first position at which two strings differ decides,
/// by the unsigned value (0 to 255) of the two bytes there.
pub proof fn lemma_lex_first_difference(a: Seq<u8>, b: Seq<u8>, k: int)
    requires
        0 <= k < a.len(),
        k < b.len(),
        a[k] != b[k],
        forall|j: int| 0 <= j < k ==> a[j] == b[j],
    ensures
        lex_sign(a, b) == (if a[k] < b[k] {
            -1int
        } else {
            1int
        }),
{
    lemma_lex_common_prefix(a, b, k);
    assert(a.skip(k)[0] == a[k]);
    assert(b.skip(k)[0] == b[k]);
}

/// Two single bytes compare by their unsigned values.
pub proof fn lemma_lex_single_bytes(x: u8, y: u8)
    ensures
        lex_sign(seq![x], seq![y]) == sign_of(x - y),
{
    let a = seq![x];
    let b = seq![y];
    if x == y {
        assert(a.drop_first() =~= Seq::<u8>::empty());
        assert(b.drop_first() =~= Seq::<u8>::empty());
        assert(lex_sign(a.drop_first(), b.drop_first()) == 0);
    }
}

/// A proper prefix sorts before the longer string.
pub proof fn lemma_lex_proper_prefix(a: Seq<u8>, b: Seq<u8>)
    requires
        a.len() < b.len(),
        a == b.take(a.len() as int),
    ensures
        lex_sign(a, b) == -1,
        lex_sign(b, a) == 1,
{
    let k = a.len() as int;
    assert forall|j: int| 0 <= j < k implies a[j] == b[j] by {
        assert(b.take(k)[j] == b[j]);
    }
    lemma_lex_common_prefix(a, b, k);
    assert(a.skip(k).len() == 0);
    lemma_lex_sign_antisymmetric(a, b);
}

/// Two byte strings are equal in byte order exactly when they are the same
/// string.
pub proof fn lemma_lex_zero_iff_same(a: Seq<u8>, b: Seq<u8>)
    ensures
        lex_sign(a, b) == 0 <==> a == b,
    decreases a.len(),
{
    if a.len() == 0 && b.len() == 0 {
        assert(a =~= b);
    } else if a == b {
        lemma_lex_sign_reflexive(a);
    } else if a.len() > 0 && b.len() > 0 && a[0] == b[0] {
        lemma_lex_zero_iff_same(a.drop_first(), b.drop_first());
        if a.drop_first() == b.drop_first() {
            assert(a =~= seq![a[0]] + a.drop_first());
            assert(b =~= seq![b[0]] + b.drop_first());
        }
    }
}

/// A decimal number carries a minus sign exactly when its first byte is
/// `-`: a leading `+` marks a number that is not negative.
pub proof fn lemma_decimal_sign_flag(s: Seq<u8>)
    ensures
        decimal_spec(s) matches Some(d) ==> (d.0 <==> s[0] == 0x2Du8),
{
}

/// A leading `+` does not change a number: `+x` compares exactly as `x`
/// does, on either side.
pub proof fn lemma_plus_sign_ignored(x: Seq<u8>, y: Seq<u8>)
    requires
        x.len() > 0,
        x[0] != 0x2Bu8,
        x[0] != 0x2Du8,
    ensures
        numeric_sign(seq![0x2Bu8] + x, y) == numeric_sign(x, y),
        numeric_sign(y, seq![0x2Bu8] + x) == numeric_sign(y, x),
{
    let s = seq![0x2Bu8] + x;
    assert(s.drop_first() =~= x);
    assert(decimal_spec(s) == decimal_spec(x));
}

/// A string of digits is a number that is not negative, read with no
/// fraction.
proof fn lemma_digit_string_decimal(x: Seq<u8>)
    requires
        x.len() > 0,
        all_digits(x),
    ensures
        decimal_spec(x) == Some((false, x, Seq::<u8>::empty())),
        decimal_spec(seq![0x2Bu8] + x) == Some((false, x, Seq::<u8>::empty())),
        decimal_spec(seq![0x2Du8] + x) == Some((true, x, Seq::<u8>::empty())),
{
    lemma_first_index_of(x, 0x2Eu8);
    if first_index_of(x, 0x2Eu8) is Some {
        let p = first_index_of(x, 0x2Eu8)->Some_0;
        assert(is_digit(x[p]));
    }
    assert(is_digit(x[0]));
    let sp = seq![0x2Bu8] + x;
    let sm = seq![0x2Du8] + x;
    assert(sp.drop_first() =~= x);
    assert(sm.drop_first() =~= x);
}

/// Strings of digits compare by their values, and a sign in front of them
/// acts as one: `+x` has the value of `x`, `-x` the value of `x` negated.
pub proof fn lemma_digit_strings_by_value(x: Seq<u8>, y: Seq<u8>)
    requires
        x.len() > 0,
        y.len() > 0,
        all_digits(x),
        all_digits(y),
    ensures
        numeric_sign(x, y) == Some(sign_of(digits_value(x) - digits_value(y))),
        numeric_sign(seq![0x2Bu8] + x, y) == Some(sign_of(digits_value(x) - digits_value(y))),
        numeric_sign(seq![0x2Du8] + x, y) == Some(sign_of(-digits_value(x) - digits_value(y))),
        numeric_sign(seq![0x2Du8] + x, seq![0x2Du8] + y) == Some(
            sign_of(digits_value(y) - digits_value(x)),
        ),
{
    lemma_digit_string_decimal(x);
    lemma_digit_string_decimal(y);
    let e = Seq::<u8>::empty();
    assert(digits_value(e) == 0);
    assert(pad_right(e, 0) == e);
}

// ---------------------------------------------------------------------------
// Executable comparisons
// ---------------------------------------------------------------------------

/// Byte order of two byte strings.
pub fn compare_bytes(a: &[u8], b: &[u8]) -> (s: i8)
    ensures
        s as int == lex_sign(a@, b@),
        -1 <= s <= 1,
{
    let mut i: usize = 0;
    while i < a.len() && i < b.len() && a[i] == b[i]
        invariant
            0 <= i <= a@.len(),
            i <= b@.len(),
            forall|j: int| 0 <= j < i ==> a@[j] == b@[j],
        decreases a@.len() - i,
    {
        i += 1;
    }
    proof {
        lemma_lex_common_prefix(a@, b@, i as int);
    }
    if i == a.len() && i == b.len() {
        0
    } else if i == a.len() {
        -1
    } else if i == b.len() {
        1
    } else if a[i] < b[i] {
        -1
    } else {
        1
    }
}

/// `digits` without its leading zeros.
fn trim_leading_zero_digits(digits: &[u8]) -> (t: &[u8])
    ensures
        digits_value(t@) == digits_value(digits@),
        t@.len() > 0 ==> t@[0] != 0x30u8,
        all_digits(digits@) ==> all_digits(t@),
        t@.len() <= digits@.len(),
{
    let mut i: usize = 0;
    while i < digits.len() && digits[i] == 0x30
        invariant
            0 <= i <= digits@.len(),
            forall|j: int| 0 <= j < i ==> #[trigger] digits@[j] == 0x30u8,
        decreases digits@.len() - i,
    {
        i += 1;
    }
    let t = &digits[i..digits.len()];
    proof {
        assert(t@ =~= digits@.skip(i as int));
        lemma_value_skip_zeros(digits@, i as int);
        if all_digits(digits@) {
            assert forall|j: int| 0 <= j < t@.len() implies #[trigger] is_digit(t@[j]) by {
                assert(is_digit(digits@[j + i]));
            }
        }
    }
    t
}

/// Value order of two integer digit strings.
fn compare_digit_slices(left: &[u8], right: &[u8]) -> (s: i8)
    requires
        all_digits(left@),
        all_digits(right@),
    ensures
        s as int == sign_of(digits_value(left@) - digits_value(right@)),
{
    let l = trim_leading_zero_digits(left);
    let r = trim_leading_zero_digits(right);
    proof {
        lemma_value_upper(l@);
        lemma_value_upper(r@);
        if l@.len() > 0 {
            lemma_value_lower(l@);
        }
        if r@.len() > 0 {
            lemma_value_lower(r@);
        }
    }
    if l.len() < r.len() {
        proof {
            lemma_pow10_monotone(l@.len(), (r@.len() - 1) as nat);
        }
        -1
    } else if l.len() > r.len() {
        proof {
            lemma_pow10_monotone(r@.len(), (l@.len() - 1) as nat);
        }
        1
    } else {
        proof {
            lemma_same_len_lex(l@, r@);
        }
        compare_bytes(l, r)
    }
}

/// Value order of two fractions, digit by digit with missing digits read as
/// zeros.
fn compare_fractional_slices(left: &[u8], right: &[u8]) -> (s: i8)
    requires
        all_digits(left@),
        all_digits(right@),
    ensures
        s as int == ({
            let n = max_nat(left@.len(), right@.len());
            sign_of(digits_value(pad_right(left@, n)) - digits_value(pad_right(right@, n)))
        }),
{
    let max_len = if left.len() >= right.len() {
        left.len()
    } else {
        right.len()
    };
    let ghost n = max_nat(left@.len(), right@.len());
    let ghost pl = pad_right(left@, n);
    let ghost pr = pad_right(right@, n);
    proof {
        assert(pl.len() == n);
        assert(pr.len() == n);
        assert(forall|j: int| 0 <= j < n ==> #[trigger] pl[j] == (if j < left@.len() { left@[j] } else { 0x30u8 }));
        assert(forall|j: int| 0 <= j < n ==> #[trigger] pr[j] == (if j < right@.len() { right@[j] } else { 0x30u8 }));
        assert(all_digits(pl)) by {
            assert forall|j: int| 0 <= j < pl.len() implies #[trigger] is_digit(pl[j]) by {
                if j < left@.len() {
                    assert(is_digit(left@[j]));
                }
            }
        }
        assert(all_digits(pr)) by {
            assert forall|j: int| 0 <= j < pr.len() implies #[trigger] is_digit(pr[j]) by {
                if j < right@.len() {
                    assert(is_digit(right@[j]));
                }
            }
        }
        lemma_same_len_lex(pl, pr);
    }
    let mut i: usize = 0;
    while i < max_len
        invariant
            max_len == n,
            n == max_nat(left@.len(), right@.len()),
            pl == pad_right(left@, n),
            pr == pad_right(right@, n),
            pl.len() == n,
            pr.len() == n,
            0 <= i <= n,
            forall|j: int| 0 <= j < n ==> #[trigger] pl[j] == (if j < left@.len() { left@[j] } else { 0x30u8 }),
            forall|j: int| 0 <= j < n ==> #[trigger] pr[j] == (if j < right@.len() { right@[j] } else { 0x30u8 }),
            forall|j: int| 0 <= j < i ==> pl[j] == pr[j],
            lex_sign(pl, pr) == sign_of(digits_value(pl) - digits_value(pr)),
        decreases n - i,
    {
        let l = if i < left.len() {
            left[i]
        } else {
            0x30
        };
        let r = if i < right.len() {
            right[i]
        } else {
            0x30
        };
        assert(pl[i as int] == l && pr[i as int] == r);
        if l != r {
            proof {
                lemma_lex_common_prefix(pl, pr, i as int);
                assert(pl.skip(i as int).len() > 0);
                assert(pr.skip(i as int).len() > 0);
                assert(pl.skip(i as int)[0] == l);
                assert(pr.skip(i as int)[0] == r);
                assert(lex_sign(pl.skip(i as int), pr.skip(i as int)) == (if l < r { -1int } else { 1int }));
            }
            return if l < r {
                -1
            } else {
                1
            };
        }
        i += 1;
    }
    proof {
        lemma_lex_common_prefix(pl, pr, n as int);
    }
    0
}

proof fn lemma_integer_or_zero_value(s: Seq<u8>)
    ensures
        digits_value(integer_or_zero(s)) == digits_value(s),
{
    if s.len() == 0 {
        let z = seq![0x30u8];
        assert(z.drop_last() =~= Seq::<u8>::empty());
        assert(digits_value(Seq::<u8>::empty()) == 0);
        assert(digits_value(z) == digits_value(z.drop_last()) * 10 + (z.last() - 0x30) as nat);
    }
}

/// Whether a digit string has the value zero (every digit is `0`).
pub(crate) fn digits_are_zero(digits: &[u8]) -> (res: bool)
    requires
        all_digits(digits@),
    ensures
        res == (digits_value(digits@) == 0),
{
    let t = trim_leading_zero_digits(digits);
    proof {
        if t@.len() > 0 {
            lemma_value_lower(t@);
            lemma_pow10_positive((t@.len() - 1) as nat);
        }
    }
    t.len() == 0
}

/// A decimal number as written, borrowed from the key field.
struct ParsedDecimal<'a> {
    negative: bool,
    integer: &'a [u8],
    fraction: &'a [u8],
}

fn parse_decimal(input: &[u8]) -> (res: Option<ParsedDecimal<'_>>)
    ensures
        match res {
            Some(d) => decimal_spec(input@) == Some((d.negative, integer_or_zero(d.integer@), d.fraction@))
                && all_digits(d.integer@) && all_digits(d.fraction@),
            None => decimal_spec(input@) is None,
        },
{
    let len = input.len();
    if len == 0 {
        return None;
    }
    let negative = input[0] == 0x2D;
    let rest = if input[0] == 0x2B || input[0] == 0x2D {
        &input[1..len]
    } else {
        &input[0..len]
    };
    assert(rest@ =~= (if input@[0] == 0x2Bu8 || input@[0] == 0x2Du8 {
        input@.drop_first()
    } else {
        input@
    }));
    let rest_len = rest.len();
    if rest_len == 0 {
        return None;
    }
    match crate::selector::find_byte(rest, 0x2E) {
        Some(dot) => {
            let integer = &rest[0..dot];
            let fraction = &rest[dot + 1..rest_len];
            assert(integer@ =~= rest@.take(dot as int));
            assert(fraction@ =~= rest@.skip(dot + 1));
            if integer.len() == 0 && fraction.len() == 0 {
                return None;
            }
            if !crate::digits::is_all_digits(integer) || !crate::digits::is_all_digits(fraction) {
                return None;
            }
            Some(ParsedDecimal { negative, integer, fraction })
        },
        None => {
            if !crate::digits::is_all_digits(rest) {
                return None;
            }
            let fraction = &rest[0..0];
            assert(fraction@ =~= Seq::<u8>::empty());
            Some(ParsedDecimal { negative, integer: rest, fraction })
        },
    }
}

/// Numeric order of two key fields, or `None` when either is not a decimal
/// number.
pub fn compare_numeric_bytes(left: &[u8], right: &[u8]) -> (res: Option<i8>)
    ensures
        match res {
            Some(s) => numeric_sign(left@, right@) == Some(s as int) && -1 <= s <= 1,
            None => numeric_sign(left@, right@) is None,
        },
{
    let l = match parse_decimal(left) {
        Some(d) => d,
        None => return None,
    };
    let r = match parse_decimal(right) {
        Some(d) => d,
        None => return None,
    };
    proof {
        lemma_integer_or_zero_value(l.integer@);
        lemma_integer_or_zero_value(r.integer@);
    }
    let l_below = l.negative && !(digits_are_zero(l.integer) && digits_are_zero(l.fraction));
    let r_below = r.negative && !(digits_are_zero(r.integer) && digits_are_zero(r.fraction));
    if l_below != r_below {
        return Some(
            if l_below {
                -1
            } else {
                1
            },
        );
    }
    let m = compare_unsigned_decimal_parts(&l, &r);
    if l_below {
        Some(-m)
    } else {
        Some(m)
    }
}

fn compare_unsigned_decimal_parts(left: &ParsedDecimal<'_>, right: &ParsedDecimal<'_>) -> (s: i8)
    requires
        all_digits(left.integer@),
        all_digits(left.fraction@),
        all_digits(right.integer@),
        all_digits(right.fraction@),
    ensures
        s as int == magnitude_sign(left.integer@, left.fraction@, right.integer@, right.fraction@),
        -1 <= s <= 1,
{
    let s = compare_digit_slices(left.integer, right.integer);
    if s != 0 {
        s
    } else {
        compare_fractional_slices(left.fraction, right.fraction)
    }
}

} // verus!
