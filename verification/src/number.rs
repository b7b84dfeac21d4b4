//! Comparing whole numbers with numbers that a user typed.
//!
//! A number typed into a constraint is read the way `str::parse` reads an
//! IEEE-754 double. The crate does not hold such a double itself: it holds
//! its 64 bits, and this module compares whole numbers with the value that
//! those bits encode, exactly as the comparison operators on doubles do.
use vstd::prelude::*;

use crate::text::{chars_of, eq_ignore_ascii_case, text_eq_ignore_ascii_case};

verus! {

/// How a whole number relates to a double: smaller, equal, larger, or not
/// comparable at all (the double is not a number).
#[derive(Clone, Copy, Debug, PartialEq, Eq, Structural)]
pub enum NumberOrder {
    Less,
    Equal,
    Greater,
    Unordered,
}

pub open spec fn two_pow(k: nat) -> nat
    decreases k,
{
    if k == 0 {
        1
    } else {
        2 * two_pow((k - 1) as nat)
    }
}

pub open spec fn order_of(a: int, b: int) -> NumberOrder {
    if a < b {
        NumberOrder::Less
    } else if a == b {
        NumberOrder::Equal
    } else {
        NumberOrder::Greater
    }
}

/// The sign bit of a double.
pub open spec fn sign_bit(bits: u64) -> u64 {
    bits >> 63u64
}

/// The eleven exponent bits of a double.
pub open spec fn exponent_bits(bits: u64) -> u64 {
    (bits >> 52u64) & 0x7ffu64
}

/// The 52 fraction bits of a double.
pub open spec fn fraction_bits(bits: u64) -> u64 {
    bits & 0xfffffffffffffu64
}

/// The significand of a finite double: the fraction, with the hidden bit
/// unless the double is subnormal.
pub open spec fn significand(bits: u64) -> int {
    if exponent_bits(bits) == 0 {
        fraction_bits(bits) as int
    } else {
        fraction_bits(bits) + two_pow(52)
    }
}

/// The power of two that scales the significand of a finite double.
pub open spec fn scale(bits: u64) -> int {
    if exponent_bits(bits) == 0 {
        -1074
    } else {
        exponent_bits(bits) - 1075
    }
}

/// How the whole number `n` relates to the double whose bits are `bits`:
/// infinities are larger or smaller than every number, a NaN is unordered,
/// and a finite double `(-1)^s * m * 2^k` is compared exactly.
#[verifier::opaque]
pub open spec fn compare_with_double(n: int, bits: u64) -> NumberOrder {
    if exponent_bits(bits) == 0x7ff {
        if fraction_bits(bits) == 0 {
            if sign_bit(bits) == 1 {
                NumberOrder::Greater
            } else {
                NumberOrder::Less
            }
        } else {
            NumberOrder::Unordered
        }
    } else {
        let m = if sign_bit(bits) == 1 {
            -significand(bits)
        } else {
            significand(bits)
        };
        let k = scale(bits);
        if k >= 0 {
            order_of(n, m * two_pow(k as nat))
        } else {
            order_of(n * two_pow((-k) as nat), m)
        }
    }
}

proof fn lemma_two_pow_pos(k: nat)
    ensures
        two_pow(k) >= 1,
    decreases k,
{
    if k > 0 {
        lemma_two_pow_pos((k - 1) as nat);
    }
}

proof fn lemma_two_pow_mono(a: nat, b: nat)
    requires
        a <= b,
    ensures
        two_pow(a) <= two_pow(b),
    decreases b,
{
    if a < b {
        lemma_two_pow_mono(a, (b - 1) as nat);
        lemma_two_pow_pos((b - 1) as nat);
    }
}

/// The order of whole numbers against a double is monotone: a number
/// below one that is at most the double is itself at most the double, a
/// number above one that is at least the double is itself at least it,
/// and two different numbers are never both equal to the same double.
pub proof fn lemma_compare_with_double_monotone(n: int, m: int, bits: u64)
    ensures
        m <= n && (compare_with_double(n, bits) == NumberOrder::Less || compare_with_double(n, bits) == NumberOrder::Equal)
            ==> compare_with_double(m, bits) == NumberOrder::Less || compare_with_double(m, bits) == NumberOrder::Equal,
        n <= m && (compare_with_double(n, bits) == NumberOrder::Greater || compare_with_double(n, bits) == NumberOrder::Equal)
            ==> compare_with_double(m, bits) == NumberOrder::Greater || compare_with_double(m, bits) == NumberOrder::Equal,
        m < n && compare_with_double(n, bits) == NumberOrder::Equal ==> compare_with_double(m, bits) == NumberOrder::Less,
        n < m && compare_with_double(n, bits) == NumberOrder::Equal ==> compare_with_double(m, bits) == NumberOrder::Greater,
        compare_with_double(n, bits) == NumberOrder::Unordered <==> compare_with_double(m, bits) == NumberOrder::Unordered,
{
    reveal(compare_with_double);
    if exponent_bits(bits) != 0x7ff {
        let k = scale(bits);
        if k < 0 {
            let p = two_pow((-k) as nat);
            lemma_two_pow_pos((-k) as nat);
            if m <= n {
                assert(m * p <= n * p) by (nonlinear_arith)
                    requires
                        m <= n,
                        p >= 1,
                ;
            }
            if m < n {
                assert(m * p < n * p) by (nonlinear_arith)
                    requires
                        m < n,
                        p >= 1,
                ;
            }
            if n <= m {
                assert(n * p <= m * p) by (nonlinear_arith)
                    requires
                        n <= m,
                        p >= 1,
                ;
            }
            if n < m {
                assert(n * p < m * p) by (nonlinear_arith)
                    requires
                        n < m,
                        p >= 1,
                ;
            }
        }
    }
}

/// The order against some doubles whose values are known: both zeros,
/// one, minus one, a half, a hundred, two to the sixtieth, the smallest
/// positive double, both infinities and a NaN.
pub proof fn lemma_compare_with_known_doubles(n: int)
    ensures
        compare_with_double(n, 0x0000000000000000u64) == order_of(n, 0),
        compare_with_double(n, 0x8000000000000000u64) == order_of(n, 0),
        compare_with_double(n, 0x3FF0000000000000u64) == order_of(n, 1),
        compare_with_double(n, 0xBFF0000000000000u64) == order_of(n, -1),
        compare_with_double(n, 0x3FE0000000000000u64) == order_of(2 * n, 1),
        compare_with_double(n, 0x4059000000000000u64) == order_of(n, 100),
        compare_with_double(n, 0x43B0000000000000u64) == order_of(n, 0x1000000000000000),
        compare_with_double(n, 0x0000000000000001u64) == (if n <= 0 {
            NumberOrder::Less
        } else {
            NumberOrder::Greater
        }),
        compare_with_double(n, 0x7FF0000000000000u64) == NumberOrder::Less,
        compare_with_double(n, 0xFFF0000000000000u64) == NumberOrder::Greater,
        compare_with_double(n, 0x7FF8000000000000u64) == NumberOrder::Unordered,
{
    reveal(compare_with_double);
    lemma_two_pow_52();
    assert(exponent_bits(0x0000000000000000u64) == 0 && fraction_bits(0x0000000000000000u64) == 0
        && sign_bit(0x0000000000000000u64) == 0) by (bit_vector);
    assert(exponent_bits(0x8000000000000000u64) == 0 && fraction_bits(0x8000000000000000u64) == 0
        && sign_bit(0x8000000000000000u64) == 1) by (bit_vector);
    assert(exponent_bits(0x3FF0000000000000u64) == 1023 && fraction_bits(0x3FF0000000000000u64) == 0
        && sign_bit(0x3FF0000000000000u64) == 0) by (bit_vector);
    assert(exponent_bits(0xBFF0000000000000u64) == 1023 && fraction_bits(0xBFF0000000000000u64) == 0
        && sign_bit(0xBFF0000000000000u64) == 1) by (bit_vector);
    assert(exponent_bits(0x3FE0000000000000u64) == 1022 && fraction_bits(0x3FE0000000000000u64) == 0
        && sign_bit(0x3FE0000000000000u64) == 0) by (bit_vector);
    assert(exponent_bits(0x4059000000000000u64) == 1029 && fraction_bits(0x4059000000000000u64) == 0x9000000000000
        && sign_bit(0x4059000000000000u64) == 0) by (bit_vector);
    assert(exponent_bits(0x43B0000000000000u64) == 1083 && fraction_bits(0x43B0000000000000u64) == 0
        && sign_bit(0x43B0000000000000u64) == 0) by (bit_vector);
    assert(exponent_bits(0x0000000000000001u64) == 0 && fraction_bits(0x0000000000000001u64) == 1
        && sign_bit(0x0000000000000001u64) == 0) by (bit_vector);
    assert(exponent_bits(0x7FF0000000000000u64) == 0x7ff && fraction_bits(0x7FF0000000000000u64) == 0
        && sign_bit(0x7FF0000000000000u64) == 0) by (bit_vector);
    assert(exponent_bits(0xFFF0000000000000u64) == 0x7ff && fraction_bits(0xFFF0000000000000u64) == 0
        && sign_bit(0xFFF0000000000000u64) == 1) by (bit_vector);
    assert(exponent_bits(0x7FF8000000000000u64) == 0x7ff && fraction_bits(0x7FF8000000000000u64) != 0) by (bit_vector);
    let p52 = two_pow(52);
    assert(p52 == 4503599627370496);
    assert(two_pow(53) == 2 * p52);
    // one and minus one: n * 2^52 against +-2^52
    assert((n * p52 < p52) == (n < 1) && (n * p52 == p52) == (n == 1)) by (nonlinear_arith)
        requires
            p52 > 0,
    ;
    assert((n * p52 < -p52) == (n < -1) && (n * p52 == -p52) == (n == -1)) by (nonlinear_arith)
        requires
            p52 > 0,
    ;
    // a half: n * 2^53 against 2^52
    assert((n * (2 * p52) < p52) == (2 * n < 1) && (n * (2 * p52) == p52) == (2 * n == 1)) by (nonlinear_arith)
        requires
            p52 > 0,
    ;
    // a hundred: (2^52 + 0x9000000000000) * 2^-46 == 100
    reveal_with_fuel(two_pow, 47);
    let p46 = two_pow(46);
    assert(p46 == 70368744177664);
    assert(p52 + 0x9000000000000 == 100 * p46);
    assert((n * p46 < 100 * p46) == (n < 100) && (n * p46 == 100 * p46) == (n == 100)) by (nonlinear_arith)
        requires
            p46 > 0,
    ;
    // two to the sixtieth: 2^52 * 2^8
    assert(two_pow(8) == 256) by {
        reveal_with_fuel(two_pow, 9);
    }
    assert(p52 * 256 == 0x1000000000000000);
    // the smallest positive double: 1 * 2^-1074
    lemma_two_pow_pos(1074);
    let pt = two_pow(1074);
    assert((n * pt < 1) == (n <= 0) && (n * pt != 1)) by (nonlinear_arith)
        requires
            pt > 1,
    ;
    // the zeros: 0 * 2^-1074
    assert((n * pt < 0) == (n < 0) && (n * pt == 0) == (n == 0)) by (nonlinear_arith)
        requires
            pt > 1,
    ;
}

proof fn lemma_two_pow_52()
    ensures
        two_pow(52) == 4503599627370496,
        two_pow(53) == 9007199254740992,
{
    reveal_with_fuel(two_pow, 54);
}

/// How `n` relates to the double whose bits are `bits`; this is what
/// `f64::from(n)` compared with that double gives.
pub fn compare_int_with_double(n: u32, bits: u64) -> (r: NumberOrder)
    ensures
        r == compare_with_double(n as int, bits),
{
    reveal(compare_with_double);
    let sign = bits >> 63u64;
    let exp = (bits >> 52u64) & 0x7ffu64;
    let frac = bits & 0xfffffffffffffu64;
    assert(sign <= 1) by (bit_vector)
        requires
            sign == bits >> 63u64,
    ;
    assert(exp <= 0x7ff) by (bit_vector)
        requires
            exp == (bits >> 52u64) & 0x7ffu64,
    ;
    assert(frac <= 0xfffffffffffff) by (bit_vector)
        requires
            frac == bits & 0xfffffffffffffu64,
    ;
    proof {
        lemma_two_pow_52();
    }
    if exp == 0x7ff {
        if frac == 0 {
            if sign == 1 {
                return NumberOrder::Greater;
            } else {
                return NumberOrder::Less;
            }
        } else {
            return NumberOrder::Unordered;
        }
    }
    let m: u64 = if exp == 0 {
        frac
    } else {
        frac + 4503599627370496u64
    };
    assert(m == significand(bits));
    assert(m < 9007199254740992);
    if exp >= 1075 {
        // scale >= 0: the double is at least 2^52 in size
        let ghost k = (exp - 1075) as nat;
        proof {
            lemma_two_pow_pos(k);
            assert(m * two_pow(k) >= m) by (nonlinear_arith)
                requires
                    two_pow(k) >= 1,
                    m >= 0,
            ;
            assert((-m) * two_pow(k) == -(m * two_pow(k))) by (nonlinear_arith);
        }
        if sign == 1 {
            return NumberOrder::Greater;
        } else {
            return NumberOrder::Less;
        }
    }
    // scale < 0: compare n * 2^j with the significand
    let j: u64 = if exp == 0 {
        1074
    } else {
        1075 - exp
    };
    assert(j as int == -scale(bits));
    if m == 0 {
        // a zero of either sign
        proof {
            lemma_two_pow_pos(j as nat);
            assert(n * two_pow(j as nat) >= 0) by (nonlinear_arith)
                requires
                    n >= 0,
                    two_pow(j as nat) >= 1,
            ;
            assert(n > 0 ==> n * two_pow(j as nat) > 0) by (nonlinear_arith)
                requires
                    two_pow(j as nat) >= 1,
            ;
            assert(n == 0 ==> n * two_pow(j as nat) == 0) by (nonlinear_arith);
        }
        if n == 0 {
            return NumberOrder::Equal;
        } else {
            return NumberOrder::Greater;
        }
    }
    if sign == 1 {
        proof {
            lemma_two_pow_pos(j as nat);
            assert(n * two_pow(j as nat) >= 0) by (nonlinear_arith)
                requires
                    n >= 0,
                    two_pow(j as nat) >= 1,
            ;
        }
        return NumberOrder::Greater;
    }
    if j >= 53 {
        proof {
            lemma_two_pow_mono(53, j as nat);
            assert(n >= 1 ==> n * two_pow(j as nat) >= two_pow(j as nat)) by (nonlinear_arith);
            assert(n == 0 ==> n * two_pow(j as nat) == 0) by (nonlinear_arith);
        }
        if n == 0 {
            return NumberOrder::Less;
        } else {
            return NumberOrder::Greater;
        }
    }
    let mut p: u128 = n as u128;
    let mut i: u64 = 0;
    assert(two_pow(0) == 1);
    assert(n * two_pow(0) == n) by (nonlinear_arith)
        requires
            two_pow(0) == 1,
    ;
    while i < j
        invariant
            j <= 52,
            i <= j,
            p == n * two_pow(i as nat),
            two_pow(52) == 4503599627370496,
        decreases j - i,
    {
        proof {
            lemma_two_pow_mono(i as nat, 52);
            assert(n * two_pow(i as nat) <= 4294967295 * 4503599627370496) by (nonlinear_arith)
                requires
                    n <= 4294967295,
                    two_pow(i as nat) <= 4503599627370496,
            ;
            assert(two_pow((i + 1) as nat) == 2 * two_pow(i as nat));
            assert(n * (2 * two_pow(i as nat)) == 2 * (n * two_pow(i as nat))) by (nonlinear_arith);
        }
        p = p * 2;
        i = i + 1;
    }
    if p < m as u128 {
        NumberOrder::Less
    } else if p == m as u128 {
        NumberOrder::Equal
    } else {
        NumberOrder::Greater
    }
}

/// Whether `c` starts the exponent of a number (`e`, in either case).
pub open spec fn is_exponent_mark(c: char) -> bool {
    c == 'e' || c == 'E'
}

/// The position of the first character at or after `i` that satisfies
/// `is_mark`; the length of `s` where there is none.
pub open spec fn first_from(s: Seq<char>, i: int, is_mark: spec_fn(char) -> bool) -> int
    decreases s.len() - i,
{
    if i < 0 || i >= s.len() {
        s.len() as int
    } else if is_mark(s[i]) {
        i
    } else {
        first_from(s, i + 1, is_mark)
    }
}

/// Every character in `[lo, hi)` is an ASCII digit.
pub open spec fn digits_in(s: Seq<char>, lo: int, hi: int) -> bool {
    forall|j: int| lo <= j < hi ==> '0' <= #[trigger] s[j] && s[j] <= '9'
}

/// A number without its sign, in the grammar of `str::parse::<f64>`:
/// digits with at most one `.` and at least one digit, then optionally
/// `e` (either case), a sign and at least one digit.
pub open spec fn is_decimal(b: Seq<char>) -> bool {
    let e = first_from(b, 0, |c: char| is_exponent_mark(c));
    let d = first_from(b, 0, |c: char| c == '.');
    let whole_end = if d < e {
        d
    } else {
        e
    };
    let k = if e + 1 < b.len() && (b[e + 1] == '+' || b[e + 1] == '-') {
        e + 2
    } else {
        e + 1
    };
    &&& digits_in(b, 0, whole_end)
    &&& d < e ==> digits_in(b, d + 1, e)
    &&& (whole_end > 0 || (d < e && e > d + 1))
    &&& e < b.len() ==> k < b.len() && digits_in(b, k, b.len() as int)
}

/// Whether `str::parse::<f64>` reads the text as a number: by its
/// documented grammar, an optional sign, then `inf`, `infinity`, `nan`
/// (in any case) or a decimal number (see `is_decimal`); nothing else,
/// no whitespace either.
pub open spec fn reads_as_number(s: Seq<char>) -> bool {
    let b = if s.len() > 0 && (s[0] == '+' || s[0] == '-') {
        s.drop_first()
    } else {
        s
    };
    ||| eq_ignore_ascii_case(b, seq!['i', 'n', 'f'])
    ||| eq_ignore_ascii_case(b, seq!['i', 'n', 'f', 'i', 'n', 'i', 't', 'y'])
    ||| eq_ignore_ascii_case(b, seq!['n', 'a', 'n'])
    ||| is_decimal(b)
}

proof fn lemma_first_from(s: Seq<char>, i: int, j: int, is_mark: spec_fn(char) -> bool)
    requires
        0 <= j <= i <= s.len(),
        i < s.len() ==> is_mark(s[i]),
        forall|k: int| j <= k < i ==> !is_mark(#[trigger] s[k]),
    ensures
        first_from(s, j, is_mark) == i,
    decreases i - j,
{
    if j < i {
        lemma_first_from(s, i, j + 1, is_mark);
    }
}

/// The position of the first exponent mark at or after `from`.
fn find_exponent(s: &Vec<char>, from: usize) -> (r: usize)
    requires
        from <= s@.len(),
    ensures
        r as int == first_from(s@, from as int, |c: char| is_exponent_mark(c)),
        from <= r <= s@.len(),
{
    let ghost f = |c: char| is_exponent_mark(c);
    let mut i = from;
    while i < s.len() && !(s[i] == 'e' || s[i] == 'E')
        invariant
            from <= i <= s@.len(),
            forall|k: int| from <= k < i ==> !is_exponent_mark(#[trigger] s@[k]),
        decreases s@.len() - i,
    {
        i = i + 1;
    }
    proof {
        assert forall|k: int| from <= k < i implies !f(#[trigger] s@[k]) by {}
        lemma_first_from(s@, i as int, from as int, f);
    }
    i
}

/// The position of the first `.` at or after `from`.
fn find_point(s: &Vec<char>, from: usize) -> (r: usize)
    requires
        from <= s@.len(),
    ensures
        r as int == first_from(s@, from as int, |c: char| c == '.'),
        from <= r <= s@.len(),
{
    let ghost f = |c: char| c == '.';
    let mut i = from;
    while i < s.len() && s[i] != '.'
        invariant
            from <= i <= s@.len(),
            forall|k: int| from <= k < i ==> #[trigger] s@[k] != '.',
        decreases s@.len() - i,
    {
        i = i + 1;
    }
    proof {
        assert forall|k: int| from <= k < i implies !f(#[trigger] s@[k]) by {}
        lemma_first_from(s@, i as int, from as int, f);
    }
    i
}

/// Whether every character in `[lo, hi)` is an ASCII digit.
fn digits_between(s: &Vec<char>, lo: usize, hi: usize) -> (r: bool)
    requires
        lo <= hi <= s@.len(),
    ensures
        r == digits_in(s@, lo as int, hi as int),
{
    let mut i = lo;
    while i < hi
        invariant
            lo <= i <= hi <= s@.len(),
            digits_in(s@, lo as int, i as int),
        decreases hi - i,
    {
        if !('0' <= s[i] && s[i] <= '9') {
            return false;
        }
        i = i + 1;
    }
    true
}

fn decimal_number(b: &Vec<char>) -> (r: bool)
    ensures
        r == is_decimal(b@),
{
    let e = find_exponent(b, 0);
    let d = find_point(b, 0);
    let whole_end = if d < e {
        d
    } else {
        e
    };
    if !digits_between(b, 0, whole_end) {
        return false;
    }
    if d < e && !digits_between(b, d + 1, e) {
        return false;
    }
    if !(whole_end > 0 || (d < e && e > d + 1)) {
        return false;
    }
    if e < b.len() {
        let mut k = e + 1;
        if k < b.len() && (b[k] == '+' || b[k] == '-') {
            k = k + 1;
        }
        k < b.len() && digits_between(b, k, b.len())
    } else {
        true
    }
}

/// Whether `str::parse::<f64>` reads the text as a number (see
/// `reads_as_number`).
pub fn parses_as_number(text: &str) -> (r: bool)
    ensures
        r == reads_as_number(text@),
{
    let s = chars_of(text);
    let signed = s.len() > 0 && (s[0] == '+' || s[0] == '-');
    let start: usize = if signed {
        1
    } else {
        0
    };
    let mut b: Vec<char> = Vec::new();
    let mut i = start;
    while i < s.len()
        invariant
            start <= i <= s@.len(),
            b@ == s@.subrange(start as int, i as int),
        decreases s@.len() - i,
    {
        b.push(s[i]);
        i = i + 1;
    }
    proof {
        if signed {
            assert(b@ =~= s@.drop_first());
        } else {
            assert(b@ =~= s@);
        }
    }
    let inf = vec!['i', 'n', 'f'];
    let infinity = vec!['i', 'n', 'f', 'i', 'n', 'i', 't', 'y'];
    let nan = vec!['n', 'a', 'n'];
    text_eq_ignore_ascii_case(&b, &inf) || text_eq_ignore_ascii_case(&b, &infinity) || text_eq_ignore_ascii_case(
        &b,
        &nan,
    ) || decimal_number(&b)
}

} // verus!
