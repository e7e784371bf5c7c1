//! Decimal integer literals: what counts as one, what it denotes, and
//! verified executable parsing and formatting that match those definitions.

use vstd::prelude::*;

verus! {

/// `c` is an ASCII decimal digit.
pub open spec fn is_digit(c: char) -> bool {
    48 <= c as int && c as int <= 57
}

/// The numeric value of an ASCII digit.
pub open spec fn digit_val(c: char) -> int {
    c as int - 48
}

/// The value of a run of digits read most-significant first.
pub open spec fn digits_value(s: Seq<char>) -> int
    decreases s.len(),
{
    if s.len() == 0 {
        0
    } else {
        digits_value(s.drop_last()) * 10 + digit_val(s.last())
    }
}

/// Every character of `s` is an ASCII digit.
pub open spec fn all_digits(s: Seq<char>) -> bool {
    forall|i: int| 0 <= i < s.len() ==> is_digit(#[trigger] s[i])
}

/// The token with its optional leading sign removed.
pub open spec fn unsigned_part(t: Seq<char>) -> Seq<char> {
    if t.len() > 0 && (t[0] == '+' || t[0] == '-') {
        t.drop_first()
    } else {
        t
    }
}

/// The signed mathematical value a literal token denotes.
pub open spec fn literal_signed_value(t: Seq<char>) -> int {
    if t.len() > 0 && t[0] == '-' {
        -digits_value(unsigned_part(t))
    } else {
        digits_value(unsigned_part(t))
    }
}

/// `t` is exactly what `i32` decimal parsing accepts: an optional `+` or `-`
/// sign, then at least one ASCII digit and nothing else, denoting a value
/// that fits in an `i32`.
pub open spec fn is_int_literal(t: Seq<char>) -> bool {
    &&& unsigned_part(t).len() > 0
    &&& all_digits(unsigned_part(t))
    &&& i32::MIN <= literal_signed_value(t) <= i32::MAX
}

/// The `i32` a literal token denotes.
pub open spec fn literal_value(t: Seq<char>) -> i32
    recommends
        is_int_literal(t),
{
    literal_signed_value(t) as i32
}

/// The character for a single digit value.
pub open spec fn digit_char(d: int) -> char {
    if d == 0 {
        '0'
    } else if d == 1 {
        '1'
    } else if d == 2 {
        '2'
    } else if d == 3 {
        '3'
    } else if d == 4 {
        '4'
    } else if d == 5 {
        '5'
    } else if d == 6 {
        '6'
    } else if d == 7 {
        '7'
    } else if d == 8 {
        '8'
    } else {
        '9'
    }
}

/// The decimal digits of `n`, most significant first, no leading zeros
/// (a single `0` for zero itself).
pub open spec fn dec_digits(n: nat) -> Seq<char>
    decreases n,
{
    if n < 10 {
        seq![digit_char(n as int)]
    } else {
        dec_digits(n / 10).push(digit_char((n % 10) as int))
    }
}

/// The canonical decimal text of a signed value: a `-` sign for negatives,
/// then the digits of the magnitude.
pub open spec fn dec_str_i32(v: int) -> Seq<char> {
    if v < 0 {
        seq!['-'] + dec_digits((-v) as nat)
    } else {
        dec_digits(v as nat)
    }
}

/// A run of digits denotes a value no less than zero.
pub proof fn lemma_digits_value_nonneg(s: Seq<char>)
    requires
        all_digits(s),
    ensures
        digits_value(s) >= 0,
    decreases s.len(),
{
    if s.len() > 0 {
        assert(all_digits(s.drop_last()));
        lemma_digits_value_nonneg(s.drop_last());
    }
}

/// Dropping trailing digits never increases the denoted value.
pub proof fn lemma_digits_prefix_le(s: Seq<char>, k: int)
    requires
        all_digits(s),
        0 <= k <= s.len(),
    ensures
        digits_value(s.take(k)) <= digits_value(s),
    decreases s.len() - k,
{
    if k < s.len() {
        lemma_digits_prefix_le(s, k + 1);
        let p = s.take(k + 1);
        assert(p.drop_last() =~= s.take(k));
        assert(all_digits(p));
        lemma_digits_value_nonneg(s.take(k));
        assert(digits_value(p) == digits_value(s.take(k)) * 10 + digit_val(p.last()));
        assert(digits_value(s.take(k)) * 10 >= digits_value(s.take(k)));
        assert(digit_val(p.last()) >= 0);
    } else {
        assert(s.take(k) =~= s);
    }
}

/// Parses `t` exactly as `i32` decimal parsing does: `Some` with the denoted
/// value when `t` is an integer literal in range, `None` otherwise.
pub fn parse_int_token(t: &str) -> (r: Option<i32>)
    ensures
        match r {
            Some(v) => is_int_literal(t@) && v == literal_value(t@),
            None => !is_int_literal(t@),
        },
{
    let n = t.unicode_len();
    let mut start: usize = 0;
    let mut neg = false;
    if n > 0 {
        let c0 = t.get_char(0);
        if c0 == '+' || c0 == '-' {
            start = 1;
            neg = c0 == '-';
        }
    }
    let ghost digits = unsigned_part(t@);
    proof {
        assert(digits =~= t@.subrange(start as int, n as int));
    }
    if start >= n {
        assert(digits.len() == 0);
        return None;
    }
    // First pass: every remaining character must be a digit.
    let mut i: usize = start;
    while i < n
        invariant
            start <= i <= n,
            n == t@.len(),
            digits == unsigned_part(t@),
            digits == t@.subrange(start as int, n as int),
            forall|j: int| start <= j < i ==> is_digit(#[trigger] t@[j]),
        decreases n - i,
    {
        let c = t.get_char(i);
        let cu = c as u32;
        if !(48 <= cu && cu <= 57) {
            assert(!is_digit(digits[i - start as int]));
            return None;
        }
        assert(is_digit(t@[i as int]));
        i = i + 1;
    }
    assert(all_digits(digits));
    // Second pass: accumulate the magnitude, stopping once it can no longer
    // fit in an `i32` of either sign.
    let mut m: u64 = 0;
    let mut i2: usize = start;
    proof {
        assert(digits.take(0) =~= Seq::<char>::empty());
        assert(digits_value(Seq::<char>::empty()) == 0);
    }
    while i2 < n
        invariant
            start <= i2 <= n,
            n == t@.len(),
            digits == unsigned_part(t@),
            digits == t@.subrange(start as int, n as int),
            all_digits(digits),
            m == digits_value(digits.take(i2 - start as int)),
            m <= 2147483648,
        decreases n - i2,
    {
        let c = t.get_char(i2);
        assert(is_digit(digits[i2 - start as int]));
        assert(is_digit(t@[i2 as int]));
        let d: u64 = (c as u32 - 48) as u64;
        let m2: u64 = m * 10 + d;
        proof {
            let k = i2 - start as int;
            assert(digits.take(k + 1).drop_last() =~= digits.take(k));
            assert(digits.take(k + 1).last() == digits[k]);
            assert(digits[k] == t@[i2 as int]);
            assert(d as int == digit_val(digits[k]));
            assert(digits_value(digits.take(k + 1)) == digits_value(digits.take(k)) * 10
                + digit_val(digits[k]));
            assert(digits_value(digits.take(k + 1)) == m2 as int);
        }
        if m2 > 2147483648 {
            proof {
                let k = i2 + 1 - start as int;
                lemma_digits_prefix_le(digits, k);
                lemma_digits_value_nonneg(digits);
                assert(digits_value(digits) >= m2 > 2147483648);
                assert(literal_signed_value(t@) > i32::MAX || literal_signed_value(t@) < i32::MIN);
            }
            return None;
        }
        m = m2;
        i2 = i2 + 1;
    }
    proof {
        assert(digits.take(n - start as int) =~= digits);
    }
    if neg {
        assert(t@[0] == '-');
        assert(literal_signed_value(t@) == -(m as int));
        let v: i32 = (-(m as i64)) as i32;
        Some(v)
    } else {
        assert(!(t@.len() > 0 && t@[0] == '-'));
        assert(literal_signed_value(t@) == m as int);
        if m >= 2147483648 {
            return None;
        }
        Some(m as i32)
    }
}

/// The text of one digit value.
fn digit_str(d: u32) -> (r: &'static str)
    requires
        d < 10,
    ensures
        r@ =~= seq![digit_char(d as int)],
{
    proof {
        reveal_strlit("0");
        reveal_strlit("1");
        reveal_strlit("2");
        reveal_strlit("3");
        reveal_strlit("4");
        reveal_strlit("5");
        reveal_strlit("6");
        reveal_strlit("7");
        reveal_strlit("8");
        reveal_strlit("9");
    }
    match d {
        0 => "0",
        1 => "1",
        2 => "2",
        3 => "3",
        4 => "4",
        5 => "5",
        6 => "6",
        7 => "7",
        8 => "8",
        _ => "9",
    }
}

/// Appends the decimal digits of `m` to `out`.
fn push_digits(out: &mut String, m: u32)
    ensures
        final(out)@ == old(out)@ + dec_digits(m as nat),
    decreases m,
{
    if m < 10 {
        out.append(digit_str(m));
    } else {
        push_digits(out, m / 10);
        out.append(digit_str(m % 10));
        assert(out@ =~= old(out)@ + dec_digits(m as nat));
    }
}

/// Renders `v` as its canonical decimal text.
pub fn format_i32(v: i32) -> (r: String)
    ensures
        r@ == dec_str_i32(v as int),
{
    let mut s = String::new();
    if v < 0 {
        proof {
            reveal_strlit("-");
        }
        s.append("-");
        let mag: u32 = (-(v as i64)) as u32;
        push_digits(&mut s, mag);
        assert(s@ =~= dec_str_i32(v as int));
        s
    } else {
        push_digits(&mut s, v as u32);
        assert(s@ =~= dec_str_i32(v as int));
        s
    }
}

/// The digits of `n` denote `n` itself, and are digits with no sign.
pub proof fn lemma_dec_digits_value(n: nat)
    ensures
        digits_value(dec_digits(n)) == n,
        all_digits(dec_digits(n)),
        dec_digits(n).len() > 0,
        is_digit(dec_digits(n)[0]),
    decreases n,
{
    if n < 10 {
        let w = dec_digits(n);
        assert(w =~= seq![digit_char(n as int)]);
        assert(w.drop_last() =~= Seq::<char>::empty());
        assert(digits_value(Seq::<char>::empty()) == 0);
        assert(digits_value(w) == digit_val(digit_char(n as int)));
        assert(digit_val(digit_char(n as int)) == n);
    } else {
        lemma_dec_digits_value(n / 10);
        let w = dec_digits(n / 10).push(digit_char((n % 10) as int));
        assert(w.drop_last() =~= dec_digits(n / 10));
        assert(digit_val(digit_char((n % 10) as int)) == n % 10);
        assert(digits_value(w) == (n / 10) * 10 + n % 10);
        assert((n / 10) * 10 + n % 10 == n) by (nonlinear_arith);
        assert(forall|i: int| 0 <= i < w.len() ==> is_digit(#[trigger] w[i]));
    }
}

/// Formatting then parsing is the identity: the canonical text of any `i32`
/// is an integer literal and denotes that same value.
pub proof fn lemma_dec_round_trip(v: i32)
    ensures
        is_int_literal(dec_str_i32(v as int)),
        literal_value(dec_str_i32(v as int)) == v,
{
    let t = dec_str_i32(v as int);
    if v < 0 {
        lemma_dec_digits_value((-(v as int)) as nat);
        assert(t[0] == '-');
        assert(unsigned_part(t) =~= dec_digits((-(v as int)) as nat));
        assert(literal_signed_value(t) == v as int);
    } else {
        lemma_dec_digits_value(v as nat);
        assert(unsigned_part(t) =~= dec_digits(v as nat));
        assert(literal_signed_value(t) == v as int);
    }
}

} // verus!
