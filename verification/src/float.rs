//! Floating-point numbers in Python's notation, from their digits in scientific notation.
use vstd::prelude::*;

pub use crate::json::Float;
use crate::json::FloatModel;
use crate::number::{all_digits, decimal, i64_value, parse_i64, push_decimal};
use crate::pattern::ascii_digit;
use crate::pystr::char_len;
use crate::text::{find_char, first_where, is_char, lemma_chars_fit_bytes, split_chars};

verus! {

/// `n` zeros.
pub open spec fn zeros(n: nat) -> Seq<char> {
    Seq::new(n, |i: int| '0')
}

/// `n` in decimal notation with at least two digits.
pub open spec fn two_digits(n: nat) -> Seq<char> {
    if n < 10 {
        seq!['0'] + decimal(n)
    } else {
        decimal(n)
    }
}

/// `-` for a negative number.
pub open spec fn sign_text(negative: bool) -> Seq<char> {
    if negative {
        seq!['-']
    } else {
        seq![]
    }
}

/// Scientific notation with a signed exponent of at least two digits.
pub open spec fn scientific_text(digits: Seq<char>, e: int) -> Seq<char> {
    let mantissa = if digits.len() <= 1 {
        digits
    } else {
        digits.take(1) + seq!['.'] + digits.skip(1)
    };
    let sign = if e < 0 {
        '-'
    } else {
        '+'
    };
    let size = if e < 0 {
        -e
    } else {
        e
    };
    mantissa + seq!['e', sign] + two_digits(size as nat)
}

/// Positional notation, with at least one digit on either side of the point.
pub open spec fn positional_text(digits: Seq<char>, e: int) -> Seq<char> {
    if e < 0 {
        seq!['0', '.'] + zeros((-e - 1) as nat) + digits
    } else if digits.len() <= e + 1 {
        digits + zeros((e + 1 - digits.len()) as nat) + seq!['.', '0']
    } else {
        digits.take(e + 1) + seq!['.'] + digits.skip(e + 1)
    }
}

/// `repr(float)`: positional notation while the leading digit stands for a power of ten from -4 to
/// 15, else scientific notation.
pub open spec fn float_repr(f: FloatModel) -> Seq<char> {
    sign_text(f.negative) + if f.exponent < -4 || f.exponent >= 16 {
        scientific_text(f.digits, f.exponent)
    } else {
        positional_text(f.digits, f.exponent)
    }
}

/// The digits of a mantissa, without its point.
pub open spec fn without_point(s: Seq<char>) -> Seq<char> {
    s.filter(|c: char| c != '.')
}

/// What a text in scientific notation denotes: a sign if negative, a mantissa, `e` and an exponent.
pub open spec fn scientific(s: Seq<char>) -> Option<FloatModel> {
    let negative = s.len() > 0 && s[0] == '-';
    let body = if negative {
        s.skip(1)
    } else {
        s
    };
    let k = first_where(body, is_char('e'));
    let digits = without_point(body.take(k));
    match i64_value(body.skip(k + 1)) {
        Some(e) if k < body.len() && i32::MIN <= e <= i32::MAX && digits.len() > 0 && all_digits(digits) => Some(
            FloatModel { negative, digits, exponent: e as int },
        ),
        _ => None,
    }
}

/// How many decimal digits `s` holds.
pub open spec fn count_digits(s: Seq<char>) -> nat {
    s.filter(|c: char| ascii_digit(c)).len()
}

/// How many digits the mantissa of a text in scientific notation has; 0 if there is no `e`.
pub open spec fn mantissa_digits(s: Seq<char>) -> nat {
    let k = first_where(s, is_char('e'));
    if k < s.len() {
        count_digits(s.take(k))
    } else {
        0
    }
}

/// The precision that is one digit less than the mantissa of a text in scientific notation has; none
/// for a single digit.
pub open spec fn precision(s: Seq<char>) -> Option<usize> {
    if mantissa_digits(s) > 1 {
        Some((mantissa_digits(s) - 1) as usize)
    } else {
        None
    }
}

/// Appends `n` zeros.
fn push_zeros(out: &mut String, n: usize)
    ensures
        final(out)@ == old(out)@ + zeros(n as nat),
{
    let mut i: usize = 0;
    assert(out@ =~= old(out)@ + zeros(0));
    while i < n
        invariant
            i <= n,
            out@ == old(out)@ + zeros(i as nat),
        decreases n - i,
    {
        out.push('0');
        i = i + 1;
        assert(out@ =~= old(out)@ + zeros(i as nat));
    }
}

/// Appends a number in scientific notation.
fn push_scientific(out: &mut String, digits: &str, exponent: i32)
    ensures
        final(out)@ == old(out)@ + scientific_text(digits@, exponent as int),
{
    if char_len(digits) <= 1 {
        out.append(digits);
    } else {
        let (head, tail) = split_chars(digits, 1);
        out.append(head);
        out.push('.');
        out.append(tail);
    }
    out.push('e');
    let size: u64 = if exponent < 0 {
        out.push('-');
        (-(exponent as i64)) as u64
    } else {
        out.push('+');
        exponent as u64
    };
    if size < 10 {
        out.push('0');
    }
    push_decimal(out, size);
    assert(out@ =~= old(out)@ + scientific_text(digits@, exponent as int));
}

/// Appends a number in positional notation.
fn push_positional(out: &mut String, digits: &str, exponent: i32)
    requires
        -4 <= exponent < 16,
    ensures
        final(out)@ == old(out)@ + positional_text(digits@, exponent as int),
{
    let n: usize = char_len(digits);
    if exponent < 0 {
        out.push('0');
        out.push('.');
        push_zeros(out, (-exponent - 1) as usize);
        out.append(digits);
    } else {
        let point: usize = exponent as usize + 1;
        if n <= point {
            out.append(digits);
            push_zeros(out, point - n);
            out.push('.');
            out.push('0');
        } else {
            let (head, tail) = split_chars(digits, point);
            out.append(head);
            out.push('.');
            out.append(tail);
        }
    }
    assert(out@ =~= old(out)@ + positional_text(digits@, exponent as int));
}

/// `repr(float)` of a number that is given by its digits.
pub fn py_float_repr(f: &Float) -> (r: String)
    ensures
        r@ == float_repr(f@),
{
    let mut out = String::new();
    if f.negative {
        out.push('-');
    }
    assert(out@ =~= sign_text(f.negative));
    if f.exponent < -4 || f.exponent >= 16 {
        push_scientific(&mut out, f.digits.as_str(), f.exponent);
    } else {
        push_positional(&mut out, f.digits.as_str(), f.exponent);
    }
    out
}

/// Filtering one character more.
proof fn lemma_filter_push(s: Seq<char>, c: char, p: spec_fn(char) -> bool)
    ensures
        s.push(c).filter(p) == if p(c) {
            s.filter(p).push(c)
        } else {
            s.filter(p)
        },
{
    reveal(Seq::filter);
    assert(s.push(c).drop_last() =~= s);
}

/// The characters of `s` other than points.
fn drop_points(s: &str) -> (r: String)
    ensures
        r@ == without_point(s@),
{
    let mut out = String::new();
    let mut it = s.chars();
    let ghost mut n: int = 0;
    let ghost p = |c: char| c != '.';
    proof {
        assert(s@.skip(0) =~= s@);
        reveal(Seq::filter);
        assert(s@.take(0).filter(p) =~= Seq::<char>::empty());
    }
    loop
        invariant
            0 <= n <= s@.len(),
            vstd::std_specs::iter::IteratorSpec::remaining(&it) == s@.skip(n),
            p == (|c: char| c != '.'),
            out@ == s@.take(n).filter(p),
        decreases s@.len() - n,
    {
        match it.next() {
            None => {
                assert(s@.take(n) =~= s@);
                return out;
            },
            Some(c) => {
                proof {
                    assert(s@.skip(n)[0] == s@[n]);
                    assert(s@.skip(n).drop_first() =~= s@.skip(n + 1));
                    assert(s@.take(n + 1) =~= s@.take(n).push(c));
                    lemma_filter_push(s@.take(n), c, p);
                    n = n + 1;
                }
                if c != '.' {
                    out.push(c);
                }
            },
        }
    }
}

/// How many decimal digits `s` holds.
fn digit_count(s: &str) -> (r: usize)
    ensures
        r == count_digits(s@),
{
    let total: usize = s.as_bytes().len();
    let mut count: usize = 0;
    let mut it = s.chars();
    let ghost mut n: int = 0;
    let ghost p = |c: char| ascii_digit(c);
    proof {
        lemma_chars_fit_bytes(s@);
        assert(s@.skip(0) =~= s@);
        reveal(Seq::filter);
        assert(s@.take(0).filter(p) =~= Seq::<char>::empty());
    }
    loop
        invariant
            0 <= n <= s@.len() <= total,
            vstd::std_specs::iter::IteratorSpec::remaining(&it) == s@.skip(n),
            p == (|c: char| ascii_digit(c)),
            count == s@.take(n).filter(p).len(),
            count <= n,
        decreases s@.len() - n,
    {
        match it.next() {
            None => {
                assert(s@.take(n) =~= s@);
                return count;
            },
            Some(c) => {
                proof {
                    assert(s@.skip(n)[0] == s@[n]);
                    assert(s@.skip(n).drop_first() =~= s@.skip(n + 1));
                    assert(s@.take(n + 1) =~= s@.take(n).push(c));
                    lemma_filter_push(s@.take(n), c, p);
                    n = n + 1;
                }
                if '0' <= c && c <= '9' {
                    count = count + 1;
                }
            },
        }
    }
}

/// The precision at which a number with the given shortest digits is to be formatted once more, so
/// that a tie between two shortest candidates goes to the even digit; `None` for a single digit.
pub fn tie_precision(sci: &str) -> (r: Option<usize>)
    ensures
        r == if mantissa_digits(sci@) > 1 {
            Some((mantissa_digits(sci@) - 1) as usize)
        } else {
            None
        },
        r == precision(sci@),
{
    let k: usize = find_char(sci, |x: char| -> (b: bool) ensures b == (x == 'e') { x == 'e' }, Ghost(is_char('e')));
    let (mantissa, rest) = split_chars(sci, k);
    if rest.is_empty() {
        return None;
    }
    let n: usize = digit_count(mantissa);
    if n > 1 {
        Some(n - 1)
    } else {
        None
    }
}

impl Float {
    /// The number that a text in scientific notation denotes, such as `-1.5e-7`.
    pub fn from_scientific(sci: &str) -> (r: Option<Float>)
        ensures
            (match r {
                Some(f) => Some(f@),
                None => None,
            }) == scientific(sci@),
    {
        let negative = match sci.chars().next() {
            Some('-') => true,
            _ => false,
        };
        let body = if negative {
            split_chars(sci, 1).1
        } else {
            sci
        };
        let k: usize = find_char(body, |x: char| -> (b: bool) ensures b == (x == 'e') { x == 'e' }, Ghost(is_char('e')));
        let (mantissa, rest) = split_chars(body, k);
        if rest.is_empty() {
            return None;
        }
        let (_, exponent) = split_chars(rest, 1);
        assert(body@.skip(k as int).skip(1) =~= body@.skip(k + 1));
        let digits = drop_points(mantissa);
        let odd: usize = find_char(digits.as_str(), |c: char| -> (b: bool) ensures b == !ascii_digit(c) { !('0' <= c && c <= '9') }, Ghost(|c: char| !ascii_digit(c)));
        if digits.as_str().is_empty() || odd < char_len(digits.as_str()) {
            return None;
        }
        match parse_i64(exponent) {
            Some(e) if i32::MIN as i64 <= e && e <= i32::MAX as i64 => Some(
                Float { negative, digits, exponent: e as i32 },
            ),
            _ => None,
        }
    }
}

} // verus!
