//! Laws of numbers: what is written reads back as the same number.
use vstd::arithmetic::power::{lemma_pow0, lemma_pow1, lemma_pow_adds, pow};
use vstd::prelude::*;

use crate::dumps::number_repr;
use crate::float::{float_repr, positional_text, scientific_text, sign_text, two_digits, zeros};
use crate::json::{FloatModel, NumberModel};
use crate::number::{all_digits, decimal, digit_char, digits_value, hex4, integer_value, signed_decimal};
use crate::pattern::ascii_digit;
use crate::text::{first_where, is_char, lemma_first_where_unique};

verus! {

/// The mantissa of a number has digits and nothing else.
pub open spec fn valid_float(f: FloatModel) -> bool {
    f.digits.len() > 0 && all_digits(f.digits)
}

/// An integer is written in digits, of which there is one at least.
pub proof fn law_decimal_is_digits(n: nat)
    ensures
        decimal(n).len() > 0,
        all_digits(decimal(n)),
    decreases n,
{
    if n >= 10 {
        law_decimal_is_digits(n / 10);
        let before = decimal(n / 10);
        assert forall|i: int| 0 <= i < decimal(n).len() implies ascii_digit(#[trigger] decimal(n)[i]) by {
            if i < before.len() {
                assert(decimal(n)[i] == before[i]);
            }
        }
    }
}

/// The digits of an integer denote it.
pub proof fn law_decimal_reads_back(n: nat)
    ensures
        digits_value(decimal(n)) == n,
        n > 0 ==> decimal(n)[0] != '0',
    decreases n,
{
    let s = decimal(n);
    if n < 10 {
        assert(s.drop_last() =~= seq![]);
        assert(digits_value(s.drop_last()) == 0);
    } else {
        law_decimal_reads_back(n / 10);
        law_decimal_is_digits(n / 10);
        assert(s.drop_last() =~= decimal(n / 10));
        assert(s[0] == decimal(n / 10)[0]);
    }
}

/// An integer reads back from its notation.
pub proof fn law_integer_reads_back(n: int)
    ensures
        integer_value(signed_decimal(n)) == Some(n),
{
    let m = if n < 0 {
        (-n) as nat
    } else {
        n as nat
    };
    let s = signed_decimal(n);
    law_decimal_reads_back(m);
    law_decimal_is_digits(m);
    if n < 0 {
        assert(s.drop_first() =~= decimal(m));
    } else {
        assert(ascii_digit(s[0]));
    }
}

/// Zeros in front change nothing.
pub proof fn lemma_leading_zeros(k: nat, s: Seq<char>)
    ensures
        digits_value(zeros(k) + s) == digits_value(s),
    decreases s.len(), k,
{
    let t = zeros(k) + s;
    if s.len() > 0 {
        lemma_leading_zeros(k, s.drop_last());
        assert(t.drop_last() =~= zeros(k) + s.drop_last());
    } else if k > 0 {
        lemma_leading_zeros((k - 1) as nat, s);
        assert(t.drop_last() =~= zeros((k - 1) as nat) + s);
    }
}

/// Every zero behind multiplies by ten.
proof fn lemma_trailing_zeros(s: Seq<char>, k: nat)
    ensures
        digits_value(s + zeros(k)) == digits_value(s) * pow(10, k),
    decreases k,
{
    let t = s + zeros(k);
    if k == 0 {
        assert(t =~= s);
        lemma_pow0(10);
    } else {
        let j = (k - 1) as nat;
        lemma_trailing_zeros(s, j);
        assert(t.drop_last() =~= s + zeros(j));
        lemma_pow_adds(10, j, 1);
        lemma_pow1(10);
        let v = digits_value(s);
        let p = pow(10, j);
        assert(v * p * 10 == v * (p * 10)) by (nonlinear_arith);
    }
}

/// The power of ten that the last digit of a mantissa stands for.
pub open spec fn last_power(f: FloatModel) -> int {
    f.exponent + 1 - f.digits.len()
}

/// `m` times ten to the `x` equals `n` times ten to the `y`.
pub open spec fn same_scaled(m: int, x: int, n: int, y: int) -> bool {
    if x <= y {
        m == n * pow(10, (y - x) as nat)
    } else {
        n == m * pow(10, (x - y) as nat)
    }
}

/// The two are the same number with the same sign.
pub open spec fn same_float(f: FloatModel, g: FloatModel) -> bool {
    f.negative == g.negative && same_scaled(digits_value(f.digits), last_power(f), digits_value(g.digits), last_power(g))
}

/// The number with the digits that its notation shows.
pub open spec fn spelled(f: FloatModel) -> FloatModel {
    let d = f.digits;
    let e = f.exponent;
    if -4 <= e < 0 {
        FloatModel { digits: seq!['0'] + zeros((-e - 1) as nat) + d, exponent: 0, ..f }
    } else if 0 <= e < 16 && d.len() <= e + 1 {
        FloatModel { digits: d + zeros((e + 1 - d.len()) as nat) + seq!['0'], ..f }
    } else {
        f
    }
}

/// Writing a number out keeps its value.
pub proof fn law_spelling_keeps_the_number(f: FloatModel)
    ensures
        same_float(spelled(f), f),
{
    let d = f.digits;
    let e = f.exponent;
    if -4 <= e < 0 {
        let k = (-e) as nat;
        assert(seq!['0'] + zeros((-e - 1) as nat) + d =~= zeros(k) + d);
        lemma_leading_zeros(k, d);
        lemma_pow0(10);
    } else if 0 <= e < 16 && d.len() <= e + 1 {
        let k = (e + 2 - d.len()) as nat;
        assert(d + zeros((e + 1 - d.len()) as nat) + seq!['0'] =~= d + zeros(k));
        lemma_trailing_zeros(d, k);
    } else {
        lemma_pow0(10);
    }
}

/// The mark of an exponent.
pub open spec fn exponent_mark(c: char) -> bool {
    c == 'e' || c == 'E'
}

/// What a notation with a point or an exponent denotes: an optional minus, digits, an optional
/// point with digits behind it, and an optional exponent.
pub open spec fn read_float(t: Seq<char>) -> Option<FloatModel> {
    let negative = t.len() > 0 && t[0] == '-';
    let body = if negative {
        t.skip(1)
    } else {
        t
    };
    let k = first_where(body, |c: char| exponent_mark(c));
    let mantissa = body.take(k);
    let p = first_where(mantissa, is_char('.'));
    let whole = mantissa.take(p);
    let fraction = if p < mantissa.len() {
        mantissa.skip(p + 1)
    } else {
        seq![]
    };
    let shift = if k < body.len() {
        integer_value(body.skip(k + 1))
    } else {
        Some(0)
    };
    if whole.len() > 0 && all_digits(whole) && all_digits(fraction) && (p < mantissa.len() ==> fraction.len() > 0)
        && shift is Some {
        Some(FloatModel { negative, digits: whole + fraction, exponent: whole.len() - 1 + shift->0 })
    } else {
        None
    }
}

/// What a notation of a number denotes. One without a point and an exponent is an integer.
pub open spec fn read_number(t: Seq<char>) -> Option<NumberModel> {
    if t.contains('.') || t.contains('e') || t.contains('E') {
        match read_float(t) {
            Some(f) => Some(NumberModel::Float(f)),
            None => None,
        }
    } else if t.len() > 0 && t[0] == '+' {
        None
    } else {
        match integer_value(t) {
            Some(n) => Some(NumberModel::Int(n)),
            None => None,
        }
    }
}

/// A mantissa with a point and no exponent.
proof fn lemma_read_mantissa(negative: bool, whole: Seq<char>, fraction: Seq<char>)
    requires
        whole.len() > 0,
        fraction.len() > 0,
        all_digits(whole),
        all_digits(fraction),
    ensures
        read_float(sign_text(negative) + (whole + seq!['.'] + fraction)) == Some(
            FloatModel { negative, digits: whole + fraction, exponent: whole.len() - 1 },
        ),
{
    let body = whole + seq!['.'] + fraction;
    let t = sign_text(negative) + body;
    let mark = |c: char| exponent_mark(c);
    assert(ascii_digit(whole[0]));
    assert(body[0] == whole[0]);
    if negative {
        assert(t.skip(1) =~= body);
    } else {
        assert(t =~= body);
    }
    assert forall|i: int| 0 <= i < body.len() implies !mark(#[trigger] body[i]) by {
        if i < whole.len() {
            assert(ascii_digit(whole[i]));
        } else if i > whole.len() {
            assert(ascii_digit(fraction[i - whole.len() - 1]));
        }
    }
    lemma_first_where_unique(body, mark, body.len() as int);
    lemma_read_point(body, whole, fraction);
}

/// Where the point of a mantissa is, and what stands around it.
proof fn lemma_read_point(body: Seq<char>, whole: Seq<char>, fraction: Seq<char>)
    requires
        body == whole + seq!['.'] + fraction,
        all_digits(whole),
    ensures
        body.take(body.len() as int) == body,
        first_where(body, is_char('.')) == whole.len(),
        body.take(whole.len() as int) == whole,
        body.skip(whole.len() as int + 1) == fraction,
{
    assert(body.take(body.len() as int) =~= body);
    assert forall|i: int| 0 <= i < whole.len() implies !is_char('.')(#[trigger] body[i]) by {
        assert(ascii_digit(whole[i]));
        assert(body[i] == whole[i]);
    }
    lemma_first_where_unique(body, is_char('.'), whole.len() as int);
    assert(body.take(whole.len() as int) =~= whole);
    assert(body.skip(whole.len() as int + 1) =~= fraction);
}

/// An exponent of at least two digits reads back.
proof fn lemma_read_exponent(e: int)
    ensures
        ({
            let sign = if e < 0 {
                '-'
            } else {
                '+'
            };
            let size = if e < 0 {
                -e
            } else {
                e
            };
            integer_value(seq![sign] + two_digits(size as nat)) == Some(e)
        }),
{
    let sign = if e < 0 {
        '-'
    } else {
        '+'
    };
    let size = (if e < 0 {
        -e
    } else {
        e
    }) as nat;
    let t = seq![sign] + two_digits(size);
    law_decimal_reads_back(size);
    law_decimal_is_digits(size);
    lemma_leading_zeros(1, decimal(size));
    assert(seq!['0'] + decimal(size) =~= zeros(1) + decimal(size));
    assert(t.drop_first() =~= two_digits(size));
    assert(all_digits(two_digits(size))) by {
        assert forall|i: int| 0 <= i < two_digits(size).len() implies ascii_digit(#[trigger] two_digits(size)[i]) by {
            if size < 10 && i > 0 {
                assert(two_digits(size)[i] == decimal(size)[i - 1]);
            }
        }
    }
}

/// Scientific notation reads back.
proof fn lemma_read_scientific(f: FloatModel)
    requires
        valid_float(f),
    ensures
        read_float(sign_text(f.negative) + scientific_text(f.digits, f.exponent)) == Some(f),
{
    let d = f.digits;
    let e = f.exponent;
    let sign = if e < 0 {
        '-'
    } else {
        '+'
    };
    let size = (if e < 0 {
        -e
    } else {
        e
    }) as nat;
    let mantissa = if d.len() <= 1 {
        d
    } else {
        d.take(1) + seq!['.'] + d.skip(1)
    };
    let body = scientific_text(d, e);
    let t = sign_text(f.negative) + body;
    let mark = |c: char| exponent_mark(c);
    let k = mantissa.len() as int;
    assert(ascii_digit(d[0]));
    assert(body[0] == d[0]);
    if f.negative {
        assert(t.skip(1) =~= body);
    } else {
        assert(t =~= body);
    }
    assert forall|i: int| 0 <= i < k implies !mark(#[trigger] body[i]) by {
        assert(body[i] == mantissa[i]);
        if d.len() <= 1 || i == 0 {
            assert(ascii_digit(d[i]));
        } else if i > 1 {
            assert(ascii_digit(d[i - 1]));
        }
    }
    assert(body[k] == 'e');
    lemma_first_where_unique(body, mark, k);
    assert(body.take(k) =~= mantissa);
    assert(body.skip(k + 1) =~= seq![sign] + two_digits(size));
    lemma_read_exponent(e);
    if d.len() > 1 {
        assert(all_digits(d.take(1)));
        assert(all_digits(d.skip(1))) by {
            assert forall|i: int| 0 <= i < d.skip(1).len() implies ascii_digit(#[trigger] d.skip(1)[i]) by {
                assert(d.skip(1)[i] == d[i + 1]);
            }
        }
        lemma_read_point(mantissa, d.take(1), d.skip(1));
        assert(d.take(1) + d.skip(1) =~= d);
    } else {
        assert forall|i: int| 0 <= i < k implies !is_char('.')(#[trigger] mantissa[i]) by {
            assert(ascii_digit(d[i]));
        }
        lemma_first_where_unique(mantissa, is_char('.'), k);
        assert(mantissa.take(k) =~= d);
        assert(d + Seq::<char>::empty() =~= d);
    }
}

/// The notation of a number reads back as the number that it spells.
proof fn lemma_read_spelled(f: FloatModel)
    requires
        valid_float(f),
    ensures
        read_float(float_repr(f)) == Some(spelled(f)),
{
    let d = f.digits;
    let e = f.exponent;
    if e < -4 || e >= 16 {
        lemma_read_scientific(f);
    } else if e < 0 {
        let fraction = zeros((-e - 1) as nat) + d;
        assert forall|i: int| 0 <= i < fraction.len() implies ascii_digit(#[trigger] fraction[i]) by {
            if i >= -e - 1 {
                assert(fraction[i] == d[i + e + 1]);
            }
        }
        lemma_read_mantissa(f.negative, seq!['0'], fraction);
        assert(seq!['0'] + seq!['.'] + fraction =~= positional_text(d, e));
        assert(seq!['0'] + fraction =~= spelled(f).digits);
    } else if d.len() <= e + 1 {
        let pad = zeros((e + 1 - d.len()) as nat);
        let whole = d + pad;
        assert forall|i: int| 0 <= i < whole.len() implies ascii_digit(#[trigger] whole[i]) by {
            if i < d.len() {
                assert(whole[i] == d[i]);
            }
        }
        lemma_read_mantissa(f.negative, whole, seq!['0']);
        assert(whole + seq!['.'] + seq!['0'] =~= positional_text(d, e));
    } else {
        let whole = d.take(e + 1);
        let fraction = d.skip(e + 1);
        assert forall|i: int| 0 <= i < fraction.len() implies ascii_digit(#[trigger] fraction[i]) by {
            assert(fraction[i] == d[i + e + 1]);
        }
        assert(all_digits(whole));
        lemma_read_mantissa(f.negative, whole, fraction);
        assert(whole + fraction =~= d);
    }
}

/// The notation of a floating-point number never looks like that of an integer: it has a point or
/// an exponent.
pub proof fn law_float_repr_is_no_integer(f: FloatModel)
    ensures
        float_repr(f).contains('.') || float_repr(f).contains('e'),
{
    let d = f.digits;
    let e = f.exponent;
    let s = float_repr(f);
    let n = sign_text(f.negative).len() as int;
    if e < -4 || e >= 16 {
        let k = if d.len() <= 1 {
            d.len()
        } else {
            d.len() + 1
        };
        assert(s[n + k] == 'e');
    } else if e < 0 {
        assert(s[n + 1] == '.');
    } else if d.len() <= e + 1 {
        assert(s[n + e + 1] == '.');
    } else {
        assert(s[n + e + 1] == '.');
    }
}

/// The notation of a floating-point number reads back as the same number, with its sign.
pub proof fn law_float_reads_back(f: FloatModel)
    requires
        valid_float(f),
    ensures
        read_number(float_repr(f)) == Some(NumberModel::Float(spelled(f))),
        same_float(spelled(f), f),
{
    law_float_repr_is_no_integer(f);
    lemma_read_spelled(f);
    law_spelling_keeps_the_number(f);
}

/// The notation of an integer reads back as the same integer.
pub proof fn law_integer_is_read(n: int)
    ensures
        read_number(signed_decimal(n)) == Some(NumberModel::Int(n)),
{
    let m = if n < 0 {
        (-n) as nat
    } else {
        n as nat
    };
    let s = signed_decimal(n);
    law_integer_reads_back(n);
    law_decimal_is_digits(m);
    assert forall|i: int| 0 <= i < s.len() implies #[trigger] s[i] == '-' || ascii_digit(s[i]) by {
        if n < 0 && i > 0 {
            assert(s[i] == decimal(m)[i - 1]);
        }
    }
    if s.contains('.') {
        let i = s.index_of('.');
        assert(s[i] == '.');
    }
    if s.contains('e') {
        let i = s.index_of('e');
        assert(s[i] == 'e');
    }
    if s.contains('E') {
        let i = s.index_of('E');
        assert(s[i] == 'E');
    }
}

/// A character of the notation of a number.
pub open spec fn number_char(c: char) -> bool {
    ascii_digit(c) || c == '+' || c == '-' || c == '.' || c == 'e' || c == 'E'
}

/// Every character belongs to the notation of a number.
pub open spec fn numeric(s: Seq<char>) -> bool {
    forall|i: int| 0 <= i < s.len() ==> number_char(#[trigger] s[i])
}

/// What holds of two texts holds of one after the other.
proof fn lemma_numeric_concat(a: Seq<char>, b: Seq<char>)
    requires
        numeric(a),
        numeric(b),
    ensures
        numeric(a + b),
{
    assert forall|i: int| 0 <= i < (a + b).len() implies number_char(#[trigger] (a + b)[i]) by {
        if i < a.len() {
            assert((a + b)[i] == a[i]);
        } else {
            assert((a + b)[i] == b[i - a.len()]);
        }
    }
}

/// What holds of a text holds of its parts.
proof fn lemma_numeric_part(s: Seq<char>, from: int, to: int)
    requires
        numeric(s),
        0 <= from <= to <= s.len(),
    ensures
        numeric(s.subrange(from, to)),
{
    assert forall|i: int| 0 <= i < s.subrange(from, to).len() implies number_char(#[trigger] s.subrange(from, to)[i]) by {
        assert(s.subrange(from, to)[i] == s[from + i]);
    }
}

/// Digits belong to the notation of a number.
proof fn lemma_numeric_digits(s: Seq<char>)
    requires
        all_digits(s),
    ensures
        numeric(s),
{
    assert forall|i: int| 0 <= i < s.len() implies number_char(#[trigger] s[i]) by {
        assert(ascii_digit(s[i]));
    }
}

/// The notation of a number has only those characters.
pub proof fn lemma_numeric_repr(n: NumberModel)
    requires
        n is Float ==> valid_float(n->Float_0),
    ensures
        numeric(number_repr(n)),
{
    match n {
        NumberModel::Int(i) => {
            if i < 0 {
                law_decimal_is_digits((-i) as nat);
                lemma_numeric_digits(decimal((-i) as nat));
                lemma_numeric_concat(seq!['-'], decimal((-i) as nat));
            } else {
                law_decimal_is_digits(i as nat);
                lemma_numeric_digits(decimal(i as nat));
            }
        },
        NumberModel::Float(f) => {
            let d = f.digits;
            let e = f.exponent;
            lemma_numeric_digits(d);
            if e < -4 || e >= 16 {
                let size = if e < 0 {
                    (-e) as nat
                } else {
                    e as nat
                };
                let mantissa = if d.len() <= 1 {
                    d
                } else {
                    d.take(1) + seq!['.'] + d.skip(1)
                };
                if d.len() > 1 {
                    lemma_numeric_part(d, 0, 1);
                    lemma_numeric_part(d, 1, d.len() as int);
                    assert(d.take(1) =~= d.subrange(0, 1));
                    assert(d.skip(1) =~= d.subrange(1, d.len() as int));
                    lemma_numeric_concat(d.take(1), seq!['.']);
                    lemma_numeric_concat(d.take(1) + seq!['.'], d.skip(1));
                }
                let mark = if e < 0 {
                    seq!['e', '-']
                } else {
                    seq!['e', '+']
                };
                law_decimal_is_digits(size);
                lemma_numeric_digits(decimal(size));
                lemma_numeric_concat(seq!['0'], decimal(size));
                lemma_numeric_concat(mantissa, mark);
                lemma_numeric_concat(mantissa + mark, two_digits(size));
                assert(scientific_text(d, e) =~= mantissa + mark + two_digits(size));
                lemma_numeric_concat(sign_text(f.negative), scientific_text(d, e));
            } else {
                if e < 0 {
                    lemma_numeric_concat(seq!['0', '.'], zeros((-e - 1) as nat));
                    lemma_numeric_concat(seq!['0', '.'] + zeros((-e - 1) as nat), d);
                } else if d.len() <= e + 1 {
                    let pad = zeros((e + 1 - d.len()) as nat);
                    lemma_numeric_concat(d, pad);
                    lemma_numeric_concat(d + pad, seq!['.', '0']);
                } else {
                    lemma_numeric_part(d, 0, e + 1);
                    lemma_numeric_part(d, e + 1, d.len() as int);
                    assert(d.take(e + 1) =~= d.subrange(0, e + 1));
                    assert(d.skip(e + 1) =~= d.subrange(e + 1, d.len() as int));
                    lemma_numeric_concat(d.take(e + 1), seq!['.']);
                    lemma_numeric_concat(d.take(e + 1) + seq!['.'], d.skip(e + 1));
                }
                lemma_numeric_concat(sign_text(f.negative), positional_text(d, e));
            }
        },
    }
}

/// The value of a hexadecimal digit.
pub open spec fn hex_digit(c: char) -> Option<int> {
    if '0' <= c <= '9' {
        Some(c as int - 48)
    } else if 'a' <= c <= 'f' {
        Some(c as int - 87)
    } else if 'A' <= c <= 'F' {
        Some(c as int - 55)
    } else {
        None
    }
}

/// The number that four hexadecimal digits denote.
pub open spec fn hex_value(s: Seq<char>) -> Option<int> {
    match (hex_digit(s[0]), hex_digit(s[1]), hex_digit(s[2]), hex_digit(s[3])) {
        (Some(a), Some(b), Some(c), Some(d)) if s.len() == 4 => Some(a * 4096 + b * 256 + c * 16 + d),
        _ => None,
    }
}

/// A hexadecimal digit reads back.
proof fn lemma_hex_digit(d: int)
    requires
        0 <= d < 16,
    ensures
        hex_digit(digit_char(d)) == Some(d),
{
}

/// A number is made up of its hexadecimal digits.
proof fn lemma_hex_parts(n: int)
    requires
        0 <= n <= 0xffff,
    ensures
        n / 4096 % 16 * 4096 + n / 256 % 16 * 256 + n / 16 % 16 * 16 + n % 16 == n,
{
    let m = n as u32;
    assert(m / 4096 % 16 * 4096 + m / 256 % 16 * 256 + m / 16 % 16 * 16 + m % 16 == m) by (bit_vector)
        requires
            m <= 0xffff,
    ;
}

/// Four hexadecimal digits read back.
pub proof fn law_hex_reads_back(n: int)
    requires
        0 <= n <= 0xffff,
    ensures
        hex_value(hex4(n)) == Some(n),
{
    lemma_hex_digit(n / 4096 % 16);
    lemma_hex_digit(n / 256 % 16);
    lemma_hex_digit(n / 16 % 16);
    lemma_hex_digit(n % 16);
    lemma_hex_parts(n);
}

} // verus!
