//! Laws of notation: how the text of a value follows from its parts, and what the text of a number
//! and of a character looks like.
use vstd::prelude::*;

use crate::chunk::{names_cst, setting_mode, ChunkMode};
use crate::command::lemma_digits_value_nonneg;
use crate::dumps::{all_escaped, comma, dumps, entry_texts, escaped, item_texts, quoted, rendered_entries};
use crate::float::{count_digits, float_repr, mantissa_digits, precision, scientific, sign_text, two_digits, without_point, zeros};
use crate::grep::line_no;
use crate::json::{FloatModel, JsonModel, NumberModel};
use crate::laws::numbers::{hex_value, law_decimal_is_digits, law_decimal_reads_back, law_hex_reads_back, law_integer_reads_back, lemma_leading_zeros, valid_float};
use crate::laws::words::law_join_of_parts;
use crate::number::{all_digits, decimal, digit_char, digits_value, hex4, i64_value, integer_value, signed_decimal};
use crate::pattern::{ascii_digit, small};
use crate::text::{first_where, is_char, join, lemma_first_where, lemma_first_where_unique};

verus! {

/// A text without its first and its last character.
pub open spec fn inner(s: Seq<char>) -> Seq<char> {
    s.subrange(1, s.len() - 1)
}

/// The text of an array follows from its items: brackets around the texts of the items, with a comma
/// and a space between them.
pub proof fn law_array_text_of_parts(a: Seq<JsonModel>, b: Seq<JsonModel>, v: JsonModel, sort: bool, ascii: bool)
    ensures
        dumps(JsonModel::Array(Seq::<JsonModel>::empty()), sort, ascii) == seq!['[', ']'],
        dumps(JsonModel::Array(seq![v]), sort, ascii) == seq!['['] + dumps(v, sort, ascii) + seq![']'],
        a.len() > 0 && b.len() > 0 ==> dumps(JsonModel::Array(a + b), sort, ascii) == seq!['['] + inner(
            dumps(JsonModel::Array(a), sort, ascii),
        ) + seq![',', ' '] + inner(dumps(JsonModel::Array(b), sort, ascii)) + seq![']'],
{
    let none = Seq::<JsonModel>::empty();
    let none_texts = item_texts(none, sort, ascii);
    let one = item_texts(seq![v], sort, ascii);
    assert(none_texts =~= seq![]);
    assert(one =~= seq![dumps(v, sort, ascii)]);
    let x = item_texts(a, sort, ascii);
    let y = item_texts(b, sort, ascii);
    law_join_of_parts(x, y, dumps(v, sort, ascii), comma());
    assert(dumps(JsonModel::Array(none), sort, ascii) =~= seq!['[', ']']);
    assert(dumps(JsonModel::Array(seq![v]), sort, ascii) =~= seq!['['] + dumps(v, sort, ascii) + seq![']']);
    if a.len() > 0 && b.len() > 0 {
        assert(item_texts(a + b, sort, ascii) =~= x + y);
        assert(inner(dumps(JsonModel::Array(a), sort, ascii)) =~= join(x, comma()));
        assert(inner(dumps(JsonModel::Array(b), sort, ascii)) =~= join(y, comma()));
        assert(dumps(JsonModel::Array(a + b), sort, ascii) =~= seq!['['] + join(x, comma()) + seq![',', ' '] + join(
            y,
            comma(),
        ) + seq![']']);
    }
}

/// The text of an object whose keys are not sorted follows from its entries: braces around the
/// quoted keys, each with a colon, a space and the text of its value, and a comma and a space between
/// entries.
pub proof fn law_object_text_of_parts(
    a: Seq<(Seq<char>, JsonModel)>,
    b: Seq<(Seq<char>, JsonModel)>,
    key: Seq<char>,
    v: JsonModel,
    ascii: bool,
)
    ensures
        dumps(JsonModel::Object(Seq::<(Seq<char>, JsonModel)>::empty()), false, ascii) == seq!['{', '}'],
        dumps(JsonModel::Object(seq![(key, v)]), false, ascii) == seq!['{'] + quoted(key, ascii) + seq![':', ' ']
            + dumps(v, false, ascii) + seq!['}'],
        a.len() > 0 && b.len() > 0 ==> dumps(JsonModel::Object(a + b), false, ascii) == seq!['{'] + inner(
            dumps(JsonModel::Object(a), false, ascii),
        ) + seq![',', ' '] + inner(dumps(JsonModel::Object(b), false, ascii)) + seq!['}'],
{
    let none = Seq::<(Seq<char>, JsonModel)>::empty();
    let none_texts = entry_texts(rendered_entries(none, false, ascii), ascii);
    let one = entry_texts(rendered_entries(seq![(key, v)], false, ascii), ascii);
    let text = quoted(key, ascii) + seq![':', ' '] + dumps(v, false, ascii);
    assert(none_texts =~= seq![]);
    assert(one =~= seq![text]);
    let x = entry_texts(rendered_entries(a, false, ascii), ascii);
    let y = entry_texts(rendered_entries(b, false, ascii), ascii);
    law_join_of_parts(x, y, text, comma());
    assert(dumps(JsonModel::Object(none), false, ascii) =~= seq!['{', '}']);
    assert(dumps(JsonModel::Object(seq![(key, v)]), false, ascii) =~= seq!['{'] + quoted(key, ascii) + seq![':', ' ']
        + dumps(v, false, ascii) + seq!['}']);
    if a.len() > 0 && b.len() > 0 {
        assert(entry_texts(rendered_entries(a + b, false, ascii), ascii) =~= x + y);
        assert(inner(dumps(JsonModel::Object(a), false, ascii)) =~= join(x, comma()));
        assert(inner(dumps(JsonModel::Object(b), false, ascii)) =~= join(y, comma()));
        assert(dumps(JsonModel::Object(a + b), false, ascii) =~= seq!['{'] + join(x, comma()) + seq![',', ' '] + join(
            y,
            comma(),
        ) + seq!['}']);
    }
}

/// The text of a value that has no parts.
pub proof fn law_text_of_plain_values(s: Seq<char>, n: int, f: FloatModel, sort: bool, ascii: bool)
    ensures
        dumps(JsonModel::Null, sort, ascii) == seq!['n', 'u', 'l', 'l'],
        dumps(JsonModel::Bool(true), sort, ascii) == seq!['t', 'r', 'u', 'e'],
        dumps(JsonModel::Bool(false), sort, ascii) == seq!['f', 'a', 'l', 's', 'e'],
        dumps(JsonModel::Str(s), sort, ascii) == quoted(s, ascii),
        integer_value(dumps(JsonModel::Number(NumberModel::Int(n)), sort, ascii)) == Some(n),
        n >= 0 ==> all_digits(dumps(JsonModel::Number(NumberModel::Int(n)), sort, ascii)),
        n != 0 ==> dumps(JsonModel::Number(NumberModel::Int(n)), sort, ascii)[0] != '0',
        n == 0 ==> dumps(JsonModel::Number(NumberModel::Int(n)), sort, ascii).len() == 1,
        dumps(JsonModel::Number(NumberModel::Float(f)), sort, ascii) == float_repr(f),
{
    reveal_strlit("null");
    reveal_strlit("true");
    reveal_strlit("false");
    assert("null"@ =~= seq!['n', 'u', 'l', 'l']);
    assert("true"@ =~= seq!['t', 'r', 'u', 'e']);
    assert("false"@ =~= seq!['f', 'a', 'l', 's', 'e']);
    law_integer_reads_back(n);
    if n >= 0 {
        law_decimal_is_digits(n as nat);
        law_decimal_reads_back(n as nat);
    }
}

/// A quoted text follows from its parts: quotes around the escaped characters, one after the other.
pub proof fn law_quoted_text_of_parts(a: Seq<char>, b: Seq<char>, c: char, ascii: bool)
    ensures
        quoted(Seq::<char>::empty(), ascii) == seq!['"', '"'],
        quoted(seq![c], ascii) == seq!['"'] + escaped(c, ascii) + seq!['"'],
        quoted(a + b, ascii) == seq!['"'] + inner(quoted(a, ascii)) + inner(quoted(b, ascii)) + seq!['"'],
    decreases b.len(),
{
    assert(seq![c].drop_last() =~= seq![]);
    assert(all_escaped(seq![c].drop_last(), ascii) =~= seq![]);
    assert(quoted(Seq::<char>::empty(), ascii) =~= seq!['"', '"']);
    assert(quoted(seq![c], ascii) =~= seq!['"'] + escaped(c, ascii) + seq!['"']);
    lemma_all_escaped_concat(a, b, ascii);
    assert(inner(quoted(a, ascii)) =~= all_escaped(a, ascii));
    assert(inner(quoted(b, ascii)) =~= all_escaped(b, ascii));
    assert(quoted(a + b, ascii) =~= seq!['"'] + all_escaped(a, ascii) + all_escaped(b, ascii) + seq!['"']);
}

/// Escaping two texts is escaping the one and then the other.
proof fn lemma_all_escaped_concat(a: Seq<char>, b: Seq<char>, ascii: bool)
    ensures
        all_escaped(a + b, ascii) == all_escaped(a, ascii) + all_escaped(b, ascii),
    decreases b.len(),
{
    if b.len() == 0 {
        assert(a + b =~= a);
        assert(all_escaped(a, ascii) + all_escaped(b, ascii) =~= all_escaped(a, ascii));
    } else {
        lemma_all_escaped_concat(a, b.drop_last(), ascii);
        assert((a + b).drop_last() =~= a + b.drop_last());
        assert((a + b).last() == b.last());
        assert(all_escaped(a + b, ascii) =~= all_escaped(a, ascii) + all_escaped(b, ascii));
    }
}

/// A unit of UTF-16 stands at `i` as an escape: `\u` and four hexadecimal digits in small letters.
pub open spec fn unit_at(s: Seq<char>, i: int, unit: int) -> bool {
    &&& 0 <= i <= s.len() - 6
    &&& s[i] == '\\'
    &&& s[i + 1] == 'u'
    &&& hex_value(s.subrange(i + 2, i + 6)) == Some(unit)
    &&& forall|k: int| i + 2 <= k < i + 6 ==> ascii_digit(#[trigger] s[k]) || 'a' <= s[k] <= 'f'
}

/// What a character looks like within a JSON text: seven have short escapes; printable ASCII, and
/// without `ascii` everything from the space on, stands for itself; anything else is an escape for each
/// of its units in UTF-16.
pub proof fn law_escape_forms(c: char, ascii: bool)
    ensures
        ({
            let s = escaped(c, ascii);
            let n = c as int;
            if c == '"' || c == '\\' {
                s == seq!['\\', c]
            } else if c == '\n' {
                s == seq!['\\', 'n']
            } else if c == '\r' {
                s == seq!['\\', 'r']
            } else if c == '\t' {
                s == seq!['\\', 't']
            } else if n == 8 {
                s == seq!['\\', 'b']
            } else if n == 12 {
                s == seq!['\\', 'f']
            } else if (' ' <= c && c <= '~') || (!ascii && n >= 32) {
                s == seq![c]
            } else if n < 0x10000 {
                s.len() == 6 && unit_at(s, 0, n)
            } else {
                &&& s.len() == 12
                &&& unit_at(s, 0, 0xd800 + (n - 0x10000) / 0x400)
                &&& unit_at(s, 6, 0xdc00 + (n - 0x10000) % 0x400)
            }
        }),
{
    let s = escaped(c, ascii);
    let n = c as int;
    if n < 0x10000 {
        law_hex_reads_back(n);
        lemma_hex_letters(n);
        if s == seq!['\\', 'u'] + hex4(n) {
            assert(s.subrange(2, 6) =~= hex4(n));
        }
    } else if ascii {
        let h = 0xd800 + (n - 0x10000) / 0x400;
        let l = 0xdc00 + (n - 0x10000) % 0x400;
        law_hex_reads_back(h);
        law_hex_reads_back(l);
        lemma_hex_letters(h);
        lemma_hex_letters(l);
        assert(s.subrange(2, 6) =~= hex4(h));
        assert(s.subrange(8, 12) =~= hex4(l));
        assert forall|k: int| 2 <= k < 6 implies ascii_digit(#[trigger] s[k]) || 'a' <= s[k] <= 'f' by {
            assert(s[k] == hex4(h)[k - 2]);
        }
        assert forall|k: int| 8 <= k < 12 implies ascii_digit(#[trigger] s[k]) || 'a' <= s[k] <= 'f' by {
            assert(s[k] == hex4(l)[k - 8]);
        }
    }
}

/// Hexadecimal digits are in small letters.
proof fn lemma_hex_letters(n: int)
    ensures
        forall|k: int| 0 <= k < 4 ==> ascii_digit(#[trigger] hex4(n)[k]) || 'a' <= hex4(n)[k] <= 'f',
{
    let s = hex4(n);
    assert forall|k: int| 0 <= k < 4 implies ascii_digit(#[trigger] s[k]) || 'a' <= s[k] <= 'f' by {
        lemma_hex_letter(n / 4096 % 16);
        lemma_hex_letter(n / 256 % 16);
        lemma_hex_letter(n / 16 % 16);
        lemma_hex_letter(n % 16);
    }
}

/// A hexadecimal digit is a decimal one or a small letter.
proof fn lemma_hex_letter(d: int)
    requires
        0 <= d < 16,
    ensures
        ascii_digit(digit_char(d)) || 'a' <= digit_char(d) <= 'f',
{
}

/// The digits of an exponent: two at least, and without a zero before more.
pub open spec fn exponent_digits(x: Seq<char>, size: int) -> bool {
    &&& x.len() >= 2
    &&& all_digits(x)
    &&& digits_value(x) == size
    &&& x.len() > 2 ==> x[0] != '0'
}

/// The digits of an exponent are those of its size.
proof fn lemma_exponent_digits(size: nat)
    ensures
        exponent_digits(two_digits(size), size as int),
{
    law_decimal_is_digits(size);
    law_decimal_reads_back(size);
    let x = two_digits(size);
    if size < 10 {
        lemma_leading_zeros(1, decimal(size));
        assert(x =~= zeros(1) + decimal(size));
        assert forall|i: int| 0 <= i < x.len() implies ascii_digit(#[trigger] x[i]) by {
            if i > 0 {
                assert(x[i] == decimal(size)[i - 1]);
            }
        }
    } else {
        law_decimal_is_digits(size / 10);
    }
}

/// What the notation of a floating-point number looks like. While the first digit stands for a power
/// of ten from -4 to 15, it is positional: the digits with the point in their midst, or zeros up to
/// the point and one behind it, or a zero, the point and zeros before them. Otherwise the point stands
/// behind the first digit, if there are more, with a signed exponent of at least two digits.
pub proof fn law_float_notation(f: FloatModel) -> (x: Seq<char>)
    requires
        valid_float(f),
    ensures
        ({
            let d = f.digits;
            let e = f.exponent;
            let sign = if f.negative {
                seq!['-']
            } else {
                Seq::<char>::empty()
            };
            if e < -4 || 16 <= e {
                let mark = if e < 0 {
                    seq!['e', '-']
                } else {
                    seq!['e', '+']
                };
                let mantissa = if d.len() == 1 {
                    d
                } else {
                    d.take(1) + seq!['.'] + d.skip(1)
                };
                &&& float_repr(f) == sign + mantissa + mark + x
                &&& exponent_digits(
                    x,
                    if e < 0 {
                        -e
                    } else {
                        e
                    },
                )
            } else if e < 0 {
                &&& float_repr(f) == sign + seq!['0', '.'] + x + d
                &&& x.len() == -e - 1
                &&& forall|i: int| 0 <= i < x.len() ==> #[trigger] x[i] == '0'
            } else if d.len() <= e + 1 {
                &&& float_repr(f) == sign + d + x + seq!['.', '0']
                &&& x.len() == e + 1 - d.len()
                &&& forall|i: int| 0 <= i < x.len() ==> #[trigger] x[i] == '0'
            } else {
                float_repr(f) == sign + d.take(e + 1) + seq!['.'] + d.skip(e + 1)
            }
        }),
{
    let d = f.digits;
    let e = f.exponent;
    let sign = sign_text(f.negative);
    if e < -4 || 16 <= e {
        let size = (if e < 0 {
            -e
        } else {
            e
        }) as nat;
        let mark = if e < 0 {
            seq!['e', '-']
        } else {
            seq!['e', '+']
        };
        let mantissa = if d.len() == 1 {
            d
        } else {
            d.take(1) + seq!['.'] + d.skip(1)
        };
        lemma_exponent_digits(size);
        assert(float_repr(f) =~= sign + mantissa + mark + two_digits(size));
        two_digits(size)
    } else if e < 0 {
        let x = zeros((-e - 1) as nat);
        assert(float_repr(f) =~= sign + seq!['0', '.'] + x + d);
        x
    } else if d.len() <= e + 1 {
        let x = zeros((e + 1 - d.len()) as nat);
        assert(float_repr(f) =~= sign + d + x + seq!['.', '0']);
        x
    } else {
        assert(float_repr(f) =~= sign + d.take(e + 1) + seq!['.'] + d.skip(e + 1));
        d
    }
}

/// Leaving out points from two texts is leaving them out of each.
proof fn lemma_without_point_concat(a: Seq<char>, b: Seq<char>)
    ensures
        without_point(a + b) == without_point(a) + without_point(b),
{
    Seq::filter_distributes_over_add(a, b, |c: char| c != '.');
}

/// Digits have no point, and all of them count as digits.
proof fn lemma_digits_filters(s: Seq<char>)
    requires
        all_digits(s),
    ensures
        without_point(s) == s,
        count_digits(s) == s.len(),
    decreases s.len(),
{
    reveal(Seq::filter);
    if s.len() > 0 {
        assert forall|i: int| 0 <= i < s.drop_last().len() implies ascii_digit(#[trigger] s.drop_last()[i]) by {
            assert(s[i] == s.drop_last()[i]);
        }
        lemma_digits_filters(s.drop_last());
        assert(ascii_digit(s[s.len() - 1]));
        assert(s.drop_last().push(s.last()) =~= s);
    }
}

/// A point has no digits.
proof fn lemma_point_filters()
    ensures
        without_point(seq!['.']) == Seq::<char>::empty(),
        count_digits(seq!['.']) == 0,
{
    reveal(Seq::filter);
    assert(seq!['.'].drop_last() =~= seq![]);
    assert(without_point(seq!['.'].drop_last()) =~= seq![]);
    assert(count_digits(seq!['.'].drop_last()) == 0);
}

/// The digits with a point behind the first of them, if there are more.
pub open spec fn pointed(d: Seq<char>) -> Seq<char> {
    if d.len() == 1 {
        d
    } else {
        d.take(1) + seq!['.'] + d.skip(1)
    }
}

/// What a mantissa holds.
proof fn lemma_pointed(d: Seq<char>)
    requires
        d.len() > 0,
        all_digits(d),
    ensures
        without_point(pointed(d)) == d,
        count_digits(pointed(d)) == d.len(),
        !pointed(d).contains('e'),
        pointed(d).len() > 0,
        pointed(d)[0] == d[0],
{
    let s = pointed(d);
    lemma_digits_filters(d);
    lemma_point_filters();
    if d.len() > 1 {
        let one = d.take(1);
        let rest = d.skip(1);
        assert(all_digits(one));
        assert forall|i: int| 0 <= i < rest.len() implies ascii_digit(#[trigger] rest[i]) by {
            assert(rest[i] == d[i + 1]);
        }
        lemma_digits_filters(one);
        lemma_digits_filters(rest);
        lemma_without_point_concat(one + seq!['.'], rest);
        lemma_without_point_concat(one, seq!['.']);
        assert(without_point(s) =~= one + rest);
        assert(one + rest =~= d);
        lemma_count_concat(one + seq!['.'], rest);
        lemma_count_concat(one, seq!['.']);
    }
    if s.contains('e') {
        let i = s.index_of('e');
        if d.len() == 1 || i == 0 {
            assert(ascii_digit(d[i]));
        } else if i > 1 {
            assert(ascii_digit(d[i - 1]));
        }
    }
}

/// The first `e` of a text that has none before it.
proof fn lemma_first_e(before: Seq<char>, after: Seq<char>)
    requires
        !before.contains('e'),
    ensures
        ({
            let s = before + seq!['e'] + after;
            let k = before.len() as int;
            &&& first_where(s, is_char('e')) == k
            &&& k < s.len()
            &&& s.take(k) == before
            &&& s.skip(k + 1) == after
        }),
{
    let s = before + seq!['e'] + after;
    let k = before.len() as int;
    assert forall|i: int| 0 <= i < k implies !is_char('e')(#[trigger] s[i]) by {
        assert(s[i] == before[i]);
        assert(before.contains(before[i]));
    }
    assert(s[k] == 'e');
    lemma_first_where_unique(s, is_char('e'), k);
    assert(s.take(k) =~= before);
    assert(s.skip(k + 1) =~= after);
}

/// Scientific notation: an optional minus, digits with a point behind the first of them, if there
/// are more, `e` and an exponent. It is read as those digits and that exponent, and its digits are
/// counted.
pub proof fn law_scientific_notation_is_read(negative: bool, d: Seq<char>, e: int)
    requires
        d.len() > 0,
        all_digits(d),
        i32::MIN <= e <= i32::MAX,
    ensures
        scientific(sign_text(negative) + pointed(d) + seq!['e'] + signed_decimal(e)) == Some(
            FloatModel { negative, digits: d, exponent: e },
        ),
        mantissa_digits(sign_text(negative) + pointed(d) + seq!['e'] + signed_decimal(e)) == d.len(),
        sign_text(negative) == if negative {
            seq!['-']
        } else {
            Seq::<char>::empty()
        },
{
    let sign = sign_text(negative);
    let mantissa = pointed(d);
    let number = signed_decimal(e);
    let s = sign + mantissa + seq!['e'] + number;
    lemma_pointed(d);
    lemma_first_e(mantissa, number);
    law_integer_reads_back(e);
    assert(ascii_digit(d[0]));
    if negative {
        assert(s.skip(1) =~= mantissa + seq!['e'] + number);
        assert(!(sign + mantissa).contains('e')) by {
            if (sign + mantissa).contains('e') {
                let i = (sign + mantissa).index_of('e');
                assert(mantissa[i - 1] == 'e');
            }
        }
        lemma_first_e(sign + mantissa, number);
        lemma_count_concat(sign, mantissa);
        lemma_minus_count();
    } else {
        assert(sign + mantissa =~= mantissa);
    }
}

/// A minus is no digit.
proof fn lemma_minus_count()
    ensures
        count_digits(seq!['-']) == 0,
{
    reveal(Seq::filter);
    assert(seq!['-'].drop_last() =~= seq![]);
    assert(count_digits(seq!['-'].drop_last()) == 0);
}

/// The digits of two texts add up.
proof fn lemma_count_concat(a: Seq<char>, b: Seq<char>)
    ensures
        count_digits(a + b) == count_digits(a) + count_digits(b),
{
    Seq::filter_distributes_over_add(a, b, |c: char| ascii_digit(c));
}

/// Digits name the line that they denote, or the largest there is; a number that `i64` holds is read
/// as it is.
pub proof fn law_digits_name_their_line(s: Seq<char>)
    requires
        s.len() > 0,
        all_digits(s),
    ensures
        digits_value(s) <= i64::MAX ==> line_no(s) == digits_value(s) && i64_value(s) == Some(line_no(s)),
        digits_value(s) > i64::MAX ==> line_no(s) == i64::MAX && i64_value(s) is None,
{
    assert(ascii_digit(s[0]));
    lemma_digits_value_nonneg(s);
}

/// A setting names the syntax-tree mode exactly if it is `cst` in letters of either case.
pub proof fn law_setting_ignores_case(value: Seq<char>)
    ensures
        setting_mode(value) == ChunkMode::Cst <==> value.len() == 3 && small(value[0]) == 'c' && small(value[1]) == 's'
            && small(value[2]) == 't',
        names_cst(value) <==> value.len() == 3 && small(value[0]) == 'c' && small(value[1]) == 's' && small(value[2])
            == 't',
{
}

/// What is read as scientific notation is made up so: an optional minus, a mantissa of digits and
/// points, `e`, and an exponent within `i32`.
pub proof fn law_scientific_notation_is_made_up(s: Seq<char>) -> (parts: (Seq<char>, Seq<char>))
    ensures
        scientific(s) matches Some(f) ==> {
            &&& s == sign_text(f.negative) + parts.0 + seq!['e'] + parts.1
            &&& !parts.0.contains('e')
            &&& f.digits == parts.0.filter(|c: char| c != '.')
            &&& valid_float(f)
            &&& i64_value(parts.1) == Some(f.exponent as i64)
            &&& i32::MIN <= f.exponent <= i32::MAX
        },
{
    let negative = s.len() > 0 && s[0] == '-';
    let body = if negative {
        s.skip(1)
    } else {
        s
    };
    let k = first_where(body, is_char('e'));
    lemma_first_where(body, is_char('e'));
    if scientific(s) is Some {
        let m = body.take(k);
        let x = body.skip(k + 1);
        assert(body[k] == 'e');
        assert(s =~= sign_text(negative) + m + seq!['e'] + x);
        if m.contains('e') {
            let i = m.index_of('e');
            assert(m[i] == body[i]);
            assert(!is_char('e')(body[i]));
        }
        (m, x)
    } else {
        (seq![], seq![])
    }
}

/// A text names the line that it denotes, and the largest there is where it denotes none that `i64`
/// holds.
pub proof fn law_text_names_its_line(s: Seq<char>)
    ensures
        i64_value(s) matches Some(v) ==> line_no(s) == v,
        i64_value(s) is None ==> line_no(s) == i64::MAX,
        i64_value(s) matches Some(v) ==> integer_value(s) == Some(v as int),
        i64_value(s) is Some <==> (integer_value(s) matches Some(v) && i64::MIN <= v <= i64::MAX),
{
}

/// The digits of a number in scientific notation, but the first, are its precision: a further digit
/// adds one, and a single digit has none.
pub proof fn law_precision_leaves_out_the_first_digit(negative: bool, d: Seq<char>, e: int)
    requires
        0 < d.len() <= usize::MAX,
        all_digits(d),
        i32::MIN <= e <= i32::MAX,
    ensures
        ({
            let p = precision(sign_text(negative) + pointed(d) + seq!['e'] + signed_decimal(e));
            &&& d.len() == 1 ==> p is None
            &&& d.len() > 1 ==> p is Some && p->0 + 1 == d.len()
        }),
{
    law_scientific_notation_is_read(negative, d, e);
}

/// What has no `e` has no precision.
pub proof fn law_without_exponent_there_is_no_precision(s: Seq<char>)
    requires
        !s.contains('e'),
    ensures
        precision(s) is None,
        scientific(s) is None,
{
    lemma_first_where(s, is_char('e'));
    if first_where(s, is_char('e')) < s.len() {
        assert(s.contains(s[first_where(s, is_char('e'))]));
    }
    if s.len() > 0 && s[0] == '-' {
        let body = s.skip(1);
        lemma_first_where(body, is_char('e'));
        let k = first_where(body, is_char('e'));
        if k < body.len() {
            assert(s[k + 1] == 'e');
        }
    }
}

} // verus!
