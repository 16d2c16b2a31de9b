//! The law that JSON texts read back: a reader of JSON, and the proof that it recovers what was
//! written.
use vstd::prelude::*;

use crate::dumps::{all_escaped, comma, dumps, entry_texts, escaped, item_texts, number_repr, quoted, rendered_entries, sort_entries};
use crate::json::{JsonModel, NumberModel};
use crate::laws::json::{law_sorting_equals_dumping_the_sorted, lemma_sorted_from, presorted, presorted_items, presorted_values, valid, valid_entries, valid_items};
use crate::laws::numbers::{hex_value, law_decimal_is_digits, law_float_reads_back, law_hex_reads_back, law_integer_is_read, law_spelling_keeps_the_number, lemma_numeric_repr, number_char, read_number, same_float, spelled, valid_float};
use crate::number::{decimal, hex4};
use crate::pattern::ascii_digit;
use crate::text::{first_where, join, lemma_first_where_unique, starts_with};

verus! {

/// Whitespace between the parts of a JSON text.
pub open spec fn json_space(c: char) -> bool {
    c == ' ' || c == '\n' || c == '\r' || c == '\t'
}

/// What follows the whitespace at the start.
pub open spec fn after_space(s: Seq<char>) -> Seq<char>
    decreases s.len(),
{
    if s.len() > 0 && json_space(s[0]) {
        after_space(s.drop_first())
    } else {
        s
    }
}

/// What follows the whitespace is no longer than the text.
pub proof fn lemma_after_space(s: Seq<char>)
    ensures
        after_space(s).len() <= s.len(),
    decreases s.len(),
{
    if s.len() > 0 && json_space(s[0]) {
        lemma_after_space(s.drop_first());
    }
}

/// The character that an escape at the start denotes, and how many characters the escape takes.
#[verifier::opaque]
pub open spec fn read_escape(s: Seq<char>) -> Option<(char, int)> {
    if s.len() < 2 {
        None
    } else if s[1] == '"' || s[1] == '\\' || s[1] == '/' {
        Some((s[1], 2))
    } else if s[1] == 'b' {
        Some(('\x08', 2))
    } else if s[1] == 'f' {
        Some(('\x0c', 2))
    } else if s[1] == 'n' {
        Some(('\n', 2))
    } else if s[1] == 'r' {
        Some(('\r', 2))
    } else if s[1] == 't' {
        Some(('\t', 2))
    } else if s[1] == 'u' && s.len() >= 6 {
        match hex_value(s.subrange(2, 6)) {
            Some(h) => if 0xd800 <= h <= 0xdbff {
                if s.len() >= 12 && s[6] == '\\' && s[7] == 'u' {
                    match hex_value(s.subrange(8, 12)) {
                        Some(l) if 0xdc00 <= l <= 0xdfff => Some(
                            ((0x10000 + (h - 0xd800) * 0x400 + (l - 0xdc00)) as char, 12),
                        ),
                        _ => None,
                    }
                } else {
                    None
                }
            } else if 0xdc00 <= h <= 0xdfff {
                None
            } else {
                Some((h as char, 6))
            },
            None => None,
        }
    } else {
        None
    }
}

/// An escape takes some characters, and no more than there are.
pub proof fn lemma_escape_length(s: Seq<char>)
    ensures
        read_escape(s) matches Some((c, n)) ==> 0 < n <= s.len(),
{
    reveal(read_escape);
}

/// The characters of a JSON string whose opening quote has been read, and what follows the closing
/// one.
pub open spec fn read_chars(s: Seq<char>) -> Option<(Seq<char>, Seq<char>)>
    decreases s.len(),
{
    if s.len() == 0 {
        None
    } else if s[0] == '"' {
        Some((seq![], s.skip(1)))
    } else if s[0] == '\\' {
        proof {
            lemma_escape_length(s);
        }
        match read_escape(s) {
            Some((c, n)) => match read_chars(s.skip(n)) {
                Some((t, rest)) => Some((seq![c] + t, rest)),
                None => None,
            },
            None => None,
        }
    } else if 0x20 > s[0] as int {
        None
    } else {
        match read_chars(s.skip(1)) {
            Some((t, rest)) => Some((seq![s[0]] + t, rest)),
            None => None,
        }
    }
}

/// The JSON value at the start of a text, and what follows it.
pub open spec fn read_value(s: Seq<char>) -> Option<(JsonModel, Seq<char>)>
    decreases s.len(), 0nat,
{
    let t = after_space(s);
    proof {
        lemma_after_space(s);
    }
    if t.len() == 0 {
        None
    } else if t[0] == '"' {
        match read_chars(t.skip(1)) {
            Some((text, rest)) => Some((JsonModel::Str(text), rest)),
            None => None,
        }
    } else if t[0] == '[' {
        let u = after_space(t.skip(1));
        if u.len() > 0 && u[0] == ']' {
            Some((JsonModel::Array(seq![]), u.skip(1)))
        } else {
            match read_items(t.skip(1)) {
                Some((items, rest)) => Some((JsonModel::Array(items), rest)),
                None => None,
            }
        }
    } else if t[0] == '{' {
        let u = after_space(t.skip(1));
        if u.len() > 0 && u[0] == '}' {
            Some((JsonModel::Object(seq![]), u.skip(1)))
        } else {
            match read_members(t.skip(1)) {
                Some((entries, rest)) => Some((JsonModel::Object(entries), rest)),
                None => None,
            }
        }
    } else if t[0] == 'n' {
        if starts_with(t, "null"@) {
            Some((JsonModel::Null, t.skip(4)))
        } else {
            None
        }
    } else if t[0] == 't' {
        if starts_with(t, "true"@) {
            Some((JsonModel::Bool(true), t.skip(4)))
        } else {
            None
        }
    } else if t[0] == 'f' {
        if starts_with(t, "false"@) {
            Some((JsonModel::Bool(false), t.skip(5)))
        } else {
            None
        }
    } else {
        let k = first_where(t, |c: char| !number_char(c));
        match read_number(t.take(k)) {
            Some(n) => Some((JsonModel::Number(n), t.skip(k))),
            None => None,
        }
    }
}

/// The items of an array whose opening bracket has been read, one at least, and what follows the
/// closing bracket.
pub open spec fn read_items(s: Seq<char>) -> Option<(Seq<JsonModel>, Seq<char>)>
    decreases s.len(), 1nat,
{
    match read_value(s) {
        Some((v, after)) => {
            let t = after_space(after);
            let u = after_space(t.skip(1));
            if t.len() > 0 && t[0] == ']' {
                Some((seq![v], t.skip(1)))
            } else if t.len() > 0 && t[0] == ',' && u.len() < s.len() {
                match read_items(u) {
                    Some((items, rest)) => Some((seq![v] + items, rest)),
                    None => None,
                }
            } else {
                None
            }
        },
        None => None,
    }
}

/// The key of an entry with the colon behind it, and what follows that.
pub open spec fn read_key(s: Seq<char>) -> Option<(Seq<char>, Seq<char>)> {
    let t = after_space(s);
    if t.len() > 0 && t[0] == '"' {
        match read_chars(t.skip(1)) {
            Some((key, after)) => {
                let u = after_space(after);
                if u.len() > 0 && u[0] == ':' {
                    Some((key, u.skip(1)))
                } else {
                    None
                }
            },
            None => None,
        }
    } else {
        None
    }
}

/// The entries of an object whose opening brace has been read, one at least, and what follows the
/// closing brace.
pub open spec fn read_members(s: Seq<char>) -> Option<(Seq<(Seq<char>, JsonModel)>, Seq<char>)>
    decreases s.len(), 1nat,
{
    match read_key(s) {
        Some((key, value)) if value.len() <= s.len() => match read_value(value) {
            Some((v, after)) => {
                let t = after_space(after);
                let u = after_space(t.skip(1));
                if t.len() > 0 && t[0] == '}' {
                    Some((seq![(key, v)], t.skip(1)))
                } else if t.len() > 0 && t[0] == ',' && u.len() < s.len() {
                    match read_members(u) {
                        Some((entries, rest)) => Some((seq![(key, v)] + entries, rest)),
                        None => None,
                    }
                } else {
                    None
                }
            },
            None => None,
        },
        _ => None,
    }
}

/// The value of a JSON text, with nothing but whitespace behind it.
pub open spec fn read(s: Seq<char>) -> Option<JsonModel> {
    match read_value(s) {
        Some((v, rest)) if after_space(rest).len() == 0 => Some(v),
        _ => None,
    }
}

/// The value with every floating-point number as its notation spells it.
pub open spec fn respelled(v: JsonModel) -> JsonModel
    decreases v,
{
    match v {
        JsonModel::Number(NumberModel::Float(f)) => JsonModel::Number(NumberModel::Float(spelled(f))),
        JsonModel::Array(items) => JsonModel::Array(respelled_items(items)),
        JsonModel::Object(entries) => JsonModel::Object(respelled_values(entries)),
        _ => v,
    }
}

/// The items, each as it is spelled.
pub open spec fn respelled_items(items: Seq<JsonModel>) -> Seq<JsonModel>
    decreases items,
{
    Seq::new(
        items.len(),
        |i: int|
            if 0 <= i < items.len() {
                respelled(items[i])
            } else {
                JsonModel::Null
            },
    )
}

/// The entries, each value as it is spelled.
pub open spec fn respelled_values(entries: Seq<(Seq<char>, JsonModel)>) -> Seq<(Seq<char>, JsonModel)>
    decreases entries,
{
    Seq::new(
        entries.len(),
        |i: int|
            if 0 <= i < entries.len() {
                (entries[i].0, respelled(entries[i].1))
            } else {
                (seq![], JsonModel::Null)
            },
    )
}

/// The same value: floating-point numbers count as numbers, whatever their digits.
pub open spec fn alike(v: JsonModel, w: JsonModel) -> bool
    decreases v,
{
    match (v, w) {
        (JsonModel::Number(NumberModel::Float(f)), JsonModel::Number(NumberModel::Float(g))) => same_float(f, g),
        (JsonModel::Array(a), JsonModel::Array(b)) => alike_items(a, b),
        (JsonModel::Object(a), JsonModel::Object(b)) => alike_entries(a, b),
        _ => v == w,
    }
}

/// The same items.
pub open spec fn alike_items(a: Seq<JsonModel>, b: Seq<JsonModel>) -> bool
    decreases a,
{
    &&& a.len() == b.len()
    &&& forall|i: int| #![trigger a[i]] 0 <= i < a.len() ==> alike(a[i], b[i])
}

/// The same keys with the same values, in the same order.
pub open spec fn alike_entries(a: Seq<(Seq<char>, JsonModel)>, b: Seq<(Seq<char>, JsonModel)>) -> bool
    decreases a,
{
    &&& a.len() == b.len()
    &&& forall|i: int| #![trigger a[i]] 0 <= i < a.len() ==> a[i].0 == b[i].0 && alike(a[i].1, b[i].1)
}

/// Spelling a value out keeps it.
pub proof fn law_respelled_is_alike(v: JsonModel)
    ensures
        alike(respelled(v), v),
    decreases v,
{
    match v {
        JsonModel::Number(NumberModel::Float(f)) => {
            law_spelling_keeps_the_number(f);
        },
        JsonModel::Array(items) => {
            let a = respelled_items(items);
            assert forall|i: int| #![trigger a[i]] 0 <= i < a.len() implies alike(a[i], items[i]) by {
                law_respelled_is_alike(items[i]);
            }
        },
        JsonModel::Object(entries) => {
            let a = respelled_values(entries);
            assert forall|i: int| #![trigger a[i]] 0 <= i < a.len() implies a[i].0 == entries[i].0 && alike(
                a[i].1,
                entries[i].1,
            ) by {
                law_respelled_is_alike(entries[i].1);
            }
        },
        _ => {},
    }
}

/// Escaping from the front.
proof fn lemma_all_escaped_front(s: Seq<char>, ascii: bool)
    requires
        s.len() > 0,
    ensures
        all_escaped(s, ascii) == escaped(s[0], ascii) + all_escaped(s.drop_first(), ascii),
    decreases s.len(),
{
    if s.len() == 1 {
        assert(s.drop_last() =~= seq![]);
        assert(s.drop_first() =~= seq![]);
        assert(all_escaped(s, ascii) =~= escaped(s[0], ascii) + all_escaped(s.drop_first(), ascii));
    } else {
        lemma_all_escaped_front(s.drop_last(), ascii);
        assert(s.drop_last().drop_first() =~= s.drop_first().drop_last());
        assert(s.drop_first().last() == s.last());
        assert(all_escaped(s, ascii) =~= escaped(s[0], ascii) + all_escaped(s.drop_first(), ascii));
    }
}

/// An escape for a character of the basic plane.
proof fn lemma_read_unit(n: int, tail: Seq<char>)
    requires
        0 <= n < 0xd800 || 0xe000 <= n <= 0xffff,
    ensures
        read_escape(seq!['\\', 'u'] + hex4(n) + tail) == Some((n as char, 6int)),
        (seq!['\\', 'u'] + hex4(n) + tail).skip(6) == tail,
{
    reveal(read_escape);
    let s = seq!['\\', 'u'] + hex4(n) + tail;
    law_hex_reads_back(n);
    assert(s.subrange(2, 6) =~= hex4(n));
    assert(s.skip(6) =~= tail);
}

/// An escape for a character beyond the basic plane.
proof fn lemma_read_pair(n: int, tail: Seq<char>)
    requires
        0x10000 <= n <= 0x10ffff,
    ensures
        ({
            let s = seq!['\\', 'u'] + hex4(0xd800 + (n - 0x10000) / 0x400) + seq!['\\', 'u'] + hex4(
                0xdc00 + (n - 0x10000) % 0x400,
            ) + tail;
            read_escape(s) == Some((n as char, 12int)) && s.skip(12) == tail
        }),
{
    reveal(read_escape);
    let h = 0xd800 + (n - 0x10000) / 0x400;
    let l = 0xdc00 + (n - 0x10000) % 0x400;
    let s = seq!['\\', 'u'] + hex4(h) + seq!['\\', 'u'] + hex4(l) + tail;
    law_hex_reads_back(h);
    law_hex_reads_back(l);
    assert(s.subrange(2, 6) =~= hex4(h));
    assert(s.subrange(8, 12) =~= hex4(l));
    assert(s.skip(12) =~= tail);
    assert(0x10000 + (h - 0xd800) * 0x400 + (l - 0xdc00) == n);
}

/// An escape at the start.
proof fn lemma_step_escape(s: Seq<char>, c: char, n: int, tail: Seq<char>)
    requires
        s.len() >= n > 0,
        s[0] == '\\',
        read_escape(s) == Some((c, n)),
        s.skip(n) == tail,
    ensures
        read_chars(s) == match read_chars(tail) {
            Some((t, rest)) => Some((seq![c] + t, rest)),
            None => None,
        },
{
}

/// A short escape.
proof fn lemma_read_short(c: char, name: char, tail: Seq<char>)
    requires
        (c == '"' && name == '"') || (c == '\\' && name == '\\') || (c == '\n' && name == 'n') || (c == '\r' && name
            == 'r') || (c == '\t' && name == 't') || (c == '\x08' && name == 'b') || (c == '\x0c' && name == 'f'),
    ensures
        read_chars(seq!['\\', name] + tail) == match read_chars(tail) {
            Some((t, rest)) => Some((seq![c] + t, rest)),
            None => None,
        },
{
    reveal(read_escape);
    let s = seq!['\\', name] + tail;
    assert(s.skip(2) =~= tail);
    assert(s[1] == name);
    lemma_step_escape(s, c, 2, tail);
}

/// A character that stands for itself.
proof fn lemma_read_plain(c: char, tail: Seq<char>)
    requires
        c != '"',
        c != '\\',
        c as int >= 0x20,
    ensures
        read_chars(seq![c] + tail) == match read_chars(tail) {
            Some((t, rest)) => Some((seq![c] + t, rest)),
            None => None,
        },
{
    let s = seq![c] + tail;
    assert(s.skip(1) =~= tail);
}

/// An escaped character reads back.
proof fn lemma_read_escaped(c: char, ascii: bool, tail: Seq<char>)
    ensures
        read_chars(escaped(c, ascii) + tail) == match read_chars(tail) {
            Some((t, rest)) => Some((seq![c] + t, rest)),
            None => None,
        },
{
    let n = c as int;
    let s = escaped(c, ascii) + tail;
    if c == '"' || c == '\\' {
        lemma_read_short(c, c, tail);
    } else if c == '\n' {
        lemma_read_short(c, 'n', tail);
    } else if c == '\r' {
        lemma_read_short(c, 'r', tail);
    } else if c == '\t' {
        lemma_read_short(c, 't', tail);
    } else if c == '\x08' {
        lemma_read_short(c, 'b', tail);
    } else if c == '\x0c' {
        lemma_read_short(c, 'f', tail);
    } else if n < 0x20 || (n >= 0x7f && ascii && n <= 0xffff) {
        lemma_read_unit(n, tail);
        lemma_step_escape(s, c, 6, tail);
    } else if n < 0x7f || !ascii {
        lemma_read_plain(c, tail);
    } else {
        lemma_read_pair(n, tail);
        lemma_step_escape(s, c, 12, tail);
    }
}

/// A JSON string reads back.
pub proof fn law_quoted_reads_back(s: Seq<char>, ascii: bool, tail: Seq<char>)
    ensures
        read_chars(all_escaped(s, ascii) + seq!['"'] + tail) == Some((s, tail)),
    decreases s.len(),
{
    let text = all_escaped(s, ascii) + seq!['"'] + tail;
    if s.len() == 0 {
        assert(text =~= seq!['"'] + tail);
        assert(text.skip(1) =~= tail);
        assert(s =~= seq![]);
    } else {
        let rest = all_escaped(s.drop_first(), ascii) + seq!['"'] + tail;
        law_quoted_reads_back(s.drop_first(), ascii, tail);
        lemma_all_escaped_front(s, ascii);
        assert(text =~= escaped(s[0], ascii) + rest);
        lemma_read_escaped(s[0], ascii, rest);
        assert(seq![s[0]] + s.drop_first() =~= s);
    }
}

/// A character with which a JSON text starts.
pub open spec fn opening(c: char) -> bool {
    c == '"' || c == '[' || c == '{' || c == 'n' || c == 't' || c == 'f' || c == '-' || ascii_digit(c)
}

/// How a number starts.
proof fn lemma_number_opens(n: NumberModel)
    requires
        n is Float ==> valid_float(n->Float_0),
    ensures
        number_repr(n).len() > 0,
        number_repr(n)[0] == '-' || ascii_digit(number_repr(n)[0]),
{
    match n {
        NumberModel::Int(i) => {
            let m = (if i < 0 {
                -i
            } else {
                i
            }) as nat;
            law_decimal_is_digits(m);
            if i >= 0 {
                assert(ascii_digit(decimal(m)[0]));
            }
        },
        NumberModel::Float(f) => {
            assert(ascii_digit(f.digits[0]));
        },
    }
}

/// How a JSON text starts.
proof fn lemma_dumps_opens(v: JsonModel, ascii: bool)
    requires
        valid(v),
    ensures
        dumps(v, false, ascii).len() > 0,
        opening(dumps(v, false, ascii)[0]),
{
    reveal_strlit("null");
    reveal_strlit("true");
    reveal_strlit("false");
    if let JsonModel::Number(n) = v {
        lemma_number_opens(n);
    }
}

/// What follows cannot be taken for a part of a number.
pub open spec fn closes(rest: Seq<char>) -> bool {
    rest.len() == 0 || !number_char(rest[0])
}

/// A number reads back.
proof fn lemma_read_number(n: NumberModel, rest: Seq<char>)
    requires
        n is Float ==> valid_float(n->Float_0),
        closes(rest),
    ensures
        read_value(number_repr(n) + rest) == Some((respelled(JsonModel::Number(n)), rest)),
{
    let text = number_repr(n);
    let s = text + rest;
    let p = |c: char| !number_char(c);
    let k = text.len() as int;
    lemma_number_opens(n);
    lemma_numeric_repr(n);
    assert(s[0] == text[0]);
    assert(after_space(s) == s);
    assert forall|i: int| 0 <= i < k implies !p(#[trigger] s[i]) by {
        assert(number_char(text[i]));
        assert(s[i] == text[i]);
    }
    if rest.len() > 0 {
        assert(s[k] == rest[0]);
    }
    lemma_first_where_unique(s, p, k);
    assert(s.take(k) =~= text);
    assert(s.skip(k) =~= rest);
    match n {
        NumberModel::Int(i) => {
            law_integer_is_read(i);
        },
        NumberModel::Float(f) => {
            law_float_reads_back(f);
        },
    }
}

/// A word reads back.
proof fn lemma_read_word(v: JsonModel, ascii: bool, rest: Seq<char>)
    requires
        v is Null || v is Bool,
    ensures
        read_value(dumps(v, false, ascii) + rest) == Some((v, rest)),
{
    reveal_strlit("null");
    reveal_strlit("true");
    reveal_strlit("false");
    let text = dumps(v, false, ascii);
    let s = text + rest;
    assert(s[0] == text[0]);
    assert(after_space(s) == s);
    assert(s.take(text.len() as int) =~= text);
    assert(s.skip(text.len() as int) =~= rest);
}

/// An item with the closing bracket behind it.
proof fn lemma_last_item(s: Seq<char>, v: JsonModel, rest: Seq<char>)
    requires
        read_value(s) == Some((v, seq![']'] + rest)),
    ensures
        read_items(s) == Some((seq![v], rest)),
{
    let after = seq![']'] + rest;
    assert(after_space(after) == after);
    assert(after.skip(1) =~= rest);
}

/// An item with a comma and more items behind it.
proof fn lemma_next_item(s: Seq<char>, v: JsonModel, tail: Seq<char>, items: Seq<JsonModel>, rest: Seq<char>)
    requires
        read_value(s) == Some((v, comma() + tail)),
        tail.len() > 0,
        !json_space(tail[0]),
        tail.len() < s.len(),
        read_items(tail) == Some((items, rest)),
    ensures
        read_items(s) == Some((seq![v] + items, rest)),
{
    let after = comma() + tail;
    assert(after_space(after) == after);
    assert(after.skip(1) =~= seq![' '] + tail);
    lemma_skip_space(after.skip(1), tail);
}

/// The items of an array read back.
proof fn lemma_read_items(items: Seq<JsonModel>, ascii: bool, rest: Seq<char>)
    requires
        items.len() > 0,
        valid_items(items),
    ensures
        read_items(join(item_texts(items, false, ascii), comma()) + seq![']'] + rest) == Some(
            (respelled_items(items), rest),
        ),
    decreases items, 0nat,
{
    let texts = item_texts(items, false, ascii);
    let s = join(texts, comma()) + seq![']'] + rest;
    let v = items[0];
    let first = dumps(v, false, ascii);
    assert(valid(v));
    assert(texts[0] == first);
    if items.len() == 1 {
        let after = seq![']'] + rest;
        lemma_read(v, ascii, after);
        assert(s =~= first + after);
        lemma_last_item(s, respelled(v), rest);
        assert(respelled_items(items) =~= seq![respelled(v)]);
    } else {
        let more = items.drop_first();
        let later = item_texts(more, false, ascii);
        let tail = join(later, comma()) + seq![']'] + rest;
        assert(texts.drop_first() =~= later);
        assert(s =~= first + (comma() + tail));
        lemma_read(v, ascii, comma() + tail);
        lemma_valid_rest(items);
        lemma_dumps_opens(more[0], ascii);
        lemma_join_opens(later, seq![']'] + rest);
        assert(tail =~= join(later, comma()) + (seq![']'] + rest));
        lemma_read_items(more, ascii, rest);
        lemma_next_item(s, respelled(v), tail, respelled_items(more), rest);
        assert(seq![respelled(v)] + respelled_items(more) =~= respelled_items(items));
    }
}

/// An array reads back.
proof fn lemma_read_array(items: Seq<JsonModel>, ascii: bool, rest: Seq<char>)
    requires
        valid_items(items),
    ensures
        read_value(dumps(JsonModel::Array(items), false, ascii) + rest) == Some(
            (JsonModel::Array(respelled_items(items)), rest),
        ),
    decreases items, 1nat,
{
    let texts = item_texts(items, false, ascii);
    let inner = join(texts, comma()) + seq![']'] + rest;
    let s = dumps(JsonModel::Array(items), false, ascii) + rest;
    assert(s[0] == '[');
    assert(after_space(s) == s);
    assert(s.skip(1) =~= inner);
    if items.len() == 0 {
        assert(inner =~= seq![']'] + rest);
        assert(after_space(inner) == inner);
        assert(inner.skip(1) =~= rest);
        assert(respelled_items(items) =~= seq![]);
    } else {
        assert(valid(items[0]));
        lemma_dumps_opens(items[0], ascii);
        lemma_join_opens(texts, seq![']'] + rest);
        assert(inner =~= join(texts, comma()) + (seq![']'] + rest));
        assert(after_space(inner) == inner);
        lemma_read_items(items, ascii, rest);
    }
}

/// The items after the first are valid too.
proof fn lemma_valid_rest(items: Seq<JsonModel>)
    requires
        items.len() > 0,
        valid_items(items),
    ensures
        valid_items(items.drop_first()),
        items.len() > 1 ==> valid(items.drop_first()[0]),
{
    let more = items.drop_first();
    assert forall|i: int| #![trigger more[i]] 0 <= i < more.len() implies valid(more[i]) by {
        assert(more[i] == items[i + 1]);
    }
}

/// The values after the first are valid too.
proof fn lemma_valid_entries_rest(entries: Seq<(Seq<char>, JsonModel)>)
    requires
        entries.len() > 0,
        valid_entries(entries),
    ensures
        valid_entries(entries.drop_first()),
{
    let more = entries.drop_first();
    assert forall|i: int| #![trigger more[i]] 0 <= i < more.len() implies valid(more[i].1) by {
        assert(more[i] == entries[i + 1]);
    }
}

/// Joined texts start as the first of them does.
proof fn lemma_join_opens(texts: Seq<Seq<char>>, rest: Seq<char>)
    requires
        texts.len() > 0,
        texts[0].len() > 0,
    ensures
        (join(texts, comma()) + rest).len() >= texts[0].len(),
        (join(texts, comma()) + rest)[0] == texts[0][0],
{
}

/// A single space before a text that starts without one.
proof fn lemma_skip_space(s: Seq<char>, tail: Seq<char>)
    requires
        s == seq![' '] + tail,
        tail.len() > 0,
        !json_space(tail[0]),
    ensures
        after_space(s) == tail,
{
    assert(s.drop_first() =~= tail);
    assert(after_space(tail) == tail);
}

/// An entry with the closing brace behind it.
proof fn lemma_last_member(s: Seq<char>, key: Seq<char>, value: Seq<char>, v: JsonModel, rest: Seq<char>)
    requires
        read_key(s) == Some((key, value)),
        value.len() <= s.len(),
        read_value(value) == Some((v, seq!['}'] + rest)),
    ensures
        read_members(s) == Some((seq![(key, v)], rest)),
{
    let after = seq!['}'] + rest;
    assert(after_space(after) == after);
    assert(after.skip(1) =~= rest);
}

/// An entry with a comma and more entries behind it.
proof fn lemma_next_member(
    s: Seq<char>,
    key: Seq<char>,
    value: Seq<char>,
    v: JsonModel,
    tail: Seq<char>,
    entries: Seq<(Seq<char>, JsonModel)>,
    rest: Seq<char>,
)
    requires
        read_key(s) == Some((key, value)),
        value.len() <= s.len(),
        read_value(value) == Some((v, comma() + tail)),
        tail.len() > 0,
        !json_space(tail[0]),
        tail.len() < s.len(),
        read_members(tail) == Some((entries, rest)),
    ensures
        read_members(s) == Some((seq![(key, v)] + entries, rest)),
{
    let after = comma() + tail;
    assert(after_space(after) == after);
    assert(after.skip(1) =~= seq![' '] + tail);
    lemma_skip_space(after.skip(1), tail);
}

/// The entries of an object read back.
#[verifier::rlimit(40)]
proof fn lemma_read_members(entries: Seq<(Seq<char>, JsonModel)>, ascii: bool, rest: Seq<char>)
    requires
        entries.len() > 0,
        valid_entries(entries),
    ensures
        read_members(
            join(entry_texts(rendered_entries(entries, false, ascii), ascii), comma()) + seq!['}'] + rest,
        ) == Some((respelled_values(entries), rest)),
    decreases entries, 0nat,
{
    let rendered = rendered_entries(entries, false, ascii);
    let texts = entry_texts(rendered, ascii);
    let s = join(texts, comma()) + seq!['}'] + rest;
    let key = entries[0].0;
    let v = entries[0].1;
    let value = dumps(v, false, ascii);
    assert(valid(v));
    assert(texts[0] == quoted(key, ascii) + seq![':', ' '] + value);
    assert(decreases_to!(entries => entries[0]));
    assert(decreases_to!(entries[0] => entries[0].1));
    if entries.len() == 1 {
        let after = seq!['}'] + rest;
        assert(s =~= quoted(key, ascii) + seq![':', ' '] + value + after);
        lemma_read_entry(key, v, ascii, s, after);
        lemma_last_member(s, key, seq![' '] + value + after, respelled(v), rest);
        assert(respelled_values(entries) =~= seq![(key, respelled(v))]);
    } else {
        let more = entries.drop_first();
        let later = entry_texts(rendered_entries(more, false, ascii), ascii);
        let tail = join(later, comma()) + seq!['}'] + rest;
        let after = comma() + tail;
        assert(rendered.drop_first() =~= rendered_entries(more, false, ascii));
        assert(texts.drop_first() =~= later);
        assert(s =~= quoted(key, ascii) + seq![':', ' '] + value + after);
        lemma_read_entry(key, v, ascii, s, after);
        lemma_valid_entries_rest(entries);
        assert(later[0][0] == '"');
        lemma_join_opens(later, seq!['}'] + rest);
        assert(tail =~= join(later, comma()) + (seq!['}'] + rest));
        lemma_read_members(more, ascii, rest);
        lemma_next_member(
            s,
            key,
            seq![' '] + value + after,
            respelled(v),
            tail,
            respelled_values(more),
            rest,
        );
        assert(seq![(key, respelled(v))] + respelled_values(more) =~= respelled_values(entries));
    }
}

/// An object reads back.
proof fn lemma_read_object(entries: Seq<(Seq<char>, JsonModel)>, ascii: bool, rest: Seq<char>)
    requires
        valid_entries(entries),
    ensures
        read_value(dumps(JsonModel::Object(entries), false, ascii) + rest) == Some(
            (JsonModel::Object(respelled_values(entries)), rest),
        ),
    decreases entries, 1nat,
{
    let texts = entry_texts(rendered_entries(entries, false, ascii), ascii);
    let inner = join(texts, comma()) + seq!['}'] + rest;
    let s = dumps(JsonModel::Object(entries), false, ascii) + rest;
    assert(s[0] == '{');
    assert(after_space(s) == s);
    assert(s.skip(1) =~= inner);
    if entries.len() == 0 {
        assert(inner =~= seq!['}'] + rest);
        assert(after_space(inner) == inner);
        assert(inner.skip(1) =~= rest);
        assert(respelled_values(entries) =~= seq![]);
    } else {
        assert(texts[0][0] == '"');
        lemma_join_opens(texts, seq!['}'] + rest);
        assert(inner =~= join(texts, comma()) + (seq!['}'] + rest));
        assert(after_space(inner) == inner);
        lemma_read_members(entries, ascii, rest);
    }
}

/// One entry of an object reads back.
proof fn lemma_read_entry(key: Seq<char>, v: JsonModel, ascii: bool, s: Seq<char>, after: Seq<char>)
    requires
        valid(v),
        closes(after),
        s == quoted(key, ascii) + seq![':', ' '] + dumps(v, false, ascii) + after,
    ensures
        read_key(s) == Some((key, seq![' '] + dumps(v, false, ascii) + after)),
        read_value(seq![' '] + dumps(v, false, ascii) + after) == Some((respelled(v), after)),
        (seq![' '] + dumps(v, false, ascii) + after).len() <= s.len(),
    decreases v, 1nat,
{
    let value = dumps(v, false, ascii) + after;
    let spaced = seq![' '] + dumps(v, false, ascii) + after;
    let tail = seq![':', ' '] + value;
    assert(s[0] == '"');
    assert(after_space(s) == s);
    assert(s.skip(1) =~= all_escaped(key, ascii) + seq!['"'] + tail);
    law_quoted_reads_back(key, ascii, tail);
    assert(after_space(tail) == tail);
    assert(tail.skip(1) =~= spaced);
    lemma_dumps_opens(v, ascii);
    assert(spaced =~= seq![' '] + value);
    lemma_skip_space(spaced, value);
    assert(after_space(value) == value);
    lemma_read(v, ascii, after);
}

/// What was written reads back, whatever follows that is no part of a number.
proof fn lemma_read(v: JsonModel, ascii: bool, rest: Seq<char>)
    requires
        valid(v),
        closes(rest),
    ensures
        read_value(dumps(v, false, ascii) + rest) == Some((respelled(v), rest)),
    decreases v, 0nat,
{
    let text = dumps(v, false, ascii);
    let s = text + rest;
    match v {
        JsonModel::Null => {
            lemma_read_word(v, ascii, rest);
        },
        JsonModel::Bool(_) => {
            lemma_read_word(v, ascii, rest);
        },
        JsonModel::Number(n) => {
            lemma_read_number(n, rest);
        },
        JsonModel::Str(t) => {
            assert(s[0] == '"');
            assert(after_space(s) == s);
            assert(s.skip(1) =~= all_escaped(t, ascii) + seq!['"'] + rest);
            law_quoted_reads_back(t, ascii, rest);
        },
        JsonModel::Array(items) => {
            lemma_read_array(items, ascii, rest);
        },
        JsonModel::Object(entries) => {
            lemma_read_object(entries, ascii, rest);
        },
    }
}

/// Sorting keys keeps a value valid.
proof fn lemma_presorted_valid(v: JsonModel)
    requires
        valid(v),
    ensures
        valid(presorted(v)),
    decreases v,
{
    match v {
        JsonModel::Array(items) => {
            let sorted = presorted_items(items);
            assert forall|i: int| #![trigger sorted[i]] 0 <= i < sorted.len() implies valid(sorted[i]) by {
                assert(valid(items[i]));
                lemma_presorted_valid(items[i]);
            }
        },
        JsonModel::Object(entries) => {
            let values = presorted_values(entries);
            let sorted = sort_entries(values);
            assert forall|i: int| #![trigger sorted[i]] 0 <= i < sorted.len() implies valid(sorted[i].1) by {
                let j = lemma_sorted_from(values, i);
                assert(valid(entries[j].1));
                lemma_presorted_valid(entries[j].1);
            }
        },
        _ => {},
    }
}

/// A JSON text reads back as the value that was written, with its keys sorted where that was asked
/// for.
pub proof fn law_dumps_reads_back(v: JsonModel, sort: bool, ascii: bool)
    requires
        valid(v),
    ensures
        read(dumps(v, sort, ascii)) is Some,
        alike(
            read(dumps(v, sort, ascii))->0,
            if sort {
                presorted(v)
            } else {
                v
            },
        ),
{
    let w = if sort {
        presorted(v)
    } else {
        v
    };
    if sort {
        law_sorting_equals_dumping_the_sorted(v, ascii);
        lemma_presorted_valid(v);
    }
    let text = dumps(w, false, ascii);
    lemma_read(w, ascii, seq![]);
    assert(text + seq![] =~= text);
    law_respelled_is_alike(w);
}

} // verus!
