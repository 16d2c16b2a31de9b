//! `json.dumps`: JSON text in Python's formatting.
use vstd::prelude::*;

use crate::float::{float_repr, py_float_repr};
use crate::json::{Json, JsonModel, Number, NumberModel};
use crate::number::{hex4, push_decimal, push_hex4, push_signed, signed_decimal};
use crate::text::{join, join_range, strings, strs};

verus! {

/// How a character stands within a JSON string. With `ascii`, only printable ASCII stands for
/// itself, and a character beyond the basic plane is a pair of surrogates.
pub open spec fn escaped(c: char, ascii: bool) -> Seq<char> {
    let n = c as int;
    if c == '"' {
        seq!['\\', '"']
    } else if c == '\\' {
        seq!['\\', '\\']
    } else if c == '\n' {
        seq!['\\', 'n']
    } else if c == '\r' {
        seq!['\\', 'r']
    } else if c == '\t' {
        seq!['\\', 't']
    } else if c == '\x08' {
        seq!['\\', 'b']
    } else if c == '\x0c' {
        seq!['\\', 'f']
    } else if n < 0x20 {
        seq!['\\', 'u'] + hex4(n)
    } else if n < 0x7f || !ascii {
        seq![c]
    } else if n <= 0xffff {
        seq!['\\', 'u'] + hex4(n)
    } else {
        seq!['\\', 'u'] + hex4(0xd800 + (n - 0x10000) / 0x400) + seq!['\\', 'u'] + hex4(0xdc00 + (n - 0x10000) % 0x400)
    }
}

/// The characters of `s`, each escaped.
pub open spec fn all_escaped(s: Seq<char>, ascii: bool) -> Seq<char>
    decreases s.len(),
{
    if s.len() == 0 {
        seq![]
    } else {
        all_escaped(s.drop_last(), ascii) + escaped(s.last(), ascii)
    }
}

/// `s` as a JSON string.
pub open spec fn quoted(s: Seq<char>, ascii: bool) -> Seq<char> {
    seq!['"'] + all_escaped(s, ascii) + seq!['"']
}

/// The order of code points, by the first that differs; a prefix comes first.
pub open spec fn key_less(a: Seq<char>, b: Seq<char>) -> bool
    decreases a.len(),
{
    if b.len() == 0 {
        false
    } else if a.len() == 0 {
        true
    } else if a[0] == b[0] {
        key_less(a.drop_first(), b.drop_first())
    } else {
        a[0] < b[0]
    }
}

/// Inserts an entry behind those whose keys are not greater.
pub open spec fn insert_entry<T>(list: Seq<(Seq<char>, T)>, e: (Seq<char>, T)) -> Seq<(Seq<char>, T)>
    decreases list.len(),
{
    if list.len() > 0 && key_less(e.0, list.last().0) {
        insert_entry(list.drop_last(), e).push(list.last())
    } else {
        list.push(e)
    }
}

/// The entries in the order of their keys; equal keys keep their order.
pub open spec fn sort_entries<T>(list: Seq<(Seq<char>, T)>) -> Seq<(Seq<char>, T)>
    decreases list.len(),
{
    if list.len() == 0 {
        seq![]
    } else {
        insert_entry(sort_entries(list.drop_last()), list.last())
    }
}

/// The text of a number.
pub open spec fn number_repr(n: NumberModel) -> Seq<char> {
    match n {
        NumberModel::Int(i) => signed_decimal(i),
        NumberModel::Float(f) => float_repr(f),
    }
}

/// What stands between the items of a list.
pub open spec fn comma() -> Seq<char> {
    seq![',', ' ']
}

/// An entry of an object: its key, and the text of its value.
pub open spec fn entry_text(e: (Seq<char>, Seq<char>), ascii: bool) -> Seq<char> {
    quoted(e.0, ascii) + seq![':', ' '] + e.1
}

/// The texts of entries.
pub open spec fn entry_texts(list: Seq<(Seq<char>, Seq<char>)>, ascii: bool) -> Seq<Seq<char>> {
    Seq::new(list.len(), |i: int| entry_text(list[i], ascii))
}

/// `json.dumps(v, sort_keys=sort, ensure_ascii=ascii)`.
pub open spec fn dumps(v: JsonModel, sort: bool, ascii: bool) -> Seq<char>
    decreases v,
{
    match v {
        JsonModel::Null => "null"@,
        JsonModel::Bool(b) => if b {
            "true"@
        } else {
            "false"@
        },
        JsonModel::Number(n) => number_repr(n),
        JsonModel::Str(s) => quoted(s, ascii),
        JsonModel::Array(items) => seq!['['] + join(item_texts(items, sort, ascii), comma()) + seq![']'],
        JsonModel::Object(entries) => {
            let rendered = rendered_entries(entries, sort, ascii);
            let ordered = if sort {
                sort_entries(rendered)
            } else {
                rendered
            };
            seq!['{'] + join(entry_texts(ordered, ascii), comma()) + seq!['}']
        },
    }
}

/// The texts of the items of an array.
pub open spec fn item_texts(items: Seq<JsonModel>, sort: bool, ascii: bool) -> Seq<Seq<char>>
    decreases items,
{
    Seq::new(
        items.len(),
        |i: int|
            if 0 <= i < items.len() {
                dumps(items[i], sort, ascii)
            } else {
                seq![]
            },
    )
}

/// The keys of an object, each with the text of its value.
pub open spec fn rendered_entries(
    entries: Seq<(Seq<char>, JsonModel)>,
    sort: bool,
    ascii: bool,
) -> Seq<(Seq<char>, Seq<char>)>
    decreases entries,
{
    Seq::new(
        entries.len(),
        |i: int|
            if 0 <= i < entries.len() {
                (entries[i].0, dumps(entries[i].1, sort, ascii))
            } else {
                (seq![], seq![])
            },
    )
}

/// Appends one character, escaped.
fn push_escaped(out: &mut String, c: char, ascii: bool)
    ensures
        final(out)@ == old(out)@ + escaped(c, ascii),
{
    let n: u32 = c as u32;
    if c == '"' {
        out.push('\\');
        out.push('"');
    } else if c == '\\' {
        out.push('\\');
        out.push('\\');
    } else if c == '\n' {
        out.push('\\');
        out.push('n');
    } else if c == '\r' {
        out.push('\\');
        out.push('r');
    } else if c == '\t' {
        out.push('\\');
        out.push('t');
    } else if c == '\x08' {
        out.push('\\');
        out.push('b');
    } else if c == '\x0c' {
        out.push('\\');
        out.push('f');
    } else if n < 0x20 {
        push_unit(out, n);
    } else if n < 0x7f || !ascii {
        out.push(c);
    } else if n <= 0xffff {
        push_unit(out, n);
    } else {
        let v: u32 = n - 0x10000;
        push_unit(out, 0xd800 + v / 0x400);
        push_unit(out, 0xdc00 + v % 0x400);
    }
    assert(out@ =~= old(out)@ + escaped(c, ascii));
}

/// Appends `\u` and four hexadecimal digits.
fn push_unit(out: &mut String, n: u32)
    ensures
        final(out)@ == old(out)@ + (seq!['\\', 'u'] + hex4(n as int)),
{
    out.push('\\');
    out.push('u');
    push_hex4(out, n);
    assert(out@ =~= old(out)@ + (seq!['\\', 'u'] + hex4(n as int)));
}

/// `s` as a JSON string.
pub fn py_json_quote_opts(s: &str, ensure_ascii: bool) -> (r: String)
    ensures
        r@ == quoted(s@, ensure_ascii),
{
    let mut out = String::new();
    out.push('"');
    let mut it = s.chars();
    let ghost mut n: int = 0;
    proof {
        assert(s@.skip(0) =~= s@);
        assert(out@ =~= seq!['"'] + all_escaped(s@.take(0), ensure_ascii));
    }
    loop
        invariant
            0 <= n <= s@.len(),
            vstd::std_specs::iter::IteratorSpec::remaining(&it) == s@.skip(n),
            out@ == seq!['"'] + all_escaped(s@.take(n), ensure_ascii),
        decreases s@.len() - n,
    {
        match it.next() {
            None => {
                assert(s@.take(n) =~= s@);
                out.push('"');
                assert(out@ =~= quoted(s@, ensure_ascii));
                return out;
            },
            Some(c) => {
                proof {
                    assert(s@.skip(n)[0] == s@[n]);
                    assert(s@.skip(n).drop_first() =~= s@.skip(n + 1));
                    assert(s@.take(n + 1).drop_last() =~= s@.take(n));
                }
                push_escaped(&mut out, c, ensure_ascii);
                proof {
                    assert(out@ =~= seq!['"'] + all_escaped(s@.take(n + 1), ensure_ascii));
                    n = n + 1;
                }
            },
        }
    }
}

/// The text of a number.
fn py_number_repr(n: &Number) -> (r: String)
    ensures
        r@ == number_repr(n@),
{
    match n {
        Number::Unsigned(u) => {
            let mut out = String::new();
            push_decimal(&mut out, *u);
            assert(out@ =~= signed_decimal(*u as int));
            out
        },
        Number::Signed(i) => {
            let mut out = String::new();
            push_signed(&mut out, *i);
            assert(out@ =~= signed_decimal(*i as int));
            out
        },
        Number::Float(f) => py_float_repr(f),
    }
}

/// Whether `a` comes before `b` by code points.
fn str_less(a: &str, b: &str) -> (r: bool)
    ensures
        r == key_less(a@, b@),
{
    let mut left = a.chars();
    let mut right = b.chars();
    let ghost mut n: int = 0;
    assert(a@.skip(0) =~= a@);
    assert(b@.skip(0) =~= b@);
    loop
        invariant
            0 <= n <= a@.len(),
            n <= b@.len(),
            key_less(a@.skip(n), b@.skip(n)) == key_less(a@, b@),
            vstd::std_specs::iter::IteratorSpec::remaining(&left) == a@.skip(n),
            vstd::std_specs::iter::IteratorSpec::remaining(&right) == b@.skip(n),
        decreases a@.len() - n,
    {
        let x = left.next();
        let y = right.next();
        match (x, y) {
            (_, None) => {
                return false;
            },
            (None, Some(_)) => {
                return true;
            },
            (Some(c), Some(d)) => {
                if c != d {
                    return c < d;
                }
                proof {
                    assert(a@.skip(n).drop_first() =~= a@.skip(n + 1));
                    assert(b@.skip(n).drop_first() =~= b@.skip(n + 1));
                    n = n + 1;
                }
            },
        }
    }
}

/// The contents of rendered entries.
pub open spec fn entries_of(list: Seq<(&str, String)>) -> Seq<(Seq<char>, Seq<char>)> {
    Seq::new(list.len(), |i: int| (list[i].0@, list[i].1@))
}

/// Where an entry goes.
proof fn lemma_insert_entry<T>(list: Seq<(Seq<char>, T)>, e: (Seq<char>, T), k: int)
    requires
        0 <= k <= list.len(),
        forall|i: int| k <= i < list.len() ==> key_less(e.0, (#[trigger] list[i]).0),
        k > 0 ==> !key_less(e.0, list[k - 1].0),
    ensures
        insert_entry(list, e) == list.insert(k, e),
    decreases list.len(),
{
    if k < list.len() {
        assert(key_less(e.0, list[list.len() - 1].0));
        lemma_insert_entry(list.drop_last(), e, k);
        assert(list.drop_last().insert(k, e).push(list.last()) =~= list.insert(k, e));
    } else {
        assert(list.push(e) =~= list.insert(k, e));
    }
}

/// Inserts an entry behind those whose keys are not greater.
fn insert_sorted<'a>(list: &mut Vec<(&'a str, String)>, key: &'a str, text: String)
    ensures
        entries_of(final(list)@) == insert_entry(entries_of(old(list)@), (key@, text@)),
{
    let ghost all = entries_of(list@);
    let mut k: usize = list.len();
    while k > 0 && str_less(key, list[k - 1].0)
        invariant
            k <= list@.len(),
            list@ == old(list)@,
            all == entries_of(list@),
            forall|i: int| k <= i < all.len() ==> key_less(key@, (#[trigger] all[i]).0),
        decreases k,
    {
        assert(all[k - 1].0 == list@[k - 1].0@);
        k = k - 1;
    }
    proof {
        if k > 0 {
            assert(all[k - 1].0 == list@[k - 1].0@);
        }
        lemma_insert_entry(all, (key@, text@), k as int);
    }
    list.insert(k, (key, text));
    assert(entries_of(list@) =~= all.insert(k as int, (key@, text@)));
}

/// The texts, with commas between them and in the given brackets.
fn bracketed(open: char, texts: &Vec<String>, close: char) -> (r: String)
    ensures
        r@ == seq![open] + join(strings(texts@), comma()) + seq![close],
{
    let mut parts: Vec<&str> = Vec::new();
    let mut i: usize = 0;
    while i < texts.len()
        invariant
            i <= texts@.len(),
            strs(parts@) == strings(texts@).take(i as int),
        decreases texts@.len() - i,
    {
        let ghost before = strs(parts@);
        parts.push(texts[i].as_str());
        proof {
            assert(strs(parts@) =~= before.push(texts@[i as int]@));
            assert(strings(texts@).take(i + 1) =~= strings(texts@).take(i as int).push(strings(texts@)[i as int]));
        }
        i = i + 1;
    }
    let mut out = String::new();
    out.push(open);
    let body = join_range(parts.as_slice(), 0, parts.len(), ", ");
    proof {
        reveal_strlit(", ");
        assert(", "@ =~= comma());
        assert(strings(texts@).take(i as int) =~= strings(texts@));
        assert(strs(parts@).subrange(0, parts@.len() as int) =~= strings(texts@));
    }
    out.append(body.as_str());
    out.push(close);
    assert(out@ =~= seq![open] + join(strings(texts@), comma()) + seq![close]);
    out
}

/// `json.dumps` with the order of keys and the escaping chosen.
pub fn py_json_dumps_opts(v: &Json, sort_keys: bool, ensure_ascii: bool) -> (r: String)
    ensures
        r@ == dumps(v@, sort_keys, ensure_ascii),
    decreases v,
{
    match v {
        Json::Null => "null".to_string(),
        Json::Bool(b) => if *b {
            "true".to_string()
        } else {
            "false".to_string()
        },
        Json::Number(n) => py_number_repr(n),
        Json::Str(s) => py_json_quote_opts(s.as_str(), ensure_ascii),
        Json::Array(items) => {
            let mut texts: Vec<String> = Vec::new();
            let mut i: usize = 0;
            while i < items.len()
                invariant
                    i <= items@.len(),
                    *v == Json::Array(*items),
                    strings(texts@).len() == i,
                    forall|j: int| 0 <= j < i ==> #[trigger] strings(texts@)[j] == dumps(items@[j]@, sort_keys, ensure_ascii),
                decreases items@.len() - i,
            {
                let ghost before = strings(texts@);
                assert(decreases_to!(*v => v->Array_0));
                assert(decreases_to!(*items => items@));
                assert(decreases_to!(items@ => items@[i as int]));
                texts.push(py_json_dumps_opts(&items[i], sort_keys, ensure_ascii));
                assert(strings(texts@) =~= before.push(texts@[i as int]@));
                i = i + 1;
            }
            assert(strings(texts@) =~= item_texts(v@->Array_0, sort_keys, ensure_ascii));
            bracketed('[', &texts, ']')
        },
        Json::Object(entries) => {
            let mut list: Vec<(&str, String)> = Vec::new();
            let mut i: usize = 0;
            let ghost model = v@->Object_0;
            let ghost rendered = rendered_entries(model, sort_keys, ensure_ascii);
            assert(entries_of(list@) =~= seq![]);
            assert(rendered.take(0) =~= seq![]);
            while i < entries.len()
                invariant
                    i <= entries@.len(),
                    *v == Json::Object(*entries),
                    rendered.len() == entries@.len(),
                    forall|j: int| 0 <= j < rendered.len() ==> #[trigger] rendered[j] == (
                        entries@[j].0@,
                        dumps(entries@[j].1@, sort_keys, ensure_ascii),
                    ),
                    entries_of(list@) == if sort_keys {
                        sort_entries(rendered.take(i as int))
                    } else {
                        rendered.take(i as int)
                    },
                decreases entries@.len() - i,
            {
                let e = &entries[i];
                assert(decreases_to!(*v => v->Object_0));
                assert(decreases_to!(*entries => entries@));
                assert(decreases_to!(entries@ => entries@[i as int]));
                assert(decreases_to!(entries@[i as int] => entries@[i as int].1));
                let text = py_json_dumps_opts(&e.1, sort_keys, ensure_ascii);
                let ghost before = entries_of(list@);
                proof {
                    assert(rendered.take(i + 1).drop_last() =~= rendered.take(i as int));
                    assert(rendered.take(i + 1).last() == rendered[i as int]);
                    assert(rendered.take(i + 1) =~= rendered.take(i as int).push(rendered[i as int]));
                }
                if sort_keys {
                    insert_sorted(&mut list, e.0.as_str(), text);
                } else {
                    list.push((e.0.as_str(), text));
                    assert(entries_of(list@) =~= before.push(rendered[i as int]));
                }
                i = i + 1;
            }
            assert(rendered.take(i as int) =~= rendered);
            let ghost ordered = entries_of(list@);
            let mut texts: Vec<String> = Vec::new();
            let mut k: usize = 0;
            while k < list.len()
                invariant
                    k <= list@.len(),
                    ordered == entries_of(list@),
                    strings(texts@).len() == k,
                    forall|j: int| 0 <= j < k ==> #[trigger] strings(texts@)[j] == entry_text(ordered[j], ensure_ascii),
                decreases list@.len() - k,
            {
                let ghost before = strings(texts@);
                let mut text = py_json_quote_opts(list[k].0, ensure_ascii);
                text.push(':');
                text.push(' ');
                text.append(list[k].1.as_str());
                proof {
                    assert(ordered[k as int] == (list@[k as int].0@, list@[k as int].1@));
                    assert(text@ =~= entry_text(ordered[k as int], ensure_ascii));
                }
                texts.push(text);
                assert(strings(texts@) =~= before.push(text@));
                k = k + 1;
            }
            assert(strings(texts@) =~= entry_texts(ordered, ensure_ascii));
            bracketed('{', &texts, '}')
        },
    }
}

/// `json.dumps(v)`: keys in their order, and ASCII only.
pub fn py_json_dumps(v: &Json) -> (r: String)
    ensures
        r@ == dumps(v@, false, true),
{
    py_json_dumps_opts(v, false, true)
}

} // verus!
