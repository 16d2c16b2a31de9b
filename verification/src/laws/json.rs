//! Laws of JSON texts: what characters they hold, and what sorting keys does.
use vstd::prelude::*;

use crate::dumps::{all_escaped, comma, dumps, entry_texts, escaped, insert_entry, item_texts, key_less, number_repr, quoted, rendered_entries, sort_entries};
use crate::json::{JsonModel, NumberModel};
use crate::laws::numbers::{lemma_numeric_repr, number_char, valid_float};
use crate::number::hex4;
use crate::text::join;

verus! {

/// Every floating-point number within the value is written in digits.
pub open spec fn valid(v: JsonModel) -> bool
    decreases v,
{
    match v {
        JsonModel::Number(NumberModel::Float(f)) => valid_float(f),
        JsonModel::Array(items) => valid_items(items),
        JsonModel::Object(entries) => valid_entries(entries),
        _ => true,
    }
}

/// Every item is valid.
pub open spec fn valid_items(items: Seq<JsonModel>) -> bool
    decreases items,
{
    forall|i: int| #![trigger items[i]] 0 <= i < items.len() ==> valid(items[i])
}

/// Every value of an entry is valid.
pub open spec fn valid_entries(entries: Seq<(Seq<char>, JsonModel)>) -> bool
    decreases entries,
{
    forall|i: int| #![trigger entries[i]] 0 <= i < entries.len() ==> valid(entries[i].1)
}

/// The character may stand in the text: printable ASCII with `ascii`, else anything but the
/// controls before the space.
pub open spec fn clean_char(c: char, ascii: bool) -> bool {
    ' ' <= c && (ascii ==> c <= '~')
}

/// Every character may stand in the text.
pub open spec fn clean(s: Seq<char>, ascii: bool) -> bool {
    forall|i: int| 0 <= i < s.len() ==> clean_char(#[trigger] s[i], ascii)
}

/// What holds of two texts holds of one after the other.
proof fn lemma_clean_concat(a: Seq<char>, b: Seq<char>, ascii: bool)
    requires
        clean(a, ascii),
        clean(b, ascii),
    ensures
        clean(a + b, ascii),
{
    assert forall|i: int| 0 <= i < (a + b).len() implies clean_char(#[trigger] (a + b)[i], ascii) by {
        if i < a.len() {
            assert((a + b)[i] == a[i]);
        } else {
            assert((a + b)[i] == b[i - a.len()]);
        }
    }
}

/// A number is clean.
proof fn lemma_clean_number(n: NumberModel, ascii: bool)
    requires
        n is Float ==> valid_float(n->Float_0),
    ensures
        clean(number_repr(n), ascii),
{
    lemma_numeric_repr(n);
    let s = number_repr(n);
    assert forall|i: int| 0 <= i < s.len() implies clean_char(#[trigger] s[i], ascii) by {
        assert(number_char(s[i]));
    }
}

/// An escaped character is clean.
proof fn lemma_clean_escaped(c: char, ascii: bool)
    ensures
        clean(escaped(c, ascii), ascii),
{
    let n = c as int;
    lemma_clean_hex(n, ascii);
    lemma_clean_hex(0xd800 + (n - 0x10000) / 0x400, ascii);
    lemma_clean_hex(0xdc00 + (n - 0x10000) % 0x400, ascii);
    let u = seq!['\\', 'u'];
    let high = hex4(0xd800 + (n - 0x10000) / 0x400);
    let low = hex4(0xdc00 + (n - 0x10000) % 0x400);
    lemma_clean_concat(u, hex4(n), ascii);
    lemma_clean_concat(u, high, ascii);
    lemma_clean_concat(u + high, u, ascii);
    lemma_clean_concat(u + high + u, low, ascii);
}

/// Hexadecimal digits are clean.
proof fn lemma_clean_hex(n: int, ascii: bool)
    ensures
        clean(hex4(n), ascii),
{
}

/// A JSON string is clean.
proof fn lemma_clean_quoted(s: Seq<char>, ascii: bool)
    ensures
        clean(quoted(s, ascii), ascii),
{
    lemma_clean_all_escaped(s, ascii);
    lemma_clean_concat(seq!['"'], all_escaped(s, ascii), ascii);
    lemma_clean_concat(seq!['"'] + all_escaped(s, ascii), seq!['"'], ascii);
}

/// Escaped characters are clean.
proof fn lemma_clean_all_escaped(s: Seq<char>, ascii: bool)
    ensures
        clean(all_escaped(s, ascii), ascii),
    decreases s.len(),
{
    if s.len() > 0 {
        lemma_clean_all_escaped(s.drop_last(), ascii);
        lemma_clean_escaped(s.last(), ascii);
        lemma_clean_concat(all_escaped(s.drop_last(), ascii), escaped(s.last(), ascii), ascii);
    }
}

/// Clean parts with commas between them are clean.
proof fn lemma_clean_join(parts: Seq<Seq<char>>, ascii: bool)
    requires
        forall|i: int| 0 <= i < parts.len() ==> clean(#[trigger] parts[i], ascii),
    ensures
        clean(join(parts, comma()), ascii),
    decreases parts.len(),
{
    if parts.len() > 1 {
        let rest = parts.drop_first();
        assert forall|i: int| 0 <= i < rest.len() implies clean(#[trigger] rest[i], ascii) by {
            assert(rest[i] == parts[i + 1]);
        }
        lemma_clean_join(rest, ascii);
        lemma_clean_concat(parts[0], comma(), ascii);
        lemma_clean_concat(parts[0] + comma(), join(rest, comma()), ascii);
    }
}

/// A JSON text is printable ASCII throughout if that is asked for, and holds no control character
/// before the space otherwise.
pub proof fn law_dumps_is_clean(v: JsonModel, sort: bool, ascii: bool)
    requires
        valid(v),
    ensures
        clean(dumps(v, sort, ascii), ascii),
    decreases v,
{
    match v {
        JsonModel::Null => {
            reveal_strlit("null");
        },
        JsonModel::Bool(_) => {
            reveal_strlit("true");
            reveal_strlit("false");
        },
        JsonModel::Number(n) => {
            lemma_clean_number(n, ascii);
        },
        JsonModel::Str(s) => {
            lemma_clean_quoted(s, ascii);
        },
        JsonModel::Array(items) => {
            let texts = item_texts(items, sort, ascii);
            assert forall|i: int| 0 <= i < texts.len() implies clean(#[trigger] texts[i], ascii) by {
                assert(valid(items[i]));
                law_dumps_is_clean(items[i], sort, ascii);
            }
            lemma_clean_join(texts, ascii);
            lemma_clean_concat(seq!['['], join(texts, comma()), ascii);
            lemma_clean_concat(seq!['['] + join(texts, comma()), seq![']'], ascii);
        },
        JsonModel::Object(entries) => {
            let rendered = rendered_entries(entries, sort, ascii);
            assert forall|i: int| 0 <= i < rendered.len() implies clean((#[trigger] rendered[i]).1, ascii) by {
                assert(valid(entries[i].1));
                law_dumps_is_clean(entries[i].1, sort, ascii);
            }
            let ordered = if sort {
                sort_entries(rendered)
            } else {
                rendered
            };
            let texts = entry_texts(ordered, ascii);
            assert forall|i: int| 0 <= i < texts.len() implies clean(#[trigger] texts[i], ascii) by {
                if sort {
                    let j = lemma_sorted_from(rendered, i);
                    assert(ordered[i] == rendered[j]);
                }
                let e = ordered[i];
                lemma_clean_quoted(e.0, ascii);
                lemma_clean_concat(quoted(e.0, ascii), seq![':', ' '], ascii);
                lemma_clean_concat(quoted(e.0, ascii) + seq![':', ' '], e.1, ascii);
            }
            lemma_clean_join(texts, ascii);
            lemma_clean_concat(seq!['{'], join(texts, comma()), ascii);
            lemma_clean_concat(seq!['{'] + join(texts, comma()), seq!['}'], ascii);
        },
    }
}

/// Where a sorted entry came from.
pub proof fn lemma_sorted_from<T>(list: Seq<(Seq<char>, T)>, i: int) -> (j: int)
    requires
        0 <= i < sort_entries(list).len(),
    ensures
        0 <= j < list.len(),
        sort_entries(list)[i] == list[j],
{
    law_sort_keeps_entries(list);
    let sorted = sort_entries(list);
    assert(sorted.to_multiset().count(sorted[i]) > 0) by {
        sorted.to_multiset_ensures();
        assert(sorted.contains(sorted[i]));
    }
    list.to_multiset_ensures();
    assert(list.contains(sorted[i]));
    list.index_of(sorted[i])
}

/// Inserting adds the entry and takes nothing away.
proof fn lemma_insert_multiset<T>(list: Seq<(Seq<char>, T)>, e: (Seq<char>, T))
    ensures
        insert_entry(list, e).to_multiset() == list.to_multiset().insert(e),
    decreases list.len(),
{
    list.to_multiset_ensures();
    if list.len() > 0 && key_less(e.0, list.last().0) {
        let before = list.drop_last();
        lemma_insert_multiset(before, e);
        insert_entry(before, e).to_multiset_ensures();
        before.to_multiset_ensures();
        assert(before.push(list.last()) =~= list);
        assert(insert_entry(list, e).to_multiset() =~= list.to_multiset().insert(e));
    }
}

/// Sorting keeps the entries: it only reorders them.
pub proof fn law_sort_keeps_entries<T>(list: Seq<(Seq<char>, T)>)
    ensures
        sort_entries(list).to_multiset() == list.to_multiset(),
        sort_entries(list).len() == list.len(),
    decreases list.len(),
{
    list.to_multiset_ensures();
    sort_entries(list).to_multiset_ensures();
    if list.len() > 0 {
        law_sort_keeps_entries(list.drop_last());
        lemma_insert_multiset(sort_entries(list.drop_last()), list.last());
        list.drop_last().to_multiset_ensures();
        assert(list.drop_last().push(list.last()) =~= list);
    } else {
        assert(sort_entries(list) =~= list);
    }
}

/// The order of keys is strict and total.
pub proof fn law_key_order_is_total(a: Seq<char>, b: Seq<char>)
    ensures
        !key_less(a, a),
        !(key_less(a, b) && key_less(b, a)),
        key_less(a, b) || a == b || key_less(b, a),
    decreases a.len(),
{
    if a.len() > 0 {
        law_key_order_is_total(a.drop_first(), a.drop_first());
    }
    if a.len() > 0 && b.len() > 0 {
        law_key_order_is_total(a.drop_first(), b.drop_first());
        if a[0] == b[0] && a.drop_first() == b.drop_first() {
            assert(a =~= seq![a[0]] + a.drop_first());
            assert(b =~= seq![b[0]] + b.drop_first());
        }
    } else if a.len() == 0 && b.len() == 0 {
        assert(a =~= b);
    }
}

/// The order of keys is transitive.
pub proof fn law_key_order_is_transitive(a: Seq<char>, b: Seq<char>, c: Seq<char>)
    requires
        key_less(a, b),
        key_less(b, c),
    ensures
        key_less(a, c),
    decreases a.len(),
{
    if a.len() > 0 && a[0] == b[0] && b[0] == c[0] {
        law_key_order_is_transitive(a.drop_first(), b.drop_first(), c.drop_first());
    }
}

/// No key is less than one before it.
pub open spec fn keys_ascend<T>(list: Seq<(Seq<char>, T)>) -> bool {
    forall|i: int, j: int| 0 <= i < j < list.len() ==> !key_less((#[trigger] list[j]).0, (#[trigger] list[i]).0)
}

/// Not being less carries over.
proof fn lemma_not_less_transitive(a: Seq<char>, b: Seq<char>, c: Seq<char>)
    requires
        !key_less(b, a),
        !key_less(c, b),
    ensures
        !key_less(c, a),
{
    law_key_order_is_total(a, b);
    law_key_order_is_total(b, c);
    if key_less(c, a) {
        if key_less(a, b) {
            law_key_order_is_transitive(c, a, b);
        }
    }
}

/// Inserting keeps keys in order.
proof fn lemma_insert_ascends<T>(list: Seq<(Seq<char>, T)>, e: (Seq<char>, T))
    requires
        keys_ascend(list),
    ensures
        keys_ascend(insert_entry(list, e)),
        forall|i: int| #![trigger insert_entry(list, e)[i]]
            0 <= i < insert_entry(list, e).len() ==> insert_entry(list, e)[i] == e || list.contains(
                insert_entry(list, e)[i],
            ),
    decreases list.len(),
{
    let all = insert_entry(list, e);
    if list.len() > 0 && key_less(e.0, list.last().0) {
        let last = list.last();
        let before = list.drop_last();
        assert forall|i: int, j: int| 0 <= i < j < before.len() implies !key_less(
            (#[trigger] before[j]).0,
            (#[trigger] before[i]).0,
        ) by {
            assert(before[i] == list[i] && before[j] == list[j]);
        }
        lemma_insert_ascends(before, e);
        let head = insert_entry(before, e);
        law_key_order_is_total(e.0, last.0);
        assert forall|i: int| #![trigger all[i]] 0 <= i < all.len() implies all[i] == e || list.contains(all[i]) by {
            if i < head.len() {
                assert(all[i] == head[i]);
                if head[i] != e {
                    let k = before.index_of(head[i]);
                    assert(list[k] == head[i]);
                }
            } else {
                assert(all[i] == list[list.len() - 1]);
            }
        }
        assert forall|i: int, j: int| 0 <= i < j < all.len() implies !key_less(
            (#[trigger] all[j]).0,
            (#[trigger] all[i]).0,
        ) by {
            assert(all[i] == head[i]);
            if j < head.len() {
                assert(all[j] == head[j]);
            } else {
                assert(all[j] == last);
                if head[i] != e {
                    let k = before.index_of(head[i]);
                    assert(before[k] == list[k]);
                    assert(!key_less(list[list.len() - 1].0, list[k].0));
                }
            }
        }
    } else {
        assert forall|i: int| #![trigger all[i]] 0 <= i < all.len() implies all[i] == e || list.contains(all[i]) by {
            if i < list.len() {
                assert(all[i] == list[i]);
            }
        }
        assert forall|i: int, j: int| 0 <= i < j < all.len() implies !key_less(
            (#[trigger] all[j]).0,
            (#[trigger] all[i]).0,
        ) by {
            assert(all[i] == list[i]);
            if j < list.len() {
                assert(all[j] == list[j]);
            } else if i < list.len() - 1 {
                assert(!key_less(list[list.len() - 1].0, list[i].0));
                lemma_not_less_transitive(list[i].0, list.last().0, e.0);
            }
        }
    }
}

/// Sorted keys are in the order of their code points.
pub proof fn law_sort_orders_keys<T>(list: Seq<(Seq<char>, T)>)
    ensures
        keys_ascend(sort_entries(list)),
    decreases list.len(),
{
    if list.len() > 0 {
        law_sort_orders_keys(list.drop_last());
        lemma_insert_ascends(sort_entries(list.drop_last()), list.last());
    }
}

/// The entries with the given key.
pub open spec fn with_key<T>(list: Seq<(Seq<char>, T)>, key: Seq<char>) -> Seq<(Seq<char>, T)>
    decreases list.len(),
{
    if list.len() == 0 {
        seq![]
    } else if list.last().0 == key {
        with_key(list.drop_last(), key).push(list.last())
    } else {
        with_key(list.drop_last(), key)
    }
}

/// Inserting puts an entry behind those with its key.
proof fn lemma_insert_with_key<T>(list: Seq<(Seq<char>, T)>, e: (Seq<char>, T), key: Seq<char>)
    ensures
        with_key(insert_entry(list, e), key) == if e.0 == key {
            with_key(list, key).push(e)
        } else {
            with_key(list, key)
        },
    decreases list.len(),
{
    let all = insert_entry(list, e);
    if list.len() > 0 && key_less(e.0, list.last().0) {
        lemma_insert_with_key(list.drop_last(), e, key);
        assert(all.drop_last() =~= insert_entry(list.drop_last(), e));
        law_key_order_is_total(e.0, list.last().0);
    } else {
        assert(all.drop_last() =~= list);
    }
}

/// Sorting is stable: entries with the same key keep their order.
pub proof fn law_sort_is_stable<T>(list: Seq<(Seq<char>, T)>, key: Seq<char>)
    ensures
        with_key(sort_entries(list), key) == with_key(list, key),
    decreases list.len(),
{
    if list.len() > 0 {
        law_sort_is_stable(list.drop_last(), key);
        lemma_insert_with_key(sort_entries(list.drop_last()), list.last(), key);
    }
}

/// The keys of entries with other values.
pub open spec fn revalued<T, U>(list: Seq<(Seq<char>, T)>, f: spec_fn(T) -> U) -> Seq<(Seq<char>, U)> {
    Seq::new(list.len(), |i: int| (list[i].0, f(list[i].1)))
}

/// Inserting looks at keys only.
proof fn lemma_insert_revalued<T, U>(list: Seq<(Seq<char>, T)>, e: (Seq<char>, T), f: spec_fn(T) -> U)
    ensures
        insert_entry(revalued(list, f), (e.0, f(e.1))) == revalued(insert_entry(list, e), f),
    decreases list.len(),
{
    let there = revalued(list, f);
    if list.len() > 0 && key_less(e.0, list.last().0) {
        let before = list.drop_last();
        lemma_insert_revalued(before, e, f);
        assert(there.drop_last() =~= revalued(before, f));
        assert(revalued(insert_entry(before, e), f).push(there.last()) =~= revalued(insert_entry(list, e), f));
    } else {
        assert(there.push((e.0, f(e.1))) =~= revalued(list.push(e), f));
    }
}

/// Sorting looks at keys only.
pub proof fn law_sort_ignores_values<T, U>(list: Seq<(Seq<char>, T)>, f: spec_fn(T) -> U)
    ensures
        sort_entries(revalued(list, f)) == revalued(sort_entries(list), f),
    decreases list.len(),
{
    let there = revalued(list, f);
    if list.len() > 0 {
        let before = list.drop_last();
        law_sort_ignores_values(before, f);
        assert(there.drop_last() =~= revalued(before, f));
        lemma_insert_revalued(sort_entries(before), list.last(), f);
    } else {
        assert(sort_entries(there) =~= revalued(sort_entries(list), f));
    }
}

/// The value with the keys of every object in it sorted.
pub open spec fn presorted(v: JsonModel) -> JsonModel
    decreases v,
{
    match v {
        JsonModel::Array(items) => JsonModel::Array(presorted_items(items)),
        JsonModel::Object(entries) => JsonModel::Object(sort_entries(presorted_values(entries))),
        _ => v,
    }
}

/// The items with the keys of every object in them sorted.
pub open spec fn presorted_items(items: Seq<JsonModel>) -> Seq<JsonModel>
    decreases items,
{
    Seq::new(
        items.len(),
        |i: int|
            if 0 <= i < items.len() {
                presorted(items[i])
            } else {
                JsonModel::Null
            },
    )
}

/// The entries with the keys of every object in their values sorted.
pub open spec fn presorted_values(entries: Seq<(Seq<char>, JsonModel)>) -> Seq<(Seq<char>, JsonModel)>
    decreases entries,
{
    Seq::new(
        entries.len(),
        |i: int|
            if 0 <= i < entries.len() {
                (entries[i].0, presorted(entries[i].1))
            } else {
                (seq![], JsonModel::Null)
            },
    )
}

/// Sorting the keys while writing gives what writing the sorted value gives.
pub proof fn law_sorting_equals_dumping_the_sorted(v: JsonModel, ascii: bool)
    ensures
        dumps(v, true, ascii) == dumps(presorted(v), false, ascii),
    decreases v,
{
    match v {
        JsonModel::Array(items) => {
            let sorted = presorted_items(items);
            assert forall|i: int| 0 <= i < items.len() implies #[trigger] item_texts(items, true, ascii)[i]
                == item_texts(sorted, false, ascii)[i] by {
                law_sorting_equals_dumping_the_sorted(items[i], ascii);
            }
            assert(item_texts(items, true, ascii) =~= item_texts(sorted, false, ascii));
        },
        JsonModel::Object(entries) => {
            let f = |x: JsonModel| dumps(x, false, ascii);
            let values = presorted_values(entries);
            let sorted = sort_entries(values);
            law_sort_keeps_entries(values);
            assert forall|i: int| 0 <= i < entries.len() implies #[trigger] rendered_entries(entries, true, ascii)[i]
                == revalued(values, f)[i] by {
                law_sorting_equals_dumping_the_sorted(entries[i].1, ascii);
            }
            assert(rendered_entries(entries, true, ascii) =~= revalued(values, f));
            law_sort_ignores_values(values, f);
            assert(rendered_entries(sorted, false, ascii) =~= revalued(sorted, f));
        },
        _ => {},
    }
}

} // verus!
