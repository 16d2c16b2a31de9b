//! Texts as sequences of characters: splitting, finding, comparing and joining them.
use vstd::prelude::*;
use vstd::utf8::*;

verus! {

/// Appending one character with `String::push`: the string grows by exactly that character.
pub assume_specification[ String::push ](s: &mut String, c: char)
    ensures
        final(s)@ == old(s)@.push(c),
;

/// The contents of a list of string slices.
pub open spec fn strs(list: Seq<&str>) -> Seq<Seq<char>> {
    Seq::new(list.len(), |i: int| list[i]@)
}

/// The contents of a list of strings.
pub open spec fn strings(list: Seq<String>) -> Seq<Seq<char>> {
    Seq::new(list.len(), |i: int| list[i]@)
}

/// The contents of a string, if there is one.
pub open spec fn opt_str(s: Option<String>) -> Option<Seq<char>> {
    match s {
        Some(x) => Some(x@),
        None => None,
    }
}

/// The index of the first character that satisfies `p`, or the length of `s`.
pub open spec fn first_where(s: Seq<char>, p: spec_fn(char) -> bool) -> int
    decreases s.len(),
{
    if s.len() == 0 || p(s[0]) {
        0
    } else {
        1 + first_where(s.drop_first(), p)
    }
}

/// The parts of `list` with `sep` between neighbours.
pub open spec fn join(list: Seq<Seq<char>>, sep: Seq<char>) -> Seq<char>
    decreases list.len(),
{
    if list.len() == 0 {
        seq![]
    } else if list.len() == 1 {
        list[0]
    } else {
        list[0] + sep + join(list.drop_first(), sep)
    }
}

/// The test for one character.
pub open spec fn is_char(c: char) -> spec_fn(char) -> bool {
    |x: char| x == c
}

/// The pieces of `s` between occurrences of `c`; always at least one.
pub open spec fn split_on(s: Seq<char>, c: char) -> Seq<Seq<char>>
    decreases s.len(),
{
    let k = first_where(s, is_char(c));
    proof {
        lemma_first_where(s, is_char(c));
    }
    if k >= s.len() {
        seq![s]
    } else {
        seq![s.take(k)] + split_on(s.skip(k + 1), c)
    }
}

/// `first_where` is the only index with this property.
pub proof fn lemma_first_where(s: Seq<char>, p: spec_fn(char) -> bool)
    ensures
        0 <= first_where(s, p) <= s.len(),
        first_where(s, p) < s.len() ==> p(s[first_where(s, p)]),
        forall|i: int| 0 <= i < first_where(s, p) ==> !p(#[trigger] s[i]),
    decreases s.len(),
{
    if s.len() > 0 && !p(s[0]) {
        lemma_first_where(s.drop_first(), p);
        let k = first_where(s.drop_first(), p);
        assert forall|i: int| 0 <= i < k + 1 implies !p(#[trigger] s[i]) by {
            if i > 0 {
                assert(s.drop_first()[i - 1] == s[i]);
            }
        }
    }
}

/// An index with no match before it and a match at it, or the end, is `first_where`.
pub proof fn lemma_first_where_unique(s: Seq<char>, p: spec_fn(char) -> bool, k: int)
    requires
        0 <= k <= s.len(),
        k < s.len() ==> p(s[k]),
        forall|i: int| 0 <= i < k ==> !p(#[trigger] s[i]),
    ensures
        first_where(s, p) == k,
{
    lemma_first_where(s, p);
    let f = first_where(s, p);
    if f < k {
        assert(!p(s[f]));
    } else if k < f {
        assert(!p(s[k]));
    }
}

/// The number of bytes that `c` takes in UTF-8.
pub fn utf8_width(c: char) -> (n: usize)
    ensures
        n == encode_scalar(c as u32).len(),
{
    let v = c as u32;
    if v <= 0x7f {
        1
    } else if v <= 0x7ff {
        2
    } else if v <= 0xffff {
        3
    } else {
        4
    }
}

/// Encoding distributes over concatenation.
pub proof fn lemma_encode_concat(a: Seq<char>, b: Seq<char>)
    ensures
        encode_utf8(a + b) == encode_utf8(a) + encode_utf8(b),
    decreases a.len(),
{
    if a.len() == 0 {
        assert(a + b =~= b);
        assert(encode_utf8(a) =~= Seq::<u8>::empty());
    } else {
        lemma_encode_concat(a.drop_first(), b);
        assert((a + b).drop_first() =~= a.drop_first() + b);
        assert(encode_utf8(a + b) =~= encode_utf8(a) + encode_utf8(b));
    }
}

/// The end of an encoded prefix is a character boundary of the whole.
pub proof fn lemma_encode_boundary(a: Seq<char>, b: Seq<char>)
    ensures
        is_char_boundary(encode_utf8(a + b), encode_utf8(a).len() as int),
    decreases a.len(),
{
    lemma_encode_concat(a, b);
    encode_utf8_valid_utf8(a + b);
    if a.len() > 0 {
        encode_utf8_first_scalar(a + b);
        lemma_encode_boundary(a.drop_first(), b);
        assert((a + b).drop_first() =~= a.drop_first() + b);
        assert(pop_first_scalar(encode_utf8(a + b)) =~= encode_utf8(a.drop_first() + b));
    }
}

/// A text has no more characters than bytes.
pub proof fn lemma_chars_fit_bytes(s: Seq<char>)
    ensures
        s.len() <= encode_utf8(s).len(),
    decreases s.len(),
{
    if s.len() > 0 {
        lemma_chars_fit_bytes(s.drop_first());
    }
}

/// Strings with the same encoding are the same.
proof fn lemma_encode_injective(a: Seq<char>, b: Seq<char>)
    requires
        encode_utf8(a) == encode_utf8(b),
    ensures
        a == b,
{
    encode_utf8_decode_utf8(a);
    encode_utf8_decode_utf8(b);
}

/// Splits `s` after its first `k` characters.
pub fn split_chars(s: &str, k: usize) -> (parts: (&str, &str))
    requires
        k <= s@.len(),
    ensures
        parts.0@ == s@.take(k as int),
        parts.1@ == s@.skip(k as int),
{
    let total: usize = s.as_bytes().len();
    let mut bytes: usize = 0;
    let mut n: usize = 0;
    let mut it = s.chars();
    assert(s@.take(0) =~= Seq::<char>::empty());
    assert(s@.skip(0) =~= s@);
    while n < k
        invariant
            n <= k <= s@.len(),
            total == encode_utf8(s@).len(),
            vstd::std_specs::iter::IteratorSpec::remaining(&it) == s@.skip(n as int),
            bytes == encode_utf8(s@.take(n as int)).len(),
        decreases k - n,
    {
        let next = it.next();
        proof {
            let c = s@[n as int];
            assert(s@.skip(n as int)[0] == c);
            assert(s@.skip(n as int).drop_first() =~= s@.skip(n + 1));
            assert(s@.take(n + 1) =~= s@.take(n as int) + seq![c]);
            lemma_encode_concat(s@.take(n as int), seq![c]);
            reveal_with_fuel(encode_utf8, 2);
            assert(encode_utf8(seq![c]) =~= encode_scalar(c as u32));
            lemma_encode_concat(s@.take(n + 1), s@.skip(n + 1));
            assert(s@.take(n + 1) + s@.skip(n + 1) =~= s@);
        }
        if let Some(c) = next {
            bytes = bytes + utf8_width(c);
        }
        n = n + 1;
    }
    proof {
        let a = s@.take(k as int);
        let b = s@.skip(k as int);
        assert(a + b =~= s@);
        lemma_encode_boundary(a, b);
        lemma_encode_concat(a, b);
    }
    let parts = s.split_at(bytes);
    proof {
        let a = s@.take(k as int);
        let b = s@.skip(k as int);
        assert((encode_utf8(a) + encode_utf8(b)).subrange(0, bytes as int) =~= encode_utf8(a));
        assert((encode_utf8(a) + encode_utf8(b)).subrange(bytes as int, total as int) =~= encode_utf8(b));
        lemma_encode_injective(parts.0@, a);
        lemma_encode_injective(parts.1@, b);
    }
    parts
}

/// The index of the first character of `s` that `pick` accepts, or the number of characters.
pub fn find_char<F: Fn(char) -> bool>(s: &str, pick: F, Ghost(p): Ghost<spec_fn(char) -> bool>) -> (k: usize)
    requires
        forall|c: char| call_requires(pick, (c,)),
        forall|c: char, b: bool| call_ensures(pick, (c,), b) ==> b == p(c),
    ensures
        k == first_where(s@, p),
        k <= s@.len(),
        k < s@.len() ==> p(s@[k as int]),
        forall|i: int| 0 <= i < k ==> !p(#[trigger] s@[i]),
{
    let total: usize = s.as_bytes().len();
    proof {
        lemma_chars_fit_bytes(s@);
    }
    let mut n: usize = 0;
    let mut it = s.chars();
    assert(s@.skip(0) =~= s@);
    loop
        invariant
            n <= s@.len() <= total,
            forall|c: char| call_requires(pick, (c,)),
            forall|c: char, b: bool| call_ensures(pick, (c,), b) ==> b == p(c),
            forall|i: int| 0 <= i < n ==> !p(#[trigger] s@[i]),
            vstd::std_specs::iter::IteratorSpec::remaining(&it) == s@.skip(n as int),
        decreases s@.len() - n,
    {
        match it.next() {
            None => {
                proof {
                    lemma_first_where_unique(s@, p, n as int);
                }
                return n;
            },
            Some(c) => {
                assert(s@.skip(n as int)[0] == s@[n as int]);
                if pick(c) {
                    proof {
                        lemma_first_where_unique(s@, p, n as int);
                    }
                    return n;
                }
                assert(s@.skip(n as int).drop_first() =~= s@.skip(n + 1));
                n = n + 1;
            },
        }
    }
}

/// The index after the last character of `s` that `pick` accepts, or 0.
pub fn find_end<F: Fn(char) -> bool>(s: &str, pick: F, Ghost(p): Ghost<spec_fn(char) -> bool>) -> (end: usize)
    requires
        forall|c: char| call_requires(pick, (c,)),
        forall|c: char, b: bool| call_ensures(pick, (c,), b) ==> b == p(c),
    ensures
        end <= s@.len(),
        end > 0 ==> p(s@[end - 1]),
        forall|i: int| end <= i < s@.len() ==> !p(#[trigger] s@[i]),
{
    let total: usize = s.as_bytes().len();
    proof {
        lemma_chars_fit_bytes(s@);
    }
    let mut n: usize = 0;
    let mut end: usize = 0;
    let mut it = s.chars();
    assert(s@.skip(0) =~= s@);
    loop
        invariant
            end <= n <= s@.len() <= total,
            forall|c: char| call_requires(pick, (c,)),
            forall|c: char, b: bool| call_ensures(pick, (c,), b) ==> b == p(c),
            end > 0 ==> p(s@[end - 1]),
            forall|i: int| end <= i < n ==> !p(#[trigger] s@[i]),
            vstd::std_specs::iter::IteratorSpec::remaining(&it) == s@.skip(n as int),
        decreases s@.len() - n,
    {
        match it.next() {
            None => {
                return end;
            },
            Some(c) => {
                assert(s@.skip(n as int)[0] == s@[n as int]);
                assert(s@.skip(n as int).drop_first() =~= s@.skip(n + 1));
                n = n + 1;
                if pick(c) {
                    end = n;
                }
            },
        }
    }
}

/// Whether two texts are the same.
pub fn str_eq(a: &str, b: &str) -> (r: bool)
    ensures
        r == (a@ == b@),
{
    let mut n: Ghost<int> = Ghost(0);
    let mut left = a.chars();
    let mut right = b.chars();
    assert(a@.skip(0) =~= a@);
    assert(b@.skip(0) =~= b@);
    loop
        invariant
            0 <= n@ <= a@.len(),
            n@ <= b@.len(),
            a@.take(n@) == b@.take(n@),
            vstd::std_specs::iter::IteratorSpec::remaining(&left) == a@.skip(n@),
            vstd::std_specs::iter::IteratorSpec::remaining(&right) == b@.skip(n@),
        decreases a@.len() - n@,
    {
        let x = left.next();
        let y = right.next();
        match (x, y) {
            (None, None) => {
                assert(a@.take(n@) =~= a@);
                assert(b@.take(n@) =~= b@);
                return true;
            },
            (Some(c), Some(d)) => {
                assert(a@.skip(n@)[0] == a@[n@]);
                assert(b@.skip(n@)[0] == b@[n@]);
                if c != d {
                    return false;
                }
                proof {
                    assert(a@.skip(n@).drop_first() =~= a@.skip(n@ + 1));
                    assert(b@.skip(n@).drop_first() =~= b@.skip(n@ + 1));
                    assert(a@.take(n@ + 1) =~= a@.take(n@).push(c));
                    assert(b@.take(n@ + 1) =~= b@.take(n@).push(c));
                }
                n = Ghost(n@ + 1);
            },
            _ => {
                return false;
            },
        }
    }
}

/// `prefix` starts `s`.
pub open spec fn starts_with(s: Seq<char>, prefix: Seq<char>) -> bool {
    prefix.len() <= s.len() && s.take(prefix.len() as int) == prefix
}

/// Whether `s` starts with `prefix`.
pub fn str_starts_with(s: &str, prefix: &str) -> (r: bool)
    ensures
        r == starts_with(s@, prefix@),
{
    let k: usize = prefix.unicode_len();
    let mut n: usize = 0;
    let mut it = s.chars();
    assert(s@.skip(0) =~= s@);
    while n < k
        invariant
            n <= k,
            n <= s@.len(),
            k == prefix@.len(),
            vstd::std_specs::iter::IteratorSpec::remaining(&it) == s@.skip(n as int),
        decreases k - n,
    {
        if it.next().is_none() {
            return false;
        }
        assert(s@.skip(n as int).drop_first() =~= s@.skip(n + 1));
        n = n + 1;
    }
    str_eq(split_chars(s, k).0, prefix)
}

/// `join` of one part more.
pub proof fn lemma_join_push(list: Seq<Seq<char>>, last: Seq<char>, sep: Seq<char>)
    ensures
        join(list.push(last), sep) == if list.len() == 0 {
            last
        } else {
            join(list, sep) + sep + last
        },
    decreases list.len(),
{
    if list.len() == 1 {
        assert(list.push(last).drop_first() =~= seq![last]);
        assert(join(seq![last], sep) == last);
    } else if list.len() > 1 {
        lemma_join_push(list.drop_first(), last, sep);
        assert(list.push(last).drop_first() =~= list.drop_first().push(last));
        assert(join(list.push(last), sep) =~= join(list, sep) + sep + last);
    }
}

/// The parts `parts[from..to]` with `sep` between neighbours.
pub fn join_range(parts: &[&str], from: usize, to: usize, sep: &str) -> (r: String)
    requires
        from <= to <= parts@.len(),
    ensures
        r@ == join(strs(parts@).subrange(from as int, to as int), sep@),
{
    let mut out = String::new();
    let mut i: usize = from;
    let ghost all = strs(parts@);
    assert(all.subrange(from as int, from as int) =~= Seq::<Seq<char>>::empty());
    while i < to
        invariant
            from <= i <= to <= parts@.len(),
            all == strs(parts@),
            out@ == join(all.subrange(from as int, i as int), sep@),
        decreases to - i,
    {
        if i > from {
            out.append(sep);
        }
        out.append(parts[i]);
        proof {
            let before = all.subrange(from as int, i as int);
            lemma_join_push(before, all[i as int], sep@);
            assert(all.subrange(from as int, i + 1) =~= before.push(all[i as int]));
        }
        i = i + 1;
    }
    out
}

} // verus!
