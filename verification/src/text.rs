//! Text as sequences of characters: UTF-8 sizes, cuts on character boundaries,
//! ASCII case folding, substring search and the order of strings.

use vstd::prelude::*;
use vstd::utf8::*;

verus! {

/// Number of bytes in the UTF-8 encoding of `s`.
pub open spec fn utf8_len(s: Seq<char>) -> nat {
    encode_utf8(s).len()
}

/// Number of bytes in the UTF-8 encoding of one character.
pub open spec fn char_width(c: char) -> nat {
    encode_scalar(c as u32).len()
}

/// How many leading characters of `s` fit into `limit` bytes.
pub open spec fn head_chars(s: Seq<char>, limit: nat) -> nat
    decreases s.len(),
{
    if s.len() == 0 || char_width(s[0]) > limit {
        0
    } else {
        1 + head_chars(s.drop_first(), (limit - char_width(s[0])) as nat)
    }
}

/// How many trailing characters of `s` fit into `limit` bytes.
pub open spec fn tail_chars(s: Seq<char>, limit: nat) -> nat
    decreases s.len(),
{
    if s.len() == 0 || char_width(s.last()) > limit {
        0
    } else {
        1 + tail_chars(s.drop_last(), (limit - char_width(s.last())) as nat)
    }
}

/// The characters that Unicode gives the White_Space property.
pub open spec fn whitespace(c: char) -> bool {
    let v = c as u32;
    ||| 0x09 <= v <= 0x0d
    ||| v == 0x20
    ||| v == 0x85
    ||| v == 0xa0
    ||| v == 0x1680
    ||| 0x2000 <= v <= 0x200a
    ||| v == 0x2028
    ||| v == 0x2029
    ||| v == 0x202f
    ||| v == 0x205f
    ||| v == 0x3000
}

/// Nothing remains of `s` once surrounding white space is removed.
pub open spec fn blank(s: Seq<char>) -> bool {
    forall|i: int| 0 <= i < s.len() ==> whitespace(#[trigger] s[i])
}

/// ASCII lower case of one character; every other character stays as it is.
pub open spec fn lower_char(c: char) -> char {
    if 'A' <= c <= 'Z' {
        ((c as u8) + 32) as u8 as char
    } else {
        c
    }
}

/// ASCII lower case of a whole text.
pub open spec fn lower(s: Seq<char>) -> Seq<char> {
    s.map_values(|c: char| lower_char(c))
}

/// `needle` stands in `hay` at position `at`.
pub open spec fn occurs_at(hay: Seq<char>, needle: Seq<char>, at: int) -> bool {
    0 <= at && at + needle.len() <= hay.len() && hay.subrange(at, at + needle.len()) == needle
}

/// `needle` stands somewhere in `hay`.
pub open spec fn occurs(hay: Seq<char>, needle: Seq<char>) -> bool {
    exists|at: int| occurs_at(hay, needle, at)
}

/// The order of strings: by their first difference, a prefix before its extensions.
pub open spec fn text_lt(a: Seq<char>, b: Seq<char>) -> bool
    decreases a.len(),
{
    if b.len() == 0 {
        false
    } else if a.len() == 0 {
        true
    } else if a[0] != b[0] {
        (a[0] as u32) < (b[0] as u32)
    } else {
        text_lt(a.drop_first(), b.drop_first())
    }
}

pub proof fn lemma_encode_concat(a: Seq<char>, b: Seq<char>)
    ensures
        encode_utf8(a + b) == encode_utf8(a) + encode_utf8(b),
        utf8_len(a + b) == utf8_len(a) + utf8_len(b),
    decreases a.len(),
{
    if a.len() == 0 {
        assert(a + b =~= b);
        assert(encode_utf8(a) + encode_utf8(b) =~= encode_utf8(b));
    } else {
        lemma_encode_concat(a.drop_first(), b);
        assert((a + b).drop_first() =~= a.drop_first() + b);
        assert(encode_utf8(a + b) =~= encode_utf8(a) + encode_utf8(b));
    }
}

pub proof fn lemma_utf8_single(c: char)
    ensures
        utf8_len(seq![c]) == char_width(c),
        1 <= char_width(c) <= 4,
{
    reveal_with_fuel(encode_utf8, 2);
    assert(seq![c].drop_first() =~= Seq::<char>::empty());
}

pub proof fn lemma_no_bytes(s: Seq<char>)
    ensures
        utf8_len(s) == 0 <==> s.len() == 0,
{
    if s.len() > 0 {
        assert(s =~= seq![s[0]] + s.drop_first());
        lemma_encode_concat(seq![s[0]], s.drop_first());
        lemma_utf8_single(s[0]);
    }
}

/// A cut after `n` characters falls on a character boundary of the encoding.
proof fn lemma_cut_is_boundary(s: Seq<char>, n: int)
    requires
        0 <= n <= s.len(),
    ensures
        is_char_boundary(encode_utf8(s), utf8_len(s.take(n)) as int),
        utf8_len(s.take(n)) <= utf8_len(s),
    decreases s.len(),
{
    encode_utf8_valid_utf8(s);
    assert(s =~= s.take(n) + s.skip(n));
    lemma_encode_concat(s.take(n), s.skip(n));
    if n > 0 {
        encode_utf8_first_scalar(s);
        let rest = s.drop_first();
        assert(pop_first_scalar(encode_utf8(s)) =~= encode_utf8(rest));
        lemma_cut_is_boundary(rest, n - 1);
        assert(s.take(n).drop_first() =~= rest.take(n - 1));
    } else {
        assert(s.take(0) =~= Seq::<char>::empty());
    }
}

pub proof fn lemma_head_chars(s: Seq<char>, limit: nat)
    ensures
        head_chars(s, limit) <= s.len(),
        utf8_len(s.take(head_chars(s, limit) as int)) <= limit,
    decreases s.len(),
{
    let n = head_chars(s, limit) as int;
    if s.len() == 0 || char_width(s[0]) > limit {
        assert(s.take(0) =~= Seq::<char>::empty());
    } else {
        let rest = s.drop_first();
        let left = (limit - char_width(s[0])) as nat;
        lemma_head_chars(rest, left);
        lemma_utf8_single(s[0]);
        assert(s.take(n) =~= seq![s[0]] + rest.take(n - 1));
        lemma_encode_concat(seq![s[0]], rest.take(n - 1));
    }
}

pub proof fn lemma_tail_chars(s: Seq<char>, limit: nat)
    ensures
        tail_chars(s, limit) <= s.len(),
        utf8_len(s.skip(s.len() - tail_chars(s, limit))) <= limit,
    decreases s.len(),
{
    let n = tail_chars(s, limit) as int;
    if s.len() == 0 || char_width(s.last()) > limit {
        assert(s.skip(s.len() as int) =~= Seq::<char>::empty());
    } else {
        let rest = s.drop_last();
        let left = (limit - char_width(s.last())) as nat;
        lemma_tail_chars(rest, left);
        lemma_utf8_single(s.last());
        assert(s.skip(s.len() - n) =~= rest.skip(rest.len() - (n - 1)) + seq![s.last()]);
        lemma_encode_concat(rest.skip(rest.len() - (n - 1)), seq![s.last()]);
    }
}

/// No more than three bytes of the limit are left over where there are enough characters.
pub proof fn lemma_head_fills(s: Seq<char>, limit: nat)
    requires
        limit <= utf8_len(s),
    ensures
        limit <= utf8_len(s.take(head_chars(s, limit) as int)) + 3,
    decreases s.len(),
{
    let n = head_chars(s, limit) as int;
    lemma_head_chars(s, limit);
    if s.len() > 0 {
        let rest = s.drop_first();
        lemma_utf8_single(s[0]);
        assert(s =~= seq![s[0]] + rest);
        lemma_encode_concat(seq![s[0]], rest);
        if char_width(s[0]) <= limit {
            let left = (limit - char_width(s[0])) as nat;
            lemma_head_fills(rest, left);
            lemma_head_chars(rest, left);
            assert(s.take(n) =~= seq![s[0]] + rest.take(n - 1));
            lemma_encode_concat(seq![s[0]], rest.take(n - 1));
        }
    }
}

/// No more than three bytes of the limit are left over where there are enough characters.
pub proof fn lemma_tail_fills(s: Seq<char>, limit: nat)
    requires
        limit <= utf8_len(s),
    ensures
        limit <= utf8_len(s.skip(s.len() - tail_chars(s, limit))) + 3,
    decreases s.len(),
{
    let n = tail_chars(s, limit) as int;
    lemma_tail_chars(s, limit);
    if s.len() > 0 {
        let rest = s.drop_last();
        lemma_utf8_single(s.last());
        assert(s =~= rest + seq![s.last()]);
        lemma_encode_concat(rest, seq![s.last()]);
        if char_width(s.last()) <= limit {
            let left = (limit - char_width(s.last())) as nat;
            lemma_tail_fills(rest, left);
            lemma_tail_chars(rest, left);
            assert(s.skip(s.len() - n) =~= rest.skip(rest.len() - (n - 1)) + seq![s.last()]);
            lemma_encode_concat(rest.skip(rest.len() - (n - 1)), seq![s.last()]);
        }
    }
}

/// Every character takes a byte.
pub proof fn lemma_bytes_cover_chars(s: Seq<char>)
    ensures
        s.len() <= utf8_len(s),
    decreases s.len(),
{
    if s.len() > 0 {
        assert(s =~= seq![s[0]] + s.drop_first());
        lemma_encode_concat(seq![s[0]], s.drop_first());
        lemma_utf8_single(s[0]);
        lemma_bytes_cover_chars(s.drop_first());
    }
}

/// A larger limit keeps at least as many leading characters.
pub proof fn lemma_head_chars_monotone(s: Seq<char>, a: nat, b: nat)
    requires
        a <= b,
    ensures
        head_chars(s, a) <= head_chars(s, b),
    decreases s.len(),
{
    if !(s.len() == 0 || char_width(s[0]) > a) {
        lemma_head_chars_monotone(
            s.drop_first(),
            (a - char_width(s[0])) as nat,
            (b - char_width(s[0])) as nat,
        );
    }
}

/// A larger limit keeps at least as many trailing characters.
pub proof fn lemma_tail_chars_monotone(s: Seq<char>, a: nat, b: nat)
    requires
        a <= b,
    ensures
        tail_chars(s, a) <= tail_chars(s, b),
    decreases s.len(),
{
    if !(s.len() == 0 || char_width(s.last()) > a) {
        lemma_tail_chars_monotone(
            s.drop_last(),
            (a - char_width(s.last())) as nat,
            (b - char_width(s.last())) as nat,
        );
    }
}

/// `text_lt` is a strict total order.
pub proof fn lemma_text_lt_total(a: Seq<char>, b: Seq<char>)
    ensures
        !(text_lt(a, b) && text_lt(b, a)),
        a != b ==> text_lt(a, b) || text_lt(b, a),
        a == b ==> !text_lt(a, b),
    decreases a.len(),
{
    if a.len() > 0 && b.len() > 0 && a[0] == b[0] {
        lemma_text_lt_total(a.drop_first(), b.drop_first());
        if a != b && a.drop_first() == b.drop_first() {
            assert(a =~= seq![a[0]] + a.drop_first());
            assert(b =~= seq![b[0]] + b.drop_first());
        }
    } else if a.len() == 0 && b.len() == 0 {
        assert(a =~= b);
    } else if a.len() > 0 && b.len() > 0 {
        char_u32_cast(a[0], a[0] as u32);
        char_u32_cast(b[0], b[0] as u32);
    }
}

pub proof fn lemma_text_lt_transitive(a: Seq<char>, b: Seq<char>, c: Seq<char>)
    requires
        text_lt(a, b),
        text_lt(b, c),
    ensures
        text_lt(a, c),
    decreases a.len(),
{
    if a.len() > 0 && b.len() > 0 && c.len() > 0 && a[0] == b[0] && b[0] == c[0] {
        lemma_text_lt_transitive(a.drop_first(), b.drop_first(), c.drop_first());
    }
}

/// The characters of `s`, in order.
pub fn chars_of(s: &str) -> (r: Vec<char>)
    ensures
        r@ == s@,
{
    let mut r: Vec<char> = Vec::new();
    for c in it: s.chars()
        invariant
            r@ == s@.take(it.index() as int),
            it.seq() == s@,
    {
        r.push(c);
        assert(r@ =~= s@.take(it.index() + 1));
    }
    assert(s@.take(s@.len() as int) =~= s@);
    r
}

/// Number of bytes that `s` takes in memory and on the wire.
pub fn byte_len(s: &str) -> (r: usize)
    ensures
        r == utf8_len(s@),
{
    s.as_bytes().len()
}

pub fn no_text(s: &str) -> (r: bool)
    ensures
        r == (s@.len() == 0),
{
    proof {
        lemma_no_bytes(s@);
    }
    byte_len(s) == 0
}

pub fn width_of(c: char) -> (r: usize)
    ensures
        r == char_width(c),
        1 <= r <= 4,
{
    let v: u32 = c as u32;
    proof {
        char_is_scalar(c);
    }
    if v <= 0x7f {
        1
    } else if v <= 0x7ff {
        2
    } else if v <= 0xffff {
        3
    } else {
        4
    }
}

/// Both texts hold the same characters.
pub fn same_text(a: &str, b: &str) -> (r: bool)
    ensures
        r == (a@ == b@),
{
    a.to_owned() == b.to_owned()
}

pub fn is_whitespace(c: char) -> (r: bool)
    ensures
        r == whitespace(c),
{
    let v: u32 = c as u32;
    (0x09 <= v && v <= 0x0d) || v == 0x20 || v == 0x85 || v == 0xa0 || v == 0x1680 || (0x2000 <= v
        && v <= 0x200a) || v == 0x2028 || v == 0x2029 || v == 0x202f || v == 0x205f || v == 0x3000
}

/// Whether `s` holds nothing but white space.
pub fn is_blank(s: &str) -> (r: bool)
    ensures
        r == blank(s@),
{
    let chars: Vec<char> = chars_of(s);
    let mut i: usize = 0;
    while i < chars.len()
        invariant
            i <= chars.len(),
            chars@ == s@,
            forall|k: int| 0 <= k < i ==> whitespace(#[trigger] s@[k]),
        decreases chars.len() - i,
    {
        if !is_whitespace(chars[i]) {
            return false;
        }
        i += 1;
    }
    true
}

pub fn to_lower_char(c: char) -> (r: char)
    ensures
        r == lower_char(c),
{
    if 'A' <= c && c <= 'Z' {
        let b: u8 = c as u8;
        (b + 32) as char
    } else {
        c
    }
}

/// The characters of `s` in ASCII lower case.
pub fn lower_chars_of(s: &str) -> (r: Vec<char>)
    ensures
        r@ == lower(s@),
{
    let chars: Vec<char> = chars_of(s);
    let mut r: Vec<char> = Vec::new();
    let mut i: usize = 0;
    while i < chars.len()
        invariant
            i <= chars.len(),
            chars@ == s@,
            r@ == lower(s@).take(i as int),
        decreases chars.len() - i,
    {
        r.push(to_lower_char(chars[i]));
        i += 1;
        assert(r@ =~= lower(s@).take(i as int));
    }
    assert(lower(s@).take(i as int) =~= lower(s@));
    r
}

/// Whether `needle` stands in `hay` at position `at`.
pub fn stands_at(hay: &Vec<char>, needle: &Vec<char>, at: usize) -> (r: bool)
    ensures
        r == occurs_at(hay@, needle@, at as int),
{
    if at > hay.len() || needle.len() > hay.len() - at {
        return false;
    }
    let mut k: usize = 0;
    while k < needle.len()
        invariant
            k <= needle.len(),
            at + needle.len() <= hay.len(),
            forall|i: int| 0 <= i < k ==> hay@[at + i] == #[trigger] needle@[i],
        decreases needle.len() - k,
    {
        if hay[at + k] != needle[k] {
            assert(hay@.subrange(at as int, at + needle@.len())[k as int] != needle@[k as int]);
            return false;
        }
        k += 1;
    }
    assert(hay@.subrange(at as int, at + needle@.len()) =~= needle@);
    true
}

/// Whether `needle` stands anywhere in `hay`.
pub fn stands_in(hay: &Vec<char>, needle: &Vec<char>) -> (r: bool)
    ensures
        r == occurs(hay@, needle@),
{
    let mut at: usize = 0;
    while at <= hay.len()
        invariant
            at <= hay.len() + 1,
            forall|k: int| 0 <= k < at ==> !#[trigger] occurs_at(hay@, needle@, k),
        decreases hay.len() + 1 - at,
    {
        if stands_at(hay, needle, at) {
            return true;
        }
        if at == hay.len() {
            return false;
        }
        at += 1;
    }
    false
}

/// Whether `a` comes before `b` in the order of strings.
pub fn text_less(a: &str, b: &str) -> (r: bool)
    ensures
        r == text_lt(a@, b@),
{
    let x: Vec<char> = chars_of(a);
    let y: Vec<char> = chars_of(b);
    let mut i: usize = 0;
    assert(a@.skip(0) =~= a@);
    assert(b@.skip(0) =~= b@);
    while i < x.len() && i < y.len()
        invariant
            i <= x.len(),
            i <= y.len(),
            x@ == a@,
            y@ == b@,
            text_lt(a@, b@) == text_lt(a@.skip(i as int), b@.skip(i as int)),
        decreases x.len() - i,
    {
        if x[i] != y[i] {
            return (x[i] as u32) < (y[i] as u32);
        }
        assert(a@.skip(i as int).drop_first() =~= a@.skip(i + 1));
        assert(b@.skip(i as int).drop_first() =~= b@.skip(i + 1));
        i += 1;
    }
    i < y.len()
}

/// Counts the leading characters that fit into `limit` bytes, and their bytes.
pub fn fit_head(chars: &Vec<char>, limit: usize) -> (r: (usize, usize))
    ensures
        r.0 == head_chars(chars@, limit as nat),
        r.0 <= chars@.len(),
        r.1 == utf8_len(chars@.take(r.0 as int)),
        r.1 <= limit,
{
    let mut n: usize = 0;
    let mut used: usize = 0;
    assert(chars@.skip(0) =~= chars@);
    assert(chars@.take(0) =~= Seq::<char>::empty());
    while n < chars.len()
        invariant
            n <= chars.len(),
            used <= limit,
            used == utf8_len(chars@.take(n as int)),
            head_chars(chars@, limit as nat) == n + head_chars(
                chars@.skip(n as int),
                (limit - used) as nat,
            ),
        decreases chars.len() - n,
    {
        let w: usize = width_of(chars[n]);
        if w > limit - used {
            return (n, used);
        }
        proof {
            let c = chars@[n as int];
            assert(chars@.skip(n as int)[0] == c);
            assert(chars@.skip(n as int).drop_first() =~= chars@.skip(n + 1));
            assert(chars@.take(n + 1) =~= chars@.take(n as int) + seq![c]);
            lemma_encode_concat(chars@.take(n as int), seq![c]);
            lemma_utf8_single(c);
        }
        n += 1;
        used += w;
    }
    (n, used)
}

/// Counts the trailing characters that fit into `limit` bytes, and their bytes.
pub fn fit_tail(chars: &Vec<char>, limit: usize) -> (r: (usize, usize))
    ensures
        r.0 == tail_chars(chars@, limit as nat),
        r.0 <= chars@.len(),
        r.1 == utf8_len(chars@.skip(chars@.len() - r.0)),
        r.1 <= limit,
{
    let mut n: usize = 0;
    let mut used: usize = 0;
    let ghost len = chars@.len() as int;
    assert(chars@.take(len) =~= chars@);
    assert(chars@.skip(len) =~= Seq::<char>::empty());
    while n < chars.len()
        invariant
            n <= chars.len(),
            len == chars@.len(),
            used <= limit,
            used == utf8_len(chars@.skip(len - n)),
            tail_chars(chars@, limit as nat) == n + tail_chars(
                chars@.take(len - n),
                (limit - used) as nat,
            ),
        decreases chars.len() - n,
    {
        let c: char = chars[chars.len() - 1 - n];
        let w: usize = width_of(c);
        if w > limit - used {
            return (n, used);
        }
        proof {
            assert(chars@.take(len - n).last() == c);
            assert(chars@.take(len - n).drop_last() =~= chars@.take(len - n - 1));
            assert(chars@.skip(len - n - 1) =~= seq![c] + chars@.skip(len - n));
            lemma_encode_concat(seq![c], chars@.skip(len - n));
            lemma_utf8_single(c);
        }
        n += 1;
        used += w;
    }
    (n, used)
}

/// Cuts `s` after its first `n` characters, which take `bytes` bytes.
fn cut<'a>(s: &'a str, bytes: usize, Ghost(n): Ghost<int>) -> (r: (&'a str, &'a str))
    requires
        0 <= n <= s@.len(),
        bytes == utf8_len(s@.take(n)),
    ensures
        r.0@ == s@.take(n),
        r.1@ == s@.skip(n),
{
    proof {
        lemma_cut_is_boundary(s@, n);
    }
    let r = s.split_at(bytes);
    proof {
        assert(s@ =~= s@.take(n) + s@.skip(n));
        lemma_encode_concat(s@.take(n), s@.skip(n));
        assert(encode_utf8(s@).subrange(0, bytes as int) =~= encode_utf8(s@.take(n)));
        assert(encode_utf8(s@).subrange(bytes as int, encode_utf8(s@).len() as int) =~= encode_utf8(
            s@.skip(n),
        ));
        encode_utf8_decode_utf8(s@.take(n));
        encode_utf8_decode_utf8(r.0@);
        encode_utf8_decode_utf8(s@.skip(n));
        encode_utf8_decode_utf8(r.1@);
    }
    r
}

/// The longest head of `s` within `limit` bytes; `chars` are the characters of `s`.
pub fn head_within<'a>(s: &'a str, chars: &Vec<char>, limit: usize) -> (r: &'a str)
    requires
        chars@ == s@,
    ensures
        r@ == s@.take(head_chars(s@, limit as nat) as int),
{
    let fit: (usize, usize) = fit_head(chars, limit);
    cut(s, fit.1, Ghost(fit.0 as int)).0
}

/// The longest tail of `s` within `limit` bytes; `chars` are the characters of `s`.
pub fn tail_within<'a>(s: &'a str, chars: &Vec<char>, limit: usize) -> (r: &'a str)
    requires
        chars@ == s@,
    ensures
        r@ == s@.skip(s@.len() - tail_chars(s@, limit as nat)),
{
    let fit: (usize, usize) = fit_tail(chars, limit);
    let total: usize = byte_len(s);
    let ghost n = s@.len() - fit.0;
    proof {
        assert(s@ =~= s@.take(n) + s@.skip(n));
        lemma_encode_concat(s@.take(n), s@.skip(n));
    }
    cut(s, total - fit.1, Ghost(n)).1
}

/// The texts of a list of strings.
pub open spec fn texts(list: Seq<String>) -> Seq<Seq<char>> {
    list.map_values(|s: String| s@)
}

/// Whether `s` is one of `list`.
pub fn listed(list: &Vec<String>, s: &String) -> (r: bool)
    ensures
        r == texts(list@).contains(s@),
{
    let mut i: usize = 0;
    while i < list.len()
        invariant
            i <= list.len(),
            forall|k: int| 0 <= k < i ==> #[trigger] texts(list@)[k] != s@,
        decreases list.len() - i,
    {
        if list[i] == *s {
            assert(texts(list@)[i as int] == s@);
            return true;
        }
        i += 1;
    }
    false
}

pub fn copy_texts(list: &Vec<String>) -> (r: Vec<String>)
    ensures
        texts(r@) == texts(list@),
{
    let mut r: Vec<String> = Vec::new();
    let mut i: usize = 0;
    while i < list.len()
        invariant
            i <= list.len(),
            r.len() == i,
            forall|k: int| 0 <= k < i ==> (#[trigger] r@[k])@ == list@[k]@,
        decreases list.len() - i,
    {
        r.push(list[i].clone());
        i += 1;
    }
    assert(texts(r@) =~= texts(list@));
    r
}

pub fn copy_option(s: &Option<String>) -> (r: Option<String>)
    ensures
        option_text(r) == option_text(*s),
{
    match s {
        Some(v) => Some(v.clone()),
        None => None,
    }
}

/// The text of an optional string.
pub open spec fn option_text(s: Option<String>) -> Option<Seq<char>> {
    match s {
        Some(v) => Some(v@),
        None => None,
    }
}

/// No longer beginning of the text fits into the limit.
pub proof fn law_longest_head(s: Seq<char>, limit: nat, n: int)
    requires
        0 <= n <= s.len(),
        utf8_len(s.take(n)) <= limit,
    ensures
        n <= head_chars(s, limit),
    decreases s.len(),
{
    if n > 0 {
        let rest = s.drop_first();
        lemma_utf8_single(s[0]);
        assert(s.take(n) =~= seq![s[0]] + rest.take(n - 1));
        lemma_encode_concat(seq![s[0]], rest.take(n - 1));
        law_longest_head(rest, (limit - char_width(s[0])) as nat, n - 1);
    }
}

/// No longer end of the text fits into the limit.
pub proof fn law_longest_tail(s: Seq<char>, limit: nat, n: int)
    requires
        0 <= n <= s.len(),
    ensures
        utf8_len(s.skip(n)) <= limit ==> s.len() - n <= tail_chars(s, limit),
    decreases s.len(),
{
    if n < s.len() && utf8_len(s.skip(n)) <= limit {
        let rest = s.drop_last();
        lemma_utf8_single(s.last());
        assert(s.skip(n) =~= rest.skip(n) + seq![s.last()]);
        lemma_encode_concat(rest.skip(n), seq![s.last()]);
        law_longest_tail(rest, (limit - char_width(s.last())) as nat, n);
    }
}

/// Texts are ordered by their first different character, and a text stands in front of its
/// extensions.
pub proof fn law_texts_are_ordered_by_their_first_difference(
    common: Seq<char>,
    a: Seq<char>,
    b: Seq<char>,
)
    ensures
        b.len() > 0 ==> text_lt(common, common + b),
        a.len() > 0 && b.len() > 0 && (a[0] as u32) < (b[0] as u32) ==> text_lt(
            common + a,
            common + b,
        ),
        !text_lt(common + a, common),
        a.len() > 0 && b.len() > 0 && (a[0] as u32) > (b[0] as u32) ==> !text_lt(
            common + a,
            common + b,
        ),
    decreases common.len(),
{
    if common.len() > 0 {
        let rest = common.drop_first();
        law_texts_are_ordered_by_their_first_difference(rest, a, b);
        assert((common + a).drop_first() =~= rest + a);
        assert((common + b).drop_first() =~= rest + b);
    } else {
        assert(common + a =~= a);
        assert(common + b =~= b);
    }
}

/// Lower case changes the letters from A to Z, each into the letter 32 places behind it, and
/// nothing else.
pub proof fn law_lower_case_changes_capital_letters_only(s: Seq<char>, i: int)
    requires
        0 <= i < s.len(),
    ensures
        lower(s).len() == s.len(),
        0x41 <= s[i] as u32 <= 0x5a ==> lower(s)[i] as u32 == s[i] as u32 + 32,
        !(0x41 <= s[i] as u32 <= 0x5a) ==> lower(s)[i] == s[i],
{
}

/// Text that is folded is folded already, and texts are folded one after the other.
pub proof fn law_lower_case_is_stable(a: Seq<char>, b: Seq<char>)
    ensures
        lower(lower(a)) == lower(a),
        lower(a + b) == lower(a) + lower(b),
{
    assert(lower(lower(a)) =~= lower(a));
    assert(lower(a + b) =~= lower(a) + lower(b));
}

/// White space are exactly the characters with the White_Space property of Unicode.
pub proof fn law_white_space_is_what_unicode_says(c: char)
    ensures
        whitespace(c) <==> set![
            0x09u32, 0x0au32, 0x0bu32, 0x0cu32, 0x0du32, 0x20u32, 0x85u32, 0xa0u32, 0x1680u32,
            0x2000u32, 0x2001u32, 0x2002u32, 0x2003u32, 0x2004u32, 0x2005u32, 0x2006u32, 0x2007u32,
            0x2008u32, 0x2009u32, 0x200au32, 0x2028u32, 0x2029u32, 0x202fu32, 0x205fu32, 0x3000u32
        ].contains(c as u32),
{
}

/// A text is blank exactly where it has no character that is not white space: none at all, or
/// blank text with one more character of white space.
pub proof fn law_one_visible_character_is_enough(s: Seq<char>, c: char)
    ensures
        blank(Seq::empty()),
        blank(s.push(c)) <==> blank(s) && whitespace(c),
{
    if blank(s.push(c)) {
        assert forall|i: int| 0 <= i < s.len() implies whitespace(#[trigger] s[i]) by {
            assert(s.push(c)[i] == s[i]);
        }
        assert(s.push(c)[s.len() as int] == c);
    }
}

/// A text stands in another one exactly where the other one is made of something, the text and
/// something more.
pub proof fn law_text_stands_between_other_text(
    before: Seq<char>,
    needle: Seq<char>,
    after: Seq<char>,
    hay: Seq<char>,
)
    ensures
        occurs(before + needle + after, needle),
        occurs_at(before + needle + after, needle, before.len() as int),
        occurs(hay, needle) ==> exists|at: int|
            0 <= at <= hay.len() - needle.len() && #[trigger] hay.subrange(at, at + needle.len())
                == needle,
{
    let all = before + needle + after;
    assert(all.subrange(before.len() as int, (before.len() + needle.len()) as int) =~= needle);
    assert(occurs_at(all, needle, before.len() as int));
    if occurs(hay, needle) {
        let at = choose|at: int| occurs_at(hay, needle, at);
        assert(hay.subrange(at, at + needle.len()) == needle);
    }
}

} // verus!
