//! Different objects have different texts: the compact text of an object can be read back in
//! one way only.

use vstd::prelude::*;
use crate::json;
use crate::json::JsonTree;

verus! {

/// What may stand behind a value.
spec fn ends(rest: Seq<char>) -> bool {
    rest.len() == 0 || rest[0] == ',' || rest[0] == ']' || rest[0] == '}'
}

proof fn lemma_same_front(x: Seq<char>, y: Seq<char>, r: Seq<char>, q: Seq<char>)
    requires
        x + r == y + q,
        x.len() == y.len(),
    ensures
        x == y,
        r == q,
{
    assert(x =~= (x + r).take(x.len() as int));
    assert(y =~= (y + q).take(y.len() as int));
    assert(r =~= (x + r).skip(x.len() as int));
    assert(q =~= (y + q).skip(y.len() as int));
}

proof fn lemma_escape_char_unique(c: char, d: char, r: Seq<char>, q: Seq<char>)
    requires
        json::escape_char(c) + r == json::escape_char(d) + q,
    ensures
        c == d,
        r == q,
{
    let x = json::escape_char(c);
    let y = json::escape_char(d);
    assert((x + r)[0] == x[0]);
    assert((y + q)[0] == y[0]);
    if x.len() > 1 && y.len() > 1 {
        assert((x + r)[1] == x[1]);
        assert((y + q)[1] == y[1]);
        if x.len() > 2 && y.len() > 2 {
            assert((x + r)[4] == x[4] && (x + r)[5] == x[5]);
            assert((y + q)[4] == y[4] && (y + q)[5] == y[5]);
        }
    }
    lemma_same_front(x, y, r, q);
}

proof fn lemma_escape_front(s: Seq<char>)
    requires
        s.len() > 0,
    ensures
        json::escape(s) == json::escape_char(s[0]) + json::escape(s.drop_first()),
{
    let first = seq![s[0]];
    assert(s =~= first + s.drop_first());
    json::lemma_escape_concat(first, s.drop_first());
    reveal_with_fuel(json::escape, 2);
    assert(first.drop_last() =~= Seq::<char>::empty());
    assert(json::escape(first) =~= json::escape_char(s[0]));
}

proof fn lemma_escape_unique(a: Seq<char>, b: Seq<char>, r: Seq<char>, q: Seq<char>)
    requires
        json::escape(a) + (seq!['"'] + r) == json::escape(b) + (seq!['"'] + q),
    ensures
        a == b,
        r == q,
    decreases a.len(),
{
    let x = seq!['"'] + r;
    let y = seq!['"'] + q;
    if a.len() == 0 && b.len() == 0 {
        assert(json::escape(a) + x =~= x);
        assert(json::escape(b) + y =~= y);
        lemma_same_front(seq!['"'], seq!['"'], r, q);
        assert(a =~= b);
    } else if a.len() == 0 {
        lemma_escape_front(b);
        assert((json::escape(a) + x)[0] == '"');
        assert((json::escape(b) + y)[0] == json::escape_char(b[0])[0]);
    } else if b.len() == 0 {
        lemma_escape_front(a);
        assert((json::escape(b) + y)[0] == '"');
        assert((json::escape(a) + x)[0] == json::escape_char(a[0])[0]);
    } else {
        let a_rest = json::escape(a.drop_first()) + x;
        let b_rest = json::escape(b.drop_first()) + y;
        lemma_escape_front(a);
        lemma_escape_front(b);
        assert(json::escape(a) + x =~= json::escape_char(a[0]) + a_rest);
        assert(json::escape(b) + y =~= json::escape_char(b[0]) + b_rest);
        lemma_escape_char_unique(a[0], b[0], a_rest, b_rest);
        lemma_escape_unique(a.drop_first(), b.drop_first(), r, q);
        assert(a =~= seq![a[0]] + a.drop_first());
        assert(b =~= seq![b[0]] + b.drop_first());
    }
}

/// A JSON string ends where it ends, whatever stands behind it, and holds one text.
proof fn lemma_quoted_unique(a: Seq<char>, b: Seq<char>, r: Seq<char>, q: Seq<char>)
    requires
        json::quoted(a) + r == json::quoted(b) + q,
    ensures
        a == b,
        r == q,
{
    let x = json::escape(a) + (seq!['"'] + r);
    let y = json::escape(b) + (seq!['"'] + q);
    assert(json::quoted(a) + r =~= seq!['"'] + x);
    assert(json::quoted(b) + q =~= seq!['"'] + y);
    lemma_same_front(seq!['"'], seq!['"'], x, y);
    lemma_escape_unique(a, b, r, q);
}

/// A JSON string holds one text.
pub proof fn lemma_quoted_holds_one_text(a: Seq<char>, b: Seq<char>)
    requires
        json::quoted(a) == json::quoted(b),
    ensures
        a == b,
{
    let none = Seq::<char>::empty();
    assert(json::quoted(a) + none =~= json::quoted(b) + none);
    lemma_quoted_unique(a, b, none, none);
}

spec fn number_char(c: char) -> bool {
    '0' <= c <= '9' || c == '-' || c == '+' || c == '.' || c == 'e' || c == 'E'
}

proof fn lemma_number_chars(s: Seq<char>)
    requires
        json::number_text(s),
    ensures
        s.len() > 0,
        s[0] == '-' || '0' <= s[0] <= '9',
        forall|i: int| 0 <= i < s.len() ==> number_char(#[trigger] s[i]),
{
    let (sign, whole, fraction, exponent) = choose|
        sign: Seq<char>,
        whole: Seq<char>,
        fraction: Seq<char>,
        exponent: Seq<char>,
    |
        json::number_parts(s, sign, whole, fraction, exponent);
    assert forall|i: int| 0 <= i < sign.len() implies number_char(#[trigger] sign[i]) by {}
    assert forall|i: int| 0 <= i < whole.len() implies number_char(#[trigger] whole[i]) by {}
    assert forall|i: int| 0 <= i < fraction.len() implies number_char(#[trigger] fraction[i]) by {
        if i > 0 {
            assert(fraction.skip(1)[i - 1] == fraction[i]);
        }
    }
    assert forall|i: int| 0 <= i < exponent.len() implies number_char(#[trigger] exponent[i]) by {
        if i > 0 && json::digits(exponent.skip(1)) {
            assert(exponent.skip(1)[i - 1] == exponent[i]);
        } else if i > 1 {
            assert(exponent.skip(2)[i - 2] == exponent[i]);
        }
    }
    assert forall|i: int| 0 <= i < s.len() implies number_char(#[trigger] s[i]) by {
        let a = sign.len() as int;
        let b = a + whole.len();
        let c = b + fraction.len();
        if i < a {
            assert(s[i] == sign[i]);
        } else if i < b {
            assert(s[i] == whole[i - a]);
        } else if i < c {
            assert(s[i] == fraction[i - b]);
        } else {
            assert(s[i] == exponent[i - c]);
        }
    }
    if sign.len() == 0 {
        assert(s[0] == whole[0]);
    } else {
        assert(s[0] == sign[0]);
    }
}

proof fn lemma_number_unique(a: Seq<char>, b: Seq<char>, r: Seq<char>, q: Seq<char>)
    requires
        json::number_text(a),
        json::number_text(b),
        ends(r),
        ends(q),
        a + r == b + q,
    ensures
        a == b,
        r == q,
{
    lemma_number_chars(a);
    lemma_number_chars(b);
    if a.len() < b.len() {
        assert((b + q)[a.len() as int] == b[a.len() as int]);
        assert((a + r)[a.len() as int] == r[0]);
    } else if b.len() < a.len() {
        assert((a + r)[b.len() as int] == a[b.len() as int]);
        assert((b + q)[b.len() as int] == q[0]);
    }
    lemma_same_front(a, b, r, q);
}

/// The first character shows what kind of value follows.
spec fn starts(tree: JsonTree, c: char) -> bool {
    match tree {
        JsonTree::Null => c == 'n',
        JsonTree::Bool(b) => c == (if b {
            't'
        } else {
            'f'
        }),
        JsonTree::Number(_) => c == '-' || '0' <= c <= '9',
        JsonTree::Text(_) => c == '"',
        JsonTree::Array(_) => c == '[',
        JsonTree::Object(_) => c == '{',
    }
}

proof fn lemma_start(tree: JsonTree)
    requires
        json::sound_tree(tree),
    ensures
        json::print_tree(tree).len() > 0,
        starts(tree, json::print_tree(tree)[0]),
{
    reveal_strlit("null");
    reveal_strlit("true");
    reveal_strlit("false");
    if let JsonTree::Number(n) = tree {
        lemma_number_chars(n);
    }
}

/// What stands behind the first item of an array.
spec fn behind_item(items: Seq<JsonTree>, rest: Seq<char>) -> Seq<char> {
    if items.len() == 0 {
        seq![']'] + rest
    } else {
        seq![','] + (json::print_items(items) + (seq![']'] + rest))
    }
}

proof fn lemma_items_front(items: Seq<JsonTree>, rest: Seq<char>)
    requires
        items.len() > 0,
    ensures
        json::print_items(items) + (seq![']'] + rest) == json::print_tree(items[0]) + behind_item(
            items.drop_first(),
            rest,
        ),
    decreases items.len(),
{
    let all = json::print_items(items) + (seq![']'] + rest);
    let tail = items.drop_first();
    if items.len() == 1 {
        assert(all =~= json::print_tree(items[0]) + behind_item(tail, rest));
    } else {
        let last = seq![','] + json::print_tree(items.last());
        let front = items.drop_last();
        let close = seq![']'] + rest;
        lemma_items_front(front, Seq::empty());
        let mark = seq![']'] + Seq::<char>::empty();
        assert(front[0] == items[0]);
        assert(front.drop_first() =~= tail.drop_last());
        if tail.len() == 1 {
            assert(front =~= seq![items[0]]);
            assert(json::print_items(front) == json::print_tree(items[0]));
            assert(json::print_items(tail) == json::print_tree(items.last()));
            assert(all =~= json::print_tree(items[0]) + behind_item(tail, rest));
        } else {
            let middle = json::print_items(tail.drop_last());
            assert(json::print_items(tail) == middle + seq![','] + json::print_tree(items.last()));
            let x = json::print_items(front);
            let y = json::print_tree(items[0]) + (seq![','] + middle);
            assert(x + mark =~= y + mark);
            lemma_same_front(x, y, mark, mark);
            assert(all =~= x + (last + close));
            assert(all =~= json::print_tree(items[0]) + behind_item(tail, rest));
        }
    }
}

proof fn lemma_items_unique(
    xs: Seq<JsonTree>,
    ys: Seq<JsonTree>,
    r: Seq<char>,
    q: Seq<char>,
)
    requires
        forall|k: int| 0 <= k < xs.len() ==> json::sound_tree(#[trigger] xs[k]),
        forall|k: int| 0 <= k < ys.len() ==> json::sound_tree(#[trigger] ys[k]),
        json::print_items(xs) + (seq![']'] + r) == json::print_items(ys) + (seq![']'] + q),
    ensures
        json::print_items(xs) == json::print_items(ys),
        r == q,
    decreases xs,
{
    let x = json::print_items(xs);
    let y = json::print_items(ys);
    let close = seq![']'];
    if xs.len() > 0 {
        lemma_items_front(xs, r);
        lemma_start(xs[0]);
        assert((x + (close + r))[0] == json::print_tree(xs[0])[0]);
    } else {
        assert((x + (close + r))[0] == ']');
    }
    if ys.len() > 0 {
        lemma_items_front(ys, q);
        lemma_start(ys[0]);
        assert((y + (close + q))[0] == json::print_tree(ys[0])[0]);
    } else {
        assert((y + (close + q))[0] == ']');
    }
    if xs.len() > 0 && ys.len() > 0 {
        let xt = xs.drop_first();
        let yt = ys.drop_first();
        let bx = behind_item(xt, r);
        let by = behind_item(yt, q);
        assert forall|k: int| 0 <= k < xt.len() implies json::sound_tree(#[trigger] xt[k]) by {
            assert(xt[k] == xs[k + 1]);
        }
        assert forall|k: int| 0 <= k < yt.len() implies json::sound_tree(#[trigger] yt[k]) by {
            assert(yt[k] == ys[k + 1]);
        }
        lemma_tree_unique(xs[0], ys[0], bx, by);
        assert(bx[0] == by[0]);
        if xt.len() > 0 && yt.len() > 0 {
            lemma_same_front(
                seq![','],
                seq![','],
                json::print_items(xt) + (close + r),
                json::print_items(yt) + (close + q),
            );
            lemma_items_unique(xt, yt, r, q);
        } else {
            lemma_same_front(close, close, r, q);
        }
    } else {
        assert(x + (close + r) =~= close + r);
        assert(y + (close + q) =~= close + q);
        lemma_same_front(close, close, r, q);
    }
    assert((x + (close + r)).len() == (y + (close + q)).len());
    lemma_same_front(x, y, close + r, close + q);
}

/// What stands behind the name of an entry.
spec fn behind_name(entries: Seq<(Seq<char>, JsonTree)>, rest: Seq<char>) -> Seq<char> {
    json::print_tree(entries[0].1) + behind_entry(entries.drop_first(), rest)
}

/// What stands behind the first entry of an object.
spec fn behind_entry(entries: Seq<(Seq<char>, JsonTree)>, rest: Seq<char>) -> Seq<char> {
    if entries.len() == 0 {
        seq!['}'] + rest
    } else {
        seq![','] + (json::print_entries(entries) + (seq!['}'] + rest))
    }
}

proof fn lemma_entries_front(entries: Seq<(Seq<char>, JsonTree)>, rest: Seq<char>)
    requires
        entries.len() > 0,
    ensures
        json::print_entries(entries) + (seq!['}'] + rest) == json::quoted(entries[0].0) + (seq![':']
            + behind_name(entries, rest)),
    decreases entries.len(),
{
    let all = json::print_entries(entries) + (seq!['}'] + rest);
    let tail = entries.drop_first();
    let name = json::quoted(entries[0].0);
    let value = json::print_tree(entries[0].1);
    if entries.len() == 1 {
        assert(all =~= name + (seq![':'] + behind_name(entries, rest)));
    } else {
        let end = entries.last();
        let last = seq![','] + json::member((end.0, json::print_tree(end.1)));
        let front = entries.drop_last();
        let close = seq!['}'] + rest;
        lemma_entries_front(front, Seq::empty());
        let mark = seq!['}'] + Seq::<char>::empty();
        assert(front[0] == entries[0]);
        assert(front.drop_first() =~= tail.drop_last());
        assert(tail.last() == end);
        if tail.len() == 1 {
            assert(front =~= seq![entries[0]]);
            assert(front.last() == entries[0]);
            assert(json::print_entries(front) == json::member((entries[0].0, value)));
            assert(json::print_entries(tail) == json::member((end.0, json::print_tree(end.1))));
            assert(all =~= name + (seq![':'] + behind_name(entries, rest)));
        } else {
            let middle = json::print_entries(tail.drop_last());
            assert(json::print_entries(tail) == middle + seq![','] + json::member(
                (end.0, json::print_tree(end.1)),
            ));
            let x = json::print_entries(front);
            let y = name + (seq![':'] + (value + (seq![','] + middle)));
            assert(x + mark =~= y + mark);
            lemma_same_front(x, y, mark, mark);
            assert(all =~= x + (last + close));
            assert(all =~= name + (seq![':'] + behind_name(entries, rest)));
        }
    }
}

proof fn lemma_entries_unique(
    xs: Seq<(Seq<char>, JsonTree)>,
    ys: Seq<(Seq<char>, JsonTree)>,
    r: Seq<char>,
    q: Seq<char>,
)
    requires
        forall|k: int| 0 <= k < xs.len() ==> json::sound_tree((#[trigger] xs[k]).1),
        forall|k: int| 0 <= k < ys.len() ==> json::sound_tree((#[trigger] ys[k]).1),
        json::print_entries(xs) + (seq!['}'] + r) == json::print_entries(ys) + (seq!['}'] + q),
    ensures
        json::print_entries(xs) == json::print_entries(ys),
        r == q,
        xs.len() == ys.len(),
        forall|k: int|
            0 <= k < xs.len() ==> (#[trigger] xs[k]).0 == ys[k].0 && json::print_tree(xs[k].1)
                == json::print_tree(ys[k].1),
    decreases xs,
{
    let x = json::print_entries(xs);
    let y = json::print_entries(ys);
    let close = seq!['}'];
    if xs.len() > 0 {
        lemma_entries_front(xs, r);
        assert((x + (close + r))[0] == json::quoted(xs[0].0)[0]);
    } else {
        assert((x + (close + r))[0] == '}');
    }
    if ys.len() > 0 {
        lemma_entries_front(ys, q);
        assert((y + (close + q))[0] == json::quoted(ys[0].0)[0]);
    } else {
        assert((y + (close + q))[0] == '}');
    }
    if xs.len() > 0 && ys.len() > 0 {
        let xt = xs.drop_first();
        let yt = ys.drop_first();
        let bx = behind_entry(xt, r);
        let by = behind_entry(yt, q);
        assert forall|k: int| 0 <= k < xt.len() implies json::sound_tree((#[trigger] xt[k]).1) by {
            assert(xt[k] == xs[k + 1]);
        }
        assert forall|k: int| 0 <= k < yt.len() implies json::sound_tree((#[trigger] yt[k]).1) by {
            assert(yt[k] == ys[k + 1]);
        }
        lemma_quoted_unique(
            xs[0].0,
            ys[0].0,
            seq![':'] + behind_name(xs, r),
            seq![':'] + behind_name(ys, q),
        );
        lemma_same_front(seq![':'], seq![':'], behind_name(xs, r), behind_name(ys, q));
        lemma_tree_unique(xs[0].1, ys[0].1, bx, by);
        assert(bx[0] == by[0]);
        if xt.len() > 0 && yt.len() > 0 {
            lemma_same_front(
                seq![','],
                seq![','],
                json::print_entries(xt) + (close + r),
                json::print_entries(yt) + (close + q),
            );
            lemma_entries_unique(xt, yt, r, q);
        } else {
            lemma_same_front(close, close, r, q);
        }
        assert forall|k: int| 0 <= k < xs.len() implies (#[trigger] xs[k]).0 == ys[k].0
            && json::print_tree(xs[k].1) == json::print_tree(ys[k].1) by {
            if k > 0 {
                assert(xt[k - 1] == xs[k]);
                assert(yt[k - 1] == ys[k]);
            }
        }
    } else {
        assert(x + (close + r) =~= close + r);
        assert(y + (close + q) =~= close + q);
        lemma_same_front(close, close, r, q);
    }
    assert((x + (close + r)).len() == (y + (close + q)).len());
    lemma_same_front(x, y, close + r, close + q);
}

/// A value ends where it ends, whatever may stand behind it.
proof fn lemma_tree_unique(t: JsonTree, u: JsonTree, r: Seq<char>, q: Seq<char>)
    requires
        json::sound_tree(t),
        json::sound_tree(u),
        ends(r),
        ends(q),
        json::print_tree(t) + r == json::print_tree(u) + q,
    ensures
        json::print_tree(t) == json::print_tree(u),
        r == q,
    decreases t,
{
    let x = json::print_tree(t);
    let y = json::print_tree(u);
    lemma_start(t);
    lemma_start(u);
    assert((x + r)[0] == x[0]);
    assert((y + q)[0] == y[0]);
    match (t, u) {
        (JsonTree::Number(a), JsonTree::Number(b)) => lemma_number_unique(a, b, r, q),
        (JsonTree::Text(a), JsonTree::Text(b)) => lemma_quoted_unique(a, b, r, q),
        (JsonTree::Array(a), JsonTree::Array(b)) => {
            let ax = json::print_items(a) + (seq![']'] + r);
            let bx = json::print_items(b) + (seq![']'] + q);
            assert(x + r =~= seq!['['] + ax);
            assert(y + q =~= seq!['['] + bx);
            lemma_same_front(seq!['['], seq!['['], ax, bx);
            lemma_items_unique(a, b, r, q);
        },
        (JsonTree::Object(a), JsonTree::Object(b)) => {
            let ax = json::print_entries(a) + (seq!['}'] + r);
            let bx = json::print_entries(b) + (seq!['}'] + q);
            assert(x + r =~= seq!['{'] + ax);
            assert(y + q =~= seq!['{'] + bx);
            lemma_same_front(seq!['{'], seq!['{'], ax, bx);
            lemma_entries_unique(a, b, r, q);
        },
        _ => {
            lemma_same_front(x, y, r, q);
        },
    }
}

/// The entries that some fields print.
spec fn entries_of(fields: Seq<json::FieldView>) -> Seq<(Seq<char>, JsonTree)> {
    Seq::new(
        fields.len(),
        |k: int|
            (
                fields[k].0,
                choose|tree: JsonTree| json::print_tree(tree) == fields[k].1 && json::sound_tree(tree),
            ),
    )
}

proof fn lemma_entries_of(fields: Seq<json::FieldView>)
    requires
        json::sound_fields(fields),
    ensures
        forall|k: int|
            0 <= k < fields.len() ==> json::sound_tree((#[trigger] entries_of(fields)[k]).1)
                && json::print_tree(entries_of(fields)[k].1) == fields[k].1,
        json::print_entries(entries_of(fields)) == json::members(fields),
{
    let entries = entries_of(fields);
    assert forall|k: int| 0 <= k < fields.len() implies json::sound_tree(
        (#[trigger] entries[k]).1,
    ) && json::print_tree(entries[k].1) == fields[k].1 by {
        assert(json::json_text(fields[k].1));
    }
    json::lemma_print_entries(entries, fields);
}

/// Different objects have different texts.
pub proof fn law_objects_differ_in_text(a: Seq<json::FieldView>, b: Seq<json::FieldView>)
    requires
        json::sound_fields(a),
        json::sound_fields(b),
        json::object_text(a) == json::object_text(b),
    ensures
        a == b,
{
    let none = Seq::<char>::empty();
    let xs = entries_of(a);
    let ys = entries_of(b);
    lemma_entries_of(a);
    lemma_entries_of(b);
    let x = json::print_entries(xs) + (seq!['}'] + none);
    let y = json::print_entries(ys) + (seq!['}'] + none);
    assert(json::object_text(a) =~= seq!['{'] + x);
    assert(json::object_text(b) =~= seq!['{'] + y);
    lemma_same_front(seq!['{'], seq!['{'], x, y);
    lemma_entries_unique(xs, ys, none, none);
    assert forall|k: int| 0 <= k < a.len() implies #[trigger] a[k] == b[k] by {
        assert(xs[k].0 == a[k].0 && ys[k].0 == b[k].0);
    }
    assert(a =~= b);
}

} // verus!
