//! Compact JSON: quoted strings, objects as ordered fields, and their sizes.

use vstd::prelude::*;
use crate::text;
use crate::text::{byte_len, same_text, text_less};

verus! {

/// A lower-case hexadecimal digit.
pub open spec fn hex_digit(v: int) -> char {
    if v < 10 {
        (0x30 + v) as char
    } else {
        (0x61 + v - 10) as char
    }
}

/// How one character is written inside a JSON string.
pub open spec fn escape_char(c: char) -> Seq<char> {
    let v = c as u32;
    if c == '"' || c == '\\' {
        seq!['\\', c]
    } else if v == 0x08 {
        seq!['\\', 'b']
    } else if v == 0x09 {
        seq!['\\', 't']
    } else if v == 0x0a {
        seq!['\\', 'n']
    } else if v == 0x0c {
        seq!['\\', 'f']
    } else if v == 0x0d {
        seq!['\\', 'r']
    } else if v < 0x20 {
        seq!['\\', 'u', '0', '0', hex_digit(v as int / 16), hex_digit(v as int % 16)]
    } else {
        seq![c]
    }
}

/// The inside of the JSON string that holds `s`.
pub open spec fn escape(s: Seq<char>) -> Seq<char>
    decreases s.len(),
{
    if s.len() == 0 {
        Seq::empty()
    } else {
        escape(s.drop_last()) + escape_char(s.last())
    }
}

/// The JSON string that holds `s`.
pub open spec fn quoted(s: Seq<char>) -> Seq<char> {
    seq!['"'] + escape(s) + seq!['"']
}

/// Bytes that `s` takes once it is written as a JSON string.
pub open spec fn json_size(s: Seq<char>) -> nat {
    text::utf8_len(quoted(s))
}

/// The name of a field and the compact JSON text of its value.
pub type FieldView = (Seq<char>, Seq<char>);

/// What `serde_json` reads from a text that is a JSON object: its fields in ascending
/// order of their names, each value as compact JSON; `None` for every other text.
pub uninterp spec fn json_object(text: Seq<char>) -> Option<Seq<(Seq<char>, Seq<char>)>>;

/// What `serde_json` reads from a text that is a JSON string; `None` for every other text.
pub uninterp spec fn json_string(text: Seq<char>) -> Option<Seq<char>>;

/// A JSON value.
pub enum JsonTree {
    Null,
    Bool(bool),
    /// The digits as they are printed.
    Number(Seq<char>),
    Text(Seq<char>),
    Array(Seq<JsonTree>),
    Object(Seq<(Seq<char>, JsonTree)>),
}

pub open spec fn digits(s: Seq<char>) -> bool {
    s.len() > 0 && forall|i: int| 0 <= i < s.len() ==> '0' <= #[trigger] s[i] <= '9'
}

/// A number as JSON writes it: a sign, an integer without leading zeros, a fraction and an
/// exponent, of which only the integer has to be there.
pub open spec fn number_parts(
    s: Seq<char>,
    sign: Seq<char>,
    whole: Seq<char>,
    fraction: Seq<char>,
    exponent: Seq<char>,
) -> bool {
    &&& s == sign + whole + fraction + exponent
    &&& sign.len() == 0 || sign == seq!['-']
    &&& digits(whole) && (whole.len() == 1 || whole[0] != '0')
    &&& fraction.len() == 0 || (fraction[0] == '.' && digits(fraction.skip(1)))
    &&& exponent.len() == 0 || ((exponent[0] == 'e' || exponent[0] == 'E') && (digits(
        exponent.skip(1),
    ) || (exponent.len() > 1 && (exponent[1] == '+' || exponent[1] == '-') && digits(
        exponent.skip(2),
    ))))
}

pub open spec fn number_text(s: Seq<char>) -> bool {
    exists|sign: Seq<char>, whole: Seq<char>, fraction: Seq<char>, exponent: Seq<char>|
        number_parts(s, sign, whole, fraction, exponent)
}

/// Every number in the value is written as JSON writes it.
pub open spec fn sound_tree(tree: JsonTree) -> bool
    decreases tree,
{
    match tree {
        JsonTree::Number(n) => number_text(n),
        JsonTree::Array(items) => forall|k: int|
            0 <= k < items.len() ==> sound_tree(#[trigger] items[k]),
        JsonTree::Object(entries) => forall|k: int|
            0 <= k < entries.len() ==> sound_tree((#[trigger] entries[k]).1),
        _ => true,
    }
}

/// The compact text of the value.
pub open spec fn print_tree(tree: JsonTree) -> Seq<char>
    decreases tree,
{
    match tree {
        JsonTree::Null => "null"@,
        JsonTree::Bool(b) => if b {
            "true"@
        } else {
            "false"@
        },
        JsonTree::Number(n) => n,
        JsonTree::Text(t) => quoted(t),
        JsonTree::Array(items) => seq!['['] + print_items(items) + seq![']'],
        JsonTree::Object(entries) => seq!['{'] + print_entries(entries) + seq!['}'],
    }
}

pub open spec fn print_items(items: Seq<JsonTree>) -> Seq<char>
    decreases items,
{
    if items.len() == 0 {
        Seq::empty()
    } else if items.len() == 1 {
        print_tree(items.last())
    } else {
        print_items(items.drop_last()) + seq![','] + print_tree(items.last())
    }
}

pub open spec fn print_entries(entries: Seq<(Seq<char>, JsonTree)>) -> Seq<char>
    decreases entries,
{
    if entries.len() == 0 {
        Seq::empty()
    } else {
        let field = member((entries.last().0, print_tree(entries.last().1)));
        if entries.len() == 1 {
            field
        } else {
            print_entries(entries.drop_last()) + seq![','] + field
        }
    }
}

/// `s` is a JSON value in compact form.
pub open spec fn json_text(s: Seq<char>) -> bool {
    exists|tree: JsonTree| #[trigger] print_tree(tree) == s && sound_tree(tree)
}

/// The fields make up a JSON object: their names differ and are in order, and every value is
/// JSON.
pub open spec fn sound_fields(fields: Seq<FieldView>) -> bool {
    &&& ascending(fields)
    &&& forall|k: int| 0 <= k < fields.len() ==> json_text((#[trigger] fields[k]).1)
}

/// A value of a kind that has one compact text only: null, a truth value, a whole number of at
/// most 64 bits, or a string.
pub open spec fn plain_value(s: Seq<char>) -> bool {
    ||| s == "null"@
    ||| s == "true"@
    ||| s == "false"@
    ||| exists|n: nat| n <= u64::MAX && s == #[trigger] decimal(n)
    ||| exists|t: Seq<char>| s == #[trigger] quoted(t)
}

/// The fields of an object without nested values, in the order of their names.
pub open spec fn plain_fields(fields: Seq<FieldView>) -> bool {
    &&& ascending(fields)
    &&& forall|k: int| 0 <= k < fields.len() ==> plain_value((#[trigger] fields[k]).1)
}

/// One field of a JSON object.
#[derive(Debug, Clone, PartialEq, Eq)]
pub struct JsonField {
    pub name: String,
    /// Compact JSON text of the value.
    pub text: String,
}

impl View for JsonField {
    type V = FieldView;

    open spec fn view(&self) -> FieldView {
        (self.name@, self.text@)
    }
}

pub open spec fn fields_view(fields: Seq<JsonField>) -> Seq<FieldView> {
    fields.map_values(|f: JsonField| f@)
}

/// The names are strictly ascending.
pub open spec fn ascending(fields: Seq<FieldView>) -> bool {
    forall|i: int, j: int|
        0 <= i < j < fields.len() ==> text::text_lt(#[trigger] fields[i].0, #[trigger] fields[j].0)
}

/// The value of the field `name`.
pub open spec fn get_field(fields: Seq<FieldView>, name: Seq<char>) -> Option<Seq<char>>
    decreases fields.len(),
{
    if fields.len() == 0 {
        None
    } else if fields[0].0 == name {
        Some(fields[0].1)
    } else {
        get_field(fields.drop_first(), name)
    }
}

/// The fields with `name` set to `text`: an equal name is replaced, a new one is put
/// in front of the first greater name.
pub open spec fn set_field(
    fields: Seq<FieldView>,
    name: Seq<char>,
    text: Seq<char>,
) -> Seq<FieldView>
    decreases fields.len(),
{
    if fields.len() == 0 {
        seq![(name, text)]
    } else if fields[0].0 == name {
        seq![(name, text)] + fields.drop_first()
    } else if text::text_lt(name, fields[0].0) {
        seq![(name, text)] + fields
    } else {
        seq![fields[0]] + set_field(fields.drop_first(), name, text)
    }
}

/// The fields without the first one called `name`.
pub open spec fn without_field(fields: Seq<FieldView>, name: Seq<char>) -> Seq<FieldView>
    decreases fields.len(),
{
    if fields.len() == 0 {
        fields
    } else if fields[0].0 == name {
        fields.drop_first()
    } else {
        seq![fields[0]] + without_field(fields.drop_first(), name)
    }
}

/// One field as it stands in the text of an object.
pub open spec fn member(field: FieldView) -> Seq<char> {
    quoted(field.0) + seq![':'] + field.1
}

/// The fields as they stand in the text of an object, separated by commas.
pub open spec fn members(fields: Seq<FieldView>) -> Seq<char>
    decreases fields.len(),
{
    if fields.len() == 0 {
        Seq::empty()
    } else if fields.len() == 1 {
        member(fields[0])
    } else {
        members(fields.drop_last()) + seq![','] + member(fields.last())
    }
}

/// The compact text of an object.
pub open spec fn object_text(fields: Seq<FieldView>) -> Seq<char> {
    seq!['{'] + members(fields) + seq!['}']
}

pub open spec fn digit(v: nat) -> char {
    (0x30 + v) as char
}

/// The decimal digits of a number.
pub open spec fn decimal(v: nat) -> Seq<char>
    decreases v,
{
    if v < 10 {
        seq![digit(v)]
    } else {
        decimal(v / 10).push(digit(v % 10))
    }
}

pub proof fn lemma_escape_concat(a: Seq<char>, b: Seq<char>)
    ensures
        escape(a + b) == escape(a) + escape(b),
    decreases b.len(),
{
    if b.len() == 0 {
        assert(a + b =~= a);
        assert(escape(a) + escape(b) =~= escape(a));
    } else {
        lemma_escape_concat(a, b.drop_last());
        assert((a + b).drop_last() =~= a + b.drop_last());
        assert(escape(a + b) =~= escape(a) + escape(b));
    }
}

/// The bytes of a text never exceed those of the JSON string that holds it.
pub proof fn lemma_json_size_covers(s: Seq<char>)
    ensures
        json_size(s) == text::utf8_len(escape(s)) + 2,
        text::utf8_len(s) <= text::utf8_len(escape(s)),
{
    text::lemma_utf8_single('"');
    text::lemma_encode_concat(seq!['"'], escape(s));
    text::lemma_encode_concat(seq!['"'] + escape(s), seq!['"']);
    assert(text::char_width('"') == 1);
    lemma_escape_not_shorter(s);
}

proof fn lemma_escape_not_shorter(s: Seq<char>)
    ensures
        text::utf8_len(s) <= text::utf8_len(escape(s)),
    decreases s.len(),
{
    if s.len() > 0 {
        let c = s.last();
        lemma_escape_not_shorter(s.drop_last());
        assert(s =~= s.drop_last() + seq![c]);
        text::lemma_encode_concat(s.drop_last(), seq![c]);
        text::lemma_encode_concat(escape(s.drop_last()), escape_char(c));
        text::lemma_utf8_single(c);
        let e = escape_char(c);
        if e.len() > 1 {
            assert(e =~= seq!['\\'] + e.skip(1));
            text::lemma_utf8_single('\\');
            text::lemma_encode_concat(seq!['\\'], e.skip(1));
            assert(text::char_width(c) == 1);
        }
    }
}

/// Setting a field makes exactly that field read back, and leaves the others.
pub proof fn lemma_set_get(
    fields: Seq<FieldView>,
    name: Seq<char>,
    text: Seq<char>,
    other: Seq<char>,
)
    ensures
        get_field(set_field(fields, name, text), name) == Some(text),
        other != name ==> get_field(set_field(fields, name, text), other) == get_field(
            fields,
            other,
        ),
    decreases fields.len(),
{
    reveal_with_fuel(get_field, 2);
    let r = set_field(fields, name, text);
    if fields.len() == 0 {
        assert(r.drop_first() =~= Seq::<FieldView>::empty());
    } else if fields[0].0 == name {
        assert(r.drop_first() =~= fields.drop_first());
    } else if text::text_lt(name, fields[0].0) {
        assert(r.drop_first() =~= fields);
    } else {
        let rest = fields.drop_first();
        lemma_set_get(rest, name, text, other);
        assert(r.drop_first() =~= set_field(rest, name, text));
    }
}

/// Printing entries one by one gives the members of an object.
pub proof fn lemma_print_entries(entries: Seq<(Seq<char>, JsonTree)>, fields: Seq<FieldView>)
    requires
        entries.len() == fields.len(),
        forall|k: int|
            0 <= k < fields.len() ==> (#[trigger] fields[k]) == (
                entries[k].0,
                print_tree(entries[k].1),
            ),
    ensures
        print_entries(entries) == members(fields),
    decreases fields.len(),
{
    if fields.len() > 0 {
        assert(fields[fields.len() - 1] == fields.last());
        if fields.len() > 1 {
            assert forall|k: int| 0 <= k < fields.len() - 1 implies (
            #[trigger] fields.drop_last()[k]) == (
                entries.drop_last()[k].0,
                print_tree(entries.drop_last()[k].1),
            ) by {
                assert(fields.drop_last()[k] == fields[k]);
            }
            lemma_print_entries(entries.drop_last(), fields.drop_last());
        } else {
            assert(fields[0] == fields.last());
        }
    }
}

/// Fields that make up an object print as JSON.
pub proof fn lemma_object_is_json(fields: Seq<FieldView>)
    requires
        sound_fields(fields),
    ensures
        json_text(object_text(fields)),
{
    let trees = Seq::new(
        fields.len(),
        |k: int| choose|tree: JsonTree| print_tree(tree) == fields[k].1 && sound_tree(tree),
    );
    let entries = Seq::new(fields.len(), |k: int| (fields[k].0, trees[k]));
    assert forall|k: int| 0 <= k < fields.len() implies print_tree(trees[k]) == (
    #[trigger] fields[k]).1 && sound_tree(trees[k]) by {
        assert(json_text(fields[k].1));
    }
    assert forall|k: int| 0 <= k < entries.len() implies sound_tree((#[trigger] entries[k]).1) by {
        assert(print_tree(trees[k]) == fields[k].1);
    }
    lemma_print_entries(entries, fields);
    let tree = JsonTree::Object(entries);
    reveal_with_fuel(sound_tree, 2);
    assert(sound_tree(tree));
    assert(print_tree(tree) == object_text(fields));
}

pub proof fn lemma_quoted_is_json(s: Seq<char>)
    ensures
        json_text(quoted(s)),
{
    assert(print_tree(JsonTree::Text(s)) == quoted(s));
    assert(sound_tree(JsonTree::Text(s)));
}

proof fn lemma_decimal_digits(v: nat)
    ensures
        digits(decimal(v)),
        v > 0 ==> decimal(v)[0] != '0',
    decreases v,
{
    if v >= 10 {
        lemma_decimal_digits(v / 10);
    }
}

pub proof fn lemma_decimal_is_json(v: nat)
    ensures
        json_text(decimal(v)),
{
    lemma_decimal_digits(v);
    let s = decimal(v);
    let none = Seq::<char>::empty();
    assert(s =~= none + s + none + none);
    assert(number_parts(s, none, s, none, none));
    assert(print_tree(JsonTree::Number(s)) == s);
    assert(sound_tree(JsonTree::Number(s)));
}

/// Setting a field to a JSON value leaves an object.
pub proof fn lemma_set_sound(fields: Seq<FieldView>, name: Seq<char>, text: Seq<char>)
    requires
        sound_fields(fields),
        json_text(text),
    ensures
        sound_fields(set_field(fields, name, text)),
        forall|low: Seq<char>|
            text::text_lt(low, name) && (fields.len() > 0 ==> #[trigger] text::text_lt(
                low,
                fields[0].0,
            )) ==> set_field(fields, name, text).len() > 0 && text::text_lt(
                low,
                set_field(fields, name, text)[0].0,
            ),
    decreases fields.len(),
{
    let all = set_field(fields, name, text);
    if fields.len() == 0 {
    } else if fields[0].0 == name {
        assert(all =~= fields.update(0, (name, text)));
        assert forall|i: int, j: int| 0 <= i < j < all.len() implies text::text_lt(
            #[trigger] all[i].0,
            #[trigger] all[j].0,
        ) by {
            assert(all[i].0 == fields[i].0 && all[j].0 == fields[j].0);
        }
        assert forall|k: int| 0 <= k < all.len() implies json_text((#[trigger] all[k]).1) by {
            if k > 0 {
                assert(all[k] == fields[k]);
            }
        }
    } else if text::text_lt(name, fields[0].0) {
        assert forall|i: int, j: int| 0 <= i < j < all.len() implies text::text_lt(
            #[trigger] all[i].0,
            #[trigger] all[j].0,
        ) by {
            assert(all[j] == fields[j - 1]);
            if i > 0 {
                assert(all[i] == fields[i - 1]);
            } else if j > 1 {
                text::lemma_text_lt_transitive(name, fields[0].0, fields[j - 1].0);
            }
        }
        assert forall|k: int| 0 <= k < all.len() implies json_text((#[trigger] all[k]).1) by {
            if k > 0 {
                assert(all[k] == fields[k - 1]);
            }
        }
    } else {
        let first = fields[0];
        let rest = fields.drop_first();
        let tail = set_field(rest, name, text);
        text::lemma_text_lt_total(name, first.0);
        assert forall|i: int, j: int| 0 <= i < j < rest.len() implies text::text_lt(
            #[trigger] rest[i].0,
            #[trigger] rest[j].0,
        ) by {
            assert(rest[i] == fields[i + 1] && rest[j] == fields[j + 1]);
        }
        assert forall|k: int| 0 <= k < rest.len() implies json_text((#[trigger] rest[k]).1) by {
            assert(rest[k] == fields[k + 1]);
        }
        lemma_set_sound(rest, name, text);
        if rest.len() > 0 {
            assert(rest[0] == fields[1]);
            assert(text::text_lt(first.0, rest[0].0));
        }
        assert(tail.len() > 0 && text::text_lt(first.0, tail[0].0));
        assert forall|i: int, j: int| 0 <= i < j < all.len() implies text::text_lt(
            #[trigger] all[i].0,
            #[trigger] all[j].0,
        ) by {
            assert(all[j] == tail[j - 1]);
            if i > 0 {
                assert(all[i] == tail[i - 1]);
            } else if j > 1 {
                text::lemma_text_lt_transitive(first.0, tail[0].0, tail[j - 1].0);
            }
        }
        assert forall|k: int| 0 <= k < all.len() implies json_text((#[trigger] all[k]).1) by {
            if k > 0 {
                assert(all[k] == tail[k - 1]);
            }
        }
    }
}

/// A plain value is JSON.
proof fn lemma_plain_is_json(s: Seq<char>)
    requires
        plain_value(s),
    ensures
        json_text(s),
{
    if s == "null"@ {
        assert(print_tree(JsonTree::Null) == s && sound_tree(JsonTree::Null));
    } else if s == "true"@ {
        assert(print_tree(JsonTree::Bool(true)) == s && sound_tree(JsonTree::Bool(true)));
    } else if s == "false"@ {
        assert(print_tree(JsonTree::Bool(false)) == s && sound_tree(JsonTree::Bool(false)));
    } else if exists|n: nat| n <= u64::MAX && s == #[trigger] decimal(n) {
        let n = choose|n: nat| n <= u64::MAX && s == #[trigger] decimal(n);
        lemma_decimal_is_json(n);
    } else {
        let t = choose|t: Seq<char>| s == #[trigger] quoted(t);
        lemma_quoted_is_json(t);
    }
}

/// Adding a plain field to plain fields leaves plain fields, and taking it out again gives
/// back what was there.
pub proof fn lemma_set_plain(fields: Seq<FieldView>, name: Seq<char>, text: Seq<char>)
    requires
        plain_fields(fields),
        plain_value(text),
        get_field(fields, name) is None,
    ensures
        plain_fields(set_field(fields, name, text)),
        without_field(set_field(fields, name, text), name) == fields,
{
    assert forall|k: int| 0 <= k < fields.len() implies json_text((#[trigger] fields[k]).1) by {
        lemma_plain_is_json(fields[k].1);
    }
    lemma_plain_is_json(text);
    lemma_set_sound(fields, name, text);
    lemma_set_values(fields, name, text);
}

proof fn lemma_set_values(fields: Seq<FieldView>, name: Seq<char>, text: Seq<char>)
    requires
        forall|k: int| 0 <= k < fields.len() ==> plain_value((#[trigger] fields[k]).1),
        plain_value(text),
        get_field(fields, name) is None,
    ensures
        forall|k: int|
            0 <= k < set_field(fields, name, text).len() ==> plain_value(
                (#[trigger] set_field(fields, name, text)[k]).1,
            ),
        without_field(set_field(fields, name, text), name) == fields,
    decreases fields.len(),
{
    let all = set_field(fields, name, text);
    if fields.len() == 0 {
        assert(without_field(all, name) =~= fields);
    } else if text::text_lt(name, fields[0].0) {
        assert(without_field(all, name) =~= fields);
        assert forall|k: int| 0 <= k < all.len() implies plain_value((#[trigger] all[k]).1) by {
            if k > 0 {
                assert(all[k] == fields[k - 1]);
            }
        }
    } else {
        let rest = fields.drop_first();
        let tail = set_field(rest, name, text);
        assert forall|k: int| 0 <= k < rest.len() implies plain_value((#[trigger] rest[k]).1) by {
            assert(rest[k] == fields[k + 1]);
        }
        lemma_set_values(rest, name, text);
        assert(all.drop_first() =~= tail);
        assert(without_field(all, name) =~= seq![fields[0]] + without_field(tail, name));
        assert(seq![fields[0]] + rest =~= fields);
        assert forall|k: int| 0 <= k < all.len() implies plain_value((#[trigger] all[k]).1) by {
            if k > 0 {
                assert(all[k] == tail[k - 1]);
            } else {
                assert(all[0] == fields[0]);
            }
        }
    }
}

/// Removing a field leaves an object.
pub proof fn lemma_without_sound(fields: Seq<FieldView>, name: Seq<char>)
    requires
        sound_fields(fields),
    ensures
        sound_fields(without_field(fields, name)),
        forall|k: int|
            0 <= k < without_field(fields, name).len() ==> fields.contains(
                #[trigger] without_field(fields, name)[k],
            ),
    decreases fields.len(),
{
    let all = without_field(fields, name);
    if fields.len() > 0 {
        let rest = fields.drop_first();
        assert forall|i: int, j: int| 0 <= i < j < rest.len() implies text::text_lt(
            #[trigger] rest[i].0,
            #[trigger] rest[j].0,
        ) by {
            assert(rest[i] == fields[i + 1] && rest[j] == fields[j + 1]);
        }
        assert forall|k: int| 0 <= k < rest.len() implies json_text((#[trigger] rest[k]).1) by {
            assert(rest[k] == fields[k + 1]);
        }
        if fields[0].0 == name {
            assert forall|k: int| 0 <= k < all.len() implies fields.contains(#[trigger] all[k]) by {
                assert(all[k] == fields[k + 1]);
            }
        } else {
            let tail = without_field(rest, name);
            lemma_without_sound(rest, name);
            assert forall|k: int| 0 <= k < tail.len() implies exists|p: int|
                1 <= p < fields.len() && fields[p] == #[trigger] tail[k] by {
                assert(rest.contains(tail[k]));
                let p = choose|p: int| 0 <= p < rest.len() && rest[p] == tail[k];
                assert(fields[p + 1] == tail[k]);
            }
            assert forall|i: int, j: int| 0 <= i < j < all.len() implies text::text_lt(
                #[trigger] all[i].0,
                #[trigger] all[j].0,
            ) by {
                assert(all[j] == tail[j - 1]);
                if i > 0 {
                    assert(all[i] == tail[i - 1]);
                } else {
                    let p = choose|p: int| 1 <= p < fields.len() && fields[p] == tail[j - 1];
                    assert(text::text_lt(fields[0].0, fields[p].0));
                }
            }
            assert forall|k: int| 0 <= k < all.len() implies json_text((#[trigger] all[k]).1)
                && fields.contains(all[k]) by {
                if k > 0 {
                    assert(all[k] == tail[k - 1]);
                    let p = choose|p: int| 1 <= p < fields.len() && fields[p] == tail[k - 1];
                    assert(fields.contains(fields[p]));
                } else {
                    assert(fields.contains(fields[0]));
                }
            }
        }
    }
}

/// `serde_json::to_string` on a string: the string in quotes, with quotes, backslashes
/// and the control characters below U+0020 escaped and every other character as it is.
#[verifier::external_body]
pub(crate) fn quote(s: &str) -> (r: String)
    ensures
        r@ == quoted(s@),
{
    serde_json::to_string(s).unwrap()
}

/// `serde_json::from_str` on an untyped value, and the `Display` of `serde_json::Value` on
/// what it holds: the fields of a text that is a JSON object, in ascending order of their
/// names, with each value printed compactly, which is JSON again. An object of plain values in
/// compact form is read back as it was written. Which other texts are objects, and how their values print, is what `json_object`
/// names.
#[verifier::external_body]
pub(crate) fn parse_object(text: &str) -> (r: Option<Vec<JsonField>>)
    ensures
        match r {
            Some(fields) => json_object(text@) == Some(fields_view(fields@)),
            None => json_object(text@) is None,
        },
        r is Some ==> sound_fields(fields_view(r->0@)),
        forall|fields: Seq<FieldView>|
            plain_fields(fields) && #[trigger] object_text(fields) == text@ ==> r is Some
                && fields_view(r->0@) == fields,
{
    match serde_json::from_str::<serde_json::Value>(text) {
        Ok(serde_json::Value::Object(object)) => Some(
            object.into_iter().map(
                |(name, value)| JsonField { name, text: value.to_string() },
            ).collect(),
        ),
        _ => None,
    }
}

/// `serde_json::from_str` on a string: the characters that a JSON string holds, named by
/// `json_string`. A string in the form in which `serde_json` writes it is read back as it was
/// written.
#[verifier::external_body]
pub(crate) fn parse_string(text: &str) -> (r: Option<String>)
    ensures
        match r {
            Some(s) => json_string(text@) == Some(s@),
            None => json_string(text@) is None,
        },
        forall|s: Seq<char>| #[trigger] quoted(s) == text@ ==> r is Some && r->0@ == s,
{
    serde_json::from_str::<String>(text).ok()
}

/// Bytes that `s` takes once it is written as a JSON string.
pub fn json_len(s: &str) -> (r: usize)
    ensures
        r == json_size(s@),
{
    let q: String = quote(s);
    byte_len(q.as_str())
}

fn digit_text(v: usize) -> (r: &'static str)
    requires
        v < 10,
    ensures
        r@ == seq![digit(v as nat)],
{
    proof {
        reveal_strlit("0");
        reveal_strlit("1");
        reveal_strlit("2");
        reveal_strlit("3");
        reveal_strlit("4");
        reveal_strlit("5");
        reveal_strlit("6");
        reveal_strlit("7");
        reveal_strlit("8");
        reveal_strlit("9");
    }
    let r: &'static str = match v {
        0 => "0",
        1 => "1",
        2 => "2",
        3 => "3",
        4 => "4",
        5 => "5",
        6 => "6",
        7 => "7",
        8 => "8",
        _ => "9",
    };
    assert(r@ =~= seq![digit(v as nat)]);
    r
}

/// The decimal digits of `v`.
pub fn decimal_text(v: usize) -> (r: String)
    ensures
        r@ == decimal(v as nat),
    decreases v,
{
    if v < 10 {
        digit_text(v).to_owned()
    } else {
        let mut r: String = decimal_text(v / 10);
        r.append(digit_text(v % 10));
        assert(r@ =~= decimal(v as nat));
        r
    }
}

/// The value of the field `name`.
pub fn read_field(fields: &Vec<JsonField>, name: &str) -> (r: Option<String>)
    ensures
        match r {
            Some(text) => get_field(fields_view(fields@), name@) == Some(text@),
            None => get_field(fields_view(fields@), name@) is None,
        },
{
    let ghost all = fields_view(fields@);
    let mut i: usize = 0;
    assert(all.skip(0) =~= all);
    while i < fields.len()
        invariant
            i <= fields.len(),
            all == fields_view(fields@),
            get_field(all, name@) == get_field(all.skip(i as int), name@),
        decreases fields.len() - i,
    {
        assert(all[i as int] == fields@[i as int]@);
        if same_text(fields[i].name.as_str(), name) {
            return Some(fields[i].text.clone());
        }
        assert(all.skip(i as int).drop_first() =~= all.skip(i + 1));
        i += 1;
    }
    None
}

/// Sets the field `name` to the JSON text `text`.
pub fn write_field(fields: &mut Vec<JsonField>, name: &str, text: String)
    ensures
        fields_view(final(fields)@) == set_field(fields_view(old(fields)@), name@, text@),
{
    let ghost all = fields_view(fields@);
    let ghost before = fields@;
    let mut i: usize = 0;
    assert(all.skip(0) =~= all);
    assert(all.take(0) + set_field(all, name@, text@) =~= set_field(all, name@, text@));
    while i < fields.len()
        invariant
            i <= fields.len(),
            fields@ == before,
            all == fields_view(before),
            before == old(fields)@,
            set_field(all, name@, text@) == all.take(i as int) + set_field(
                all.skip(i as int),
                name@,
                text@,
            ),
        decreases fields.len() - i,
    {
        assert(all[i as int] == fields@[i as int]@);
        let ghost here = all.skip(i as int);
        if same_text(fields[i].name.as_str(), name) {
            let field: JsonField = JsonField { name: name.to_owned(), text };
            fields.set(i, field);
            proof {
                assert(fields_view(fields@) =~= all.take(i as int) + set_field(here, name@, text@));
            }
            return;
        }
        if text_less(name, fields[i].name.as_str()) {
            let field: JsonField = JsonField { name: name.to_owned(), text };
            fields.insert(i, field);
            proof {
                assert(fields_view(fields@) =~= all.take(i as int) + set_field(here, name@, text@));
            }
            return;
        }
        proof {
            assert(here.drop_first() =~= all.skip(i + 1));
            assert(all.take(i as int) + (seq![here[0]] + set_field(all.skip(i + 1), name@, text@))
                =~= all.take(i + 1) + set_field(all.skip(i + 1), name@, text@));
        }
        i += 1;
    }
    let field: JsonField = JsonField { name: name.to_owned(), text };
    fields.push(field);
    assert(fields_view(fields@) =~= all.take(i as int) + set_field(
        all.skip(i as int),
        name@,
        text@,
    ));
}

/// Removes the field `name`.
pub fn drop_field(fields: &mut Vec<JsonField>, name: &str)
    ensures
        fields_view(final(fields)@) == without_field(fields_view(old(fields)@), name@),
{
    let ghost all = fields_view(fields@);
    let ghost before = fields@;
    let mut i: usize = 0;
    assert(all.skip(0) =~= all);
    assert(all.take(0) + without_field(all, name@) =~= without_field(all, name@));
    while i < fields.len()
        invariant
            i <= fields.len(),
            fields@ == before,
            all == fields_view(before),
            before == old(fields)@,
            without_field(all, name@) == all.take(i as int) + without_field(
                all.skip(i as int),
                name@,
            ),
        decreases fields.len() - i,
    {
        assert(all[i as int] == fields@[i as int]@);
        let ghost here = all.skip(i as int);
        if same_text(fields[i].name.as_str(), name) {
            let _ = fields.remove(i);
            proof {
                assert(fields_view(fields@) =~= all.take(i as int) + without_field(here, name@));
            }
            return;
        }
        proof {
            assert(here.drop_first() =~= all.skip(i + 1));
            assert(all.take(i as int) + (seq![here[0]] + without_field(all.skip(i + 1), name@))
                =~= all.take(i + 1) + without_field(all.skip(i + 1), name@));
        }
        i += 1;
    }
    assert(fields_view(fields@) =~= all.take(i as int) + without_field(all.skip(i as int), name@));
}

/// The compact text of an object with these fields.
pub fn print_object(fields: &Vec<JsonField>) -> (r: String)
    ensures
        r@ == object_text(fields_view(fields@)),
{
    let ghost all = fields_view(fields@);
    proof {
        reveal_strlit("{");
        reveal_strlit("}");
        reveal_strlit(",");
        reveal_strlit(":");
        assert("{"@ =~= seq!['{']);
        assert("}"@ =~= seq!['}']);
        assert(","@ =~= seq![',']);
        assert(":"@ =~= seq![':']);
    }
    let mut r: String = "{".to_owned();
    let mut i: usize = 0;
    assert(all.take(0) =~= Seq::<FieldView>::empty());
    assert(r@ =~= seq!['{'] + members(all.take(0)));
    while i < fields.len()
        invariant
            i <= fields.len(),
            all == fields_view(fields@),
            r@ == seq!['{'] + members(all.take(i as int)),
            ","@ == seq![','],
            ":"@ == seq![':'],
        decreases fields.len() - i,
    {
        let ghost start = r@;
        if i > 0 {
            r.append(",");
        }
        let name: String = quote(fields[i].name.as_str());
        r.append(name.as_str());
        r.append(":");
        r.append(fields[i].text.as_str());
        proof {
            assert(all[i as int] == fields@[i as int]@);
            assert(all.take(i + 1).drop_last() =~= all.take(i as int));
            assert(all.take(i + 1).last() == all[i as int]);
            let m = member(all[i as int]);
            if i > 0 {
                assert(r@ =~= start + seq![','] + m);
                assert(r@ =~= seq!['{'] + members(all.take(i + 1)));
            } else {
                assert(all.take(1)[0] == all[0]);
                assert(members(all.take(0)) =~= Seq::<char>::empty());
                assert(r@ =~= seq!['{'] + m);
                assert(r@ =~= seq!['{'] + members(all.take(i + 1)));
            }
        }
        i += 1;
    }
    r.append("}");
    assert(all.take(i as int) =~= all);
    assert(r@ =~= object_text(all));
    r
}

/// An object is written in braces, with its fields in their order, each as its name in quotes, a
/// colon and its value, and with a comma between two of them and nothing else.
pub proof fn law_how_an_object_is_written(fields: Seq<FieldView>, field: FieldView)
    ensures
        object_text(Seq::empty()) == seq!['{', '}'],
        object_text(seq![field]) == seq!['{', '"'] + escape(field.0) + seq!['"', ':'] + field.1
            + seq!['}'],
        fields.len() > 0 ==> object_text(fields.push(field)) == object_text(fields).drop_last()
            + seq![',', '"'] + escape(field.0) + seq!['"', ':'] + field.1 + seq!['}'],
{
    reveal_with_fuel(members, 2);
    assert(object_text(Seq::empty()) =~= seq!['{', '}']);
    assert(object_text(seq![field]) =~= seq!['{', '"'] + escape(field.0) + seq!['"', ':'] + field.1
        + seq!['}']);
    if fields.len() > 0 {
        assert(fields.push(field).drop_last() =~= fields);
        assert(object_text(fields.push(field)) =~= object_text(fields).drop_last() + seq![',', '"']
            + escape(field.0) + seq!['"', ':'] + field.1 + seq!['}']);
    }
}

/// A number is written in decimal digits: the last digit counts ones, and the others the tens.
pub proof fn law_how_a_number_is_written(v: nat)
    ensures
        decimal(v).len() > 0,
        decimal(v).last() as u32 == 0x30 + v % 10,
        v < 10 ==> decimal(v).len() == 1,
        v >= 10 ==> decimal(v).drop_last() == decimal(v / 10),
    decreases v,
{
    if v >= 10 {
        law_how_a_number_is_written(v / 10);
        assert(decimal(v).drop_last() =~= decimal(v / 10));
    }
}

/// Removing a field takes away nothing but that field.
pub proof fn law_only_the_named_field_is_removed(
    fields: Seq<FieldView>,
    name: Seq<char>,
    other: Seq<char>,
)
    requires
        ascending(fields),
    ensures
        get_field(without_field(fields, name), name) is None,
        other != name ==> get_field(without_field(fields, name), other) == get_field(fields, other),
    decreases fields.len(),
{
    if fields.len() > 0 {
        let rest = fields.drop_first();
        assert forall|i: int, j: int| 0 <= i < j < rest.len() implies text::text_lt(
            #[trigger] rest[i].0,
            #[trigger] rest[j].0,
        ) by {
            assert(rest[i] == fields[i + 1] && rest[j] == fields[j + 1]);
        }
        if fields[0].0 == name {
            assert forall|k: int| 0 <= k < rest.len() implies (#[trigger] rest[k]).0 != name by {
                assert(rest[k] == fields[k + 1]);
                assert(text::text_lt(fields[0].0, fields[k + 1].0));
                text::lemma_text_lt_total(name, name);
            }
            lemma_absent(rest, name);
        } else {
            law_only_the_named_field_is_removed(rest, name, other);
            let all = without_field(fields, name);
            assert(all.drop_first() =~= without_field(rest, name));
        }
    }
}

proof fn lemma_absent(fields: Seq<FieldView>, name: Seq<char>)
    ensures
        (forall|k: int| 0 <= k < fields.len() ==> (#[trigger] fields[k]).0 != name) ==> get_field(
            fields,
            name,
        ) is None,
    decreases fields.len(),
{
    if fields.len() > 0 && (forall|k: int|
        0 <= k < fields.len() ==> (#[trigger] fields[k]).0 != name) {
        let rest = fields.drop_first();
        assert forall|k: int| 0 <= k < rest.len() implies (#[trigger] rest[k]).0 != name by {
            assert(rest[k] == fields[k + 1]);
        }
        lemma_absent(rest, name);
    }
}

/// A field is read by its name: where it stands first, its value is found; else the others tell.
pub proof fn law_a_field_is_read_by_its_name(
    field: FieldView,
    rest: Seq<FieldView>,
    name: Seq<char>,
)
    ensures
        get_field(Seq::empty(), name) is None,
        get_field(seq![field] + rest, field.0) == Some(field.1),
        name != field.0 ==> get_field(seq![field] + rest, name) == get_field(rest, name),
{
    assert((seq![field] + rest).drop_first() =~= rest);
}

} // verus!
