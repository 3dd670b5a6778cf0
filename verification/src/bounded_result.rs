//! Shortens one tool result so that it fits into a byte budget on the wire.
//!
//! The result stays valid JSON and says that it is partial. Its head and its tail
//! survive, and so do the fields by which a running command is followed up.

use vstd::prelude::*;
use crate::json;
use crate::json::{
    decimal_text, drop_field, json_len, parse_object, parse_string, print_object, quote, read_field,
    write_field, JsonField,
};
use crate::json_unique;
use crate::text;
use crate::text::{byte_len, chars_of, head_within, tail_within};

verus! {

/// The field that marks a shortened result.
pub const TRUNCATION_KEY: &'static str = "_infinishell_truncated";

/// What the model is told about a shortened result. It must not suggest to run a command
/// with side effects once more.
pub const TRUNCATION_NOTE: &'static str = "Partial tool output: the middle was omitted to fit the context budget. Full output remains in the local conversation. Use bounded reads or searches for missing details; do not repeat state-changing commands.";

/// Stands between the head and the tail that were kept.
pub const OMISSION_MARK: &'static str = "\n[... omitted ...]\n";

/// The value of the marking field: the note, and the size of the whole result.
pub open spec fn truncation_value(original_bytes: nat) -> Seq<char> {
    json::object_text(
        seq![
            ("note"@, json::quoted(TRUNCATION_NOTE@)),
            ("original_bytes"@, json::decimal(original_bytes)),
        ],
    )
}

/// A result that is a JSON object with a string in `output`: its other fields, and that
/// string.
pub open spec fn output_of(content: Seq<char>) -> Option<(Seq<json::FieldView>, Seq<char>)> {
    match json::json_object(content) {
        None => None,
        Some(fields) => match json::get_field(fields, "output"@) {
            None => None,
            Some(value) => match json::json_string(value) {
                None => None,
                Some(output) => Some((json::without_field(fields, "output"@), output)),
            },
        },
    }
}

/// What was read of a result is an object, or nothing.
pub open spec fn sound_parts(parsed: Option<(Seq<json::FieldView>, Seq<char>)>) -> bool {
    match parsed {
        Some((fields, _)) => json::sound_fields(fields),
        None => true,
    }
}

/// `content` is the compact text of a command result: an object of plain values with the
/// string `output` in it.
pub open spec fn written(
    content: Seq<char>,
    fields: Seq<json::FieldView>,
    output: Seq<char>,
) -> bool {
    &&& json::plain_fields(fields)
    &&& json::get_field(fields, "output"@) is None
    &&& content == json::object_text(json::set_field(fields, "output"@, json::quoted(output)))
}

/// What is read of `content` is an object, or nothing; and a command result is read as it was
/// written.
pub open spec fn well_read(content: Seq<char>) -> bool {
    &&& sound_parts(output_of(content))
    &&& forall|fields: Seq<json::FieldView>, output: Seq<char>| #[trigger]
        written(content, fields, output) ==> output_of(content) == Some((fields, output))
}

/// The object that carries a shortened result, the text that is shortened, and the field
/// that will hold what is kept of it.
pub struct EnvelopeView {
    pub fields: Seq<json::FieldView>,
    pub source: Seq<char>,
    pub field: Seq<char>,
}

/// Every field of the result is kept and only `output` is shortened; a result of another
/// shape is shortened as a whole into a preview.
pub open spec fn full_envelope(
    content: Seq<char>,
    parsed: Option<(Seq<json::FieldView>, Seq<char>)>,
) -> EnvelopeView {
    let value = truncation_value(text::utf8_len(content));
    let (kept, source, field) = match parsed {
        Some((fields, output)) => (fields, output, "output"@),
        None => (Seq::empty(), content, "preview"@),
    };
    EnvelopeView {
        fields: json::set_field(
            json::set_field(kept, TRUNCATION_KEY@, value),
            field,
            json::quoted(Seq::empty()),
        ),
        source,
        field,
    }
}

/// `base`, with the field `name` of `from` added where `from` has it.
pub open spec fn with_copied(
    base: Seq<json::FieldView>,
    from: Seq<json::FieldView>,
    name: Seq<char>,
) -> Seq<json::FieldView> {
    match json::get_field(from, name) {
        Some(value) => json::set_field(base, name, value),
        None => base,
    }
}

/// The mark and the fields by which a command is followed up, nothing else.
pub open spec fn control_fields(
    from: Seq<json::FieldView>,
    original_bytes: nat,
) -> Seq<json::FieldView> {
    let mark = seq![(TRUNCATION_KEY@, truncation_value(original_bytes))];
    with_copied(
        with_copied(
            with_copied(with_copied(mark, from, "status"@), from, "exit_code"@),
            from,
            "command_id"@,
        ),
        from,
        "is_alt_screen_active"@,
    )
}

/// The envelope for `budget`: the full one, or only the control fields where the full one
/// is too large before any text is in it.
pub open spec fn envelope(
    content: Seq<char>,
    parsed: Option<(Seq<json::FieldView>, Seq<char>)>,
    budget: nat,
) -> EnvelopeView {
    let full = full_envelope(content, parsed);
    if json::json_size(json::object_text(full.fields)) > budget {
        EnvelopeView {
            fields: control_fields(full.fields, text::utf8_len(content)),
            source: full.source,
            field: "preview"@,
        }
    } else {
        full
    }
}

/// The beginning of `source` that is kept where `keep` bytes are.
pub open spec fn head_of(source: Seq<char>, keep: nat) -> Seq<char> {
    source.take(text::head_chars(source, keep / 2) as int)
}

/// The end of `source` that is kept where `keep` bytes are.
pub open spec fn tail_of(source: Seq<char>, keep: nat) -> Seq<char> {
    source.skip(source.len() - text::tail_chars(source, (keep - keep / 2) as nat))
}

/// The head and the tail of `source` that fit into `keep` bytes, with the mark between.
pub open spec fn excerpt(source: Seq<char>, keep: nat) -> Seq<char> {
    head_of(source, keep) + OMISSION_MARK@ + tail_of(source, keep)
}

/// The fields of the shortened result that keeps `keep` bytes.
pub open spec fn candidate_fields(e: EnvelopeView, keep: nat) -> Seq<json::FieldView> {
    json::set_field(e.fields, e.field, json::quoted(excerpt(e.source, keep)))
}

/// The shortened result that keeps `keep` bytes.
pub open spec fn candidate(e: EnvelopeView, keep: nat) -> Seq<char> {
    json::object_text(candidate_fields(e, keep))
}

pub open spec fn fits(e: EnvelopeView, budget: nat, keep: nat) -> bool {
    json::json_size(candidate(e, keep)) <= budget
}

/// The most bytes, up to `keep`, that can be kept within the budget.
pub open spec fn largest_fit(e: EnvelopeView, budget: nat, keep: nat) -> Option<nat>
    decreases keep,
{
    if fits(e, budget, keep) {
        Some(keep)
    } else if keep == 0 {
        None
    } else {
        largest_fit(e, budget, (keep - 1) as nat)
    }
}

/// How many bytes of the text are kept, where any text is put in at all.
pub open spec fn kept_bytes(e: EnvelopeView, budget: nat) -> Option<nat> {
    let len = text::utf8_len(e.source);
    largest_fit(
        e,
        budget,
        if len < budget {
            len
        } else {
            budget
        },
    )
}

/// The fields of a shortened result: those of the envelope, with as much of the text as
/// fits, or with none.
pub open spec fn filled(e: EnvelopeView, budget: nat) -> Seq<json::FieldView> {
    match kept_bytes(e, budget) {
        Some(keep) => candidate_fields(e, keep),
        None => e.fields,
    }
}

/// The head and the tail that a shortened result keeps, where it keeps any text.
pub open spec fn kept_ends(e: EnvelopeView, budget: nat) -> Option<(Seq<char>, Seq<char>)> {
    match kept_bytes(e, budget) {
        Some(keep) => Some((head_of(e.source, keep), tail_of(e.source, keep))),
        None => None,
    }
}

/// What `content` is sent as under `budget`, given what was read of it: itself where it fits,
/// else the shortened result.
pub open spec fn bounded_from(
    content: Seq<char>,
    parsed: Option<(Seq<json::FieldView>, Seq<char>)>,
    budget: nat,
) -> Seq<char> {
    if json::json_size(content) <= budget {
        content
    } else {
        json::object_text(filled(envelope(content, parsed, budget), budget))
    }
}

/// The fields that `content` is shortened to.
pub open spec fn bounded_fields(content: Seq<char>, budget: nat) -> Seq<json::FieldView> {
    filled(envelope(content, output_of(content), budget), budget)
}

/// What `content` is sent as under `budget`.
pub open spec fn bounded(content: Seq<char>, budget: nat) -> Seq<char> {
    bounded_from(content, output_of(content), budget)
}

/// Bytes of `s` when the JSON string that holds it stands in a JSON string itself.
spec fn nested_size(s: Seq<char>) -> nat {
    text::utf8_len(json::escape(json::escape(s)))
}

proof fn lemma_nested_concat(a: Seq<char>, b: Seq<char>)
    ensures
        nested_size(a + b) == nested_size(a) + nested_size(b),
{
    json::lemma_escape_concat(a, b);
    json::lemma_escape_concat(json::escape(a), json::escape(b));
    text::lemma_encode_concat(json::escape(json::escape(a)), json::escape(json::escape(b)));
}

/// Where `set_field` puts a field does not depend on its value.
proof fn lemma_set_position(fields: Seq<json::FieldView>, name: Seq<char>) -> (r: (int, int))
    ensures
        0 <= r.0 <= r.1 <= fields.len(),
        forall|t: Seq<char>|
            #[trigger] json::set_field(fields, name, t) == fields.take(r.0) + seq![(name, t)]
                + fields.skip(r.1),
    decreases fields.len(),
{
    if fields.len() == 0 {
        assert forall|t: Seq<char>| #[trigger]
            json::set_field(fields, name, t) == fields.take(0) + seq![(name, t)] + fields.skip(
            0,
        ) by {
            assert(json::set_field(fields, name, t) =~= fields.take(0) + seq![(name, t)]
                + fields.skip(0));
        }
        (0, 0)
    } else if fields[0].0 == name {
        assert forall|t: Seq<char>| #[trigger]
            json::set_field(fields, name, t) == fields.take(0) + seq![(name, t)] + fields.skip(
            1,
        ) by {
            assert(json::set_field(fields, name, t) =~= fields.take(0) + seq![(name, t)]
                + fields.skip(1));
        }
        (0, 1)
    } else if text::text_lt(name, fields[0].0) {
        assert forall|t: Seq<char>| #[trigger]
            json::set_field(fields, name, t) == fields.take(0) + seq![(name, t)] + fields.skip(
            0,
        ) by {
            assert(json::set_field(fields, name, t) =~= fields.take(0) + seq![(name, t)]
                + fields.skip(0));
        }
        (0, 0)
    } else {
        let rest = fields.drop_first();
        let (i, j) = lemma_set_position(rest, name);
        assert forall|t: Seq<char>| #[trigger]
            json::set_field(fields, name, t) == fields.take(i + 1) + seq![(name, t)]
                + fields.skip(j + 1) by {
            assert(json::set_field(rest, name, t) == rest.take(i) + seq![(name, t)] + rest.skip(j));
            assert(json::set_field(fields, name, t) =~= fields.take(i + 1) + seq![(name, t)]
                + fields.skip(j + 1));
        }
        (i + 1, j + 1)
    }
}

spec fn before_member(a: Seq<json::FieldView>) -> Seq<char> {
    if a.len() == 0 {
        Seq::empty()
    } else {
        json::members(a) + seq![',']
    }
}

spec fn after_member(b: Seq<json::FieldView>) -> Seq<char> {
    if b.len() == 0 {
        Seq::empty()
    } else {
        seq![','] + json::members(b)
    }
}

proof fn lemma_members_around(
    a: Seq<json::FieldView>,
    x: json::FieldView,
    b: Seq<json::FieldView>,
)
    ensures
        json::members(a + seq![x] + b) == before_member(a) + json::member(x) + after_member(b),
    decreases b.len(),
{
    let all = a + seq![x] + b;
    if b.len() == 0 {
        assert(all =~= a + seq![x]);
        assert(all.drop_last() =~= a);
        assert(all.last() == x);
        if a.len() == 0 {
            assert(all[0] == x);
        }
        assert(json::members(all) =~= before_member(a) + json::member(x) + after_member(b));
    } else {
        lemma_members_around(a, x, b.drop_last());
        assert(all.drop_last() =~= a + seq![x] + b.drop_last());
        assert(all.last() == b.last());
        if b.len() == 1 {
            assert(b.last() == b[0]);
        }
        assert(json::members(all) =~= before_member(a) + json::member(x) + after_member(b));
    }
}

/// The size of an object on the wire grows with the text in one of its string fields.
proof fn lemma_size_by_text(
    fields: Seq<json::FieldView>,
    name: Seq<char>,
    v: Seq<char>,
    w: Seq<char>,
)
    ensures
        json::json_size(json::object_text(json::set_field(fields, name, json::quoted(v))))
            + nested_size(w) == json::json_size(
            json::object_text(json::set_field(fields, name, json::quoted(w))),
        ) + nested_size(v),
{
    let (i, j) = lemma_set_position(fields, name);
    let a = fields.take(i);
    let b = fields.skip(j);
    let pre = seq!['{'] + before_member(a) + json::quoted(name) + seq![':'];
    let post = after_member(b) + seq!['}'];
    lemma_size_between(fields, name, v, pre, post, a, b);
    lemma_size_between(fields, name, w, pre, post, a, b);
}

proof fn lemma_size_between(
    fields: Seq<json::FieldView>,
    name: Seq<char>,
    v: Seq<char>,
    pre: Seq<char>,
    post: Seq<char>,
    a: Seq<json::FieldView>,
    b: Seq<json::FieldView>,
)
    requires
        json::set_field(fields, name, json::quoted(v)) == a + seq![(name, json::quoted(v))] + b,
        pre == seq!['{'] + before_member(a) + json::quoted(name) + seq![':'],
        post == after_member(b) + seq!['}'],
    ensures
        json::json_size(json::object_text(json::set_field(fields, name, json::quoted(v))))
            == text::utf8_len(json::escape(pre)) + text::utf8_len(json::escape(post)) + nested_size(
            v,
        ) + 2 * text::utf8_len(json::escape(seq!['"'])) + 2,
{
    let q = json::quoted(v);
    lemma_members_around(a, (name, q), b);
    let all = json::object_text(json::set_field(fields, name, q));
    assert(all =~= pre + q + post);
    json::lemma_json_size_covers(all);
    json::lemma_escape_concat(pre + q, post);
    json::lemma_escape_concat(pre, q);
    text::lemma_encode_concat(json::escape(pre + q), json::escape(post));
    text::lemma_encode_concat(json::escape(pre), json::escape(q));
    let mark = seq!['"'];
    json::lemma_escape_concat(mark + json::escape(v), mark);
    json::lemma_escape_concat(mark, json::escape(v));
    text::lemma_encode_concat(json::escape(mark + json::escape(v)), json::escape(mark));
    text::lemma_encode_concat(json::escape(mark), json::escape(json::escape(v)));
}

/// Keeping less never takes more room.
proof fn lemma_fits_monotone(e: EnvelopeView, budget: nat, a: nat, b: nat)
    requires
        a <= b,
        fits(e, budget, b),
    ensures
        fits(e, budget, a),
{
    let s = e.source;
    let mark = OMISSION_MARK@;
    let ha = text::head_chars(s, a / 2) as int;
    let hb = text::head_chars(s, b / 2) as int;
    let ta = s.len() - text::tail_chars(s, (a - a / 2) as nat);
    let tb = s.len() - text::tail_chars(s, (b - b / 2) as nat);
    text::lemma_head_chars_monotone(s, a / 2, b / 2);
    text::lemma_tail_chars_monotone(s, (a - a / 2) as nat, (b - b / 2) as nat);
    text::lemma_head_chars(s, a / 2);
    text::lemma_head_chars(s, b / 2);
    text::lemma_tail_chars(s, (a - a / 2) as nat);
    text::lemma_tail_chars(s, (b - b / 2) as nat);
    assert(s.take(hb) =~= s.take(ha) + s.subrange(ha, hb));
    lemma_nested_concat(s.take(ha), s.subrange(ha, hb));
    assert(s.skip(tb) =~= s.subrange(tb, ta) + s.skip(ta));
    lemma_nested_concat(s.subrange(tb, ta), s.skip(ta));
    lemma_nested_concat(s.take(ha), mark);
    lemma_nested_concat(s.take(ha) + mark, s.skip(ta));
    lemma_nested_concat(s.take(hb), mark);
    lemma_nested_concat(s.take(hb) + mark, s.skip(tb));
    lemma_size_by_text(e.fields, e.field, excerpt(s, a), excerpt(s, b));
}

proof fn lemma_largest_is(e: EnvelopeView, budget: nat, top: nat, found: nat)
    requires
        found <= top,
        fits(e, budget, found),
        found < top ==> !fits(e, budget, found + 1),
    ensures
        largest_fit(e, budget, top) == Some(found),
    decreases top,
{
    if found < top {
        if fits(e, budget, top) {
            lemma_fits_monotone(e, budget, found + 1, top);
        }
        lemma_largest_is(e, budget, (top - 1) as nat, found);
    }
}

proof fn lemma_largest_none(e: EnvelopeView, budget: nat, top: nat)
    requires
        !fits(e, budget, 0),
    ensures
        largest_fit(e, budget, top) is None,
    decreases top,
{
    if fits(e, budget, top) {
        lemma_fits_monotone(e, budget, 0, top);
    }
    if top > 0 {
        lemma_largest_none(e, budget, (top - 1) as nat);
    }
}

proof fn lemma_truncation_is_json(original_bytes: nat)
    ensures
        json::json_text(truncation_value(original_bytes)),
{
    let fields = seq![
        ("note"@, json::quoted(TRUNCATION_NOTE@)),
        ("original_bytes"@, json::decimal(original_bytes)),
    ];
    reveal_strlit("note");
    reveal_strlit("original_bytes");
    assert(text::text_lt("note"@, "original_bytes"@));
    json::lemma_quoted_is_json(TRUNCATION_NOTE@);
    json::lemma_decimal_is_json(original_bytes);
    json::lemma_object_is_json(fields);
}

proof fn lemma_copied_sound(
    base: Seq<json::FieldView>,
    from: Seq<json::FieldView>,
    name: Seq<char>,
)
    requires
        json::sound_fields(base),
        json::sound_fields(from),
    ensures
        json::sound_fields(with_copied(base, from, name)),
{
    if let Some(value) = json::get_field(from, name) {
        lemma_found_is_json(from, name);
        json::lemma_set_sound(base, name, value);
    }
}

/// The value of a field is JSON where all of them are.
proof fn lemma_found_is_json(fields: Seq<json::FieldView>, name: Seq<char>)
    requires
        forall|k: int| 0 <= k < fields.len() ==> json::json_text((#[trigger] fields[k]).1),
        json::get_field(fields, name) is Some,
    ensures
        json::json_text(json::get_field(fields, name)->0),
    decreases fields.len(),
{
    if fields.len() > 0 {
        assert(json::json_text(fields[0].1));
        if fields[0].0 != name {
            assert forall|k: int| 0 <= k < fields.drop_first().len() implies json::json_text(
                (#[trigger] fields.drop_first()[k]).1,
            ) by {
                assert(fields.drop_first()[k] == fields[k + 1]);
            }
            lemma_found_is_json(fields.drop_first(), name);
        }
    }
}

/// The fields of an envelope make up an object, before text is put into it and after.
proof fn lemma_envelope_sound(
    content: Seq<char>,
    parsed: Option<(Seq<json::FieldView>, Seq<char>)>,
    budget: nat,
)
    requires
        sound_parts(parsed),
    ensures
        json::sound_fields(envelope(content, parsed, budget).fields),
        json::sound_fields(filled(envelope(content, parsed, budget), budget)),
{
    let size = text::utf8_len(content);
    let value = truncation_value(size);
    let e = envelope(content, parsed, budget);
    let full = full_envelope(content, parsed);
    let kept = match parsed {
        Some((fields, _)) => fields,
        None => Seq::empty(),
    };
    lemma_truncation_is_json(size);
    json::lemma_quoted_is_json(Seq::empty());
    json::lemma_set_sound(kept, TRUNCATION_KEY@, value);
    json::lemma_set_sound(
        json::set_field(kept, TRUNCATION_KEY@, value),
        full.field,
        json::quoted(Seq::empty()),
    );
    let a = seq![(TRUNCATION_KEY@, value)];
    let b = with_copied(a, full.fields, "status"@);
    let c = with_copied(b, full.fields, "exit_code"@);
    let d = with_copied(c, full.fields, "command_id"@);
    lemma_copied_sound(a, full.fields, "status"@);
    lemma_copied_sound(b, full.fields, "exit_code"@);
    lemma_copied_sound(c, full.fields, "command_id"@);
    lemma_copied_sound(d, full.fields, "is_alt_screen_active"@);
    if let Some(keep) = kept_bytes(e, budget) {
        json::lemma_quoted_is_json(excerpt(e.source, keep));
        json::lemma_set_sound(e.fields, e.field, json::quoted(excerpt(e.source, keep)));
    }
}

fn truncation_text(original_bytes: usize) -> (r: String)
    ensures
        r@ == truncation_value(original_bytes as nat),
{
    let note: String = quote(TRUNCATION_NOTE);
    let mut fields: Vec<JsonField> = Vec::new();
    fields.push(JsonField { name: "note".to_owned(), text: note });
    fields.push(
        JsonField { name: "original_bytes".to_owned(), text: decimal_text(original_bytes) },
    );
    assert(json::fields_view(fields@) =~= seq![
        ("note"@, json::quoted(TRUNCATION_NOTE@)),
        ("original_bytes"@, json::decimal(original_bytes as nat)),
    ]);
    print_object(&fields)
}

/// The fields and the text that were read of a result.
pub open spec fn parsed_view(parsed: Option<(Vec<JsonField>, String)>) -> Option<
    (Seq<json::FieldView>, Seq<char>),
> {
    match parsed {
        Some((fields, output)) => Some((json::fields_view(fields@), output@)),
        None => None,
    }
}

/// Takes the `output` string out of a result that is a JSON object.
fn split_output(content: &str) -> (r: Option<(Vec<JsonField>, String)>)
    ensures
        parsed_view(r) == output_of(content@),
        well_read(content@),
{
    let parsed: Option<Vec<JsonField>> = parse_object(content);
    proof {
        assert forall|fields: Seq<json::FieldView>, output: Seq<char>| #[trigger]
            written(content@, fields, output) implies json::json_object(content@) == Some(
            json::set_field(fields, "output"@, json::quoted(output)),
        ) && json::get_field(json::json_object(content@)->0, "output"@) == Some(
            json::quoted(output),
        ) && json::without_field(json::json_object(content@)->0, "output"@) == fields by {
            let all = json::set_field(fields, "output"@, json::quoted(output));
            json::lemma_set_plain(fields, "output"@, json::quoted(output));
            json::lemma_set_get(fields, "output"@, json::quoted(output), "output"@);
            assert(json::object_text(all) == content@);
        }
    }
    match parsed {
        None => None,
        Some(parsed) => {
            let mut fields: Vec<JsonField> = parsed;
            match read_field(&fields, "output") {
                None => None,
                Some(value) => match parse_string(value.as_str()) {
                    None => None,
                    Some(output) => {
                        proof {
                            json::lemma_without_sound(json::fields_view(fields@), "output"@);
                        }
                        drop_field(&mut fields, "output");
                        Some((fields, output))
                    },
                },
            }
        },
    }
}

fn copy_field(base: &mut Vec<JsonField>, from: &Vec<JsonField>, name: &str)
    ensures
        json::fields_view(final(base)@) == with_copied(
            json::fields_view(old(base)@),
            json::fields_view(from@),
            name@,
        ),
{
    match read_field(from, name) {
        Some(value) => write_field(base, name, value),
        None => {},
    }
}

/// The object of a shortened result before any text is put into it.
struct Envelope {
    fields: Vec<JsonField>,
    source: String,
    field: &'static str,
}

impl View for Envelope {
    type V = EnvelopeView;

    closed spec fn view(&self) -> EnvelopeView {
        EnvelopeView {
            fields: json::fields_view(self.fields@),
            source: self.source@,
            field: self.field@,
        }
    }
}

fn build_envelope(
    content: &str,
    parsed: Option<(Vec<JsonField>, String)>,
    budget: usize,
) -> (r: Envelope)
    ensures
        r@ == envelope(content@, parsed_view(parsed), budget as nat),
{
    let original_bytes: usize = byte_len(content);
    let ghost given = parsed_view(parsed);
    let mut full: Envelope = match parsed {
        Some((fields, output)) => Envelope { fields, source: output, field: "output" },
        None => {
            let fields: Vec<JsonField> = Vec::new();
            assert(json::fields_view(fields@) =~= Seq::<json::FieldView>::empty());
            Envelope { fields, source: content.to_owned(), field: "preview" }
        },
    };
    write_field(&mut full.fields, TRUNCATION_KEY, truncation_text(original_bytes));
    let empty: String = quote("");
    proof {
        reveal_strlit("");
        assert(""@ =~= Seq::<char>::empty());
    }
    write_field(&mut full.fields, full.field, empty);
    assert(full@ == full_envelope(content@, given));
    let printed: String = print_object(&full.fields);
    if json_len(printed.as_str()) > budget {
        let mut minimal: Vec<JsonField> = Vec::new();
        minimal.push(
            JsonField {
                name: TRUNCATION_KEY.to_owned(),
                text: truncation_text(original_bytes),
            },
        );
        assert(json::fields_view(minimal@) =~= seq![
            (TRUNCATION_KEY@, truncation_value(original_bytes as nat)),
        ]);
        copy_field(&mut minimal, &full.fields, "status");
        copy_field(&mut minimal, &full.fields, "exit_code");
        copy_field(&mut minimal, &full.fields, "command_id");
        copy_field(&mut minimal, &full.fields, "is_alt_screen_active");
        Envelope { fields: minimal, source: full.source, field: "preview" }
    } else {
        full
    }
}

fn print_excerpt(e: &Envelope, chars: &Vec<char>, keep: usize) -> (r: String)
    requires
        chars@ == e@.source,
    ensures
        r@ == candidate(e@, keep as nat),
{
    let source: &str = e.source.as_str();
    let mut kept: String = head_within(source, chars, keep / 2).to_owned();
    kept.append(OMISSION_MARK);
    kept.append(tail_within(source, chars, keep - keep / 2));
    assert(kept@ =~= excerpt(source@, keep as nat));
    let mut fields: Vec<JsonField> = Vec::new();
    let mut i: usize = 0;
    while i < e.fields.len()
        invariant
            i <= e.fields.len(),
            json::fields_view(fields@) == json::fields_view(e.fields@).take(i as int),
        decreases e.fields.len() - i,
    {
        let field: JsonField = JsonField {
            name: e.fields[i].name.clone(),
            text: e.fields[i].text.clone(),
        };
        let ghost copied = json::fields_view(fields@);
        fields.push(field);
        i += 1;
        assert(json::fields_view(fields@) =~= copied.push(field@));
        assert(json::fields_view(fields@) =~= json::fields_view(e.fields@).take(i as int));
    }
    assert(json::fields_view(e.fields@).take(i as int) =~= json::fields_view(e.fields@));
    write_field(&mut fields, e.field, quote(kept.as_str()));
    print_object(&fields)
}

/// Shortens `content` so that it takes at most `budget` bytes as a JSON string, if that can
/// be done without losing the control fields; the caller has to look at the size. A result
/// that was shortened is a whole JSON object, never half of one.
pub fn bounded_result(content: &str, budget: usize) -> (r: String)
    ensures
        r@ == bounded(content@, budget as nat),
        json::json_size(content@) > budget ==> well_read(content@) && json::sound_fields(bounded_fields(content@, budget as nat)) && json::json_text(r@),
{
    if json_len(content) <= budget {
        return content.to_owned();
    }
    let parsed: Option<(Vec<JsonField>, String)> = split_output(content);
    bounded_parsed(content, parsed, budget)
}

/// Shortens `content`, given what was read of it: the fields and the `output` string of a
/// command result, or nothing where the result has another shape.
pub fn bounded_parsed(
    content: &str,
    parsed: Option<(Vec<JsonField>, String)>,
    budget: usize,
) -> (r: String)
    ensures
        r@ == bounded_from(content@, parsed_view(parsed), budget as nat),
        json::json_size(content@) > budget && sound_parts(parsed_view(parsed))
            ==> json::sound_fields(
            filled(envelope(content@, parsed_view(parsed), budget as nat), budget as nat),
        ) && json::json_text(r@),
{
    let size: usize = json_len(content);
    if size <= budget {
        return content.to_owned();
    }
    let ghost given = parsed_view(parsed);
    let e: Envelope = build_envelope(content, parsed, budget);
    let chars: Vec<char> = chars_of(e.source.as_str());
    let source_bytes: usize = byte_len(e.source.as_str());
    let top: usize = if source_bytes < budget {
        source_bytes
    } else {
        budget
    };
    let ghost view = e@;
    let ghost limit = budget as nat;
    let mut low: usize = 0;
    let mut high: usize = top;
    let mut best: String = print_object(&e.fields);
    let mut none: bool = false;
    while low <= high && !none
        invariant
            view == e@,
            chars@ == view.source,
            limit == budget,
            top < usize::MAX,
            high <= top,
            low <= high + 1,
            low == 0 ==> best@ == json::object_text(view.fields),
            low > 0 ==> fits(view, limit, (low - 1) as nat) && best@ == candidate(
                view,
                (low - 1) as nat,
            ),
            high < top ==> !fits(view, limit, (high + 1) as nat),
            none ==> low == 0 && !fits(view, limit, 0),
        decreases high + 1 - low, (if none { 0int } else { 1int }),
    {
        let keep: usize = low + (high - low) / 2;
        let text: String = print_excerpt(&e, &chars, keep);
        if json_len(text.as_str()) <= budget {
            best = text;
            low = keep + 1;
        } else if keep == 0 {
            none = true;
        } else {
            high = keep - 1;
        }
    }
    proof {
        if low == 0 {
            assert(!fits(view, limit, 0));
            lemma_largest_none(view, limit, top as nat);
        } else {
            lemma_largest_is(view, limit, top as nat, (low - 1) as nat);
        }
        if sound_parts(given) {
            lemma_envelope_sound(content@, given, limit);
            json::lemma_object_is_json(filled(view, limit));
        }
    }
    best
}

proof fn lemma_without_keeps(fields: Seq<json::FieldView>, name: Seq<char>, other: Seq<char>)
    requires
        other != name,
    ensures
        json::get_field(json::without_field(fields, name), other) == json::get_field(fields, other),
    decreases fields.len(),
{
    if fields.len() > 0 && fields[0].0 != name {
        let rest = fields.drop_first();
        lemma_without_keeps(rest, name, other);
        assert(json::without_field(fields, name).drop_first() =~= json::without_field(rest, name));
    }
}

proof fn lemma_copied(
    base: Seq<json::FieldView>,
    from: Seq<json::FieldView>,
    name: Seq<char>,
    other: Seq<char>,
)
    ensures
        json::get_field(base, name) is None ==> json::get_field(
            with_copied(base, from, name),
            name,
        ) == json::get_field(from, name),
        other != name ==> json::get_field(with_copied(base, from, name), other) == json::get_field(
            base,
            other,
        ),
{
    match json::get_field(from, name) {
        Some(value) => json::lemma_set_get(base, name, value, other),
        None => {},
    }
}

/// The fields by which a running command is followed up.
pub open spec fn is_control_field(name: Seq<char>) -> bool {
    name == "status"@ || name == "exit_code"@ || name == "command_id"@ || name
        == "is_alt_screen_active"@
}

proof fn lemma_names_differ()
    ensures
        forall|name: Seq<char>| #[trigger]
            is_control_field(name) ==> name != TRUNCATION_KEY@ && name != "output"@ && name
                != "preview"@,
        "status"@ != "exit_code"@,
        "status"@ != "command_id"@,
        "status"@ != "is_alt_screen_active"@,
        "exit_code"@ != "command_id"@,
        "exit_code"@ != "is_alt_screen_active"@,
        "command_id"@ != "is_alt_screen_active"@,
        TRUNCATION_KEY@ != "output"@,
        TRUNCATION_KEY@ != "preview"@,
{
    reveal_strlit("status");
    reveal_strlit("exit_code");
    reveal_strlit("command_id");
    reveal_strlit("is_alt_screen_active");
    reveal_strlit("output");
    reveal_strlit("preview");
    reveal_strlit("_infinishell_truncated");
    assert("status"@.len() == 6 && "exit_code"@.len() == 9 && "command_id"@.len() == 10);
    assert("is_alt_screen_active"@.len() == 20 && "output"@.len() == 6 && "preview"@.len() == 7);
    assert(TRUNCATION_KEY@.len() == 22);
    assert("status"@[0] == 's' && "output"@[0] == 'o');
}

proof fn lemma_control_fields(from: Seq<json::FieldView>, original_bytes: nat, name: Seq<char>)
    requires
        is_control_field(name),
    ensures
        json::get_field(control_fields(from, original_bytes), name) == json::get_field(from, name),
        json::get_field(control_fields(from, original_bytes), TRUNCATION_KEY@) == Some(
            truncation_value(original_bytes),
        ),
{
    lemma_names_differ();
    let key = TRUNCATION_KEY@;
    let a = seq![(key, truncation_value(original_bytes))];
    let b = with_copied(a, from, "status"@);
    let c = with_copied(b, from, "exit_code"@);
    let d = with_copied(c, from, "command_id"@);
    reveal_with_fuel(json::get_field, 2);
    assert(is_control_field("status"@) && is_control_field("exit_code"@));
    assert(is_control_field("command_id"@) && is_control_field("is_alt_screen_active"@));
    lemma_copied(a, from, "status"@, name);
    lemma_copied(b, from, "exit_code"@, name);
    lemma_copied(c, from, "command_id"@, name);
    lemma_copied(d, from, "is_alt_screen_active"@, name);
    lemma_copied(a, from, "status"@, key);
    lemma_copied(b, from, "exit_code"@, key);
    lemma_copied(c, from, "command_id"@, key);
    lemma_copied(d, from, "is_alt_screen_active"@, key);
    lemma_copied(a, from, "status"@, "exit_code"@);
    lemma_copied(a, from, "status"@, "command_id"@);
    lemma_copied(b, from, "exit_code"@, "command_id"@);
    lemma_copied(a, from, "status"@, "is_alt_screen_active"@);
    lemma_copied(b, from, "exit_code"@, "is_alt_screen_active"@);
    lemma_copied(c, from, "command_id"@, "is_alt_screen_active"@);
}

/// A shortened command result still has the status, the exit code, the command id and the
/// screen mode of the whole one, whatever the budget.
pub proof fn law_control_fields_survive(content: Seq<char>, budget: nat, name: Seq<char>)
    requires
        output_of(content) is Some,
        is_control_field(name),
    ensures
        json::get_field(bounded_fields(content, budget), name) == json::get_field(
            json::json_object(content)->0,
            name,
        ),
{
    lemma_names_differ();
    let fields = json::json_object(content)->0;
    let kept = json::without_field(fields, "output"@);
    let value = truncation_value(text::utf8_len(content));
    lemma_without_keeps(fields, "output"@, name);
    json::lemma_set_get(kept, TRUNCATION_KEY@, value, name);
    json::lemma_set_get(
        json::set_field(kept, TRUNCATION_KEY@, value),
        "output"@,
        json::quoted(Seq::empty()),
        name,
    );
    let full = full_envelope(content, output_of(content)).fields;
    lemma_control_fields(full, text::utf8_len(content), name);
    lemma_text_leaves(content, budget, name);
}

/// Putting text into an envelope changes no other field.
proof fn lemma_text_leaves(content: Seq<char>, budget: nat, name: Seq<char>)
    requires
        name != envelope(content, output_of(content), budget).field,
    ensures
        json::get_field(bounded_fields(content, budget), name) == json::get_field(
            envelope(content, output_of(content), budget).fields,
            name,
        ),
{
    let e = envelope(content, output_of(content), budget);
    match kept_bytes(e, budget) {
        Some(keep) => json::lemma_set_get(
            e.fields,
            e.field,
            json::quoted(excerpt(e.source, keep)),
            name,
        ),
        None => {},
    }
}

/// Every shortened result says that it is partial and how long the whole one was.
pub proof fn law_shortened_results_are_marked(content: Seq<char>, budget: nat)
    ensures
        json::get_field(bounded_fields(content, budget), TRUNCATION_KEY@) == Some(
            truncation_value(text::utf8_len(content)),
        ),
{
    lemma_names_differ();
    let value = truncation_value(text::utf8_len(content));
    let kept = match output_of(content) {
        Some((fields, _output)) => fields,
        None => Seq::empty(),
    };
    let field = full_envelope(content, output_of(content)).field;
    json::lemma_set_get(kept, TRUNCATION_KEY@, value, TRUNCATION_KEY@);
    json::lemma_set_get(
        json::set_field(kept, TRUNCATION_KEY@, value),
        field,
        json::quoted(Seq::empty()),
        TRUNCATION_KEY@,
    );
    assert(is_control_field("status"@));
    lemma_control_fields(full_envelope(content, output_of(content)).fields, text::utf8_len(content), "status"@);
    lemma_text_leaves(content, budget, TRUNCATION_KEY@);
}

/// Where the whole set of fields fits, shortening loses none of them.
pub proof fn law_all_fields_survive_where_they_fit(
    content: Seq<char>,
    budget: nat,
    name: Seq<char>,
)
    requires
        output_of(content) is Some,
        json::json_size(json::object_text(full_envelope(content, output_of(content)).fields)) <= budget,
        name != "output"@,
        name != TRUNCATION_KEY@,
    ensures
        json::get_field(bounded_fields(content, budget), name) == json::get_field(
            json::json_object(content)->0,
            name,
        ),
{
    let fields = json::json_object(content)->0;
    let kept = json::without_field(fields, "output"@);
    let value = truncation_value(text::utf8_len(content));
    lemma_without_keeps(fields, "output"@, name);
    json::lemma_set_get(kept, TRUNCATION_KEY@, value, name);
    json::lemma_set_get(
        json::set_field(kept, TRUNCATION_KEY@, value),
        "output"@,
        json::quoted(Seq::empty()),
        name,
    );
    lemma_text_leaves(content, budget, name);
}

/// Bytes that some fields take in an object that stands in a JSON string, with a comma for each.
spec fn weight(fields: Seq<json::FieldView>) -> nat
    decreases fields.len(),
{
    if fields.len() == 0 {
        0
    } else {
        member_weight(fields[0]) + weight(fields.drop_first())
    }
}

spec fn member_weight(field: json::FieldView) -> nat {
    text::utf8_len(json::escape(json::member(field))) + 1
}

proof fn lemma_weight_concat(a: Seq<json::FieldView>, b: Seq<json::FieldView>)
    ensures
        weight(a + b) == weight(a) + weight(b),
    decreases a.len(),
{
    if a.len() == 0 {
        assert(a + b =~= b);
    } else {
        lemma_weight_concat(a.drop_first(), b);
        assert((a + b).drop_first() =~= a.drop_first() + b);
    }
}

proof fn lemma_plain_char_size(c: char)
    requires
        c == '{' || c == '}' || c == ',',
    ensures
        text::utf8_len(json::escape(seq![c])) == 1,
{
    reveal_with_fuel(json::escape, 2);
    assert(seq![c].drop_last() =~= Seq::<char>::empty());
    assert(json::escape(seq![c]) =~= seq![c]);
    text::lemma_utf8_single(c);
    assert(text::char_width(c) == 1);
}

proof fn lemma_members_size(fields: Seq<json::FieldView>)
    requires
        fields.len() > 0,
    ensures
        text::utf8_len(json::escape(json::members(fields))) + 1 == weight(fields),
    decreases fields.len(),
{
    if fields.len() == 1 {
        reveal_with_fuel(weight, 2);
    } else {
        let front = fields.drop_last();
        let last = seq![fields.last()];
        lemma_members_size(front);
        lemma_plain_char_size(',');
        assert(fields =~= front + last);
        lemma_weight_concat(front, last);
        reveal_with_fuel(weight, 2);
        assert(last.drop_first() =~= Seq::<json::FieldView>::empty());
        let x = json::members(front);
        let y = json::member(fields.last());
        json::lemma_escape_concat(x + seq![','], y);
        json::lemma_escape_concat(x, seq![',']);
        text::lemma_encode_concat(json::escape(x + seq![',']), json::escape(y));
        text::lemma_encode_concat(json::escape(x), json::escape(seq![',']));
    }
}

proof fn lemma_object_size(fields: Seq<json::FieldView>)
    requires
        fields.len() > 0,
    ensures
        json::json_size(json::object_text(fields)) == weight(fields) + 3,
{
    let inner = json::members(fields);
    lemma_members_size(fields);
    lemma_plain_char_size('{');
    lemma_plain_char_size('}');
    json::lemma_json_size_covers(json::object_text(fields));
    json::lemma_escape_concat(seq!['{'] + inner, seq!['}']);
    json::lemma_escape_concat(seq!['{'], inner);
    text::lemma_encode_concat(json::escape(seq!['{'] + inner), json::escape(seq!['}']));
    text::lemma_encode_concat(json::escape(seq!['{']), json::escape(inner));
}

proof fn lemma_weight_set(fields: Seq<json::FieldView>, name: Seq<char>, text: Seq<char>)
    requires
        json::get_field(fields, name) is None,
    ensures
        weight(json::set_field(fields, name, text)) == weight(fields) + member_weight((name, text)),
        json::set_field(fields, name, text).len() > 0,
    decreases fields.len(),
{
    let one = seq![(name, text)];
    reveal_with_fuel(weight, 2);
    assert(one.drop_first() =~= Seq::<json::FieldView>::empty());
    if fields.len() > 0 {
        if text::text_lt(name, fields[0].0) {
            lemma_weight_concat(one, fields);
        } else {
            let rest = fields.drop_first();
            let first = seq![fields[0]];
            lemma_weight_set(rest, name, text);
            assert(first.drop_first() =~= Seq::<json::FieldView>::empty());
            lemma_weight_concat(first, json::set_field(rest, name, text));
        }
    }
}

/// What the field `name` takes, where it is there.
spec fn field_weight(fields: Seq<json::FieldView>, name: Seq<char>) -> nat {
    match json::get_field(fields, name) {
        Some(value) => member_weight((name, value)),
        None => 0,
    }
}

proof fn lemma_weight_without(fields: Seq<json::FieldView>, name: Seq<char>)
    ensures
        weight(fields) == weight(json::without_field(fields, name)) + field_weight(fields, name),
    decreases fields.len(),
{
    if fields.len() > 0 && fields[0].0 != name {
        let rest = fields.drop_first();
        let first = seq![fields[0]];
        lemma_weight_without(rest, name);
        reveal_with_fuel(weight, 2);
        assert(first.drop_first() =~= Seq::<json::FieldView>::empty());
        lemma_weight_concat(first, json::without_field(rest, name));
    }
}

proof fn lemma_weight_copied(
    base: Seq<json::FieldView>,
    from: Seq<json::FieldView>,
    name: Seq<char>,
)
    requires
        base.len() > 0,
        json::get_field(base, name) is None,
    ensures
        weight(with_copied(base, from, name)) == weight(base) + field_weight(from, name),
        with_copied(base, from, name).len() > 0,
{
    if let Some(value) = json::get_field(from, name) {
        lemma_weight_set(base, name, value);
    }
}

/// The control fields take no more room than the fields that they are copied from.
proof fn lemma_control_fields_are_fewer(from: Seq<json::FieldView>, original_bytes: nat)
    requires
        json::get_field(from, TRUNCATION_KEY@) == Some(truncation_value(original_bytes)),
    ensures
        control_fields(from, original_bytes).len() > 0,
        weight(control_fields(from, original_bytes)) <= weight(from),
{
    lemma_names_differ();
    reveal_with_fuel(json::get_field, 2);
    let key = TRUNCATION_KEY@;
    let s = "status"@;
    let x = "exit_code"@;
    let c = "command_id"@;
    let i = "is_alt_screen_active"@;
    assert(is_control_field(s) && is_control_field(x) && is_control_field(c) && is_control_field(i));
    let a = seq![(key, truncation_value(original_bytes))];
    let b = with_copied(a, from, s);
    let d = with_copied(b, from, x);
    let e = with_copied(d, from, c);
    lemma_copied(a, from, s, x);
    lemma_copied(a, from, s, c);
    lemma_copied(b, from, x, c);
    lemma_copied(a, from, s, i);
    lemma_copied(b, from, x, i);
    lemma_copied(d, from, c, i);
    lemma_weight_copied(a, from, s);
    lemma_weight_copied(b, from, x);
    lemma_weight_copied(d, from, c);
    lemma_weight_copied(e, from, i);
    reveal_with_fuel(weight, 2);
    assert(a.drop_first() =~= Seq::<json::FieldView>::empty());
    let f1 = json::without_field(from, s);
    let f2 = json::without_field(f1, x);
    let f3 = json::without_field(f2, c);
    let f4 = json::without_field(f3, i);
    lemma_weight_without(from, s);
    lemma_weight_without(f1, x);
    lemma_weight_without(f2, c);
    lemma_weight_without(f3, i);
    lemma_weight_without(f4, key);
    lemma_without_keeps(from, s, x);
    lemma_without_keeps(from, s, c);
    lemma_without_keeps(from, s, i);
    lemma_without_keeps(from, s, key);
    lemma_without_keeps(f1, x, c);
    lemma_without_keeps(f1, x, i);
    lemma_without_keeps(f1, x, key);
    lemma_without_keeps(f2, c, i);
    lemma_without_keeps(f2, c, key);
    lemma_without_keeps(f3, i, key);
}

/// The smallest form of a result: the mark and the fields by which a command is followed up.
pub open spec fn smallest_form(
    content: Seq<char>,
    parsed: Option<(Seq<json::FieldView>, Seq<char>)>,
) -> Seq<char> {
    json::object_text(
        control_fields(full_envelope(content, parsed).fields, text::utf8_len(content)),
    )
}

/// A result that is too large to go out whole is brought under its budget exactly where the
/// budget has room for its smallest form.
pub proof fn law_bounded_within_budget(
    content: Seq<char>,
    parsed: Option<(Seq<json::FieldView>, Seq<char>)>,
    budget: nat,
)
    requires
        json::json_size(content) > budget,
    ensures
        json::json_size(bounded_from(content, parsed, budget)) <= budget <==> json::json_size(
            smallest_form(content, parsed),
        ) <= budget,
{
    let e = envelope(content, parsed, budget);
    let full = full_envelope(content, parsed);
    let size = text::utf8_len(content);
    let value = truncation_value(size);
    let small = control_fields(full.fields, size);
    let len = text::utf8_len(e.source);
    let kept = match parsed {
        Some((fields, _)) => fields,
        None => Seq::empty(),
    };
    let marked = json::set_field(kept, TRUNCATION_KEY@, value);
    lemma_found_fits(
        e,
        budget,
        if len < budget {
            len
        } else {
            budget
        },
    );
    lemma_names_differ();
    json::lemma_set_get(kept, TRUNCATION_KEY@, value, TRUNCATION_KEY@);
    json::lemma_set_get(marked, full.field, json::quoted(Seq::empty()), TRUNCATION_KEY@);
    lemma_control_fields_are_fewer(full.fields, size);
    assert(full.fields.len() > 0);
    lemma_object_size(full.fields);
    lemma_object_size(small);
    if json::json_size(json::object_text(full.fields)) > budget {
        if let Some(keep) = kept_bytes(e, budget) {
            let text = json::quoted(excerpt(e.source, keep));
            lemma_no_text_field(full.fields, size, "preview"@);
            lemma_weight_set(small, "preview"@, text);
            lemma_object_size(candidate_fields(e, keep));
        }
    }
}

proof fn lemma_found_fits(e: EnvelopeView, budget: nat, keep: nat)
    ensures
        match largest_fit(e, budget, keep) {
            Some(found) => found <= keep && fits(e, budget, found),
            None => true,
        },
    decreases keep,
{
    if !fits(e, budget, keep) && keep > 0 {
        lemma_found_fits(e, budget, (keep - 1) as nat);
    }
}

/// A result that was brought under its budget is left alone when it is sent again.
pub proof fn law_bounding_twice_changes_nothing(content: Seq<char>, budget: nat)
    requires
        json::json_size(bounded(content, budget)) <= budget,
    ensures
        bounded(bounded(content, budget), budget) == bounded(content, budget),
{
}

/// What is kept of a text is its beginning and its end, each within half of the bytes kept.
pub proof fn law_excerpt_is_head_and_tail(source: Seq<char>, keep: nat)
    ensures
        ({
            let head = source.take(text::head_chars(source, keep / 2) as int);
            let tail = source.skip(
                source.len() - text::tail_chars(source, (keep - keep / 2) as nat),
            );
            &&& excerpt(source, keep) == head + OMISSION_MARK@ + tail
            &&& head.is_prefix_of(source)
            &&& tail.is_suffix_of(source)
            &&& text::utf8_len(head) <= keep / 2
            &&& text::utf8_len(tail) <= keep - keep / 2
        }),
{
    text::lemma_head_chars(source, keep / 2);
    text::lemma_tail_chars(source, (keep - keep / 2) as nat);
}

/// The mark stands at one place only: a head cannot be longer than another one with the same
/// excerpt.
proof fn lemma_mark_not_later(s: Seq<char>, k: nat, t: Seq<char>, l: nat)
    requires
        k <= text::utf8_len(s),
        l <= text::utf8_len(t),
        excerpt(s, k) == excerpt(t, l),
    ensures
        head_of(s, k).len() <= head_of(t, l).len(),
{
    let mark = OMISSION_MARK@;
    let all = excerpt(s, k);
    let a = head_of(s, k);
    let b = head_of(t, l);
    let a_end = tail_of(s, k);
    let b_end = tail_of(t, l);
    if a.len() > b.len() {
        let d = a.len() - b.len();
        let extra = a.skip(b.len() as int);
        text::lemma_head_chars(s, k / 2);
        text::lemma_tail_fills(s, (k - k / 2) as nat);
        text::lemma_head_fills(t, l / 2);
        text::lemma_tail_chars(t, (l - l / 2) as nat);
        text::lemma_encode_concat(a + mark, a_end);
        text::lemma_encode_concat(a, mark);
        text::lemma_encode_concat(b + mark, b_end);
        text::lemma_encode_concat(b, mark);
        assert(a =~= b + extra) by {
            assert(a =~= all.take(a.len() as int));
            assert(b =~= all.take(b.len() as int));
        }
        text::lemma_encode_concat(b, extra);
        text::lemma_bytes_cover_chars(extra);
        assert(d <= 3);
        reveal_strlit("\n[... omitted ...]\n");
        assert(all[a.len() as int] == mark[0]);
        assert(all[b.len() + d] == mark[d]);
    }
}

/// An excerpt shows which head and which tail it keeps.
proof fn lemma_excerpt_unique(s: Seq<char>, k: nat, t: Seq<char>, l: nat)
    requires
        k <= text::utf8_len(s),
        l <= text::utf8_len(t),
        excerpt(s, k) == excerpt(t, l),
    ensures
        head_of(s, k) == head_of(t, l),
        tail_of(s, k) == tail_of(t, l),
{
    let all = excerpt(s, k);
    let cut = head_of(s, k).len() as int;
    lemma_mark_not_later(s, k, t, l);
    lemma_mark_not_later(t, l, s, k);
    assert(head_of(s, k) =~= all.take(cut));
    assert(head_of(t, l) =~= all.take(cut));
    assert(tail_of(s, k) =~= all.skip(cut + OMISSION_MARK@.len()));
    assert(tail_of(t, l) =~= all.skip(cut + OMISSION_MARK@.len()));
}

/// Where the text of a shortened result stands.
proof fn lemma_text_field(
    content: Seq<char>,
    parsed: Option<(Seq<json::FieldView>, Seq<char>)>,
    budget: nat,
)
    ensures
        ({
            let e = envelope(content, parsed, budget);
            let fields = filled(e, budget);
            &&& e.field == "output"@ || e.field == "preview"@
            &&& json::get_field(fields, "output"@) is Some <==> e.field == "output"@
            &&& match kept_bytes(e, budget) {
                Some(keep) => keep <= text::utf8_len(e.source) && json::get_field(fields, e.field)
                    == Some(json::quoted(excerpt(e.source, keep))),
                None => json::get_field(fields, e.field) is Some ==> json::get_field(
                    fields,
                    e.field,
                ) == Some(json::quoted(Seq::empty())),
            }
        }),
{
    lemma_names_differ();
    reveal_strlit("output");
    reveal_strlit("preview");
    assert("output"@.len() != "preview"@.len());
    let value = truncation_value(text::utf8_len(content));
    let e = envelope(content, parsed, budget);
    let full = full_envelope(content, parsed);
    let kept = match parsed {
        Some((fields, _)) => fields,
        None => Seq::empty(),
    };
    let marked = json::set_field(kept, TRUNCATION_KEY@, value);
    let empty = json::quoted(Seq::empty());
    json::lemma_set_get(kept, TRUNCATION_KEY@, value, "output"@);
    json::lemma_set_get(marked, full.field, empty, "output"@);
    lemma_no_text_field(full.fields, text::utf8_len(content), "output"@);
    lemma_no_text_field(full.fields, text::utf8_len(content), "preview"@);
    if let Some(keep) = kept_bytes(e, budget) {
        let len = text::utf8_len(e.source);
        json::lemma_set_get(
            e.fields,
            e.field,
            json::quoted(excerpt(e.source, keep)),
            "output"@,
        );
        lemma_found_fits(
            e,
            budget,
            if len < budget {
                len
            } else {
                budget
            },
        );
    }
}

/// The control fields hold no text of the result.
proof fn lemma_no_text_field(from: Seq<json::FieldView>, original_bytes: nat, name: Seq<char>)
    requires
        name == "output"@ || name == "preview"@,
    ensures
        json::get_field(control_fields(from, original_bytes), name) is None,
{
    lemma_names_differ();
    reveal_with_fuel(json::get_field, 2);
    assert(is_control_field("status"@) && is_control_field("exit_code"@));
    assert(is_control_field("command_id"@) && is_control_field("is_alt_screen_active"@));
    let a = seq![(TRUNCATION_KEY@, truncation_value(original_bytes))];
    let b = with_copied(a, from, "status"@);
    let c = with_copied(b, from, "exit_code"@);
    let d = with_copied(c, from, "command_id"@);
    lemma_copied(a, from, "status"@, name);
    lemma_copied(b, from, "exit_code"@, name);
    lemma_copied(c, from, "command_id"@, name);
    lemma_copied(d, from, "is_alt_screen_active"@, name);
}

/// Results that differ in the head or in the tail that is kept of them are shortened to
/// different texts, whatever else they hold and whatever their budgets are.
pub proof fn law_kept_ends_show(
    a: Seq<char>,
    a_parsed: Option<(Seq<json::FieldView>, Seq<char>)>,
    a_budget: nat,
    b: Seq<char>,
    b_parsed: Option<(Seq<json::FieldView>, Seq<char>)>,
    b_budget: nat,
)
    requires
        sound_parts(a_parsed),
        sound_parts(b_parsed),
        json::json_size(a) > a_budget,
        json::json_size(b) > b_budget,
        kept_ends(envelope(a, a_parsed, a_budget), a_budget) != kept_ends(
            envelope(b, b_parsed, b_budget),
            b_budget,
        ),
    ensures
        bounded_from(a, a_parsed, a_budget) != bounded_from(b, b_parsed, b_budget),
{
    let x = envelope(a, a_parsed, a_budget);
    let y = envelope(b, b_parsed, b_budget);
    let none = Seq::<char>::empty();
    if bounded_from(a, a_parsed, a_budget) == bounded_from(b, b_parsed, b_budget) {
        lemma_envelope_sound(a, a_parsed, a_budget);
        lemma_envelope_sound(b, b_parsed, b_budget);
        json_unique::law_objects_differ_in_text(filled(x, a_budget), filled(y, b_budget));
        lemma_text_field(a, a_parsed, a_budget);
        lemma_text_field(b, b_parsed, b_budget);
        match (kept_bytes(x, a_budget), kept_bytes(y, b_budget)) {
            (Some(k), Some(l)) => {
                json_unique::lemma_quoted_holds_one_text(
                    excerpt(x.source, k),
                    excerpt(y.source, l),
                );
                lemma_excerpt_unique(x.source, k, y.source, l);
            },
            (Some(k), None) => {
                json_unique::lemma_quoted_holds_one_text(excerpt(x.source, k), none);
                lemma_excerpt_not_empty(x.source, k);
            },
            (None, Some(l)) => {
                json_unique::lemma_quoted_holds_one_text(excerpt(y.source, l), none);
                lemma_excerpt_not_empty(y.source, l);
            },
            (None, None) => {},
        }
    }
}

proof fn lemma_excerpt_not_empty(source: Seq<char>, keep: nat)
    ensures
        excerpt(source, keep).len() > 0,
{
    reveal_strlit("\n[... omitted ...]\n");
}

proof fn lemma_keeps_at_least(e: EnvelopeView, budget: nat, least: nat, top: nat)
    requires
        least <= top,
        fits(e, budget, least),
    ensures
        largest_fit(e, budget, top) is Some,
        largest_fit(e, budget, top)->0 >= least,
    decreases top,
{
    if !fits(e, budget, top) {
        lemma_keeps_at_least(e, budget, least, (top - 1) as nat);
    }
}

/// Where eight bytes of the text fit, its first and its last character are kept.
proof fn lemma_ends_are_kept(e: EnvelopeView, budget: nat)
    requires
        8 <= budget,
        8 <= text::utf8_len(e.source),
        fits(e, budget, 8),
    ensures
        match kept_ends(e, budget) {
            Some((head, tail)) => {
                &&& head.len() > 0 && head[0] == e.source[0]
                &&& tail.len() > 0 && tail.last() == e.source.last()
            },
            None => false,
        },
{
    let s = e.source;
    let len = text::utf8_len(s);
    lemma_keeps_at_least(
        e,
        budget,
        8,
        if len < budget {
            len
        } else {
            budget
        },
    );
    let keep = kept_bytes(e, budget)->0;
    text::lemma_no_bytes(s);
    text::lemma_utf8_single(s[0]);
    text::lemma_utf8_single(s.last());
    text::lemma_head_chars(s, keep / 2);
    text::lemma_tail_chars(s, (keep - keep / 2) as nat);
    assert(text::head_chars(s, keep / 2) > 0);
    assert(text::tail_chars(s, (keep - keep / 2) as nat) > 0);
}

/// Escaping twice takes at most seven bytes for one.
proof fn lemma_nested_bound(s: Seq<char>)
    ensures
        nested_size(s) <= 7 * text::utf8_len(s),
    decreases s.len(),
{
    if s.len() > 0 {
        let c = s.last();
        let one = seq![c];
        assert(s =~= s.drop_last() + one);
        lemma_nested_bound(s.drop_last());
        lemma_nested_concat(s.drop_last(), one);
        text::lemma_encode_concat(s.drop_last(), one);
        text::lemma_utf8_single(c);
        lemma_nested_char(c);
    } else {
        assert(json::escape(json::escape(s)) =~= s);
    }
}

proof fn lemma_escape_ascii(s: Seq<char>)
    requires
        forall|i: int| 0 <= i < s.len() ==> 0x20 <= #[trigger] s[i] as u32 && (s[i] as u32) < 0x80,
    ensures
        text::utf8_len(json::escape(s)) <= 2 * s.len(),
        (forall|i: int| 0 <= i < s.len() ==> #[trigger] s[i] != '"' && s[i] != '\\')
            ==> text::utf8_len(json::escape(s)) == s.len(),
    decreases s.len(),
{
    if s.len() > 0 {
        let rest = s.drop_last();
        let c = s[s.len() - 1];
        let e = json::escape_char(c);
        assert forall|i: int| 0 <= i < rest.len() implies 0x20 <= #[trigger] rest[i] as u32 && (
        rest[i] as u32) < 0x80 by {
            assert(rest[i] == s[i]);
        }
        if forall|i: int| 0 <= i < s.len() ==> #[trigger] s[i] != '"' && s[i] != '\\' {
            assert forall|i: int| 0 <= i < rest.len() implies #[trigger] rest[i] != '"' && rest[i]
                != '\\' by {
                assert(rest[i] == s[i]);
            }
        }
        lemma_escape_ascii(rest);
        text::lemma_encode_concat(json::escape(rest), e);
        text::lemma_utf8_single(c);
        text::lemma_utf8_single('\\');
        assert(text::char_width(c) == 1 && text::char_width('\\') == 1);
        if c == '"' || c == '\\' {
            assert(e =~= seq!['\\'] + seq![c]);
            text::lemma_encode_concat(seq!['\\'], seq![c]);
        } else {
            assert(e =~= seq![c]);
        }
    }
}

proof fn lemma_hex_digit_is_plain(v: int)
    requires
        0 <= v < 16,
    ensures
        0x20 <= json::hex_digit(v) as u32,
        (json::hex_digit(v) as u32) < 0x80,
        json::hex_digit(v) != '"',
        json::hex_digit(v) != '\\',
{
}

/// What stands behind the backslash of an escaped character takes at most five bytes more once
/// it is escaped again.
proof fn lemma_escaped_tail(c: char)
    requires
        json::escape_char(c).len() > 1,
    ensures
        json::escape_char(c)[0] == '\\',
        text::utf8_len(json::escape(json::escape_char(c).skip(1))) <= 5,
{
    let v = c as u32;
    let rest = json::escape_char(c).skip(1);
    if json::escape_char(c).len() == 2 {
        assert(rest.len() == 1);
        assert(0x20 <= rest[0] as u32 && (rest[0] as u32) < 0x80);
        lemma_escape_ascii(rest);
    } else {
        lemma_hex_digit_is_plain(v as int / 16);
        lemma_hex_digit_is_plain(v as int % 16);
        assert(rest =~= seq![
            'u',
            '0',
            '0',
            json::hex_digit(v as int / 16),
            json::hex_digit(v as int % 16),
        ]);
        lemma_escape_ascii(rest);
    }
}

proof fn lemma_nested_char(c: char)
    ensures
        nested_size(seq![c]) <= 7 * text::char_width(c),
{
    let one = seq![c];
    let e = json::escape_char(c);
    assert(json::escape(one) == e) by {
        reveal_with_fuel(json::escape, 2);
        assert(one.drop_last() =~= Seq::<char>::empty());
        assert(json::escape(one) =~= e);
    }
    text::lemma_utf8_single(c);
    if e.len() == 1 {
        assert(e =~= one);
    } else {
        let back = seq!['\\'];
        let rest = e.skip(1);
        lemma_escaped_tail(c);
        assert(e =~= back + rest);
        json::lemma_escape_concat(back, rest);
        text::lemma_encode_concat(json::escape(back), json::escape(rest));
        lemma_escape_ascii(back);
    }
}

/// Where the other fields leave room for 256 bytes, eight bytes of the text fit.
proof fn lemma_room_for_text(
    content: Seq<char>,
    parsed: Option<(Seq<json::FieldView>, Seq<char>)>,
    budget: nat,
)
    requires
        json::json_size(json::object_text(full_envelope(content, parsed).fields)) + 256 <= budget,
    ensures
        fits(envelope(content, parsed, budget), budget, 8),
{
    let e = envelope(content, parsed, budget);
    let none = Seq::<char>::empty();
    let value = truncation_value(text::utf8_len(content));
    let kept = match parsed {
        Some((fields, _)) => fields,
        None => Seq::empty(),
    };
    let marked = json::set_field(kept, TRUNCATION_KEY@, value);
    let x = excerpt(e.source, 8);
    let head = head_of(e.source, 8);
    let tail = tail_of(e.source, 8);
    lemma_set_twice(marked, e.field, json::quoted(none), json::quoted(x));
    lemma_size_by_text(marked, e.field, none, x);
    assert(json::escape(json::escape(none)) =~= none);
    lemma_nested_bound(x);
    text::lemma_head_chars(e.source, 4);
    text::lemma_tail_chars(e.source, 4);
    text::lemma_encode_concat(head + OMISSION_MARK@, tail);
    text::lemma_encode_concat(head, OMISSION_MARK@);
    lemma_mark_size();
}

proof fn lemma_mark_size()
    ensures
        text::utf8_len(OMISSION_MARK@) <= 19,
{
    reveal_strlit("\n[... omitted ...]\n");
    assert forall|i: int| 0 <= i < OMISSION_MARK@.len() implies text::char_width(
        #[trigger] OMISSION_MARK@[i],
    ) == 1 by {}
    lemma_narrow(OMISSION_MARK@);
}

proof fn lemma_narrow(s: Seq<char>)
    requires
        forall|i: int| 0 <= i < s.len() ==> text::char_width(#[trigger] s[i]) == 1,
    ensures
        text::utf8_len(s) == s.len(),
    decreases s.len(),
{
    text::lemma_no_bytes(s);
    if s.len() > 0 {
        let rest = s.drop_last();
        let last = s[s.len() - 1];
        assert forall|i: int| 0 <= i < rest.len() implies text::char_width(#[trigger] rest[i])
            == 1 by {
            assert(rest[i] == s[i]);
        }
        lemma_narrow(rest);
        assert(s =~= rest + seq![last]);
        text::lemma_encode_concat(rest, seq![last]);
        text::lemma_utf8_single(last);
    }
}

/// Setting a field twice is setting it once.
proof fn lemma_set_twice(
    fields: Seq<json::FieldView>,
    name: Seq<char>,
    first: Seq<char>,
    second: Seq<char>,
)
    ensures
        json::set_field(json::set_field(fields, name, first), name, second) == json::set_field(
            fields,
            name,
            second,
        ),
    decreases fields.len(),
{
    let once = json::set_field(fields, name, first);
    let all = json::set_field(fields, name, second);
    if fields.len() > 0 && fields[0].0 != name && !text::text_lt(name, fields[0].0) {
        lemma_set_twice(fields.drop_first(), name, first, second);
        assert(once.drop_first() =~= json::set_field(fields.drop_first(), name, first));
    }
    assert(json::set_field(once, name, second) =~= all);
}

/// Texts of at least eight bytes that start or end with different characters do not keep the
/// same ends, where the other fields leave room for 256 bytes.
pub proof fn law_other_start_or_end_is_kept(
    a: Seq<char>,
    a_parsed: Option<(Seq<json::FieldView>, Seq<char>)>,
    a_budget: nat,
    b: Seq<char>,
    b_parsed: Option<(Seq<json::FieldView>, Seq<char>)>,
    b_budget: nat,
)
    requires
        json::json_size(json::object_text(full_envelope(a, a_parsed).fields)) + 256 <= a_budget,
        json::json_size(json::object_text(full_envelope(b, b_parsed).fields)) + 256 <= b_budget,
        8 <= text::utf8_len(full_envelope(a, a_parsed).source),
        8 <= text::utf8_len(full_envelope(b, b_parsed).source),
        ({
            let x = full_envelope(a, a_parsed).source;
            let y = full_envelope(b, b_parsed).source;
            x[0] != y[0] || x.last() != y.last()
        }),
    ensures
        kept_ends(envelope(a, a_parsed, a_budget), a_budget) != kept_ends(
            envelope(b, b_parsed, b_budget),
            b_budget,
        ),
{
    lemma_room_for_text(a, a_parsed, a_budget);
    lemma_room_for_text(b, b_parsed, b_budget);
    lemma_ends_are_kept(envelope(a, a_parsed, a_budget), a_budget);
    lemma_ends_are_kept(envelope(b, b_parsed, b_budget), b_budget);
}

/// An object takes at least the bytes of each of its values.
pub proof fn lemma_field_takes_room(fields: Seq<json::FieldView>, name: Seq<char>)
    requires
        json::get_field(fields, name) is Some,
    ensures
        text::utf8_len(json::get_field(fields, name)->0) <= json::json_size(
            json::object_text(fields),
        ),
{
    let value = json::get_field(fields, name)->0;
    let front = json::quoted(name) + seq![':'];
    assert(fields.len() > 0);
    lemma_object_size(fields);
    lemma_weight_without(fields, name);
    assert(json::member((name, value)) =~= front + value);
    json::lemma_json_size_covers(json::member((name, value)));
    text::lemma_encode_concat(front, value);
}

/// A result counts as a command result exactly where it is a JSON object with a string in
/// `output`; the other fields are what is left of it.
pub proof fn law_command_results_are_objects_with_output(content: Seq<char>, name: Seq<char>)
    ensures
        output_of(content) is Some <==> json::json_object(content) is Some && json::get_field(
            json::json_object(content)->0,
            "output"@,
        ) is Some && json::json_string(
            json::get_field(json::json_object(content)->0, "output"@)->0,
        ) is Some,
        output_of(content) matches Some((fields, output)) ==> {
            let object = json::json_object(content)->0;
            &&& json::json_string(json::get_field(object, "output"@)->0) == Some(output)
            &&& name != "output"@ ==> json::get_field(fields, name) == json::get_field(object, name)
        },
{
    if output_of(content) is Some && name != "output"@ {
        lemma_without_keeps(json::json_object(content)->0, "output"@, name);
    }
}

/// A shortened result says in `_infinishell_truncated` that it is partial, how many bytes the
/// whole one has, and that commands with side effects are not to be run again.
pub proof fn law_mark_says_what_was_cut(content: Seq<char>, budget: nat)
    ensures
        json::get_field(bounded_fields(content, budget), "_infinishell_truncated"@) == Some(
            json::object_text(
                seq![
                    (
                        "note"@,
                        json::quoted(
                            "Partial tool output: the middle was omitted to fit the context budget. Full output remains in the local conversation. Use bounded reads or searches for missing details; do not repeat state-changing commands."@,
                        ),
                    ),
                    ("original_bytes"@, json::decimal(text::utf8_len(content))),
                ],
            ),
        ),
{
    law_shortened_results_are_marked(content, budget);
}

/// The text of a command result stays in `output` where its other fields fit, and goes to
/// `preview` where they do not; any other result is shown as a whole in `preview`.
pub proof fn law_where_the_text_goes(
    content: Seq<char>,
    parsed: Option<(Seq<json::FieldView>, Seq<char>)>,
    budget: nat,
)
    ensures
        ({
            let full = full_envelope(content, parsed);
            let e = envelope(content, parsed, budget);
            &&& e.source == match parsed {
                Some((_, output)) => output,
                None => content,
            }
            &&& json::json_size(json::object_text(full.fields)) <= budget ==> e.field == (
            if parsed is Some {
                "output"@
            } else {
                "preview"@
            })
            &&& json::json_size(json::object_text(full.fields)) > budget ==> e.field
                == "preview"@
            &&& match kept_bytes(e, budget) {
                Some(keep) => json::get_field(filled(e, budget), e.field) == Some(
                    json::quoted(excerpt(e.source, keep)),
                ),
                None => true,
            }
        }),
{
    lemma_text_field(content, parsed, budget);
}

/// As much of the text is kept as fits: no more of it would fit, up to the whole text and up to
/// the budget.
pub proof fn law_as_much_as_fits_is_kept(e: EnvelopeView, budget: nat, more: nat)
    requires
        more <= text::utf8_len(e.source),
        more <= budget,
    ensures
        match kept_bytes(e, budget) {
            Some(keep) => {
                &&& keep <= text::utf8_len(e.source)
                &&& keep <= budget
                &&& json::json_size(json::object_text(candidate_fields(e, keep))) <= budget
                &&& more > keep ==> json::json_size(json::object_text(candidate_fields(e, more)))
                    > budget
            },
            None => json::json_size(json::object_text(candidate_fields(e, more))) > budget,
        },
{
    let len = text::utf8_len(e.source);
    let top = if len < budget {
        len
    } else {
        budget
    };
    lemma_found_fits(e, budget, top);
    lemma_nothing_larger_fits(e, budget, top, more);
}

proof fn lemma_nothing_larger_fits(e: EnvelopeView, budget: nat, top: nat, more: nat)
    requires
        more <= top,
    ensures
        match largest_fit(e, budget, top) {
            Some(keep) => more > keep ==> !fits(e, budget, more),
            None => !fits(e, budget, more),
        },
    decreases top,
{
    if !fits(e, budget, top) && top > 0 && more < top {
        lemma_nothing_larger_fits(e, budget, (top - 1) as nat, more);
    }
}

/// An excerpt of `keep` bytes is the longest beginning within half of them and the longest end
/// within the other half, with the omission marked in between.
pub proof fn law_excerpt_keeps_the_longest_ends(source: Seq<char>, keep: nat, n: int)
    requires
        0 <= n <= source.len(),
    ensures
        exists|head: int, tail: int|
            0 <= head <= source.len() && 0 <= tail <= source.len() && excerpt(source, keep)
                == #[trigger] source.take(head) + "\n[... omitted ...]\n"@ + #[trigger] source.skip(
                tail,
            ) && text::utf8_len(source.take(head)) <= keep / 2 && text::utf8_len(source.skip(tail))
                <= keep - keep / 2 && (text::utf8_len(source.take(n)) <= keep / 2 ==> n <= head)
                && (text::utf8_len(source.skip(n)) <= keep - keep / 2 ==> tail <= n),
{
    let head = text::head_chars(source, keep / 2) as int;
    let tail = source.len() - text::tail_chars(source, (keep - keep / 2) as nat);
    text::lemma_head_chars(source, keep / 2);
    text::lemma_tail_chars(source, (keep - keep / 2) as nat);
    if text::utf8_len(source.take(n)) <= keep / 2 {
        text::law_longest_head(source, keep / 2, n);
    }
    text::law_longest_tail(source, (keep - keep / 2) as nat, n);
    assert(excerpt(source, keep) == source.take(head) + "\n[... omitted ...]\n"@ + source.skip(tail));
}

/// The smallest form holds the mark, the status, the exit code, the command id and the screen
/// mode, each as it was, and nothing else.
pub proof fn law_smallest_form_holds_control_fields_only(
    content: Seq<char>,
    parsed: Option<(Seq<json::FieldView>, Seq<char>)>,
    name: Seq<char>,
)
    ensures
        ({
            let fields = control_fields(
                full_envelope(content, parsed).fields,
                text::utf8_len(content),
            );
            let kept = match parsed {
                Some((fields, _)) => fields,
                None => Seq::empty(),
            };
            &&& smallest_form(content, parsed) == json::object_text(fields)
            &&& name == "status"@ || name == "exit_code"@ || name == "command_id"@ || name
                == "is_alt_screen_active"@ ==> json::get_field(fields, name) == json::get_field(
                kept,
                name,
            )
            &&& name != "status"@ && name != "exit_code"@ && name != "command_id"@ && name
                != "is_alt_screen_active"@ && name != "_infinishell_truncated"@ ==> json::get_field(
                fields,
                name,
            ) is None
        }),
{
    lemma_names_differ();
    reveal_with_fuel(json::get_field, 2);
    let value = truncation_value(text::utf8_len(content));
    let full = full_envelope(content, parsed);
    let kept = match parsed {
        Some((fields, _)) => fields,
        None => Seq::empty(),
    };
    let marked = json::set_field(kept, TRUNCATION_KEY@, value);
    if is_control_field(name) {
        json::lemma_set_get(kept, TRUNCATION_KEY@, value, name);
        json::lemma_set_get(marked, full.field, json::quoted(Seq::empty()), name);
        lemma_control_fields(full.fields, text::utf8_len(content), name);
    } else {
        let a = seq![(TRUNCATION_KEY@, value)];
        let b = with_copied(a, full.fields, "status"@);
        let c = with_copied(b, full.fields, "exit_code"@);
        let d = with_copied(c, full.fields, "command_id"@);
        lemma_copied(a, full.fields, "status"@, name);
        lemma_copied(b, full.fields, "exit_code"@, name);
        lemma_copied(c, full.fields, "command_id"@, name);
        lemma_copied(d, full.fields, "is_alt_screen_active"@, name);
    }
}

/// A command result that was written with its output, and whose other fields are plain values,
/// gives back both.
pub proof fn law_written_result_is_read_back(
    content: Seq<char>,
    fields: Seq<json::FieldView>,
    output: Seq<char>,
)
    requires
        well_read(content),
        json::plain_fields(fields),
        json::get_field(fields, "output"@) is None,
        content == json::object_text(json::set_field(fields, "output"@, json::quoted(output))),
    ensures
        output_of(content) == Some((fields, output)),
{
    assert(written(content, fields, output));
}

} // verus!
