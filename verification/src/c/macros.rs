//! The macros at the top of the source file, and their names.
use vstd::prelude::*;
use crate::ast::{Type, TypeView};
use crate::c::model::{
    ElementView, FieldKindView, FieldView, MessageFieldKind, MessageFieldModel, MessageModel,
    MessageView, SequenceElement, StructFieldLayout, StructFieldView,
};
use crate::c::names::{screaming, screaming_message_token, to_screaming_snake};
use crate::c::tables::{storage, stored_size, Enums, Tables};
use crate::c::types::{field_has_scalars, message_has_scalars, scalar_of};
use crate::concat::{views, Path, Text};
use crate::numerals::{
    decimal, decimal_text, digit_value, digits_value, hex, hex_text, law_numerals_can_be_read_back,
    numeral,
};
use crate::text::{is_empty, join, joined, owned};

verus! {

broadcast use {
    crate::concat::group_append,
    crate::concat::group_lines,
    crate::concat::group_views,
};

/// The lowest bit of a byte, as a C expression.
pub const BOOL_MASK_BIT0: &'static str = "(1 << 0)";

/// A macro for a number.
pub open spec fn number_macro(name: Text, n: nat) -> Text {
    "#define "@ + name + " ("@ + decimal(n) + ")"@
}

/// A macro for a number.
pub fn define_number(name: &str, n: u64) -> (r: String)
    ensures
        r@ == number_macro(name@, n as nat),
{
    let mut r = owned("#define ");
    r.push_str(name);
    r.push_str(" (");
    r.push_str(decimal_text(n as u128).as_str());
    r.push_str(")");
    r
}

/// The prefix of a field's macros.
pub open spec fn field_token(m: MessageView, field: FieldView) -> Text {
    screaming(m.name) + "_"@ + screaming(field.name)
}

fn field_token_of(m: &MessageModel, field: &MessageFieldModel) -> (r: String)
    ensures
        r@ == field_token(m@, field@),
{
    let mut r = screaming_message_token(m.name.as_str());
    r.push_str("_");
    r.push_str(to_screaming_snake(field.name.as_str()).as_str());
    r
}

/// The prefix of the macros of a member of a sequence's elements.
pub open spec fn sub_token(m: MessageView, field: FieldView, sub: StructFieldView) -> Text {
    field_token(m, field) + "_"@ + screaming(sub.name)
}

fn sub_token_of(m: &MessageModel, field: &MessageFieldModel, sub: &StructFieldLayout) -> (r: String)
    ensures
        r@ == sub_token(m@, field@, sub@),
{
    let mut r = field_token_of(m, field);
    r.push_str("_");
    r.push_str(to_screaming_snake(sub.name.as_str()).as_str());
    r
}

/// The name of the macro for the offset of a field's value.
pub open spec fn index_name(m: MessageView, field: FieldView) -> Text {
    field_token(m, field) + "_INDEX"@
}

/// The name of the macro for the offset of a field's value.
pub fn index_name_of(m: &MessageModel, field: &MessageFieldModel) -> (r: String)
    ensures
        r@ == index_name(m@, field@),
{
    let mut r = field_token_of(m, field);
    r.push_str("_INDEX");
    r
}

/// The name of the macro for the offset of a sequence's header.
pub open spec fn placeholder_name(m: MessageView, field: FieldView) -> Text {
    field_token(m, field) + "_PLACEHOLDER"@ + "_INDEX"@
}

/// The name of the macro for the offset of a sequence's header.
pub fn placeholder_name_of(m: &MessageModel, field: &MessageFieldModel) -> (r: String)
    ensures
        r@ == placeholder_name(m@, field@),
{
    let mut r = field_token_of(m, field);
    r.push_str("_PLACEHOLDER");
    r.push_str("_INDEX");
    r
}

/// The name of the macro for the offset of a member of a sequence's elements.
pub open spec fn sub_index_name(m: MessageView, field: FieldView, sub: StructFieldView) -> Text {
    sub_token(m, field, sub) + "_INDEX"@
}

/// The name of the macro for the offset of a member of a sequence's elements.
pub fn sub_index_name_of(
    m: &MessageModel,
    field: &MessageFieldModel,
    sub: &StructFieldLayout,
) -> (r: String)
    ensures
        r@ == sub_index_name(m@, field@, sub@),
{
    let mut r = sub_token_of(m, field, sub);
    r.push_str("_INDEX");
    r
}

/// Which number a macro gives: a byte offset or an ordinal.
#[derive(Debug, Clone, Copy, PartialEq, Eq, Structural)]
pub enum Numbering {
    Index,
    Ordinal,
}

/// What the names of these macros end in.
pub open spec fn ending(kind: Numbering) -> Text {
    match kind {
        Numbering::Index => "_INDEX"@,
        Numbering::Ordinal => "_ORDINAL"@,
    }
}

fn ending_of(kind: Numbering) -> (r: &'static str)
    ensures
        r@ == ending(kind),
{
    match kind {
        Numbering::Index => "_INDEX",
        Numbering::Ordinal => "_ORDINAL",
    }
}

/// The number of a field.
pub open spec fn field_number(field: FieldView, kind: Numbering) -> nat {
    match kind {
        Numbering::Index => field.offset,
        Numbering::Ordinal => field.ordinal as nat,
    }
}

fn field_number_of(field: &MessageFieldModel, kind: Numbering) -> (r: u64)
    ensures
        r == field_number(field@, kind),
{
    match kind {
        Numbering::Index => field.offset as u64,
        Numbering::Ordinal => field.ordinal as u64,
    }
}

/// The number of a member of a sequence's elements: its offset in the element,
/// or the ordinal of the sequence.
pub open spec fn sub_number(field: FieldView, sub: StructFieldView, kind: Numbering) -> nat {
    match kind {
        Numbering::Index => sub.offset,
        Numbering::Ordinal => field.ordinal as nat,
    }
}

fn sub_number_of(field: &MessageFieldModel, sub: &StructFieldLayout, kind: Numbering) -> (r: u64)
    ensures
        r == sub_number(field@, sub@, kind),
{
    match kind {
        Numbering::Index => sub.offset as u64,
        Numbering::Ordinal => field.ordinal as u64,
    }
}

/// The number of the data of a sequence of primitives.
pub open spec fn data_number(field: FieldView, kind: Numbering) -> nat {
    match kind {
        Numbering::Index => 0,
        Numbering::Ordinal => field.ordinal as nat,
    }
}

fn data_number_of(field: &MessageFieldModel, kind: Numbering) -> (r: u64)
    ensures
        r == data_number(field@, kind),
{
    match kind {
        Numbering::Index => 0,
        Numbering::Ordinal => field.ordinal as u64,
    }
}

/// The prefix of the macro for the data of a sequence of primitives: for its
/// offset in the element that of the field, under which the accessors find it.
pub open spec fn data_token(m: MessageView, field: FieldView, kind: Numbering) -> Text {
    match kind {
        Numbering::Index => field_token(m, field),
        Numbering::Ordinal => field_token(m, field) + "_DATA"@,
    }
}

fn data_token_of(m: &MessageModel, field: &MessageFieldModel, kind: Numbering) -> (r: String)
    ensures
        r@ == data_token(m@, field@, kind),
{
    let mut r = field_token_of(m, field);
    match kind {
        Numbering::Index => {},
        Numbering::Ordinal => r.push_str("_DATA"),
    }
    r
}

/// The macros of the first `n` members of a sequence's elements.
pub open spec fn sub_macros(
    m: MessageView,
    field: FieldView,
    subs: Seq<StructFieldView>,
    kind: Numbering,
    n: nat,
) -> Seq<Text>
    decreases n,
{
    if n == 0 {
        Seq::empty()
    } else {
        sub_macros(m, field, subs, kind, (n - 1) as nat).push(
            number_macro(
                sub_token(m, field, subs[n - 1]) + ending(kind),
                sub_number(field, subs[n - 1], kind),
            ),
        )
    }
}

/// The macros of a sequence's elements.
pub open spec fn element_macros(
    m: MessageView,
    field: FieldView,
    element: ElementView,
    kind: Numbering,
) -> Seq<Text> {
    match element {
        ElementView::Struct(s) => sub_macros(m, field, s.fields, kind, s.fields.len()),
        ElementView::Primitive(_) => seq![
            number_macro(data_token(m, field, kind) + ending(kind), data_number(field, kind)),
        ],
    }
}

/// The macros of a field.
pub open spec fn field_macros(m: MessageView, field: FieldView, kind: Numbering) -> Seq<Text> {
    match field.kind {
        FieldKindView::Scalar(_) => seq![
            number_macro(field_token(m, field) + ending(kind), field_number(field, kind)),
        ],
        FieldKindView::Sequence(element) => seq![
            number_macro(
                field_token(m, field) + "_PLACEHOLDER"@ + ending(kind),
                field_number(field, kind),
            ),
        ] + element_macros(m, field, element, kind),
    }
}

/// The macros of the first `n` fields.
pub open spec fn fields_macros(m: MessageView, kind: Numbering, n: nat) -> Seq<Text>
    decreases n,
{
    if n == 0 {
        Seq::empty()
    } else {
        fields_macros(m, kind, (n - 1) as nat) + field_macros(m, m.fields[n - 1], kind)
    }
}

/// The macros of the message header: its key, its length, its largest ordinal.
pub open spec fn header_macros(m: MessageView, kind: Numbering) -> Seq<Text> {
    let token = screaming(m.name);
    let numbers: (nat, nat, nat) = match kind {
        Numbering::Index => (0, 4, 6),
        Numbering::Ordinal => (0, 1, 2),
    };
    seq![
        number_macro(token + "_MODULE_MESSAGE_KEY"@ + ending(kind), numbers.0),
        number_macro(token + "_LENGTH"@ + ending(kind), numbers.1),
        number_macro(token + "_MAX_ORDINAL"@ + ending(kind), numbers.2),
    ]
}

/// The index or ordinal macros of a message.
pub open spec fn message_macros(m: MessageView, kind: Numbering) -> Seq<Text> {
    header_macros(m, kind) + fields_macros(m, kind, m.fields.len())
}

fn define_suffixed(token: &str, middle: &str, kind: Numbering, n: u64) -> (r: String)
    ensures
        r@ == number_macro(token@ + middle@ + ending(kind), n as nat),
{
    let mut name = owned(token);
    name.push_str(middle);
    name.push_str(ending_of(kind));
    define_number(name.as_str(), n)
}

fn push_element_macros(
    out: &mut Vec<String>,
    m: &MessageModel,
    field: &MessageFieldModel,
    element: &SequenceElement,
    kind: Numbering,
)
    ensures
        views(final(out)@) == views(old(out)@) + element_macros(m@, field@, element@, kind),
{
    match element {
        SequenceElement::Struct(s) => {
            let ghost before = views(out@);
            for i in 0..s.fields.len()
                invariant
                    before == views(old(out)@),
                    views(out@) == before + sub_macros(m@, field@, s@.fields, kind, i as nat),
            {
                let sub = &s.fields[i];
                assert(s@.fields[i as int] == sub@);
                let mut name = sub_token_of(m, field, sub);
                name.push_str(ending_of(kind));
                out.push(define_number(name.as_str(), sub_number_of(field, sub, kind)));
            }
        },
        SequenceElement::Primitive(_) => {
            let mut name = data_token_of(m, field, kind);
            name.push_str(ending_of(kind));
            out.push(define_number(name.as_str(), data_number_of(field, kind)));
        },
    }
}

fn push_field_macros(
    out: &mut Vec<String>,
    m: &MessageModel,
    field: &MessageFieldModel,
    kind: Numbering,
)
    ensures
        views(final(out)@) == views(old(out)@) + field_macros(m@, field@, kind),
{
    let token = field_token_of(m, field);
    let number: u64 = field_number_of(field, kind);
    match &field.kind {
        MessageFieldKind::Scalar(_) => {
            let mut name = token;
            name.push_str(ending_of(kind));
            out.push(define_number(name.as_str(), number));
        },
        MessageFieldKind::Sequence(element) => {
            out.push(define_suffixed(token.as_str(), "_PLACEHOLDER", kind, number));
            push_element_macros(out, m, field, element, kind);
        },
    }
}

fn push_message_macros(out: &mut Vec<String>, m: &MessageModel, kind: Numbering)
    ensures
        views(final(out)@) == views(old(out)@) + message_macros(m@, kind),
{
    let token = screaming_message_token(m.name.as_str());
    let key_number: u64 = 0;
    let length_number: u64 = match kind {
        Numbering::Index => 4,
        Numbering::Ordinal => 1,
    };
    let max_number: u64 = match kind {
        Numbering::Index => 6,
        Numbering::Ordinal => 2,
    };
    out.push(define_suffixed(token.as_str(), "_MODULE_MESSAGE_KEY", kind, key_number));
    out.push(define_suffixed(token.as_str(), "_LENGTH", kind, length_number));
    out.push(define_suffixed(token.as_str(), "_MAX_ORDINAL", kind, max_number));
    let ghost before = views(out@);
    assert(before == views(old(out)@) + header_macros(m@, kind));
    for i in 0..m.fields.len()
        invariant
            before == views(old(out)@) + header_macros(m@, kind),
            views(out@) == before + fields_macros(m@, kind, i as nat),
    {
        assert(m@.fields[i as int] == m.fields@[i as int]@);
        push_field_macros(out, m, &m.fields[i], kind);
    }
}

/// Adds the macros for the byte offsets of a message.
pub fn collect_index_macros(m: &MessageModel, out: &mut Vec<String>)
    ensures
        views(final(out)@) == views(old(out)@) + message_macros(m@, Numbering::Index),
{
    push_message_macros(out, m, Numbering::Index);
}

/// Adds the macros for the ordinals of a message.
pub fn collect_ordinal_macros(m: &MessageModel, out: &mut Vec<String>)
    ensures
        views(final(out)@) == views(old(out)@) + message_macros(m@, Numbering::Ordinal),
{
    push_message_macros(out, m, Numbering::Ordinal);
}

/// The macro for the mask of a boolean.
pub open spec fn mask_macro(token: Text) -> Text {
    "#define "@ + token + "_MASK "@ + BOOL_MASK_BIT0@
}

fn define_mask(token: &str) -> (r: String)
    ensures
        r@ == mask_macro(token@),
{
    let mut r = owned("#define ");
    r.push_str(token);
    r.push_str("_MASK ");
    r.push_str(BOOL_MASK_BIT0);
    r
}

/// The mask macros of the booleans among the first `n` members of a sequence's
/// elements.
pub open spec fn sub_masks(
    m: MessageView,
    field: FieldView,
    subs: Seq<StructFieldView>,
    n: nat,
) -> Seq<Text>
    decreases n,
{
    if n == 0 {
        Seq::empty()
    } else {
        let before = sub_masks(m, field, subs, (n - 1) as nat);
        if subs[n - 1].ty is Boolean {
            before.push(mask_macro(sub_token(m, field, subs[n - 1])))
        } else {
            before
        }
    }
}

/// The mask macros of a field.
pub open spec fn field_masks(m: MessageView, field: FieldView) -> Seq<Text> {
    match field.kind {
        FieldKindView::Scalar(ty) => if ty is Boolean {
            seq![mask_macro(field_token(m, field))]
        } else {
            Seq::empty()
        },
        FieldKindView::Sequence(ElementView::Struct(s)) => sub_masks(
            m,
            field,
            s.fields,
            s.fields.len(),
        ),
        FieldKindView::Sequence(ElementView::Primitive(_)) => Seq::empty(),
    }
}

/// The mask macros of the first `n` fields.
pub open spec fn masks_upto(m: MessageView, n: nat) -> Seq<Text>
    decreases n,
{
    if n == 0 {
        Seq::empty()
    } else {
        masks_upto(m, (n - 1) as nat) + field_masks(m, m.fields[n - 1])
    }
}

fn push_field_masks(out: &mut Vec<String>, m: &MessageModel, field: &MessageFieldModel)
    ensures
        views(final(out)@) == views(old(out)@) + field_masks(m@, field@),
{
    match &field.kind {
        MessageFieldKind::Scalar(ty) => {
            if matches!(ty, Type::Boolean) {
                out.push(define_mask(field_token_of(m, field).as_str()));
            }
        },
        MessageFieldKind::Sequence(SequenceElement::Struct(s)) => {
            let ghost before = views(out@);
            for i in 0..s.fields.len()
                invariant
                    before == views(old(out)@),
                    views(out@) == before + sub_masks(m@, field@, s@.fields, i as nat),
            {
                let sub = &s.fields[i];
                assert(s@.fields[i as int] == sub@);
                if matches!(sub.ty, Type::Boolean) {
                    out.push(define_mask(sub_token_of(m, field, sub).as_str()));
                }
            }
        },
        MessageFieldKind::Sequence(SequenceElement::Primitive(_)) => {},
    }
}

/// Adds the macros for the masks of a message's booleans.
pub fn collect_bool_mask_macros(m: &MessageModel, out: &mut Vec<String>)
    ensures
        views(final(out)@) == views(old(out)@) + masks_upto(m@, m@.fields.len()),
{
    let ghost before = views(out@);
    for i in 0..m.fields.len()
        invariant
            before == views(old(out)@),
            views(out@) == before + masks_upto(m@, i as nat),
    {
        assert(m@.fields[i as int] == m.fields@[i as int]@);
        push_field_masks(out, m, &m.fields[i]);
    }
}

/// The bytes of one stored primitive element.
pub open spec fn primitive_bytes(ty: TypeView) -> u32 {
    match ty {
        TypeView::Boolean | TypeView::Char | TypeView::Octet => 1,
        TypeView::Short | TypeView::UnsignedShort => 2,
        TypeView::LongLong | TypeView::UnsignedLongLong | TypeView::Double => 8,
        _ => 4,
    }
}

/// An element takes the bytes that a value of its type takes inline. This leaves
/// out strings, whose elements are counted as one word.
pub proof fn law_element_size_is_wire_size(ty: TypeView)
    requires
        !(ty is String),
    ensures
        stored_size(ty) == Some(primitive_bytes(ty)),
{
}

fn stored_primitive_bytes(ty: &Type) -> (r: u32)
    ensures
        r == primitive_bytes(ty@),
{
    match ty {
        Type::Boolean | Type::Char | Type::Octet => 1,
        Type::Short | Type::UnsignedShort => 2,
        Type::LongLong | Type::UnsignedLongLong | Type::Double => 8,
        _ => 4,
    }
}

/// The bytes of one primitive element: an enumeration takes those of what stores
/// it.
pub fn primitive_element_byte_count(tables: &Tables, ty: &Type) -> (r: u32)
    requires
        scalar_of(tables@.enums, ty@) is Some,
    ensures
        r == primitive_bytes(storage(tables@.enums, ty@).unwrap()),
{
    match tables.storage_of(ty) {
        Some(t) => stored_primitive_bytes(&t),
        None => 0,
    }
}

/// The bytes from one element of a sequence to the next.
pub open spec fn element_bytes(enums: Enums, element: ElementView) -> nat {
    match element {
        ElementView::Struct(s) => s.element_size,
        ElementView::Primitive(ty) => primitive_bytes(
            storage(enums, ty).unwrap(),
        ) as nat,
    }
}

/// The macros for the element sizes of the sequences among the first `n` fields.
pub open spec fn byte_counts_upto(enums: Enums, m: MessageView, n: nat) -> Seq<Text>
    decreases n,
{
    if n == 0 {
        Seq::empty()
    } else {
        let before = byte_counts_upto(enums, m, (n - 1) as nat);
        match m.fields[n - 1].kind {
            FieldKindView::Scalar(_) => before,
            FieldKindView::Sequence(element) => before.push(
                number_macro(
                    field_token(m, m.fields[n - 1]) + "_PLACEHOLDER_SEQUENCE_ELEMENT_BYTE_COUNT"@,
                    element_bytes(enums, element),
                ),
            ),
        }
    }
}

/// Adds the macros for the element sizes of a message's sequences.
pub fn collect_sequence_element_byte_counts(
    tables: &Tables,
    m: &MessageModel,
    out: &mut Vec<String>,
)
    requires
        message_has_scalars(tables@.enums, m@),
    ensures
        views(final(out)@) == views(old(out)@) + byte_counts_upto(tables@.enums, m@, m@.fields.len()),
{
    let ghost before = views(out@);
    for i in 0..m.fields.len()
        invariant
            message_has_scalars(tables@.enums, m@),
            before == views(old(out)@),
            views(out@) == before + byte_counts_upto(tables@.enums, m@, i as nat),
    {
        let f = &m.fields[i];
        assert(m@.fields[i as int] == f@);
        assert(field_has_scalars(tables@.enums, f@));
        if let MessageFieldKind::Sequence(element) = &f.kind {
            let size: u32 = match element {
                SequenceElement::Struct(s) => s.element_size,
                SequenceElement::Primitive(ty) => primitive_element_byte_count(tables, ty),
            };
            let mut name = field_token_of(m, f);
            name.push_str("_PLACEHOLDER_SEQUENCE_ELEMENT_BYTE_COUNT");
            out.push(define_number(name.as_str(), size as u64));
        }
    }
}

/// The module key in the upper half and the message key in the lower half.
pub open spec fn combined(m: MessageView) -> nat {
    (m.module_key * 0x10000 + m.message_key) as nat
}

/// The key that identifies a message: its module's in the upper half, its own in
/// the lower half.
pub fn combined_key(m: &MessageModel) -> (r: u32)
    ensures
        r == combined(m@),
{
    m.module_key as u32 * 0x10000 + m.message_key as u32
}

/// Two messages have the same combined key only where both their keys are the
/// same.
pub proof fn law_combined_keys_are_distinct(a: MessageView, b: MessageView)
    ensures
        combined(a) == combined(b) <==> a.module_key == b.module_key && a.message_key
            == b.message_key,
{
}

/// The combined key as a C literal.
pub open spec fn key_literal(m: MessageView) -> Text {
    "(0x"@ + hex(combined(m), 8) + ")"@
}

/// The combined key as a C literal.
pub fn key_literal_of(m: &MessageModel) -> (r: String)
    ensures
        r@ == key_literal(m@),
{
    let mut r = owned("(0x");
    r.push_str(hex_text(combined_key(m) as u128, 8).as_str());
    r.push_str(")");
    r
}

/// The segments of a path in capitals.
pub open spec fn screaming_segments(path: Path) -> Path {
    path.map_values(|s: Text| screaming(s))
}

/// The name of the macro for a message's key: its modules and its name.
pub open spec fn key_macro_name(m: MessageView) -> Text {
    let modules = joined(screaming_segments(m.scope), "_"@);
    (if modules.len() == 0 {
        screaming(m.name)
    } else {
        modules + "_"@ + screaming(m.name)
    }) + "_KEY"@
}

/// The name of the macro for a message's key.
pub fn header_message_key_macro(m: &MessageModel) -> (r: String)
    ensures
        r@ == key_macro_name(m@),
{
    let ghost all = screaming_segments(m@.scope);
    let mut segments: Vec<String> = Vec::new();
    for i in 0..m.scope.len()
        invariant
            all == screaming_segments(m@.scope),
            views(segments@) == all.take(i as int),
    {
        assert(m@.scope[i as int] == m.scope@[i as int]@);
        segments.push(to_screaming_snake(m.scope[i].as_str()));
        assert(views(segments@) =~= all.take(i + 1));
    }
    assert(all.take(m.scope@.len() as int) =~= all);
    let modules = join(segments.as_slice(), "_");
    let mut r = if is_empty(modules.as_str()) {
        String::new()
    } else {
        let mut prefix = modules;
        prefix.push_str("_");
        prefix
    };
    r.push_str(to_screaming_snake(m.name.as_str()).as_str());
    r.push_str("_KEY");
    r
}

/// The name of the constant for a message's topic.
pub open spec fn topic_name(m: MessageView) -> Text {
    screaming(m.name) + "_TOPIC"@
}

/// The name of the constant for a message's topic.
pub fn topic_macro_name(m: &MessageModel) -> (r: String)
    ensures
        r@ == topic_name(m@),
{
    let mut r = to_screaming_snake(m.name.as_str());
    r.push_str("_TOPIC");
    r
}

/// The key of a message is written as the four hexadecimal digits of its module key and the
/// four of its own.
pub proof fn law_keys_are_written_one_after_the_other(m: MessageView)
    ensures
        ({
            let text = key_literal(m);
            &&& text.len() == 12
            &&& text.take(3) == "(0x"@
            &&& text.last() == ')'
            &&& digits_value(text.subrange(3, 7), 16) == m.module_key
            &&& digits_value(text.subrange(7, 11), 16) == m.message_key
        }),
{
    let n = combined(m);
    law_numerals_can_be_read_back(n, 16, 8, false);
    reveal_strlit("(0x");
    reveal_strlit(")");
    let digits = hex(n, 8);
    let text = key_literal(m);
    lemma_eight_digits(n);
    assert(text.take(3) =~= "(0x"@);
    assert(text.subrange(3, 7) =~= digits.take(4));
    assert(text.subrange(7, 11) =~= digits.skip(4));
    lemma_split_digits(digits);
}

proof fn lemma_eight_digits(n: nat)
    requires
        n < 0x1_0000_0000,
    ensures
        hex(n, 8).len() == 8,
        forall|i: int| 0 <= i < 8 ==> digit_value(#[trigger] hex(n, 8)[i]) < 16,
{
    reveal_with_fuel(numeral, 9);
}

proof fn lemma_split_digits(digits: Text)
    requires
        digits.len() == 8,
        forall|i: int| 0 <= i < 8 ==> digit_value(#[trigger] digits[i]) < 16,
    ensures
        digits_value(digits, 16) == digits_value(digits.take(4), 16) * 65536 + digits_value(
            digits.skip(4),
            16,
        ),
        digits_value(digits.skip(4), 16) < 65536,
{
    reveal_with_fuel(digits_value, 9);
    let high = digits.take(4);
    let low = digits.skip(4);
    assert(digits.drop_last().drop_last().drop_last().drop_last() =~= high);
    assert(low.drop_last().drop_last().drop_last().drop_last() =~= Seq::<char>::empty());
    assert(low.drop_last().drop_last().drop_last().last() == digits[4]);
    assert(low.drop_last().drop_last().last() == digits[5]);
    assert(low.drop_last().last() == digits[6]);
    assert(low.last() == digits[7]);
}

} // verus!
