//! The C functions that the two files declare and define.
use vstd::prelude::*;
use crate::ast::TypeView;
use crate::c::context::ContextView;
use crate::c::docs::{
    builder_doc, builder_params, cleaned, doc_block, element_getter_doc, element_setter_doc,
    law_comments_keep_every_line, lemma_comment_line, sentence,
};
use crate::c::model::{ElementView, FieldKindView, FieldView, MessageView, StructFieldView};
use crate::c::names::screaming;
use crate::c::prototypes::{
    add_signature, element_prototypes, field_prototypes, fields_prototypes, message_prototypes,
    primitive_prototypes, scalar_params, scalar_prototypes, sub_field_prototypes,
    sub_fields_prototypes,
};
use crate::c::render::{
    header_text, message_names, prototypes_in_order, source_text, sources_in_order,
};
use crate::c::source::{
    add_source, bail_out, element_index, field_in_add, field_source, fields_in_add, fields_source,
    getter_body, message_source, presence_source, primitive_source, scalar_source, sequence_frame,
    setter_in_add, simple_getter, sub_field_getter, sub_field_setter, sub_field_source,
    sub_fields_source,
};
use crate::c::tables::{storage, Enums};
use crate::c::types::{c_type, helper_suffix, law_readers_and_writers_are_pairs, scalar_of_stored};
use crate::concat::{group_append, lemma_occurs, lemma_occurs_in_sum, occurs, Text};
use crate::order::{law_order_is_sorted_and_stable, positions, stable_order};
use crate::text::{has_suffix, joined};

verus! {

/// Whether the header declares a function and the source defines it with this body.
pub open spec fn declared_and_defined(c: ContextView, signature: Text, body: Text) -> bool {
    &&& occurs(header_text(c), signature + ";\n"@)
    &&& occurs(source_text(c), signature + "{\n"@ + body + "}\n"@)
}

pub proof fn lemma_endings()
    ensures
        "(Bb * buf, BbBlock msg );\n"@ == "(Bb * buf, BbBlock msg )"@ + ";\n"@,
        "(Bb * buf, BbBlock msg ){\n"@ == "(Bb * buf, BbBlock msg )"@ + "{\n"@,
        "Present(Bb * buf, BbBlock msg );\n"@ == "Present(Bb * buf, BbBlock msg )"@ + ";\n"@,
        "Present(Bb * buf, BbBlock msg ){\n"@ == "Present(Bb * buf, BbBlock msg )"@ + "{\n"@,
        "(Bb * buf, BbBlock msg , uint32_t i0);\n"@ == "(Bb * buf, BbBlock msg , uint32_t i0)"@
            + ";\n"@,
        "(Bb * buf, BbBlock msg , uint32_t i0){\n"@ == "(Bb * buf, BbBlock msg , uint32_t i0)"@
            + "{\n"@,
        ");\n"@ == ")"@ + ";\n"@,
        "){\n"@ == ")"@ + "{\n"@,
        "(Bb * buf, BbBlock msg, uint32_t n);\n"@ == "(Bb * buf, BbBlock msg, uint32_t n)"@
            + ";\n"@,
        "(Bb * buf, BbBlock msg, uint32_t n){\n"@ == "(Bb * buf, BbBlock msg, uint32_t n)"@
            + "{\n"@,
        "SequenceLength(Bb * buf, BbBlock msg);\n"@ == "SequenceLength(Bb * buf, BbBlock msg)"@
            + ";\n"@,
        "SequenceLength(Bb * buf, BbBlock msg){\n"@ == "SequenceLength(Bb * buf, BbBlock msg)"@
            + "{\n"@,
        "Empty(Bb * buf, BbBlock msg);\n"@ == "Empty(Bb * buf, BbBlock msg)"@ + ";\n"@,
        "Empty(Bb * buf, BbBlock msg){\n"@ == "Empty(Bb * buf, BbBlock msg)"@ + "{\n"@,
        "Full(Bb * buf, BbBlock msg);\n"@ == "Full(Bb * buf, BbBlock msg)"@ + ";\n"@,
        "Full(Bb * buf, BbBlock msg){\n"@ == "Full(Bb * buf, BbBlock msg)"@ + "{\n"@,
        " get"@ == " "@ + "get"@,
{
    reveal_strlit(";\n");
    reveal_strlit("{\n");
    reveal_strlit(")");
    reveal_strlit(");\n");
    reveal_strlit("){\n");
    reveal_strlit(" get");
    reveal_strlit(" ");
    reveal_strlit("get");
    reveal_strlit("(Bb * buf, BbBlock msg )");
    reveal_strlit("(Bb * buf, BbBlock msg );\n");
    reveal_strlit("(Bb * buf, BbBlock msg ){\n");
    reveal_strlit("Present(Bb * buf, BbBlock msg )");
    reveal_strlit("Present(Bb * buf, BbBlock msg );\n");
    reveal_strlit("Present(Bb * buf, BbBlock msg ){\n");
    reveal_strlit("(Bb * buf, BbBlock msg , uint32_t i0)");
    reveal_strlit("(Bb * buf, BbBlock msg , uint32_t i0);\n");
    reveal_strlit("(Bb * buf, BbBlock msg , uint32_t i0){\n");
    reveal_strlit("(Bb * buf, BbBlock msg, uint32_t n)");
    reveal_strlit("(Bb * buf, BbBlock msg, uint32_t n);\n");
    reveal_strlit("(Bb * buf, BbBlock msg, uint32_t n){\n");
    reveal_strlit("SequenceLength(Bb * buf, BbBlock msg)");
    reveal_strlit("SequenceLength(Bb * buf, BbBlock msg);\n");
    reveal_strlit("SequenceLength(Bb * buf, BbBlock msg){\n");
    reveal_strlit("Empty(Bb * buf, BbBlock msg)");
    reveal_strlit("Empty(Bb * buf, BbBlock msg);\n");
    reveal_strlit("Empty(Bb * buf, BbBlock msg){\n");
    reveal_strlit("Full(Bb * buf, BbBlock msg)");
    reveal_strlit("Full(Bb * buf, BbBlock msg);\n");
    reveal_strlit("Full(Bb * buf, BbBlock msg){\n");
    assert("(Bb * buf, BbBlock msg );\n"@ =~= "(Bb * buf, BbBlock msg )"@ + ";\n"@);
    assert("(Bb * buf, BbBlock msg ){\n"@ =~= "(Bb * buf, BbBlock msg )"@ + "{\n"@);
    assert("Present(Bb * buf, BbBlock msg );\n"@ =~= "Present(Bb * buf, BbBlock msg )"@ + ";\n"@);
    assert("Present(Bb * buf, BbBlock msg ){\n"@ =~= "Present(Bb * buf, BbBlock msg )"@ + "{\n"@);
    assert("(Bb * buf, BbBlock msg , uint32_t i0);\n"@
        =~= "(Bb * buf, BbBlock msg , uint32_t i0)"@ + ";\n"@);
    assert("(Bb * buf, BbBlock msg , uint32_t i0){\n"@
        =~= "(Bb * buf, BbBlock msg , uint32_t i0)"@ + "{\n"@);
    assert(");\n"@ =~= ")"@ + ";\n"@);
    assert("){\n"@ =~= ")"@ + "{\n"@);
    assert("(Bb * buf, BbBlock msg, uint32_t n);\n"@ =~= "(Bb * buf, BbBlock msg, uint32_t n)"@
        + ";\n"@);
    assert("(Bb * buf, BbBlock msg, uint32_t n){\n"@ =~= "(Bb * buf, BbBlock msg, uint32_t n)"@
        + "{\n"@);
    assert("SequenceLength(Bb * buf, BbBlock msg);\n"@
        =~= "SequenceLength(Bb * buf, BbBlock msg)"@ + ";\n"@);
    assert("SequenceLength(Bb * buf, BbBlock msg){\n"@
        =~= "SequenceLength(Bb * buf, BbBlock msg)"@ + "{\n"@);
    assert("Empty(Bb * buf, BbBlock msg);\n"@ =~= "Empty(Bb * buf, BbBlock msg)"@ + ";\n"@);
    assert("Empty(Bb * buf, BbBlock msg){\n"@ =~= "Empty(Bb * buf, BbBlock msg)"@ + "{\n"@);
    assert("Full(Bb * buf, BbBlock msg);\n"@ =~= "Full(Bb * buf, BbBlock msg)"@ + ";\n"@);
    assert("Full(Bb * buf, BbBlock msg){\n"@ =~= "Full(Bb * buf, BbBlock msg)"@ + "{\n"@);
    assert(" get"@ =~= " "@ + "get"@);
}

pub proof fn lemma_element_endings()
    ensures
        "(Bb * buf, BbBlock msg , uint32_t i0){\n"@ == "(Bb * buf, BbBlock msg , uint32_t i0)"@
            + "{\n"@,
        "){\n"@ == ")"@ + "{\n"@,
{
    lemma_endings();
}

proof fn lemma_place_in_order(keys: Seq<Text>, i: int)
    requires
        0 <= i < keys.len(),
    ensures
        exists|k: int| 0 <= k < keys.len() && #[trigger] stable_order(keys)[k] == i,
{
    broadcast use vstd::seq_lib::group_to_multiset_ensures;

    let order = stable_order(keys);
    law_order_is_sorted_and_stable(keys);
    assert(positions(keys.len())[i] == i);
    assert(positions(keys.len()).contains(i));
    assert(order.to_multiset().contains(i));
    assert(order.contains(i));
}

proof fn lemma_prototypes_of_message(
    enums: Enums,
    messages: Seq<MessageView>,
    order: Seq<int>,
    n: nat,
    k: int,
    part: Text,
)
    requires
        0 <= k < n,
        occurs(message_prototypes(enums, messages[order[k]]), part),
    ensures
        occurs(prototypes_in_order(enums, messages, order, n), part),
    decreases n,
{
    broadcast use lemma_occurs_in_sum;

    if k < n - 1 {
        lemma_prototypes_of_message(enums, messages, order, (n - 1) as nat, k, part);
    }
}

proof fn lemma_sources_of_message(
    enums: Enums,
    messages: Seq<MessageView>,
    order: Seq<int>,
    n: nat,
    k: int,
    part: Text,
)
    requires
        0 <= k < n,
        occurs(message_source(enums, messages[order[k]]), part),
    ensures
        occurs(sources_in_order(enums, messages, order, n), part),
    decreases n,
{
    broadcast use lemma_occurs_in_sum;

    if k < n - 1 {
        lemma_sources_of_message(enums, messages, order, (n - 1) as nat, k, part);
    }
}

proof fn lemma_in_header(c: ContextView, i: int, part: Text)
    requires
        0 <= i < c.messages.len(),
        occurs(message_prototypes(c.tables.enums, c.messages[i]), part),
    ensures
        occurs(header_text(c), part),
{
    broadcast use lemma_occurs_in_sum;

    reveal(header_text);
    let names = message_names(c.messages);
    lemma_place_in_order(names, i);
    let k = choose|k: int| 0 <= k < names.len() && #[trigger] stable_order(names)[k] == i;
    lemma_prototypes_of_message(
        c.tables.enums,
        c.messages,
        stable_order(names),
        c.messages.len(),
        k,
        part,
    );
}

proof fn lemma_in_source(c: ContextView, i: int, part: Text)
    requires
        0 <= i < c.messages.len(),
        occurs(message_source(c.tables.enums, c.messages[i]), part),
    ensures
        occurs(source_text(c), part),
{
    broadcast use lemma_occurs_in_sum;

    reveal(source_text);
    let names = message_names(c.messages);
    lemma_place_in_order(names, i);
    let k = choose|k: int| 0 <= k < names.len() && #[trigger] stable_order(names)[k] == i;
    lemma_sources_of_message(
        c.tables.enums,
        c.messages,
        stable_order(names),
        c.messages.len(),
        k,
        part,
    );
}

proof fn lemma_field_in_header(enums: Enums, m: MessageView, n: nat, i: int, part: Text)
    requires
        0 <= i < n,
        occurs(field_prototypes(enums, m, m.fields[i]), part),
    ensures
        occurs(fields_prototypes(enums, m, n), part),
    decreases n,
{
    broadcast use lemma_occurs_in_sum;

    if i < n - 1 {
        lemma_field_in_header(enums, m, (n - 1) as nat, i, part);
    }
}

proof fn lemma_field_in_source(enums: Enums, m: MessageView, n: nat, i: int, part: Text)
    requires
        0 <= i < n,
        occurs(field_source(enums, m, m.fields[i]), part),
    ensures
        occurs(fields_source(enums, m, n), part),
    decreases n,
{
    broadcast use lemma_occurs_in_sum;

    if i < n - 1 {
        lemma_field_in_source(enums, m, (n - 1) as nat, i, part);
    }
}

proof fn lemma_field_function(
    c: ContextView,
    i: int,
    j: int,
    signature: Text,
    body: Text,
)
    requires
        0 <= i < c.messages.len(),
        0 <= j < c.messages[i].fields.len(),
        occurs(
            field_prototypes(c.tables.enums, c.messages[i], c.messages[i].fields[j]),
            signature + ";\n"@,
        ),
        occurs(
            field_source(c.tables.enums, c.messages[i], c.messages[i].fields[j]),
            signature + "{\n"@ + body + "}\n"@,
        ),
    ensures
        declared_and_defined(c, signature, body),
{
    broadcast use lemma_occurs_in_sum;

    reveal(message_prototypes);
    let enums = c.tables.enums;
    let m = c.messages[i];
    lemma_field_in_header(enums, m, m.fields.len(), j, signature + ";\n"@);
    lemma_field_in_source(enums, m, m.fields.len(), j, signature + "{\n"@ + body + "}\n"@);
    lemma_in_header(c, i, signature + ";\n"@);
    lemma_in_source(c, i, signature + "{\n"@ + body + "}\n"@);
}

/// The start of a function that works at the offset with this name.
pub open spec fn at_offset(name: Text) -> Text {
    "\tuint16_t i = 0;\n"@ + "\ti += "@ + name + ";\n"@
}

/// The name that every macro of a field begins with.
pub open spec fn macro_stem(m: MessageView, f: FieldView) -> Text {
    screaming(m.name) + "_"@ + screaming(f.name)
}

/// How the function that gets a single value is declared.
pub open spec fn getter_signature(
    enums: Enums,
    m: MessageView,
    f: FieldView,
    ty: TypeView,
) -> Text {
    (if ty is Boolean {
        "bool is"@
    } else {
        c_type(enums, ty) + " get"@
    }) + m.name + f.capital + "(Bb * buf, BbBlock msg )"@
}

/// What the function that gets a single value does: it reads at the offset of the field,
/// with the reader for what is stored there.
pub open spec fn getter_statements(m: MessageView, f: FieldView, stored: TypeView) -> Text {
    at_offset(macro_stem(m, f) + "_INDEX"@) + (if stored is Boolean {
        "\treturn getBbBool(buf, msg, i, "@ + macro_stem(m, f) + "_MASK"@ + ");\n"@
    } else {
        "\treturn "@ + "get"@ + "Bb"@ + helper_suffix(stored) + "(buf, msg, i);\n"@
    })
}

/// How the function that tests for a single value is declared.
pub open spec fn presence_signature(m: MessageView, f: FieldView) -> Text {
    "bool is"@ + m.name + f.capital + "Present(Bb * buf, BbBlock msg )"@
}

/// What the function that tests for a single value does: the field is there where its
/// ordinal is not beyond the last that the message has.
pub open spec fn presence_statements(m: MessageView, f: FieldView) -> Text {
    "\treturn "@ + macro_stem(m, f) + "_ORDINAL <= (getBbMessageMaxOrdinal(buf, msg));\n"@
}

/// The field of a message that is a single value, by the type that stores it.
pub open spec fn single_value(enums: Enums, f: FieldView) -> Option<(TypeView, TypeView)> {
    match f.kind {
        FieldKindView::Scalar(ty) => match storage(enums, ty) {
            Some(stored) => Some((ty, stored)),
            None => None,
        },
        _ => None,
    }
}

proof fn lemma_scalar_header(enums: Enums, m: MessageView, f: FieldView, ty: TypeView)
    ensures
        occurs(scalar_prototypes(enums, m, f, ty), getter_signature(enums, m, f, ty) + ";\n"@),
        occurs(scalar_prototypes(enums, m, f, ty), presence_signature(m, f) + ";\n"@),
{
    broadcast use group_append;

    reveal(scalar_prototypes);
    lemma_endings();
    let doc = doc_block(
        seq![sentence("A getter for the "@, f.name, " field"@)],
        f.comments,
    );
    let doc2 = doc_block(
        seq![sentence("Tests if the current message containts the "@, f.name, " field"@)],
        f.comments,
    );
    let getter = getter_signature(enums, m, f, ty) + ";\n"@;
    let presence = presence_signature(m, f) + ";\n"@;
    let all = scalar_prototypes(enums, m, f, ty);
    assert(all == doc + getter + (doc2 + presence));
    assert(all == (doc + getter + doc2) + presence + Seq::<char>::empty());
    lemma_occurs(doc, getter, doc2 + presence);
    lemma_occurs(doc + getter + doc2, presence, Seq::empty());
}

proof fn lemma_scalar_presence(
    enums: Enums,
    m: MessageView,
    f: FieldView,
    ty: TypeView,
    stored: TypeView,
)
    ensures
        occurs(
            scalar_source(enums, m, f, ty, scalar_of_stored(stored)),
            presence_signature(m, f) + "{\n"@ + presence_statements(m, f) + "}\n"@,
        ),
{
    broadcast use group_append;

    reveal(scalar_source);
    lemma_endings();
    let doc = doc_block(
        seq![sentence("A getter for the "@, f.name, " field"@)],
        f.comments,
    );
    let doc2 = doc_block(
        seq![sentence("Tests if the current message containts the "@, f.name, " field"@)],
        f.comments,
    );
    let body = getter_body(enums, m, f, ty, scalar_of_stored(stored));
    let presence = presence_signature(m, f) + "{\n"@ + presence_statements(m, f) + "}\n"@;
    let all = scalar_source(enums, m, f, ty, scalar_of_stored(stored));
    assert(all == (doc + body + doc2) + presence + Seq::<char>::empty());
    lemma_occurs(doc + body + doc2, presence, Seq::empty());
}

proof fn lemma_scalar_getter(
    enums: Enums,
    m: MessageView,
    f: FieldView,
    ty: TypeView,
    stored: TypeView,
)
    requires
        !(stored is String),
        stored is Boolean <==> ty is Boolean,
    ensures
        occurs(
            scalar_source(enums, m, f, ty, scalar_of_stored(stored)),
            getter_signature(enums, m, f, ty) + "{\n"@ + getter_statements(m, f, stored) + "}\n"@,
        ),
{
    broadcast use group_append;

    reveal(scalar_source);
    reveal(getter_body);
    reveal(simple_getter);
    lemma_endings();
    law_readers_and_writers_are_pairs(stored);
    let doc = doc_block(
        seq![sentence("A getter for the "@, f.name, " field"@)],
        f.comments,
    );
    let doc2 = doc_block(
        seq![sentence("Tests if the current message containts the "@, f.name, " field"@)],
        f.comments,
    );
    let scalar = scalar_of_stored(stored);
    let body = getter_body(enums, m, f, ty, scalar);
    let getter = getter_signature(enums, m, f, ty) + "{\n"@ + getter_statements(m, f, stored)
        + "}\n"@;
    assert(body == getter);
    let rest = doc2 + "bool is"@ + m.name + f.capital + "Present(Bb * buf, BbBlock msg ){\n"@
        + "\treturn "@ + screaming(m.name) + "_"@ + screaming(f.name)
        + "_ORDINAL <= (getBbMessageMaxOrdinal(buf, msg));\n"@ + "}\n"@;
    let all = scalar_source(enums, m, f, ty, scalar);
    assert(all == doc + body + rest);
    lemma_occurs(doc, getter, rest);
}

/// Every single value of a message can be tested for, and every one that is no string can be
/// read: the functions are declared in the header and defined in the source under the same
/// signature. The getter returns the type of the field and reads, with the reader for what is
/// stored, at the offset that the macro of the field names.
pub proof fn law_single_values_can_be_read(c: ContextView, i: int, j: int)
    requires
        0 <= i < c.messages.len(),
        0 <= j < c.messages[i].fields.len(),
        single_value(c.tables.enums, c.messages[i].fields[j]) is Some,
    ensures
        ({
            let m = c.messages[i];
            let f = m.fields[j];
            let (ty, stored) = single_value(c.tables.enums, f).unwrap();
            &&& declared_and_defined(c, presence_signature(m, f), presence_statements(m, f))
            &&& occurs(header_text(c), getter_signature(c.tables.enums, m, f, ty) + ";\n"@)
            &&& !(stored is String) && (stored is Boolean <==> ty is Boolean)
                ==> declared_and_defined(
                c,
                getter_signature(c.tables.enums, m, f, ty),
                getter_statements(m, f, stored),
            )
        }),
{
    let enums = c.tables.enums;
    let m = c.messages[i];
    let f = m.fields[j];
    let (ty, stored) = single_value(enums, f).unwrap();
    reveal(field_prototypes);
    reveal(message_prototypes);
    lemma_scalar_header(enums, m, f, ty);
    lemma_scalar_presence(enums, m, f, ty, stored);
    lemma_field_function(c, i, j, presence_signature(m, f), presence_statements(m, f));
    let declared = getter_signature(enums, m, f, ty) + ";\n"@;
    lemma_field_in_header(enums, m, m.fields.len(), j, declared);
    assert(occurs(message_prototypes(enums, m), declared)) by {
        broadcast use lemma_occurs_in_sum;

    }
    lemma_in_header(c, i, declared);
    if !(stored is String) && (stored is Boolean <==> ty is Boolean) {
        lemma_scalar_getter(enums, m, f, ty, stored);
        lemma_field_function(
            c,
            i,
            j,
            getter_signature(enums, m, f, ty),
            getter_statements(m, f, stored),
        );
    }
}

/// The parameter of the builder for a field: its type and its name where it is a single
/// value, and none where it is a sequence.
pub open spec fn parameter_of(enums: Enums, f: FieldView) -> Text {
    match f.kind {
        FieldKindView::Scalar(ty) => ", "@ + c_type(enums, ty) + " "@ + f.name,
        FieldKindView::Sequence(_) => Seq::empty(),
    }
}

/// How the builder of a message is declared: it takes the buffer and every single value, in
/// declared order.
pub open spec fn builder_signature(enums: Enums, m: MessageView) -> Text {
    "BbBlock add"@ + m.name + "(Bb * buf"@ + joined(
        m.fields.map_values(|f: FieldView| parameter_of(enums, f)),
        ""@,
    ) + ")"@
}

/// What the builder does for a field: it writes a single value, with the writer for what is
/// stored, where the getter reads it; it leaves a string to the caller; and it marks a
/// sequence as not there.
pub open spec fn written(enums: Enums, m: MessageView, f: FieldView) -> Text {
    match single_value(enums, f) {
        Some((ty, stored)) => if stored is Boolean {
            "\tsetBbBool(buf, msg, "@ + macro_stem(m, f) + "_INDEX"@ + ", "@ + macro_stem(m, f)
                + "_MASK"@ + ", "@ + f.name + ");\n"@
        } else if stored is String {
            "\t// "@ + f.name + " is a bounded string; populate with copyBbStringToMessage\n"@
        } else {
            "\t"@ + "set"@ + "Bb"@ + helper_suffix(stored) + "(buf, msg, "@ + macro_stem(m, f)
                + "_INDEX"@ + ", "@ + f.name + ");\n"@
        },
        None => "\tsetBbUint16(buf, msg, "@ + macro_stem(m, f) + "_PLACEHOLDER"@ + "_INDEX"@
            + ", BB_INVALID_BLOCK);//clear sequence header\n"@,
    }
}

/// What the builder of a message does: it makes room for the whole body, writes the three
/// fields of the header, then every field in declared order, and returns where the message
/// begins.
pub open spec fn builder_statements(enums: Enums, m: MessageView) -> Text {
    let stem = screaming(m.name);
    "\tBbBlock msg = buf->length;\n"@
        + "\t//Extend buffer to include the main message body before writing it\n"@
        + "\tbuf->length = msg + "@ + stem + "_LENGTH;\n"@ + "\tsetBbUint32(buf, msg, "@ + stem
        + "_MODULE_MESSAGE_KEY_INDEX, "@ + stem + "_MODULE_MESSAGE_KEY);\n"@
        + "\tsetBbUint16(buf, msg, "@ + stem + "_LENGTH_INDEX, "@ + stem
        + "_LENGTH/4);//length field is measured in 4-byte words\n"@ + "\tsetBbUint8(buf, msg, "@
        + stem + "_MAX_ORDINAL_INDEX, "@ + stem + "_MAX_ORDINAL);\n"@ + joined(
        m.fields.map_values(|f: FieldView| written(enums, m, f)),
        ""@,
    ) + "\treturn msg;\n"@
}

/// Whether it is known how every field is stored, and no string is without a bound.
pub open spec fn fields_are_stored(enums: Enums, m: MessageView) -> bool {
    forall|j: int|
        0 <= j < m.fields.len() ==> match (#[trigger] m.fields[j]).kind {
            FieldKindView::Scalar(ty) => storage(enums, ty) matches Some(stored)
                && stored != (TypeView::String { bound: None }),
            _ => true,
        }
}

pub proof fn lemma_joined_push(parts: Seq<Text>, last: Text)
    ensures
        joined(parts.push(last), ""@) == joined(parts, ""@) + last,
{
    broadcast use group_append;

    reveal_strlit("");
    assert(""@ =~= Seq::<char>::empty());
    assert(parts.push(last).drop_last() =~= parts);
}

pub proof fn lemma_params_are_joined(enums: Enums, fields: Seq<FieldView>, n: nat)
    requires
        n <= fields.len(),
    ensures
        scalar_params(enums, fields, n) == joined(
            fields.map_values(|f: FieldView| parameter_of(enums, f)).take(n as int),
            ""@,
        ),
    decreases n,
{
    broadcast use group_append;

    let parts = fields.map_values(|f: FieldView| parameter_of(enums, f));
    if n > 0 {
        lemma_params_are_joined(enums, fields, (n - 1) as nat);
        assert(parts.take(n as int) =~= parts.take(n - 1).push(parts[n - 1]));
        lemma_joined_push(parts.take(n - 1), parts[n - 1]);
    }
}

proof fn lemma_written(enums: Enums, m: MessageView, j: int)
    requires
        0 <= j < m.fields.len(),
        fields_are_stored(enums, m),
    ensures
        field_in_add(enums, m, m.fields[j]) == written(enums, m, m.fields[j]),
{
    broadcast use group_append;

    let f = m.fields[j];
    reveal(setter_in_add);
    if let Some((ty, stored)) = single_value(enums, f) {
        if !(stored is String) {
            law_readers_and_writers_are_pairs(stored);
        }
    }
}

pub proof fn lemma_writes_are_joined(enums: Enums, m: MessageView, n: nat)
    requires
        n <= m.fields.len(),
        fields_are_stored(enums, m),
    ensures
        fields_in_add(enums, m, n) == joined(
            m.fields.map_values(|f: FieldView| written(enums, m, f)).take(n as int),
            ""@,
        ),
    decreases n,
{
    let parts = m.fields.map_values(|f: FieldView| written(enums, m, f));
    if n > 0 {
        lemma_writes_are_joined(enums, m, (n - 1) as nat);
        lemma_written(enums, m, n - 1);
        assert(parts.take(n as int) =~= parts.take(n - 1).push(parts[n - 1]));
        lemma_joined_push(parts.take(n - 1), parts[n - 1]);
    }
}

/// The builder of a message is declared and defined under the same signature. It takes every
/// single value in declared order and writes each where it is read from.
pub proof fn law_messages_can_be_built(c: ContextView, i: int)
    requires
        0 <= i < c.messages.len(),
        fields_are_stored(c.tables.enums, c.messages[i]),
    ensures
        declared_and_defined(
            c,
            builder_signature(c.tables.enums, c.messages[i]),
            builder_statements(c.tables.enums, c.messages[i]),
        ),
{
    let enums = c.tables.enums;
    let m = c.messages[i];
    let signature = builder_signature(enums, m);
    let whole = signature + "{\n"@ + builder_statements(enums, m) + "}\n"@;
    let params = m.fields.map_values(|f: FieldView| parameter_of(enums, f));
    let writes = m.fields.map_values(|f: FieldView| written(enums, m, f));
    lemma_params_are_joined(enums, m.fields, m.fields.len());
    lemma_writes_are_joined(enums, m, m.fields.len());
    assert(params.take(m.fields.len() as int) =~= params);
    assert(writes.take(m.fields.len() as int) =~= writes);
    reveal(add_signature);
    assert(add_signature(enums, m) == signature);
    assert(occurs(message_prototypes(enums, m), signature + ";\n"@)) by {
        lemma_builder_header(enums, m, signature);
    }
    lemma_in_header(c, i, signature + ";\n"@);
    assert(add_source(enums, m) == builder_doc(m) + whole) by {
        broadcast use group_append;

        reveal(add_source);
    }
    assert(occurs(message_source(enums, m), whole)) by {
        broadcast use lemma_occurs_in_sum;

        lemma_occurs(Seq::empty(), whole, Seq::empty());
        assert(Seq::<char>::empty() + whole + Seq::<char>::empty() =~= whole);
    }
    lemma_in_source(c, i, whole);
}

proof fn lemma_builder_header(enums: Enums, m: MessageView, signature: Text)
    requires
        add_signature(enums, m) == signature,
    ensures
        occurs(message_prototypes(enums, m), signature + ";\n"@),
{
    broadcast use group_append;

    reveal(message_prototypes);
    let rest = doc_block(
        seq!["Tests if the current message has no fields present."@],
        m.comments,
    ) + "bool is"@ + m.name + "Empty(Bb * buf, BbBlock msg);\n"@ + doc_block(
        seq!["Tests if the current message has all defined fields present."@],
        m.comments,
    ) + "bool is"@ + m.name + "Full(Bb * buf, BbBlock msg);\n"@ + fields_prototypes(
        enums,
        m,
        m.fields.len(),
    );
    assert(message_prototypes(enums, m) == builder_doc(m) + (signature + ";\n"@) + rest);
    lemma_occurs(builder_doc(m), signature + ";\n"@, rest);
}

/// The function that tests whether a message has no fields beyond its header.
pub open spec fn emptiness_signature(m: MessageView) -> Text {
    "bool is"@ + m.name + "Empty(Bb * buf, BbBlock msg)"@
}

/// The function that tests whether a message has all its fields.
pub open spec fn fullness_signature(m: MessageView) -> Text {
    "bool is"@ + m.name + "Full(Bb * buf, BbBlock msg)"@
}

/// A message can be tested for having no field beyond the three of the header, and for having
/// a last ordinal that is at least that of its last field.
pub proof fn law_messages_can_be_tested(c: ContextView, i: int)
    requires
        0 <= i < c.messages.len(),
    ensures
        declared_and_defined(
            c,
            emptiness_signature(c.messages[i]),
            "\treturn getBbMessageMaxOrdinal(buf, msg) <= 2;//will always be length and ordinal fields\n"@,
        ),
        declared_and_defined(
            c,
            fullness_signature(c.messages[i]),
            "\treturn getBbMessageMaxOrdinal(buf, msg) >= "@ + screaming(c.messages[i].name)
                + "_MAX_ORDINAL;\n"@,
        ),
{
    let enums = c.tables.enums;
    let m = c.messages[i];
    let empty_body =
        "\treturn getBbMessageMaxOrdinal(buf, msg) <= 2;//will always be length and ordinal fields\n"@;
    let full_body = "\treturn getBbMessageMaxOrdinal(buf, msg) >= "@ + screaming(m.name)
        + "_MAX_ORDINAL;\n"@;
    let empty = emptiness_signature(m) + "{\n"@ + empty_body + "}\n"@;
    let full = fullness_signature(m) + "{\n"@ + full_body + "}\n"@;
    lemma_tests_header(enums, m);
    lemma_tests_source(m, empty_body, full_body);
    lemma_in_header(c, i, emptiness_signature(m) + ";\n"@);
    lemma_in_header(c, i, fullness_signature(m) + ";\n"@);
    assert(occurs(message_source(enums, m), empty) && occurs(message_source(enums, m), full)) by {
        broadcast use lemma_occurs_in_sum;

    }
    lemma_in_source(c, i, empty);
    lemma_in_source(c, i, full);
}

proof fn lemma_tests_header(enums: Enums, m: MessageView)
    ensures
        occurs(message_prototypes(enums, m), emptiness_signature(m) + ";\n"@),
        occurs(message_prototypes(enums, m), fullness_signature(m) + ";\n"@),
{
    broadcast use group_append;

    reveal(message_prototypes);
    lemma_endings();
    let doc = doc_block(
        seq!["Tests if the current message has no fields present."@],
        m.comments,
    );
    let doc2 = doc_block(
        seq!["Tests if the current message has all defined fields present."@],
        m.comments,
    );
    let fields = fields_prototypes(enums, m, m.fields.len());
    let empty = emptiness_signature(m) + ";\n"@;
    let full = fullness_signature(m) + ";\n"@;
    let before = builder_doc(m) + add_signature(enums, m) + ";\n"@ + doc;
    let all = message_prototypes(enums, m);
    assert(all == before + empty + (doc2 + full + fields));
    assert(all == (before + empty + doc2) + full + fields);
    lemma_occurs(before, empty, doc2 + full + fields);
    lemma_occurs(before + empty + doc2, full, fields);
}

proof fn lemma_tests_source(m: MessageView, empty_body: Text, full_body: Text)
    requires
        empty_body
            == "\treturn getBbMessageMaxOrdinal(buf, msg) <= 2;//will always be length and ordinal fields\n"@,
        full_body == "\treturn getBbMessageMaxOrdinal(buf, msg) >= "@ + screaming(m.name)
            + "_MAX_ORDINAL;\n"@,
    ensures
        occurs(presence_source(m), emptiness_signature(m) + "{\n"@ + empty_body + "}\n"@),
        occurs(presence_source(m), fullness_signature(m) + "{\n"@ + full_body + "}\n"@),
{
    broadcast use group_append;

    reveal(presence_source);
    lemma_endings();
    let doc = doc_block(
        seq!["Tests if the current message has no fields present."@],
        m.comments,
    );
    let doc2 = doc_block(
        seq!["Tests if the current message has all defined fields present."@],
        m.comments,
    );
    let empty = emptiness_signature(m) + "{\n"@ + empty_body + "}\n"@;
    let full = fullness_signature(m) + "{\n"@ + full_body + "}\n"@;
    let all = presence_source(m);
    assert(all == doc + empty + (doc2 + full));
    assert(all == (doc + empty + doc2) + full + Seq::<char>::empty());
    lemma_occurs(doc, empty, doc2 + full);
    lemma_occurs(doc + empty + doc2, full, Seq::empty());
}

/// The end of a function that finds that a sequence is not there.
pub open spec fn leaving(result: Text) -> Text {
    "\tif(isBbBlockInvalid(i)){\n"@ + "\t\treturn"@ + result
        + ";//bail because a sequence was not initialized\n"@ + "\t}\n"@
}

/// How the function that makes room for a sequence is declared.
pub open spec fn init_signature(m: MessageView, f: FieldView) -> Text {
    "void init"@ + m.name + f.capital + "(Bb * buf, BbBlock msg, uint32_t n)"@
}

/// What the function that makes room for a sequence does: it hands the header of the
/// sequence, the size of its elements and their number on.
pub open spec fn init_statements(m: MessageView, f: FieldView) -> Text {
    at_offset(macro_stem(m, f) + "_PLACEHOLDER"@ + "_INDEX"@) + leaving(""@)
        + "\t//i is now the index of this sequence field header\n"@ + "\tuint32_t bs = "@
        + macro_stem(m, f)
        + "_PLACEHOLDER_SEQUENCE_ELEMENT_BYTE_COUNT; //the 4 is to account for the length field that precedes the sequence data\n"@
        + "\tinitBbSequence(buf, msg, i, bs, n);\n"@
}

/// How the function that gets the length of a sequence is declared.
pub open spec fn length_signature(m: MessageView, f: FieldView) -> Text {
    "uint32_t get"@ + m.name + f.capital + "SequenceLength(Bb * buf, BbBlock msg)"@
}

/// What the function that gets the length of a sequence does: it asks for the length at the
/// header of the sequence, and says zero where there is none.
pub open spec fn length_statements(m: MessageView, f: FieldView) -> Text {
    at_offset(macro_stem(m, f) + "_PLACEHOLDER"@ + "_INDEX"@) + leaving(" 0"@)
        + "\t//i is now the index of this sequence field header\n"@
        + "\treturn getBbSequenceLength(buf, msg, i);\n"@
}

proof fn lemma_frame_header(enums: Enums, m: MessageView, f: FieldView, element: ElementView)
    requires
        f.kind == FieldKindView::Sequence(element),
    ensures
        occurs(field_prototypes(enums, m, f), init_signature(m, f) + ";\n"@),
        occurs(field_prototypes(enums, m, f), length_signature(m, f) + ";\n"@),
{
    broadcast use group_append;

    reveal(field_prototypes);
    lemma_endings();
    let elements = element_prototypes(enums, m, f, element);
    let doc = doc_block(
        seq![sentence("A function to initialize a "@, f.words, " Sequence"@)],
        f.comments,
    );
    let doc2 = doc_block(
        seq![sentence("Gets the defined length of a sequence "@, f.words, " Sequence"@)],
        f.comments,
    );
    let init = init_signature(m, f) + ";\n"@;
    let length = length_signature(m, f) + ";\n"@;
    let all = field_prototypes(enums, m, f);
    assert(all == (elements + doc) + init + (doc2 + length));
    assert(all == (elements + doc + init + doc2) + length + Seq::<char>::empty());
    lemma_occurs(elements + doc, init, doc2 + length);
    lemma_occurs(elements + doc + init + doc2, length, Seq::empty());
}

proof fn lemma_frame_source(m: MessageView, f: FieldView)
    ensures
        occurs(sequence_frame(m, f), init_signature(m, f) + "{\n"@ + init_statements(m, f) + "}\n"@),
        occurs(
            sequence_frame(m, f),
            length_signature(m, f) + "{\n"@ + length_statements(m, f) + "}\n"@,
        ),
{
    broadcast use group_append;

    reveal(sequence_frame);
    reveal(bail_out);
    lemma_endings();
    let doc = doc_block(
        seq![sentence("A function to initialize a "@, f.words, " Sequence"@)],
        f.comments,
    );
    let doc2 = doc_block(
        seq![sentence("Gets the defined length of a sequence "@, f.words, " Sequence"@)],
        f.comments,
    );
    let init = init_signature(m, f) + "{\n"@ + init_statements(m, f) + "}\n"@;
    let length = length_signature(m, f) + "{\n"@ + length_statements(m, f) + "}\n"@;
    let all = sequence_frame(m, f);
    assert(all == doc + init + (doc2 + length));
    assert(all == (doc + init + doc2) + length + Seq::<char>::empty());
    lemma_occurs(doc, init, doc2 + length);
    lemma_occurs(doc + init + doc2, length, Seq::empty());
}

/// For every sequence room can be made, and its length can be asked for, at the offset of its
/// header.
pub proof fn law_sequences_have_a_length(c: ContextView, i: int, j: int)
    requires
        0 <= i < c.messages.len(),
        0 <= j < c.messages[i].fields.len(),
        c.messages[i].fields[j].kind is Sequence,
    ensures
        declared_and_defined(
            c,
            init_signature(c.messages[i], c.messages[i].fields[j]),
            init_statements(c.messages[i], c.messages[i].fields[j]),
        ),
        declared_and_defined(
            c,
            length_signature(c.messages[i], c.messages[i].fields[j]),
            length_statements(c.messages[i], c.messages[i].fields[j]),
        ),
{
    let enums = c.tables.enums;
    let m = c.messages[i];
    let f = m.fields[j];
    let element = f.kind->Sequence_0;
    let init = init_signature(m, f) + "{\n"@ + init_statements(m, f) + "}\n"@;
    let length = length_signature(m, f) + "{\n"@ + length_statements(m, f) + "}\n"@;
    lemma_frame_header(enums, m, f, element);
    lemma_frame_source(m, f);
    assert(occurs(field_source(enums, m, f), init) && occurs(field_source(enums, m, f), length)) by {
        broadcast use lemma_occurs_in_sum;

    }
    lemma_field_function(c, i, j, init_signature(m, f), init_statements(m, f));
    lemma_field_function(c, i, j, length_signature(m, f), length_statements(m, f));
}

/// The start of a function that works at a value in an element of a sequence.
pub open spec fn at_element(m: MessageView, f: FieldView, value: Text) -> Text {
    at_offset(macro_stem(m, f) + "_PLACEHOLDER"@ + "_INDEX"@)
        + "\ti = getBbSequenceElementIndex(buf, msg, i, i0);\n"@ + "\ti += "@ + value + ";\n"@
}

/// How the functions that get and set the elements of a sequence of single values are
/// declared.
pub open spec fn element_getter_signature(
    enums: Enums,
    m: MessageView,
    f: FieldView,
    ty: TypeView,
) -> Text {
    c_type(enums, ty) + " get"@ + m.name + f.capital + "(Bb * buf, BbBlock msg , uint32_t i0)"@
}

/// How the function that writes an element of a sequence is written.
pub open spec fn element_setter_signature(
    enums: Enums,
    m: MessageView,
    f: FieldView,
    ty: TypeView,
) -> Text {
    "void set"@ + m.name + f.capital + "(Bb * buf, BbBlock msg , uint32_t i0, "@ + c_type(enums, ty)
        + " "@ + f.name + ")"@
}

/// What they do: they read and write at the same place in the same element, with a reader and
/// a writer that are a pair.
pub open spec fn element_getter_statements(
    m: MessageView,
    f: FieldView,
    stored: TypeView,
) -> Text {
    at_element(m, f, macro_stem(m, f) + "_INDEX"@) + "\treturn "@ + "get"@ + "Bb"@ + helper_suffix(
        stored,
    ) + "(buf, msg, i);\n"@
}

/// What the function that writes an element of a sequence does.
pub open spec fn element_setter_statements(
    m: MessageView,
    f: FieldView,
    stored: TypeView,
) -> Text {
    at_element(m, f, macro_stem(m, f) + "_INDEX"@) + leaving(""@) + "\t"@ + "set"@ + "Bb"@
        + helper_suffix(stored) + "(buf, msg, i, "@ + f.name + ");\n"@
}

proof fn lemma_primitive_header(enums: Enums, m: MessageView, f: FieldView, ty: TypeView)
    ensures
        occurs(
            primitive_prototypes(enums, m, f, ty),
            element_getter_signature(enums, m, f, ty) + ";\n"@,
        ),
        occurs(
            primitive_prototypes(enums, m, f, ty),
            element_setter_signature(enums, m, f, ty) + ";\n"@,
        ),
{
    broadcast use group_append;

    reveal(primitive_prototypes);
    lemma_endings();
    let doc = doc_block(
        seq![sentence("A getter for the "@, f.name, " field"@)],
        f.comments,
    );
    let doc2 = doc_block(
        seq![sentence("A setter for the "@, f.name, " field"@)],
        f.comments,
    );
    let getter = element_getter_signature(enums, m, f, ty) + ";\n"@;
    let setter = element_setter_signature(enums, m, f, ty) + ";\n"@;
    let all = primitive_prototypes(enums, m, f, ty);
    assert(all == doc + getter + (doc2 + setter));
    assert(all == (doc + getter + doc2) + setter + Seq::<char>::empty());
    lemma_occurs(doc, getter, doc2 + setter);
    lemma_occurs(doc + getter + doc2, setter, Seq::empty());
}

proof fn lemma_primitive_source(
    enums: Enums,
    m: MessageView,
    f: FieldView,
    ty: TypeView,
    stored: TypeView,
)
    requires
        !(stored is String),
    ensures
        occurs(
            primitive_source(enums, m, f, ty, scalar_of_stored(stored)),
            element_getter_signature(enums, m, f, ty) + "{\n"@ + element_getter_statements(
                m,
                f,
                stored,
            ) + "}\n"@,
        ),
        occurs(
            primitive_source(enums, m, f, ty, scalar_of_stored(stored)),
            element_setter_signature(enums, m, f, ty) + "{\n"@ + element_setter_statements(
                m,
                f,
                stored,
            ) + "}\n"@,
        ),
{
    broadcast use group_append;

    reveal(primitive_source);
    reveal(element_index);
    reveal(bail_out);
    lemma_endings();
    law_readers_and_writers_are_pairs(stored);
    let doc = element_getter_doc(f.name, f.name, f.comments);
    let doc2 = element_setter_doc(f.name, f.name, f.comments);
    let getter = element_getter_signature(enums, m, f, ty) + "{\n"@ + element_getter_statements(
        m,
        f,
        stored,
    ) + "}\n"@;
    let setter = element_setter_signature(enums, m, f, ty) + "{\n"@ + element_setter_statements(
        m,
        f,
        stored,
    ) + "}\n"@;
    let all = primitive_source(enums, m, f, ty, scalar_of_stored(stored));
    assert(all == doc + getter + (doc2 + setter));
    assert(all == (doc + getter + doc2) + setter + Seq::<char>::empty());
    lemma_occurs(doc, getter, doc2 + setter);
    lemma_occurs(doc + getter + doc2, setter, Seq::empty());
}

/// The elements of a sequence of single values that are no strings can be read and written.
pub proof fn law_elements_can_be_read_and_written(c: ContextView, i: int, j: int, ty: TypeView)
    requires
        0 <= i < c.messages.len(),
        0 <= j < c.messages[i].fields.len(),
        c.messages[i].fields[j].kind == FieldKindView::Sequence(ElementView::Primitive(ty)),
        storage(c.tables.enums, ty) matches Some(stored) && !(stored is String),
    ensures
        ({
            let m = c.messages[i];
            let f = m.fields[j];
            let stored = storage(c.tables.enums, ty).unwrap();
            &&& declared_and_defined(
                c,
                element_getter_signature(c.tables.enums, m, f, ty),
                element_getter_statements(m, f, stored),
            )
            &&& declared_and_defined(
                c,
                element_setter_signature(c.tables.enums, m, f, ty),
                element_setter_statements(m, f, stored),
            )
        }),
{
    let enums = c.tables.enums;
    let m = c.messages[i];
    let f = m.fields[j];
    let stored = storage(enums, ty).unwrap();
    let getter = element_getter_signature(enums, m, f, ty) + ";\n"@;
    let setter = element_setter_signature(enums, m, f, ty) + ";\n"@;
    let getting = element_getter_signature(enums, m, f, ty) + "{\n"@ + element_getter_statements(
        m,
        f,
        stored,
    ) + "}\n"@;
    let setting = element_setter_signature(enums, m, f, ty) + "{\n"@ + element_setter_statements(
        m,
        f,
        stored,
    ) + "}\n"@;
    lemma_primitive_header(enums, m, f, ty);
    lemma_primitive_source(enums, m, f, ty, stored);
    lemma_element_in_header(enums, m, f, ElementView::Primitive(ty), getter);
    lemma_element_in_header(enums, m, f, ElementView::Primitive(ty), setter);
    assert(occurs(field_source(enums, m, f), getting) && occurs(
        field_source(enums, m, f),
        setting,
    )) by {
        broadcast use lemma_occurs_in_sum;

    }
    lemma_field_function(
        c,
        i,
        j,
        element_getter_signature(enums, m, f, ty),
        element_getter_statements(m, f, stored),
    );
    lemma_field_function(
        c,
        i,
        j,
        element_setter_signature(enums, m, f, ty),
        element_setter_statements(m, f, stored),
    );
}

proof fn lemma_element_in_header(
    enums: Enums,
    m: MessageView,
    f: FieldView,
    element: ElementView,
    part: Text,
)
    requires
        f.kind == FieldKindView::Sequence(element),
        occurs(element_prototypes(enums, m, f, element), part),
    ensures
        occurs(field_prototypes(enums, m, f), part),
{
    broadcast use lemma_occurs_in_sum;

    reveal(field_prototypes);
}

/// How the functions that get and set a member of a structure in a sequence are declared.
pub open spec fn member_getter_signature(
    enums: Enums,
    m: MessageView,
    f: FieldView,
    sub: StructFieldView,
) -> Text {
    (if sub.ty is Boolean {
        "bool is"@
    } else {
        c_type(enums, sub.ty) + " get"@
    }) + m.name + f.capital + sub.capital + "(Bb * buf, BbBlock msg , uint32_t i0)"@
}

/// How the function that writes a member of an element is written.
pub open spec fn member_setter_signature(
    enums: Enums,
    m: MessageView,
    f: FieldView,
    sub: StructFieldView,
) -> Text {
    "void set"@ + m.name + f.capital + sub.capital + "(Bb * buf, BbBlock msg , uint32_t i0, "@
        + c_type(enums, sub.ty) + " "@ + sub.name + ")"@
}

/// The name that every macro of a member of a structure in a sequence begins with.
pub open spec fn member_stem(m: MessageView, f: FieldView, sub: StructFieldView) -> Text {
    macro_stem(m, f) + "_"@ + screaming(sub.name)
}

/// What they do: they read and write at the same member of the same element, with a reader
/// and a writer that are a pair.
pub open spec fn member_getter_statements(
    m: MessageView,
    f: FieldView,
    sub: StructFieldView,
    stored: TypeView,
) -> Text {
    at_element(m, f, member_stem(m, f, sub) + "_INDEX"@) + (if stored is Boolean {
        "\treturn getBbBool(buf, msg, i, "@ + member_stem(m, f, sub) + "_MASK"@ + ");\n"@
    } else {
        "\treturn "@ + "get"@ + "Bb"@ + helper_suffix(stored) + "(buf, msg, i);\n"@
    })
}

/// What the function that writes a member of an element does.
pub open spec fn member_setter_statements(
    m: MessageView,
    f: FieldView,
    sub: StructFieldView,
    stored: TypeView,
) -> Text {
    at_element(m, f, member_stem(m, f, sub) + "_INDEX"@) + leaving(""@) + (if stored is Boolean {
        "\tsetBbBool(buf, msg, i, "@ + member_stem(m, f, sub) + "_MASK"@ + ", "@ + sub.name
            + ");\n"@
    } else {
        "\t"@ + "set"@ + "Bb"@ + helper_suffix(stored) + "(buf, msg, i, "@ + sub.name + ");\n"@
    })
}

proof fn lemma_member_header(enums: Enums, m: MessageView, f: FieldView, sub: StructFieldView)
    ensures
        occurs(
            sub_field_prototypes(enums, m, f, sub),
            member_getter_signature(enums, m, f, sub) + ";\n"@,
        ),
        occurs(
            sub_field_prototypes(enums, m, f, sub),
            member_setter_signature(enums, m, f, sub) + ";\n"@,
        ),
{
    broadcast use group_append;

    reveal(sub_field_prototypes);
    lemma_endings();
    let doc = element_getter_doc(sub.name, f.name, sub.comments);
    let doc2 = element_setter_doc(sub.name, f.name, sub.comments);
    let getter = member_getter_signature(enums, m, f, sub) + ";\n"@;
    let setter = member_setter_signature(enums, m, f, sub) + ";\n"@;
    let all = sub_field_prototypes(enums, m, f, sub);
    assert(all == doc + getter + (doc2 + setter));
    assert(all == (doc + getter + doc2) + setter + Seq::<char>::empty());
    lemma_occurs(doc, getter, doc2 + setter);
    lemma_occurs(doc + getter + doc2, setter, Seq::empty());
}

#[verifier::rlimit(50)]
#[verifier::spinoff_prover]
pub proof fn lemma_member_getter(
    enums: Enums,
    m: MessageView,
    f: FieldView,
    sub: StructFieldView,
    stored: TypeView,
)
    requires
        !(stored is String),
        stored is Boolean <==> sub.ty is Boolean,
    ensures
        sub_field_getter(enums, m, f, sub, scalar_of_stored(stored)) == element_getter_doc(
            sub.name,
            f.name,
            sub.comments,
        ) + (member_getter_signature(enums, m, f, sub) + "{\n"@ + member_getter_statements(
            m,
            f,
            sub,
            stored,
        ) + "}\n"@),
{
    broadcast use group_append;

    reveal(sub_field_getter);
    reveal(element_index);
    lemma_element_endings();
    law_readers_and_writers_are_pairs(stored);
}

#[verifier::rlimit(50)]
#[verifier::spinoff_prover]
pub proof fn lemma_member_setter(
    enums: Enums,
    m: MessageView,
    f: FieldView,
    sub: StructFieldView,
    stored: TypeView,
)
    requires
        !(stored is String),
    ensures
        sub_field_setter(enums, m, f, sub, scalar_of_stored(stored)) == element_setter_doc(
            sub.name,
            f.name,
            sub.comments,
        ) + (member_setter_signature(enums, m, f, sub) + "{\n"@ + member_setter_statements(
            m,
            f,
            sub,
            stored,
        ) + "}\n"@),
{
    broadcast use group_append;

    reveal(sub_field_setter);
    reveal(element_index);
    reveal(bail_out);
    lemma_element_endings();
    law_readers_and_writers_are_pairs(stored);
}

proof fn lemma_member_in_header(
    enums: Enums,
    m: MessageView,
    f: FieldView,
    subs: Seq<StructFieldView>,
    n: nat,
    k: int,
    part: Text,
)
    requires
        0 <= k < n,
        occurs(sub_field_prototypes(enums, m, f, subs[k]), part),
    ensures
        occurs(sub_fields_prototypes(enums, m, f, subs, n), part),
    decreases n,
{
    broadcast use lemma_occurs_in_sum;

    if k < n - 1 {
        lemma_member_in_header(enums, m, f, subs, (n - 1) as nat, k, part);
    }
}

proof fn lemma_member_in_source(
    enums: Enums,
    m: MessageView,
    f: FieldView,
    subs: Seq<StructFieldView>,
    n: nat,
    k: int,
    part: Text,
)
    requires
        0 <= k < n,
        occurs(sub_field_source(enums, m, f, subs[k]), part),
    ensures
        occurs(sub_fields_source(enums, m, f, subs, n), part),
    decreases n,
{
    broadcast use lemma_occurs_in_sum;

    if k < n - 1 {
        lemma_member_in_source(enums, m, f, subs, (n - 1) as nat, k, part);
    }
}

/// Every member of a structure in a sequence that is no string can be read and written.
pub proof fn law_members_can_be_read_and_written(c: ContextView, i: int, j: int, k: int)
    requires
        0 <= i < c.messages.len(),
        0 <= j < c.messages[i].fields.len(),
        ({
            &&& c.messages[i].fields[j].kind matches FieldKindView::Sequence(ElementView::Struct(s))
            &&& 0 <= k < s.fields.len()
            &&& storage(c.tables.enums, s.fields[k].ty) matches Some(stored)
            &&& !(stored is String)
            &&& stored is Boolean <==> s.fields[k].ty is Boolean
        }),
    ensures
        ({
            let m = c.messages[i];
            let f = m.fields[j];
            let sub = f.kind->Sequence_0->Struct_0.fields[k];
            let stored = storage(c.tables.enums, sub.ty).unwrap();
            &&& declared_and_defined(
                c,
                member_getter_signature(c.tables.enums, m, f, sub),
                member_getter_statements(m, f, sub, stored),
            )
            &&& declared_and_defined(
                c,
                member_setter_signature(c.tables.enums, m, f, sub),
                member_setter_statements(m, f, sub, stored),
            )
        }),
{
    let enums = c.tables.enums;
    let m = c.messages[i];
    let f = m.fields[j];
    let element = f.kind->Sequence_0;
    let subs = element->Struct_0.fields;
    let sub = subs[k];
    let stored = storage(enums, sub.ty).unwrap();
    let getter = member_getter_signature(enums, m, f, sub);
    let setter = member_setter_signature(enums, m, f, sub);
    let getting = getter + "{\n"@ + member_getter_statements(m, f, sub, stored) + "}\n"@;
    let setting = setter + "{\n"@ + member_setter_statements(m, f, sub, stored) + "}\n"@;
    lemma_member_header(enums, m, f, sub);
    lemma_member_in_header(enums, m, f, subs, subs.len(), k, getter + ";\n"@);
    lemma_member_in_header(enums, m, f, subs, subs.len(), k, setter + ";\n"@);
    lemma_element_in_header(enums, m, f, element, getter + ";\n"@);
    lemma_element_in_header(enums, m, f, element, setter + ";\n"@);
    lemma_member_getter(enums, m, f, sub, stored);
    lemma_member_setter(enums, m, f, sub, stored);
    assert(occurs(sub_field_source(enums, m, f, sub), getting) && occurs(
        sub_field_source(enums, m, f, sub),
        setting,
    )) by {
        broadcast use lemma_occurs_in_sum;

        lemma_occurs(Seq::empty(), getting, Seq::empty());
        lemma_occurs(Seq::empty(), setting, Seq::empty());
        assert(Seq::<char>::empty() + getting + Seq::<char>::empty() =~= getting);
        assert(Seq::<char>::empty() + setting + Seq::<char>::empty() =~= setting);
    }
    lemma_member_in_source(enums, m, f, subs, subs.len(), k, getting);
    lemma_member_in_source(enums, m, f, subs, subs.len(), k, setting);
    assert(occurs(field_source(enums, m, f), getting) && occurs(
        field_source(enums, m, f),
        setting,
    )) by {
        broadcast use lemma_occurs_in_sum;

    }
    lemma_field_function(c, i, j, getter, member_getter_statements(m, f, sub, stored));
    lemma_field_function(c, i, j, setter, member_setter_statements(m, f, sub, stored));
}

/// Whether text is a comment that holds these lines, each after a star.
pub open spec fn comments_on(doc: Text, lines: Seq<Text>) -> bool {
    &&& "/**\n"@.is_prefix_of(doc)
    &&& has_suffix(doc, " */\n"@)
    &&& forall|k: int|
        0 <= k < lines.len() ==> occurs(doc, " * "@ + cleaned(#[trigger] lines[k]) + "\n"@)
}

proof fn lemma_doc_comments(lines: Seq<Text>, extra: Seq<Text>)
    ensures
        comments_on(doc_block(lines, extra), extra),
        comments_on(doc_block(lines, extra), lines),
{
    let doc = doc_block(lines, extra);
    let open = "/**\n"@;
    let close = " */\n"@;
    assert(doc.subrange(0, open.len() as int) =~= open);
    assert(doc.skip(doc.len() - close.len()) =~= close);
    assert forall|k: int| 0 <= k < extra.len() implies occurs(
        doc,
        " * "@ + cleaned(#[trigger] extra[k]) + "\n"@,
    ) by {
        law_comments_keep_every_line(lines, extra, k);
    }
    assert forall|k: int| 0 <= k < lines.len() implies occurs(
        doc,
        " * "@ + cleaned(#[trigger] lines[k]) + "\n"@,
    ) by {
        law_comments_keep_every_line(lines, extra, k);
    }
}

/// The getter of a single value and the function that tests for it each stand in the header and,
/// but for the getter of a string, in the source directly after a comment with the lines of the
/// field's own comment.
pub proof fn law_single_values_are_documented(c: ContextView, i: int, j: int)
    requires
        0 <= i < c.messages.len(),
        0 <= j < c.messages[i].fields.len(),
        single_value(c.tables.enums, c.messages[i].fields[j]) is Some,
    ensures
        ({
            let m = c.messages[i];
            let f = m.fields[j];
            let (ty, stored) = single_value(c.tables.enums, f).unwrap();
            let getter = getter_signature(c.tables.enums, m, f, ty) + ";\n"@;
            let presence = presence_signature(m, f) + ";\n"@;
            &&& exists|doc: Text|
                comments_on(doc, f.comments) && occurs(header_text(c), #[trigger] (doc + getter))
            &&& exists|doc: Text|
                comments_on(doc, f.comments) && occurs(header_text(c), #[trigger] (doc + presence))
        }),
{
    let enums = c.tables.enums;
    let m = c.messages[i];
    let f = m.fields[j];
    let (ty, stored) = single_value(enums, f).unwrap();
    let getter = getter_signature(enums, m, f, ty) + ";\n"@;
    let presence = presence_signature(m, f) + ";\n"@;
    let said = seq![sentence("A getter for the "@, f.name, " field"@)];
    let said2 = seq![sentence("Tests if the current message containts the "@, f.name, " field"@)];
    let doc = doc_block(said, f.comments);
    let doc2 = doc_block(said2, f.comments);
    lemma_doc_comments(said, f.comments);
    lemma_doc_comments(said2, f.comments);
    assert(occurs(scalar_prototypes(enums, m, f, ty), doc + getter) && occurs(
        scalar_prototypes(enums, m, f, ty),
        doc2 + presence,
    )) by {
        broadcast use group_append;

        reveal(scalar_prototypes);
        lemma_endings();
        let all = scalar_prototypes(enums, m, f, ty);
        assert(all == Seq::<char>::empty() + (doc + getter) + (doc2 + presence));
        assert(all == (doc + getter) + (doc2 + presence) + Seq::<char>::empty());
        lemma_occurs(Seq::empty(), doc + getter, doc2 + presence);
        lemma_occurs(doc + getter, doc2 + presence, Seq::empty());
    }
    reveal(field_prototypes);
    lemma_header_part(c, i, j, doc + getter);
    lemma_header_part(c, i, j, doc2 + presence);
}

proof fn lemma_header_part(c: ContextView, i: int, j: int, part: Text)
    requires
        0 <= i < c.messages.len(),
        0 <= j < c.messages[i].fields.len(),
        occurs(
            field_prototypes(c.tables.enums, c.messages[i], c.messages[i].fields[j]),
            part,
        ),
    ensures
        occurs(header_text(c), part),
{
    let enums = c.tables.enums;
    let m = c.messages[i];
    lemma_field_in_header(enums, m, m.fields.len(), j, part);
    assert(occurs(message_prototypes(enums, m), part)) by {
        broadcast use lemma_occurs_in_sum;

        reveal(message_prototypes);
    }
    lemma_in_header(c, i, part);
}

proof fn lemma_builder_param(fields: Seq<FieldView>, n: nat, j: int)
    requires
        0 <= j < n <= fields.len(),
        fields[j].kind is Scalar,
    ensures
        occurs(
            builder_params(fields, n),
            " * @param "@ + fields[j].name + (if fields[j].comments.len() > 0 {
                " - "@ + cleaned(fields[j].comments[0]) + "\n"@
            } else {
                "\n"@
            }),
        ),
    decreases n,
{
    broadcast use {group_append, lemma_occurs_in_sum};

    let part = " * @param "@ + fields[j].name + (if fields[j].comments.len() > 0 {
        " - "@ + cleaned(fields[j].comments[0]) + "\n"@
    } else {
        "\n"@
    });
    let before = builder_params(fields, (n - 1) as nat);
    if j < n - 1 {
        lemma_builder_param(fields, (n - 1) as nat, j);
    } else {
        assert(builder_params(fields, n) == before + part + Seq::<char>::empty());
        lemma_occurs(before, part, Seq::empty());
    }
}

/// The builder of a message stands in the header directly after a comment with the lines of the
/// message's own comment and a line for each single value, with the first line of its comment
/// where it has one.
pub proof fn law_builders_are_documented(c: ContextView, i: int, j: int)
    requires
        0 <= i < c.messages.len(),
    ensures
        ({
            let m = c.messages[i];
            let built = builder_signature(c.tables.enums, m) + ";\n"@;
            exists|doc: Text|
                comments_on(doc, m.comments) && occurs(header_text(c), #[trigger] (doc + built)) && (0
                    <= j < m.fields.len() && m.fields[j].kind is Scalar ==> occurs(
                    doc,
                    " * @param "@ + m.fields[j].name + (if m.fields[j].comments.len() > 0 {
                        " - "@ + cleaned(m.fields[j].comments[0]) + "\n"@
                    } else {
                        "\n"@
                    }),
                ))
        }),
{
    let enums = c.tables.enums;
    let m = c.messages[i];
    let signature = builder_signature(enums, m);
    let built = signature + ";\n"@;
    let doc = builder_doc(m);
    let params = m.fields.map_values(|f: FieldView| parameter_of(enums, f));
    lemma_params_are_joined(enums, m.fields, m.fields.len());
    assert(params.take(m.fields.len() as int) =~= params);
    reveal(add_signature);
    assert(add_signature(enums, m) == signature);
    assert(occurs(message_prototypes(enums, m), doc + built)) by {
        broadcast use group_append;

        reveal(message_prototypes);
        let rest = doc_block(
            seq!["Tests if the current message has no fields present."@],
            m.comments,
        ) + "bool is"@ + m.name + "Empty(Bb * buf, BbBlock msg);\n"@ + doc_block(
            seq!["Tests if the current message has all defined fields present."@],
            m.comments,
        ) + "bool is"@ + m.name + "Full(Bb * buf, BbBlock msg);\n"@ + fields_prototypes(
            enums,
            m,
            m.fields.len(),
        );
        assert(message_prototypes(enums, m) == Seq::<char>::empty() + (doc + built) + rest);
        lemma_occurs(Seq::empty(), doc + built, rest);
    }
    lemma_in_header(c, i, doc + built);
    assert(comments_on(doc, m.comments)) by {
        reveal(builder_doc);
        let open = "/**\n"@;
        let close = " */\n"@;
        assert(doc.subrange(0, open.len() as int) =~= open);
        assert(doc.skip(doc.len() - close.len()) =~= close);
        assert forall|k: int| 0 <= k < m.comments.len() implies occurs(
            doc,
            " * "@ + cleaned(#[trigger] m.comments[k]) + "\n"@,
        ) by {
            broadcast use lemma_occurs_in_sum;

            reveal_strlit("");
            assert(""@ =~= Seq::<char>::empty());
            lemma_comment_line(m.comments, ""@, m.comments.len(), k);
            assert(""@ + " * "@ =~= " * "@);
        }
    }
    if 0 <= j < m.fields.len() && m.fields[j].kind is Scalar {
        lemma_builder_param(m.fields, m.fields.len(), j);
        let part = " * @param "@ + m.fields[j].name + (if m.fields[j].comments.len() > 0 {
            " - "@ + cleaned(m.fields[j].comments[0]) + "\n"@
        } else {
            "\n"@
        });
        assert(occurs(doc, part)) by {
            broadcast use lemma_occurs_in_sum;

            reveal(builder_doc);
        }
    }
}

} // verus!
