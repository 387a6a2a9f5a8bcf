//! What the two files hold for a message, and that they hold nothing else for it.
use vstd::prelude::*;
use crate::ast::TypeView;
use crate::c::banners::{
    AUTOGEN_BANNER, LICENSE_BANNER, SECTION_DEFINES, SECTION_INCLUDES, SECTION_PROTOTYPES,
    SECTION_SOURCE, SECTION_TOPICS, SECTION_TYPES, SECTION_VARIABLES,
};
use crate::c::docs::{
    builder_doc, comment_block, doc_block, element_getter_doc, element_setter_doc, sentence,
};
use crate::c::functions::{
    at_element, builder_signature, builder_statements, element_getter_signature,
    element_getter_statements, element_setter_signature, element_setter_statements,
    emptiness_signature, fields_are_stored, fullness_signature, getter_signature, getter_statements,
    init_signature, init_statements, leaving, lemma_element_endings, lemma_endings,
    lemma_joined_push, lemma_member_getter, lemma_member_setter, lemma_params_are_joined,
    lemma_writes_are_joined, length_signature, length_statements, macro_stem,
    member_getter_signature, member_getter_statements, member_setter_signature,
    member_setter_statements, member_stem, parameter_of, presence_signature, presence_statements,
    written,
};
use crate::c::context::ContextView;
use crate::c::macros::{
    byte_counts_upto, fields_macros, key_literal, key_macro_name, masks_upto, message_macros,
    sub_macros, sub_masks, Numbering,
};
use crate::c::model::{
    ElementView, EnumValueView, EnumView, FieldKindView, FieldView, MessageView, StructFieldView,
};
use crate::c::names::screaming;
use crate::c::prototypes::{
    add_signature, enum_declaration, enum_values, field_prototypes, fields_prototypes,
    message_prototypes, primitive_prototypes, scalar_prototypes, sub_field_prototypes,
    sub_fields_prototypes,
};
use crate::c::render::{
    byte_count_lines, enum_declarations, header_text, key_macros, key_names, length_lines,
    lines_text, mask_lines, message_names, message_summary, numbering_lines, prototypes_in_order,
    source_macros, source_text, sources_in_order, summary_lines, topic_declarations, topic_lines,
    topic_names,
};
use crate::c::source::{
    add_source, bail_out, element_index, element_source, field_source, fields_source, getter_body,
    message_source, presence_source, primitive_source, scalar_source, sequence_frame, simple_getter,
    sub_field_getter, sub_field_setter, sub_field_source, sub_fields_source,
};
use crate::c::tables::{storage, Enums};
use crate::c::types::{c_type, law_readers_and_writers_are_pairs, scalar_of_stored};
use crate::concat::{group_append, Text};
use crate::order::{distinct_lines, law_order_is_sorted_and_stable, sorted_lines, stable_order};
use crate::text::joined;

verus! {

/// A function as it is declared.
pub open spec fn declared(signature: Text) -> Text {
    signature + ";\n"@
}

/// A function as it is defined.
pub open spec fn defined(signature: Text, statements: Text) -> Text {
    signature + "{\n"@ + statements + "}\n"@
}

/// The comment before a function on a field.
pub open spec fn remark(before: Text, name: Text, after: Text, comments: Seq<Text>) -> Text {
    doc_block(seq![sentence(before, name, after)], comments)
}

/// The comment before a function on a message.
pub open spec fn message_remark(text: Text, comments: Seq<Text>) -> Text {
    doc_block(seq![text], comments)
}

/// Whether a value is read and written as what it is: no string, and a truth value only where
/// its type is that.
pub open spec fn is_plain(enums: Enums, ty: TypeView) -> bool {
    storage(enums, ty) matches Some(stored) && !(stored is String) && (stored is Boolean
        <==> ty is Boolean)
}

/// Whether every value in a field is read and written as what it is; elements that are single
/// values need only be no strings.
pub open spec fn holds_plain_values(enums: Enums, f: FieldView) -> bool {
    match f.kind {
        FieldKindView::Scalar(ty) => is_plain(enums, ty),
        FieldKindView::Sequence(ElementView::Primitive(ty)) => {
            storage(enums, ty) matches Some(stored) && !(stored is String)
        },
        FieldKindView::Sequence(ElementView::Struct(s)) => forall|k: int|
            0 <= k < s.fields.len() ==> is_plain(enums, (#[trigger] s.fields[k]).ty),
    }
}

/// What the header holds for the elements of a sequence.
pub open spec fn member_declarations(
    enums: Enums,
    m: MessageView,
    f: FieldView,
    sub: StructFieldView,
) -> Text {
    element_getter_doc(sub.name, f.name, sub.comments) + declared(
        member_getter_signature(enums, m, f, sub),
    ) + element_setter_doc(sub.name, f.name, sub.comments) + declared(
        member_setter_signature(enums, m, f, sub),
    )
}

/// What the header holds for a field.
pub open spec fn field_declarations(enums: Enums, m: MessageView, f: FieldView) -> Text {
    match f.kind {
        FieldKindView::Scalar(ty) => remark("A getter for the "@, f.name, " field"@, f.comments)
            + declared(getter_signature(enums, m, f, ty)) + remark(
            "Tests if the current message containts the "@,
            f.name,
            " field"@,
            f.comments,
        ) + declared(presence_signature(m, f)),
        FieldKindView::Sequence(element) => (match element {
            ElementView::Primitive(ty) => remark(
                "A getter for the "@,
                f.name,
                " field"@,
                f.comments,
            ) + declared(element_getter_signature(enums, m, f, ty)) + remark(
                "A setter for the "@,
                f.name,
                " field"@,
                f.comments,
            ) + declared(element_setter_signature(enums, m, f, ty)),
            ElementView::Struct(s) => joined(
                s.fields.map_values(
                    |sub: StructFieldView| member_declarations(enums, m, f, sub),
                ),
                ""@,
            ),
        }) + remark("A function to initialize a "@, f.words, " Sequence"@, f.comments) + declared(
            init_signature(m, f),
        ) + remark(
            "Gets the defined length of a sequence "@,
            f.words,
            " Sequence"@,
            f.comments,
        ) + declared(length_signature(m, f)),
    }
}

/// What the source holds for a member of a structure in a sequence.
pub open spec fn member_definitions(
    enums: Enums,
    m: MessageView,
    f: FieldView,
    sub: StructFieldView,
) -> Text {
    let stored = storage(enums, sub.ty).unwrap();
    element_getter_doc(sub.name, f.name, sub.comments) + defined(
        member_getter_signature(enums, m, f, sub),
        member_getter_statements(m, f, sub, stored),
    ) + element_setter_doc(sub.name, f.name, sub.comments) + defined(
        member_setter_signature(enums, m, f, sub),
        member_setter_statements(m, f, sub, stored),
    )
}

/// What the source holds for a field.
pub open spec fn field_definitions(enums: Enums, m: MessageView, f: FieldView) -> Text {
    match f.kind {
        FieldKindView::Scalar(ty) => remark("A getter for the "@, f.name, " field"@, f.comments)
            + defined(
            getter_signature(enums, m, f, ty),
            getter_statements(m, f, storage(enums, ty).unwrap()),
        ) + remark(
            "Tests if the current message containts the "@,
            f.name,
            " field"@,
            f.comments,
        ) + defined(presence_signature(m, f), presence_statements(m, f)),
        FieldKindView::Sequence(element) => (match element {
            ElementView::Primitive(ty) => element_getter_doc(f.name, f.name, f.comments) + defined(
                element_getter_signature(enums, m, f, ty),
                element_getter_statements(m, f, storage(enums, ty).unwrap()),
            ) + element_setter_doc(f.name, f.name, f.comments) + defined(
                element_setter_signature(enums, m, f, ty),
                element_setter_statements(m, f, storage(enums, ty).unwrap()),
            ),
            ElementView::Struct(s) => joined(
                s.fields.map_values(
                    |sub: StructFieldView| member_definitions(enums, m, f, sub),
                ),
                ""@,
            ),
        }) + remark("A function to initialize a "@, f.words, " Sequence"@, f.comments) + defined(
            init_signature(m, f),
            init_statements(m, f),
        ) + remark(
            "Gets the defined length of a sequence "@,
            f.words,
            " Sequence"@,
            f.comments,
        ) + defined(length_signature(m, f), length_statements(m, f)),
    }
}

#[verifier::spinoff_prover]
proof fn lemma_members_declared(
    enums: Enums,
    m: MessageView,
    f: FieldView,
    subs: Seq<StructFieldView>,
    n: nat,
)
    requires
        n <= subs.len(),
    ensures
        sub_fields_prototypes(enums, m, f, subs, n) == joined(
            subs.map_values(|sub: StructFieldView| member_declarations(enums, m, f, sub)).take(
                n as int,
            ),
            ""@,
        ),
    decreases n,
{
    let parts = subs.map_values(|sub: StructFieldView| member_declarations(enums, m, f, sub));
    if n > 0 {
        lemma_members_declared(enums, m, f, subs, (n - 1) as nat);
        assert(parts.take(n as int) =~= parts.take(n - 1).push(parts[n - 1]));
        lemma_joined_push(parts.take(n - 1), parts[n - 1]);
        lemma_member_declared(enums, m, f, subs[n - 1]);
    }
}

#[verifier::spinoff_prover]
proof fn lemma_member_declared(enums: Enums, m: MessageView, f: FieldView, sub: StructFieldView)
    ensures
        sub_field_prototypes(enums, m, f, sub) == member_declarations(enums, m, f, sub),
{
    broadcast use group_append;

    reveal(sub_field_prototypes);
    lemma_endings();
}

#[verifier::spinoff_prover]
proof fn lemma_members_defined(
    enums: Enums,
    m: MessageView,
    f: FieldView,
    subs: Seq<StructFieldView>,
    n: nat,
)
    requires
        n <= subs.len(),
        forall|k: int| 0 <= k < subs.len() ==> is_plain(enums, (#[trigger] subs[k]).ty),
    ensures
        sub_fields_source(enums, m, f, subs, n) == joined(
            subs.map_values(|sub: StructFieldView| member_definitions(enums, m, f, sub)).take(
                n as int,
            ),
            ""@,
        ),
    decreases n,
{
    let parts = subs.map_values(|sub: StructFieldView| member_definitions(enums, m, f, sub));
    if n > 0 {
        lemma_members_defined(enums, m, f, subs, (n - 1) as nat);
        assert(parts.take(n as int) =~= parts.take(n - 1).push(parts[n - 1]));
        lemma_joined_push(parts.take(n - 1), parts[n - 1]);
        let sub = subs[n - 1];
        let stored = storage(enums, sub.ty).unwrap();
        assert(is_plain(enums, sub.ty));
        lemma_member_getter(enums, m, f, sub, stored);
        lemma_member_setter(enums, m, f, sub, stored);
        assert(sub_field_source(enums, m, f, sub) == member_definitions(enums, m, f, sub)) by {
            broadcast use group_append;

        }
    }
}

#[verifier::spinoff_prover]
proof fn lemma_field_declared(enums: Enums, m: MessageView, f: FieldView)
    ensures
        field_prototypes(enums, m, f) == field_declarations(enums, m, f),
{
    reveal(field_prototypes);
    lemma_endings();
    match f.kind {
        FieldKindView::Scalar(ty) => {
            broadcast use group_append;

            reveal(scalar_prototypes);
        },
        FieldKindView::Sequence(element) => {
            match element {
                ElementView::Primitive(ty) => {
                    broadcast use group_append;

                    reveal(primitive_prototypes);
                },
                ElementView::Struct(s) => {
                    broadcast use group_append;

                    lemma_members_declared(enums, m, f, s.fields, s.fields.len());
                    let parts = s.fields.map_values(
                        |sub: StructFieldView| member_declarations(enums, m, f, sub),
                    );
                    assert(parts.take(s.fields.len() as int) =~= parts);
                },
            }
        },
    }
}

#[verifier::spinoff_prover]
proof fn lemma_getter_defined(
    enums: Enums,
    m: MessageView,
    f: FieldView,
    ty: TypeView,
    stored: TypeView,
)
    requires
        !(stored is String),
        stored is Boolean <==> ty is Boolean,
    ensures
        getter_body(enums, m, f, ty, scalar_of_stored(stored)) == defined(
            getter_signature(enums, m, f, ty),
            getter_statements(m, f, stored),
        ),
{
    broadcast use group_append;

    reveal(getter_body);
    reveal(simple_getter);
    lemma_endings();
    law_readers_and_writers_are_pairs(stored);
}

#[verifier::spinoff_prover]
proof fn lemma_scalar_defined(
    enums: Enums,
    m: MessageView,
    f: FieldView,
    ty: TypeView,
    stored: TypeView,
)
    requires
        !(stored is String),
        stored is Boolean <==> ty is Boolean,
    ensures
        scalar_source(enums, m, f, ty, scalar_of_stored(stored)) == remark(
            "A getter for the "@,
            f.name,
            " field"@,
            f.comments,
        ) + defined(getter_signature(enums, m, f, ty), getter_statements(m, f, stored)) + remark(
            "Tests if the current message containts the "@,
            f.name,
            " field"@,
            f.comments,
        ) + defined(presence_signature(m, f), presence_statements(m, f)),
{
    lemma_getter_defined(enums, m, f, ty, stored);
    let getter = getter_body(enums, m, f, ty, scalar_of_stored(stored));
    assert(scalar_source(enums, m, f, ty, scalar_of_stored(stored)) == remark(
        "A getter for the "@,
        f.name,
        " field"@,
        f.comments,
    ) + getter + remark(
        "Tests if the current message containts the "@,
        f.name,
        " field"@,
        f.comments,
    ) + defined(presence_signature(m, f), presence_statements(m, f))) by {
        broadcast use group_append;

        reveal(scalar_source);
        lemma_present_ending();
    }
}

proof fn lemma_present_ending()
    ensures
        "Present(Bb * buf, BbBlock msg ){\n"@ == "Present(Bb * buf, BbBlock msg )"@ + "{\n"@,
{
    lemma_endings();
}

/// Four texts after another one, taken together or in turn.
proof fn lemma_four_after(first: Text, a: Text, b: Text, c: Text, d: Text)
    ensures
        first + (a + b + c + d) == first + a + b + c + d,
{
    broadcast use group_append;

}

#[verifier::spinoff_prover]
proof fn lemma_elements_defined(
    enums: Enums,
    m: MessageView,
    f: FieldView,
    ty: TypeView,
    stored: TypeView,
)
    requires
        !(stored is String),
    ensures
        primitive_source(enums, m, f, ty, scalar_of_stored(stored)) == element_getter_doc(
            f.name,
            f.name,
            f.comments,
        ) + defined(
            element_getter_signature(enums, m, f, ty),
            element_getter_statements(m, f, stored),
        ) + element_setter_doc(f.name, f.name, f.comments) + defined(
            element_setter_signature(enums, m, f, ty),
            element_setter_statements(m, f, stored),
        ),
{
    broadcast use group_append;

    reveal(primitive_source);
    reveal(element_index);
    reveal(bail_out);
    lemma_element_endings();
    law_readers_and_writers_are_pairs(stored);
}

#[verifier::spinoff_prover]
proof fn lemma_frame_defined(m: MessageView, f: FieldView)
    ensures
        sequence_frame(m, f) == remark(
            "A function to initialize a "@,
            f.words,
            " Sequence"@,
            f.comments,
        ) + defined(init_signature(m, f), init_statements(m, f)) + remark(
            "Gets the defined length of a sequence "@,
            f.words,
            " Sequence"@,
            f.comments,
        ) + defined(length_signature(m, f), length_statements(m, f)),
{
    broadcast use group_append;

    reveal(sequence_frame);
    reveal(bail_out);
    lemma_endings();
}

#[verifier::spinoff_prover]
proof fn lemma_field_defined(enums: Enums, m: MessageView, f: FieldView)
    requires
        holds_plain_values(enums, f),
    ensures
        field_source(enums, m, f) == field_definitions(enums, m, f),
{
    match f.kind {
        FieldKindView::Scalar(ty) => {
            lemma_scalar_defined(enums, m, f, ty, storage(enums, ty).unwrap());
        },
        FieldKindView::Sequence(element) => {
            lemma_frame_defined(m, f);
            match element {
                ElementView::Primitive(ty) => {
                    lemma_elements_defined(enums, m, f, ty, storage(enums, ty).unwrap());
                },
                ElementView::Struct(s) => {
                    lemma_members_defined(enums, m, f, s.fields, s.fields.len());
                    let parts = s.fields.map_values(
                        |sub: StructFieldView| member_definitions(enums, m, f, sub),
                    );
                    assert(parts.take(s.fields.len() as int) =~= parts);
                },
            }
            lemma_four_after(
                element_source(enums, m, f, element),
                remark("A function to initialize a "@, f.words, " Sequence"@, f.comments),
                defined(init_signature(m, f), init_statements(m, f)),
                remark("Gets the defined length of a sequence "@, f.words, " Sequence"@, f.comments),
                defined(length_signature(m, f), length_statements(m, f)),
            );
        },
    }
}

#[verifier::spinoff_prover]
proof fn lemma_fields_declared(enums: Enums, m: MessageView, n: nat)
    requires
        n <= m.fields.len(),
    ensures
        fields_prototypes(enums, m, n) == joined(
            m.fields.map_values(|f: FieldView| field_declarations(enums, m, f)).take(n as int),
            ""@,
        ),
    decreases n,
{
    let parts = m.fields.map_values(|f: FieldView| field_declarations(enums, m, f));
    if n > 0 {
        lemma_fields_declared(enums, m, (n - 1) as nat);
        assert(parts.take(n as int) =~= parts.take(n - 1).push(parts[n - 1]));
        lemma_joined_push(parts.take(n - 1), parts[n - 1]);
        lemma_field_declared(enums, m, m.fields[n - 1]);
    }
}

#[verifier::spinoff_prover]
proof fn lemma_fields_defined(enums: Enums, m: MessageView, n: nat)
    requires
        n <= m.fields.len(),
        forall|j: int|
            0 <= j < m.fields.len() ==> holds_plain_values(enums, #[trigger] m.fields[j]),
    ensures
        fields_source(enums, m, n) == joined(
            m.fields.map_values(|f: FieldView| field_definitions(enums, m, f)).take(n as int),
            ""@,
        ),
    decreases n,
{
    let parts = m.fields.map_values(|f: FieldView| field_definitions(enums, m, f));
    if n > 0 {
        lemma_fields_defined(enums, m, (n - 1) as nat);
        assert(parts.take(n as int) =~= parts.take(n - 1).push(parts[n - 1]));
        lemma_joined_push(parts.take(n - 1), parts[n - 1]);
        lemma_field_defined(enums, m, m.fields[n - 1]);
    }
}

/// The header declares for a message its builder and its two tests, and then what each field
/// asks for, in declared order, and nothing else.
pub proof fn law_headers_hold_what_messages_ask_for(enums: Enums, m: MessageView)
    ensures
        message_prototypes(enums, m) == builder_doc(m) + declared(builder_signature(enums, m))
            + message_remark("Tests if the current message has no fields present."@, m.comments)
            + declared(emptiness_signature(m)) + message_remark(
            "Tests if the current message has all defined fields present."@,
            m.comments,
        ) + declared(fullness_signature(m)) + joined(
            m.fields.map_values(|f: FieldView| field_declarations(enums, m, f)),
            ""@,
        ),
{
    let parts = m.fields.map_values(|f: FieldView| field_declarations(enums, m, f));
    let params = m.fields.map_values(|f: FieldView| parameter_of(enums, f));
    lemma_fields_declared(enums, m, m.fields.len());
    lemma_params_are_joined(enums, m.fields, m.fields.len());
    assert(parts.take(m.fields.len() as int) =~= parts);
    assert(params.take(m.fields.len() as int) =~= params);
    reveal(add_signature);
    assert(add_signature(enums, m) == builder_signature(enums, m));
    reveal(message_prototypes);
    lemma_endings();
    broadcast use group_append;

}

/// The source defines for a message its builder and its two tests, and then what each field asks
/// for, in declared order, and nothing else.
pub proof fn law_sources_hold_what_messages_ask_for(enums: Enums, m: MessageView)
    requires
        forall|j: int|
            0 <= j < m.fields.len() ==> holds_plain_values(enums, #[trigger] m.fields[j]),
    ensures
        message_source(enums, m) == builder_doc(m) + defined(
            builder_signature(enums, m),
            builder_statements(enums, m),
        ) + message_remark("Tests if the current message has no fields present."@, m.comments)
            + defined(
            emptiness_signature(m),
            "\treturn getBbMessageMaxOrdinal(buf, msg) <= 2;//will always be length and ordinal fields\n"@,
        ) + message_remark(
            "Tests if the current message has all defined fields present."@,
            m.comments,
        ) + defined(
            fullness_signature(m),
            "\treturn getBbMessageMaxOrdinal(buf, msg) >= "@ + screaming(m.name)
                + "_MAX_ORDINAL;\n"@,
        ) + joined(m.fields.map_values(|f: FieldView| field_definitions(enums, m, f)), ""@),
{
    let parts = m.fields.map_values(|f: FieldView| field_definitions(enums, m, f));
    lemma_fields_defined(enums, m, m.fields.len());
    assert(parts.take(m.fields.len() as int) =~= parts);
    lemma_add_defined(enums, m);
    lemma_tests_defined(m);
    broadcast use group_append;

}

#[verifier::spinoff_prover]
proof fn lemma_add_defined(enums: Enums, m: MessageView)
    requires
        forall|j: int|
            0 <= j < m.fields.len() ==> holds_plain_values(enums, #[trigger] m.fields[j]),
    ensures
        add_source(enums, m) == builder_doc(m) + defined(
            builder_signature(enums, m),
            builder_statements(enums, m),
        ),
{
    let params = m.fields.map_values(|f: FieldView| parameter_of(enums, f));
    let writes = m.fields.map_values(|f: FieldView| written(enums, m, f));
    assert(fields_are_stored(enums, m)) by {
        assert forall|j: int| 0 <= j < m.fields.len() implies match (#[trigger] m.fields[j]).kind {
            FieldKindView::Scalar(ty) => storage(enums, ty) matches Some(stored)
                && stored != (TypeView::String { bound: None }),
            _ => true,
        } by {
            assert(holds_plain_values(enums, m.fields[j]));
        }
    }
    lemma_params_are_joined(enums, m.fields, m.fields.len());
    lemma_writes_are_joined(enums, m, m.fields.len());
    assert(params.take(m.fields.len() as int) =~= params);
    assert(writes.take(m.fields.len() as int) =~= writes);
    reveal(add_signature);
    assert(add_signature(enums, m) == builder_signature(enums, m));
    reveal(add_source);
    broadcast use group_append;

}

#[verifier::spinoff_prover]
proof fn lemma_tests_defined(m: MessageView)
    ensures
        presence_source(m) == message_remark(
            "Tests if the current message has no fields present."@,
            m.comments,
        ) + defined(
            emptiness_signature(m),
            "\treturn getBbMessageMaxOrdinal(buf, msg) <= 2;//will always be length and ordinal fields\n"@,
        ) + message_remark(
            "Tests if the current message has all defined fields present."@,
            m.comments,
        ) + defined(
            fullness_signature(m),
            "\treturn getBbMessageMaxOrdinal(buf, msg) >= "@ + screaming(m.name)
                + "_MAX_ORDINAL;\n"@,
        ),
{
    broadcast use group_append;

    reveal(presence_source);
    lemma_endings();
}

/// How many numbers a field has: one for a single value; for a sequence one for its
/// placeholder, and one for its data or for each member of its elements.
pub open spec fn numbers_of(f: FieldView) -> nat {
    match f.kind {
        FieldKindView::Scalar(_) => 1,
        FieldKindView::Sequence(ElementView::Primitive(_)) => 2,
        FieldKindView::Sequence(ElementView::Struct(s)) => 1 + s.fields.len(),
    }
}

/// How many numbers the first `n` fields have.
pub open spec fn numbers_upto(fields: Seq<FieldView>, n: nat) -> nat
    decreases n,
{
    if n == 0 || n > fields.len() {
        0
    } else {
        numbers_upto(fields, (n - 1) as nat) + numbers_of(fields[n - 1])
    }
}

/// How many of the first `n` members are truth values.
pub open spec fn truth_values(subs: Seq<StructFieldView>, n: nat) -> nat
    decreases n,
{
    if n == 0 || n > subs.len() {
        0
    } else {
        truth_values(subs, (n - 1) as nat) + if subs[n - 1].ty is Boolean {
            1nat
        } else {
            0nat
        }
    }
}

/// How many truth values the first `n` fields hold outside of plain sequences.
pub open spec fn truth_values_upto(fields: Seq<FieldView>, n: nat) -> nat
    decreases n,
{
    if n == 0 || n > fields.len() {
        0
    } else {
        truth_values_upto(fields, (n - 1) as nat) + match fields[n - 1].kind {
            FieldKindView::Scalar(ty) => if ty is Boolean {
                1nat
            } else {
                0nat
            },
            FieldKindView::Sequence(ElementView::Struct(s)) => truth_values(
                s.fields,
                s.fields.len(),
            ),
            _ => 0,
        }
    }
}

/// How many of the first `n` fields are sequences.
pub open spec fn sequences_upto(fields: Seq<FieldView>, n: nat) -> nat
    decreases n,
{
    if n == 0 || n > fields.len() {
        0
    } else {
        sequences_upto(fields, (n - 1) as nat) + if fields[n - 1].kind is Sequence {
            1nat
        } else {
            0nat
        }
    }
}

proof fn lemma_member_numbers(
    m: MessageView,
    f: FieldView,
    subs: Seq<StructFieldView>,
    kind: Numbering,
    n: nat,
)
    requires
        n <= subs.len(),
    ensures
        sub_macros(m, f, subs, kind, n).len() == n,
        sub_masks(m, f, subs, n).len() == truth_values(subs, n),
    decreases n,
{
    if n > 0 {
        lemma_member_numbers(m, f, subs, kind, (n - 1) as nat);
    }
}

proof fn lemma_field_numbers(enums: Enums, m: MessageView, kind: Numbering, n: nat)
    requires
        n <= m.fields.len(),
    ensures
        fields_macros(m, kind, n).len() == numbers_upto(m.fields, n),
        masks_upto(m, n).len() == truth_values_upto(m.fields, n),
        byte_counts_upto(enums, m, n).len() == sequences_upto(m.fields, n),
    decreases n,
{
    if n > 0 {
        lemma_field_numbers(enums, m, kind, (n - 1) as nat);
        let f = m.fields[n - 1];
        if let FieldKindView::Sequence(ElementView::Struct(s)) = f.kind {
            lemma_member_numbers(m, f, s.fields, kind, s.fields.len());
        }
    }
}

/// The source numbers for a message the three parts of its header and what its fields hold, masks
/// as many truth values as the message holds, and counts the bytes of as many elements as it
/// has sequences. It names nothing else for the message.
pub proof fn law_messages_name_nothing_else(enums: Enums, m: MessageView, kind: Numbering)
    ensures
        message_macros(m, kind).len() == 3 + numbers_upto(m.fields, m.fields.len()),
        masks_upto(m, m.fields.len()).len() == truth_values_upto(m.fields, m.fields.len()),
        byte_counts_upto(enums, m, m.fields.len()).len() == sequences_upto(
            m.fields,
            m.fields.len(),
        ),
{
    lemma_field_numbers(enums, m, kind, m.fields.len());
}

proof fn lemma_enum_values_are_joined(e: EnumView, n: nat)
    requires
        n <= e.values.len(),
    ensures
        enum_values(e.value_prefix, e.values, n) == joined(
            e.values.map_values(
                |v: EnumValueView|
                    "\t"@ + e.value_prefix + "_"@ + v.name + " = "@ + v.literal + ", \n"@,
            ).take(n as int),
            ""@,
        ),
    decreases n,
{
    let parts = e.values.map_values(
        |v: EnumValueView|
            "\t"@ + e.value_prefix + "_"@ + v.name + " = "@ + v.literal + ", \n"@,
    );
    if n > 0 {
        lemma_enum_values_are_joined(e, (n - 1) as nat);
        assert(parts.take(n as int) =~= parts.take(n - 1).push(parts[n - 1]));
        lemma_joined_push(parts.take(n - 1), parts[n - 1]);
        assert(enum_values(e.value_prefix, e.values, n) == enum_values(
            e.value_prefix,
            e.values,
            (n - 1) as nat,
        ) + parts[n - 1]) by {
            broadcast use group_append;

        }
    }
}

/// An enumeration is declared after its comments, with one line for each of its values in
/// declared order, and with nothing else.
pub proof fn law_enumerations_declare_nothing_else(e: EnumView)
    ensures
        enum_declaration(e) == comment_block(e.comments, ""@) + "typedef enum {\n"@ + joined(
            e.values.map_values(
                |v: EnumValueView|
                    "\t"@ + e.value_prefix + "_"@ + v.name + " = "@ + v.literal + ", \n"@,
            ),
            ""@,
        ) + "} "@ + e.typedef + ";\n"@ + "\n"@,
{
    let parts = e.values.map_values(
        |v: EnumValueView|
            "\t"@ + e.value_prefix + "_"@ + v.name + " = "@ + v.literal + ", \n"@,
    );
    reveal(enum_declaration);
    lemma_enum_values_are_joined(e, e.values.len());
    assert(parts.take(e.values.len() as int) =~= parts);
}

/// Texts one after the other, in the order of their names.
pub open spec fn in_order(parts: Seq<Text>, names: Seq<Text>) -> Text {
    joined(stable_order(names).map_values(|i: int| parts[i]), ""@)
}

/// Lines one after the other, each ended.
pub open spec fn ended(lines: Seq<Text>) -> Text {
    joined(lines.map_values(|line: Text| line + "\n"@), ""@)
}

/// The line that gives a message its key.
pub open spec fn key_line(m: MessageView) -> Text {
    "#define "@ + key_macro_name(m) + " "@ + key_literal(m) + "\n"@
}

/// The line that declares a topic.
pub open spec fn topic_declaration(name: Text) -> Text {
    "extern const char "@ + name + "[];\n"@
}

/// Whether the header file of some definitions is five fixed texts with what it declares
/// between them.
pub open spec fn is_header_around(fixed: Seq<Text>, c: ContextView) -> bool {
    fixed.len() == 5 && header_text(c) == fixed[0] + in_order(
        c.messages.map_values(|m: MessageView| key_line(m)),
        key_names(c.messages),
    ) + fixed[1] + joined(c.enum_models.map_values(|e: EnumView| enum_declaration(e)), ""@)
        + fixed[2] + joined(
        sorted_lines(topic_names(c.messages)).map_values(|name: Text| topic_declaration(name)),
        ""@,
    ) + fixed[3] + in_order(
        c.messages.map_values(|m: MessageView| message_prototypes(c.tables.enums, m)),
        message_names(c.messages),
    ) + fixed[4]
}

/// Whether the source file of some definitions is three fixed texts with what it defines
/// between them.
pub open spec fn is_source_around(fixed: Seq<Text>, c: ContextView) -> bool {
    fixed.len() == 3 && source_text(c) == fixed[0] + source_macros(c.tables.enums, c.messages)
        + fixed[1] + ended(sorted_lines(topic_lines(c.messages))) + fixed[2] + in_order(
        c.messages.map_values(|m: MessageView| message_source(c.tables.enums, m)),
        message_names(c.messages),
    )
}

/// A section that is left out where it has no lines.
pub open spec fn section_where_any(title: Text, lines: Seq<Text>) -> Text {
    if lines.len() == 0 {
        Seq::empty()
    } else {
        title + ended(distinct_lines(lines))
    }
}

/// Whether the names in the source file of some messages stand under six fixed titles.
pub open spec fn are_macros_under(
    titles: Seq<Text>,
    enums: Enums,
    messages: Seq<MessageView>,
) -> bool {
    let n = messages.len();
    titles.len() == 6 && source_macros(enums, messages) == titles[0] + ended(
        distinct_lines(numbering_lines(messages, Numbering::Index, n)),
    ) + titles[1] + ended(distinct_lines(numbering_lines(messages, Numbering::Ordinal, n)))
        + titles[2] + ended(sorted_lines(summary_lines(messages, n))) + section_where_any(
        titles[3],
        mask_lines(messages, n),
    ) + section_where_any(titles[4], byte_count_lines(enums, messages, n)) + titles[5] + ended(
        sorted_lines(length_lines(messages)),
    )
}

proof fn lemma_lines_are_joined(lines: Seq<Text>, n: nat)
    requires
        n <= lines.len(),
    ensures
        lines_text(lines, n) == joined(
            lines.map_values(|line: Text| line + "\n"@).take(n as int),
            ""@,
        ),
    decreases n,
{
    let parts = lines.map_values(|line: Text| line + "\n"@);
    if n > 0 {
        lemma_lines_are_joined(lines, (n - 1) as nat);
        assert(parts.take(n as int) =~= parts.take(n - 1).push(parts[n - 1]));
        lemma_joined_push(parts.take(n - 1), parts[n - 1]);
        broadcast use group_append;

    }
}

proof fn lemma_lines_are_ended(lines: Seq<Text>)
    ensures
        lines_text(lines, lines.len()) == ended(lines),
{
    let parts = lines.map_values(|line: Text| line + "\n"@);
    lemma_lines_are_joined(lines, lines.len());
    assert(parts.take(lines.len() as int) =~= parts);
}

proof fn lemma_keys_in_order(messages: Seq<MessageView>, order: Seq<int>, n: nat)
    requires
        n <= order.len(),
        forall|k: int| 0 <= k < order.len() ==> 0 <= #[trigger] order[k] < messages.len(),
    ensures
        key_macros(messages, order, n) == joined(
            order.map_values(|i: int| messages.map_values(|m: MessageView| key_line(m))[i]).take(
                n as int,
            ),
            ""@,
        ),
    decreases n,
{
    let parts = order.map_values(|i: int| messages.map_values(|m: MessageView| key_line(m))[i]);
    if n > 0 {
        lemma_keys_in_order(messages, order, (n - 1) as nat);
        assert(parts.take(n as int) =~= parts.take(n - 1).push(parts[n - 1]));
        lemma_joined_push(parts.take(n - 1), parts[n - 1]);
        assert(parts[n - 1] == key_line(messages[order[n - 1]]));
        broadcast use group_append;

    }
}

proof fn lemma_messages_in_order(
    enums: Enums,
    messages: Seq<MessageView>,
    order: Seq<int>,
    n: nat,
)
    requires
        n <= order.len(),
        forall|k: int| 0 <= k < order.len() ==> 0 <= #[trigger] order[k] < messages.len(),
    ensures
        prototypes_in_order(enums, messages, order, n) == joined(
            order.map_values(
                |i: int| messages.map_values(|m: MessageView| message_prototypes(enums, m))[i],
            ).take(n as int),
            ""@,
        ),
        sources_in_order(enums, messages, order, n) == joined(
            order.map_values(
                |i: int| messages.map_values(|m: MessageView| message_source(enums, m))[i],
            ).take(n as int),
            ""@,
        ),
    decreases n,
{
    let declared_parts = order.map_values(
        |i: int| messages.map_values(|m: MessageView| message_prototypes(enums, m))[i],
    );
    let defined_parts = order.map_values(
        |i: int| messages.map_values(|m: MessageView| message_source(enums, m))[i],
    );
    if n > 0 {
        lemma_messages_in_order(enums, messages, order, (n - 1) as nat);
        assert(declared_parts.take(n as int) =~= declared_parts.take(n - 1).push(
            declared_parts[n - 1],
        ));
        assert(defined_parts.take(n as int) =~= defined_parts.take(n - 1).push(
            defined_parts[n - 1],
        ));
        lemma_joined_push(declared_parts.take(n - 1), declared_parts[n - 1]);
        lemma_joined_push(defined_parts.take(n - 1), defined_parts[n - 1]);
    }
}

proof fn lemma_topics_are_joined(names: Seq<Text>, n: nat)
    requires
        n <= names.len(),
    ensures
        topic_declarations(names, n) == joined(
            names.map_values(|name: Text| topic_declaration(name)).take(n as int),
            ""@,
        ),
    decreases n,
{
    let parts = names.map_values(|name: Text| topic_declaration(name));
    if n > 0 {
        lemma_topics_are_joined(names, (n - 1) as nat);
        assert(parts.take(n as int) =~= parts.take(n - 1).push(parts[n - 1]));
        lemma_joined_push(parts.take(n - 1), parts[n - 1]);
        broadcast use group_append;

    }
}

proof fn lemma_enums_are_joined(enums: Seq<EnumView>, n: nat)
    requires
        n <= enums.len(),
    ensures
        enum_declarations(enums, n) == joined(
            enums.map_values(|e: EnumView| enum_declaration(e)).take(n as int),
            ""@,
        ),
    decreases n,
{
    let parts = enums.map_values(|e: EnumView| enum_declaration(e));
    if n > 0 {
        lemma_enums_are_joined(enums, (n - 1) as nat);
        assert(parts.take(n as int) =~= parts.take(n - 1).push(parts[n - 1]));
        lemma_joined_push(parts.take(n - 1), parts[n - 1]);
    }
}

/// The fixed texts of the header file.
spec fn header_texts() -> Seq<Text> {
    seq![
        LICENSE_BANNER@ + AUTOGEN_BANNER@ + "\n#ifndef _BLUEBERRY_DEVICES_MODULE_\n"@
            + "#define _BLUEBERRY_DEVICES_MODULE_\n\n\n"@ + SECTION_INCLUDES@
            + "\n#include <stdbool.h>\n"@ + "#include <stdint.h>\n"@
            + "#include <blueberry-transcoder.h>\n\n"@ + SECTION_DEFINES@ + "\n//Message keys\n"@,
        "//Numerical & Boolean Constants\n\n"@ + SECTION_TYPES@ + "\n"@,
        "\n"@ + SECTION_VARIABLES@ + "\n\n\n"@ + SECTION_TOPICS@ + "\n"@ + "\n"@,
        "\n\n"@ + SECTION_PROTOTYPES@ + "\n"@ + "\n"@,
        "\n#endif\n"@,
    ]
}

/// The fixed texts of the source file.
spec fn source_texts() -> Seq<Text> {
    seq![
        LICENSE_BANNER@ + AUTOGEN_BANNER@ + "\n"@ + "\n"@ + SECTION_INCLUDES@
            + "\n#include <blueberry_devices.h>\n"@ + "#include <blueberry-message.h>\n\n"@
            + SECTION_DEFINES@ + "\n"@,
        "\n"@ + SECTION_TYPES@ + "\n\n\n"@ + SECTION_VARIABLES@ + "\n\n\n"@ + SECTION_TOPICS@
            + "\n"@ + "\n"@,
        "\n"@ + SECTION_PROTOTYPES@ + "\n\n\n"@ + SECTION_SOURCE@ + "\n"@ + "\n"@,
    ]
}

/// The titles of the names in the source file.
spec fn macro_titles() -> Seq<Text> {
    seq![
        "\n//Add message field indeces\n"@,
        "\n//Add message field ordinals\n"@,
        "\n//Add message max ordinals - the number of fields in the message and the ordinal of the last field of the message\n"@,
        "\n//Add message boolean field masks\n"@,
        "\n//Add sequence element byte count\n"@,
        "\n//Add message lengths - measured in bytes\n"@,
    ]
}

#[verifier::spinoff_prover]
proof fn lemma_header_around(c: ContextView)
    ensures
        is_header_around(header_texts(), c),
{
    let keys = in_order(
        c.messages.map_values(|m: MessageView| key_line(m)),
        key_names(c.messages),
    );
    let enums = joined(c.enum_models.map_values(|e: EnumView| enum_declaration(e)), ""@);
    let names = sorted_lines(topic_names(c.messages));
    let topics = joined(names.map_values(|name: Text| topic_declaration(name)), ""@);
    let prototypes = in_order(
        c.messages.map_values(|m: MessageView| message_prototypes(c.tables.enums, m)),
        message_names(c.messages),
    );
    let n = c.messages.len();
    assert(key_macros(c.messages, stable_order(key_names(c.messages)), n) == keys) by {
        let order = stable_order(key_names(c.messages));
        law_order_is_sorted_and_stable(key_names(c.messages));
        lemma_keys_in_order(c.messages, order, n);
        let parts = order.map_values(
            |i: int| c.messages.map_values(|m: MessageView| key_line(m))[i],
        );
        assert(parts.take(n as int) =~= parts);
    }
    assert(enum_declarations(c.enum_models, c.enum_models.len()) == enums) by {
        lemma_enums_are_joined(c.enum_models, c.enum_models.len());
        let parts = c.enum_models.map_values(|e: EnumView| enum_declaration(e));
        assert(parts.take(c.enum_models.len() as int) =~= parts);
    }
    assert(topic_declarations(names, names.len()) == topics) by {
        lemma_topics_are_joined(names, names.len());
        let parts = names.map_values(|name: Text| topic_declaration(name));
        assert(parts.take(names.len() as int) =~= parts);
    }
    assert(prototypes_in_order(
        c.tables.enums,
        c.messages,
        stable_order(message_names(c.messages)),
        n,
    ) == prototypes) by {
        let order = stable_order(message_names(c.messages));
        law_order_is_sorted_and_stable(message_names(c.messages));
        lemma_messages_in_order(c.tables.enums, c.messages, order, n);
        let parts = order.map_values(
            |i: int|
                c.messages.map_values(|m: MessageView| message_prototypes(c.tables.enums, m))[i],
        );
        assert(parts.take(n as int) =~= parts);
    }
    let fixed = header_texts();
    assert(header_text(c) == fixed[0] + keys + fixed[1] + enums + fixed[2] + topics + fixed[3]
        + prototypes + fixed[4]) by {
        broadcast use group_append;

        reveal(header_text);
    }
}

#[verifier::spinoff_prover]
proof fn lemma_source_around(c: ContextView)
    ensures
        is_source_around(source_texts(), c),
{
    let topics = sorted_lines(topic_lines(c.messages));
    let sources = in_order(
        c.messages.map_values(|m: MessageView| message_source(c.tables.enums, m)),
        message_names(c.messages),
    );
    let n = c.messages.len();
    lemma_lines_are_ended(topics);
    assert(sources_in_order(
        c.tables.enums,
        c.messages,
        stable_order(message_names(c.messages)),
        n,
    ) == sources) by {
        let order = stable_order(message_names(c.messages));
        law_order_is_sorted_and_stable(message_names(c.messages));
        lemma_messages_in_order(c.tables.enums, c.messages, order, n);
        let parts = order.map_values(
            |i: int|
                c.messages.map_values(|m: MessageView| message_source(c.tables.enums, m))[i],
        );
        assert(parts.take(n as int) =~= parts);
    }
    let fixed = source_texts();
    let macros = source_macros(c.tables.enums, c.messages);
    assert(source_text(c) == fixed[0] + macros + fixed[1] + ended(topics) + fixed[2] + sources) by {
        broadcast use group_append;

        reveal(source_text);
    }
}

#[verifier::spinoff_prover]
proof fn lemma_macros_under(enums: Enums, messages: Seq<MessageView>)
    ensures
        are_macros_under(macro_titles(), enums, messages),
{
    let n = messages.len();
    reveal(source_macros);
    lemma_lines_are_ended(distinct_lines(numbering_lines(messages, Numbering::Index, n)));
    lemma_lines_are_ended(distinct_lines(numbering_lines(messages, Numbering::Ordinal, n)));
    lemma_lines_are_ended(sorted_lines(summary_lines(messages, n)));
    lemma_lines_are_ended(distinct_lines(mask_lines(messages, n)));
    lemma_lines_are_ended(distinct_lines(byte_count_lines(enums, messages, n)));
    lemma_lines_are_ended(sorted_lines(length_lines(messages)));
}

/// The header files of any two sets of definitions are the same but for what they declare:
/// the keys in the order of their names, the enumerations in declared order, the topics in the
/// order of their names, and the functions of the messages in the order of the messages' names.
pub proof fn law_headers_differ_in_what_they_declare_only(a: ContextView, b: ContextView)
    ensures
        exists|fixed: Seq<Text>| #[trigger]
            is_header_around(fixed, a) && is_header_around(fixed, b),
{
    lemma_header_around(a);
    lemma_header_around(b);
}

/// The source files of any two sets of definitions are the same but for what they define:
/// the names, the topics in the order of their lines, and the functions of the messages in the
/// order of the messages' names.
pub proof fn law_sources_differ_in_what_they_define_only(a: ContextView, b: ContextView)
    ensures
        exists|fixed: Seq<Text>| #[trigger]
            is_source_around(fixed, a) && is_source_around(fixed, b),
{
    lemma_source_around(a);
    lemma_source_around(b);
}

/// The names in the source file stand under the same titles whatever is defined, ascending
/// under each of them; offsets, ordinals, masks and byte counts stand there once each, and
/// masks and byte counts have no title where there are none of them.
pub proof fn law_names_stand_under_their_titles(
    enums: Enums,
    a: Seq<MessageView>,
    b: Seq<MessageView>,
)
    ensures
        exists|titles: Seq<Text>| #[trigger]
            are_macros_under(titles, enums, a) && are_macros_under(titles, enums, b),
{
    lemma_macros_under(enums, a);
    lemma_macros_under(enums, b);
}

proof fn lemma_lines_of_each(
    enums: Enums,
    messages: Seq<MessageView>,
    kind: Numbering,
    n: nat,
)
    requires
        n <= messages.len(),
    ensures
        numbering_lines(messages, kind, n) == messages.map_values(
            |m: MessageView| message_macros(m, kind),
        ).take(n as int).flatten_alt(),
        summary_lines(messages, n) == messages.map_values(
            |m: MessageView| message_summary(m),
        ).take(n as int).flatten_alt(),
        mask_lines(messages, n) == messages.map_values(
            |m: MessageView| masks_upto(m, m.fields.len()),
        ).take(n as int).flatten_alt(),
        byte_count_lines(enums, messages, n) == messages.map_values(
            |m: MessageView| byte_counts_upto(enums, m, m.fields.len()),
        ).take(n as int).flatten_alt(),
    decreases n,
{
    let numbers = messages.map_values(|m: MessageView| message_macros(m, kind));
    let summaries = messages.map_values(|m: MessageView| message_summary(m));
    let masks = messages.map_values(|m: MessageView| masks_upto(m, m.fields.len()));
    let counts = messages.map_values(
        |m: MessageView| byte_counts_upto(enums, m, m.fields.len()),
    );
    if n > 0 {
        lemma_lines_of_each(enums, messages, kind, (n - 1) as nat);
        assert(numbers.take(n as int).drop_last() =~= numbers.take(n - 1));
        assert(summaries.take(n as int).drop_last() =~= summaries.take(n - 1));
        assert(masks.take(n as int).drop_last() =~= masks.take(n - 1));
        assert(counts.take(n as int).drop_last() =~= counts.take(n - 1));
        let before = summary_lines(messages, (n - 1) as nat);
        assert(summary_lines(messages, n) =~= before + message_summary(messages[n - 1]));
    }
}

/// The names in the source file are those of the messages, one message after the other, and
/// no others.
pub proof fn law_names_are_those_of_the_messages(
    enums: Enums,
    messages: Seq<MessageView>,
    kind: Numbering,
)
    ensures
        numbering_lines(messages, kind, messages.len()) == messages.map_values(
            |m: MessageView| message_macros(m, kind),
        ).flatten_alt(),
        summary_lines(messages, messages.len()) == messages.map_values(
            |m: MessageView| message_summary(m),
        ).flatten_alt(),
        mask_lines(messages, messages.len()) == messages.map_values(
            |m: MessageView| masks_upto(m, m.fields.len()),
        ).flatten_alt(),
        byte_count_lines(enums, messages, messages.len()) == messages.map_values(
            |m: MessageView| byte_counts_upto(enums, m, m.fields.len()),
        ).flatten_alt(),
{
    let numbers = messages.map_values(|m: MessageView| message_macros(m, kind));
    let summaries = messages.map_values(|m: MessageView| message_summary(m));
    let masks = messages.map_values(|m: MessageView| masks_upto(m, m.fields.len()));
    let counts = messages.map_values(
        |m: MessageView| byte_counts_upto(enums, m, m.fields.len()),
    );
    let n = messages.len() as int;
    lemma_lines_of_each(enums, messages, kind, messages.len());
    assert(numbers.take(n) =~= numbers);
    assert(summaries.take(n) =~= summaries);
    assert(masks.take(n) =~= masks);
    assert(counts.take(n) =~= counts);
}

/// A bounded string is only tested for: no function reads it, for it is copied out of the message
/// instead.
#[verifier::spinoff_prover]
pub proof fn law_strings_are_only_tested_for(
    enums: Enums,
    m: MessageView,
    f: FieldView,
    ty: TypeView,
    bound: u32,
)
    requires
        f.kind == FieldKindView::Scalar(ty),
        storage(enums, ty) == Some(TypeView::String { bound: Some(bound) }),
    ensures
        field_source(enums, m, f) == remark("A getter for the "@, f.name, " field"@, f.comments)
            + remark(
            "Tests if the current message containts the "@,
            f.name,
            " field"@,
            f.comments,
        ) + defined(presence_signature(m, f), presence_statements(m, f)),
{
    broadcast use group_append;

    reveal(scalar_source);
    reveal(getter_body);
    lemma_present_ending();
}

/// A single value that is stored as a truth value is read as one, whatever its type is called.
pub proof fn law_truth_values_are_read_as_such(
    enums: Enums,
    m: MessageView,
    f: FieldView,
    ty: TypeView,
)
    requires
        f.kind == FieldKindView::Scalar(ty),
        storage(enums, ty) == Some(TypeView::Boolean),
    ensures
        field_source(enums, m, f) == remark("A getter for the "@, f.name, " field"@, f.comments)
            + defined(
            "bool is"@ + m.name + f.capital + "(Bb * buf, BbBlock msg )"@,
            getter_statements(m, f, TypeView::Boolean),
        ) + remark(
            "Tests if the current message containts the "@,
            f.name,
            " field"@,
            f.comments,
        ) + defined(presence_signature(m, f), presence_statements(m, f)),
{
    lemma_scalar_defined(enums, m, f, TypeView::Boolean, TypeView::Boolean);
    reveal(scalar_source);
    reveal(getter_body);
}

/// The elements of a sequence of bounded strings are copied from and to the place where they
/// stand.
#[verifier::rlimit(50)]
#[verifier::spinoff_prover]
pub proof fn law_string_elements_are_copied(
    enums: Enums,
    m: MessageView,
    f: FieldView,
    ty: TypeView,
    bound: u32,
)
    requires
        storage(enums, ty) == Some(TypeView::String { bound: Some(bound) }),
    ensures
        element_source(enums, m, f, ElementView::Primitive(ty)) == element_getter_doc(
            f.name,
            f.name,
            f.comments,
        ) + defined(
            element_getter_signature(enums, m, f, ty),
            at_element(m, f, macro_stem(m, f) + "_INDEX"@) + "\treturn "@
                + "copyBbStringFromMessage"@ + "(buf, msg, i);\n"@,
        ) + element_setter_doc(f.name, f.name, f.comments) + defined(
            element_setter_signature(enums, m, f, ty),
            at_element(m, f, macro_stem(m, f) + "_INDEX"@) + leaving(""@) + "\t"@
                + "copyBbStringToMessage"@ + "(buf, msg, i, "@ + f.name + ");\n"@,
        ),
{
    broadcast use group_append;

    reveal(primitive_source);
    reveal(element_index);
    reveal(bail_out);
    lemma_element_endings();
}

/// A bounded string in an element of a sequence is copied from and to the place where it stands.
#[verifier::rlimit(50)]
#[verifier::spinoff_prover]
pub proof fn law_string_members_are_copied(
    enums: Enums,
    m: MessageView,
    f: FieldView,
    sub: StructFieldView,
    bound: u32,
)
    requires
        storage(enums, sub.ty) == Some(TypeView::String { bound: Some(bound) }),
    ensures
        sub_field_source(enums, m, f, sub) == element_getter_doc(sub.name, f.name, sub.comments)
            + defined(
            c_type(enums, sub.ty) + " get"@ + m.name + f.capital + sub.capital
                + "(Bb * buf, BbBlock msg , uint32_t i0)"@,
            at_element(m, f, member_stem(m, f, sub) + "_INDEX"@) + "\treturn "@
                + "copyBbStringFromMessage"@ + "(buf, msg, i);\n"@,
        ) + element_setter_doc(sub.name, f.name, sub.comments) + defined(
            member_setter_signature(enums, m, f, sub),
            at_element(m, f, member_stem(m, f, sub) + "_INDEX"@) + leaving(""@) + "\t"@
                + "copyBbStringToMessage"@ + "(buf, msg, i, "@ + sub.name + ");\n"@,
        ),
{
    broadcast use group_append;

    reveal(sub_field_getter);
    reveal(sub_field_setter);
    reveal(element_index);
    reveal(bail_out);
    lemma_element_endings();
}

} // verus!
