//! The declarations in the header.
use vstd::prelude::*;
use crate::ast::{Type, TypeView};
use crate::c::docs::{
    builder_doc, comment_block, doc_block, element_getter_doc, element_setter_doc,
    emit_comment_block, emit_doc_add_builder, emit_doc_line, emit_element_getter_doc,
    emit_element_setter_doc, sentence, sentence_of,
};
use crate::c::model::{
    ElementView, EnumModel, EnumValueView, EnumView, FieldKindView, FieldView, MessageFieldKind,
    MessageFieldModel, MessageModel, MessageView, SequenceElement, StructFieldLayout,
    StructFieldView,
};
use crate::c::tables::{Enums, Tables};
use crate::c::types::{c_type, c_type_name, is_bool_type};
use crate::concat::Text;
use crate::text::owned;

verus! {

broadcast use {crate::concat::group_append, crate::concat::group_views};

/// The first `n` values of an enumeration.
pub open spec fn enum_values(prefix: Text, values: Seq<EnumValueView>, n: nat) -> Text
    decreases n,
{
    if n == 0 {
        Seq::empty()
    } else {
        enum_values(prefix, values, (n - 1) as nat) + "\t"@ + prefix + "_"@ + values[n - 1].name
            + " = "@ + values[n - 1].literal + ", \n"@
    }
}

/// The C declaration of an enumeration.
#[verifier::opaque]
pub open spec fn enum_declaration(e: EnumView) -> Text {
    comment_block(e.comments, ""@) + "typedef enum {\n"@ + enum_values(
        e.value_prefix,
        e.values,
        e.values.len(),
    ) + "} "@ + e.typedef + ";\n"@ + "\n"@
}

fn emit_enum_values(out: &mut String, e: &EnumModel)
    ensures
        final(out)@ == old(out)@ + enum_values(e@.value_prefix, e@.values, e@.values.len()),
{
    let ghost before = out@;
    for i in 0..e.values.len()
        invariant
            before == old(out)@,
            out@ == before + enum_values(e@.value_prefix, e@.values, i as nat),
    {
        let v = &e.values[i];
        assert(e@.values[i as int] == v@);
        out.push_str("\t");
        out.push_str(e.value_prefix.as_str());
        out.push_str("_");
        out.push_str(v.name.as_str());
        out.push_str(" = ");
        out.push_str(v.literal.as_str());
        out.push_str(", \n");
    }
}

/// Appends the C declaration of an enumeration.
pub fn emit_enum_typedef(out: &mut String, e: &EnumModel)
    ensures
        final(out)@ == old(out)@ + enum_declaration(e@),
{
    proof {
        reveal(enum_declaration);
    }
    emit_comment_block(out, e.comments.as_slice(), "");
    out.push_str("typedef enum {\n");
    emit_enum_values(out, e);
    out.push_str("} ");
    out.push_str(e.typedef.as_str());
    out.push_str(";\n");
    out.push_str("\n");
}

/// The parameters for the scalars among the first `n` fields.
pub open spec fn scalar_params(enums: Enums, fields: Seq<FieldView>, n: nat) -> Text
    decreases n,
{
    if n == 0 {
        Seq::empty()
    } else {
        let before = scalar_params(enums, fields, (n - 1) as nat);
        match fields[n - 1].kind {
            FieldKindView::Scalar(ty) => before + ", "@ + c_type(enums, ty) + " "@ + fields[n
                - 1].name,
            FieldKindView::Sequence(_) => before,
        }
    }
}

/// The signature of the function that adds a message: one parameter for each
/// scalar field.
#[verifier::opaque]
pub open spec fn add_signature(enums: Enums, m: MessageView) -> Text {
    "BbBlock add"@ + m.name + "(Bb * buf"@ + scalar_params(enums, m.fields, m.fields.len()) + ")"@
}

/// The signature of the function that adds a message.
pub fn render_add_signature(tables: &Tables, m: &MessageModel) -> (r: String)
    ensures
        r@ == add_signature(tables@.enums, m@),
{
    proof {
        reveal(add_signature);
    }
    let mut out = owned("BbBlock add");
    out.push_str(m.name.as_str());
    out.push_str("(Bb * buf");
    let ghost before = out@;
    for i in 0..m.fields.len()
        invariant
            out@ == before + scalar_params(tables@.enums, m@.fields, i as nat),
    {
        let f = &m.fields[i];
        assert(m@.fields[i as int] == f@);
        if let MessageFieldKind::Scalar(ty) = &f.kind {
            out.push_str(", ");
            out.push_str(c_type_name(tables, ty).as_str());
            out.push_str(" ");
            out.push_str(f.name.as_str());
        }
    }
    out.push_str(")");
    out
}

/// The declarations for a scalar field: its getter and its presence test.
#[verifier::opaque]
pub open spec fn scalar_prototypes(
    enums: Enums,
    m: MessageView,
    field: FieldView,
    ty: TypeView,
) -> Text {
    doc_block(seq![sentence("A getter for the "@, field.name, " field"@)], field.comments) + (
    if ty is Boolean {
        "bool is"@ + m.name + field.capital + "(Bb * buf, BbBlock msg );\n"@
    } else {
        c_type(enums, ty) + " get"@ + m.name + field.capital
            + "(Bb * buf, BbBlock msg );\n"@
    }) + doc_block(
        seq![sentence("Tests if the current message containts the "@, field.name, " field"@)],
        field.comments,
    ) + "bool is"@ + m.name + field.capital + "Present(Bb * buf, BbBlock msg );\n"@
}

fn emit_scalar_prototypes(
    out: &mut String,
    tables: &Tables,
    m: &MessageModel,
    field: &MessageFieldModel,
    ty: &Type,
)
    ensures
        final(out)@ == old(out)@ + scalar_prototypes(tables@.enums, m@, field@, ty@),
{
    proof {
        reveal(scalar_prototypes);
    }
    emit_doc_line(
        out,
        sentence_of("A getter for the ", field.name.as_str(), " field"),
        field.comments.as_slice(),
    );
    if is_bool_type(ty) {
        out.push_str("bool is");
        out.push_str(m.name.as_str());
        out.push_str(field.capital.as_str());
        out.push_str("(Bb * buf, BbBlock msg );\n");
    } else {
        out.push_str(c_type_name(tables, ty).as_str());
        out.push_str(" get");
        out.push_str(m.name.as_str());
        out.push_str(field.capital.as_str());
        out.push_str("(Bb * buf, BbBlock msg );\n");
    }
    emit_doc_line(
        out,
        sentence_of("Tests if the current message containts the ", field.name.as_str(), " field"),
        field.comments.as_slice(),
    );
    out.push_str("bool is");
    out.push_str(m.name.as_str());
    out.push_str(field.capital.as_str());
    out.push_str("Present(Bb * buf, BbBlock msg );\n");
}

/// The declarations for one member of a sequence's elements: getter and setter.
#[verifier::opaque]
pub open spec fn sub_field_prototypes(
    enums: Enums,
    m: MessageView,
    field: FieldView,
    sub: StructFieldView,
) -> Text {
    element_getter_doc(sub.name, field.name, sub.comments) + (if sub.ty is Boolean {
        "bool is"@ + m.name + field.capital + sub.capital
            + "(Bb * buf, BbBlock msg , uint32_t i0);\n"@
    } else {
        c_type(enums, sub.ty) + " get"@ + m.name + field.capital + sub.capital
            + "(Bb * buf, BbBlock msg , uint32_t i0);\n"@
    }) + element_setter_doc(sub.name, field.name, sub.comments) + "void set"@ + m.name
        + field.capital + sub.capital
        + "(Bb * buf, BbBlock msg , uint32_t i0, "@ + c_type(enums, sub.ty) + " "@ + sub.name
        + ");\n"@
}

/// Appends the declarations for one member of a sequence's elements.
pub fn emit_sequence_sub_field_prototypes(
    out: &mut String,
    tables: &Tables,
    m: &MessageModel,
    field: &MessageFieldModel,
    sub: &StructFieldLayout,
)
    ensures
        final(out)@ == old(out)@ + sub_field_prototypes(tables@.enums, m@, field@, sub@),
{
    proof {
        reveal(sub_field_prototypes);
    }
    let return_ty = c_type_name(tables, &sub.ty);
    emit_element_getter_doc(
        out,
        sub.name.as_str(),
        field.name.as_str(),
        sub.comments.as_slice(),
    );
    if is_bool_type(&sub.ty) {
        out.push_str("bool is");
    } else {
        out.push_str(return_ty.as_str());
        out.push_str(" get");
    }
    out.push_str(m.name.as_str());
    out.push_str(field.capital.as_str());
    out.push_str(sub.capital.as_str());
    out.push_str("(Bb * buf, BbBlock msg , uint32_t i0);\n");
    emit_element_setter_doc(
        out,
        sub.name.as_str(),
        field.name.as_str(),
        sub.comments.as_slice(),
    );
    out.push_str("void set");
    out.push_str(m.name.as_str());
    out.push_str(field.capital.as_str());
    out.push_str(sub.capital.as_str());
    out.push_str("(Bb * buf, BbBlock msg , uint32_t i0, ");
    out.push_str(return_ty.as_str());
    out.push_str(" ");
    out.push_str(sub.name.as_str());
    out.push_str(");\n");
}

/// The declarations for the first `n` members of a sequence's elements.
pub open spec fn sub_fields_prototypes(
    enums: Enums,
    m: MessageView,
    field: FieldView,
    subs: Seq<StructFieldView>,
    n: nat,
) -> Text
    decreases n,
{
    if n == 0 {
        Seq::empty()
    } else {
        sub_fields_prototypes(enums, m, field, subs, (n - 1) as nat) + sub_field_prototypes(
            enums,
            m,
            field,
            subs[n - 1],
        )
    }
}

/// The declarations for the elements of a sequence of primitives.
#[verifier::opaque]
pub open spec fn primitive_prototypes(
    enums: Enums,
    m: MessageView,
    field: FieldView,
    ty: TypeView,
) -> Text {
    doc_block(seq![sentence("A getter for the "@, field.name, " field"@)], field.comments)
        + c_type(enums, ty) + " get"@ + m.name + field.capital
        + "(Bb * buf, BbBlock msg , uint32_t i0);\n"@ + doc_block(
        seq![sentence("A setter for the "@, field.name, " field"@)],
        field.comments,
    ) + "void set"@ + m.name + field.capital
        + "(Bb * buf, BbBlock msg , uint32_t i0, "@ + c_type(enums, ty) + " "@ + field.name
        + ");\n"@
}

fn emit_primitive_prototypes(
    out: &mut String,
    tables: &Tables,
    m: &MessageModel,
    field: &MessageFieldModel,
    ty: &Type,
)
    ensures
        final(out)@ == old(out)@ + primitive_prototypes(tables@.enums, m@, field@, ty@),
{
    proof {
        reveal(primitive_prototypes);
    }
    let return_ty = c_type_name(tables, ty);
    emit_doc_line(
        out,
        sentence_of("A getter for the ", field.name.as_str(), " field"),
        field.comments.as_slice(),
    );
    out.push_str(return_ty.as_str());
    out.push_str(" get");
    out.push_str(m.name.as_str());
    out.push_str(field.capital.as_str());
    out.push_str("(Bb * buf, BbBlock msg , uint32_t i0);\n");
    emit_doc_line(
        out,
        sentence_of("A setter for the ", field.name.as_str(), " field"),
        field.comments.as_slice(),
    );
    out.push_str("void set");
    out.push_str(m.name.as_str());
    out.push_str(field.capital.as_str());
    out.push_str("(Bb * buf, BbBlock msg , uint32_t i0, ");
    out.push_str(return_ty.as_str());
    out.push_str(" ");
    out.push_str(field.name.as_str());
    out.push_str(");\n");
}

/// The declarations for the elements of a sequence.
pub open spec fn element_prototypes(
    enums: Enums,
    m: MessageView,
    field: FieldView,
    element: ElementView,
) -> Text {
    match element {
        ElementView::Struct(s) => sub_fields_prototypes(
            enums,
            m,
            field,
            s.fields,
            s.fields.len(),
        ),
        ElementView::Primitive(ty) => primitive_prototypes(enums, m, field, ty),
    }
}

fn emit_element_prototypes(
    out: &mut String,
    tables: &Tables,
    m: &MessageModel,
    field: &MessageFieldModel,
    element: &SequenceElement,
)
    ensures
        final(out)@ == old(out)@ + element_prototypes(tables@.enums, m@, field@, element@),
{
    match element {
        SequenceElement::Struct(s) => {
            let ghost before = out@;
            for i in 0..s.fields.len()
                invariant
                    before == old(out)@,
                    out@ == before + sub_fields_prototypes(
                        tables@.enums,
                        m@,
                        field@,
                        s@.fields,
                        i as nat,
                    ),
            {
                assert(s@.fields[i as int] == s.fields@[i as int]@);
                emit_sequence_sub_field_prototypes(out, tables, m, field, &s.fields[i]);
            }
        },
        SequenceElement::Primitive(ty) => emit_primitive_prototypes(out, tables, m, field, ty),
    }
}

/// The declarations for a field.
#[verifier::opaque]
pub open spec fn field_prototypes(enums: Enums, m: MessageView, field: FieldView) -> Text {
    match field.kind {
        FieldKindView::Scalar(ty) => scalar_prototypes(enums, m, field, ty),
        FieldKindView::Sequence(element) => element_prototypes(enums, m, field, element)
            + doc_block(
            seq![sentence("A function to initialize a "@, field.words, " Sequence"@)],
            field.comments,
        ) + "void init"@ + m.name + field.capital
            + "(Bb * buf, BbBlock msg, uint32_t n);\n"@ + doc_block(
            seq![
                sentence(
                    "Gets the defined length of a sequence "@,
                    field.words,
                    " Sequence"@,
                ),
            ],
            field.comments,
        ) + "uint32_t get"@ + m.name + field.capital
            + "SequenceLength(Bb * buf, BbBlock msg);\n"@,
    }
}

/// Appends the declarations for a field.
pub fn emit_field_prototypes(
    out: &mut String,
    tables: &Tables,
    m: &MessageModel,
    field: &MessageFieldModel,
)
    ensures
        final(out)@ == old(out)@ + field_prototypes(tables@.enums, m@, field@),
{
    proof {
        reveal(field_prototypes);
    }
    match &field.kind {
        MessageFieldKind::Scalar(ty) => emit_scalar_prototypes(out, tables, m, field, ty),
        MessageFieldKind::Sequence(element) => {
            emit_element_prototypes(out, tables, m, field, element);
            emit_doc_line(
                out,
                sentence_of("A function to initialize a ", field.words.as_str(), " Sequence"),
                field.comments.as_slice(),
            );
            out.push_str("void init");
            out.push_str(m.name.as_str());
            out.push_str(field.capital.as_str());
            out.push_str("(Bb * buf, BbBlock msg, uint32_t n);\n");
            emit_doc_line(
                out,
                sentence_of("Gets the defined length of a sequence ", field.words.as_str(), " Sequence"),
                field.comments.as_slice(),
            );
            out.push_str("uint32_t get");
            out.push_str(m.name.as_str());
            out.push_str(field.capital.as_str());
            out.push_str("SequenceLength(Bb * buf, BbBlock msg);\n");
        },
    }
}

/// The declarations for the first `n` fields of a message.
pub open spec fn fields_prototypes(enums: Enums, m: MessageView, n: nat) -> Text
    decreases n,
{
    if n == 0 {
        Seq::empty()
    } else {
        fields_prototypes(enums, m, (n - 1) as nat) + field_prototypes(enums, m, m.fields[n - 1])
    }
}

/// The declarations for a message: the function that adds it, the tests whether
/// it is empty or full, and those for its fields.
#[verifier::opaque]
pub open spec fn message_prototypes(enums: Enums, m: MessageView) -> Text {
    builder_doc(m) + add_signature(enums, m) + ";\n"@ + doc_block(
        seq!["Tests if the current message has no fields present."@],
        m.comments,
    ) + "bool is"@ + m.name + "Empty(Bb * buf, BbBlock msg);\n"@ + doc_block(
        seq!["Tests if the current message has all defined fields present."@],
        m.comments,
    ) + "bool is"@ + m.name + "Full(Bb * buf, BbBlock msg);\n"@ + fields_prototypes(
        enums,
        m,
        m.fields.len(),
    )
}

fn emit_fields_prototypes(out: &mut String, tables: &Tables, m: &MessageModel)
    ensures
        final(out)@ == old(out)@ + fields_prototypes(tables@.enums, m@, m@.fields.len()),
{
    let ghost before = out@;
    for i in 0..m.fields.len()
        invariant
            before == old(out)@,
            out@ == before + fields_prototypes(tables@.enums, m@, i as nat),
    {
        assert(m@.fields[i as int] == m.fields@[i as int]@);
        emit_field_prototypes(out, tables, m, &m.fields[i]);
    }
}

/// Appends the declarations for a message.
pub fn emit_message_prototypes(out: &mut String, tables: &Tables, m: &MessageModel)
    ensures
        final(out)@ == old(out)@ + message_prototypes(tables@.enums, m@),
{
    proof {
        reveal(message_prototypes);
    }
    emit_doc_add_builder(out, m);
    out.push_str(render_add_signature(tables, m).as_str());
    out.push_str(";\n");
    emit_doc_line(
        out,
        owned("Tests if the current message has no fields present."),
        m.comments.as_slice(),
    );
    out.push_str("bool is");
    out.push_str(m.name.as_str());
    out.push_str("Empty(Bb * buf, BbBlock msg);\n");
    emit_doc_line(
        out,
        owned("Tests if the current message has all defined fields present."),
        m.comments.as_slice(),
    );
    out.push_str("bool is");
    out.push_str(m.name.as_str());
    out.push_str("Full(Bb * buf, BbBlock msg);\n");
    emit_fields_prototypes(out, tables, m);
}

} // verus!
