//! The function bodies in the source file.
use vstd::prelude::*;
use crate::ast::{Type, TypeView};
use crate::c::docs::{
    builder_doc, doc_block, element_getter_doc, element_setter_doc, emit_doc_add_builder,
    emit_doc_line, emit_element_getter_doc, emit_element_setter_doc, sentence, sentence_of,
};
use crate::c::macros::{
    field_macros, fields_macros, header_macros, index_name, index_name_of, message_macros, number_macro, placeholder_name,
    placeholder_name_of, sub_index_name, sub_index_name_of, sub_macros, Numbering,
};
use crate::c::model::{
    ElementView, FieldKindView, FieldView, MessageFieldKind, MessageFieldModel, MessageModel,
    MessageView, SequenceElement, StructFieldLayout, StructFieldView,
};
use crate::c::names::{screaming, screaming_message_token, to_screaming_snake};
use crate::c::prototypes::{add_signature, render_add_signature};
use crate::c::tables::{Enums, Tables};
use crate::c::types::{
    c_type, c_type_name, enum_or_scalar_base, field_has_scalars, helper_pair, message_has_scalars,
    read_helper, scalar_of, sub_fields_have_scalars, write_helper, ResolvedScalar,
};
use crate::concat::Text;
use crate::text::owned;

verus! {

broadcast use {crate::concat::group_append, crate::concat::group_views};

/// The name of the mask of a boolean field.
pub open spec fn mask_name(m: MessageView, field: FieldView) -> Text {
    screaming(m.name) + "_"@ + screaming(field.name) + "_MASK"@
}

/// The name of the mask of a boolean field.
pub fn bool_mask_token(m: &MessageModel, field: &MessageFieldModel) -> (r: String)
    ensures
        r@ == mask_name(m@, field@),
{
    let mut r = screaming_message_token(m.name.as_str());
    r.push_str("_");
    r.push_str(to_screaming_snake(field.name.as_str()).as_str());
    r.push_str("_MASK");
    r
}

/// The name of the mask of a boolean member of a sequence's elements.
pub open spec fn sub_mask_name(m: MessageView, field: FieldView, sub: StructFieldView) -> Text {
    screaming(m.name) + "_"@ + screaming(field.name) + "_"@ + screaming(sub.name) + "_MASK"@
}

/// The name of the mask of a boolean member of a sequence's elements.
pub fn bool_mask_token_for_sub(
    m: &MessageModel,
    field: &MessageFieldModel,
    sub: &StructFieldLayout,
) -> (r: String)
    ensures
        r@ == sub_mask_name(m@, field@, sub@),
{
    let mut r = screaming_message_token(m.name.as_str());
    r.push_str("_");
    r.push_str(to_screaming_snake(field.name.as_str()).as_str());
    r.push_str("_");
    r.push_str(to_screaming_snake(sub.name.as_str()).as_str());
    r.push_str("_MASK");
    r
}

/// The statement that stores a scalar when its message is added. A string is
/// stored later, by another helper.
#[verifier::opaque]
pub open spec fn setter_in_add(m: MessageView, field: FieldView, scalar: ResolvedScalar) -> Text {
    match scalar {
        ResolvedScalar::Bool => "\tsetBbBool(buf, msg, "@ + index_name(m, field) + ", "@
            + mask_name(m, field) + ", "@ + field.name + ");\n"@,
        ResolvedScalar::StringBounded(_) => "\t// "@ + field.name
            + " is a bounded string; populate with copyBbStringToMessage\n"@,
        _ => "\t"@ + write_helper(scalar) + "(buf, msg, "@ + index_name(m, field) + ", "@
            + field.name + ");\n"@,
    }
}

/// Appends the statement that stores a scalar when its message is added.
pub fn emit_scalar_setter_in_add(
    out: &mut String,
    tables: &Tables,
    m: &MessageModel,
    field: &MessageFieldModel,
    ty: &Type,
)
    requires
        scalar_of(tables@.enums, ty@) is Some,
    ensures
        final(out)@ == old(out)@ + setter_in_add(m@, field@, scalar_of(tables@.enums, ty@).unwrap()),
{
    proof {
        reveal(setter_in_add);
    }
    if let Some(resolved) = enum_or_scalar_base(tables, ty) {
        match resolved {
            ResolvedScalar::Bool => {
                out.push_str("\tsetBbBool(buf, msg, ");
                out.push_str(index_name_of(m, field).as_str());
                out.push_str(", ");
                out.push_str(bool_mask_token(m, field).as_str());
                out.push_str(", ");
                out.push_str(field.name.as_str());
                out.push_str(");\n");
            },
            ResolvedScalar::StringBounded(_) => {
                out.push_str("\t// ");
                out.push_str(field.name.as_str());
                out.push_str(" is a bounded string; populate with copyBbStringToMessage\n");
            },
            _ => {
                let helpers = helper_pair(&resolved);
                out.push_str("\t");
                out.push_str(helpers.1);
                out.push_str("(buf, msg, ");
                out.push_str(index_name_of(m, field).as_str());
                out.push_str(", ");
                out.push_str(field.name.as_str());
                out.push_str(");\n");
            },
        }
    }
}

/// The getter of a scalar that a helper reads as it is.
#[verifier::opaque]
pub open spec fn simple_getter(
    accessor: Text,
    return_ty: Text,
    msg_token: Text,
    field_token: Text,
    helper: Text,
) -> Text {
    return_ty + " "@ + accessor + "(Bb * buf, BbBlock msg ){\n"@ + "\tuint16_t i = 0;\n"@
        + "\ti += "@ + msg_token + "_"@ + field_token + "_INDEX"@ + ";\n"@ + "\treturn "@ + helper
        + "(buf, msg, i);\n"@ + "}\n"@
}

/// Appends the getter of a scalar that a helper reads as it is.
pub fn emit_simple_scalar_getter(
    out: &mut String,
    accessor: &str,
    return_ty: &str,
    msg_token: &str,
    field_tok: &str,
    helper: &str,
)
    ensures
        final(out)@ == old(out)@ + simple_getter(
            accessor@,
            return_ty@,
            msg_token@,
            field_tok@,
            helper@,
        ),
{
    proof {
        reveal(simple_getter);
    }
    out.push_str(return_ty);
    out.push_str(" ");
    out.push_str(accessor);
    out.push_str("(Bb * buf, BbBlock msg ){\n");
    out.push_str("\tuint16_t i = 0;\n");
    out.push_str("\ti += ");
    out.push_str(msg_token);
    out.push_str("_");
    out.push_str(field_tok);
    out.push_str("_INDEX");
    out.push_str(";\n");
    out.push_str("\treturn ");
    out.push_str(helper);
    out.push_str("(buf, msg, i);\n");
    out.push_str("}\n");
}

/// The body that reads a scalar; a string has none.
#[verifier::opaque]
pub open spec fn getter_body(
    enums: Enums,
    m: MessageView,
    field: FieldView,
    ty: TypeView,
    scalar: ResolvedScalar,
) -> Text {
    match scalar {
        ResolvedScalar::Bool => "bool is"@ + m.name + field.capital
            + "(Bb * buf, BbBlock msg ){\n"@ + "\tuint16_t i = 0;\n"@ + "\ti += "@ + index_name(m, field) + ";\n"@ + "\treturn getBbBool(buf, msg, i, "@
            + mask_name(m, field) + ");\n"@ + "}\n"@,
        ResolvedScalar::StringBounded(_) => Seq::empty(),
        _ => simple_getter(
            "get"@ + m.name + field.capital,
            c_type(enums, ty),
            screaming(m.name),
            screaming(field.name),
            read_helper(scalar),
        ),
    }
}

fn emit_getter_body(
    out: &mut String,
    tables: &Tables,
    m: &MessageModel,
    field: &MessageFieldModel,
    ty: &Type,
    resolved: ResolvedScalar,
)
    ensures
        final(out)@ == old(out)@ + getter_body(tables@.enums, m@, field@, ty@, resolved),
{
    proof {
        reveal(getter_body);
    }
    let token = screaming_message_token(m.name.as_str());
    let field_tok = to_screaming_snake(field.name.as_str());
    match resolved {
        ResolvedScalar::Bool => {
            out.push_str("bool is");
            out.push_str(m.name.as_str());
            out.push_str(field.capital.as_str());
            out.push_str("(Bb * buf, BbBlock msg ){\n");
            out.push_str("\tuint16_t i = 0;\n");
            out.push_str("\ti += ");
            out.push_str(index_name_of(m, field).as_str());
            out.push_str(";\n");
            out.push_str("\treturn getBbBool(buf, msg, i, ");
            out.push_str(bool_mask_token(m, field).as_str());
            out.push_str(");\n");
            out.push_str("}\n");
        },
        ResolvedScalar::StringBounded(_) => {},
        _ => {
            let helpers = helper_pair(&resolved);
            let mut accessor = owned("get");
            accessor.push_str(m.name.as_str());
            accessor.push_str(field.capital.as_str());
            emit_simple_scalar_getter(
                out,
                accessor.as_str(),
                c_type_name(tables, ty).as_str(),
                token.as_str(),
                field_tok.as_str(),
                helpers.0,
            );
        },
    }
}

/// The functions for a scalar field: its getter and its presence test.
#[verifier::opaque]
pub open spec fn scalar_source(
    enums: Enums,
    m: MessageView,
    field: FieldView,
    ty: TypeView,
    scalar: ResolvedScalar,
) -> Text {
    doc_block(seq![sentence("A getter for the "@, field.name, " field"@)], field.comments)
        + getter_body(enums, m, field, ty, scalar) + doc_block(
        seq![sentence("Tests if the current message containts the "@, field.name, " field"@)],
        field.comments,
    ) + "bool is"@ + m.name + field.capital + "Present(Bb * buf, BbBlock msg ){\n"@
        + "\treturn "@ + screaming(m.name) + "_"@ + screaming(field.name)
        + "_ORDINAL <= (getBbMessageMaxOrdinal(buf, msg));\n"@ + "}\n"@
}

/// Appends the functions for a scalar field.
pub fn emit_scalar_getter(
    out: &mut String,
    tables: &Tables,
    m: &MessageModel,
    field: &MessageFieldModel,
    ty: &Type,
)
    requires
        scalar_of(tables@.enums, ty@) is Some,
    ensures
        final(out)@ == old(out)@ + scalar_source(
            tables@.enums,
            m@,
            field@,
            ty@,
            scalar_of(tables@.enums, ty@).unwrap(),
        ),
{
    proof {
        reveal(scalar_source);
    }
    if let Some(resolved) = enum_or_scalar_base(tables, ty) {
        emit_doc_line(
            out,
            sentence_of("A getter for the ", field.name.as_str(), " field"),
            field.comments.as_slice(),
        );
        emit_getter_body(out, tables, m, field, ty, resolved);
        emit_doc_line(
            out,
            sentence_of(
                "Tests if the current message containts the ",
                field.name.as_str(),
                " field",
            ),
            field.comments.as_slice(),
        );
        out.push_str("bool is");
        out.push_str(m.name.as_str());
        out.push_str(field.capital.as_str());
        out.push_str("Present(Bb * buf, BbBlock msg ){\n");
        out.push_str("\treturn ");
        out.push_str(screaming_message_token(m.name.as_str()).as_str());
        out.push_str("_");
        out.push_str(to_screaming_snake(field.name.as_str()).as_str());
        out.push_str("_ORDINAL <= (getBbMessageMaxOrdinal(buf, msg));\n");
        out.push_str("}\n");
    }
}

/// The statements that find an element: from the header of its sequence, at
/// `placeholder`, to the value at `value` in it.
#[verifier::opaque]
pub open spec fn element_index(placeholder: Text, value: Text) -> Text {
    "\tuint16_t i = 0;\n"@ + "\ti += "@ + placeholder + ";\n"@
        + "\ti = getBbSequenceElementIndex(buf, msg, i, i0);\n"@ + "\ti += "@ + value + ";\n"@
}

fn emit_element_index(out: &mut String, placeholder: &str, value: &str)
    ensures
        final(out)@ == old(out)@ + element_index(placeholder@, value@),
{
    proof {
        reveal(element_index);
    }
    out.push_str("\tuint16_t i = 0;\n");
    out.push_str("\ti += ");
    out.push_str(placeholder);
    out.push_str(";\n");
    out.push_str("\ti = getBbSequenceElementIndex(buf, msg, i, i0);\n");
    out.push_str("\ti += ");
    out.push_str(value);
    out.push_str(";\n");
}

/// The statements that leave a function where a sequence was not initialized.
#[verifier::opaque]
pub open spec fn bail_out(result: Text) -> Text {
    "\tif(isBbBlockInvalid(i)){\n"@ + "\t\treturn"@ + result
        + ";//bail because a sequence was not initialized\n"@ + "\t}\n"@
}

fn emit_bail_out(out: &mut String, result: &str)
    ensures
        final(out)@ == old(out)@ + bail_out(result@),
{
    proof {
        reveal(bail_out);
    }
    out.push_str("\tif(isBbBlockInvalid(i)){\n");
    out.push_str("\t\treturn");
    out.push_str(result);
    out.push_str(";//bail because a sequence was not initialized\n");
    out.push_str("\t}\n");
}

/// The function that reads one member of a sequence's elements.
#[verifier::opaque]
pub open spec fn sub_field_getter(
    enums: Enums,
    m: MessageView,
    field: FieldView,
    sub: StructFieldView,
    scalar: ResolvedScalar,
) -> Text {
    let index = element_index(placeholder_name(m, field), sub_index_name(m, field, sub));
    element_getter_doc(sub.name, field.name, sub.comments) + (if scalar is Bool {
        "bool is"@
    } else {
        c_type(enums, sub.ty) + " get"@
    }) + m.name + field.capital + sub.capital
        + "(Bb * buf, BbBlock msg , uint32_t i0){\n"@ + index + (if scalar is Bool {
        "\treturn getBbBool(buf, msg, i, "@ + sub_mask_name(m, field, sub) + ");\n"@
    } else {
        "\treturn "@ + read_helper(scalar) + "(buf, msg, i);\n"@
    }) + "}\n"@
}

/// The function that writes one member of a sequence's elements.
#[verifier::opaque]
pub open spec fn sub_field_setter(
    enums: Enums,
    m: MessageView,
    field: FieldView,
    sub: StructFieldView,
    scalar: ResolvedScalar,
) -> Text {
    let index = element_index(placeholder_name(m, field), sub_index_name(m, field, sub));
    element_setter_doc(sub.name, field.name, sub.comments) + "void set"@ + m.name + field.capital + sub.capital + "(Bb * buf, BbBlock msg , uint32_t i0, "@ + c_type(enums, sub.ty)
        + " "@ + sub.name + "){\n"@ + index + bail_out(""@) + (if scalar is Bool {
        "\tsetBbBool(buf, msg, i, "@ + sub_mask_name(m, field, sub) + ", "@ + sub.name + ");\n"@
    } else {
        "\t"@ + write_helper(scalar) + "(buf, msg, i, "@ + sub.name + ");\n"@
    }) + "}\n"@
}

fn emit_sub_field_getter(
    out: &mut String,
    tables: &Tables,
    m: &MessageModel,
    field: &MessageFieldModel,
    sub: &StructFieldLayout,
    resolved: ResolvedScalar,
)
    ensures
        final(out)@ == old(out)@ + sub_field_getter(tables@.enums, m@, field@, sub@, resolved),
{
    proof {
        reveal(sub_field_getter);
    }
    let helpers = helper_pair(&resolved);
    let is_bool = matches!(resolved, ResolvedScalar::Bool);
    emit_element_getter_doc(
        out,
        sub.name.as_str(),
        field.name.as_str(),
        sub.comments.as_slice(),
    );
    if is_bool {
        out.push_str("bool is");
    } else {
        out.push_str(c_type_name(tables, &sub.ty).as_str());
        out.push_str(" get");
    }
    out.push_str(m.name.as_str());
    out.push_str(field.capital.as_str());
    out.push_str(sub.capital.as_str());
    out.push_str("(Bb * buf, BbBlock msg , uint32_t i0){\n");
    emit_element_index(
        out,
        placeholder_name_of(m, field).as_str(),
        sub_index_name_of(m, field, sub).as_str(),
    );
    if is_bool {
        out.push_str("\treturn getBbBool(buf, msg, i, ");
        out.push_str(bool_mask_token_for_sub(m, field, sub).as_str());
        out.push_str(");\n");
    } else {
        out.push_str("\treturn ");
        out.push_str(helpers.0);
        out.push_str("(buf, msg, i);\n");
    }
    out.push_str("}\n");
}

fn emit_sub_field_setter(
    out: &mut String,
    tables: &Tables,
    m: &MessageModel,
    field: &MessageFieldModel,
    sub: &StructFieldLayout,
    resolved: ResolvedScalar,
)
    ensures
        final(out)@ == old(out)@ + sub_field_setter(tables@.enums, m@, field@, sub@, resolved),
{
    proof {
        reveal(sub_field_setter);
    }
    let helpers = helper_pair(&resolved);
    emit_element_setter_doc(
        out,
        sub.name.as_str(),
        field.name.as_str(),
        sub.comments.as_slice(),
    );
    out.push_str("void set");
    out.push_str(m.name.as_str());
    out.push_str(field.capital.as_str());
    out.push_str(sub.capital.as_str());
    out.push_str("(Bb * buf, BbBlock msg , uint32_t i0, ");
    out.push_str(c_type_name(tables, &sub.ty).as_str());
    out.push_str(" ");
    out.push_str(sub.name.as_str());
    out.push_str("){\n");
    emit_element_index(
        out,
        placeholder_name_of(m, field).as_str(),
        sub_index_name_of(m, field, sub).as_str(),
    );
    emit_bail_out(out, "");
    if matches!(resolved, ResolvedScalar::Bool) {
        out.push_str("\tsetBbBool(buf, msg, i, ");
        out.push_str(bool_mask_token_for_sub(m, field, sub).as_str());
        out.push_str(", ");
        out.push_str(sub.name.as_str());
        out.push_str(");\n");
    } else {
        out.push_str("\t");
        out.push_str(helpers.1);
        out.push_str("(buf, msg, i, ");
        out.push_str(sub.name.as_str());
        out.push_str(");\n");
    }
    out.push_str("}\n");
}

/// The functions for one member of a sequence's elements.
pub open spec fn sub_field_source(
    enums: Enums,
    m: MessageView,
    field: FieldView,
    sub: StructFieldView,
) -> Text {
    let scalar = scalar_of(enums, sub.ty).unwrap();
    sub_field_getter(enums, m, field, sub, scalar) + sub_field_setter(enums, m, field, sub, scalar)
}

/// Appends the functions for one member of a sequence's elements.
pub fn emit_sequence_sub_field_source(
    out: &mut String,
    tables: &Tables,
    m: &MessageModel,
    field: &MessageFieldModel,
    sub: &StructFieldLayout,
)
    requires
        scalar_of(tables@.enums, sub@.ty) is Some,
    ensures
        final(out)@ == old(out)@ + sub_field_source(tables@.enums, m@, field@, sub@),
{
    if let Some(resolved) = enum_or_scalar_base(tables, &sub.ty) {
        emit_sub_field_getter(out, tables, m, field, sub, resolved);
        emit_sub_field_setter(out, tables, m, field, sub, resolved);
    }
}

/// The functions for the elements of a sequence of primitives.
#[verifier::opaque]
pub open spec fn primitive_source(
    enums: Enums,
    m: MessageView,
    field: FieldView,
    ty: TypeView,
    scalar: ResolvedScalar,
) -> Text {
    let index = element_index(placeholder_name(m, field), index_name(m, field));
    element_getter_doc(field.name, field.name, field.comments) + c_type(enums, ty) + " get"@
        + m.name + field.capital + "(Bb * buf, BbBlock msg , uint32_t i0){\n"@ + index
        + "\treturn "@ + read_helper(scalar) + "(buf, msg, i);\n"@ + "}\n"@ + element_setter_doc(
        field.name,
        field.name,
        field.comments,
    ) + "void set"@ + m.name + field.capital + "(Bb * buf, BbBlock msg , uint32_t i0, "@
        + c_type(enums, ty) + " "@ + field.name + "){\n"@ + index + bail_out(""@) + "\t"@
        + write_helper(scalar) + "(buf, msg, i, "@ + field.name + ");\n"@ + "}\n"@
}

/// Appends the functions for the elements of a sequence of primitives.
pub fn emit_sequence_primitive_source(
    out: &mut String,
    tables: &Tables,
    m: &MessageModel,
    field: &MessageFieldModel,
    prim: &Type,
)
    requires
        scalar_of(tables@.enums, prim@) is Some,
    ensures
        final(out)@ == old(out)@ + primitive_source(
            tables@.enums,
            m@,
            field@,
            prim@,
            scalar_of(tables@.enums, prim@).unwrap(),
        ),
{
    proof {
        reveal(primitive_source);
    }
    if let Some(resolved) = enum_or_scalar_base(tables, prim) {
        let helpers = helper_pair(&resolved);
        let placeholder = placeholder_name_of(m, field);
        let value = index_name_of(m, field);
        let return_ty = c_type_name(tables, prim);
        emit_element_getter_doc(
            out,
            field.name.as_str(),
            field.name.as_str(),
            field.comments.as_slice(),
        );
        out.push_str(return_ty.as_str());
        out.push_str(" get");
        out.push_str(m.name.as_str());
        out.push_str(field.capital.as_str());
        out.push_str("(Bb * buf, BbBlock msg , uint32_t i0){\n");
        emit_element_index(out, placeholder.as_str(), value.as_str());
        out.push_str("\treturn ");
        out.push_str(helpers.0);
        out.push_str("(buf, msg, i);\n");
        out.push_str("}\n");
        emit_element_setter_doc(
            out,
            field.name.as_str(),
            field.name.as_str(),
            field.comments.as_slice(),
        );
        out.push_str("void set");
        out.push_str(m.name.as_str());
        out.push_str(field.capital.as_str());
        out.push_str("(Bb * buf, BbBlock msg , uint32_t i0, ");
        out.push_str(return_ty.as_str());
        out.push_str(" ");
        out.push_str(field.name.as_str());
        out.push_str("){\n");
        emit_element_index(out, placeholder.as_str(), value.as_str());
        emit_bail_out(out, "");
        out.push_str("\t");
        out.push_str(helpers.1);
        out.push_str("(buf, msg, i, ");
        out.push_str(field.name.as_str());
        out.push_str(");\n");
        out.push_str("}\n");
    }
}

/// The functions for the first `n` members of a sequence's elements.
pub open spec fn sub_fields_source(
    enums: Enums,
    m: MessageView,
    field: FieldView,
    subs: Seq<StructFieldView>,
    n: nat,
) -> Text
    decreases n,
{
    if n == 0 {
        Seq::empty()
    } else {
        sub_fields_source(enums, m, field, subs, (n - 1) as nat) + sub_field_source(
            enums,
            m,
            field,
            subs[n - 1],
        )
    }
}

/// The functions for the elements of a sequence.
pub open spec fn element_source(
    enums: Enums,
    m: MessageView,
    field: FieldView,
    element: ElementView,
) -> Text {
    match element {
        ElementView::Struct(s) => sub_fields_source(enums, m, field, s.fields, s.fields.len()),
        ElementView::Primitive(ty) => primitive_source(
            enums,
            m,
            field,
            ty,
            scalar_of(enums, ty).unwrap(),
        ),
    }
}

fn emit_element_source(
    out: &mut String,
    tables: &Tables,
    m: &MessageModel,
    field: &MessageFieldModel,
    element: &SequenceElement,
)
    requires
        match element@ {
            ElementView::Struct(s) => sub_fields_have_scalars(tables@.enums, s.fields),
            ElementView::Primitive(ty) => scalar_of(tables@.enums, ty) is Some,
        },
    ensures
        final(out)@ == old(out)@ + element_source(tables@.enums, m@, field@, element@),
{
    match element {
        SequenceElement::Struct(s) => {
            let ghost before = out@;
            for i in 0..s.fields.len()
                invariant
                    before == old(out)@,
                    sub_fields_have_scalars(tables@.enums, s@.fields),
                    out@ == before + sub_fields_source(tables@.enums, m@, field@, s@.fields, i as nat),
            {
                assert(s@.fields[i as int] == s.fields@[i as int]@);
                emit_sequence_sub_field_source(out, tables, m, field, &s.fields[i]);
            }
        },
        SequenceElement::Primitive(ty) => emit_sequence_primitive_source(
            out,
            tables,
            m,
            field,
            ty,
        ),
    }
}

/// The functions that initialize a sequence and give its length.
#[verifier::opaque]
pub open spec fn sequence_frame(m: MessageView, field: FieldView) -> Text {
    let header = "\tuint16_t i = 0;\n"@ + "\ti += "@ + placeholder_name(m, field) + ";\n"@;
    doc_block(
        seq![sentence("A function to initialize a "@, field.words, " Sequence"@)],
        field.comments,
    ) + "void init"@ + m.name + field.capital + "(Bb * buf, BbBlock msg, uint32_t n){\n"@
        + header + bail_out(""@) + "\t//i is now the index of this sequence field header\n"@
        + "\tuint32_t bs = "@ + screaming(m.name) + "_"@ + screaming(field.name)
        + "_PLACEHOLDER_SEQUENCE_ELEMENT_BYTE_COUNT; //the 4 is to account for the length field that precedes the sequence data\n"@
        + "\tinitBbSequence(buf, msg, i, bs, n);\n"@ + "}\n"@ + doc_block(
        seq![
            sentence("Gets the defined length of a sequence "@, field.words, " Sequence"@),
        ],
        field.comments,
    ) + "uint32_t get"@ + m.name + field.capital
        + "SequenceLength(Bb * buf, BbBlock msg){\n"@ + header + bail_out(" 0"@)
        + "\t//i is now the index of this sequence field header\n"@
        + "\treturn getBbSequenceLength(buf, msg, i);\n"@ + "}\n"@
}

fn emit_sequence_frame(out: &mut String, m: &MessageModel, field: &MessageFieldModel)
    ensures
        final(out)@ == old(out)@ + sequence_frame(m@, field@),
{
    proof {
        reveal(sequence_frame);
    }
    let msg_token = screaming_message_token(m.name.as_str());
    let field_tok = to_screaming_snake(field.name.as_str());
    let placeholder = placeholder_name_of(m, field);
    emit_doc_line(
        out,
        sentence_of("A function to initialize a ", field.words.as_str(), " Sequence"),
        field.comments.as_slice(),
    );
    out.push_str("void init");
    out.push_str(m.name.as_str());
    out.push_str(field.capital.as_str());
    out.push_str("(Bb * buf, BbBlock msg, uint32_t n){\n");
    out.push_str("\tuint16_t i = 0;\n");
    out.push_str("\ti += ");
    out.push_str(placeholder.as_str());
    out.push_str(";\n");
    emit_bail_out(out, "");
    out.push_str("\t//i is now the index of this sequence field header\n");
    out.push_str("\tuint32_t bs = ");
    out.push_str(msg_token.as_str());
    out.push_str("_");
    out.push_str(field_tok.as_str());
    out.push_str(
        "_PLACEHOLDER_SEQUENCE_ELEMENT_BYTE_COUNT; //the 4 is to account for the length field that precedes the sequence data\n",
    );
    out.push_str("\tinitBbSequence(buf, msg, i, bs, n);\n");
    out.push_str("}\n");
    emit_doc_line(
        out,
        sentence_of("Gets the defined length of a sequence ", field.words.as_str(), " Sequence"),
        field.comments.as_slice(),
    );
    out.push_str("uint32_t get");
    out.push_str(m.name.as_str());
    out.push_str(field.capital.as_str());
    out.push_str("SequenceLength(Bb * buf, BbBlock msg){\n");
    out.push_str("\tuint16_t i = 0;\n");
    out.push_str("\ti += ");
    out.push_str(placeholder.as_str());
    out.push_str(";\n");
    emit_bail_out(out, " 0");
    out.push_str("\t//i is now the index of this sequence field header\n");
    out.push_str("\treturn getBbSequenceLength(buf, msg, i);\n");
    out.push_str("}\n");
}

/// The functions for a sequence field.
pub open spec fn sequence_source(
    enums: Enums,
    m: MessageView,
    field: FieldView,
    element: ElementView,
) -> Text {
    element_source(enums, m, field, element) + sequence_frame(m, field)
}

/// Appends the functions for a sequence field.
pub fn emit_sequence_source(
    out: &mut String,
    tables: &Tables,
    m: &MessageModel,
    field: &MessageFieldModel,
    element: &SequenceElement,
)
    requires
        match element@ {
            ElementView::Struct(s) => sub_fields_have_scalars(tables@.enums, s.fields),
            ElementView::Primitive(ty) => scalar_of(tables@.enums, ty) is Some,
        },
    ensures
        final(out)@ == old(out)@ + sequence_source(tables@.enums, m@, field@, element@),
{
    emit_element_source(out, tables, m, field, element);
    emit_sequence_frame(out, m, field);
}

/// The functions for a field.
pub open spec fn field_source(enums: Enums, m: MessageView, field: FieldView) -> Text {
    match field.kind {
        FieldKindView::Scalar(ty) => scalar_source(
            enums,
            m,
            field,
            ty,
            scalar_of(enums, ty).unwrap(),
        ),
        FieldKindView::Sequence(element) => sequence_source(enums, m, field, element),
    }
}

/// Appends the functions for a field.
pub fn emit_field_source(
    out: &mut String,
    tables: &Tables,
    m: &MessageModel,
    field: &MessageFieldModel,
)
    requires
        field_has_scalars(tables@.enums, field@),
    ensures
        final(out)@ == old(out)@ + field_source(tables@.enums, m@, field@),
{
    match &field.kind {
        MessageFieldKind::Scalar(ty) => emit_scalar_getter(out, tables, m, field, ty),
        MessageFieldKind::Sequence(element) => emit_sequence_source(out, tables, m, field, element),
    }
}

/// The statement for a field when its message is added: a scalar is stored, the
/// header of a sequence is cleared.
pub open spec fn field_in_add(enums: Enums, m: MessageView, field: FieldView) -> Text {
    match field.kind {
        FieldKindView::Scalar(ty) => setter_in_add(m, field, scalar_of(enums, ty).unwrap()),
        FieldKindView::Sequence(_) => "\tsetBbUint16(buf, msg, "@
            + placeholder_name(m, field) + ", BB_INVALID_BLOCK);//clear sequence header\n"@,
    }
}

fn emit_field_in_add(
    out: &mut String,
    tables: &Tables,
    m: &MessageModel,
    field: &MessageFieldModel,
)
    requires
        field_has_scalars(tables@.enums, field@),
    ensures
        final(out)@ == old(out)@ + field_in_add(tables@.enums, m@, field@),
{
    match &field.kind {
        MessageFieldKind::Scalar(ty) => emit_scalar_setter_in_add(out, tables, m, field, ty),
        MessageFieldKind::Sequence(_) => {
            out.push_str("\tsetBbUint16(buf, msg, ");
            out.push_str(placeholder_name_of(m, field).as_str());
            out.push_str(", BB_INVALID_BLOCK);//clear sequence header\n");
        },
    }
}

/// The statements for the first `n` fields when their message is added.
pub open spec fn fields_in_add(enums: Enums, m: MessageView, n: nat) -> Text
    decreases n,
{
    if n == 0 {
        Seq::empty()
    } else {
        fields_in_add(enums, m, (n - 1) as nat) + field_in_add(enums, m, m.fields[n - 1])
    }
}

fn emit_fields_in_add(out: &mut String, tables: &Tables, m: &MessageModel)
    requires
        message_has_scalars(tables@.enums, m@),
    ensures
        final(out)@ == old(out)@ + fields_in_add(tables@.enums, m@, m@.fields.len()),
{
    let ghost before = out@;
    for i in 0..m.fields.len()
        invariant
            before == old(out)@,
            message_has_scalars(tables@.enums, m@),
            out@ == before + fields_in_add(tables@.enums, m@, i as nat),
    {
        assert(m@.fields[i as int] == m.fields@[i as int]@);
        emit_field_in_add(out, tables, m, &m.fields[i]);
    }
}

/// The functions for the first `n` fields of a message.
pub open spec fn fields_source(enums: Enums, m: MessageView, n: nat) -> Text
    decreases n,
{
    if n == 0 {
        Seq::empty()
    } else {
        fields_source(enums, m, (n - 1) as nat) + field_source(enums, m, m.fields[n - 1])
    }
}

fn emit_fields_source(out: &mut String, tables: &Tables, m: &MessageModel)
    requires
        message_has_scalars(tables@.enums, m@),
    ensures
        final(out)@ == old(out)@ + fields_source(tables@.enums, m@, m@.fields.len()),
{
    let ghost before = out@;
    for i in 0..m.fields.len()
        invariant
            before == old(out)@,
            message_has_scalars(tables@.enums, m@),
            out@ == before + fields_source(tables@.enums, m@, i as nat),
    {
        assert(m@.fields[i as int] == m.fields@[i as int]@);
        emit_field_source(out, tables, m, &m.fields[i]);
    }
}

/// The function that adds a message: it extends the buffer, writes the header,
/// stores the scalars and clears the sequences.
#[verifier::opaque]
pub open spec fn add_source(enums: Enums, m: MessageView) -> Text {
    let token = screaming(m.name);
    builder_doc(m) + add_signature(enums, m) + "{\n"@ + "\tBbBlock msg = buf->length;\n"@
        + "\t//Extend buffer to include the main message body before writing it\n"@
        + "\tbuf->length = msg + "@ + token + "_LENGTH;\n"@ + "\tsetBbUint32(buf, msg, "@ + token
        + "_MODULE_MESSAGE_KEY_INDEX, "@ + token + "_MODULE_MESSAGE_KEY);\n"@
        + "\tsetBbUint16(buf, msg, "@ + token + "_LENGTH_INDEX, "@ + token
        + "_LENGTH/4);//length field is measured in 4-byte words\n"@ + "\tsetBbUint8(buf, msg, "@
        + token + "_MAX_ORDINAL_INDEX, "@ + token + "_MAX_ORDINAL);\n"@ + fields_in_add(
        enums,
        m,
        m.fields.len(),
    ) + "\treturn msg;\n"@ + "}\n"@
}

fn emit_add_source(out: &mut String, tables: &Tables, m: &MessageModel)
    requires
        message_has_scalars(tables@.enums, m@),
    ensures
        final(out)@ == old(out)@ + add_source(tables@.enums, m@),
{
    proof {
        reveal(add_source);
    }
    let token = screaming_message_token(m.name.as_str());
    emit_doc_add_builder(out, m);
    out.push_str(render_add_signature(tables, m).as_str());
    out.push_str("{\n");
    out.push_str("\tBbBlock msg = buf->length;\n");
    out.push_str("\t//Extend buffer to include the main message body before writing it\n");
    out.push_str("\tbuf->length = msg + ");
    out.push_str(token.as_str());
    out.push_str("_LENGTH;\n");
    out.push_str("\tsetBbUint32(buf, msg, ");
    out.push_str(token.as_str());
    out.push_str("_MODULE_MESSAGE_KEY_INDEX, ");
    out.push_str(token.as_str());
    out.push_str("_MODULE_MESSAGE_KEY);\n");
    out.push_str("\tsetBbUint16(buf, msg, ");
    out.push_str(token.as_str());
    out.push_str("_LENGTH_INDEX, ");
    out.push_str(token.as_str());
    out.push_str("_LENGTH/4);//length field is measured in 4-byte words\n");
    out.push_str("\tsetBbUint8(buf, msg, ");
    out.push_str(token.as_str());
    out.push_str("_MAX_ORDINAL_INDEX, ");
    out.push_str(token.as_str());
    out.push_str("_MAX_ORDINAL);\n");
    emit_fields_in_add(out, tables, m);
    out.push_str("\treturn msg;\n");
    out.push_str("}\n");
}

/// The functions that test whether a message is empty or full.
#[verifier::opaque]
pub open spec fn presence_source(m: MessageView) -> Text {
    doc_block(seq!["Tests if the current message has no fields present."@], m.comments)
        + "bool is"@ + m.name + "Empty(Bb * buf, BbBlock msg){\n"@
        + "\treturn getBbMessageMaxOrdinal(buf, msg) <= 2;//will always be length and ordinal fields\n"@
        + "}\n"@ + doc_block(
        seq!["Tests if the current message has all defined fields present."@],
        m.comments,
    ) + "bool is"@ + m.name + "Full(Bb * buf, BbBlock msg){\n"@
        + "\treturn getBbMessageMaxOrdinal(buf, msg) >= "@ + screaming(m.name) + "_MAX_ORDINAL;\n"@
        + "}\n"@
}

fn emit_presence_source(out: &mut String, m: &MessageModel)
    ensures
        final(out)@ == old(out)@ + presence_source(m@),
{
    proof {
        reveal(presence_source);
    }
    emit_doc_line(
        out,
        owned("Tests if the current message has no fields present."),
        m.comments.as_slice(),
    );
    out.push_str("bool is");
    out.push_str(m.name.as_str());
    out.push_str("Empty(Bb * buf, BbBlock msg){\n");
    out.push_str(
        "\treturn getBbMessageMaxOrdinal(buf, msg) <= 2;//will always be length and ordinal fields\n",
    );
    out.push_str("}\n");
    emit_doc_line(
        out,
        owned("Tests if the current message has all defined fields present."),
        m.comments.as_slice(),
    );
    out.push_str("bool is");
    out.push_str(m.name.as_str());
    out.push_str("Full(Bb * buf, BbBlock msg){\n");
    out.push_str("\treturn getBbMessageMaxOrdinal(buf, msg) >= ");
    out.push_str(screaming_message_token(m.name.as_str()).as_str());
    out.push_str("_MAX_ORDINAL;\n");
    out.push_str("}\n");
}

/// The functions for a message.
pub open spec fn message_source(enums: Enums, m: MessageView) -> Text {
    add_source(enums, m) + presence_source(m) + fields_source(enums, m, m.fields.len())
}

/// Appends the functions for a message.
pub fn emit_message_source(out: &mut String, tables: &Tables, m: &MessageModel)
    requires
        message_has_scalars(tables@.enums, m@),
    ensures
        final(out)@ == old(out)@ + message_source(tables@.enums, m@),
{
    emit_add_source(out, tables, m);
    emit_presence_source(out, m);
    emit_fields_source(out, tables, m);
}

proof fn lemma_sub_macro_is_defined(
    m: MessageView,
    field: FieldView,
    subs: Seq<StructFieldView>,
    n: nat,
    j: int,
)
    requires
        0 <= j < n <= subs.len(),
    ensures
        sub_macros(m, field, subs, Numbering::Index, n).contains(
            number_macro(sub_index_name(m, field, subs[j]), subs[j].offset),
        ),
    decreases n,
{
    let line = number_macro(sub_index_name(m, field, subs[j]), subs[j].offset);
    let before = sub_macros(m, field, subs, Numbering::Index, (n - 1) as nat);
    let all = sub_macros(m, field, subs, Numbering::Index, n);
    if j == n - 1 {
        assert(all[before.len() as int] == line);
    } else {
        lemma_sub_macro_is_defined(m, field, subs, (n - 1) as nat, j);
        let k = choose|k: int| 0 <= k < before.len() && before[k] == line;
        assert(all[k] == line);
    }
}

proof fn lemma_field_macro_is_defined(m: MessageView, i: int, n: nat, line: Text)
    requires
        0 <= i < n <= m.fields.len(),
        field_macros(m, m.fields[i], Numbering::Index).contains(line),
    ensures
        fields_macros(m, Numbering::Index, n).contains(line),
    decreases n,
{
    let before = fields_macros(m, Numbering::Index, (n - 1) as nat);
    let last = field_macros(m, m.fields[n - 1], Numbering::Index);
    let all = fields_macros(m, Numbering::Index, n);
    if i == n - 1 {
        let k = choose|k: int| 0 <= k < last.len() && last[k] == line;
        assert(all[before.len() + k] == line);
    } else {
        lemma_field_macro_is_defined(m, i, (n - 1) as nat, line);
        let k = choose|k: int| 0 <= k < before.len() && before[k] == line;
        assert(all[k] == line);
    }
}

proof fn lemma_message_macro_is_defined(m: MessageView, i: int, line: Text)
    requires
        0 <= i < m.fields.len(),
        field_macros(m, m.fields[i], Numbering::Index).contains(line),
    ensures
        message_macros(m, Numbering::Index).contains(line),
{
    lemma_field_macro_is_defined(m, i, m.fields.len(), line);
    let rest = fields_macros(m, Numbering::Index, m.fields.len());
    let k = choose|k: int| 0 <= k < rest.len() && rest[k] == line;
    assert(message_macros(m, Numbering::Index)[header_macros(m, Numbering::Index).len() + k]
        == line);
}

/// Every offset that the functions of a field refer to has its macro: that of a
/// scalar, of the header of a sequence, of the data of a sequence of primitives
/// and of each member of a sequence of structures.
pub proof fn law_used_indices_are_defined(m: MessageView, i: int)
    requires
        0 <= i < m.fields.len(),
    ensures
        ({
            let f = m.fields[i];
            let macros = message_macros(m, Numbering::Index);
            match f.kind {
                FieldKindView::Scalar(_) => macros.contains(
                    number_macro(index_name(m, f), f.offset),
                ),
                FieldKindView::Sequence(element) => {
                    &&& macros.contains(number_macro(placeholder_name(m, f), f.offset))
                    &&& match element {
                        ElementView::Primitive(_) => macros.contains(
                            number_macro(index_name(m, f), 0),
                        ),
                        ElementView::Struct(s) => forall|j: int|
                            0 <= j < s.fields.len() ==> macros.contains(
                                number_macro(
                                    sub_index_name(m, f, #[trigger] s.fields[j]),
                                    s.fields[j].offset,
                                ),
                            ),
                    }
                },
            }
        }),
{
    let f = m.fields[i];
    let own = field_macros(m, f, Numbering::Index);
    match f.kind {
        FieldKindView::Scalar(_) => {
            assert(own[0] == number_macro(index_name(m, f), f.offset));
            lemma_message_macro_is_defined(m, i, own[0]);
        },
        FieldKindView::Sequence(element) => {
            assert(own[0] == number_macro(placeholder_name(m, f), f.offset));
            lemma_message_macro_is_defined(m, i, own[0]);
            match element {
                ElementView::Primitive(_) => {
                    assert(own[1] == number_macro(index_name(m, f), 0));
                    lemma_message_macro_is_defined(m, i, own[1]);
                },
                ElementView::Struct(s) => {
                    assert forall|j: int| 0 <= j < s.fields.len() implies message_macros(
                        m,
                        Numbering::Index,
                    ).contains(
                        number_macro(
                            sub_index_name(m, f, #[trigger] s.fields[j]),
                            s.fields[j].offset,
                        ),
                    ) by {
                        let line = number_macro(
                            sub_index_name(m, f, s.fields[j]),
                            s.fields[j].offset,
                        );
                        let subs = sub_macros(
                            m,
                            f,
                            s.fields,
                            Numbering::Index,
                            s.fields.len(),
                        );
                        lemma_sub_macro_is_defined(m, f, s.fields, s.fields.len(), j);
                        let k = choose|k: int| 0 <= k < subs.len() && subs[k] == line;
                        assert(own[1 + k] == line);
                        lemma_message_macro_is_defined(m, i, line);
                    }
                },
            }
        },
    }
}

} // verus!
