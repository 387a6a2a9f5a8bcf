//! How types appear in C, and which helpers read and write them.
use vstd::prelude::*;
use crate::ast::{Type, TypeView};
use crate::c::model::{
    ElementView, FieldKindView, FieldView, MessageFieldKind, MessageFieldModel, MessageModel,
    MessageView, SequenceElement, StructFieldLayout, StructFieldView,
};
use crate::c::names::{enum_typedef, enum_typedef_name};
use crate::c::tables::{binding_of, find_binding, storage, stored_size, Enums, Tables};
use crate::common::collect::spelled;
use crate::concat::{views, Path, Text};
use crate::numerals::{decimal, numeral};
use crate::text::owned;

verus! {

broadcast use crate::concat::group_views;

/// The C type of a value.
pub open spec fn c_type(enums: Enums, ty: TypeView) -> Text {
    match ty {
        TypeView::Boolean => "bool"@,
        TypeView::Char => "int8_t"@,
        TypeView::Octet => "uint8_t"@,
        TypeView::Short => "int16_t"@,
        TypeView::UnsignedShort => "uint16_t"@,
        TypeView::Long => "int32_t"@,
        TypeView::UnsignedLong => "uint32_t"@,
        TypeView::LongLong => "int64_t"@,
        TypeView::UnsignedLongLong => "uint64_t"@,
        TypeView::Float => "float"@,
        TypeView::Double => "double"@,
        TypeView::LongDouble => "long double"@,
        TypeView::WChar => "uint16_t"@,
        TypeView::String { bound } => "char *"@,
        TypeView::WString => "uint16_t *"@,
        TypeView::ScopedName(path) => match binding_of(enums, path) {
            Some(b) => enum_typedef(b.node.name),
            None => if path.len() > 0 {
                path.last()
            } else {
                "void"@
            },
        },
        TypeView::Sequence { element_type, size } => "void *"@,
        TypeView::Array { element_type, dimensions } => "void *"@,
    }
}

/// The C type of a value.
pub fn c_type_name(tables: &Tables, ty: &Type) -> (r: String)
    ensures
        r@ == c_type(tables@.enums, ty@),
{
    match ty {
        Type::Boolean => owned("bool"),
        Type::Char => owned("int8_t"),
        Type::Octet => owned("uint8_t"),
        Type::Short => owned("int16_t"),
        Type::UnsignedShort => owned("uint16_t"),
        Type::Long => owned("int32_t"),
        Type::UnsignedLong => owned("uint32_t"),
        Type::LongLong => owned("int64_t"),
        Type::UnsignedLongLong => owned("uint64_t"),
        Type::Float => owned("float"),
        Type::Double => owned("double"),
        Type::LongDouble => owned("long double"),
        Type::WChar => owned("uint16_t"),
        Type::String { bound: _ } => owned("char *"),
        Type::WString => owned("uint16_t *"),
        Type::ScopedName(path) => match find_binding(&tables.enums, path.as_slice()) {
            Some(b) => enum_typedef_name(b.node.name.as_str()),
            None => {
                if path.len() > 0 {
                    assert(views(path@).last() == path@.last()@);
                    path[path.len() - 1].clone()
                } else {
                    owned("void")
                }
            },
        },
        Type::Sequence { element_type: _, size: _ } => owned("void *"),
        Type::Array { element_type: _, dimensions: _ } => owned("void *"),
    }
}

/// Whether a type is the boolean type itself.
pub fn is_bool_type(ty: &Type) -> (r: bool)
    ensures
        r == (ty@ is Boolean),
{
    matches!(ty, Type::Boolean)
}

/// How the helpers of the target see a stored value.
#[derive(Debug, Clone, Copy)]
pub enum ResolvedScalar {
    Bool,
    Char,
    Octet,
    Int16,
    Uint16,
    Int32,
    Uint32,
    Int64,
    Uint64,
    Float,
    Double,
    /// A string with its bound.
    StringBounded(u32),
}

/// How a stored value is seen.
pub open spec fn scalar_of_stored(t: TypeView) -> ResolvedScalar {
    match t {
        TypeView::Boolean => ResolvedScalar::Bool,
        TypeView::Char => ResolvedScalar::Char,
        TypeView::Octet => ResolvedScalar::Octet,
        TypeView::Short => ResolvedScalar::Int16,
        TypeView::UnsignedShort => ResolvedScalar::Uint16,
        TypeView::Long => ResolvedScalar::Int32,
        TypeView::UnsignedLong => ResolvedScalar::Uint32,
        TypeView::LongLong => ResolvedScalar::Int64,
        TypeView::UnsignedLongLong => ResolvedScalar::Uint64,
        TypeView::Float => ResolvedScalar::Float,
        TypeView::Double => ResolvedScalar::Double,
        TypeView::String { bound: Some(n) } => ResolvedScalar::StringBounded(n),
        _ => ResolvedScalar::Uint32,
    }
}

/// How a value is seen: an enumeration as what stores it.
pub open spec fn scalar_of(enums: Enums, ty: TypeView) -> Option<ResolvedScalar> {
    match storage(enums, ty) {
        Some(t) => Some(scalar_of_stored(t)),
        None => None,
    }
}

fn stored_scalar(t: &Type) -> (r: ResolvedScalar)
    ensures
        r == scalar_of_stored(t@),
{
    match t {
        Type::Boolean => ResolvedScalar::Bool,
        Type::Char => ResolvedScalar::Char,
        Type::Octet => ResolvedScalar::Octet,
        Type::Short => ResolvedScalar::Int16,
        Type::UnsignedShort => ResolvedScalar::Uint16,
        Type::Long => ResolvedScalar::Int32,
        Type::UnsignedLong => ResolvedScalar::Uint32,
        Type::LongLong => ResolvedScalar::Int64,
        Type::UnsignedLongLong => ResolvedScalar::Uint64,
        Type::Float => ResolvedScalar::Float,
        Type::Double => ResolvedScalar::Double,
        Type::String { bound: Some(n) } => ResolvedScalar::StringBounded(*n),
        _ => ResolvedScalar::Uint32,
    }
}

/// How a value is seen: an enumeration as what stores it. None where
/// enumerations store each other in a circle.
pub fn enum_or_scalar_base(tables: &Tables, ty: &Type) -> (r: Option<ResolvedScalar>)
    ensures
        r == scalar_of(tables@.enums, ty@),
{
    match tables.storage_of(ty) {
        Some(t) => Some(stored_scalar(&t)),
        None => None,
    }
}

/// The helper that reads a value.
pub open spec fn read_helper(s: ResolvedScalar) -> Text {
    match s {
        ResolvedScalar::Bool => "getBbBool"@,
        ResolvedScalar::Octet | ResolvedScalar::Char => "getBbUint8"@,
        ResolvedScalar::Uint16 | ResolvedScalar::Int16 => "getBbUint16"@,
        ResolvedScalar::Uint32 | ResolvedScalar::Int32 => "getBbUint32"@,
        ResolvedScalar::Uint64 | ResolvedScalar::Int64 => "getBbUint64"@,
        ResolvedScalar::Float => "getBbFloat32"@,
        ResolvedScalar::Double => "getBbDouble"@,
        ResolvedScalar::StringBounded(_) => "copyBbStringFromMessage"@,
    }
}

/// The helper that writes a value.
pub open spec fn write_helper(s: ResolvedScalar) -> Text {
    match s {
        ResolvedScalar::Bool => "setBbBool"@,
        ResolvedScalar::Octet | ResolvedScalar::Char => "setBbUint8"@,
        ResolvedScalar::Uint16 | ResolvedScalar::Int16 => "setBbUint16"@,
        ResolvedScalar::Uint32 | ResolvedScalar::Int32 => "setBbUint32"@,
        ResolvedScalar::Uint64 | ResolvedScalar::Int64 => "setBbUint64"@,
        ResolvedScalar::Float => "setBbFloat32"@,
        ResolvedScalar::Double => "setBbDouble"@,
        ResolvedScalar::StringBounded(_) => "copyBbStringToMessage"@,
    }
}

/// The helpers that read and write a value.
pub fn helper_pair(resolved: &ResolvedScalar) -> (r: (&'static str, &'static str))
    ensures
        r.0@ == read_helper(*resolved),
        r.1@ == write_helper(*resolved),
{
    match resolved {
        ResolvedScalar::Bool => ("getBbBool", "setBbBool"),
        ResolvedScalar::Octet | ResolvedScalar::Char => ("getBbUint8", "setBbUint8"),
        ResolvedScalar::Uint16 | ResolvedScalar::Int16 => ("getBbUint16", "setBbUint16"),
        ResolvedScalar::Uint32 | ResolvedScalar::Int32 => ("getBbUint32", "setBbUint32"),
        ResolvedScalar::Uint64 | ResolvedScalar::Int64 => ("getBbUint64", "setBbUint64"),
        ResolvedScalar::Float => ("getBbFloat32", "setBbFloat32"),
        ResolvedScalar::Double => ("getBbDouble", "setBbDouble"),
        ResolvedScalar::StringBounded(_) => ("copyBbStringFromMessage", "copyBbStringToMessage"),
    }
}

/// Whether it is known how every value in a structure is seen.
pub open spec fn sub_fields_have_scalars(enums: Enums, subs: Seq<StructFieldView>) -> bool {
    forall|i: int| 0 <= i < subs.len() ==> scalar_of(enums, (#[trigger] subs[i]).ty) is Some
}

/// Whether it is known how every value in a field is seen.
pub open spec fn field_has_scalars(enums: Enums, field: FieldView) -> bool {
    match field.kind {
        FieldKindView::Scalar(ty) => scalar_of(enums, ty) is Some,
        FieldKindView::Sequence(ElementView::Primitive(ty)) => scalar_of(enums, ty) is Some,
        FieldKindView::Sequence(ElementView::Struct(s)) => sub_fields_have_scalars(
            enums,
            s.fields,
        ),
    }
}

/// Whether it is known how every value in a message is seen.
pub open spec fn message_has_scalars(enums: Enums, m: MessageView) -> bool {
    forall|i: int| 0 <= i < m.fields.len() ==> field_has_scalars(enums, #[trigger] m.fields[i])
}

/// Whether it is known how every value in every message is seen.
pub open spec fn messages_have_scalars(enums: Enums, messages: Seq<MessageView>) -> bool {
    forall|i: int| 0 <= i < messages.len() ==> message_has_scalars(enums, #[trigger] messages[i])
}

fn sub_fields_known(tables: &Tables, subs: &Vec<StructFieldLayout>) -> (r: bool)
    ensures
        r == sub_fields_have_scalars(tables@.enums, views(subs@)),
{
    for i in 0..subs.len()
        invariant
            forall|k: int|
                0 <= k < i ==> scalar_of(tables@.enums, (#[trigger] views(subs@)[k]).ty) is Some,
    {
        assert(views(subs@)[i as int] == subs@[i as int]@);
        if enum_or_scalar_base(tables, &subs[i].ty).is_none() {
            return false;
        }
    }
    true
}

fn field_known(tables: &Tables, field: &MessageFieldModel) -> (r: bool)
    ensures
        r == field_has_scalars(tables@.enums, field@),
{
    match &field.kind {
        MessageFieldKind::Scalar(ty) => enum_or_scalar_base(tables, ty).is_some(),
        MessageFieldKind::Sequence(SequenceElement::Primitive(ty)) => enum_or_scalar_base(
            tables,
            ty,
        ).is_some(),
        MessageFieldKind::Sequence(SequenceElement::Struct(s)) => sub_fields_known(
            tables,
            &s.fields,
        ),
    }
}

/// Whether it is known how every value in every message is seen.
pub fn scalars_known(tables: &Tables, messages: &Vec<MessageModel>) -> (r: bool)
    ensures
        r == messages_have_scalars(tables@.enums, views(messages@)),
{
    let ghost all = views(messages@);
    for i in 0..messages.len()
        invariant
            all == views(messages@),
            forall|k: int| 0 <= k < i ==> message_has_scalars(tables@.enums, #[trigger] all[k]),
    {
        let m = &messages[i];
        assert(all[i as int] == m@);
        for j in 0..m.fields.len()
            invariant
                all == views(messages@),
                i < messages@.len(),
                m == messages@[i as int],
                all[i as int] == m@,
                forall|k: int| 0 <= k < j ==> field_has_scalars(tables@.enums, #[trigger] m@.fields[k]),
        {
            assert(m@.fields[j as int] == m.fields@[j as int]@);
            if !field_known(tables, &m.fields[j]) {
                assert(!message_has_scalars(tables@.enums, all[i as int]));
                return false;
            }
        }
    }
    true
}

/// The bits of a stored value that is no string.
pub open spec fn wire_bits(t: TypeView) -> nat {
    8 * stored_size(t).unwrap() as nat
}

/// What the names of the helpers for a stored value that is no string end in: its
/// kind, and its width in bits where the kind has several.
pub open spec fn helper_suffix(t: TypeView) -> Text {
    match t {
        TypeView::Boolean => "Bool"@,
        TypeView::Double => "Double"@,
        TypeView::Float => "Float"@ + decimal(wire_bits(t)),
        _ => "Uint"@ + decimal(wire_bits(t)),
    }
}

/// The digits of the widths of integers.
pub proof fn lemma_width_digits()
    ensures
        decimal(8) == seq!['8'],
        decimal(16) == seq!['1', '6'],
        decimal(32) == seq!['3', '2'],
        decimal(64) == seq!['6', '4'],
{
    reveal_with_fuel(numeral, 3);
    assert(decimal(8) =~= seq!['8']);
    assert(decimal(16) =~= seq!['1', '6']);
    assert(decimal(32) =~= seq!['3', '2']);
    assert(decimal(64) =~= seq!['6', '4']);
}

/// The helpers that read and write a stored value that is no string are a pair:
/// their names differ in the first three letters only, and the width that they name
/// is that of the value on the wire.
pub proof fn law_readers_and_writers_are_pairs(t: TypeView)
    requires
        !(t is String),
    ensures
        read_helper(scalar_of_stored(t)) == "get"@ + "Bb"@ + helper_suffix(t),
        write_helper(scalar_of_stored(t)) == "set"@ + "Bb"@ + helper_suffix(t),
{
    lemma_width_digits();
    reveal_strlit("get");
    reveal_strlit("set");
    reveal_strlit("Bb");
    reveal_strlit("Bool");
    reveal_strlit("Double");
    reveal_strlit("Float");
    reveal_strlit("Uint");
    reveal_strlit("getBbBool");
    reveal_strlit("getBbUint8");
    reveal_strlit("getBbUint16");
    reveal_strlit("getBbUint32");
    reveal_strlit("getBbUint64");
    reveal_strlit("getBbFloat32");
    reveal_strlit("getBbDouble");
    reveal_strlit("setBbBool");
    reveal_strlit("setBbUint8");
    reveal_strlit("setBbUint16");
    reveal_strlit("setBbUint32");
    reveal_strlit("setBbUint64");
    reveal_strlit("setBbFloat32");
    reveal_strlit("setBbDouble");
    assert(read_helper(scalar_of_stored(t)) =~= "get"@ + "Bb"@ + helper_suffix(t));
    assert(write_helper(scalar_of_stored(t)) =~= "set"@ + "Bb"@ + helper_suffix(t));
}

/// A string with a bound is read and written by the two copying helpers, and by
/// nothing else.
pub proof fn law_strings_are_copied(t: TypeView)
    ensures
        read_helper(scalar_of_stored(t)) == "copyBbStringFromMessage"@ <==> (t matches TypeView::String {
            bound,
        } && bound is Some),
        write_helper(scalar_of_stored(t)) == "copyBbStringToMessage"@ <==> (t matches TypeView::String {
            bound,
        } && bound is Some),
{
    reveal_strlit("copyBbStringFromMessage");
    reveal_strlit("copyBbStringToMessage");
    assert("copyBbStringFromMessage"@[0] == 'c');
    assert("copyBbStringToMessage"@[0] == 'c');
    reveal_strlit("get");
    reveal_strlit("set");
    if !(t is String) {
        law_readers_and_writers_are_pairs(t);
        assert(read_helper(scalar_of_stored(t))[0] == 'g');
        assert(write_helper(scalar_of_stored(t))[0] == 's');
    } else {
        reveal_strlit("getBbUint32");
        reveal_strlit("setBbUint32");
        assert("getBbUint32"@[0] == 'g');
        assert("setBbUint32"@[0] == 's');
    }
}

/// Whether a type is an integer with a sign.
pub open spec fn is_signed(t: TypeView) -> bool {
    t is Char || t is Short || t is Long || t is LongLong
}

/// Whether a type is an integer without a sign.
pub open spec fn is_unsigned(t: TypeView) -> bool {
    t is Octet || t is UnsignedShort || t is UnsignedLong || t is UnsignedLongLong
}

/// The C type of an integer says its sign and its width on the wire.
pub proof fn law_integers_keep_sign_and_width(enums: Enums, t: TypeView)
    ensures
        is_signed(t) ==> c_type(enums, t) == "int"@ + decimal(wire_bits(t)) + "_t"@,
        is_unsigned(t) ==> c_type(enums, t) == "uint"@ + decimal(wire_bits(t)) + "_t"@,
{
    lemma_width_digits();
    reveal_strlit("int");
    reveal_strlit("uint");
    reveal_strlit("_t");
    reveal_strlit("int8_t");
    reveal_strlit("int16_t");
    reveal_strlit("int32_t");
    reveal_strlit("int64_t");
    reveal_strlit("uint8_t");
    reveal_strlit("uint16_t");
    reveal_strlit("uint32_t");
    reveal_strlit("uint64_t");
    if is_signed(t) {
        assert(c_type(enums, t) =~= "int"@ + decimal(wire_bits(t)) + "_t"@);
    }
    if is_unsigned(t) {
        assert(c_type(enums, t) =~= "uint"@ + decimal(wire_bits(t)) + "_t"@);
    }
}

/// Numbers with a fraction have the same names in C as in definitions; a truth value is a
/// `bool`; text is a pointer to its characters, which have the type of a single one; what is
/// held elsewhere is a pointer to anything.
pub proof fn law_other_types_have_c_names(enums: Enums, t: TypeView)
    ensures
        t is Float || t is Double || t is LongDouble ==> c_type(enums, t) == spelled(t),
        t is Boolean ==> c_type(enums, t) == "bool"@,
        t is String ==> c_type(enums, t) == "char"@ + " *"@,
        t is WString ==> c_type(enums, t) == c_type(enums, TypeView::WChar) + " *"@,
        t is WChar ==> c_type(enums, t) == c_type(enums, TypeView::UnsignedShort),
        t is Sequence || t is Array ==> c_type(enums, t) == "void"@ + " *"@,
{
    reveal_strlit("char");
    reveal_strlit("void");
    reveal_strlit(" *");
    reveal_strlit("char *");
    reveal_strlit("void *");
    reveal_strlit("uint16_t");
    reveal_strlit("uint16_t *");
    assert("char *"@ =~= "char"@ + " *"@);
    assert("void *"@ =~= "void"@ + " *"@);
    assert("uint16_t *"@ =~= "uint16_t"@ + " *"@);
}

/// A name that is an enumeration has the C type of the enumeration; one that is not is taken as
/// it is, without the modules before it.
pub proof fn law_names_have_c_names(enums: Enums, modules: Path, name: Text)
    ensures
        ({
            let path = modules.push(name);
            match binding_of(enums, path) {
                Some(e) => c_type(enums, TypeView::ScopedName(path)) == enum_typedef(e.node.name),
                None => c_type(enums, TypeView::ScopedName(path)) == name,
            }
        }),
{
    assert(modules.push(name).last() == name);
}

} // verus!
