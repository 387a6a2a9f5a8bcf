//! From definitions to messages and enumerations with their layout.
use vstd::prelude::*;
use crate::annotations::{annotation_string, annotation_u16, string_value, u16_value};
use crate::ast::{
    type_view, Commented, CommentedView, ConstValue, ConstView, EnumDef, EnumDefView, EnumMember,
    EnumMemberView, IntegerLiteral, Member, MemberView, MessageDef, MessageDefView, StructDef, StructDefView, Type,
    TypeView, UnaryOperator,
};
use crate::c::layout::{
    body_length, compute_aligned_struct_size, compute_body_length, disjoint, element_can_be,
    is_wire_align, laid_out, law_body_covers_fields, law_body_is_as_short_as_can_be,
    law_fields_are_aligned_and_apart, law_padding_is_spent_only_where_nothing_fits,
    law_struct_size_is_least, offset_views, place_slots, placement, struct_size, Slot,
};
use crate::c::model::{
    ElementView, EnumModel, EnumValueModel, EnumValueView, EnumView, Failure, FailureView,
    FieldKindView, FieldView, MessageFieldKind, MessageFieldModel, MessageModel, MessageView,
    SequenceElement, StructFieldLayout, StructFieldView, StructModel, StructView,
    MESSAGE_HEADER_BYTES,
};
use crate::c::names::{
    enum_typedef, enum_typedef_name, screaming, title, titlecase_words, to_screaming_snake,
};
use crate::c::tables::{
    binding_of, find_binding, resolved, storage, stored_align, stored_size, wire_align, wire_size,
    Tables, TablesView,
};
use crate::common::errors::{CodegenError, CodegenErrorView};
use crate::common::names::{scoped_name, scoped_text};
use crate::concat::{views, Path, Text};
use crate::numerals::{
    digits_value, hex, hex_text, law_bases_are_ten_and_sixteen, signed_decimal,
    signed_decimal_text,
};
use crate::text::{copy_path, join, joined, owned};
use crate::unicode::{capitalize, capitalized};

verus! {

broadcast use {crate::concat::group_append, crate::concat::group_views};

/// The C literal of an enumeration value: hexadecimal with four digits at least,
/// a decimal where it is negative, a name joined by underscores, or zero.
pub open spec fn literal(value: ConstView) -> Text
    decreases value,
{
    match value {
        ConstView::Integer(lit) => if lit.value >= 0 {
            "0x"@ + hex(lit.value as nat, 4)
        } else {
            signed_decimal(lit.value as int)
        },
        ConstView::ScopedName(path) => joined(path, "_"@),
        ConstView::UnaryOp { op, expr } => match op {
            UnaryOperator::Plus => literal(*expr),
            UnaryOperator::Minus => "-"@ + literal(*expr),
        },
        _ => "0"@,
    }
}

/// The C literal of a member of an enumeration, zero where it has no value.
pub open spec fn member_literal(member: EnumMemberView) -> Text {
    match member.value {
        Some(value) => literal(value),
        None => "0"@,
    }
}

fn const_literal(value: &ConstValue) -> (r: String)
    ensures
        r@ == literal(value@),
    decreases value,
{
    match value {
        ConstValue::Integer(lit) => {
            let v: i128 = lit.value;
            if v >= 0 {
                let mut r = owned("0x");
                r.push_str(hex_text(v as u128, 4).as_str());
                r
            } else {
                signed_decimal_text(v)
            }
        },
        ConstValue::ScopedName(path) => join(path.as_slice(), "_"),
        ConstValue::UnaryOp { op, expr } => {
            let inner_ref: &ConstValue = &**expr;
            let inner = const_literal(inner_ref);
            match op {
                UnaryOperator::Plus => inner,
                UnaryOperator::Minus => {
                    let mut r = owned("-");
                    r.push_str(inner.as_str());
                    r
                },
            }
        },
        _ => owned("0"),
    }
}

/// The C literal of a member of an enumeration.
pub fn enum_value_literal(member: &EnumMember) -> (r: String)
    ensures
        r@ == member_literal(member@),
{
    match &member.value {
        Some(value) => const_literal(value),
        None => owned("0"),
    }
}

/// The model of an enumeration value.
pub open spec fn enum_value_model(m: EnumMemberView) -> EnumValueView {
    EnumValueView { name: m.name, literal: member_literal(m), comments: m.comments }
}

/// The model of an enumeration.
pub open spec fn enum_model(e: CommentedView<EnumDefView>) -> EnumView {
    EnumView {
        name: e.node.name,
        typedef: enum_typedef(e.node.name),
        value_prefix: screaming(e.node.name),
        base: match e.node.base_type {
            Some(t) => t,
            None => TypeView::UnsignedLong,
        },
        comments: e.comments,
        values: e.node.enumerators.map_values(|m: EnumMemberView| enum_value_model(m)),
    }
}

/// Builds the model of an enumeration.
pub fn build_enum(e: &Commented<EnumDef>) -> (r: EnumModel)
    ensures
        r@ == enum_model(e@),
{
    let base = match &e.node.base_type {
        Some(t) => t.clone(),
        None => Type::UnsignedLong,
    };
    let mut values: Vec<EnumValueModel> = Vec::new();
    for i in 0..e.node.enumerators.len()
        invariant
            views(values@) == enum_model(e@).values.take(i as int),
    {
        let m = &e.node.enumerators[i];
        values.push(
            EnumValueModel {
                name: m.name.clone(),
                literal: enum_value_literal(m),
                comments: copy_path(m.comments.as_slice()),
            },
        );
        assert(enum_value_model(m@) == values@.last()@);
        assert(views(values@) =~= enum_model(e@).values.take(i + 1));
    }
    assert(views(values@) =~= enum_model(e@).values);
    EnumModel {
        name: e.node.name.clone(),
        typedef: enum_typedef_name(e.node.name.as_str()),
        value_prefix: to_screaming_snake(e.node.name.as_str()),
        base,
        comments: copy_path(e.comments.as_slice()),
        values,
    }
}

/// A member with its type resolved.
pub struct Declared {
    pub name: String,
    pub comments: Vec<String>,
    pub ty: Type,
}

/// What contracts see of a [`Declared`].
pub struct DeclaredView {
    pub name: Text,
    pub comments: Seq<Text>,
    pub ty: TypeView,
}

impl View for Declared {
    type V = DeclaredView;

    open spec fn view(&self) -> DeclaredView {
        DeclaredView { name: self.name@, comments: views(self.comments@), ty: self.ty@ }
    }
}

/// The first `n` members with their types resolved.
pub open spec fn declared_upto(
    tables: TablesView,
    members: Seq<CommentedView<MemberView>>,
    scope: Path,
    n: nat,
) -> Result<Seq<DeclaredView>, FailureView>
    decreases n,
{
    if n == 0 {
        Ok(Seq::empty())
    } else {
        match declared_upto(tables, members, scope, (n - 1) as nat) {
            Err(e) => Err(e),
            Ok(before) => {
                let m = members[n - 1];
                match resolved(tables, m.node.type_, scope) {
                    Some(ty) => Ok(
                        before.push(DeclaredView { name: m.node.name, comments: m.comments, ty }),
                    ),
                    None => Err(FailureView::NoLayout),
                }
            },
        }
    }
}

fn declare_members(tables: &Tables, members: &Vec<Commented<Member>>, scope: &[String]) -> (r: Result<
    Vec<Declared>,
    Failure,
>)
    ensures
        match r {
            Ok(d) => declared_upto(tables@, views(members@), views(scope@), members@.len()) == Ok::<
                Seq<DeclaredView>,
                FailureView,
            >(views(d@)),
            Err(e) => declared_upto(tables@, views(members@), views(scope@), members@.len())
                == Err::<Seq<DeclaredView>, FailureView>(e@),
        },
{
    let ghost all = views(members@);
    let mut declared: Vec<Declared> = Vec::new();
    for i in 0..members.len()
        invariant
            all == views(members@),
            declared_upto(tables@, all, views(scope@), i as nat) == Ok::<
                Seq<DeclaredView>,
                FailureView,
            >(views(declared@)),
    {
        let m = &members[i];
        assert(all[i as int] == m@);
        match tables.resolve_type(&m.node.type_, scope) {
            Some(ty) => {
                declared.push(
                    Declared {
                        name: m.node.name.clone(),
                        comments: copy_path(m.comments.as_slice()),
                        ty,
                    },
                );
            },
            None => {
                proof {
                    lemma_declared_err(tables@, all, views(scope@), (i + 1) as nat, all.len());
                }
                return Err(Failure::NoLayout);
            },
        }
    }
    Ok(declared)
}

proof fn lemma_declared_err(
    tables: TablesView,
    members: Seq<CommentedView<MemberView>>,
    scope: Path,
    n: nat,
    m: nat,
)
    requires
        n <= m,
        declared_upto(tables, members, scope, n) is Err,
    ensures
        declared_upto(tables, members, scope, m) == declared_upto(tables, members, scope, n),
    decreases m,
{
    if n < m {
        lemma_declared_err(tables, members, scope, n, (m - 1) as nat);
    }
}

/// What a type without a size is refused with.
pub open spec fn unsized_member() -> FailureView {
    FailureView::Codegen(
        CodegenErrorView::UnsupportedMemberType {
            message: "<unknown>"@,
            member: "<unknown>"@,
            member_type: "string"@,
        },
    )
}

/// The space that the first `n` members take; the first member without any
/// decides how that fails.
pub open spec fn slots_upto(tables: TablesView, declared: Seq<DeclaredView>, n: nat) -> Result<
    Seq<Slot>,
    FailureView,
>
    decreases n,
{
    if n == 0 {
        Ok(Seq::empty())
    } else {
        match slots_upto(tables, declared, (n - 1) as nat) {
            Err(e) => Err(e),
            Ok(before) => match storage(tables.enums, declared[n - 1].ty) {
                None => Err(FailureView::NoLayout),
                Some(t) => match stored_size(t) {
                    None => Err(unsized_member()),
                    Some(size) => Ok(before.push(Slot { align: stored_align(t), size })),
                },
            },
        }
    }
}

proof fn lemma_slots_err(tables: TablesView, declared: Seq<DeclaredView>, n: nat, m: nat)
    requires
        n <= m,
        slots_upto(tables, declared, n) is Err,
    ensures
        slots_upto(tables, declared, m) == slots_upto(tables, declared, n),
    decreases m,
{
    if n < m {
        lemma_slots_err(tables, declared, n, (m - 1) as nat);
    }
}

proof fn lemma_slots_len(tables: TablesView, declared: Seq<DeclaredView>, n: nat)
    ensures
        slots_upto(tables, declared, n) matches Ok(slots) ==> slots.len() == n,
    decreases n,
{
    if n > 0 {
        lemma_slots_len(tables, declared, (n - 1) as nat);
    }
}

fn unsized_failure() -> (r: Failure)
    ensures
        r@ == unsized_member(),
{
    Failure::Codegen(
        CodegenError::UnsupportedMemberType {
            message: owned("<unknown>"),
            member: owned("<unknown>"),
            member_type: owned("string"),
        },
    )
}

fn measure(tables: &Tables, declared: &Vec<Declared>) -> (r: Result<Vec<Slot>, Failure>)
    ensures
        match r {
            Ok(slots) => slots_upto(tables@, views(declared@), declared@.len()) == Ok::<
                Seq<Slot>,
                FailureView,
            >(slots@) && slots@.len() == declared@.len(),
            Err(e) => slots_upto(tables@, views(declared@), declared@.len()) == Err::<
                Seq<Slot>,
                FailureView,
            >(e@),
        },
{
    let ghost all = views(declared@);
    let mut slots: Vec<Slot> = Vec::new();
    for i in 0..declared.len()
        invariant
            all == views(declared@),
            slots_upto(tables@, all, i as nat) == Ok::<Seq<Slot>, FailureView>(slots@),
    {
        assert(all[i as int] == declared@[i as int]@);
        match tables.storage_of(&declared[i].ty) {
            None => {
                proof {
                    lemma_slots_err(tables@, all, (i + 1) as nat, all.len());
                }
                return Err(Failure::NoLayout);
            },
            Some(t) => match wire_size(&t) {
                None => {
                    proof {
                        lemma_slots_err(tables@, all, (i + 1) as nat, all.len());
                    }
                    return Err(unsized_failure());
                },
                Some(size) => {
                    slots.push(Slot { align: wire_align(&t), size });
                },
            },
        }
    }
    proof {
        lemma_slots_len(tables@, all, all.len());
    }
    Ok(slots)
}

/// The offsets of members with these slots, or no layout where they do not fit
/// in 32 bits.
pub open spec fn offsets_of(slots: Seq<Slot>, start: nat) -> Result<Seq<nat>, FailureView> {
    if placement(slots, start).pos <= u32::MAX {
        Ok(placement(slots, start).offsets)
    } else {
        Err(FailureView::NoLayout)
    }
}

fn place(slots: &Vec<Slot>, start: u32) -> (r: Result<Vec<u32>, Failure>)
    ensures
        match r {
            Ok(offsets) => {
                &&& offsets_of(slots@, start as nat) == Ok::<Seq<nat>, FailureView>(
                    offset_views(offsets@),
                )
                &&& offsets@.len() == slots@.len()
                &&& forall|i: int|
                    0 <= i < slots@.len() ==> #[trigger] offsets@[i] + slots@[i].size <= u32::MAX
            },
            Err(e) => offsets_of(slots@, start as nat) == Err::<Seq<nat>, FailureView>(e@),
        },
{
    match place_slots(slots.as_slice(), start) {
        Some(offsets) => {
            proof {
                law_fields_are_aligned_and_apart(slots@, start as nat);
                let p = placement(slots@, start as nat);
                assert(offset_views(offsets@).len() == offsets@.len());
                assert forall|i: int| 0 <= i < slots@.len() implies #[trigger] offsets@[i]
                    + slots@[i].size <= u32::MAX by {
                    assert(p.offsets[i] == offset_views(offsets@)[i]);
                }
            }
            Ok(offsets)
        },
        None => Err(Failure::NoLayout),
    }
}

/// The fields of a structure with their offsets.
pub open spec fn struct_fields(declared: Seq<DeclaredView>, offsets: Seq<nat>) -> Seq<
    StructFieldView,
> {
    Seq::new(
        declared.len(),
        |i: int|
            StructFieldView {
                name: declared[i].name,
                capital: capitalized(declared[i].name),
                ty: declared[i].ty,
                offset: offsets[i],
                comments: declared[i].comments,
            },
    )
}

/// The layout of one element of a structure.
pub open spec fn struct_model(tables: TablesView, def: StructDefView, scope: Path) -> Result<
    StructView,
    FailureView,
> {
    match declared_upto(tables, def.members, scope, def.members.len()) {
        Err(e) => Err(e),
        Ok(declared) => match slots_upto(tables, declared, declared.len()) {
            Err(e) => Err(e),
            Ok(slots) => match offsets_of(slots, 0) {
                Err(e) => Err(e),
                Ok(offsets) => if struct_size(slots, offsets) <= u32::MAX {
                    Ok(
                        StructView {
                            fields: struct_fields(declared, offsets),
                            element_size: struct_size(slots, offsets),
                        },
                    )
                } else {
                    Err(FailureView::NoLayout)
                },
            },
        },
    }
}

/// Lays out one element of a structure.
pub fn build_struct(tables: &Tables, def: &StructDef, scope: &[String]) -> (r: Result<
    StructModel,
    Failure,
>)
    ensures
        match r {
            Ok(s) => struct_model(tables@, def@, views(scope@)) == Ok::<StructView, FailureView>(s@),
            Err(e) => struct_model(tables@, def@, views(scope@)) == Err::<StructView, FailureView>(
                e@,
            ),
        },
{
    let declared = match declare_members(tables, &def.members, scope) {
        Ok(d) => d,
        Err(e) => {
            return Err(e);
        },
    };
    let slots = match measure(tables, &declared) {
        Ok(s) => s,
        Err(e) => {
            return Err(e);
        },
    };
    let offsets = match place(&slots, 0) {
        Ok(o) => o,
        Err(e) => {
            return Err(e);
        },
    };
    let element_size: u32 = match compute_aligned_struct_size(slots.as_slice(), &offsets) {
        Some(size) => size,
        None => {
            return Err(Failure::NoLayout);
        },
    };
    let ghost all = struct_fields(views(declared@), offset_views(offsets@));
    let mut fields: Vec<StructFieldLayout> = Vec::new();
    for i in 0..declared.len()
        invariant
            offsets@.len() == declared@.len(),
            all == struct_fields(views(declared@), offset_views(offsets@)),
            views(fields@) == all.take(i as int),
    {
        fields.push(
            StructFieldLayout {
                name: declared[i].name.clone(),
                capital: capitalize(declared[i].name.as_str()),
                ty: declared[i].ty.clone(),
                offset: offsets[i],
                comments: copy_path(declared[i].comments.as_slice()),
            },
        );
        assert(fields@.last()@ == all[i as int]);
        assert(views(fields@) =~= all.take(i + 1));
    }
    assert(views(fields@) =~= all);
    Ok(StructModel { fields, element_size })
}

/// What a member whose type cannot be emitted is refused with.
pub open spec fn unsupported(message: Text, member: Text, member_type: Text) -> FailureView {
    FailureView::Codegen(CodegenErrorView::UnsupportedMemberType { message, member, member_type })
}

/// What a field of this type holds: a sequence of structures, enumerations or
/// primitives, or a scalar. A structure as such, a sequence of anything else and
/// a string without a bound are refused.
pub open spec fn field_kind(tables: TablesView, ty: TypeView, message: Text, member: Text) -> Result<
    FieldKindView,
    FailureView,
> {
    match ty {
        TypeView::Sequence { element_type, size } => match *element_type {
            TypeView::ScopedName(path) => match binding_of(tables.structs, path) {
                Some(b) => match struct_model(tables, b.node, b.scope) {
                    Ok(s) => Ok(FieldKindView::Sequence(ElementView::Struct(s))),
                    Err(e) => Err(e),
                },
                None => if binding_of(tables.enums, path) is Some {
                    Ok(FieldKindView::Sequence(ElementView::Primitive(*element_type)))
                } else {
                    Err(unsupported(message, member, joined(path, "::"@)))
                },
            },
            _ => Ok(FieldKindView::Sequence(ElementView::Primitive(*element_type))),
        },
        TypeView::ScopedName(path) => if binding_of(tables.structs, path) is Some {
            Err(unsupported(message, member, joined(path, "::"@)))
        } else {
            Ok(FieldKindView::Scalar(ty))
        },
        TypeView::String { bound } => if bound is Some {
            Ok(FieldKindView::Scalar(ty))
        } else {
            Err(
                unsupported(
                    message,
                    member,
                    "string (unbounded; use `string<N>` for embedded targets)"@,
                ),
            )
        },
        _ => Ok(FieldKindView::Scalar(ty)),
    }
}

fn unsupported_failure(message: &str, member: &str, member_type: String) -> (r: Failure)
    ensures
        r@ == unsupported(message@, member@, member_type@),
{
    Failure::Codegen(
        CodegenError::UnsupportedMemberType {
            message: owned(message),
            member: owned(member),
            member_type,
        },
    )
}

/// Decides what a field of this type holds.
pub fn build_field_kind(tables: &Tables, ty: &Type, message: &str, member: &str) -> (r: Result<
    MessageFieldKind,
    Failure,
>)
    ensures
        match r {
            Ok(k) => field_kind(tables@, ty@, message@, member@) == Ok::<FieldKindView, FailureView>(
                k@,
            ),
            Err(e) => field_kind(tables@, ty@, message@, member@) == Err::<
                FieldKindView,
                FailureView,
            >(e@),
        },
{
    proof {
        reveal_with_fuel(type_view, 2);
    }
    match ty {
        Type::Sequence { element_type, size: _ } => {
            let element: &Type = &**element_type;
            match element {
                Type::ScopedName(path) => {
                    if let Some(b) = find_binding(&tables.structs, path.as_slice()) {
                        return match build_struct(tables, b.node, b.scope.as_slice()) {
                            Ok(s) => Ok(MessageFieldKind::Sequence(SequenceElement::Struct(s))),
                            Err(e) => Err(e),
                        };
                    }
                    if find_binding(&tables.enums, path.as_slice()).is_some() {
                        Ok(MessageFieldKind::Sequence(SequenceElement::Primitive(element.clone())))
                    } else {
                        Err(unsupported_failure(message, member, join(path.as_slice(), "::")))
                    }
                },
                _ => Ok(MessageFieldKind::Sequence(SequenceElement::Primitive(element.clone()))),
            }
        },
        Type::ScopedName(path) => {
            if find_binding(&tables.structs, path.as_slice()).is_some() {
                Err(unsupported_failure(message, member, join(path.as_slice(), "::")))
            } else {
                Ok(MessageFieldKind::Scalar(ty.clone()))
            }
        },
        Type::String { bound } => {
            if bound.is_some() {
                Ok(MessageFieldKind::Scalar(ty.clone()))
            } else {
                Err(
                    unsupported_failure(
                        message,
                        member,
                        owned("string (unbounded; use `string<N>` for embedded targets)"),
                    ),
                )
            }
        },
        _ => Ok(MessageFieldKind::Scalar(ty.clone())),
    }
}

/// The ordinal of the field at position `i`: the header has the first three, and
/// ordinals are counted in one byte.
pub open spec fn ordinal_at(i: int) -> u8 {
    ((i + 3) % 256) as u8
}

/// The ordinals of the first fields count up from three, as far as one byte goes.
pub proof fn law_ordinals_count_up(i: int)
    requires
        0 <= i < 253,
    ensures
        ordinal_at(i) == i + 3,
{
}

/// The first `n` fields of a message.
pub open spec fn fields_upto(
    tables: TablesView,
    declared: Seq<DeclaredView>,
    offsets: Seq<nat>,
    message: Text,
    n: nat,
) -> Result<Seq<FieldView>, FailureView>
    decreases n,
{
    if n == 0 {
        Ok(Seq::empty())
    } else {
        match fields_upto(tables, declared, offsets, message, (n - 1) as nat) {
            Err(e) => Err(e),
            Ok(before) => {
                let d = declared[n - 1];
                match field_kind(tables, d.ty, message, d.name) {
                    Err(e) => Err(e),
                    Ok(kind) => Ok(
                        before.push(
                            FieldView {
                                name: d.name,
                                capital: capitalized(d.name),
                                words: title(d.name),
                                ordinal: ordinal_at(n - 1),
                                offset: offsets[n - 1],
                                comments: d.comments,
                                kind,
                            },
                        ),
                    ),
                }
            },
        }
    }
}

proof fn lemma_fields_err(
    tables: TablesView,
    declared: Seq<DeclaredView>,
    offsets: Seq<nat>,
    message: Text,
    n: nat,
    m: nat,
)
    requires
        n <= m,
        fields_upto(tables, declared, offsets, message, n) is Err,
    ensures
        fields_upto(tables, declared, offsets, message, m) == fields_upto(
            tables,
            declared,
            offsets,
            message,
            n,
        ),
    decreases m,
{
    if n < m {
        lemma_fields_err(tables, declared, offsets, message, n, (m - 1) as nat);
    }
}

/// The ordinal of the last field, two where a message has none.
pub open spec fn last_ordinal(fields: Seq<FieldView>) -> u8 {
    if fields.len() == 0 {
        2
    } else {
        fields.last().ordinal
    }
}

/// The key of a message's module: its own annotation, else that of the module
/// around it, else zero.
pub open spec fn message_module_key(m: CommentedView<MessageDefView>, inherited: Option<u16>) -> u16 {
    match u16_value(m.annotations, "module_key"@) {
        Some(key) => key,
        None => match inherited {
            Some(key) => key,
            None => 0,
        },
    }
}

/// The model of a message.
pub open spec fn message_model(
    tables: TablesView,
    scope: Path,
    m: CommentedView<MessageDefView>,
    inherited: Option<u16>,
) -> Result<MessageView, FailureView> {
    match string_value(m.annotations, "topic"@) {
        None => Err(
            FailureView::Codegen(
                CodegenErrorView::MissingTopic { message: scoped_text(scope, m.node.name) },
            ),
        ),
        Some(topic) => match declared_upto(tables, m.node.members, scope, m.node.members.len()) {
            Err(e) => Err(e),
            Ok(declared) => match slots_upto(tables, declared, declared.len()) {
                Err(e) => Err(e),
                Ok(slots) => match offsets_of(slots, MESSAGE_HEADER_BYTES as nat) {
                    Err(e) => Err(e),
                    Ok(offsets) => match fields_upto(
                        tables,
                        declared,
                        offsets,
                        m.node.name,
                        declared.len(),
                    ) {
                        Err(e) => Err(e),
                        Ok(fields) => {
                            let length = body_length(slots, offsets, MESSAGE_HEADER_BYTES as nat);
                            if length <= u32::MAX {
                                Ok(
                                    MessageView {
                                        name: m.node.name,
                                        words: title(m.node.name),
                                        scope: scope,
                                        module_key: message_module_key(m, inherited),
                                        message_key: match u16_value(
                                            m.annotations,
                                            "message_key"@,
                                        ) {
                                            Some(key) => key,
                                            None => 0,
                                        },
                                        topic,
                                        comments: m.comments,
                                        fields,
                                        body_length: length,
                                        max_ordinal: last_ordinal(fields),
                                    },
                                )
                            } else {
                                Err(FailureView::NoLayout)
                            }
                        },
                    },
                },
            },
        },
    }
}

fn build_fields(
    tables: &Tables,
    declared: &Vec<Declared>,
    offsets: &Vec<u32>,
    message: &str,
) -> (r: Result<Vec<MessageFieldModel>, Failure>)
    requires
        offsets@.len() == declared@.len(),
    ensures
        match r {
            Ok(f) => fields_upto(
                tables@,
                views(declared@),
                offset_views(offsets@),
                message@,
                declared@.len(),
            ) == Ok::<Seq<FieldView>, FailureView>(views(f@)),
            Err(e) => fields_upto(
                tables@,
                views(declared@),
                offset_views(offsets@),
                message@,
                declared@.len(),
            ) == Err::<Seq<FieldView>, FailureView>(e@),
        },
{
    let ghost all = views(declared@);
    let ghost at = offset_views(offsets@);
    let mut fields: Vec<MessageFieldModel> = Vec::new();
    for i in 0..declared.len()
        invariant
            offsets@.len() == declared@.len(),
            all == views(declared@),
            at == offset_views(offsets@),
            fields_upto(tables@, all, at, message@, i as nat) == Ok::<Seq<FieldView>, FailureView>(
                views(fields@),
            ),
    {
        let d = &declared[i];
        assert(all[i as int] == d@);
        assert(at[i as int] == offsets@[i as int]);
        match build_field_kind(tables, &d.ty, message, d.name.as_str()) {
            Ok(kind) => {
                let ordinal: u8 = ((i % 256 + 3) % 256) as u8;
                assert(ordinal == ordinal_at(i as int));
                fields.push(
                    MessageFieldModel {
                        name: d.name.clone(),
                        capital: capitalize(d.name.as_str()),
                        words: titlecase_words(d.name.as_str()),
                        ordinal,
                        offset: offsets[i],
                        comments: copy_path(d.comments.as_slice()),
                        kind,
                    },
                );
            },
            Err(e) => {
                proof {
                    lemma_fields_err(tables@, all, at, message@, (i + 1) as nat, all.len());
                }
                return Err(e);
            },
        }
    }
    Ok(fields)
}

/// Builds the model of a message.
pub fn build_message(
    tables: &Tables,
    scope: &[String],
    m: &Commented<MessageDef>,
    inherited: Option<u16>,
) -> (r: Result<MessageModel, Failure>)
    ensures
        match r {
            Ok(v) => message_model(tables@, views(scope@), m@, inherited) == Ok::<
                MessageView,
                FailureView,
            >(v@),
            Err(e) => message_model(tables@, views(scope@), m@, inherited) == Err::<
                MessageView,
                FailureView,
            >(e@),
        },
{
    let module_key: u16 = match annotation_u16(m.annotations.as_slice(), "module_key") {
        Some(key) => key,
        None => match inherited {
            Some(key) => key,
            None => 0,
        },
    };
    let message_key: u16 = match annotation_u16(m.annotations.as_slice(), "message_key") {
        Some(key) => key,
        None => 0,
    };
    let topic = match annotation_string(m.annotations.as_slice(), "topic") {
        Some(topic) => topic,
        None => {
            return Err(
                Failure::Codegen(
                    CodegenError::MissingTopic {
                        message: scoped_name(scope, m.node.name.as_str()),
                    },
                ),
            );
        },
    };
    let declared = match declare_members(tables, &m.node.members, scope) {
        Ok(d) => d,
        Err(e) => {
            return Err(e);
        },
    };
    let slots = match measure(tables, &declared) {
        Ok(s) => s,
        Err(e) => {
            return Err(e);
        },
    };
    let offsets = match place(&slots, MESSAGE_HEADER_BYTES) {
        Ok(o) => o,
        Err(e) => {
            return Err(e);
        },
    };
    let fields = match build_fields(tables, &declared, &offsets, m.node.name.as_str()) {
        Ok(f) => f,
        Err(e) => {
            return Err(e);
        },
    };
    let length: u32 = match compute_body_length(slots.as_slice(), &offsets, MESSAGE_HEADER_BYTES) {
        Some(length) => length,
        None => {
            return Err(Failure::NoLayout);
        },
    };
    let max_ordinal: u8 = if fields.len() == 0 {
        2
    } else {
        assert(views(fields@).last() == fields@.last()@);
        fields[fields.len() - 1].ordinal
    };
    Ok(
        MessageModel {
            name: m.node.name.clone(),
            words: titlecase_words(m.node.name.as_str()),
            scope: copy_path(scope),
            module_key,
            message_key,
            topic,
            comments: copy_path(m.comments.as_slice()),
            fields,
            body_length: length,
            max_ordinal,
        },
    )
}

/// The bytes that a member takes inline, where its message has a layout.
pub open spec fn member_size(tables: TablesView, member: MemberView, scope: Path) -> u32 {
    stored_size(
        storage(tables.enums, resolved(tables, member.type_, scope).unwrap()).unwrap(),
    ).unwrap()
}

proof fn lemma_declared(
    tables: TablesView,
    members: Seq<CommentedView<MemberView>>,
    scope: Path,
    n: nat,
)
    requires
        declared_upto(tables, members, scope, n) is Ok,
    ensures
        ({
            let d = declared_upto(tables, members, scope, n)->Ok_0;
            &&& d.len() == n
            &&& forall|i: int|
                0 <= i < n ==> (#[trigger] d[i]).name == members[i].node.name && resolved(
                    tables,
                    members[i].node.type_,
                    scope,
                ) == Some(d[i].ty)
        }),
    decreases n,
{
    if n > 0 {
        lemma_declared(tables, members, scope, (n - 1) as nat);
    }
}

proof fn lemma_slots(tables: TablesView, declared: Seq<DeclaredView>, n: nat)
    requires
        slots_upto(tables, declared, n) is Ok,
    ensures
        ({
            let slots = slots_upto(tables, declared, n)->Ok_0;
            &&& slots.len() == n
            &&& forall|i: int|
                0 <= i < n ==> stored_size(storage(tables.enums, declared[i].ty).unwrap()) == Some(
                    (#[trigger] slots[i]).size,
                )
        }),
    decreases n,
{
    if n > 0 {
        lemma_slots(tables, declared, (n - 1) as nat);
    }
}

proof fn lemma_fields(
    tables: TablesView,
    declared: Seq<DeclaredView>,
    offsets: Seq<nat>,
    message: Text,
    n: nat,
)
    requires
        fields_upto(tables, declared, offsets, message, n) is Ok,
    ensures
        ({
            let fields = fields_upto(tables, declared, offsets, message, n)->Ok_0;
            &&& fields.len() == n
            &&& forall|i: int|
                0 <= i < n ==> (#[trigger] fields[i]).name == declared[i].name && fields[i].ordinal
                    == ordinal_at(i) && fields[i].offset == offsets[i]
        }),
    decreases n,
{
    if n > 0 {
        lemma_fields(tables, declared, offsets, message, (n - 1) as nat);
    }
}

/// A message has one field for each member, in declared order. Ordinals count up
/// from the first after the header; no field reaches into the header, into
/// another field or past the body; the body is a whole number of words.
pub proof fn law_message_layout(
    tables: TablesView,
    scope: Path,
    m: CommentedView<MessageDefView>,
    inherited: Option<u16>,
)
    requires
        message_model(tables, scope, m, inherited) is Ok,
    ensures
        ({
            let v = message_model(tables, scope, m, inherited)->Ok_0;
            let members = m.node.members;
            &&& v.fields.len() == members.len()
            &&& forall|i: int|
                0 <= i < members.len() ==> (#[trigger] v.fields[i]).name == members[i].node.name
            &&& forall|i: int|
                0 <= i < members.len() ==> (#[trigger] v.fields[i]).ordinal == ordinal_at(i)
            &&& v.body_length % 4 == 0
            &&& v.body_length >= MESSAGE_HEADER_BYTES
            &&& forall|i: int|
                0 <= i < members.len() ==> {
                    &&& MESSAGE_HEADER_BYTES <= (#[trigger] v.fields[i]).offset
                    &&& v.fields[i].offset + member_size(tables, members[i].node, scope)
                        <= v.body_length
                }
            &&& forall|i: int, j: int|
                0 <= i < members.len() && 0 <= j < members.len() && i != j ==> {
                    ||| (#[trigger] v.fields[i]).offset + member_size(
                        tables,
                        members[i].node,
                        scope,
                    ) <= v.fields[j].offset
                    ||| (#[trigger] v.fields[j]).offset + member_size(
                        tables,
                        members[j].node,
                        scope,
                    ) <= v.fields[i].offset
                }
        }),
{
    let members = m.node.members;
    let header = MESSAGE_HEADER_BYTES as nat;
    let v = message_model(tables, scope, m, inherited)->Ok_0;
    let declared = declared_upto(tables, members, scope, members.len())->Ok_0;
    lemma_declared(tables, members, scope, members.len());
    let slots = slots_upto(tables, declared, declared.len())->Ok_0;
    lemma_slots(tables, declared, declared.len());
    let offsets = placement(slots, header).offsets;
    lemma_fields(tables, declared, offsets, m.node.name, declared.len());
    law_fields_are_aligned_and_apart(slots, header);
    law_body_covers_fields(slots, offsets, header);
    assert forall|i: int| 0 <= i < members.len() implies slots[i].size == member_size(
        tables,
        members[i].node,
        scope,
    ) && v.fields[i].offset == #[trigger] offsets[i] by {
        assert(declared[i].name == members[i].node.name);
        assert(slots[i].size == slots[i].size);
    }
    assert forall|i: int, j: int|
        0 <= i < members.len() && 0 <= j < members.len() && i != j implies ({
        ||| (#[trigger] v.fields[i]).offset + member_size(tables, members[i].node, scope)
            <= v.fields[j].offset
        ||| (#[trigger] v.fields[j]).offset + member_size(tables, members[j].node, scope)
            <= v.fields[i].offset
    }) by {
        assert(disjoint(slots, offsets, i, j));
        assert(v.fields[i].offset == offsets[i]);
        assert(v.fields[j].offset == offsets[j]);
    }
    assert forall|i: int| 0 <= i < members.len() implies ({
        &&& MESSAGE_HEADER_BYTES <= (#[trigger] v.fields[i]).offset
        &&& v.fields[i].offset + member_size(tables, members[i].node, scope) <= v.body_length
    }) by {
        assert(v.fields[i].offset == offsets[i]);
    }
}

/// The failures that building a model can end in.
pub open spec fn is_model_failure(e: FailureView) -> bool {
    match e {
        FailureView::NoLayout => true,
        FailureView::Codegen(CodegenErrorView::MissingTopic { message }) => true,
        FailureView::Codegen(
            CodegenErrorView::UnsupportedMemberType { message, member, member_type },
        ) => true,
        _ => false,
    }
}

proof fn lemma_declared_failure(
    tables: TablesView,
    members: Seq<CommentedView<MemberView>>,
    scope: Path,
    n: nat,
)
    ensures
        declared_upto(tables, members, scope, n) matches Err(e) ==> is_model_failure(e),
    decreases n,
{
    if n > 0 {
        lemma_declared_failure(tables, members, scope, (n - 1) as nat);
    }
}

proof fn lemma_slots_failure(tables: TablesView, declared: Seq<DeclaredView>, n: nat)
    ensures
        slots_upto(tables, declared, n) matches Err(e) ==> is_model_failure(e),
    decreases n,
{
    if n > 0 {
        lemma_slots_failure(tables, declared, (n - 1) as nat);
    }
}

proof fn lemma_struct_failure(tables: TablesView, def: StructDefView, scope: Path)
    ensures
        struct_model(tables, def, scope) matches Err(e) ==> is_model_failure(e),
{
    lemma_declared_failure(tables, def.members, scope, def.members.len());
    if let Ok(declared) = declared_upto(tables, def.members, scope, def.members.len()) {
        lemma_slots_failure(tables, declared, declared.len());
    }
}

proof fn lemma_fields_failure(
    tables: TablesView,
    declared: Seq<DeclaredView>,
    offsets: Seq<nat>,
    message: Text,
    n: nat,
)
    ensures
        fields_upto(tables, declared, offsets, message, n) matches Err(e) ==> is_model_failure(e),
    decreases n,
{
    if n > 0 {
        lemma_fields_failure(tables, declared, offsets, message, (n - 1) as nat);
        if let TypeView::Sequence { element_type, size } = declared[n - 1].ty {
            if let TypeView::ScopedName(path) = *element_type {
                if let Some(b) = binding_of(tables.structs, path) {
                    lemma_struct_failure(tables, b.node, b.scope);
                }
            }
        }
    }
}

/// Building a message fails only for want of a topic, a supported type or a
/// layout.
pub proof fn law_message_failures(
    tables: TablesView,
    scope: Path,
    m: CommentedView<MessageDefView>,
    inherited: Option<u16>,
)
    ensures
        message_model(tables, scope, m, inherited) matches Err(e) ==> is_model_failure(e),
{
    let members = m.node.members;
    lemma_declared_failure(tables, members, scope, members.len());
    if let Ok(declared) = declared_upto(tables, members, scope, members.len()) {
        lemma_slots_failure(tables, declared, declared.len());
        if let Ok(slots) = slots_upto(tables, declared, declared.len()) {
            if let Ok(offsets) = offsets_of(slots, MESSAGE_HEADER_BYTES as nat) {
                lemma_fields_failure(tables, declared, offsets, m.node.name, declared.len());
            }
        }
    }
}

/// The space that members take, each by its resolved type as it is stored.
pub open spec fn member_slots(
    tables: TablesView,
    members: Seq<CommentedView<MemberView>>,
    scope: Path,
) -> Seq<Slot> {
    Seq::new(
        members.len(),
        |i: int|
            {
                let stored = storage(
                    tables.enums,
                    resolved(tables, members[i].node.type_, scope).unwrap(),
                ).unwrap();
                Slot { align: stored_align(stored), size: stored_size(stored).unwrap() }
            },
    )
}

proof fn lemma_member_slots(
    tables: TablesView,
    members: Seq<CommentedView<MemberView>>,
    scope: Path,
)
    requires
        declared_upto(tables, members, scope, members.len()) matches Ok(d) && slots_upto(
            tables,
            d,
            d.len(),
        ) is Ok,
    ensures
        ({
            let d = declared_upto(tables, members, scope, members.len())->Ok_0;
            &&& d.len() == members.len()
            &&& slots_upto(tables, d, d.len())->Ok_0 == member_slots(tables, members, scope)
            &&& forall|i: int|
                0 <= i < members.len() ==> {
                    &&& (#[trigger] d[i]).name == members[i].node.name
                    &&& d[i].comments == members[i].comments
                    &&& resolved(tables, members[i].node.type_, scope) == Some(d[i].ty)
                }
        }),
{
    let d = declared_upto(tables, members, scope, members.len())->Ok_0;
    lemma_declared(tables, members, scope, members.len());
    lemma_declared_comments(tables, members, scope, members.len());
    lemma_slots(tables, d, d.len());
    lemma_slot_aligns(tables, d, d.len());
    let slots = slots_upto(tables, d, d.len())->Ok_0;
    assert forall|i: int| 0 <= i < members.len() implies slots[i] == #[trigger] member_slots(
        tables,
        members,
        scope,
    )[i] by {
        assert(d[i].name == members[i].node.name);
        assert(slots[i].size == slots[i].size);
    }
    assert(slots =~= member_slots(tables, members, scope));
}

proof fn lemma_declared_comments(
    tables: TablesView,
    members: Seq<CommentedView<MemberView>>,
    scope: Path,
    n: nat,
)
    requires
        declared_upto(tables, members, scope, n) is Ok,
    ensures
        ({
            let d = declared_upto(tables, members, scope, n)->Ok_0;
            &&& d.len() == n
            &&& forall|i: int| 0 <= i < n ==> (#[trigger] d[i]).comments == members[i].comments
        }),
    decreases n,
{
    if n > 0 {
        lemma_declared_comments(tables, members, scope, (n - 1) as nat);
    }
}

proof fn lemma_slot_aligns(tables: TablesView, declared: Seq<DeclaredView>, n: nat)
    requires
        slots_upto(tables, declared, n) is Ok,
    ensures
        ({
            let slots = slots_upto(tables, declared, n)->Ok_0;
            &&& slots.len() == n
            &&& forall|i: int|
                0 <= i < n ==> (#[trigger] slots[i]).align == stored_align(
                    storage(tables.enums, declared[i].ty).unwrap(),
                )
        }),
    decreases n,
{
    if n > 0 {
        lemma_slot_aligns(tables, declared, (n - 1) as nat);
    }
}

/// The offsets of the fields of a message.
pub open spec fn field_offsets(v: MessageView) -> Seq<nat> {
    Seq::new(v.fields.len(), |i: int| v.fields[i].offset)
}

/// The fields of a message are placed from the eighth byte on, each where the order of
/// placing puts it, and the body is a whole number of words, no more than it takes.
pub proof fn law_messages_are_laid_out(
    tables: TablesView,
    scope: Path,
    m: CommentedView<MessageDefView>,
    inherited: Option<u16>,
)
    requires
        message_model(tables, scope, m, inherited) is Ok,
    ensures
        ({
            let v = message_model(tables, scope, m, inherited)->Ok_0;
            let slots = member_slots(tables, m.node.members, scope);
            &&& v.fields.len() == m.node.members.len()
            &&& exists|order: Seq<int>| laid_out(slots, 8, field_offsets(v), order)
            &&& v.body_length % 4 == 0
            &&& v.body_length >= 8
            &&& forall|i: int|
                0 <= i < slots.len() ==> (#[trigger] field_offsets(v)[i]) + slots[i].size
                    <= v.body_length
            &&& v.body_length < 12 || exists|i: int|
                0 <= i < slots.len() && v.body_length < (#[trigger] field_offsets(v)[i])
                    + slots[i].size + 4
        }),
{
    let members = m.node.members;
    let v = message_model(tables, scope, m, inherited)->Ok_0;
    let declared = declared_upto(tables, members, scope, members.len())->Ok_0;
    lemma_member_slots(tables, members, scope);
    let slots = member_slots(tables, members, scope);
    let offsets = placement(slots, 8).offsets;
    lemma_fields(tables, declared, offsets, m.node.name, declared.len());
    law_fields_are_aligned_and_apart(slots, 8);
    law_padding_is_spent_only_where_nothing_fits(slots, 8);
    law_body_covers_fields(slots, offsets, 8);
    law_body_is_as_short_as_can_be(slots, offsets, 8);
    assert(field_offsets(v) =~= offsets);
}

/// Whether an element stands for a structure: one field for each of its members, with the
/// member's name, comments and resolved type, placed from the start of the element on, and
/// the least size that keeps the fields of the next element aligned.
pub open spec fn is_layout_of(
    s: StructView,
    tables: TablesView,
    def: StructDefView,
    scope: Path,
) -> bool {
    let slots = member_slots(tables, def.members, scope);
    let offsets = Seq::new(s.fields.len(), |i: int| s.fields[i].offset);
    &&& s.fields.len() == def.members.len()
    &&& forall|i: int|
        0 <= i < s.fields.len() ==> {
            &&& (#[trigger] s.fields[i]).name == def.members[i].node.name
            &&& s.fields[i].capital == capitalized(def.members[i].node.name)
            &&& s.fields[i].comments == def.members[i].comments
            &&& resolved(tables, def.members[i].node.type_, scope) == Some(s.fields[i].ty)
        }
    &&& exists|order: Seq<int>| laid_out(slots, 0, offsets, order)
    &&& element_can_be(slots, offsets, s.element_size)
    &&& forall|size: nat|
        #[trigger] element_can_be(slots, offsets, size) ==> s.element_size <= size
}

proof fn lemma_member_aligns(
    tables: TablesView,
    members: Seq<CommentedView<MemberView>>,
    scope: Path,
)
    ensures
        forall|i: int|
            0 <= i < members.len() ==> is_wire_align(
                (#[trigger] member_slots(tables, members, scope)[i]).align,
            ),
{
}

/// The elements of a sequence of structures are laid out as the structure says.
pub proof fn law_structures_are_laid_out(tables: TablesView, def: StructDefView, scope: Path)
    requires
        struct_model(tables, def, scope) is Ok,
    ensures
        is_layout_of(struct_model(tables, def, scope)->Ok_0, tables, def, scope),
{
    let members = def.members;
    let s = struct_model(tables, def, scope)->Ok_0;
    let slots = member_slots(tables, members, scope);
    lemma_member_slots(tables, members, scope);
    lemma_member_aligns(tables, members, scope);
    let declared = declared_upto(tables, members, scope, members.len())->Ok_0;
    let offsets = placement(slots, 0).offsets;
    law_fields_are_aligned_and_apart(slots, 0);
    law_padding_is_spent_only_where_nothing_fits(slots, 0);
    assert(Seq::new(s.fields.len(), |i: int| s.fields[i].offset) =~= offsets);
    law_struct_size_is_least(slots, offsets, 0);
    assert forall|i: int| 0 <= i < s.fields.len() implies {
        &&& (#[trigger] s.fields[i]).name == members[i].node.name
        &&& s.fields[i].capital == capitalized(members[i].node.name)
        &&& s.fields[i].comments == members[i].comments
        &&& resolved(tables, members[i].node.type_, scope) == Some(s.fields[i].ty)
    } by {
        assert(declared[i].name == members[i].node.name);
    }
    assert forall|size: nat| #[trigger] element_can_be(slots, offsets, size) implies s.element_size
        <= size by {
        law_struct_size_is_least(slots, offsets, size);
    }
}

proof fn lemma_field_contents(
    tables: TablesView,
    declared: Seq<DeclaredView>,
    offsets: Seq<nat>,
    message: Text,
    n: nat,
)
    requires
        fields_upto(tables, declared, offsets, message, n) is Ok,
    ensures
        ({
            let fields = fields_upto(tables, declared, offsets, message, n)->Ok_0;
            &&& fields.len() == n
            &&& forall|i: int|
                0 <= i < n ==> {
                    &&& (#[trigger] fields[i]).comments == declared[i].comments
                    &&& fields[i].capital == capitalized(declared[i].name)
                    &&& fields[i].words == title(declared[i].name)
                    &&& field_kind(tables, declared[i].ty, message, declared[i].name) == Ok::<
                        FieldKindView,
                        FailureView,
                    >(fields[i].kind)
                }
        }),
    decreases n,
{
    if n > 0 {
        lemma_field_contents(tables, declared, offsets, message, (n - 1) as nat);
    }
}

/// The type of a member where it stands, if it can be resolved.
pub open spec fn member_type(
    tables: TablesView,
    m: CommentedView<MessageDefView>,
    scope: Path,
    i: int,
) -> TypeView {
    resolved(tables, m.node.members[i].node.type_, scope).unwrap()
}

/// A field stands for the member at the same place: it has its name, its comments and the
/// ordinal that follows that of the field before it. A member that is a sequence becomes a
/// sequence, of structures where the elements are structures and of the elements as they are
/// otherwise; any other member is a single value of its type.
pub proof fn law_fields_stand_for_members(
    tables: TablesView,
    scope: Path,
    m: CommentedView<MessageDefView>,
    inherited: Option<u16>,
    i: int,
)
    requires
        message_model(tables, scope, m, inherited) is Ok,
        0 <= i < m.node.members.len(),
    ensures
        ({
            let v = message_model(tables, scope, m, inherited)->Ok_0;
            let f = v.fields[i];
            let ty = member_type(tables, m, scope, i);
            &&& v.fields.len() == m.node.members.len()
            &&& f.name == m.node.members[i].node.name
            &&& f.capital == capitalized(m.node.members[i].node.name)
            &&& f.words == title(m.node.members[i].node.name)
            &&& f.comments == m.node.members[i].comments
            &&& f.ordinal == (3 + i) % 256
            &&& !(ty is Sequence) ==> f.kind == FieldKindView::Scalar(ty)
            &&& ty matches TypeView::Sequence { element_type, size } ==> {
                match f.kind {
                    FieldKindView::Sequence(ElementView::Struct(s)) => {
                        &&& *element_type matches TypeView::ScopedName(path)
                        &&& binding_of(tables.structs, path) matches Some(b)
                        &&& is_layout_of(s, tables, b.node, b.scope)
                    },
                    FieldKindView::Sequence(ElementView::Primitive(element)) => {
                        &&& element == *element_type
                        &&& *element_type matches TypeView::ScopedName(path) ==> binding_of(
                            tables.structs,
                            path,
                        ) is None && binding_of(tables.enums, path) is Some
                    },
                    FieldKindView::Scalar(_) => false,
                }
            }
            &&& v.max_ordinal == (2 + v.fields.len()) % 256
        }),
{
    let members = m.node.members;
    let v = message_model(tables, scope, m, inherited)->Ok_0;
    let declared = declared_upto(tables, members, scope, members.len())->Ok_0;
    lemma_member_slots(tables, members, scope);
    let slots = member_slots(tables, members, scope);
    let offsets = placement(slots, 8).offsets;
    lemma_fields(tables, declared, offsets, m.node.name, declared.len());
    lemma_field_contents(tables, declared, offsets, m.node.name, declared.len());
    assert(declared[i].name == members[i].node.name);
    assert(v.fields[i].name == declared[i].name);
    assert(v.fields[v.fields.len() - 1].name == declared[v.fields.len() - 1].name);
    if let TypeView::Sequence { element_type, size } = declared[i].ty {
        if let TypeView::ScopedName(path) = *element_type {
            if let Some(b) = binding_of(tables.structs, path) {
                law_structures_are_laid_out(tables, b.node, b.scope);
            }
        }
    }
}

/// A message that has a model has a topic, and is refused where a member is a structure, a
/// string without a bound or a sequence of something that nothing defines.
pub proof fn law_unsupported_members_are_refused(
    tables: TablesView,
    scope: Path,
    m: CommentedView<MessageDefView>,
    inherited: Option<u16>,
    i: int,
)
    requires
        0 <= i < m.node.members.len(),
        ({
            let ty = member_type(tables, m, scope, i);
            ||| string_value(m.annotations, "topic"@) is None
            ||| ty matches TypeView::String { bound } && bound is None
            ||| ty matches TypeView::ScopedName(path) && binding_of(tables.structs, path) is Some
            ||| ty matches TypeView::Sequence { element_type, size }
                && *element_type matches TypeView::ScopedName(path) && binding_of(
                tables.structs,
                path,
            ) is None && binding_of(tables.enums, path) is None
        }),
    ensures
        message_model(tables, scope, m, inherited) is Err,
{
    if message_model(tables, scope, m, inherited) is Ok {
        let members = m.node.members;
        let declared = declared_upto(tables, members, scope, members.len())->Ok_0;
        lemma_member_slots(tables, members, scope);
        let slots = member_slots(tables, members, scope);
        let offsets = placement(slots, 8).offsets;
        lemma_field_contents(tables, declared, offsets, m.node.name, declared.len());
        assert(declared[i].name == members[i].node.name);
        let v = message_model(tables, scope, m, inherited)->Ok_0;
        assert(v.fields[i].comments == declared[i].comments);
    }
}

/// A message has the name, the comments, the topic and the path that its definition has. Its
/// module key is its own, else the inherited one, else zero; its own key is zero where it
/// names none.
pub proof fn law_messages_keep_what_they_name(
    tables: TablesView,
    scope: Path,
    m: CommentedView<MessageDefView>,
    inherited: Option<u16>,
)
    requires
        message_model(tables, scope, m, inherited) is Ok,
    ensures
        ({
            let v = message_model(tables, scope, m, inherited)->Ok_0;
            &&& v.name == m.node.name
            &&& v.words == title(m.node.name)
            &&& v.scope == scope
            &&& v.comments == m.comments
            &&& string_value(m.annotations, "topic"@) == Some(v.topic)
            &&& match u16_value(m.annotations, "module_key"@) {
                Some(key) => v.module_key == key,
                None => v.module_key == inherited.unwrap_or(0),
            }
            &&& match u16_value(m.annotations, "message_key"@) {
                Some(key) => v.message_key == key,
                None => v.message_key == 0,
            }
        }),
{
}

/// The literal of an enumeration value stands for the value: hexadecimal digits, four of them
/// at least, where it is not negative, and a decimal with a minus sign where it is. A sign in
/// front of a constant stands in front of its literal, but for a plus.
pub proof fn law_literals_stand_for_their_values(lit: IntegerLiteral, expr: ConstView)
    ensures
        ({
            let text = literal(ConstView::Integer(lit));
            &&& lit.value >= 0 ==> {
                &&& text.len() >= 6
                &&& text.take(2) == "0x"@
                &&& digits_value(text.skip(2), 16) == lit.value
            }
            &&& lit.value < 0 ==> text[0] == '-' && digits_value(text.drop_first(), 10)
                == -lit.value
        }),
        literal(
            ConstView::UnaryOp { op: UnaryOperator::Minus, expr: Box::new(expr) },
        ) == "-"@ + literal(expr),
        literal(
            ConstView::UnaryOp { op: UnaryOperator::Plus, expr: Box::new(expr) },
        ) == literal(expr),
{
    law_bases_are_ten_and_sixteen(lit.value as int, 4);
    reveal_with_fuel(literal, 2);
    if lit.value >= 0 {
        reveal_strlit("0x");
        let digits = hex(lit.value as nat, 4);
        assert(("0x"@ + digits).take(2) =~= "0x"@);
        assert(("0x"@ + digits).skip(2) =~= digits);
    }
}

/// An enumeration has one value for each enumerator, in order, with its name and its literal,
/// or zero where it is given none; each is emitted after the name of the enumeration.
pub proof fn law_enumerations_keep_their_values(e: CommentedView<EnumDefView>, i: int)
    requires
        0 <= i < e.node.enumerators.len(),
    ensures
        ({
            let v = enum_model(e);
            &&& v.name == e.node.name
            &&& v.value_prefix == screaming(e.node.name)
            &&& v.values.len() == e.node.enumerators.len()
            &&& v.values[i].name == e.node.enumerators[i].name
            &&& v.values[i].comments == e.node.enumerators[i].comments
            &&& v.values[i].literal == match e.node.enumerators[i].value {
                Some(value) => literal(value),
                None => "0"@,
            }
        }),
{
}

} // verus!
