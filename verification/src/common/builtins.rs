//! Built-in names for types.
use vstd::prelude::*;
use crate::ast::{
    definition_view, definitions_view, Commented, CommentedView, Definition, DefinitionView, Member,
    MemberView, Type, TypeView,
};
use crate::c::types::{is_signed, is_unsigned, lemma_width_digits, wire_bits};
use crate::concat::{views, Path, Text};
use crate::numerals::decimal;
use crate::text::{owned, same_text};
use crate::tree::{found, Found};

verus! {

broadcast use crate::concat::group_views;

/// A built-in name and the type that it stands for.
#[derive(Debug)]
pub struct Builtin {
    pub name: String,
    pub ty: Type,
}

/// What contracts see of a [`Builtin`].
pub struct BuiltinView {
    pub name: Text,
    pub ty: TypeView,
}

impl View for Builtin {
    type V = BuiltinView;

    open spec fn view(&self) -> BuiltinView {
        BuiltinView { name: self.name@, ty: self.ty@ }
    }
}

/// The type of the first built-in name at or after position `from` that is
/// `name`.
pub open spec fn builtin_from(builtins: Seq<BuiltinView>, name: Text, from: nat) -> Option<TypeView>
    decreases builtins.len() - from,
{
    if from >= builtins.len() {
        None
    } else if builtins[from as int].name == name {
        Some(builtins[from as int].ty)
    } else {
        builtin_from(builtins, name, from + 1)
    }
}

/// The type that a built-in name stands for.
pub open spec fn builtin_type(builtins: Seq<BuiltinView>, name: Text) -> Option<TypeView> {
    builtin_from(builtins, name, 0)
}

/// The type that a built-in name stands for.
pub fn map_builtin_ident(builtins: &Vec<Builtin>, name: &str) -> (r: Option<Type>)
    ensures
        match r {
            Some(t) => builtin_type(views(builtins@), name@) == Some(t@),
            None => builtin_type(views(builtins@), name@) is None,
        },
{
    let ghost all = views(builtins@);
    for i in 0..builtins.len()
        invariant
            all == views(builtins@),
            builtin_type(all, name@) == builtin_from(all, name@, i as nat),
    {
        assert(all[i as int] == builtins@[i as int]@);
        if same_text(builtins[i].name.as_str(), name) {
            return Some(builtins[i].ty.clone());
        }
    }
    None
}

/// Whether every built-in name stands for a type that names and holds no other.
pub open spec fn are_primitive(builtins: Seq<BuiltinView>) -> bool {
    forall|i: int|
        0 <= i < builtins.len() ==> !((#[trigger] builtins[i]).ty is Sequence)
            && !(builtins[i].ty is Array) && !(builtins[i].ty is ScopedName)
}

/// A built-in name of primitive types stands for a primitive type.
pub proof fn lemma_builtin_is_primitive(builtins: Seq<BuiltinView>, name: Text, from: nat)
    requires
        are_primitive(builtins),
    ensures
        builtin_from(builtins, name, from) matches Some(t) ==> !(t is Sequence) && !(t is Array)
            && !(t is ScopedName),
    decreases builtins.len() - from,
{
    if from < builtins.len() && builtins[from as int].name != name {
        lemma_builtin_is_primitive(builtins, name, from + 1);
    }
}

/// The names of the integer types, by sign and width.
pub open spec fn integer_builtins() -> Seq<BuiltinView> {
    seq![
        BuiltinView { name: "int8"@, ty: TypeView::Char },
        BuiltinView { name: "uint8"@, ty: TypeView::Octet },
        BuiltinView { name: "int16"@, ty: TypeView::Short },
        BuiltinView { name: "uint16"@, ty: TypeView::UnsignedShort },
        BuiltinView { name: "int32"@, ty: TypeView::Long },
        BuiltinView { name: "uint32"@, ty: TypeView::UnsignedLong },
        BuiltinView { name: "int64"@, ty: TypeView::LongLong },
        BuiltinView { name: "uint64"@, ty: TypeView::UnsignedLongLong },
    ]
}

/// The names of the integer types, by sign and width.
pub fn integer_names() -> (r: Vec<Builtin>)
    ensures
        views(r@) == integer_builtins(),
{
    let mut r: Vec<Builtin> = Vec::new();
    r.push(Builtin { name: owned("int8"), ty: Type::Char });
    r.push(Builtin { name: owned("uint8"), ty: Type::Octet });
    r.push(Builtin { name: owned("int16"), ty: Type::Short });
    r.push(Builtin { name: owned("uint16"), ty: Type::UnsignedShort });
    r.push(Builtin { name: owned("int32"), ty: Type::Long });
    r.push(Builtin { name: owned("uint32"), ty: Type::UnsignedLong });
    r.push(Builtin { name: owned("int64"), ty: Type::LongLong });
    r.push(Builtin { name: owned("uint64"), ty: Type::UnsignedLongLong });
    r
}

/// The name of one segment that a type is, or that its elements are.
pub open spec fn short_name(ty: TypeView) -> Option<Text>
    decreases ty,
{
    match ty {
        TypeView::Sequence { element_type, size } => short_name(*element_type),
        TypeView::Array { element_type, dimensions } => short_name(*element_type),
        TypeView::ScopedName(path) => if path.len() == 1 {
            Some(path[0])
        } else {
            None
        },
        _ => None,
    }
}

/// The names with that of one more type, if it has one.
pub open spec fn with_name(names: Seq<Text>, ty: TypeView) -> Seq<Text> {
    match short_name(ty) {
        Some(name) => names.push(name),
        None => names,
    }
}

/// The names with those of the first `n` members.
pub open spec fn with_member_names(
    names: Seq<Text>,
    members: Seq<CommentedView<MemberView>>,
    n: nat,
) -> Seq<Text>
    decreases n,
{
    if n == 0 || n > members.len() {
        names
    } else {
        with_name(
            with_member_names(names, members, (n - 1) as nat),
            members[n - 1].node.type_,
        )
    }
}

/// The names with those in the first `n` definitions, at any depth: of members, of
/// what aliases stand for and of what enumerations are stored in.
pub open spec fn with_names_upto(
    names: Seq<Text>,
    defs: Seq<DefinitionView>,
    n: nat,
) -> Seq<Text>
    decreases defs, n,
{
    if n == 0 || n > defs.len() {
        names
    } else {
        let before = with_names_upto(names, defs, (n - 1) as nat);
        match defs[n - 1] {
            DefinitionView::ModuleDef(m) => with_names_upto(
                before,
                m.node.definitions,
                m.node.definitions.len(),
            ),
            DefinitionView::TypeDef(t) => with_name(before, t.node.base_type),
            DefinitionView::EnumDef(e) => match e.node.base_type {
                Some(ty) => with_name(before, ty),
                None => before,
            },
            DefinitionView::StructDef(s) => with_member_names(
                before,
                s.node.members,
                s.node.members.len(),
            ),
            DefinitionView::MessageDef(m) => with_member_names(
                before,
                m.node.members,
                m.node.members.len(),
            ),
            _ => before,
        }
    }
}

/// The names of one segment that definitions use for types, in order and as often
/// as they are used.
pub open spec fn used_names(defs: Seq<DefinitionView>) -> Seq<Text> {
    with_names_upto(Seq::empty(), defs, defs.len())
}

fn push_name(names: &mut Vec<String>, ty: &Type)
    ensures
        views(final(names)@) == with_name(views(old(names)@), ty@),
    decreases ty,
{
    match ty {
        Type::Sequence { element_type, size: _ } => push_name(names, &**element_type),
        Type::Array { element_type, dimensions: _ } => push_name(names, &**element_type),
        Type::ScopedName(path) => {
            if path.len() == 1 {
                assert(views(path@)[0] == path@[0]@);
                names.push(path[0].clone());
            }
        },
        _ => {},
    }
}

fn push_member_names(names: &mut Vec<String>, members: &Vec<Commented<Member>>)
    ensures
        views(final(names)@) == with_member_names(
            views(old(names)@),
            views(members@),
            members@.len(),
        ),
{
    let ghost start = views(names@);
    let ghost all = views(members@);
    for i in 0..members.len()
        invariant
            start == views(old(names)@),
            all == views(members@),
            views(names@) == with_member_names(start, all, i as nat),
    {
        assert(all[i as int] == members@[i as int]@);
        push_name(names, &members[i].node.type_);
    }
}

fn push_names(names: &mut Vec<String>, defs: &[Definition])
    ensures
        views(final(names)@) == with_names_upto(
            views(old(names)@),
            definitions_view(defs@),
            defs@.len(),
        ),
    decreases defs@,
{
    let ghost start = views(names@);
    let ghost all = definitions_view(defs@);
    for i in 0..defs.len()
        invariant
            start == views(old(names)@),
            all == definitions_view(defs@),
            views(names@) == with_names_upto(start, all, i as nat),
    {
        assert(all[i as int] == definition_view(defs@[i as int]));
        match &defs[i] {
            Definition::ModuleDef(m) => push_names(names, m.node.definitions.as_slice()),
            Definition::TypeDef(t) => push_name(names, &t.node.base_type),
            Definition::EnumDef(e) => {
                if let Some(ty) = &e.node.base_type {
                    push_name(names, ty);
                }
            },
            Definition::StructDef(s) => push_member_names(names, &s.node.members),
            Definition::MessageDef(m) => push_member_names(names, &m.node.members),
            _ => {},
        }
    }
}

/// Lists the names of one segment that definitions use for types: those that a
/// table of built-in names has to know.
pub fn names_used(defs: &[Definition]) -> (r: Vec<String>)
    ensures
        views(r@) == used_names(definitions_view(defs@)),
{
    let mut names: Vec<String> = Vec::new();
    push_names(&mut names, defs);
    names
}

/// The name of each integer type says its sign and its width on the wire, and there is one for
/// each of them.
pub proof fn law_integer_names_say_sign_and_width(i: int)
    ensures
        integer_builtins().len() == 8,
        0 <= i < 8 ==> {
            let b = integer_builtins()[i];
            &&& is_signed(b.ty) ==> b.name == "int"@ + decimal(wire_bits(b.ty))
            &&& is_unsigned(b.ty) ==> b.name == "uint"@ + decimal(wire_bits(b.ty))
            &&& is_signed(b.ty) || is_unsigned(b.ty)
        },
        forall|t: TypeView|
            #![trigger is_signed(t)]
            #![trigger is_unsigned(t)]
            is_signed(t) || is_unsigned(t) ==> exists|k: int|
                0 <= k < 8 && (#[trigger] integer_builtins()[k]).ty == t,
{
    lemma_width_digits();
    reveal_strlit("int");
    reveal_strlit("uint");
    reveal_strlit("int8");
    reveal_strlit("uint8");
    reveal_strlit("int16");
    reveal_strlit("uint16");
    reveal_strlit("int32");
    reveal_strlit("uint32");
    reveal_strlit("int64");
    reveal_strlit("uint64");
    let all = integer_builtins();
    if 0 <= i < 8 {
        let b = all[i];
        if is_signed(b.ty) {
            assert(b.name =~= "int"@ + decimal(wire_bits(b.ty)));
        } else {
            assert(b.name =~= "uint"@ + decimal(wire_bits(b.ty)));
        }
    }
    assert forall|t: TypeView| is_signed(t) || is_unsigned(t) implies exists|k: int|
        0 <= k < 8 && (#[trigger] integer_builtins()[k]).ty == t by {
        assert(all[0].ty is Char && all[1].ty is Octet && all[2].ty is Short
            && all[3].ty is UnsignedShort && all[4].ty is Long && all[5].ty is UnsignedLong
            && all[6].ty is LongLong && all[7].ty is UnsignedLongLong);
    }
}

proof fn lemma_builtin_first(builtins: Seq<BuiltinView>, name: Text, from: nat, i: int)
    requires
        from <= i < builtins.len(),
        builtins[i].name == name,
        forall|k: int| from <= k < i ==> (#[trigger] builtins[k]).name != name,
    ensures
        builtin_from(builtins, name, from) == Some(builtins[i].ty),
    decreases i - from,
{
    if from < i {
        assert(builtins[from as int].name != name);
        lemma_builtin_first(builtins, name, from + 1, i);
    }
}

proof fn lemma_builtin_none(builtins: Seq<BuiltinView>, name: Text, from: nat)
    requires
        forall|k: int| from <= k < builtins.len() ==> (#[trigger] builtins[k]).name != name,
    ensures
        builtin_from(builtins, name, from) is None,
    decreases builtins.len() - from,
{
    if from < builtins.len() {
        assert(builtins[from as int].name != name);
        lemma_builtin_none(builtins, name, from + 1);
    }
}

/// A name stands for the type of the first entry of the table that has it, and for nothing where
/// no entry has it.
pub proof fn law_the_first_entry_counts(builtins: Seq<BuiltinView>, name: Text, i: int)
    requires
        0 <= i <= builtins.len(),
        forall|k: int| 0 <= k < i ==> (#[trigger] builtins[k]).name != name,
        i < builtins.len() ==> builtins[i].name == name,
    ensures
        i < builtins.len() ==> builtin_type(builtins, name) == Some(builtins[i].ty),
        i == builtins.len() ==> builtin_type(builtins, name) is None,
{
    if i < builtins.len() {
        lemma_builtin_first(builtins, name, 0, i);
    } else {
        lemma_builtin_none(builtins, name, 0);
    }
}

/// The types that a definition is made with: those of its members, what an alias stands for,
/// what an enumeration is stored in.
pub open spec fn types_in(d: DefinitionView) -> Seq<TypeView> {
    match d {
        DefinitionView::TypeDef(t) => seq![t.node.base_type],
        DefinitionView::EnumDef(e) => match e.node.base_type {
            Some(ty) => seq![ty],
            None => Seq::empty(),
        },
        DefinitionView::StructDef(s) => s.node.members.map_values(
            |m: CommentedView<MemberView>| m.node.type_,
        ),
        DefinitionView::MessageDef(d) => d.node.members.map_values(
            |m: CommentedView<MemberView>| m.node.type_,
        ),
        _ => Seq::empty(),
    }
}

/// Whether the definition at a place is made with a type of a name.
pub open spec fn names_at_place(
    defs: Seq<DefinitionView>,
    at: Path,
    steps: Seq<int>,
    name: Text,
) -> bool {
    found(defs, at, steps) matches Some(f) && exists|k: int|
        0 <= k < types_in(f.def).len() && short_name(#[trigger] types_in(f.def)[k]) == Some(name)
}

proof fn lemma_member_name(
    names: Seq<Text>,
    members: Seq<CommentedView<MemberView>>,
    n: nat,
    name: Text,
)
    requires
        n <= members.len(),
    ensures
        with_member_names(names, members, n).contains(name) <==> names.contains(name) || exists|
            k: int,
        |
            0 <= k < n && short_name((#[trigger] members[k]).node.type_) == Some(name),
    decreases n,
{
    if n > 0 {
        lemma_member_name(names, members, (n - 1) as nat, name);
        let before = with_member_names(names, members, (n - 1) as nat);
        let last = members[n - 1].node.type_;
        if let Some(added) = short_name(last) {
            let after = before.push(added);
            assert(after[after.len() - 1] == added);
            if before.contains(name) {
                let k = choose|k: int| 0 <= k < before.len() && before[k] == name;
                assert(after[k] == name);
            }
            if after.contains(name) && added != name {
                let k = choose|k: int| 0 <= k < after.len() && after[k] == name;
                assert(before[k] == name);
            }
        }
    }
}

proof fn lemma_name_of(names: Seq<Text>, d: DefinitionView, name: Text)
    requires
        !(d is ModuleDef),
    ensures
        with_names_upto(names, seq![d], 1).contains(name) <==> names.contains(name) || exists|
            k: int,
        |
            0 <= k < types_in(d).len() && short_name(#[trigger] types_in(d)[k]) == Some(name),
{
    reveal_with_fuel(with_names_upto, 2);
    let types = types_in(d);
    match d {
        DefinitionView::StructDef(s) => {
            lemma_member_name(names, s.node.members, s.node.members.len(), name);
            assert(forall|k: int|
                0 <= k < types.len() ==> #[trigger] types[k] == s.node.members[k].node.type_);
            assert(forall|k: int|
                0 <= k < types.len() ==> (#[trigger] s.node.members[k]).node.type_ == types[k]);
        },
        DefinitionView::MessageDef(m) => {
            lemma_member_name(names, m.node.members, m.node.members.len(), name);
            assert(forall|k: int|
                0 <= k < types.len() ==> #[trigger] types[k] == m.node.members[k].node.type_);
            assert(forall|k: int|
                0 <= k < types.len() ==> (#[trigger] m.node.members[k]).node.type_ == types[k]);
        },
        _ => {
            if types.len() > 0 {
                if let Some(added) = short_name(types[0]) {
                    let after = names.push(added);
                    assert(after[after.len() - 1] == added);
                    if names.contains(name) {
                        let k = choose|k: int| 0 <= k < names.len() && names[k] == name;
                        assert(after[k] == name);
                    }
                    if after.contains(name) && added != name {
                        let k = choose|k: int| 0 <= k < after.len() && after[k] == name;
                        assert(names[k] == name);
                    }
                }
            }
        },
    }
}

proof fn lemma_names_upto(
    names: Seq<Text>,
    defs: Seq<DefinitionView>,
    at: Path,
    n: nat,
    name: Text,
)
    requires
        n <= defs.len(),
    ensures
        with_names_upto(names, defs, n).contains(name) <==> names.contains(name) || exists|
            steps: Seq<int>,
        |
            #[trigger] names_at_place(defs, at, steps, name) && steps[0] < n,
    decreases defs, n,
{
    if n > 0 {
        let before = with_names_upto(names, defs, (n - 1) as nat);
        let d = defs[n - 1];
        lemma_names_upto(names, defs, at, (n - 1) as nat, name);
        if let DefinitionView::ModuleDef(m) = d {
            let inside = m.node.definitions;
            let below = at.push(m.node.name);
            lemma_names_upto(before, inside, below, inside.len(), name);
            if exists|rest: Seq<int>| #[trigger]
                names_at_place(inside, below, rest, name) && rest[0] < inside.len() {
                let rest = choose|rest: Seq<int>| #[trigger]
                    names_at_place(inside, below, rest, name) && rest[0] < inside.len();
                let steps = seq![n - 1] + rest;
                assert(steps.drop_first() =~= rest);
                assert(found(defs, at, steps) == found(inside, below, rest));
                assert(names_at_place(defs, at, steps, name));
            }
            assert forall|steps: Seq<int>| #[trigger]
                names_at_place(defs, at, steps, name) && steps[0] == n - 1 implies exists|
                rest: Seq<int>,
            | #[trigger] names_at_place(inside, below, rest, name) && rest[0] < inside.len() by {
                let rest = steps.drop_first();
                assert(steps.len() > 1);
                assert(names_at_place(inside, below, rest, name));
            }
        } else {
            reveal_with_fuel(with_names_upto, 2);
            lemma_name_of(before, d, name);
            let here = seq![n - 1];
            assert(found(defs, at, here) == Some(Found { path: at, def: d }));
            assert(names_at_place(defs, at, here, name) <==> exists|k: int|
                0 <= k < types_in(d).len() && short_name(#[trigger] types_in(d)[k]) == Some(name));
            assert forall|steps: Seq<int>| #[trigger]
                names_at_place(defs, at, steps, name) && steps[0] == n - 1 implies names_at_place(
                defs,
                at,
                here,
                name,
            ) by {
                assert(steps.len() == 1);
                assert(steps =~= here);
            }
        }
    }
}

/// The names that definitions use are those of the types that they are made with, at any depth,
/// and no others.
pub proof fn law_used_names_are_those_of_types(defs: Seq<DefinitionView>, name: Text)
    ensures
        used_names(defs).contains(name) <==> exists|steps: Seq<int>| #[trigger]
            names_at_place(defs, Seq::empty(), steps, name),
{
    lemma_names_upto(Seq::empty(), defs, Seq::empty(), defs.len(), name);
}

} // verus!
