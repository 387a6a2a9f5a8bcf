//! Which built-in names a generator depends on.
use vstd::prelude::*;
use crate::ast::{
    CommentedView, DefinitionView, MemberView, MessageDefView, StructDefView, TypeView,
};
use crate::c::builder::{
    declared_upto, field_kind, fields_upto, message_model, offsets_of, slots_upto, struct_model,
    DeclaredView,
};
use crate::c::context::{collected, indexed, inner_key, nothing_collected, recorded, ContextView};
use crate::c::generate::{files_of, generated};
use crate::c::model::{FailureView, MESSAGE_HEADER_BYTES};
use crate::c::render::{header_text, source_text};
use crate::c::tables::{
    binding_of, last_binding, lemma_looked_up_is_bound, looked_up, resolved_within, BindingView,
    TablesView,
};
use crate::common::builtins::{
    builtin_type, short_name, used_names, with_member_names, with_name, with_names_upto,
    BuiltinView,
};
use crate::concat::{lemma_prefix_of_prefix, Path, Text};

verus! {

/// Whether two tables of built-in names give these names the same meaning.
pub open spec fn agree_on(a: Seq<BuiltinView>, b: Seq<BuiltinView>, names: Seq<Text>) -> bool {
    forall|i: int|
        0 <= i < names.len() ==> builtin_type(a, #[trigger] names[i]) == builtin_type(b, names[i])
}

/// Whether two tables of built-in names agree on the name in a type.
spec fn agree_on_type(a: Seq<BuiltinView>, b: Seq<BuiltinView>, ty: TypeView) -> bool {
    short_name(ty) matches Some(name) ==> builtin_type(a, name) == builtin_type(b, name)
}

/// Whether two tables of built-in names agree on the names in members.
spec fn agree_on_members(
    a: Seq<BuiltinView>,
    b: Seq<BuiltinView>,
    members: Seq<CommentedView<MemberView>>,
) -> bool {
    forall|i: int|
        0 <= i < members.len() ==> agree_on_type(a, b, (#[trigger] members[i]).node.type_)
}

/// Whether other built-in names agree with those of the tables on the names in
/// aliases and structures.
spec fn agree_on_tables(t: TablesView, b: Seq<BuiltinView>) -> bool {
    &&& forall|i: int|
        0 <= i < t.typedefs.len() ==> agree_on_type(
            t.builtins,
            b,
            (#[trigger] t.typedefs[i]).node,
        )
    &&& forall|i: int|
        0 <= i < t.structs.len() ==> agree_on_members(
            t.builtins,
            b,
            (#[trigger] t.structs[i]).node.members,
        )
}

/// The tables with other built-in names.
spec fn with_builtins(t: TablesView, b: Seq<BuiltinView>) -> TablesView {
    TablesView { builtins: b, ..t }
}

/// The context with other built-in names.
spec fn twin(c: ContextView, b: Seq<BuiltinView>) -> ContextView {
    ContextView { tables: with_builtins(c.tables, b), ..c }
}

proof fn lemma_binding_is_bound<N>(bindings: Seq<BindingView<N>>, path: Path, n: nat)
    requires
        n <= bindings.len(),
    ensures
        last_binding(bindings, path, n) matches Some(b) ==> exists|i: int|
            0 <= i < n && #[trigger] bindings[i] == b,
    decreases n,
{
    if n > 0 {
        lemma_binding_is_bound(bindings, path, (n - 1) as nat);
    }
}

proof fn lemma_same_resolved(
    t: TablesView,
    b: Seq<BuiltinView>,
    ty: TypeView,
    scope: Path,
    fuel: nat,
)
    requires
        agree_on_tables(t, b),
        agree_on_type(t.builtins, b, ty),
    ensures
        resolved_within(with_builtins(t, b), ty, scope, fuel) == resolved_within(
            t,
            ty,
            scope,
            fuel,
        ),
    decreases fuel, ty,
{
    match ty {
        TypeView::Sequence { element_type, size } => {
            lemma_same_resolved(t, b, *element_type, scope, fuel);
        },
        TypeView::Array { element_type, dimensions } => {
            lemma_same_resolved(t, b, *element_type, scope, fuel);
        },
        TypeView::ScopedName(name) => {
            lemma_looked_up_is_bound(t.typedefs, name, scope);
            if let Some(path) = looked_up(t.typedefs, name, scope) {
                lemma_binding_is_bound(t.typedefs, path, t.typedefs.len());
                if fuel > 0 {
                    let alias = binding_of(t.typedefs, path)->0;
                    lemma_same_resolved(t, b, alias.node, alias.scope, (fuel - 1) as nat);
                }
            }
        },
        _ => {},
    }
}

proof fn lemma_same_declared(
    t: TablesView,
    b: Seq<BuiltinView>,
    members: Seq<CommentedView<MemberView>>,
    scope: Path,
    n: nat,
)
    requires
        n <= members.len(),
        agree_on_tables(t, b),
        agree_on_members(t.builtins, b, members),
    ensures
        declared_upto(with_builtins(t, b), members, scope, n) == declared_upto(
            t,
            members,
            scope,
            n,
        ),
    decreases n,
{
    if n > 0 {
        lemma_same_declared(t, b, members, scope, (n - 1) as nat);
        lemma_same_resolved(t, b, members[n - 1].node.type_, scope, t.typedefs.len());
    }
}

proof fn lemma_same_slots(
    t: TablesView,
    b: Seq<BuiltinView>,
    declared: Seq<DeclaredView>,
    n: nat,
)
    ensures
        slots_upto(with_builtins(t, b), declared, n) == slots_upto(t, declared, n),
    decreases n,
{
    if n > 0 {
        lemma_same_slots(t, b, declared, (n - 1) as nat);
    }
}

proof fn lemma_same_struct(t: TablesView, b: Seq<BuiltinView>, def: StructDefView, scope: Path)
    requires
        agree_on_tables(t, b),
        agree_on_members(t.builtins, b, def.members),
    ensures
        struct_model(with_builtins(t, b), def, scope) == struct_model(t, def, scope),
{
    lemma_same_declared(t, b, def.members, scope, def.members.len());
    if let Ok(declared) = declared_upto(t, def.members, scope, def.members.len()) {
        lemma_same_slots(t, b, declared, declared.len());
    }
}

proof fn lemma_same_kind(
    t: TablesView,
    b: Seq<BuiltinView>,
    ty: TypeView,
    message: Text,
    member: Text,
)
    requires
        agree_on_tables(t, b),
    ensures
        field_kind(with_builtins(t, b), ty, message, member) == field_kind(t, ty, message, member),
{
    if let TypeView::Sequence { element_type, size } = ty {
        if let TypeView::ScopedName(path) = *element_type {
            lemma_binding_is_bound(t.structs, path, t.structs.len());
            if let Some(s) = binding_of(t.structs, path) {
                lemma_same_struct(t, b, s.node, s.scope);
            }
        }
    }
}

proof fn lemma_same_fields(
    t: TablesView,
    b: Seq<BuiltinView>,
    declared: Seq<DeclaredView>,
    offsets: Seq<nat>,
    message: Text,
    n: nat,
)
    requires
        agree_on_tables(t, b),
    ensures
        fields_upto(with_builtins(t, b), declared, offsets, message, n) == fields_upto(
            t,
            declared,
            offsets,
            message,
            n,
        ),
    decreases n,
{
    if n > 0 {
        lemma_same_fields(t, b, declared, offsets, message, (n - 1) as nat);
        lemma_same_kind(t, b, declared[n - 1].ty, message, declared[n - 1].name);
    }
}

proof fn lemma_same_message(
    t: TablesView,
    b: Seq<BuiltinView>,
    scope: Path,
    m: CommentedView<MessageDefView>,
    key: Option<u16>,
)
    requires
        agree_on_tables(t, b),
        agree_on_members(t.builtins, b, m.node.members),
    ensures
        message_model(with_builtins(t, b), scope, m, key) == message_model(t, scope, m, key),
{
    let members = m.node.members;
    lemma_same_declared(t, b, members, scope, members.len());
    if let Ok(declared) = declared_upto(t, members, scope, members.len()) {
        lemma_same_slots(t, b, declared, declared.len());
        if let Ok(slots) = slots_upto(t, declared, declared.len()) {
            if let Ok(offsets) = offsets_of(slots, MESSAGE_HEADER_BYTES as nat) {
                lemma_same_fields(t, b, declared, offsets, m.node.name, declared.len());
            }
        }
    }
}

proof fn lemma_agree_on_prefix(
    a: Seq<BuiltinView>,
    b: Seq<BuiltinView>,
    some: Seq<Text>,
    all: Seq<Text>,
)
    requires
        some.is_prefix_of(all),
        agree_on(a, b, all),
    ensures
        agree_on(a, b, some),
{
    assert forall|i: int| 0 <= i < some.len() implies builtin_type(a, #[trigger] some[i])
        == builtin_type(b, some[i]) by {
        assert(all[i] == all.subrange(0, some.len() as int)[i]);
    }
}

proof fn lemma_member_names(
    a: Seq<BuiltinView>,
    b: Seq<BuiltinView>,
    names: Seq<Text>,
    members: Seq<CommentedView<MemberView>>,
    n: nat,
)
    requires
        n <= members.len(),
    ensures
        names.is_prefix_of(with_member_names(names, members, n)),
        agree_on(a, b, with_member_names(names, members, n)) ==> forall|i: int|
            0 <= i < n ==> agree_on_type(a, b, (#[trigger] members[i]).node.type_),
    decreases n,
{
    if n > 0 {
        lemma_member_names(a, b, names, members, (n - 1) as nat);
        let before = with_member_names(names, members, (n - 1) as nat);
        lemma_one_name(a, b, before, members[n - 1].node.type_);
        let after = with_member_names(names, members, n);
        lemma_prefix_of_prefix(names, before, after);
    }
}

proof fn lemma_one_name(
    a: Seq<BuiltinView>,
    b: Seq<BuiltinView>,
    names: Seq<Text>,
    ty: TypeView,
)
    ensures
        names.is_prefix_of(with_name(names, ty)),
        agree_on(a, b, with_name(names, ty)) ==> agree_on(a, b, names) && agree_on_type(a, b, ty),
{
    let after = with_name(names, ty);
    if agree_on(a, b, after) {
        lemma_agree_on_prefix(a, b, names, after);
        if short_name(ty) is Some {
            assert(after[names.len() as int] == short_name(ty)->0);
        }
    }
}

proof fn lemma_names_grow(names: Seq<Text>, defs: Seq<DefinitionView>, n: nat)
    ensures
        names.is_prefix_of(with_names_upto(names, defs, n)),
    decreases defs, n,
{
    if 0 < n <= defs.len() {
        lemma_names_grow(names, defs, (n - 1) as nat);
        lemma_one_more(names, defs, n);
        lemma_prefix_of_prefix(
            names,
            with_names_upto(names, defs, (n - 1) as nat),
            with_names_upto(names, defs, n),
        );
    }
}

proof fn lemma_one_more(names: Seq<Text>, defs: Seq<DefinitionView>, n: nat)
    requires
        0 < n <= defs.len(),
    ensures
        with_names_upto(names, defs, (n - 1) as nat).is_prefix_of(with_names_upto(names, defs, n)),
    decreases defs, n, 0nat,
{
    let before = with_names_upto(names, defs, (n - 1) as nat);
    let none: Seq<BuiltinView> = Seq::empty();
    match defs[n - 1] {
        DefinitionView::ModuleDef(m) => {
            lemma_names_grow(before, m.node.definitions, m.node.definitions.len());
        },
        DefinitionView::StructDef(s) => {
            lemma_member_names(none, none, before, s.node.members, s.node.members.len());
        },
        DefinitionView::MessageDef(m) => {
            lemma_member_names(none, none, before, m.node.members, m.node.members.len());
        },
        _ => {},
    }
}

proof fn lemma_agree_before(
    a: Seq<BuiltinView>,
    b: Seq<BuiltinView>,
    names: Seq<Text>,
    defs: Seq<DefinitionView>,
    n: nat,
)
    requires
        0 < n <= defs.len(),
        agree_on(a, b, with_names_upto(names, defs, n)),
    ensures
        agree_on(a, b, with_names_upto(names, defs, (n - 1) as nat)),
        match defs[n - 1] {
            DefinitionView::TypeDef(t) => agree_on_type(a, b, t.node.base_type),
            DefinitionView::StructDef(s) => agree_on_members(a, b, s.node.members),
            DefinitionView::MessageDef(m) => agree_on_members(a, b, m.node.members),
            _ => true,
        },
{
    let before = with_names_upto(names, defs, (n - 1) as nat);
    lemma_one_more(names, defs, n);
    lemma_agree_on_prefix(a, b, before, with_names_upto(names, defs, n));
    match defs[n - 1] {
        DefinitionView::TypeDef(t) => {
            lemma_one_name(a, b, before, t.node.base_type);
        },
        DefinitionView::StructDef(s) => {
            lemma_member_names(a, b, before, s.node.members, s.node.members.len());
        },
        DefinitionView::MessageDef(m) => {
            lemma_member_names(a, b, before, m.node.members, m.node.members.len());
        },
        _ => {},
    }
}

/// Whether one outcome is the other with other built-in names, and these agree on
/// what was bound.
spec fn twins(
    r: Result<ContextView, FailureView>,
    s: Result<ContextView, FailureView>,
    a: Seq<BuiltinView>,
    b: Seq<BuiltinView>,
) -> bool {
    match r {
        Ok(c) => s == Ok::<ContextView, FailureView>(twin(c, b)) && c.tables.builtins == a
            && agree_on_tables(c.tables, b),
        Err(e) => s == Err::<ContextView, FailureView>(e),
    }
}

proof fn lemma_same_indexed(
    c: ContextView,
    b: Seq<BuiltinView>,
    names: Seq<Text>,
    defs: Seq<DefinitionView>,
    scope: Path,
    key: Option<u16>,
    n: nat,
)
    requires
        n <= defs.len(),
        agree_on_tables(c.tables, b),
        agree_on(c.tables.builtins, b, with_names_upto(names, defs, n)),
    ensures
        twins(
            indexed(c, defs, scope, key, n),
            indexed(twin(c, b), defs, scope, key, n),
            c.tables.builtins,
            b,
        ),
    decreases defs, n,
{
    if n > 0 {
        let a = c.tables.builtins;
        lemma_agree_before(a, b, names, defs, n);
        lemma_same_indexed(c, b, names, defs, scope, key, (n - 1) as nat);
        if let Ok(before) = indexed(c, defs, scope, key, (n - 1) as nat) {
            if let DefinitionView::ModuleDef(m) = defs[n - 1] {
                lemma_same_collected(
                    before,
                    b,
                    with_names_upto(names, defs, (n - 1) as nat),
                    m.node.definitions,
                    scope.push(m.node.name),
                    inner_key(m.annotations, key),
                );
            }
        }
    }
}

proof fn lemma_same_recorded(
    c: ContextView,
    b: Seq<BuiltinView>,
    names: Seq<Text>,
    defs: Seq<DefinitionView>,
    scope: Path,
    key: Option<u16>,
    n: nat,
)
    requires
        n <= defs.len(),
        agree_on_tables(c.tables, b),
        agree_on(c.tables.builtins, b, with_names_upto(names, defs, n)),
    ensures
        twins(
            recorded(c, defs, scope, key, n),
            recorded(twin(c, b), defs, scope, key, n),
            c.tables.builtins,
            b,
        ),
    decreases n,
{
    if n > 0 {
        lemma_agree_before(c.tables.builtins, b, names, defs, n);
        lemma_same_recorded(c, b, names, defs, scope, key, (n - 1) as nat);
        if let Ok(before) = recorded(c, defs, scope, key, (n - 1) as nat) {
            if let DefinitionView::MessageDef(m) = defs[n - 1] {
                lemma_same_message(before.tables, b, scope, m, key);
            }
        }
    }
}

proof fn lemma_same_collected(
    c: ContextView,
    b: Seq<BuiltinView>,
    names: Seq<Text>,
    defs: Seq<DefinitionView>,
    scope: Path,
    key: Option<u16>,
)
    requires
        agree_on_tables(c.tables, b),
        agree_on(c.tables.builtins, b, with_names_upto(names, defs, defs.len())),
    ensures
        twins(
            collected(c, defs, scope, key),
            collected(twin(c, b), defs, scope, key),
            c.tables.builtins,
            b,
        ),
    decreases defs, defs.len() + 1,
{
    lemma_same_indexed(c, b, names, defs, scope, key, defs.len());
    if let Ok(named) = indexed(c, defs, scope, key, defs.len()) {
        lemma_same_recorded(named, b, names, defs, scope, key, defs.len());
    }
}

/// Generating depends on no built-in names but those that the definitions use: two
/// tables that agree on these give the same files, or the same failure.
pub proof fn law_only_used_names_matter(
    defs: Seq<DefinitionView>,
    a: Seq<BuiltinView>,
    b: Seq<BuiltinView>,
)
    requires
        agree_on(a, b, used_names(defs)),
    ensures
        generated(defs, a) == generated(defs, b),
{
    reveal(header_text);
    reveal(source_text);
    let c = nothing_collected(a);
    lemma_same_collected(c, b, Seq::empty(), defs, Seq::empty(), None);
    assert(twin(c, b) == nothing_collected(b));
    if let Ok(r) = collected(c, defs, Seq::empty(), None) {
        assert(files_of(twin(r, b)) == files_of(r));
    }
}

} // verus!
