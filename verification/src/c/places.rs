//! Where the messages and enumerations of a list of definitions come to stand, and which names
//! they see.
use vstd::prelude::*;
use crate::ast::DefinitionView;
use crate::c::builder::{enum_model, message_model};
use crate::c::context::{
    bound, collected, indexed, inner_key, key_around, law_collecting_extends,
    lemma_indexed_extends, lemma_recorded_extends, nothing_collected, recorded, ContextView,
};
use crate::c::model::{FailureView, MessageView};
use crate::c::tables::TablesView;
use crate::common::builtins::BuiltinView;
use crate::concat::Path;
use crate::tree::{
    direct_count, direct_enum_count, found, nested_count, nested_enum_count, Found,
};

verus! {

/// The names that are bound after the first `n` definitions, those in modules among them.
pub open spec fn names_after(
    before: TablesView,
    defs: Seq<DefinitionView>,
    scope: Path,
    n: nat,
) -> TablesView
    decreases defs, n,
{
    if n == 0 || n > defs.len() {
        before
    } else {
        let t = names_after(before, defs, scope, (n - 1) as nat);
        match defs[n - 1] {
            DefinitionView::TypeDef(d) => TablesView {
                typedefs: t.typedefs.push(bound(scope, d.node.name, d.node.base_type)),
                ..t
            },
            DefinitionView::StructDef(d) => TablesView {
                structs: t.structs.push(bound(scope, d.node.name, d.node)),
                ..t
            },
            DefinitionView::EnumDef(d) => TablesView {
                enums: t.enums.push(bound(scope, d.node.name, d.node)),
                ..t
            },
            DefinitionView::ModuleDef(m) => names_after(
                t,
                m.node.definitions,
                scope.push(m.node.name),
                m.node.definitions.len(),
            ),
            _ => t,
        }
    }
}

/// The names that can be used at a place: all of the list of definitions that it stands in, and
/// what comes before the modules around it.
pub open spec fn names_at(
    before: TablesView,
    defs: Seq<DefinitionView>,
    scope: Path,
    steps: Seq<int>,
) -> TablesView
    decreases steps.len(),
{
    if steps.len() < 2 || !(0 <= steps[0] < defs.len()) {
        names_after(before, defs, scope, defs.len())
    } else {
        match defs[steps[0]] {
            DefinitionView::ModuleDef(m) => names_at(
                names_after(before, defs, scope, steps[0] as nat),
                m.node.definitions,
                scope.push(m.node.name),
                steps.drop_first(),
            ),
            _ => before,
        }
    }
}

/// How many messages come before that at a place: modules come before what stands beside them.
pub open spec fn message_place(defs: Seq<DefinitionView>, steps: Seq<int>) -> nat
    decreases steps.len(),
{
    if steps.len() == 0 || !(0 <= steps[0] < defs.len()) {
        0
    } else if steps.len() == 1 {
        nested_count(defs, defs.len()) + direct_count(defs, steps[0] as nat)
    } else {
        match defs[steps[0]] {
            DefinitionView::ModuleDef(m) => nested_count(defs, steps[0] as nat) + message_place(
                m.node.definitions,
                steps.drop_first(),
            ),
            _ => 0,
        }
    }
}

/// How many enumerations come before that at a place: modules come before what stands beside
/// them.
pub open spec fn enum_place(defs: Seq<DefinitionView>, steps: Seq<int>) -> nat
    decreases steps.len(),
{
    if steps.len() == 0 || !(0 <= steps[0] < defs.len()) {
        0
    } else if steps.len() == 1 {
        nested_enum_count(defs, defs.len()) + direct_enum_count(defs, steps[0] as nat)
    } else {
        match defs[steps[0]] {
            DefinitionView::ModuleDef(m) => nested_enum_count(defs, steps[0] as nat) + enum_place(
                m.node.definitions,
                steps.drop_first(),
            ),
            _ => 0,
        }
    }
}

/// Whether a context holds the model of what is found, if that is a message or an enumeration, at
/// a place among its messages or enumerations.
pub open spec fn stands_at(
    c: ContextView,
    f: Found,
    names: TablesView,
    key: Option<u16>,
    message: nat,
    enumeration: nat,
) -> bool {
    match f.def {
        DefinitionView::MessageDef(m) => message < c.messages.len() && message_model(
            names,
            f.path,
            m,
            key,
        ) == Ok::<MessageView, FailureView>(c.messages[message as int]),
        DefinitionView::EnumDef(e) => enumeration < c.enum_models.len()
            && c.enum_models[enumeration as int] == enum_model(e),
        _ => true,
    }
}

proof fn lemma_recorded_names(
    c: ContextView,
    defs: Seq<DefinitionView>,
    scope: Path,
    key: Option<u16>,
    n: nat,
)
    ensures
        recorded(c, defs, scope, key, n) matches Ok(r) ==> r.tables == c.tables,
    decreases n,
{
    if 0 < n <= defs.len() {
        lemma_recorded_names(c, defs, scope, key, (n - 1) as nat);
    }
}

proof fn lemma_indexed_names(
    c: ContextView,
    defs: Seq<DefinitionView>,
    scope: Path,
    key: Option<u16>,
    n: nat,
)
    ensures
        indexed(c, defs, scope, key, n) matches Ok(r) ==> r.tables == names_after(
            c.tables,
            defs,
            scope,
            n,
        ),
    decreases defs, n,
{
    if 0 < n <= defs.len() {
        lemma_indexed_names(c, defs, scope, key, (n - 1) as nat);
        if let Ok(before) = indexed(c, defs, scope, key, (n - 1) as nat) {
            if let DefinitionView::ModuleDef(m) = defs[n - 1] {
                lemma_collected_names(
                    before,
                    m.node.definitions,
                    scope.push(m.node.name),
                    inner_key(m.annotations, key),
                );
            }
        }
    }
}

proof fn lemma_collected_names(
    c: ContextView,
    defs: Seq<DefinitionView>,
    scope: Path,
    key: Option<u16>,
)
    ensures
        collected(c, defs, scope, key) matches Ok(r) ==> r.tables == names_after(
            c.tables,
            defs,
            scope,
            defs.len(),
        ),
    decreases defs, defs.len() + 1,
{
    lemma_indexed_names(c, defs, scope, key, defs.len());
    if let Ok(named) = indexed(c, defs, scope, key, defs.len()) {
        lemma_recorded_names(named, defs, scope, key, defs.len());
    }
}

proof fn lemma_recorded_place(
    c: ContextView,
    defs: Seq<DefinitionView>,
    scope: Path,
    key: Option<u16>,
    n: nat,
    i: int,
)
    requires
        n <= defs.len(),
        0 <= i < n,
        recorded(c, defs, scope, key, n) is Ok,
    ensures
        stands_at(
            recorded(c, defs, scope, key, n)->Ok_0,
            Found { path: scope, def: defs[i] },
            c.tables,
            key,
            c.messages.len() + direct_count(defs, i as nat),
            c.enum_models.len() + direct_enum_count(defs, i as nat),
        ),
    decreases n,
{
    let before = recorded(c, defs, scope, key, (n - 1) as nat)->Ok_0;
    lemma_recorded_names(c, defs, scope, key, (n - 1) as nat);
    lemma_recorded_extends(c, defs, scope, key, (n - 1) as nat);
    if i < n - 1 {
        lemma_recorded_place(c, defs, scope, key, (n - 1) as nat, i);
    }
}

proof fn lemma_stays_at(
    before: ContextView,
    after: ContextView,
    f: Found,
    names: TablesView,
    key: Option<u16>,
    message: nat,
    enumeration: nat,
)
    requires
        before.messages.is_prefix_of(after.messages),
        before.enum_models.is_prefix_of(after.enum_models),
        stands_at(before, f, names, key, message, enumeration),
    ensures
        stands_at(after, f, names, key, message, enumeration),
{
    let messages = after.messages.subrange(0, before.messages.len() as int);
    let enums = after.enum_models.subrange(0, before.enum_models.len() as int);
    if f.def is MessageDef {
        assert(messages[message as int] == after.messages[message as int]);
    }
    if f.def is EnumDef {
        assert(enums[enumeration as int] == after.enum_models[enumeration as int]);
    }
}

proof fn lemma_indexed_place(
    c: ContextView,
    defs: Seq<DefinitionView>,
    scope: Path,
    key: Option<u16>,
    n: nat,
    steps: Seq<int>,
)
    requires
        n <= defs.len(),
        indexed(c, defs, scope, key, n) is Ok,
        found(defs, scope, steps) is Some,
        steps.len() > 1,
        steps[0] < n,
    ensures
        stands_at(
            indexed(c, defs, scope, key, n)->Ok_0,
            found(defs, scope, steps).unwrap(),
            names_at(c.tables, defs, scope, steps),
            key_around(key, defs, steps),
            c.messages.len() + message_place(defs, steps),
            c.enum_models.len() + enum_place(defs, steps),
        ),
    decreases defs, n,
{
    let before = indexed(c, defs, scope, key, (n - 1) as nat)->Ok_0;
    let r = indexed(c, defs, scope, key, n)->Ok_0;
    let f = found(defs, scope, steps).unwrap();
    lemma_indexed_extends(c, defs, scope, key, (n - 1) as nat);
    lemma_indexed_names(c, defs, scope, key, (n - 1) as nat);
    if let DefinitionView::ModuleDef(m) = defs[n - 1] {
        law_collecting_extends(
            before,
            m.node.definitions,
            scope.push(m.node.name),
            inner_key(m.annotations, key),
        );
    }
    if steps[0] < n - 1 {
        lemma_indexed_place(c, defs, scope, key, (n - 1) as nat, steps);
        lemma_stays_at(
            before,
            r,
            f,
            names_at(c.tables, defs, scope, steps),
            key_around(key, defs, steps),
            c.messages.len() + message_place(defs, steps),
            c.enum_models.len() + enum_place(defs, steps),
        );
    } else {
        let m = defs[n - 1]->ModuleDef_0;
        let inside = m.node.definitions;
        let rest = steps.drop_first();
        assert(found(inside, scope.push(m.node.name), rest) == Some(f));
        lemma_collected_place(
            before,
            inside,
            scope.push(m.node.name),
            inner_key(m.annotations, key),
            rest,
        );
    }
}

proof fn lemma_collected_place(
    c: ContextView,
    defs: Seq<DefinitionView>,
    scope: Path,
    key: Option<u16>,
    steps: Seq<int>,
)
    requires
        collected(c, defs, scope, key) is Ok,
        found(defs, scope, steps) is Some,
    ensures
        stands_at(
            collected(c, defs, scope, key)->Ok_0,
            found(defs, scope, steps).unwrap(),
            names_at(c.tables, defs, scope, steps),
            key_around(key, defs, steps),
            c.messages.len() + message_place(defs, steps),
            c.enum_models.len() + enum_place(defs, steps),
        ),
    decreases defs, defs.len() + 1,
{
    let named = indexed(c, defs, scope, key, defs.len())->Ok_0;
    let r = collected(c, defs, scope, key)->Ok_0;
    let f = found(defs, scope, steps).unwrap();
    lemma_indexed_names(c, defs, scope, key, defs.len());
    lemma_indexed_extends(c, defs, scope, key, defs.len());
    lemma_recorded_extends(named, defs, scope, key, defs.len());
    if steps.len() > 1 {
        lemma_indexed_place(c, defs, scope, key, defs.len(), steps);
        lemma_stays_at(
            named,
            r,
            f,
            names_at(c.tables, defs, scope, steps),
            key_around(key, defs, steps),
            c.messages.len() + message_place(defs, steps),
            c.enum_models.len() + enum_place(defs, steps),
        );
    } else {
        lemma_recorded_place(named, defs, scope, key, defs.len(), steps[0]);
    }
}

/// Messages and enumerations are collected in the order in which they are defined, but for
/// modules, which come before what stands beside them. A message is built from the names of the
/// list that it stands in, wherever in that list they are defined, and from those that are
/// defined before the modules around it.
pub proof fn law_everything_is_collected_in_its_place(
    builtins: Seq<BuiltinView>,
    defs: Seq<DefinitionView>,
    steps: Seq<int>,
)
    ensures
        ({
            let start = nothing_collected(builtins);
            collected(start, defs, Seq::empty(), None) matches Ok(r) ==> {
                &&& r.tables == names_after(start.tables, defs, Seq::empty(), defs.len())
                &&& found(defs, Seq::empty(), steps) matches Some(f) ==> stands_at(
                    r,
                    f,
                    names_at(start.tables, defs, Seq::empty(), steps),
                    key_around(None, defs, steps),
                    message_place(defs, steps),
                    enum_place(defs, steps),
                )
            }
        }),
{
    let start = nothing_collected(builtins);
    lemma_collected_names(start, defs, Seq::empty(), None);
    if collected(start, defs, Seq::empty(), None) is Ok && found(
        defs,
        Seq::empty(),
        steps,
    ) is Some {
        lemma_collected_place(start, defs, Seq::empty(), None, steps);
    }
}

/// Whether the message at a place is refused, with a given failure.
pub open spec fn is_refused(
    before: TablesView,
    defs: Seq<DefinitionView>,
    scope: Path,
    key: Option<u16>,
    steps: Seq<int>,
    e: FailureView,
) -> bool {
    found(defs, scope, steps) matches Some(f) && f.def matches DefinitionView::MessageDef(m)
        && message_model(
        names_at(before, defs, scope, steps),
        f.path,
        m,
        key_around(key, defs, steps),
    ) == Err::<MessageView, FailureView>(e)
}

proof fn lemma_recorded_failure_at(
    c: ContextView,
    defs: Seq<DefinitionView>,
    scope: Path,
    key: Option<u16>,
    n: nat,
    e: FailureView,
) -> (i: int)
    requires
        n <= defs.len(),
        recorded(c, defs, scope, key, n) == Err::<ContextView, FailureView>(e),
    ensures
        0 <= i < n,
        defs[i] matches DefinitionView::MessageDef(m) && message_model(c.tables, scope, m, key)
            == Err::<MessageView, FailureView>(e),
    decreases n,
{
    lemma_recorded_names(c, defs, scope, key, (n - 1) as nat);
    if recorded(c, defs, scope, key, (n - 1) as nat) is Err {
        lemma_recorded_failure_at(c, defs, scope, key, (n - 1) as nat, e)
    } else {
        n - 1
    }
}

proof fn lemma_indexed_failure_at(
    c: ContextView,
    defs: Seq<DefinitionView>,
    scope: Path,
    key: Option<u16>,
    n: nat,
    e: FailureView,
) -> (steps: Seq<int>)
    requires
        n <= defs.len(),
        indexed(c, defs, scope, key, n) == Err::<ContextView, FailureView>(e),
    ensures
        is_refused(c.tables, defs, scope, key, steps, e),
    decreases defs, n,
{
    lemma_indexed_names(c, defs, scope, key, (n - 1) as nat);
    if indexed(c, defs, scope, key, (n - 1) as nat) is Err {
        lemma_indexed_failure_at(c, defs, scope, key, (n - 1) as nat, e)
    } else {
        let before = indexed(c, defs, scope, key, (n - 1) as nat)->Ok_0;
        let m = defs[n - 1]->ModuleDef_0;
        let inner = scope.push(m.node.name);
        let rest = lemma_collected_failure_at(
            before,
            m.node.definitions,
            inner,
            inner_key(m.annotations, key),
            e,
        );
        let steps = seq![n - 1] + rest;
        assert(steps.drop_first() =~= rest);
        assert(found(defs, scope, steps) == found(m.node.definitions, inner, rest));
        steps
    }
}

proof fn lemma_collected_failure_at(
    c: ContextView,
    defs: Seq<DefinitionView>,
    scope: Path,
    key: Option<u16>,
    e: FailureView,
) -> (steps: Seq<int>)
    requires
        collected(c, defs, scope, key) == Err::<ContextView, FailureView>(e),
    ensures
        is_refused(c.tables, defs, scope, key, steps, e),
    decreases defs, defs.len() + 1,
{
    lemma_indexed_names(c, defs, scope, key, defs.len());
    if indexed(c, defs, scope, key, defs.len()) is Err {
        lemma_indexed_failure_at(c, defs, scope, key, defs.len(), e)
    } else {
        let named = indexed(c, defs, scope, key, defs.len())->Ok_0;
        let i = lemma_recorded_failure_at(named, defs, scope, key, defs.len(), e);
        seq![i]
    }
}

/// Definitions are collected exactly where no message among them, at any depth, is refused, and
/// otherwise refused with the failure of one that is.
pub proof fn law_collecting_fails_where_a_message_is_refused(
    builtins: Seq<BuiltinView>,
    defs: Seq<DefinitionView>,
)
    ensures
        ({
            let start = nothing_collected(builtins);
            match collected(start, defs, Seq::empty(), None) {
                Ok(_) => forall|steps: Seq<int>, e: FailureView|
                    !#[trigger] is_refused(start.tables, defs, Seq::empty(), None, steps, e),
                Err(e) => exists|steps: Seq<int>| #[trigger]
                    is_refused(start.tables, defs, Seq::empty(), None, steps, e),
            }
        }),
{
    let start = nothing_collected(builtins);
    match collected(start, defs, Seq::empty(), None) {
        Ok(_) => {
            assert forall|steps: Seq<int>, e: FailureView|
                !#[trigger] is_refused(start.tables, defs, Seq::empty(), None, steps, e) by {
                if found(defs, Seq::empty(), steps) is Some {
                    lemma_collected_place(start, defs, Seq::empty(), None, steps);
                }
            }
        },
        Err(e) => {
            let steps = lemma_collected_failure_at(start, defs, Seq::empty(), None, e);
        },
    }
}

} // verus!
