//! Gathering what the emitter needs from a list of definitions.
use vstd::prelude::*;
use crate::annotations::{annotation_u16, string_value, u16_value};
use crate::ast::{
    definition_view, definitions_view, Annotation, AnnotationView, CommentedView, Definition,
    DefinitionView, EnumDefView, MessageDefView, TypeView,
};
use crate::c::model::{EnumModel, EnumView, Failure, FailureView, MessageModel, MessageView};
use crate::c::builder::{
    build_enum, build_message, enum_model, is_model_failure, law_fields_stand_for_members,
    law_message_failures, law_messages_are_laid_out, law_messages_keep_what_they_name,
    message_model,
};
use crate::c::tables::{Binding, BindingView, Tables, TablesView};
use crate::common::builtins::{Builtin, BuiltinView};
use crate::concat::{lemma_prefix_of_prefix, views, Path, Text};
use crate::text::{child_path, copy_path};
use crate::tree::{
    direct_count, direct_enum_count, enum_count, found, message_count, nested_count,
    nested_enum_count, Found,
};

verus! {

broadcast use crate::concat::group_views;

/// The names that are bound, and the messages and enumerations to emit.
pub struct Context<'a> {
    pub tables: Tables<'a>,
    pub messages: Vec<MessageModel>,
    pub enum_models: Vec<EnumModel>,
}

/// What contracts see of a [`Context`].
pub struct ContextView {
    pub tables: TablesView,
    pub messages: Seq<MessageView>,
    pub enum_models: Seq<EnumView>,
}

impl<'a> View for Context<'a> {
    type V = ContextView;

    open spec fn view(&self) -> ContextView {
        ContextView {
            tables: self.tables@,
            messages: views(self.messages@),
            enum_models: views(self.enum_models@),
        }
    }
}

/// A context in which only built-in names are bound.
pub open spec fn nothing_collected(builtins: Seq<BuiltinView>) -> ContextView {
    ContextView {
        tables: TablesView {
            builtins,
            typedefs: Seq::empty(),
            structs: Seq::empty(),
            enums: Seq::empty(),
        },
        messages: Seq::empty(),
        enum_models: Seq::empty(),
    }
}

/// What `name` in `scope` binds.
pub open spec fn bound<N>(scope: Path, name: Text, node: N) -> BindingView<N> {
    BindingView { path: scope.push(name), scope, node }
}

/// The module key in force inside a module: its own, else the one around it.
pub open spec fn inner_key(annotations: Seq<AnnotationView>, around: Option<u16>) -> Option<u16> {
    match u16_value(annotations, "module_key"@) {
        Some(key) => Some(key),
        None => around,
    }
}

/// The context after the first `n` definitions have bound their names. A module
/// is collected whole when it is met, with what was bound by then.
pub open spec fn indexed(
    c: ContextView,
    defs: Seq<DefinitionView>,
    scope: Path,
    key: Option<u16>,
    n: nat,
) -> Result<ContextView, FailureView>
    decreases defs, n,
{
    if n == 0 || n > defs.len() {
        Ok(c)
    } else {
        match indexed(c, defs, scope, key, (n - 1) as nat) {
            Err(e) => Err(e),
            Ok(before) => match defs[n - 1] {
                DefinitionView::TypeDef(t) => Ok(
                    ContextView {
                        tables: TablesView {
                            typedefs: before.tables.typedefs.push(
                                bound(scope, t.node.name, t.node.base_type),
                            ),
                            ..before.tables
                        },
                        ..before
                    },
                ),
                DefinitionView::StructDef(s) => Ok(
                    ContextView {
                        tables: TablesView {
                            structs: before.tables.structs.push(bound(scope, s.node.name, s.node)),
                            ..before.tables
                        },
                        ..before
                    },
                ),
                DefinitionView::EnumDef(e) => Ok(
                    ContextView {
                        tables: TablesView {
                            enums: before.tables.enums.push(bound(scope, e.node.name, e.node)),
                            ..before.tables
                        },
                        ..before
                    },
                ),
                DefinitionView::ModuleDef(m) => collected(
                    before,
                    m.node.definitions,
                    scope.push(m.node.name),
                    inner_key(m.annotations, key),
                ),
                _ => Ok(before),
            },
        }
    }
}

/// The context after the first `n` definitions have been recorded: enumerations
/// and messages in order.
pub open spec fn recorded(
    c: ContextView,
    defs: Seq<DefinitionView>,
    scope: Path,
    key: Option<u16>,
    n: nat,
) -> Result<ContextView, FailureView>
    decreases n,
{
    if n == 0 || n > defs.len() {
        Ok(c)
    } else {
        match recorded(c, defs, scope, key, (n - 1) as nat) {
            Err(e) => Err(e),
            Ok(before) => match defs[n - 1] {
                DefinitionView::EnumDef(e) => Ok(
                    ContextView { enum_models: before.enum_models.push(enum_model(e)), ..before },
                ),
                DefinitionView::MessageDef(m) => match message_model(
                    before.tables,
                    scope,
                    m,
                    key,
                ) {
                    Ok(model) => Ok(ContextView { messages: before.messages.push(model), ..before }),
                    Err(e) => Err(e),
                },
                _ => Ok(before),
            },
        }
    }
}

/// The context after a list of definitions: all names first, then enumerations
/// and messages.
pub open spec fn collected(
    c: ContextView,
    defs: Seq<DefinitionView>,
    scope: Path,
    key: Option<u16>,
) -> Result<ContextView, FailureView>
    decreases defs, defs.len() + 1,
{
    match indexed(c, defs, scope, key, defs.len()) {
        Err(e) => Err(e),
        Ok(with_names) => recorded(with_names, defs, scope, key, defs.len()),
    }
}

/// What a context holds once the first `n` definitions have bound their names, or
/// once a module among them has been refused.
pub open spec fn left_indexed(
    c: ContextView,
    defs: Seq<DefinitionView>,
    scope: Path,
    key: Option<u16>,
    n: nat,
) -> ContextView
    decreases defs, n,
{
    if n == 0 || n > defs.len() {
        c
    } else {
        match (indexed(c, defs, scope, key, (n - 1) as nat), defs[n - 1]) {
            (Err(_), _) => left_indexed(c, defs, scope, key, (n - 1) as nat),
            (Ok(before), DefinitionView::ModuleDef(m)) => left_collected(
                before,
                m.node.definitions,
                scope.push(m.node.name),
                inner_key(m.annotations, key),
            ),
            (Ok(before), _) => match indexed(c, defs, scope, key, n) {
                Ok(after) => after,
                Err(_) => before,
            },
        }
    }
}

/// What a context holds once the first `n` definitions have been recorded, or once
/// the first of them that has no model has been refused.
pub open spec fn left_recorded(
    c: ContextView,
    defs: Seq<DefinitionView>,
    scope: Path,
    key: Option<u16>,
    n: nat,
) -> ContextView
    decreases n,
{
    if n == 0 || n > defs.len() {
        c
    } else {
        match recorded(c, defs, scope, key, n) {
            Ok(after) => after,
            Err(_) => left_recorded(c, defs, scope, key, (n - 1) as nat),
        }
    }
}

/// What a context holds after a list of definitions, collected or refused.
pub open spec fn left_collected(
    c: ContextView,
    defs: Seq<DefinitionView>,
    scope: Path,
    key: Option<u16>,
) -> ContextView
    decreases defs, defs.len() + 1,
{
    match indexed(c, defs, scope, key, defs.len()) {
        Err(_) => left_indexed(c, defs, scope, key, defs.len()),
        Ok(with_names) => left_recorded(with_names, defs, scope, key, defs.len()),
    }
}

proof fn lemma_indexed_err(
    c: ContextView,
    defs: Seq<DefinitionView>,
    scope: Path,
    key: Option<u16>,
    n: nat,
    m: nat,
)
    requires
        n <= m <= defs.len(),
        indexed(c, defs, scope, key, n) is Err,
    ensures
        indexed(c, defs, scope, key, m) == indexed(c, defs, scope, key, n),
        left_indexed(c, defs, scope, key, m) == left_indexed(c, defs, scope, key, n),
    decreases m,
{
    if n < m {
        lemma_indexed_err(c, defs, scope, key, n, (m - 1) as nat);
    }
}

proof fn lemma_recorded_err(
    c: ContextView,
    defs: Seq<DefinitionView>,
    scope: Path,
    key: Option<u16>,
    n: nat,
    m: nat,
)
    requires
        n <= m <= defs.len(),
        recorded(c, defs, scope, key, n) is Err,
    ensures
        recorded(c, defs, scope, key, m) == recorded(c, defs, scope, key, n),
        left_recorded(c, defs, scope, key, m) == left_recorded(c, defs, scope, key, n),
    decreases m,
{
    if n < m {
        lemma_recorded_err(c, defs, scope, key, n, (m - 1) as nat);
    }
}

fn inner_module_key(annotations: &Vec<Annotation>, around: Option<u16>) -> (r: Option<u16>)
    ensures
        r == inner_key(views(annotations@), around),
{
    match annotation_u16(annotations.as_slice(), "module_key") {
        Some(key) => Some(key),
        None => around,
    }
}

impl<'a> Context<'a> {
    pub fn new(builtins: &'a Vec<Builtin>) -> (r: Self)
        ensures
            r@ == nothing_collected(views(builtins@)),
    {
        Context { tables: Tables::new(builtins), messages: Vec::new(), enum_models: Vec::new() }
    }

    /// Builds the enumerations and messages of the definitions, in order.
    fn record(&mut self, defs: &[Definition], scope: &Vec<String>, key: Option<u16>) -> (r:
        Result<(), Failure>)
        ensures
            match r {
                Ok(_) => recorded(
                    old(self)@,
                    definitions_view(defs@),
                    views(scope@),
                    key,
                    defs@.len(),
                ) == Ok::<ContextView, FailureView>(final(self)@),
                Err(e) => recorded(
                    old(self)@,
                    definitions_view(defs@),
                    views(scope@),
                    key,
                    defs@.len(),
                ) == Err::<ContextView, FailureView>(e@),
            },
            final(self)@ == left_recorded(
                old(self)@,
                definitions_view(defs@),
                views(scope@),
                key,
                defs@.len(),
            ),
    {
        let ghost start = self@;
        let ghost all = definitions_view(defs@);
        let ghost at = views(scope@);
        for i in 0..defs.len()
            invariant
                start == old(self)@,
                all == definitions_view(defs@),
                at == views(scope@),
                recorded(start, all, at, key, i as nat) == Ok::<ContextView, FailureView>(self@),
                left_recorded(start, all, at, key, i as nat) == self@,
        {
            assert(all[i as int] == definition_view(defs@[i as int]));
            match &defs[i] {
                Definition::EnumDef(e) => {
                    self.enum_models.push(build_enum(e));
                },
                Definition::MessageDef(m) => {
                    match build_message(&self.tables, scope.as_slice(), m, key) {
                        Ok(model) => {
                            self.messages.push(model);
                        },
                        Err(e) => {
                            proof {
                                lemma_recorded_err(start, all, at, key, (i + 1) as nat, all.len());
                            }
                            return Err(e);
                        },
                    }
                },
                _ => {},
            }
        }
        Ok(())
    }

    /// Binds the names of the definitions and gathers enumerations and messages.
    pub fn collect(
        &mut self,
        defs: &'a [Definition],
        scope: &Vec<String>,
        key: Option<u16>,
    ) -> (r: Result<(), Failure>)
        ensures
            match r {
                Ok(_) => collected(
                    old(self)@,
                    definitions_view(defs@),
                    views(scope@),
                    key,
                ) == Ok::<ContextView, FailureView>(final(self)@),
                Err(e) => collected(
                    old(self)@,
                    definitions_view(defs@),
                    views(scope@),
                    key,
                ) == Err::<ContextView, FailureView>(e@),
            },
            final(self)@ == left_collected(
                old(self)@,
                definitions_view(defs@),
                views(scope@),
                key,
            ),
            old(self)@.messages.is_prefix_of(final(self)@.messages),
            old(self)@.enum_models.is_prefix_of(final(self)@.enum_models),
        decreases defs@,
    {
        let ghost start = self@;
        let ghost all = definitions_view(defs@);
        let ghost at = views(scope@);
        proof {
            law_collecting_keeps_models(start, all, at, key);
        }
        for i in 0..defs.len()
            invariant
                start == old(self)@,
                all == definitions_view(defs@),
                at == views(scope@),
                start.messages.is_prefix_of(left_collected(start, all, at, key).messages),
                start.enum_models.is_prefix_of(left_collected(start, all, at, key).enum_models),
                indexed(start, all, at, key, i as nat) == Ok::<ContextView, FailureView>(self@),
                left_indexed(start, all, at, key, i as nat) == self@,
        {
            assert(all[i as int] == definition_view(defs@[i as int]));
            let ghost before = self@;
            let def: &'a Definition = &defs[i];
            match def {
                Definition::TypeDef(t) => {
                    self.tables.typedefs.push(
                        Binding {
                            path: child_path(scope.as_slice(), t.node.name.as_str()),
                            scope: copy_path(scope.as_slice()),
                            node: &t.node.base_type,
                        },
                    );
                },
                Definition::StructDef(s) => {
                    self.tables.structs.push(
                        Binding {
                            path: child_path(scope.as_slice(), s.node.name.as_str()),
                            scope: copy_path(scope.as_slice()),
                            node: &s.node,
                        },
                    );
                },
                Definition::EnumDef(e) => {
                    self.tables.enums.push(
                        Binding {
                            path: child_path(scope.as_slice(), e.node.name.as_str()),
                            scope: copy_path(scope.as_slice()),
                            node: &e.node,
                        },
                    );
                },
                Definition::ModuleDef(m) => {
                    let inner = child_path(scope.as_slice(), m.node.name.as_str());
                    let inner_mk: Option<u16> = inner_module_key(&m.annotations, key);
                    match self.collect(m.node.definitions.as_slice(), &inner, inner_mk) {
                        Ok(_) => {},
                        Err(e) => {
                            proof {
                                lemma_indexed_err(start, all, at, key, (i + 1) as nat, all.len());
                            }
                            return Err(e);
                        },
                    }
                },
                _ => {},
            }
        }
        self.record(defs, scope, key)
    }
}

/// Whether `after` holds what `before` held, in its place, and `messages` and
/// `enums` more models.
pub open spec fn extended(
    before: ContextView,
    after: ContextView,
    messages: nat,
    enums: nat,
) -> bool {
    &&& before.messages.is_prefix_of(after.messages)
    &&& before.enum_models.is_prefix_of(after.enum_models)
    &&& after.messages.len() == before.messages.len() + messages
    &&& after.enum_models.len() == before.enum_models.len() + enums
}

proof fn lemma_extended_twice(
    a: ContextView,
    b: ContextView,
    c: ContextView,
    messages: nat,
    enums: nat,
    more_messages: nat,
    more_enums: nat,
)
    requires
        extended(a, b, messages, enums),
        extended(b, c, more_messages, more_enums),
    ensures
        extended(a, c, messages + more_messages, enums + more_enums),
{
    lemma_prefix_of_prefix(a.messages, b.messages, c.messages);
    lemma_prefix_of_prefix(a.enum_models, b.enum_models, c.enum_models);
}

pub proof fn lemma_indexed_extends(
    c: ContextView,
    defs: Seq<DefinitionView>,
    scope: Path,
    key: Option<u16>,
    n: nat,
)
    ensures
        indexed(c, defs, scope, key, n) matches Ok(r) ==> extended(
            c,
            r,
            nested_count(defs, n),
            nested_enum_count(defs, n),
        ),
    decreases defs, n,
{
    if 0 < n <= defs.len() {
        lemma_indexed_extends(c, defs, scope, key, (n - 1) as nat);
        if let Ok(before) = indexed(c, defs, scope, key, (n - 1) as nat) {
            if let DefinitionView::ModuleDef(m) = defs[n - 1] {
                let inner = scope.push(m.node.name);
                let inner_key = inner_key(m.annotations, key);
                law_collecting_extends(before, m.node.definitions, inner, inner_key);
                if let Ok(r) = collected(before, m.node.definitions, inner, inner_key) {
                    lemma_extended_twice(
                        c,
                        before,
                        r,
                        nested_count(defs, (n - 1) as nat),
                        nested_enum_count(defs, (n - 1) as nat),
                        message_count(m.node.definitions),
                        enum_count(m.node.definitions),
                    );
                }
            }
        }
    }
}

pub proof fn lemma_recorded_extends(
    c: ContextView,
    defs: Seq<DefinitionView>,
    scope: Path,
    key: Option<u16>,
    n: nat,
)
    ensures
        recorded(c, defs, scope, key, n) matches Ok(r) ==> extended(
            c,
            r,
            direct_count(defs, n),
            direct_enum_count(defs, n),
        ),
    decreases n,
{
    if 0 < n <= defs.len() {
        lemma_recorded_extends(c, defs, scope, key, (n - 1) as nat);
    }
}

/// Collecting leaves the models that are there where they stand, and adds one for
/// every message and one for every enumeration among the definitions, at any
/// depth.
pub proof fn law_collecting_extends(
    c: ContextView,
    defs: Seq<DefinitionView>,
    scope: Path,
    key: Option<u16>,
)
    ensures
        collected(c, defs, scope, key) matches Ok(r) ==> extended(
            c,
            r,
            message_count(defs),
            enum_count(defs),
        ),
    decreases defs, defs.len() + 1,
{
    lemma_indexed_extends(c, defs, scope, key, defs.len());
    if let Ok(named) = indexed(c, defs, scope, key, defs.len()) {
        lemma_recorded_extends(named, defs, scope, key, defs.len());
        if let Ok(r) = recorded(named, defs, scope, key, defs.len()) {
            lemma_extended_twice(
                c,
                named,
                r,
                nested_count(defs, defs.len()),
                nested_enum_count(defs, defs.len()),
                direct_count(defs, defs.len()),
                direct_enum_count(defs, defs.len()),
            );
        }
    }
}

proof fn lemma_indexed_keeps(
    c: ContextView,
    defs: Seq<DefinitionView>,
    scope: Path,
    key: Option<u16>,
    n: nat,
)
    ensures
        c.messages.is_prefix_of(left_indexed(c, defs, scope, key, n).messages),
        c.enum_models.is_prefix_of(left_indexed(c, defs, scope, key, n).enum_models),
        indexed(c, defs, scope, key, n) matches Ok(r) ==> r == left_indexed(c, defs, scope, key, n),
    decreases defs, n,
{
    if 0 < n <= defs.len() {
        lemma_indexed_keeps(c, defs, scope, key, (n - 1) as nat);
        if let Ok(before) = indexed(c, defs, scope, key, (n - 1) as nat) {
            if let DefinitionView::ModuleDef(m) = defs[n - 1] {
                law_collecting_keeps_models(
                    before,
                    m.node.definitions,
                    scope.push(m.node.name),
                    inner_key(m.annotations, key),
                );
            }
            let after = left_indexed(c, defs, scope, key, n);
            lemma_prefix_of_prefix(c.messages, before.messages, after.messages);
            lemma_prefix_of_prefix(c.enum_models, before.enum_models, after.enum_models);
        }
    }
}

proof fn lemma_recorded_keeps(
    c: ContextView,
    defs: Seq<DefinitionView>,
    scope: Path,
    key: Option<u16>,
    n: nat,
)
    ensures
        c.messages.is_prefix_of(left_recorded(c, defs, scope, key, n).messages),
        c.enum_models.is_prefix_of(left_recorded(c, defs, scope, key, n).enum_models),
        recorded(c, defs, scope, key, n) matches Ok(r) ==> r == left_recorded(
            c,
            defs,
            scope,
            key,
            n,
        ),
    decreases n,
{
    if 0 < n <= defs.len() {
        lemma_recorded_keeps(c, defs, scope, key, (n - 1) as nat);
        lemma_recorded_extends(c, defs, scope, key, n);
    }
}

/// Collecting leaves the models that are there where they stand, whether it
/// succeeds or not; where it succeeds, it leaves what was collected.
pub proof fn law_collecting_keeps_models(
    c: ContextView,
    defs: Seq<DefinitionView>,
    scope: Path,
    key: Option<u16>,
)
    ensures
        c.messages.is_prefix_of(left_collected(c, defs, scope, key).messages),
        c.enum_models.is_prefix_of(left_collected(c, defs, scope, key).enum_models),
        collected(c, defs, scope, key) matches Ok(r) ==> r == left_collected(c, defs, scope, key),
    decreases defs, defs.len() + 1,
{
    lemma_indexed_keeps(c, defs, scope, key, defs.len());
    if let Ok(named) = indexed(c, defs, scope, key, defs.len()) {
        lemma_recorded_keeps(named, defs, scope, key, defs.len());
        let after = left_collected(c, defs, scope, key);
        lemma_prefix_of_prefix(c.messages, named.messages, after.messages);
        lemma_prefix_of_prefix(c.enum_models, named.enum_models, after.enum_models);
    }
}

proof fn lemma_indexed_failure(
    c: ContextView,
    defs: Seq<DefinitionView>,
    scope: Path,
    key: Option<u16>,
    n: nat,
)
    ensures
        indexed(c, defs, scope, key, n) matches Err(e) ==> is_model_failure(e),
    decreases defs, n,
{
    if 0 < n <= defs.len() {
        lemma_indexed_failure(c, defs, scope, key, (n - 1) as nat);
        if let Ok(before) = indexed(c, defs, scope, key, (n - 1) as nat) {
            if let DefinitionView::ModuleDef(m) = defs[n - 1] {
                law_collecting_failures(
                    before,
                    m.node.definitions,
                    scope.push(m.node.name),
                    inner_key(m.annotations, key),
                );
            }
        }
    }
}

proof fn lemma_recorded_failure(
    c: ContextView,
    defs: Seq<DefinitionView>,
    scope: Path,
    key: Option<u16>,
    n: nat,
)
    ensures
        recorded(c, defs, scope, key, n) matches Err(e) ==> is_model_failure(e),
    decreases n,
{
    if 0 < n <= defs.len() {
        lemma_recorded_failure(c, defs, scope, key, (n - 1) as nat);
        if let Ok(before) = recorded(c, defs, scope, key, (n - 1) as nat) {
            if let DefinitionView::MessageDef(m) = defs[n - 1] {
                law_message_failures(before.tables, scope, m, key);
            }
        }
    }
}

/// Collecting fails only for want of a topic, a supported type or a layout.
pub proof fn law_collecting_failures(
    c: ContextView,
    defs: Seq<DefinitionView>,
    scope: Path,
    key: Option<u16>,
)
    ensures
        collected(c, defs, scope, key) matches Err(e) ==> is_model_failure(e),
    decreases defs, defs.len() + 1,
{
    lemma_indexed_failure(c, defs, scope, key, defs.len());
    if let Ok(named) = indexed(c, defs, scope, key, defs.len()) {
        lemma_recorded_failure(named, defs, scope, key, defs.len());
    }
}

/// The key of the module around a place: that of the innermost module around it that names
/// one, and `outer` where none does.
pub open spec fn key_around(
    outer: Option<u16>,
    defs: Seq<DefinitionView>,
    steps: Seq<int>,
) -> Option<u16>
    decreases steps.len(),
{
    if steps.len() < 2 || !(0 <= steps[0] < defs.len()) {
        outer
    } else {
        match defs[steps[0]] {
            DefinitionView::ModuleDef(m) => key_around(
                match u16_value(m.annotations, "module_key"@) {
                    Some(key) => Some(key),
                    None => outer,
                },
                m.node.definitions,
                steps.drop_first(),
            ),
            _ => outer,
        }
    }
}

/// Whether a message stands for a definition at `path`.
pub open spec fn stands_for_message(
    v: MessageView,
    path: Path,
    m: CommentedView<MessageDefView>,
    key: Option<u16>,
) -> bool {
    &&& v.name == m.node.name
    &&& v.scope == path
    &&& v.comments == m.comments
    &&& string_value(m.annotations, "topic"@) == Some(v.topic)
    &&& match u16_value(m.annotations, "module_key"@) {
        Some(own) => v.module_key == own,
        None => v.module_key == key.unwrap_or(0),
    }
    &&& match u16_value(m.annotations, "message_key"@) {
        Some(own) => v.message_key == own,
        None => v.message_key == 0,
    }
    &&& v.fields.len() == m.node.members.len()
    &&& forall|i: int|
        0 <= i < v.fields.len() ==> {
            &&& (#[trigger] v.fields[i]).name == m.node.members[i].node.name
            &&& v.fields[i].comments == m.node.members[i].comments
            &&& v.fields[i].ordinal == (3 + i) % 256
        }
}

/// Whether one of the messages stands for a definition at `path`.
pub open spec fn has_message(
    messages: Seq<MessageView>,
    path: Path,
    m: CommentedView<MessageDefView>,
    key: Option<u16>,
) -> bool {
    exists|i: int|
        0 <= i < messages.len() && #[trigger] stands_for_message(messages[i], path, m, key)
}

/// Whether an enumeration stands for a definition: it has its name, its comments and its
/// base, or `unsigned long` where it names none, and one value for each enumerator in order.
pub open spec fn stands_for_enum(v: EnumView, e: CommentedView<EnumDefView>) -> bool {
    &&& v.name == e.node.name
    &&& v.comments == e.comments
    &&& v.base == e.node.base_type.unwrap_or(TypeView::UnsignedLong)
    &&& v.values.len() == e.node.enumerators.len()
    &&& forall|i: int|
        0 <= i < v.values.len() ==> {
            &&& (#[trigger] v.values[i]).name == e.node.enumerators[i].name
            &&& v.values[i].comments == e.node.enumerators[i].comments
        }
}

/// Whether a definition has been bound under its full path.
pub open spec fn binds<N>(bindings: Seq<BindingView<N>>, path: Path, name: Text, node: N) -> bool {
    exists|i: int|
        0 <= i < bindings.len() && #[trigger] bindings[i] == (BindingView {
            path: path.push(name),
            scope: path,
            node,
        })
}

/// Whether a context holds what a definition at a place gives: a message or an enumeration
/// to emit, and a binding for everything that can be named.
pub open spec fn holds(c: ContextView, f: Found, key: Option<u16>) -> bool {
    match f.def {
        DefinitionView::MessageDef(m) => has_message(c.messages, f.path, m, key),
        DefinitionView::EnumDef(e) => {
            &&& binds(c.tables.enums, f.path, e.node.name, e.node)
            &&& exists|i: int|
                0 <= i < c.enum_models.len() && #[trigger] stands_for_enum(c.enum_models[i], e)
        },
        DefinitionView::StructDef(s) => binds(c.tables.structs, f.path, s.node.name, s.node),
        DefinitionView::TypeDef(t) => binds(
            c.tables.typedefs,
            f.path,
            t.node.name,
            t.node.base_type,
        ),
        _ => true,
    }
}

/// Whether everything in one context stands at the same place in another.
spec fn within(a: ContextView, b: ContextView) -> bool {
    &&& a.messages.is_prefix_of(b.messages)
    &&& a.enum_models.is_prefix_of(b.enum_models)
    &&& a.tables.typedefs.is_prefix_of(b.tables.typedefs)
    &&& a.tables.structs.is_prefix_of(b.tables.structs)
    &&& a.tables.enums.is_prefix_of(b.tables.enums)
}

proof fn lemma_within_within(a: ContextView, b: ContextView, c: ContextView)
    requires
        within(a, b),
        within(b, c),
    ensures
        within(a, c),
{
    lemma_prefix_of_prefix(a.messages, b.messages, c.messages);
    lemma_prefix_of_prefix(a.enum_models, b.enum_models, c.enum_models);
    lemma_prefix_of_prefix(a.tables.typedefs, b.tables.typedefs, c.tables.typedefs);
    lemma_prefix_of_prefix(a.tables.structs, b.tables.structs, c.tables.structs);
    lemma_prefix_of_prefix(a.tables.enums, b.tables.enums, c.tables.enums);
}

proof fn lemma_binds_within<N>(
    a: Seq<BindingView<N>>,
    b: Seq<BindingView<N>>,
    path: Path,
    name: Text,
    node: N,
)
    requires
        a.is_prefix_of(b),
        binds(a, path, name, node),
    ensures
        binds(b, path, name, node),
{
    let wanted = BindingView { path: path.push(name), scope: path, node };
    let i = choose|i: int| 0 <= i < a.len() && #[trigger] a[i] == wanted;
    assert(b.subrange(0, a.len() as int)[i] == b[i]);
    assert(b[i] == wanted);
}

proof fn lemma_holds_within(a: ContextView, b: ContextView, f: Found, key: Option<u16>)
    requires
        within(a, b),
        holds(a, f, key),
    ensures
        holds(b, f, key),
{
    match f.def {
        DefinitionView::MessageDef(m) => {
            let i = choose|i: int|
                0 <= i < a.messages.len() && #[trigger] stands_for_message(
                    a.messages[i],
                    f.path,
                    m,
                    key,
                );
            assert(b.messages.subrange(0, a.messages.len() as int)[i] == b.messages[i]);
            assert(stands_for_message(b.messages[i], f.path, m, key));
        },
        DefinitionView::EnumDef(e) => {
            lemma_binds_within(a.tables.enums, b.tables.enums, f.path, e.node.name, e.node);
            let i = choose|i: int|
                0 <= i < a.enum_models.len() && #[trigger] stands_for_enum(a.enum_models[i], e);
            assert(b.enum_models.subrange(0, a.enum_models.len() as int)[i] == b.enum_models[i]);
            assert(stands_for_enum(b.enum_models[i], e));
        },
        DefinitionView::StructDef(s) => {
            lemma_binds_within(a.tables.structs, b.tables.structs, f.path, s.node.name, s.node);
        },
        DefinitionView::TypeDef(t) => {
            lemma_binds_within(
                a.tables.typedefs,
                b.tables.typedefs,
                f.path,
                t.node.name,
                t.node.base_type,
            );
        },
        _ => {},
    }
}

proof fn lemma_recorded_within(
    c: ContextView,
    defs: Seq<DefinitionView>,
    scope: Path,
    key: Option<u16>,
    n: nat,
)
    ensures
        recorded(c, defs, scope, key, n) matches Ok(r) ==> within(c, r) && r.tables == c.tables,
    decreases n,
{
    if 0 < n <= defs.len() {
        lemma_recorded_within(c, defs, scope, key, (n - 1) as nat);
        if let Ok(before) = recorded(c, defs, scope, key, (n - 1) as nat) {
            if let Ok(r) = recorded(c, defs, scope, key, n) {
                lemma_within_within(c, before, r);
            }
        }
    }
}

proof fn lemma_indexed_within(
    c: ContextView,
    defs: Seq<DefinitionView>,
    scope: Path,
    key: Option<u16>,
    n: nat,
)
    ensures
        indexed(c, defs, scope, key, n) matches Ok(r) ==> within(c, r),
    decreases defs, n,
{
    if 0 < n <= defs.len() {
        lemma_indexed_within(c, defs, scope, key, (n - 1) as nat);
        if let Ok(before) = indexed(c, defs, scope, key, (n - 1) as nat) {
            if let DefinitionView::ModuleDef(m) = defs[n - 1] {
                lemma_collected_within(
                    before,
                    m.node.definitions,
                    scope.push(m.node.name),
                    inner_key(m.annotations, key),
                );
            }
            if let Ok(r) = indexed(c, defs, scope, key, n) {
                lemma_within_within(c, before, r);
            }
        }
    }
}

proof fn lemma_collected_within(
    c: ContextView,
    defs: Seq<DefinitionView>,
    scope: Path,
    key: Option<u16>,
)
    ensures
        collected(c, defs, scope, key) matches Ok(r) ==> within(c, r),
    decreases defs, defs.len() + 1,
{
    lemma_indexed_within(c, defs, scope, key, defs.len());
    if let Ok(named) = indexed(c, defs, scope, key, defs.len()) {
        lemma_recorded_within(named, defs, scope, key, defs.len());
        if let Ok(r) = recorded(named, defs, scope, key, defs.len()) {
            lemma_within_within(c, named, r);
        }
    }
}

proof fn lemma_recorded_holds(
    c: ContextView,
    defs: Seq<DefinitionView>,
    scope: Path,
    key: Option<u16>,
    n: nat,
    i: int,
)
    requires
        n <= defs.len(),
        0 <= i < n,
        recorded(c, defs, scope, key, n) is Ok,
        defs[i] matches DefinitionView::EnumDef(e) ==> binds(
            c.tables.enums,
            scope,
            e.node.name,
            e.node,
        ),
        defs[i] is MessageDef || defs[i] is EnumDef,
    ensures
        holds(
            recorded(c, defs, scope, key, n)->Ok_0,
            Found { path: scope, def: defs[i] },
            key,
        ),
    decreases n,
{
    let before = recorded(c, defs, scope, key, (n - 1) as nat)->Ok_0;
    let r = recorded(c, defs, scope, key, n)->Ok_0;
    lemma_recorded_within(c, defs, scope, key, n);
    lemma_recorded_within(c, defs, scope, key, (n - 1) as nat);
    if i < n - 1 {
        lemma_recorded_holds(c, defs, scope, key, (n - 1) as nat, i);
        assert(within(before, r));
        lemma_holds_within(before, r, Found { path: scope, def: defs[i] }, key);
    } else {
        match defs[i] {
            DefinitionView::MessageDef(m) => {
                let v = r.messages.last();
                let members = m.node.members;
                law_messages_keep_what_they_name(before.tables, scope, m, key);
                law_messages_are_laid_out(before.tables, scope, m, key);
                assert forall|k: int| 0 <= k < v.fields.len() implies {
                    &&& (#[trigger] v.fields[k]).name == members[k].node.name
                    &&& v.fields[k].comments == members[k].comments
                    &&& v.fields[k].ordinal == (3 + k) % 256
                } by {
                    law_fields_stand_for_members(before.tables, scope, m, key, k);
                }
                let last = r.messages.len() - 1;
                assert(r.messages == before.messages.push(v));
                assert(0 <= last < r.messages.len());
                assert(stands_for_message(r.messages[last], scope, m, key));
                assert(has_message(r.messages, scope, m, key));
            },
            DefinitionView::EnumDef(e) => {
                assert(stands_for_enum(r.enum_models[r.enum_models.len() - 1], e));
            },
            _ => {},
        }
    }
}

/// A definition as the first pass over it leaves it: bound, where it has a name that can be
/// used, or held in full, where it stands in a module.
spec fn holds_names(c: ContextView, f: Found) -> bool {
    match f.def {
        DefinitionView::EnumDef(e) => binds(c.tables.enums, f.path, e.node.name, e.node),
        DefinitionView::StructDef(s) => binds(c.tables.structs, f.path, s.node.name, s.node),
        DefinitionView::TypeDef(t) => binds(
            c.tables.typedefs,
            f.path,
            t.node.name,
            t.node.base_type,
        ),
        _ => true,
    }
}

proof fn lemma_holds_names_within(a: ContextView, b: ContextView, f: Found)
    requires
        within(a, b),
        holds_names(a, f),
    ensures
        holds_names(b, f),
{
    match f.def {
        DefinitionView::EnumDef(e) => {
            lemma_binds_within(a.tables.enums, b.tables.enums, f.path, e.node.name, e.node);
        },
        DefinitionView::StructDef(s) => {
            lemma_binds_within(a.tables.structs, b.tables.structs, f.path, s.node.name, s.node);
        },
        DefinitionView::TypeDef(t) => {
            lemma_binds_within(
                a.tables.typedefs,
                b.tables.typedefs,
                f.path,
                t.node.name,
                t.node.base_type,
            );
        },
        _ => {},
    }
}

proof fn lemma_indexed_holds(
    c: ContextView,
    defs: Seq<DefinitionView>,
    scope: Path,
    key: Option<u16>,
    n: nat,
    steps: Seq<int>,
)
    requires
        n <= defs.len(),
        indexed(c, defs, scope, key, n) is Ok,
        found(defs, scope, steps) is Some,
        steps[0] < n,
    ensures
        ({
            let r = indexed(c, defs, scope, key, n)->Ok_0;
            let f = found(defs, scope, steps).unwrap();
            &&& holds_names(r, f)
            &&& steps.len() > 1 ==> holds(r, f, key_around(key, defs, steps))
        }),
    decreases defs, n,
{
    let before = indexed(c, defs, scope, key, (n - 1) as nat)->Ok_0;
    let r = indexed(c, defs, scope, key, n)->Ok_0;
    let f = found(defs, scope, steps).unwrap();
    lemma_indexed_within(c, defs, scope, key, n);
    if let DefinitionView::ModuleDef(m) = defs[n - 1] {
        lemma_collected_within(
            before,
            m.node.definitions,
            scope.push(m.node.name),
            inner_key(m.annotations, key),
        );
    }
    assert(within(before, r));
    if steps[0] < n - 1 {
        lemma_indexed_holds(c, defs, scope, key, (n - 1) as nat, steps);
        lemma_holds_names_within(before, r, f);
        if steps.len() > 1 {
            lemma_holds_within(before, r, f, key_around(key, defs, steps));
        }
    } else if steps.len() == 1 {
        match f.def {
            DefinitionView::EnumDef(e) => {
                let all = r.tables.enums;
                assert(all[all.len() - 1] == bound(scope, e.node.name, e.node));
            },
            DefinitionView::StructDef(s) => {
                let all = r.tables.structs;
                assert(all[all.len() - 1] == bound(scope, s.node.name, s.node));
            },
            DefinitionView::TypeDef(t) => {
                let all = r.tables.typedefs;
                assert(all[all.len() - 1] == bound(scope, t.node.name, t.node.base_type));
            },
            _ => {},
        }
    } else {
        let m = defs[n - 1]->ModuleDef_0;
        let inside = m.node.definitions;
        let rest = steps.drop_first();
        assert(found(inside, scope.push(m.node.name), rest) == Some(f));
        lemma_collected_holds(
            before,
            inside,
            scope.push(m.node.name),
            inner_key(m.annotations, key),
            rest,
        );
    }
}

proof fn lemma_collected_holds(
    c: ContextView,
    defs: Seq<DefinitionView>,
    scope: Path,
    key: Option<u16>,
    steps: Seq<int>,
)
    requires
        collected(c, defs, scope, key) is Ok,
        found(defs, scope, steps) is Some,
    ensures
        ({
            let r = collected(c, defs, scope, key)->Ok_0;
            let f = found(defs, scope, steps).unwrap();
            &&& holds(r, f, key_around(key, defs, steps))
            &&& holds_names(r, f)
        }),
    decreases defs, defs.len() + 1,
{
    let named = indexed(c, defs, scope, key, defs.len())->Ok_0;
    let r = collected(c, defs, scope, key)->Ok_0;
    let f = found(defs, scope, steps).unwrap();
    lemma_indexed_holds(c, defs, scope, key, defs.len(), steps);
    lemma_recorded_within(named, defs, scope, key, defs.len());
    lemma_holds_names_within(named, r, f);
    if steps.len() > 1 {
        lemma_holds_within(named, r, f, key_around(key, defs, steps));
    } else if f.def is MessageDef || f.def is EnumDef {
        lemma_recorded_holds(named, defs, scope, key, defs.len(), steps[0]);
    }
}

/// Everything that is defined, at any depth, is collected: a message as its definition
/// describes it, with its own module key or that of the innermost module around it that names
/// one; an enumeration with its values; and each alias, structure and enumeration is bound
/// under its full path.
pub proof fn law_everything_is_collected(
    builtins: Seq<BuiltinView>,
    defs: Seq<DefinitionView>,
    steps: Seq<int>,
)
    ensures
        collected(nothing_collected(builtins), defs, Seq::empty(), None) matches Ok(r)
            ==> found(defs, Seq::empty(), steps) matches Some(f) ==> holds(
            r,
            f,
            key_around(None, defs, steps),
        ),
{
    let c = nothing_collected(builtins);
    if collected(c, defs, Seq::empty(), None) is Ok && found(
        defs,
        Seq::empty(),
        steps,
    ) is Some {
        lemma_collected_holds(c, defs, Seq::empty(), None, steps);
    }
}

} // verus!
