//! Modules that stand in several files: their keys and their contents.
use vstd::multiset::Multiset;
use vstd::prelude::*;
use crate::annotations::{find_annotation, first_named, first_named_from, is_named};
use crate::ast::{
    definition_view, definitions_view, Annotation, AnnotationView, CommentedView, Definition,
    DefinitionView, ModuleDefView,
};
use crate::concat::{views, Path, Text};
use crate::text::same_text;
use crate::tree::{
    direct_count, earlier, found, lemma_count_push, lemma_count_update,
    lemma_found_inside, lemma_found_push, message_count, nested_count, weight, Found,
};

verus! {

broadcast use crate::concat::group_views;

/// The key annotation of modules of a name.
#[derive(Debug)]
pub struct NamedKey {
    pub name: String,
    pub annotation: Annotation,
}

/// What contracts see of a [`NamedKey`].
pub struct NamedKeyView {
    pub name: Text,
    pub annotation: AnnotationView,
}

impl View for NamedKey {
    type V = NamedKeyView;

    open spec fn view(&self) -> NamedKeyView {
        NamedKeyView { name: self.name@, annotation: self.annotation@ }
    }
}

/// The first annotation for `name` at or after position `from`.
pub open spec fn key_for_from(keys: Seq<NamedKeyView>, name: Text, from: nat) -> Option<
    AnnotationView,
>
    decreases keys.len() - from,
{
    if from >= keys.len() {
        None
    } else if keys[from as int].name == name {
        Some(keys[from as int].annotation)
    } else {
        key_for_from(keys, name, from + 1)
    }
}

/// The annotation for `name`.
pub open spec fn key_for(keys: Seq<NamedKeyView>, name: Text) -> Option<AnnotationView> {
    key_for_from(keys, name, 0)
}

/// Finds the annotation for `name`.
fn find_key<'a>(keys: &'a Vec<NamedKey>, name: &str) -> (r: Option<&'a Annotation>)
    ensures
        match r {
            Some(a) => key_for(views(keys@), name@) == Some(a@),
            None => key_for(views(keys@), name@) is None,
        },
{
    let ghost all = views(keys@);
    for i in 0..keys.len()
        invariant
            all == views(keys@),
            key_for(all, name@) == key_for_from(all, name@, i as nat),
    {
        assert(all[i as int] == keys@[i as int]@);
        if same_text(keys[i].name.as_str(), name) {
            return Some(&keys[i].annotation);
        }
    }
    None
}

/// The annotations with that of a module, where it has one and none stands for
/// its name yet.
pub open spec fn with_key(
    keys: Seq<NamedKeyView>,
    name: Text,
    annotations: Seq<AnnotationView>,
) -> Seq<NamedKeyView> {
    match first_named(annotations, "module_key"@) {
        Some(annotation) => if key_for(keys, name) is None {
            keys.push(NamedKeyView { name, annotation })
        } else {
            keys
        },
        None => keys,
    }
}

/// The key annotations of the modules among the first `n` definitions, at any
/// depth. The first one for a name stands.
pub open spec fn keys_of_modules(
    keys: Seq<NamedKeyView>,
    defs: Seq<DefinitionView>,
    n: nat,
) -> Seq<NamedKeyView>
    decreases defs, n,
{
    if n == 0 || n > defs.len() {
        keys
    } else {
        let before = keys_of_modules(keys, defs, (n - 1) as nat);
        match defs[n - 1] {
            DefinitionView::ModuleDef(m) => keys_of_modules(
                with_key(before, m.node.name, m.annotations),
                m.node.definitions,
                m.node.definitions.len(),
            ),
            _ => before,
        }
    }
}

/// Adds the key annotations of the modules among the definitions, at any depth.
pub fn collect_module_key_annotations(defs: &[Definition], keys: &mut Vec<NamedKey>)
    ensures
        views(final(keys)@) == keys_of_modules(
            views(old(keys)@),
            definitions_view(defs@),
            defs@.len(),
        ),
    decreases defs@,
{
    let ghost start = views(keys@);
    let ghost all = definitions_view(defs@);
    for i in 0..defs.len()
        invariant
            start == views(old(keys)@),
            all == definitions_view(defs@),
            views(keys@) == keys_of_modules(start, all, i as nat),
    {
        assert(all[i as int] == definition_view(defs@[i as int]));
        if let Definition::ModuleDef(m) = &defs[i] {
            if let Some(annotation) = find_annotation(m.annotations.as_slice(), "module_key") {
                if find_key(keys, m.node.name.as_str()).is_none() {
                    keys.push(
                        NamedKey { name: m.node.name.clone(), annotation: annotation.clone() },
                    );
                }
            }
            collect_module_key_annotations(m.node.definitions.as_slice(), keys);
        }
    }
}

/// A module's annotations with the one for its name, where it has no key.
pub open spec fn annotated(
    keys: Seq<NamedKeyView>,
    name: Text,
    annotations: Seq<AnnotationView>,
) -> Seq<AnnotationView> {
    match first_named(annotations, "module_key"@) {
        Some(_) => annotations,
        None => match key_for(keys, name) {
            Some(annotation) => annotations.push(annotation),
            None => annotations,
        },
    }
}

/// The first `n` definitions with the annotations for the names of modules, at
/// any depth, that have no key.
pub open spec fn applied_upto(
    keys: Seq<NamedKeyView>,
    defs: Seq<DefinitionView>,
    n: nat,
) -> Seq<DefinitionView>
    decreases defs, n,
{
    if n == 0 || n > defs.len() {
        Seq::empty()
    } else {
        applied_upto(keys, defs, (n - 1) as nat).push(
            match defs[n - 1] {
                DefinitionView::ModuleDef(m) => DefinitionView::ModuleDef(
                    CommentedView {
                        node: ModuleDefView {
                            definitions: applied_upto(
                                keys,
                                m.node.definitions,
                                m.node.definitions.len(),
                            ),
                            ..m.node
                        },
                        annotations: annotated(keys, m.node.name, m.annotations),
                        ..m
                    },
                ),
                d => d,
            },
        )
    }
}

/// Gives modules, at any depth, that have no key the annotation for their name.
pub fn apply_module_key_annotations(defs: &mut Vec<Definition>, keys: &Vec<NamedKey>)
    ensures
        definitions_view(final(defs)@) == applied_upto(
            views(keys@),
            definitions_view(old(defs)@),
            old(defs)@.len(),
        ),
    decreases old(defs)@,
{
    let ghost original = defs@;
    let ghost all = definitions_view(defs@);
    let ghost named = views(keys@);
    let total: usize = defs.len();
    let mut i: usize = 0;
    while i < total
        invariant
            i <= total,
            original == old(defs)@,
            total == original.len(),
            defs@.len() == total,
            all == definitions_view(original),
            named == views(keys@),
            forall|k: int| i <= k < total ==> #[trigger] defs@[k] == original[k],
            applied_upto(named, all, i as nat).len() == i,
            forall|k: int|
                0 <= k < i ==> definition_view(#[trigger] defs@[k]) == applied_upto(
                    named,
                    all,
                    i as nat,
                )[k],
        decreases total - i,
    {
        assert(all[i as int] == definition_view(original[i as int]));
        let ghost before = defs@;
        if let Definition::ModuleDef(m) = &mut defs[i] {
            if find_annotation(m.annotations.as_slice(), "module_key").is_none() {
                if let Some(annotation) = find_key(keys, m.node.name.as_str()) {
                    m.annotations.push(annotation.clone());
                }
            }
            apply_module_key_annotations(&mut m.node.definitions, keys);
        }
        assert(forall|k: int| 0 <= k < total && k != i ==> #[trigger] defs@[k] == before[k]);
        proof {
            let now = applied_upto(named, all, (i + 1) as nat);
            assert(definition_view(defs@[i as int]) == now[i as int]);
        }
        i += 1;
    }
    assert(definitions_view(defs@) =~= applied_upto(named, all, total as nat));
}

/// The definitions with a key for every module whose name has one.
pub open spec fn propagated(defs: Seq<DefinitionView>) -> Seq<DefinitionView> {
    applied_upto(keys_of_modules(Seq::empty(), defs, defs.len()), defs, defs.len())
}

/// Gives modules that have no key the key annotation of the first module of
/// their name that has one.
pub fn propagate_module_key_annotations(defs: &mut Vec<Definition>)
    ensures
        definitions_view(final(defs)@) == propagated(definitions_view(old(defs)@)),
{
    let mut keys: Vec<NamedKey> = Vec::new();
    collect_module_key_annotations(defs.as_slice(), &mut keys);
    apply_module_key_annotations(defs, &keys);
}

/// Whether every module among the first `n` definitions, at any depth, whose
/// name has an annotation has a key.
pub open spec fn modules_keyed(keys: Seq<NamedKeyView>, defs: Seq<DefinitionView>, n: nat) -> bool
    decreases defs, n,
{
    n == 0 || n > defs.len() || {
        &&& modules_keyed(keys, defs, (n - 1) as nat)
        &&& match defs[n - 1] {
            DefinitionView::ModuleDef(m) => {
                &&& key_for(keys, m.node.name) is Some ==> first_named(
                    m.annotations,
                    "module_key"@,
                ) is Some
                &&& modules_keyed(keys, m.node.definitions, m.node.definitions.len())
            },
            _ => true,
        }
    }
}

/// Whether every annotation in the list is a module key.
pub open spec fn are_keys(keys: Seq<NamedKeyView>) -> bool {
    forall|i: int|
        0 <= i < keys.len() ==> is_named((#[trigger] keys[i]).annotation, "module_key"@)
}

proof fn lemma_first_named_is_named(annotations: Seq<AnnotationView>, name: Text, from: int)
    requires
        0 <= from,
    ensures
        first_named_from(annotations, name, from) matches Some(a) ==> is_named(a, name),
    decreases annotations.len() - from,
{
    if from < annotations.len() && !is_named(annotations[from], name) {
        lemma_first_named_is_named(annotations, name, from + 1);
    }
}

proof fn lemma_collected_are_keys(keys: Seq<NamedKeyView>, defs: Seq<DefinitionView>, n: nat)
    requires
        are_keys(keys),
    ensures
        are_keys(keys_of_modules(keys, defs, n)),
    decreases defs, n,
{
    if 0 < n <= defs.len() {
        lemma_collected_are_keys(keys, defs, (n - 1) as nat);
        if let DefinitionView::ModuleDef(m) = defs[n - 1] {
            let before = keys_of_modules(keys, defs, (n - 1) as nat);
            lemma_first_named_is_named(m.annotations, "module_key"@, 0);
            lemma_collected_are_keys(
                with_key(before, m.node.name, m.annotations),
                m.node.definitions,
                m.node.definitions.len(),
            );
        }
    }
}

proof fn lemma_key_for_is_key(keys: Seq<NamedKeyView>, name: Text, from: nat)
    requires
        are_keys(keys),
    ensures
        key_for_from(keys, name, from) matches Some(a) ==> is_named(a, "module_key"@),
    decreases keys.len() - from,
{
    if from < keys.len() && keys[from as int].name != name {
        lemma_key_for_is_key(keys, name, from + 1);
    }
}

proof fn lemma_named_after_push(
    annotations: Seq<AnnotationView>,
    a: AnnotationView,
    name: Text,
    from: int,
)
    requires
        0 <= from <= annotations.len(),
        is_named(a, name),
    ensures
        first_named_from(annotations.push(a), name, from) is Some,
    decreases annotations.len() - from,
{
    if from < annotations.len() {
        lemma_named_after_push(annotations, a, name, from + 1);
    }
}

proof fn lemma_annotated_is_keyed(
    keys: Seq<NamedKeyView>,
    name: Text,
    annotations: Seq<AnnotationView>,
)
    requires
        are_keys(keys),
        key_for(keys, name) is Some,
    ensures
        first_named(annotated(keys, name, annotations), "module_key"@) is Some,
{
    if first_named(annotations, "module_key"@) is None {
        lemma_key_for_is_key(keys, name, 0);
        lemma_named_after_push(annotations, key_for(keys, name).unwrap(), "module_key"@, 0);
    }
}

proof fn lemma_modules_keyed_push(
    keys: Seq<NamedKeyView>,
    defs: Seq<DefinitionView>,
    d: DefinitionView,
    n: nat,
)
    requires
        n <= defs.len(),
    ensures
        modules_keyed(keys, defs.push(d), n) == modules_keyed(keys, defs, n),
    decreases n,
{
    if n > 0 {
        lemma_modules_keyed_push(keys, defs, d, (n - 1) as nat);
        assert(defs.push(d)[n - 1] == defs[n - 1]);
    }
}

proof fn lemma_applied_is_keyed(keys: Seq<NamedKeyView>, defs: Seq<DefinitionView>, n: nat)
    requires
        are_keys(keys),
        n <= defs.len(),
    ensures
        applied_upto(keys, defs, n).len() == n,
        modules_keyed(keys, applied_upto(keys, defs, n), n),
    decreases defs, n,
{
    if n > 0 {
        lemma_applied_is_keyed(keys, defs, (n - 1) as nat);
        let before = applied_upto(keys, defs, (n - 1) as nat);
        let r = applied_upto(keys, defs, n);
        lemma_modules_keyed_push(keys, before, r[n - 1], (n - 1) as nat);
        assert(r == before.push(r[n - 1]));
        if let DefinitionView::ModuleDef(m) = defs[n - 1] {
            lemma_applied_is_keyed(keys, m.node.definitions, m.node.definitions.len());
            if key_for(keys, m.node.name) is Some {
                lemma_annotated_is_keyed(keys, m.node.name, m.annotations);
            }
        }
    }
}

/// Afterwards every module whose name has a key anywhere has a key.
pub proof fn law_modules_share_their_key(defs: Seq<DefinitionView>)
    ensures
        propagated(defs).len() == defs.len(),
        modules_keyed(
            keys_of_modules(Seq::empty(), defs, defs.len()),
            propagated(defs),
            defs.len(),
        ),
{
    lemma_collected_are_keys(Seq::empty(), defs, defs.len());
    lemma_applied_is_keyed(
        keys_of_modules(Seq::empty(), defs, defs.len()),
        defs,
        defs.len(),
    );
}

proof fn lemma_keyed_modules_stay(keys: Seq<NamedKeyView>, defs: Seq<DefinitionView>, n: nat)
    requires
        n <= defs.len(),
        modules_keyed(keys, defs, n),
    ensures
        applied_upto(keys, defs, n) == defs.take(n as int),
    decreases defs, n,
{
    if n == 0 {
        assert(defs.take(0) =~= Seq::<DefinitionView>::empty());
    } else {
        lemma_keyed_modules_stay(keys, defs, (n - 1) as nat);
        assert(defs.take(n as int) =~= defs.take(n - 1).push(defs[n - 1]));
        if let DefinitionView::ModuleDef(m) = defs[n - 1] {
            lemma_keyed_modules_stay(keys, m.node.definitions, m.node.definitions.len());
            assert(m.node.definitions.take(m.node.definitions.len() as int)
                =~= m.node.definitions);
        }
    }
}

/// Whether the name of every module among the first `n` definitions, at any
/// depth, that has a key has an annotation.
pub open spec fn keyed_names_known(
    keys: Seq<NamedKeyView>,
    defs: Seq<DefinitionView>,
    n: nat,
) -> bool
    decreases defs, n,
{
    n == 0 || n > defs.len() || {
        &&& keyed_names_known(keys, defs, (n - 1) as nat)
        &&& match defs[n - 1] {
            DefinitionView::ModuleDef(m) => {
                &&& first_named(m.annotations, "module_key"@) is Some ==> key_for(
                    keys,
                    m.node.name,
                ) is Some
                &&& keyed_names_known(keys, m.node.definitions, m.node.definitions.len())
            },
            _ => true,
        }
    }
}

/// Whether every name that has an annotation in `a` has one in `b`.
pub open spec fn names_within(a: Seq<NamedKeyView>, b: Seq<NamedKeyView>) -> bool {
    forall|name: Text| #[trigger] key_for(a, name) is Some ==> key_for(b, name) is Some
}

proof fn lemma_key_for_push(keys: Seq<NamedKeyView>, k: NamedKeyView, name: Text, from: nat)
    requires
        from <= keys.len(),
    ensures
        key_for_from(keys.push(k), name, from) is Some <==> key_for_from(keys, name, from) is Some
            || k.name == name,
    decreases keys.len() - from,
{
    reveal_with_fuel(key_for_from, 2);
    if from < keys.len() {
        lemma_key_for_push(keys, k, name, from + 1);
    }
}

proof fn lemma_with_key_names(
    keys: Seq<NamedKeyView>,
    name: Text,
    annotations: Seq<AnnotationView>,
)
    ensures
        names_within(keys, with_key(keys, name, annotations)),
        first_named(annotations, "module_key"@) is Some ==> key_for(
            with_key(keys, name, annotations),
            name,
        ) is Some,
        forall|other: Text| #[trigger]
            key_for(with_key(keys, name, annotations), other) is Some ==> key_for(keys, other)
                is Some || (other == name && first_named(annotations, "module_key"@) is Some),
{
    if let Some(annotation) = first_named(annotations, "module_key"@) {
        if key_for(keys, name) is None {
            let k = NamedKeyView { name, annotation };
            assert forall|other: Text| #[trigger]
                key_for(keys.push(k), other) is Some <==> key_for(keys, other) is Some || other
                    == name by {
                lemma_key_for_push(keys, k, other, 0);
            }
            assert(key_for(keys.push(k), name) is Some);
        }
    }
}

proof fn lemma_collected_names_grow(keys: Seq<NamedKeyView>, defs: Seq<DefinitionView>, n: nat)
    ensures
        names_within(keys, keys_of_modules(keys, defs, n)),
    decreases defs, n,
{
    if 0 < n <= defs.len() {
        lemma_collected_names_grow(keys, defs, (n - 1) as nat);
        if let DefinitionView::ModuleDef(m) = defs[n - 1] {
            let before = keys_of_modules(keys, defs, (n - 1) as nat);
            lemma_with_key_names(before, m.node.name, m.annotations);
            lemma_collected_names_grow(
                with_key(before, m.node.name, m.annotations),
                m.node.definitions,
                m.node.definitions.len(),
            );
        }
    }
}

proof fn lemma_known_grows(
    a: Seq<NamedKeyView>,
    b: Seq<NamedKeyView>,
    defs: Seq<DefinitionView>,
    n: nat,
)
    requires
        names_within(a, b),
        keyed_names_known(a, defs, n),
    ensures
        keyed_names_known(b, defs, n),
    decreases defs, n,
{
    if 0 < n <= defs.len() {
        lemma_known_grows(a, b, defs, (n - 1) as nat);
        if let DefinitionView::ModuleDef(m) = defs[n - 1] {
            lemma_known_grows(a, b, m.node.definitions, m.node.definitions.len());
            assert(key_for(a, m.node.name) is Some ==> key_for(b, m.node.name) is Some);
        }
    }
}

proof fn lemma_collected_names_are_known(
    keys: Seq<NamedKeyView>,
    defs: Seq<DefinitionView>,
    n: nat,
)
    ensures
        keyed_names_known(keys_of_modules(keys, defs, n), defs, n),
    decreases defs, n,
{
    if 0 < n <= defs.len() {
        lemma_collected_names_are_known(keys, defs, (n - 1) as nat);
        let before = keys_of_modules(keys, defs, (n - 1) as nat);
        if let DefinitionView::ModuleDef(m) = defs[n - 1] {
            let inner = with_key(before, m.node.name, m.annotations);
            let after = keys_of_modules(keys, defs, n);
            lemma_with_key_names(before, m.node.name, m.annotations);
            lemma_collected_names_are_known(inner, m.node.definitions, m.node.definitions.len());
            lemma_collected_names_grow(inner, m.node.definitions, m.node.definitions.len());
            assert(names_within(before, after)) by {
                assert forall|name: Text| #[trigger] key_for(before, name) is Some implies key_for(
                    after,
                    name,
                ) is Some by {
                    assert(key_for(inner, name) is Some);
                }
            }
            lemma_known_grows(before, after, defs, (n - 1) as nat);
            assert(key_for(inner, m.node.name) is Some ==> key_for(after, m.node.name) is Some);
        }
    }
}

proof fn lemma_collected_names_stay_within(
    keys: Seq<NamedKeyView>,
    all: Seq<NamedKeyView>,
    defs: Seq<DefinitionView>,
    n: nat,
)
    requires
        names_within(keys, all),
        keyed_names_known(all, defs, n),
    ensures
        names_within(keys_of_modules(keys, defs, n), all),
    decreases defs, n,
{
    if 0 < n <= defs.len() {
        lemma_collected_names_stay_within(keys, all, defs, (n - 1) as nat);
        if let DefinitionView::ModuleDef(m) = defs[n - 1] {
            let before = keys_of_modules(keys, defs, (n - 1) as nat);
            lemma_with_key_names(before, m.node.name, m.annotations);
            lemma_collected_names_stay_within(
                with_key(before, m.node.name, m.annotations),
                all,
                m.node.definitions,
                m.node.definitions.len(),
            );
        }
    }
}

proof fn lemma_known_push(
    keys: Seq<NamedKeyView>,
    defs: Seq<DefinitionView>,
    d: DefinitionView,
    n: nat,
)
    requires
        n <= defs.len(),
    ensures
        keyed_names_known(keys, defs.push(d), n) == keyed_names_known(keys, defs, n),
    decreases n,
{
    if n > 0 {
        lemma_known_push(keys, defs, d, (n - 1) as nat);
        assert(defs.push(d)[n - 1] == defs[n - 1]);
    }
}

proof fn lemma_applied_names_are_known(
    keys: Seq<NamedKeyView>,
    defs: Seq<DefinitionView>,
    n: nat,
)
    requires
        n <= defs.len(),
        keyed_names_known(keys, defs, n),
    ensures
        applied_upto(keys, defs, n).len() == n,
        keyed_names_known(keys, applied_upto(keys, defs, n), n),
    decreases defs, n,
{
    if n > 0 {
        lemma_applied_names_are_known(keys, defs, (n - 1) as nat);
        let before = applied_upto(keys, defs, (n - 1) as nat);
        let r = applied_upto(keys, defs, n);
        lemma_known_push(keys, before, r[n - 1], (n - 1) as nat);
        assert(r == before.push(r[n - 1]));
        if let DefinitionView::ModuleDef(m) = defs[n - 1] {
            lemma_applied_names_are_known(keys, m.node.definitions, m.node.definitions.len());
        }
    }
}

proof fn lemma_fewer_names_are_keyed(
    fewer: Seq<NamedKeyView>,
    keys: Seq<NamedKeyView>,
    defs: Seq<DefinitionView>,
    n: nat,
)
    requires
        names_within(fewer, keys),
        modules_keyed(keys, defs, n),
    ensures
        modules_keyed(fewer, defs, n),
    decreases defs, n,
{
    if 0 < n <= defs.len() {
        lemma_fewer_names_are_keyed(fewer, keys, defs, (n - 1) as nat);
        if let DefinitionView::ModuleDef(m) = defs[n - 1] {
            lemma_fewer_names_are_keyed(fewer, keys, m.node.definitions, m.node.definitions.len());
            assert(key_for(fewer, m.node.name) is Some ==> key_for(keys, m.node.name) is Some);
        }
    }
}

/// Sharing keys among modules a second time changes nothing.
pub proof fn law_propagating_twice_is_propagating_once(defs: Seq<DefinitionView>)
    ensures
        propagated(propagated(defs)) == propagated(defs),
{
    let keys = keys_of_modules(Seq::empty(), defs, defs.len());
    let once = propagated(defs);
    law_modules_share_their_key(defs);
    lemma_collected_names_are_known(Seq::empty(), defs, defs.len());
    lemma_applied_names_are_known(keys, defs, defs.len());
    let again = keys_of_modules(Seq::empty(), once, once.len());
    lemma_collected_names_stay_within(Seq::empty(), keys, once, once.len());
    lemma_fewer_names_are_keyed(again, keys, once, once.len());
    lemma_keyed_modules_stay(again, once, once.len());
    assert(once.take(once.len() as int) =~= once);
}

/// The first position at or after `from` of a module of this name.
pub open spec fn module_at(defs: Seq<DefinitionView>, name: Text, from: nat) -> Option<nat>
    decreases defs.len() - from,
{
    if from >= defs.len() {
        None
    } else {
        match defs[from as int] {
            DefinitionView::ModuleDef(m) => if m.node.name == name {
                Some(from)
            } else {
                module_at(defs, name, from + 1)
            },
            _ => module_at(defs, name, from + 1),
        }
    }
}

/// A module with other contents.
pub open spec fn with_contents(d: DefinitionView, definitions: Seq<DefinitionView>) -> DefinitionView {
    match d {
        DefinitionView::ModuleDef(m) => DefinitionView::ModuleDef(
            CommentedView { node: ModuleDefView { definitions, ..m.node }, ..m },
        ),
        _ => d,
    }
}

/// The contents of a module.
pub open spec fn contents_of(d: DefinitionView) -> Seq<DefinitionView> {
    match d {
        DefinitionView::ModuleDef(m) => m.node.definitions,
        _ => Seq::empty(),
    }
}

/// `target` with the first `n` of the incoming definitions: a module goes into
/// the first module of its name, anything else to the end.
pub open spec fn merged_upto(
    target: Seq<DefinitionView>,
    incoming: Seq<DefinitionView>,
    n: nat,
) -> Seq<DefinitionView>
    decreases incoming, n,
{
    if n == 0 || n > incoming.len() {
        target
    } else {
        let before = merged_upto(target, incoming, (n - 1) as nat);
        match incoming[n - 1] {
            DefinitionView::ModuleDef(m) => match module_at(before, m.node.name, 0) {
                Some(k) => before.update(
                    k as int,
                    with_contents(
                        before[k as int],
                        merged_upto(
                            contents_of(before[k as int]),
                            m.node.definitions,
                            m.node.definitions.len(),
                        ),
                    ),
                ),
                None => before.push(incoming[n - 1]),
            },
            _ => before.push(incoming[n - 1]),
        }
    }
}

/// Whether a definition is a module of this name.
pub open spec fn is_module_named(d: DefinitionView, name: Text) -> bool {
    d matches DefinitionView::ModuleDef(m) && m.node.name == name
}

proof fn lemma_module_at(defs: Seq<DefinitionView>, name: Text, from: nat)
    ensures
        match module_at(defs, name, from) {
            Some(k) => {
                &&& from <= k < defs.len()
                &&& is_module_named(defs[k as int], name)
                &&& forall|j: int| from <= j < k ==> !is_module_named(#[trigger] defs[j], name)
            },
            None => forall|j: int|
                from <= j < defs.len() ==> !is_module_named(#[trigger] defs[j], name),
        },
    decreases defs.len() - from,
{
    if from < defs.len() {
        lemma_module_at(defs, name, from + 1);
    }
}

fn find_module(defs: &Vec<Definition>, name: &str) -> (r: Option<usize>)
    ensures
        match r {
            Some(k) => {
                &&& module_at(definitions_view(defs@), name@, 0) == Some(k as nat)
                &&& k < defs@.len()
                &&& defs@[k as int] is ModuleDef
            },
            None => module_at(definitions_view(defs@), name@, 0) is None,
        },
{
    let ghost all = definitions_view(defs@);
    for i in 0..defs.len()
        invariant
            all == definitions_view(defs@),
            module_at(all, name@, 0) == module_at(all, name@, i as nat),
    {
        assert(all[i as int] == definition_view(defs@[i as int]));
        if let Definition::ModuleDef(m) = &defs[i] {
            if same_text(m.node.name.as_str(), name) {
                return Some(i);
            }
        }
    }
    None
}

/// Merges `incoming` into `target`, combining modules that share a name at the
/// same level.
pub fn merge_definitions(target: &mut Vec<Definition>, incoming: Vec<Definition>)
    ensures
        definitions_view(final(target)@) == merged_upto(
            definitions_view(old(target)@),
            definitions_view(incoming@),
            incoming@.len(),
        ),
    decreases incoming@,
{
    let ghost start = definitions_view(target@);
    let ghost originals = incoming@;
    let ghost all = definitions_view(incoming@);
    for def in it: incoming.into_iter()
        invariant
            start == definitions_view(old(target)@),
            originals == incoming@,
            all == definitions_view(originals),
            it.seq() == originals,
            definitions_view(target@) == merged_upto(start, all, it.index() as nat),
    {
        let ghost i = it.index();
        let ghost before = definitions_view(target@);
        let ghost before_defs = target@;
        assert(def == originals[i]);
        assert(all[i] == definition_view(def));
        match def {
            Definition::ModuleDef(m) => match find_module(target, m.node.name.as_str()) {
                Some(k) => {
                    let ghost inner = definitions_view(m.node.definitions@);
                    if let Definition::ModuleDef(existing) = &mut target[k] {
                        merge_definitions(&mut existing.node.definitions, m.node.definitions);
                    }
                    assert(definitions_view(target@) =~= before.update(
                        k as int,
                        definition_view(target@[k as int]),
                    ));
                },
                None => {
                    target.push(Definition::ModuleDef(m));
                    assert(definitions_view(target@) =~= before.push(all[i]));
                },
            },
            other => {
                target.push(other);
                assert(definitions_view(target@) =~= before.push(all[i]));
            },
        }
    }
}

/// Whether no two modules of a list have the same name.
pub open spec fn modules_distinct(defs: Seq<DefinitionView>) -> bool {
    forall|i: int, j: int|
        0 <= i < j < defs.len() ==> !(#[trigger] defs[i] matches DefinitionView::ModuleDef(a)
            && (#[trigger] defs[j] matches DefinitionView::ModuleDef(b) && a.node.name
            == b.node.name))
}

/// Merging into a list in which no two modules have the same name gives such a
/// list.
pub proof fn law_merging_keeps_modules_distinct(
    target: Seq<DefinitionView>,
    incoming: Seq<DefinitionView>,
    n: nat,
)
    requires
        modules_distinct(target),
        n <= incoming.len(),
    ensures
        modules_distinct(merged_upto(target, incoming, n)),
    decreases n,
{
    if n > 0 {
        law_merging_keeps_modules_distinct(target, incoming, (n - 1) as nat);
        let before = merged_upto(target, incoming, (n - 1) as nat);
        if let DefinitionView::ModuleDef(m) = incoming[n - 1] {
            lemma_module_at(before, m.node.name, 0);
        }
    }
}

/// Merging loses no message and adds none.
pub proof fn law_merging_keeps_every_message(
    target: Seq<DefinitionView>,
    incoming: Seq<DefinitionView>,
    n: nat,
)
    requires
        n <= incoming.len(),
    ensures
        message_count(merged_upto(target, incoming, n)) == message_count(target) + nested_count(
            incoming,
            n,
        ) + direct_count(incoming, n),
    decreases incoming, n,
{
    if n > 0 {
        law_merging_keeps_every_message(target, incoming, (n - 1) as nat);
        let before = merged_upto(target, incoming, (n - 1) as nat);
        let d = incoming[n - 1];
        lemma_count_push(before, d);
        if let DefinitionView::ModuleDef(m) = d {
            lemma_module_at(before, m.node.name, 0);
            if let Some(k) = module_at(before, m.node.name, 0) {
                let old_contents = contents_of(before[k as int]);
                law_merging_keeps_every_message(
                    old_contents,
                    m.node.definitions,
                    m.node.definitions.len(),
                );
                let new_contents = merged_upto(
                    old_contents,
                    m.node.definitions,
                    m.node.definitions.len(),
                );
                lemma_count_update(before, k as int, with_contents(before[k as int], new_contents));
                assert(message_count(m.node.definitions) == nested_count(
                    m.node.definitions,
                    m.node.definitions.len(),
                ) + direct_count(m.node.definitions, m.node.definitions.len()));
                assert(weight(with_contents(before[k as int], new_contents)) == message_count(
                    new_contents,
                ));
                assert(weight(before[k as int]) == message_count(old_contents));
            }
        }
    }
}

/// Whether no two modules that stand beside each other have the same name, at any
/// depth below the first `n` definitions.
pub open spec fn distinct_below(defs: Seq<DefinitionView>, n: nat) -> bool
    decreases defs, n,
{
    n == 0 || n > defs.len() || {
        &&& distinct_below(defs, (n - 1) as nat)
        &&& match defs[n - 1] {
            DefinitionView::ModuleDef(m) => all_distinct(m.node.definitions),
            _ => true,
        }
    }
}

/// Whether no two modules that stand beside each other have the same name, at any
/// depth.
pub open spec fn all_distinct(defs: Seq<DefinitionView>) -> bool
    decreases defs, defs.len() + 1,
{
    modules_distinct(defs) && distinct_below(defs, defs.len())
}

proof fn lemma_distinct_below(defs: Seq<DefinitionView>, n: nat)
    requires
        n <= defs.len(),
    ensures
        distinct_below(defs, n) <==> forall|i: int|
            0 <= i < n ==> all_distinct(contents_of(#[trigger] defs[i])),
    decreases n,
{
    if n > 0 {
        lemma_distinct_below(defs, (n - 1) as nat);
        if !(defs[n - 1] is ModuleDef) {
            lemma_nothing_is_distinct();
        }
    }
}

proof fn lemma_nothing_is_distinct()
    ensures
        all_distinct(Seq::empty()),
{
}

proof fn lemma_merging_keeps_depths_distinct(
    target: Seq<DefinitionView>,
    incoming: Seq<DefinitionView>,
    n: nat,
)
    requires
        n <= incoming.len(),
        all_distinct(target),
        distinct_below(incoming, n),
    ensures
        all_distinct(merged_upto(target, incoming, n)),
    decreases incoming, n,
{
    let r = merged_upto(target, incoming, n);
    law_merging_keeps_modules_distinct(target, incoming, n);
    if n > 0 {
        lemma_merging_keeps_depths_distinct(target, incoming, (n - 1) as nat);
        let before = merged_upto(target, incoming, (n - 1) as nat);
        let d = incoming[n - 1];
        lemma_distinct_below(before, before.len());
        lemma_distinct_below(incoming, n);
        assert(all_distinct(contents_of(d)));
        if let DefinitionView::ModuleDef(m) = d {
            lemma_module_at(before, m.node.name, 0);
            if let Some(k) = module_at(before, m.node.name, 0) {
                assert(all_distinct(contents_of(before[k as int])));
                lemma_merging_keeps_depths_distinct(
                    contents_of(before[k as int]),
                    m.node.definitions,
                    m.node.definitions.len(),
                );
            }
        }
        assert forall|i: int| 0 <= i < r.len() implies all_distinct(
            contents_of(#[trigger] r[i]),
        ) by {
            if i < before.len() {
                assert(all_distinct(contents_of(before[i])));
            }
        }
        lemma_distinct_below(r, r.len());
    }
}

/// A definition that is no module, and the path of the modules that it stands in.
pub struct Leaf {
    pub path: Path,
    pub def: DefinitionView,
}

/// The definitions among the first `n`, at any depth, that are no modules, each
/// with its path and as often as it stands there.
pub open spec fn leaves_upto(defs: Seq<DefinitionView>, at: Path, n: nat) -> Multiset<Leaf>
    decreases defs, n,
{
    if n == 0 || n > defs.len() {
        Multiset::empty()
    } else {
        leaves_upto(defs, at, (n - 1) as nat).add(
            match defs[n - 1] {
                DefinitionView::ModuleDef(m) => leaves_upto(
                    m.node.definitions,
                    at.push(m.node.name),
                    m.node.definitions.len(),
                ),
                d => Multiset::singleton(Leaf { path: at, def: d }),
            },
        )
    }
}

/// The definitions, at any depth, that are no modules.
pub open spec fn leaves(defs: Seq<DefinitionView>, at: Path) -> Multiset<Leaf> {
    leaves_upto(defs, at, defs.len())
}

/// What one definition is or holds that is no module.
pub open spec fn leaves_of(d: DefinitionView, at: Path) -> Multiset<Leaf> {
    match d {
        DefinitionView::ModuleDef(m) => leaves(m.node.definitions, at.push(m.node.name)),
        _ => Multiset::singleton(Leaf { path: at, def: d }),
    }
}

proof fn lemma_leaves_prefix(
    a: Seq<DefinitionView>,
    b: Seq<DefinitionView>,
    at: Path,
    n: nat,
)
    requires
        n <= a.len(),
        n <= b.len(),
        forall|k: int| 0 <= k < n ==> #[trigger] a[k] == b[k],
    ensures
        leaves_upto(a, at, n) == leaves_upto(b, at, n),
    decreases n,
{
    if n > 0 {
        lemma_leaves_prefix(a, b, at, (n - 1) as nat);
        assert(a[n - 1] == b[n - 1]);
    }
}

proof fn lemma_leaves_push(defs: Seq<DefinitionView>, d: DefinitionView, at: Path)
    ensures
        leaves(defs.push(d), at) == leaves(defs, at).add(leaves_of(d, at)),
{
    lemma_leaves_prefix(defs.push(d), defs, at, defs.len());
    assert(defs.push(d)[defs.len() as int] == d);
}

proof fn lemma_leaves_update(
    defs: Seq<DefinitionView>,
    i: int,
    d: DefinitionView,
    at: Path,
    n: nat,
)
    requires
        0 <= i < n <= defs.len(),
    ensures
        leaves_upto(defs.update(i, d), at, n).add(leaves_of(defs[i], at)) == leaves_upto(
            defs,
            at,
            n,
        ).add(leaves_of(d, at)),
    decreases n,
{
    broadcast use vstd::multiset::group_multiset_axioms;

    let changed = defs.update(i, d);
    let left = leaves_upto(changed, at, n).add(leaves_of(defs[i], at));
    let right = leaves_upto(defs, at, n).add(leaves_of(d, at));
    if i == n - 1 {
        lemma_leaves_prefix(changed, defs, at, (n - 1) as nat);
        assert(left =~= right);
    } else {
        lemma_leaves_update(defs, i, d, at, (n - 1) as nat);
        let last = leaves_of(defs[n - 1], at);
        let l = leaves_upto(changed, at, (n - 1) as nat);
        let r = leaves_upto(defs, at, (n - 1) as nat);
        assert(changed[n - 1] == defs[n - 1]);
        assert(left =~= l.add(leaves_of(defs[i], at)).add(last));
        assert(right =~= r.add(leaves_of(d, at)).add(last));
    }
}

proof fn lemma_cancel(x: Multiset<Leaf>, y: Multiset<Leaf>, z: Multiset<Leaf>, w: Multiset<Leaf>)
    requires
        x.add(z) == y.add(z.add(w)),
    ensures
        x == y.add(w),
{
    broadcast use vstd::multiset::group_multiset_axioms;

    assert forall|v: Leaf| x.count(v) == y.add(w).count(v) by {
        assert(x.add(z).count(v) == x.count(v) + z.count(v));
        assert(z.add(w).count(v) == z.count(v) + w.count(v));
        assert(y.add(z.add(w)).count(v) == y.count(v) + z.add(w).count(v));
        assert(y.add(w).count(v) == y.count(v) + w.count(v));
    }
    assert(x =~= y.add(w));
}

/// Merging keeps every definition that is no module, of either side, under its
/// path and as often as it stood there, and adds no other.
pub proof fn law_merging_keeps_every_definition(
    target: Seq<DefinitionView>,
    incoming: Seq<DefinitionView>,
    at: Path,
    n: nat,
)
    requires
        n <= incoming.len(),
    ensures
        leaves(merged_upto(target, incoming, n), at) == leaves(target, at).add(
            leaves_upto(incoming, at, n),
        ),
    decreases incoming, n,
{
    broadcast use vstd::multiset::group_multiset_axioms;

    let r = merged_upto(target, incoming, n);
    if n == 0 {
        assert(leaves(r, at) =~= leaves(target, at).add(leaves_upto(incoming, at, n)));
    } else {
        law_merging_keeps_every_definition(target, incoming, at, (n - 1) as nat);
        let before = merged_upto(target, incoming, (n - 1) as nat);
        let d = incoming[n - 1];
        let arrived = leaves_of(d, at);
        assert(leaves_upto(incoming, at, n) == leaves_upto(incoming, at, (n - 1) as nat).add(
            arrived,
        ));
        lemma_leaves_push(before, d, at);
        assert(leaves(r, at) == leaves(before, at).add(arrived)) by {
            if let DefinitionView::ModuleDef(m) = d {
                lemma_module_at(before, m.node.name, 0);
                if let Some(k) = module_at(before, m.node.name, 0) {
                    let inner = at.push(m.node.name);
                    let old_contents = contents_of(before[k as int]);
                    let new_contents = merged_upto(
                        old_contents,
                        m.node.definitions,
                        m.node.definitions.len(),
                    );
                    let changed = with_contents(before[k as int], new_contents);
                    law_merging_keeps_every_definition(
                        old_contents,
                        m.node.definitions,
                        inner,
                        m.node.definitions.len(),
                    );
                    lemma_leaves_update(before, k as int, changed, at, before.len());
                    assert(leaves_of(changed, at) == leaves_of(before[k as int], at).add(arrived));
                    lemma_cancel(
                        leaves(r, at),
                        leaves(before, at),
                        leaves_of(before[k as int], at),
                        arrived,
                    );
                }
            }
        }
        assert(leaves(r, at) =~= leaves(target, at).add(leaves_upto(incoming, at, n)));
    }
}

/// Whether the entries of `target` stand at their places in `merged`, unchanged
/// but for what modules hold.
pub open spec fn entries_kept(target: Seq<DefinitionView>, merged: Seq<DefinitionView>) -> bool {
    &&& target.len() <= merged.len()
    &&& forall|k: int|
        0 <= k < target.len() ==> #[trigger] merged[k] == with_contents(
            target[k],
            contents_of(merged[k]),
        )
}

/// Merging leaves the entries of the target where they stand, with their names,
/// annotations and comments.
pub proof fn law_merging_keeps_entries_in_place(
    target: Seq<DefinitionView>,
    incoming: Seq<DefinitionView>,
    n: nat,
)
    requires
        n <= incoming.len(),
    ensures
        entries_kept(target, merged_upto(target, incoming, n)),
    decreases n,
{
    let r = merged_upto(target, incoming, n);
    if n == 0 {
        assert forall|k: int| 0 <= k < target.len() implies #[trigger] r[k] == with_contents(
            target[k],
            contents_of(r[k]),
        ) by {}
    } else {
        law_merging_keeps_entries_in_place(target, incoming, (n - 1) as nat);
        let before = merged_upto(target, incoming, (n - 1) as nat);
        if let DefinitionView::ModuleDef(m) = incoming[n - 1] {
            lemma_module_at(before, m.node.name, 0);
        }
        assert forall|k: int| 0 <= k < target.len() implies #[trigger] r[k] == with_contents(
            target[k],
            contents_of(r[k]),
        ) by {
            assert(before[k] == with_contents(target[k], contents_of(before[k])));
        }
    }
}

/// Those of the first `n` incoming definitions that go to the end: all but the
/// modules whose name a module of `target` has.
pub open spec fn appended_upto(
    target: Seq<DefinitionView>,
    incoming: Seq<DefinitionView>,
    n: nat,
) -> Seq<DefinitionView>
    decreases n,
{
    if n == 0 || n > incoming.len() {
        Seq::empty()
    } else {
        let before = appended_upto(target, incoming, (n - 1) as nat);
        match incoming[n - 1] {
            DefinitionView::ModuleDef(m) => if module_at(target, m.node.name, 0) is Some {
                before
            } else {
                before.push(incoming[n - 1])
            },
            _ => before.push(incoming[n - 1]),
        }
    }
}

proof fn lemma_appended_are_incoming(
    target: Seq<DefinitionView>,
    incoming: Seq<DefinitionView>,
    n: nat,
)
    requires
        n <= incoming.len(),
    ensures
        forall|j: int|
            0 <= j < appended_upto(target, incoming, n).len() ==> incoming.take(n as int).contains(
                #[trigger] appended_upto(target, incoming, n)[j],
            ),
    decreases n,
{
    if n > 0 {
        lemma_appended_are_incoming(target, incoming, (n - 1) as nat);
        let before = appended_upto(target, incoming, (n - 1) as nat);
        let r = appended_upto(target, incoming, n);
        assert forall|j: int| 0 <= j < r.len() implies incoming.take(n as int).contains(
            #[trigger] r[j],
        ) by {
            if j < before.len() {
                let earlier = incoming.take(n - 1);
                assert(earlier.contains(before[j]));
                let i = choose|i: int| 0 <= i < earlier.len() && earlier[i] == before[j];
                assert(incoming.take(n as int)[i] == r[j]);
            } else {
                assert(incoming.take(n as int)[n - 1] == r[j]);
            }
        }
    }
}

/// Where no two incoming modules have the same name, what is new follows the
/// entries of the target as it came, in the order in which it came.
pub proof fn law_merging_appends_in_order(
    target: Seq<DefinitionView>,
    incoming: Seq<DefinitionView>,
    n: nat,
)
    requires
        n <= incoming.len(),
        modules_distinct(incoming),
    ensures
        merged_upto(target, incoming, n).skip(target.len() as int) == appended_upto(
            target,
            incoming,
            n,
        ),
    decreases n,
{
    let size = target.len() as int;
    let r = merged_upto(target, incoming, n);
    law_merging_keeps_entries_in_place(target, incoming, n);
    if n == 0 {
        assert(r.skip(size) =~= Seq::<DefinitionView>::empty());
    } else {
        law_merging_appends_in_order(target, incoming, (n - 1) as nat);
        law_merging_keeps_entries_in_place(target, incoming, (n - 1) as nat);
        let before = merged_upto(target, incoming, (n - 1) as nat);
        let d = incoming[n - 1];
        if let DefinitionView::ModuleDef(m) = d {
            let name = m.node.name;
            lemma_module_at(before, name, 0);
            lemma_module_at(target, name, 0);
            match module_at(target, name, 0) {
                Some(k) => {
                    assert(before[k as int] == with_contents(
                        target[k as int],
                        contents_of(before[k as int]),
                    ));
                    assert(is_module_named(before[k as int], name));
                    assert(r.skip(size) =~= before.skip(size));
                },
                None => {
                    if let Some(k) = module_at(before, name, 0) {
                        if k < target.len() {
                            assert(before[k as int] == with_contents(
                                target[k as int],
                                contents_of(before[k as int]),
                            ));
                            assert(is_module_named(target[k as int], name));
                        } else {
                            lemma_appended_are_incoming(target, incoming, (n - 1) as nat);
                            let e = before.skip(size)[k - size];
                            assert(e == before[k as int]);
                            let earlier = incoming.take(n - 1);
                            assert(earlier.contains(e));
                            let i = choose|i: int| 0 <= i < earlier.len() && earlier[i] == e;
                            assert(incoming[i] == e);
                        }
                        assert(false);
                    }
                    assert(r.skip(size) =~= before.skip(size).push(d));
                },
            }
        } else {
            assert(r.skip(size) =~= before.skip(size).push(d));
        }
    }
}

/// Merging combines modules at every level: where neither side has two modules of
/// the same name beside each other, at any depth, the result has none. It holds
/// every other definition of both sides under its path, as often as they did, and
/// no more. The entries of the target keep their places and annotations; what is
/// new follows them in the order in which it came.
pub proof fn law_merging_combines_modules_at_every_level(
    target: Seq<DefinitionView>,
    incoming: Seq<DefinitionView>,
    at: Path,
)
    requires
        all_distinct(target),
        all_distinct(incoming),
    ensures
        ({
            let merged = merged_upto(target, incoming, incoming.len());
            &&& all_distinct(merged)
            &&& leaves(merged, at) == leaves(target, at).add(leaves(incoming, at))
            &&& entries_kept(target, merged)
            &&& merged.skip(target.len() as int) == appended_upto(
                target,
                incoming,
                incoming.len(),
            )
        }),
{
    lemma_merging_keeps_depths_distinct(target, incoming, incoming.len());
    law_merging_keeps_every_definition(target, incoming, at, incoming.len());
    law_merging_keeps_entries_in_place(target, incoming, incoming.len());
    law_merging_appends_in_order(target, incoming, incoming.len());
}

/// The annotation by which the module at a place, if it has this name, names its key.
pub open spec fn key_named_at(
    defs: Seq<DefinitionView>,
    steps: Seq<int>,
    name: Text,
) -> Option<AnnotationView> {
    match found(defs, Seq::empty(), steps) {
        Some(f) => match f.def {
            DefinitionView::ModuleDef(m) => if m.node.name == name {
                first_named(m.annotations, "module_key"@)
            } else {
                None
            },
            _ => None,
        },
        None => None,
    }
}

/// Whether the module at a place is the first of its name that names a key.
spec fn is_first_key(
    defs: Seq<DefinitionView>,
    n: nat,
    steps: Seq<int>,
    name: Text,
    a: AnnotationView,
) -> bool {
    &&& steps.len() > 0
    &&& steps[0] < n
    &&& key_named_at(defs, steps, name) == Some(a)
    &&& forall|other: Seq<int>|
        #[trigger] key_named_at(defs, other, name) is Some ==> !earlier(other, steps)
}

proof fn lemma_found_def_anywhere(
    defs: Seq<DefinitionView>,
    a: Path,
    b: Path,
    steps: Seq<int>,
)
    ensures
        found(defs, a, steps) is Some <==> found(defs, b, steps) is Some,
        found(defs, a, steps) matches Some(f) ==> found(defs, b, steps).unwrap().def == f.def,
    decreases steps.len(),
{
    if steps.len() > 1 && 0 <= steps[0] < defs.len() {
        if let DefinitionView::ModuleDef(m) = defs[steps[0]] {
            lemma_found_def_anywhere(
                m.node.definitions,
                a.push(m.node.name),
                b.push(m.node.name),
                steps.drop_first(),
            );
        }
    }
}

proof fn lemma_key_named_inside(
    defs: Seq<DefinitionView>,
    i: int,
    rest: Seq<int>,
    name: Text,
)
    requires
        0 <= i < defs.len(),
        defs[i] is ModuleDef,
        rest.len() > 0,
    ensures
        key_named_at(defs, seq![i] + rest, name) == key_named_at(
            defs[i]->ModuleDef_0.node.definitions,
            rest,
            name,
        ),
{
    let m = defs[i]->ModuleDef_0;
    lemma_found_inside(defs, Seq::empty(), i, rest);
    lemma_found_def_anywhere(
        m.node.definitions,
        Seq::<Text>::empty().push(m.node.name),
        Seq::empty(),
        rest,
    );
}

proof fn lemma_key_for_one_more(keys: Seq<NamedKeyView>, k: NamedKeyView, name: Text, from: nat)
    requires
        from <= keys.len(),
    ensures
        key_for_from(keys.push(k), name, from) == match key_for_from(keys, name, from) {
            Some(a) => Some(a),
            None => if k.name == name {
                Some(k.annotation)
            } else {
                None
            },
        },
    decreases keys.len() - from,
{
    if from < keys.len() {
        assert(keys.push(k)[from as int] == keys[from as int]);
        lemma_key_for_one_more(keys, k, name, from + 1);
    } else {
        assert(keys.push(k)[from as int] == k);
        reveal_with_fuel(key_for_from, 2);
    }
}

proof fn lemma_first_key(keys: Seq<NamedKeyView>, defs: Seq<DefinitionView>, n: nat, name: Text)
    requires
        n <= defs.len(),
    ensures
        ({
            let r = key_for(keys_of_modules(keys, defs, n), name);
            match key_for(keys, name) {
                Some(a) => r == Some(a),
                None => match r {
                    Some(a) => exists|steps: Seq<int>| #[trigger]
                        is_first_key(defs, n, steps, name, a),
                    None => forall|steps: Seq<int>|
                        steps.len() > 0 && steps[0] < n ==> #[trigger] key_named_at(
                            defs,
                            steps,
                            name,
                        ) is None,
                },
            }
        }),
    decreases defs, n,
{
    let r = keys_of_modules(keys, defs, n);
    if n == 0 {
        assert forall|steps: Seq<int>| steps.len() > 0 && steps[0] < n implies #[trigger]
        key_named_at(defs, steps, name) is None by {}
    } else {
        let before = keys_of_modules(keys, defs, (n - 1) as nat);
        lemma_first_key(keys, defs, (n - 1) as nat, name);
        if let DefinitionView::ModuleDef(m) = defs[n - 1] {
            let entered = with_key(before, m.node.name, m.annotations);
            let inside = m.node.definitions;
            if let Some(a) = first_named(m.annotations, "module_key"@) {
                lemma_key_for_one_more(
                    before,
                    NamedKeyView { name: m.node.name, annotation: a },
                    name,
                    0,
                );
            }
            lemma_first_key(entered, inside, inside.len(), name);
            if key_for(keys, name) is None {
                if let Some(a) = key_for(before, name) {
                    let steps = choose|steps: Seq<int>| #[trigger]
                        is_first_key(defs, (n - 1) as nat, steps, name, a);
                    assert(is_first_key(defs, n, steps, name, a));
                } else if let Some(a) = key_for(entered, name) {
                    let steps = seq![n - 1];
                    assert(key_named_at(defs, steps, name) == Some(a));
                    assert forall|other: Seq<int>|
                        #[trigger] key_named_at(defs, other, name) is Some implies !earlier(
                        other,
                        steps,
                    ) by {
                        assert(other.len() > 0);
                    }
                    assert(is_first_key(defs, n, steps, name, a));
                } else if let Some(a) = key_for(r, name) {
                    let rest = choose|steps: Seq<int>| #[trigger]
                        is_first_key(inside, inside.len(), steps, name, a);
                    let steps = seq![n - 1] + rest;
                    lemma_key_named_inside(defs, n - 1, rest, name);
                    assert(steps.drop_first() =~= rest);
                    assert forall|other: Seq<int>|
                        #[trigger] key_named_at(defs, other, name) is Some implies !earlier(
                        other,
                        steps,
                    ) by {
                        assert(other.len() > 0);
                        if other[0] == n - 1 && other.len() > 1 {
                            let tail = other.drop_first();
                            assert(other =~= seq![n - 1] + tail);
                            lemma_key_named_inside(defs, n - 1, tail, name);
                        } else if other[0] == n - 1 {
                            assert(other =~= seq![n - 1]);
                        }
                    }
                    assert(is_first_key(defs, n, steps, name, a));
                } else {
                    assert forall|steps: Seq<int>| steps.len() > 0 && steps[0] < n implies #[trigger]
                    key_named_at(defs, steps, name) is None by {
                        if steps[0] == n - 1 && steps.len() > 1 {
                            let tail = steps.drop_first();
                            assert(steps =~= seq![n - 1] + tail);
                            lemma_key_named_inside(defs, n - 1, tail, name);
                            if tail[0] >= inside.len() {
                                assert(found(inside, Seq::empty(), tail) is None);
                            }
                        } else if steps[0] == n - 1 {
                            assert(steps =~= seq![n - 1]);
                        }
                    }
                }
            }
        } else {
            if key_for(keys, name) is None {
                if let Some(a) = key_for(before, name) {
                    let steps = choose|steps: Seq<int>| #[trigger]
                        is_first_key(defs, (n - 1) as nat, steps, name, a);
                    assert(is_first_key(defs, n, steps, name, a));
                } else {
                    assert forall|steps: Seq<int>| steps.len() > 0 && steps[0] < n implies #[trigger]
                    key_named_at(defs, steps, name) is None by {
                        if steps[0] == n - 1 && steps.len() == 1 {
                            assert(steps =~= seq![n - 1]);
                        }
                    }
                }
            }
        }
    }
}

/// Whether a definition is another one but for what modules in it are annotated with and hold.
pub open spec fn same_but_annotations(a: DefinitionView, b: DefinitionView) -> bool {
    match (a, b) {
        (DefinitionView::ModuleDef(x), DefinitionView::ModuleDef(y)) => {
            &&& x.node.name == y.node.name
            &&& x.comments == y.comments
            &&& x.id == y.id
            &&& x.node.definitions.len() == y.node.definitions.len()
        },
        _ => a == b,
    }
}

proof fn lemma_applied_len(keys: Seq<NamedKeyView>, defs: Seq<DefinitionView>, n: nat)
    requires
        n <= defs.len(),
    ensures
        applied_upto(keys, defs, n).len() == n,
    decreases n,
{
    if n > 0 {
        lemma_applied_len(keys, defs, (n - 1) as nat);
    }
}

proof fn lemma_applied_at(
    keys: Seq<NamedKeyView>,
    defs: Seq<DefinitionView>,
    at: Path,
    n: nat,
    steps: Seq<int>,
)
    requires
        n <= defs.len(),
        found(defs, at, steps) is Some,
        steps[0] < n,
    ensures
        ({
            let a = found(defs, at, steps).unwrap();
            let b = found(applied_upto(keys, defs, n), at, steps);
            &&& b is Some
            &&& b.unwrap().path == a.path
            &&& same_but_annotations(a.def, b.unwrap().def)
            &&& a.def matches DefinitionView::ModuleDef(m) ==> {
                b.unwrap().def->ModuleDef_0.annotations == annotated(
                    keys,
                    m.node.name,
                    m.annotations,
                )
            }
        }),
    decreases defs, n,
{
    let before = applied_upto(keys, defs, (n - 1) as nat);
    let r = applied_upto(keys, defs, n);
    lemma_applied_len(keys, defs, (n - 1) as nat);
    if steps[0] < n - 1 {
        lemma_applied_at(keys, defs, at, (n - 1) as nat, steps);
        lemma_found_push(before, r[n - 1], at, steps);
        assert(r == before.push(r[n - 1]));
    } else if steps.len() > 1 {
        let m = defs[n - 1]->ModuleDef_0;
        let inside = m.node.definitions;
        let below = at.push(m.node.name);
        let rest = steps.drop_first();
        assert(found(inside, below, rest) is Some);
        lemma_applied_at(keys, inside, below, inside.len(), rest);
        assert(found(r, at, steps) == found(applied_upto(keys, inside, inside.len()), below, rest));
    } else if let DefinitionView::ModuleDef(m) = defs[n - 1] {
        lemma_applied_len(keys, m.node.definitions, m.node.definitions.len());
    }
}

/// Sharing keys leaves everything in its place. A module that names a key stays as it is
/// annotated; one that names none takes over the annotation of the first module of the same
/// name, at any depth, that names one, and stays as it is annotated where there is none.
pub proof fn law_modules_take_over_the_first_key(defs: Seq<DefinitionView>, steps: Seq<int>)
    requires
        found(defs, Seq::empty(), steps) is Some,
    ensures
        ({
            let a = found(defs, Seq::empty(), steps).unwrap();
            let b = found(propagated(defs), Seq::empty(), steps);
            &&& b is Some
            &&& b.unwrap().path == a.path
            &&& same_but_annotations(a.def, b.unwrap().def)
            &&& a.def matches DefinitionView::ModuleDef(m) ==> {
                let after = b.unwrap().def->ModuleDef_0.annotations;
                if first_named(m.annotations, "module_key"@) is Some {
                    after == m.annotations
                } else if exists|other: Seq<int>| #[trigger]
                    key_named_at(defs, other, m.node.name) is Some {
                    exists|other: Seq<int>|
                        #[trigger] key_named_at(defs, other, m.node.name) is Some && after
                            == m.annotations.push(
                            key_named_at(defs, other, m.node.name).unwrap(),
                        ) && forall|t: Seq<int>|
                            #[trigger] key_named_at(defs, t, m.node.name) is Some ==> !earlier(
                                t,
                                other,
                            )
                } else {
                    after == m.annotations
                }
            }
        }),
{
    let keys = keys_of_modules(Seq::empty(), defs, defs.len());
    lemma_applied_at(keys, defs, Seq::empty(), defs.len(), steps);
    if let DefinitionView::ModuleDef(m) = found(defs, Seq::empty(), steps).unwrap().def {
        lemma_first_key(Seq::empty(), defs, defs.len(), m.node.name);
        if let Some(a) = key_for(keys, m.node.name) {
            let other = choose|other: Seq<int>| #[trigger]
                is_first_key(defs, defs.len(), other, m.node.name, a);
            assert(key_named_at(defs, other, m.node.name) == Some(a));
        } else {
            assert forall|other: Seq<int>| #[trigger]
                key_named_at(defs, other, m.node.name) is None by {
                if other.len() > 0 && other[0] >= defs.len() {
                    assert(found(defs, Seq::empty(), other) is None);
                }
            }
        }
    }
}

/// What stands somewhere and is no module is among the leaves.
pub proof fn lemma_found_is_leaf(
    defs: Seq<DefinitionView>,
    at: Path,
    n: nat,
    steps: Seq<int>,
)
    requires
        n <= defs.len(),
        found(defs, at, steps) matches Some(f) && !(f.def is ModuleDef),
        steps[0] < n,
    ensures
        ({
            let f = found(defs, at, steps).unwrap();
            leaves_upto(defs, at, n).count(Leaf { path: f.path, def: f.def }) > 0
        }),
    decreases defs, n,
{
    broadcast use vstd::multiset::group_multiset_axioms;

    if steps[0] < n - 1 {
        lemma_found_is_leaf(defs, at, (n - 1) as nat, steps);
    } else if steps.len() > 1 {
        let m = defs[n - 1]->ModuleDef_0;
        let rest = steps.drop_first();
        assert(found(m.node.definitions, at.push(m.node.name), rest) == found(defs, at, steps));
        lemma_found_is_leaf(
            m.node.definitions,
            at.push(m.node.name),
            m.node.definitions.len(),
            rest,
        );
    }
}

/// What is among the leaves stands somewhere.
pub proof fn lemma_leaf_is_found(defs: Seq<DefinitionView>, at: Path, n: nat, leaf: Leaf)
    requires
        n <= defs.len(),
        leaves_upto(defs, at, n).count(leaf) > 0,
    ensures
        !(leaf.def is ModuleDef),
        exists|steps: Seq<int>| #[trigger]
            found(defs, at, steps) == Some(Found { path: leaf.path, def: leaf.def }),
    decreases defs, n,
{
    broadcast use vstd::multiset::group_multiset_axioms;

    if n > 0 {
        if leaves_upto(defs, at, (n - 1) as nat).count(leaf) > 0 {
            lemma_leaf_is_found(defs, at, (n - 1) as nat, leaf);
        } else {
            match defs[n - 1] {
                DefinitionView::ModuleDef(m) => {
                    let inside = m.node.definitions;
                    let below = at.push(m.node.name);
                    lemma_leaf_is_found(inside, below, inside.len(), leaf);
                    let rest = choose|steps: Seq<int>| #[trigger]
                        found(inside, below, steps) == Some(
                            Found { path: leaf.path, def: leaf.def },
                        );
                    lemma_found_inside(defs, at, n - 1, rest);
                    assert(found(defs, at, seq![n - 1] + rest) == Some(
                        Found { path: leaf.path, def: leaf.def },
                    ));
                },
                _ => {
                    assert(leaf == Leaf { path: at, def: defs[n - 1] });
                    assert(found(defs, at, seq![n - 1]) == Some(
                        Found { path: leaf.path, def: leaf.def },
                    ));
                },
            }
        }
    }
}

proof fn lemma_module_at_is_unique(defs: Seq<DefinitionView>, name: Text, k: int)
    requires
        modules_distinct(defs),
        0 <= k < defs.len(),
        is_module_named(defs[k], name),
    ensures
        module_at(defs, name, 0) == Some(k as nat),
{
    lemma_module_at(defs, name, 0);
}

proof fn lemma_merged_module(
    target: Seq<DefinitionView>,
    incoming: Seq<DefinitionView>,
    n: nat,
    k: int,
    name: Text,
)
    requires
        modules_distinct(target),
        modules_distinct(incoming),
        n <= incoming.len(),
        0 <= k < target.len(),
        is_module_named(target[k], name),
    ensures
        ({
            let merged = merged_upto(target, incoming, n);
            &&& k < merged.len()
            &&& is_module_named(merged[k], name)
            &&& forall|j: int|
                0 <= j < n && is_module_named(#[trigger] incoming[j], name) ==> contents_of(
                    merged[k],
                ) == merged_upto(
                    contents_of(target[k]),
                    contents_of(incoming[j]),
                    contents_of(incoming[j]).len(),
                )
            &&& (forall|j: int| 0 <= j < n ==> !is_module_named(#[trigger] incoming[j], name))
                ==> merged[k] == target[k]
        }),
    decreases n,
{
    if n > 0 {
        let before = merged_upto(target, incoming, (n - 1) as nat);
        let merged = merged_upto(target, incoming, n);
        lemma_merged_module(target, incoming, (n - 1) as nat, k, name);
        law_merging_keeps_modules_distinct(target, incoming, (n - 1) as nat);
        if let DefinitionView::ModuleDef(m) = incoming[n - 1] {
            lemma_module_at(before, m.node.name, 0);
            if m.node.name == name {
                assert(is_module_named(incoming[n - 1], name));
                lemma_module_at_is_unique(before, name, k);
                assert forall|j: int| 0 <= j < n - 1 implies !is_module_named(
                    #[trigger] incoming[j],
                    name,
                ) by {
                    assert(incoming[n - 1] is ModuleDef);
                }
                assert(before[k] == target[k]);
            } else {
                assert(!is_module_named(incoming[n - 1], name));
                assert(merged[k] == before[k]);
            }
        } else {
            assert(!is_module_named(incoming[n - 1], name));
            assert(merged[k] == before[k]);
        }
    }
}

/// Merging goes down to every level in the same way: a module that both sides have holds
/// afterwards what merging its two contents gives, and one that only the first side has is
/// left as it is.
pub proof fn law_merging_merges_what_modules_hold(
    target: Seq<DefinitionView>,
    incoming: Seq<DefinitionView>,
    k: int,
    name: Text,
)
    requires
        modules_distinct(target),
        modules_distinct(incoming),
        0 <= k < target.len(),
        is_module_named(target[k], name),
    ensures
        ({
            let merged = merged_upto(target, incoming, incoming.len());
            &&& k < merged.len()
            &&& is_module_named(merged[k], name)
            &&& forall|j: int|
                0 <= j < incoming.len() && is_module_named(#[trigger] incoming[j], name)
                    ==> contents_of(merged[k]) == merged_upto(
                    contents_of(target[k]),
                    contents_of(incoming[j]),
                    contents_of(incoming[j]).len(),
                )
            &&& (forall|j: int|
                0 <= j < incoming.len() ==> !is_module_named(#[trigger] incoming[j], name))
                ==> merged[k] == target[k]
        }),
{
    lemma_merged_module(target, incoming, incoming.len(), k, name);
}

} // verus!
