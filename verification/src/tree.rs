//! What trees of definitions hold.
use vstd::prelude::*;
use crate::ast::DefinitionView;
use crate::concat::Path;

verus! {

/// A definition, and the names of the modules that it stands in, the outermost
/// first.
pub struct Found {
    pub path: Path,
    pub def: DefinitionView,
}

/// What stands at a place among definitions that stand at `at`. The first step
/// picks one of the definitions; each step after it picks one of those in the
/// module that the step before led to.
pub open spec fn found(defs: Seq<DefinitionView>, at: Path, steps: Seq<int>) -> Option<Found>
    decreases steps.len(),
{
    if steps.len() == 0 || !(0 <= steps[0] < defs.len()) {
        None
    } else if steps.len() == 1 {
        Some(Found { path: at, def: defs[steps[0]] })
    } else {
        match defs[steps[0]] {
            DefinitionView::ModuleDef(m) => found(
                m.node.definitions,
                at.push(m.node.name),
                steps.drop_first(),
            ),
            _ => None,
        }
    }
}

/// Whether one place comes before another in the order of the source; a module comes
/// before what stands in it.
pub open spec fn earlier(a: Seq<int>, b: Seq<int>) -> bool
    decreases a.len(),
{
    if a.len() == 0 || b.len() == 0 {
        false
    } else if a[0] != b[0] {
        a[0] < b[0]
    } else if a.len() == 1 {
        b.len() > 1
    } else {
        b.len() > 1 && earlier(a.drop_first(), b.drop_first())
    }
}

/// What stands in a module stands one step further from outside.
pub proof fn lemma_found_inside(
    defs: Seq<DefinitionView>,
    at: Path,
    i: int,
    inner: Seq<int>,
)
    requires
        0 <= i < defs.len(),
        inner.len() > 0,
        defs[i] is ModuleDef,
    ensures
        found(defs, at, seq![i] + inner) == found(
            defs[i]->ModuleDef_0.node.definitions,
            at.push(defs[i]->ModuleDef_0.node.name),
            inner,
        ),
{
    assert((seq![i] + inner).drop_first() =~= inner);
}

/// One more definition at the end moves nothing.
pub proof fn lemma_found_push(
    defs: Seq<DefinitionView>,
    d: DefinitionView,
    at: Path,
    steps: Seq<int>,
)
    requires
        steps.len() > 0,
        steps[0] < defs.len(),
    ensures
        found(defs.push(d), at, steps) == found(defs, at, steps),
{
    if 0 <= steps[0] {
        assert(defs.push(d)[steps[0]] == defs[steps[0]]);
    }
}

/// How many of the first `n` definitions are messages.
pub open spec fn direct_count(defs: Seq<DefinitionView>, n: nat) -> nat
    decreases n,
{
    if n == 0 || n > defs.len() {
        0
    } else {
        direct_count(defs, (n - 1) as nat) + if defs[n - 1] is MessageDef {
            1nat
        } else {
            0
        }
    }
}

/// How many messages the modules among the first `n` definitions hold.
pub open spec fn nested_count(defs: Seq<DefinitionView>, n: nat) -> nat
    decreases defs, n,
{
    if n == 0 || n > defs.len() {
        0
    } else {
        nested_count(defs, (n - 1) as nat) + match defs[n - 1] {
            DefinitionView::ModuleDef(m) => message_count(m.node.definitions),
            _ => 0,
        }
    }
}

/// How many messages the definitions hold, at any depth.
pub open spec fn message_count(defs: Seq<DefinitionView>) -> nat
    decreases defs, defs.len() + 1,
{
    nested_count(defs, defs.len()) + direct_count(defs, defs.len())
}

/// How many messages a definition is or holds.
pub open spec fn weight(d: DefinitionView) -> nat {
    match d {
        DefinitionView::MessageDef(_) => 1,
        DefinitionView::ModuleDef(m) => message_count(m.node.definitions),
        _ => 0,
    }
}

/// How many messages the first `n` definitions are or hold.
pub open spec fn messages_upto(defs: Seq<DefinitionView>, n: nat) -> nat {
    nested_count(defs, n) + direct_count(defs, n)
}

/// How many messages come before a place in the order of the source.
pub open spec fn messages_before(defs: Seq<DefinitionView>, steps: Seq<int>) -> nat
    decreases steps.len(),
{
    if steps.len() == 0 || !(0 <= steps[0] < defs.len()) {
        0
    } else {
        messages_upto(defs, steps[0] as nat) + match defs[steps[0]] {
            DefinitionView::ModuleDef(m) => messages_before(
                m.node.definitions,
                steps.drop_first(),
            ),
            _ => 0,
        }
    }
}

/// How many of the first `n` definitions are enumerations.
pub open spec fn direct_enum_count(defs: Seq<DefinitionView>, n: nat) -> nat
    decreases n,
{
    if n == 0 || n > defs.len() {
        0
    } else {
        direct_enum_count(defs, (n - 1) as nat) + if defs[n - 1] is EnumDef {
            1nat
        } else {
            0
        }
    }
}

/// How many enumerations the modules among the first `n` definitions hold.
pub open spec fn nested_enum_count(defs: Seq<DefinitionView>, n: nat) -> nat
    decreases defs, n,
{
    if n == 0 || n > defs.len() {
        0
    } else {
        nested_enum_count(defs, (n - 1) as nat) + match defs[n - 1] {
            DefinitionView::ModuleDef(m) => enum_count(m.node.definitions),
            _ => 0,
        }
    }
}

/// How many enumerations the definitions hold, at any depth.
pub open spec fn enum_count(defs: Seq<DefinitionView>) -> nat
    decreases defs, defs.len() + 1,
{
    nested_enum_count(defs, defs.len()) + direct_enum_count(defs, defs.len())
}

proof fn lemma_count_prefix(a: Seq<DefinitionView>, b: Seq<DefinitionView>, n: nat)
    requires
        n <= a.len(),
        n <= b.len(),
        forall|k: int| 0 <= k < n ==> #[trigger] a[k] == b[k],
    ensures
        nested_count(a, n) == nested_count(b, n),
        direct_count(a, n) == direct_count(b, n),
    decreases n,
{
    if n > 0 {
        lemma_count_prefix(a, b, (n - 1) as nat);
        assert(a[n - 1] == b[n - 1]);
    }
}

/// One more definition adds what it is or holds.
pub proof fn lemma_count_push(defs: Seq<DefinitionView>, d: DefinitionView)
    ensures
        message_count(defs.push(d)) == message_count(defs) + weight(d),
{
    lemma_count_prefix(defs.push(d), defs, defs.len());
    assert(defs.push(d)[defs.len() as int] == d);
    reveal_with_fuel(nested_count, 2);
    reveal_with_fuel(direct_count, 2);
}

proof fn lemma_count_update_upto(
    defs: Seq<DefinitionView>,
    i: int,
    d: DefinitionView,
    n: nat,
)
    requires
        0 <= i < n <= defs.len(),
    ensures
        nested_count(defs.update(i, d), n) + direct_count(defs.update(i, d), n) + weight(defs[i])
            == nested_count(defs, n) + direct_count(defs, n) + weight(d),
    decreases n,
{
    if i == n - 1 {
        lemma_count_prefix(defs.update(i, d), defs, (n - 1) as nat);
    } else {
        lemma_count_update_upto(defs, i, d, (n - 1) as nat);
    }
}

/// Replacing a definition replaces what it is or holds.
pub proof fn lemma_count_update(defs: Seq<DefinitionView>, i: int, d: DefinitionView)
    requires
        0 <= i < defs.len(),
    ensures
        message_count(defs.update(i, d)) + weight(defs[i]) == message_count(defs) + weight(d),
{
    lemma_count_update_upto(defs, i, d, defs.len());
}

} // verus!
