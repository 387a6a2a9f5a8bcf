//! Enumerations in TypeScript.
use vstd::prelude::*;
use crate::ast::{Commented, ConstValue, ConstView, EnumDef, EnumMemberView};
use crate::concat::{lemma_occurs, lemma_occurs_in_sum, occurs, Text};
use crate::numerals::{signed_decimal, signed_decimal_text};
use crate::text::{joined, owned};

verus! {

broadcast use {crate::concat::group_append, crate::concat::group_views};

/// The number after a number, from the largest back to the smallest.
pub open spec fn successor(n: i128) -> i128 {
    if n == i128::MAX {
        i128::MIN
    } else {
        (n + 1) as i128
    }
}

/// The value of a member: its own where it is a number, else `implicit`.
pub open spec fn member_value(member: EnumMemberView, implicit: i128) -> i128 {
    match member.value {
        Some(ConstView::Integer(lit)) => lit.value,
        Some(ConstView::Binary { value, id }) => value,
        _ => implicit,
    }
}

/// The value that a member takes where it has none of its own: one more than
/// that of the member before it, zero for the first.
pub open spec fn implicit_value(members: Seq<EnumMemberView>, i: nat) -> i128
    decreases i,
{
    if i == 0 {
        0
    } else {
        successor(member_value(members[i - 1], implicit_value(members, (i - 1) as nat)))
    }
}

/// The lines of the first `n` members.
pub open spec fn member_lines(members: Seq<EnumMemberView>, n: nat) -> Text
    decreases n,
{
    if n == 0 {
        Seq::empty()
    } else {
        member_lines(members, (n - 1) as nat) + "  "@ + members[n - 1].name + " = "@
            + signed_decimal(
            member_value(members[n - 1], implicit_value(members, (n - 1) as nat)) as int,
        ) + ",\n"@
    }
}

/// The declaration of an enumeration under `name`.
pub open spec fn enum_text(name: Text, members: Seq<EnumMemberView>) -> Text {
    "export enum "@ + name + " {\n"@ + member_lines(members, members.len()) + "}\n"@
}

fn value_after(n: i128) -> (r: i128)
    ensures
        r == successor(n),
{
    if n == i128::MAX {
        i128::MIN
    } else {
        n + 1
    }
}

/// Declares an enumeration under `name` with the value of every member.
pub fn emit_enum(name: &str, enum_def: &Commented<EnumDef>) -> (r: String)
    ensures
        r@ == enum_text(name@, enum_def@.node.enumerators),
{
    let ghost members = enum_def@.node.enumerators;
    let mut out = owned("export enum ");
    out.push_str(name);
    out.push_str(" {\n");
    let ghost head = out@;
    let mut next_implicit: i128 = 0;
    for i in 0..enum_def.node.enumerators.len()
        invariant
            members == enum_def@.node.enumerators,
            next_implicit == implicit_value(members, i as nat),
            out@ == head + member_lines(members, i as nat),
    {
        let member = &enum_def.node.enumerators[i];
        assert(members[i as int] == member@);
        let value: i128 = match &member.value {
            Some(ConstValue::Integer(lit)) => lit.value,
            Some(ConstValue::Binary { value, id: _ }) => *value,
            _ => next_implicit,
        };
        next_implicit = value_after(value);
        out.push_str("  ");
        out.push_str(member.name.as_str());
        out.push_str(" = ");
        out.push_str(signed_decimal_text(value).as_str());
        out.push_str(",\n");
    }
    out.push_str("}\n");
    out
}

/// A member without a value follows the member before it.
pub proof fn law_implicit_values_count_up(members: Seq<EnumMemberView>, i: nat)
    requires
        0 < i < members.len(),
        !(members[i as int].value matches Some(ConstView::Integer(_))),
        !(members[i as int].value matches Some(ConstView::Binary { value, id })),
    ensures
        member_value(members[i as int], implicit_value(members, i)) == successor(
            member_value(members[i - 1], implicit_value(members, (i - 1) as nat)),
        ),
{
}

proof fn lemma_member_line(members: Seq<EnumMemberView>, n: nat, i: int)
    requires
        0 <= i < n <= members.len(),
    ensures
        occurs(
            member_lines(members, n),
            "  "@ + members[i].name + " = "@ + signed_decimal(
                member_value(members[i], implicit_value(members, i as nat)) as int,
            ) + ",\n"@,
        ),
    decreases n,
{
    broadcast use lemma_occurs_in_sum;

    let line = "  "@ + members[i].name + " = "@ + signed_decimal(
        member_value(members[i], implicit_value(members, i as nat)) as int,
    ) + ",\n"@;
    if i < n - 1 {
        lemma_member_line(members, (n - 1) as nat, i);
    } else {
        let before = member_lines(members, (n - 1) as nat);
        assert(member_lines(members, n) == before + line + Seq::<char>::empty());
        lemma_occurs(before, line, Seq::empty());
    }
}

/// An enumeration is declared under its name, with one line for each of its members. A member
/// has the value that it is given, and otherwise zero where it comes first and one more than
/// the member before it where it does not.
pub proof fn law_members_have_their_values(name: Text, members: Seq<EnumMemberView>, i: int)
    requires
        0 <= i < members.len(),
    ensures
        exists|value: int, lines: Text| #[trigger]
            occurs(lines, "  "@ + members[i].name + " = "@ + signed_decimal(value) + ",\n"@)
                && enum_text(name, members) == "export enum "@ + name + " {\n"@ + lines + "}\n"@
                && value == member_value(members[i], implicit_value(members, i as nat)) && match members[i].value {
                Some(ConstView::Integer(lit)) => value == lit.value,
                Some(ConstView::Binary { value: given, id }) => value == given,
                _ => if i == 0 {
                    value == 0
                } else {
                    let last = member_value(members[i - 1], implicit_value(members, (i - 1) as nat));
                    value == if last == i128::MAX {
                        i128::MIN as int
                    } else {
                        last + 1
                    }
                },
            },
{
    let value = member_value(members[i], implicit_value(members, i as nat)) as int;
    let lines = member_lines(members, members.len());
    lemma_member_line(members, members.len(), i);
    assert(occurs(lines, "  "@ + members[i].name + " = "@ + signed_decimal(value) + ",\n"@));
}

/// The line of a member.
pub open spec fn member_line(members: Seq<EnumMemberView>, i: int) -> Text {
    "  "@ + members[i].name + " = "@ + signed_decimal(
        member_value(members[i], implicit_value(members, i as nat)) as int,
    ) + ",\n"@
}

proof fn lemma_members_are_joined(members: Seq<EnumMemberView>, n: nat)
    requires
        n <= members.len(),
    ensures
        member_lines(members, n) == joined(
            Seq::new(n, |i: int| member_line(members, i)),
            ""@,
        ),
    decreases n,
{
    broadcast use crate::concat::group_append;

    reveal_strlit("");
    assert(""@ =~= Seq::<char>::empty());
    if n > 0 {
        lemma_members_are_joined(members, (n - 1) as nat);
        let parts = Seq::new(n, |i: int| member_line(members, i));
        assert(parts.drop_last() =~= Seq::new(
            (n - 1) as nat,
            |i: int| member_line(members, i),
        ));
        assert(parts.last() == member_line(members, n - 1));
    }
}

/// An enumeration is declared with the lines of its members, in declared order, and with
/// nothing else.
pub proof fn law_enumerations_hold_their_members_only(name: Text, members: Seq<EnumMemberView>)
    ensures
        enum_text(name, members) == "export enum "@ + name + " {\n"@ + joined(
            Seq::new(members.len(), |i: int| member_line(members, i)),
            ""@,
        ) + "}\n"@,
{
    lemma_members_are_joined(members, members.len());
}

} // verus!
