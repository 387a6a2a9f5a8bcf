//! The lines that the two files hold for every message.
use vstd::prelude::*;
use crate::c::context::ContextView;
use crate::c::functions::{macro_stem, member_stem};
use crate::c::macros::{
    byte_counts_upto, element_bytes, ending, field_macros, field_masks, field_token, fields_macros,
    header_macros, key_literal, key_macro_name, mask_macro, masks_upto, message_macros,
    number_macro, screaming_segments, sub_macros, sub_masks, sub_number, sub_token, Numbering,
};
use crate::c::model::{
    ElementView, EnumView, FieldKindView, FieldView, MessageView, StructFieldView,
};
use crate::c::names::screaming;
use crate::c::prototypes::{enum_declaration, enum_values};
use crate::c::render::{
    byte_count_lines, enum_declarations, header_text, key_macros, key_names, length_lines,
    lines_text, mask_lines, numbering_lines, source_macros, source_text, summary_lines,
    topic_declarations, topic_lines, topic_names,
};
use crate::c::tables::{storage, stored_size, Enums};
use crate::c::topic::topic_literal;
use crate::concat::{group_append, lemma_occurs, lemma_occurs_in_sum, occurs, Text};
use crate::numerals::decimal;
use crate::order::{
    distinct_lines, law_distinct_lines_keep_every_line, law_order_is_sorted_and_stable,
    law_sorting_keeps_every_line, positions, sorted_lines, stable_order,
};
use crate::text::joined;

verus! {

/// Whether a text holds a line.
pub open spec fn has_line(text: Text, line: Text) -> bool {
    occurs(text, line + "\n"@)
}

/// The line that gives a name to a number.
pub open spec fn numbered(name: Text, n: nat) -> Text {
    "#define "@ + name + " ("@ + decimal(n) + ")"@
}

proof fn lemma_line_in_text(lines: Seq<Text>, n: nat, k: int)
    requires
        0 <= k < n <= lines.len(),
    ensures
        has_line(lines_text(lines, n), lines[k]),
    decreases n,
{
    broadcast use {group_append, lemma_occurs_in_sum};

    if k < n - 1 {
        lemma_line_in_text(lines, (n - 1) as nat, k);
    } else {
        lemma_occurs(lines_text(lines, (n - 1) as nat), lines[k] + "\n"@, Seq::empty());
    }
}

proof fn lemma_distinct_line(lines: Seq<Text>, line: Text)
    requires
        lines.contains(line),
    ensures
        has_line(lines_text(distinct_lines(lines), distinct_lines(lines).len()), line),
{
    law_distinct_lines_keep_every_line(lines);
    let all = distinct_lines(lines);
    assert(all.contains(line));
    let k = choose|k: int| 0 <= k < all.len() && all[k] == line;
    lemma_line_in_text(all, all.len(), k);
}

proof fn lemma_sorted_line(lines: Seq<Text>, line: Text)
    requires
        lines.contains(line),
    ensures
        sorted_lines(lines).contains(line),
        has_line(lines_text(sorted_lines(lines), sorted_lines(lines).len()), line),
{
    broadcast use vstd::seq_lib::group_to_multiset_ensures;

    law_sorting_keeps_every_line(lines);
    let all = sorted_lines(lines);
    assert(lines.to_multiset().contains(line));
    assert(all.contains(line));
    let k = choose|k: int| 0 <= k < all.len() && all[k] == line;
    lemma_line_in_text(all, all.len(), k);
}

proof fn lemma_contains_sum(a: Seq<Text>, b: Seq<Text>, line: Text)
    requires
        a.contains(line) || b.contains(line),
    ensures
        (a + b).contains(line),
{
    if a.contains(line) {
        let k = choose|k: int| 0 <= k < a.len() && a[k] == line;
        assert((a + b)[k] == line);
    } else {
        let k = choose|k: int| 0 <= k < b.len() && b[k] == line;
        assert((a + b)[a.len() + k] == line);
    }
}

proof fn lemma_numbering_line(messages: Seq<MessageView>, kind: Numbering, n: nat, i: int, line: Text)
    requires
        0 <= i < n <= messages.len(),
        message_macros(messages[i], kind).contains(line),
    ensures
        numbering_lines(messages, kind, n).contains(line),
    decreases n,
{
    if i < n - 1 {
        lemma_numbering_line(messages, kind, (n - 1) as nat, i, line);
    }
    lemma_contains_sum(
        numbering_lines(messages, kind, (n - 1) as nat),
        message_macros(messages[n - 1], kind),
        line,
    );
}

proof fn lemma_macro_in_source(c: ContextView, i: int, kind: Numbering, line: Text)
    requires
        0 <= i < c.messages.len(),
        message_macros(c.messages[i], kind).contains(line),
    ensures
        has_line(source_text(c), line),
{
    let n = c.messages.len();
    lemma_numbering_line(c.messages, kind, n, i, line);
    lemma_distinct_line(numbering_lines(c.messages, kind, n), line);
    assert(occurs(source_macros(c.tables.enums, c.messages), line + "\n"@)) by {
        broadcast use lemma_occurs_in_sum;

        reveal(source_macros);
    }
    lemma_from_macros(c, line);
}

proof fn lemma_from_macros(c: ContextView, line: Text)
    requires
        occurs(source_macros(c.tables.enums, c.messages), line + "\n"@),
    ensures
        has_line(source_text(c), line),
{
    broadcast use lemma_occurs_in_sum;

    reveal(source_text);
}

proof fn lemma_field_line(m: MessageView, kind: Numbering, n: nat, j: int, line: Text)
    requires
        0 <= j < n <= m.fields.len(),
        field_macros(m, m.fields[j], kind).contains(line),
    ensures
        fields_macros(m, kind, n).contains(line),
    decreases n,
{
    if j < n - 1 {
        lemma_field_line(m, kind, (n - 1) as nat, j, line);
    }
    lemma_contains_sum(
        fields_macros(m, kind, (n - 1) as nat),
        field_macros(m, m.fields[n - 1], kind),
        line,
    );
}

proof fn lemma_field_in_source(c: ContextView, i: int, j: int, kind: Numbering, line: Text)
    requires
        0 <= i < c.messages.len(),
        0 <= j < c.messages[i].fields.len(),
        field_macros(c.messages[i], c.messages[i].fields[j], kind).contains(line),
    ensures
        has_line(source_text(c), line),
{
    let m = c.messages[i];
    lemma_field_line(m, kind, m.fields.len(), j, line);
    lemma_contains_sum(header_macros(m, kind), fields_macros(m, kind, m.fields.len()), line);
    lemma_macro_in_source(c, i, kind, line);
}

proof fn lemma_sub_line(
    m: MessageView,
    f: FieldView,
    subs: Seq<StructFieldView>,
    kind: Numbering,
    n: nat,
    k: int,
)
    requires
        0 <= k < n <= subs.len(),
    ensures
        sub_macros(m, f, subs, kind, n).len() == n,
        sub_macros(m, f, subs, kind, n)[k] == number_macro(
            sub_token(m, f, subs[k]) + ending(kind),
            sub_number(f, subs[k], kind),
        ),
    decreases n,
{
    if k < n - 1 {
        lemma_sub_line(m, f, subs, kind, (n - 1) as nat, k);
    } else if n > 1 {
        lemma_sub_line(m, f, subs, kind, (n - 1) as nat, 0);
    } else {
        reveal_with_fuel(sub_macros, 2);
    }
}

/// The source names, for every field, its offset and its ordinal. A sequence has both for its
/// header; each member of a structure in a sequence has its offset within the element, and the
/// elements of any other sequence begin at their start; all of them have the ordinal of the
/// sequence.
pub proof fn law_offsets_and_ordinals_are_named(c: ContextView, i: int, j: int, k: int)
    requires
        0 <= i < c.messages.len(),
        0 <= j < c.messages[i].fields.len(),
    ensures
        ({
            let m = c.messages[i];
            let f = m.fields[j];
            let source = source_text(c);
            let stem = macro_stem(m, f);
            match f.kind {
                FieldKindView::Scalar(_) => {
                    &&& has_line(source, numbered(stem + "_INDEX"@, f.offset))
                    &&& has_line(source, numbered(stem + "_ORDINAL"@, f.ordinal as nat))
                },
                FieldKindView::Sequence(element) => {
                    &&& has_line(source, numbered(stem + "_PLACEHOLDER"@ + "_INDEX"@, f.offset))
                    &&& has_line(
                        source,
                        numbered(stem + "_PLACEHOLDER"@ + "_ORDINAL"@, f.ordinal as nat),
                    )
                    &&& match element {
                        ElementView::Primitive(_) => {
                            &&& has_line(source, numbered(stem + "_INDEX"@, 0))
                            &&& has_line(
                                source,
                                numbered(stem + "_DATA"@ + "_ORDINAL"@, f.ordinal as nat),
                            )
                        },
                        ElementView::Struct(s) => 0 <= k < s.fields.len() ==> {
                            let member = member_stem(m, f, s.fields[k]);
                            &&& has_line(source, numbered(member + "_INDEX"@, s.fields[k].offset))
                            &&& has_line(
                                source,
                                numbered(member + "_ORDINAL"@, f.ordinal as nat),
                            )
                        },
                    }
                },
            }
        }),
{
    let m = c.messages[i];
    let f = m.fields[j];
    let stem = macro_stem(m, f);
    let by_index = field_macros(m, f, Numbering::Index);
    let by_ordinal = field_macros(m, f, Numbering::Ordinal);
    match f.kind {
        FieldKindView::Scalar(_) => {
            assert(by_index[0] == numbered(stem + "_INDEX"@, f.offset));
            assert(by_ordinal[0] == numbered(stem + "_ORDINAL"@, f.ordinal as nat));
            lemma_field_in_source(c, i, j, Numbering::Index, by_index[0]);
            lemma_field_in_source(c, i, j, Numbering::Ordinal, by_ordinal[0]);
        },
        FieldKindView::Sequence(element) => {
            assert(by_index[0] == numbered(stem + "_PLACEHOLDER"@ + "_INDEX"@, f.offset));
            assert(by_ordinal[0] == numbered(
                stem + "_PLACEHOLDER"@ + "_ORDINAL"@,
                f.ordinal as nat,
            ));
            lemma_field_in_source(c, i, j, Numbering::Index, by_index[0]);
            lemma_field_in_source(c, i, j, Numbering::Ordinal, by_ordinal[0]);
            match element {
                ElementView::Primitive(_) => {
                    assert(by_index[1] == numbered(stem + "_INDEX"@, 0));
                    assert(by_ordinal[1] == numbered(
                        stem + "_DATA"@ + "_ORDINAL"@,
                        f.ordinal as nat,
                    ));
                    lemma_field_in_source(c, i, j, Numbering::Index, by_index[1]);
                    lemma_field_in_source(c, i, j, Numbering::Ordinal, by_ordinal[1]);
                },
                ElementView::Struct(s) => {
                    if 0 <= k < s.fields.len() {
                        let member = member_stem(m, f, s.fields[k]);
                        lemma_sub_line(m, f, s.fields, Numbering::Index, s.fields.len(), k);
                        lemma_sub_line(m, f, s.fields, Numbering::Ordinal, s.fields.len(), k);
                        assert(by_index[1 + k] == numbered(
                            member + "_INDEX"@,
                            s.fields[k].offset,
                        ));
                        assert(by_ordinal[1 + k] == numbered(
                            member + "_ORDINAL"@,
                            f.ordinal as nat,
                        ));
                        lemma_field_in_source(c, i, j, Numbering::Index, by_index[1 + k]);
                        lemma_field_in_source(c, i, j, Numbering::Ordinal, by_ordinal[1 + k]);
                    }
                },
            }
        },
    }
}

proof fn lemma_header_line(c: ContextView, i: int, kind: Numbering, k: int)
    requires
        0 <= i < c.messages.len(),
        0 <= k < 3,
    ensures
        has_line(source_text(c), header_macros(c.messages[i], kind)[k]),
{
    let m = c.messages[i];
    let line = header_macros(m, kind)[k];
    lemma_contains_sum(header_macros(m, kind), fields_macros(m, kind, m.fields.len()), line);
    lemma_macro_in_source(c, i, kind, line);
}

proof fn lemma_summary(messages: Seq<MessageView>, n: nat, i: int)
    requires
        0 <= i < n <= messages.len(),
    ensures
        summary_lines(messages, n).len() == 2 * n,
        summary_lines(messages, n)[2 * i] == number_macro(
            screaming(messages[i].name) + "_MAX_ORDINAL"@,
            messages[i].max_ordinal as nat,
        ),
        summary_lines(messages, n)[2 * i + 1] == "#define "@ + screaming(messages[i].name)
            + "_MODULE_MESSAGE_KEY "@ + key_literal(messages[i]),
    decreases n,
{
    if i < n - 1 {
        lemma_summary(messages, (n - 1) as nat, i);
    } else if n > 1 {
        lemma_summary(messages, (n - 1) as nat, 0);
    } else {
        reveal_with_fuel(summary_lines, 2);
    }
}

/// The source names, for every message, where its three header fields stand and which ordinals
/// they have: the key of four bytes, the length of two, and the last ordinal. It names the last
/// ordinal, the key and the length of the body as well.
pub proof fn law_messages_have_their_numbers(c: ContextView, i: int)
    requires
        0 <= i < c.messages.len(),
    ensures
        ({
            let m = c.messages[i];
            let source = source_text(c);
            let stem = screaming(m.name);
            &&& has_line(source, numbered(stem + "_MODULE_MESSAGE_KEY"@ + "_INDEX"@, 0))
            &&& has_line(source, numbered(stem + "_LENGTH"@ + "_INDEX"@, 4))
            &&& has_line(source, numbered(stem + "_MAX_ORDINAL"@ + "_INDEX"@, 6))
            &&& has_line(source, numbered(stem + "_MODULE_MESSAGE_KEY"@ + "_ORDINAL"@, 0))
            &&& has_line(source, numbered(stem + "_LENGTH"@ + "_ORDINAL"@, 1))
            &&& has_line(source, numbered(stem + "_MAX_ORDINAL"@ + "_ORDINAL"@, 2))
            &&& has_line(source, numbered(stem + "_MAX_ORDINAL"@, m.max_ordinal as nat))
            &&& has_line(
                source,
                "#define "@ + stem + "_MODULE_MESSAGE_KEY "@ + key_literal(m),
            )
            &&& has_line(source, numbered(stem + "_LENGTH"@, m.body_length))
        }),
{
    let m = c.messages[i];
    let stem = screaming(m.name);
    let n = c.messages.len();
    lemma_header_line(c, i, Numbering::Index, 0);
    lemma_header_line(c, i, Numbering::Index, 1);
    lemma_header_line(c, i, Numbering::Index, 2);
    lemma_header_line(c, i, Numbering::Ordinal, 0);
    lemma_header_line(c, i, Numbering::Ordinal, 1);
    lemma_header_line(c, i, Numbering::Ordinal, 2);
    let summary = summary_lines(c.messages, n);
    lemma_summary(c.messages, n, i);
    lemma_sorted_line(summary, summary[2 * i]);
    lemma_sorted_line(summary, summary[2 * i + 1]);
    let lengths = length_lines(c.messages);
    assert(lengths[i] == numbered(stem + "_LENGTH"@, m.body_length));
    lemma_sorted_line(lengths, lengths[i]);
    let macros = source_macros(c.tables.enums, c.messages);
    assert(occurs(macros, summary[2 * i] + "\n"@) && occurs(macros, summary[2 * i + 1] + "\n"@)
        && occurs(macros, lengths[i] + "\n"@)) by {
        broadcast use lemma_occurs_in_sum;

        reveal(source_macros);
    }
    lemma_from_macros(c, summary[2 * i]);
    lemma_from_macros(c, summary[2 * i + 1]);
    lemma_from_macros(c, lengths[i]);
}

proof fn lemma_byte_count(enums: Enums, m: MessageView, n: nat, j: int)
    requires
        0 <= j < n <= m.fields.len(),
        m.fields[j].kind is Sequence,
    ensures
        byte_counts_upto(enums, m, n).contains(
            numbered(
                macro_stem(m, m.fields[j]) + "_PLACEHOLDER_SEQUENCE_ELEMENT_BYTE_COUNT"@,
                element_bytes(enums, m.fields[j].kind->Sequence_0),
            ),
        ),
    decreases n,
{
    let line = numbered(
        macro_stem(m, m.fields[j]) + "_PLACEHOLDER_SEQUENCE_ELEMENT_BYTE_COUNT"@,
        element_bytes(enums, m.fields[j].kind->Sequence_0),
    );
    let before = byte_counts_upto(enums, m, (n - 1) as nat);
    let r = byte_counts_upto(enums, m, n);
    if j < n - 1 {
        lemma_byte_count(enums, m, (n - 1) as nat, j);
        let k = choose|k: int| 0 <= k < before.len() && before[k] == line;
        assert(r[k] == line);
    } else {
        assert(r[before.len() as int] == line);
    }
}

proof fn lemma_byte_count_line(
    enums: Enums,
    messages: Seq<MessageView>,
    n: nat,
    i: int,
    line: Text,
)
    requires
        0 <= i < n <= messages.len(),
        byte_counts_upto(enums, messages[i], messages[i].fields.len()).contains(line),
    ensures
        byte_count_lines(enums, messages, n).contains(line),
    decreases n,
{
    if i < n - 1 {
        lemma_byte_count_line(enums, messages, (n - 1) as nat, i, line);
    }
    lemma_contains_sum(
        byte_count_lines(enums, messages, (n - 1) as nat),
        byte_counts_upto(enums, messages[n - 1], messages[n - 1].fields.len()),
        line,
    );
}

/// The source names, for every sequence, the bytes of one element: those of the structure, or
/// those that a single value that is no string takes on the wire.
pub proof fn law_element_sizes_are_named(c: ContextView, i: int, j: int)
    requires
        0 <= i < c.messages.len(),
        0 <= j < c.messages[i].fields.len(),
    ensures
        ({
            let m = c.messages[i];
            let f = m.fields[j];
            let name = macro_stem(m, f) + "_PLACEHOLDER_SEQUENCE_ELEMENT_BYTE_COUNT"@;
            match f.kind {
                FieldKindView::Sequence(ElementView::Struct(s)) => has_line(
                    source_text(c),
                    numbered(name, s.element_size),
                ),
                FieldKindView::Sequence(ElementView::Primitive(ty)) => {
                    storage(c.tables.enums, ty) matches Some(stored) ==> !(stored is String)
                        ==> has_line(
                        source_text(c),
                        numbered(name, stored_size(stored).unwrap() as nat),
                    )
                },
                FieldKindView::Scalar(_) => true,
            }
        }),
{
    let enums = c.tables.enums;
    let m = c.messages[i];
    let f = m.fields[j];
    if let FieldKindView::Sequence(element) = f.kind {
        let n = c.messages.len();
        let line = numbered(
            macro_stem(m, f) + "_PLACEHOLDER_SEQUENCE_ELEMENT_BYTE_COUNT"@,
            element_bytes(enums, element),
        );
        lemma_byte_count(enums, m, m.fields.len(), j);
        lemma_byte_count_line(enums, c.messages, n, i, line);
        lemma_distinct_line(byte_count_lines(enums, c.messages, n), line);
        assert(occurs(source_macros(enums, c.messages), line + "\n"@)) by {
            broadcast use lemma_occurs_in_sum;

            reveal(source_macros);
        }
        lemma_from_macros(c, line);
    }
}

proof fn lemma_mask_line(messages: Seq<MessageView>, n: nat, i: int, line: Text)
    requires
        0 <= i < n <= messages.len(),
        masks_upto(messages[i], messages[i].fields.len()).contains(line),
    ensures
        mask_lines(messages, n).contains(line),
    decreases n,
{
    if i < n - 1 {
        lemma_mask_line(messages, (n - 1) as nat, i, line);
    }
    lemma_contains_sum(
        mask_lines(messages, (n - 1) as nat),
        masks_upto(messages[n - 1], messages[n - 1].fields.len()),
        line,
    );
}

proof fn lemma_field_mask(m: MessageView, n: nat, j: int, line: Text)
    requires
        0 <= j < n <= m.fields.len(),
        field_masks(m, m.fields[j]).contains(line),
    ensures
        masks_upto(m, n).contains(line),
    decreases n,
{
    if j < n - 1 {
        lemma_field_mask(m, (n - 1) as nat, j, line);
    }
    lemma_contains_sum(masks_upto(m, (n - 1) as nat), field_masks(m, m.fields[n - 1]), line);
}

proof fn lemma_sub_mask(
    m: MessageView,
    f: FieldView,
    subs: Seq<StructFieldView>,
    n: nat,
    k: int,
)
    requires
        0 <= k < n <= subs.len(),
        subs[k].ty is Boolean,
    ensures
        sub_masks(m, f, subs, n).contains(mask_macro(sub_token(m, f, subs[k]))),
    decreases n,
{
    let line = mask_macro(sub_token(m, f, subs[k]));
    let before = sub_masks(m, f, subs, (n - 1) as nat);
    let r = sub_masks(m, f, subs, n);
    if k < n - 1 {
        lemma_sub_mask(m, f, subs, (n - 1) as nat, k);
        let q = choose|q: int| 0 <= q < before.len() && before[q] == line;
        assert(r[q] == line);
    } else {
        assert(r[before.len() as int] == line);
    }
}

/// The source names a mask of the lowest bit for every boolean, in a message or in a structure
/// in a sequence.
pub proof fn law_booleans_have_masks(c: ContextView, i: int, j: int, k: int)
    requires
        0 <= i < c.messages.len(),
        0 <= j < c.messages[i].fields.len(),
    ensures
        ({
            let m = c.messages[i];
            let f = m.fields[j];
            match f.kind {
                FieldKindView::Scalar(ty) => ty is Boolean ==> has_line(
                    source_text(c),
                    "#define "@ + macro_stem(m, f) + "_MASK "@ + "(1 << 0)"@,
                ),
                FieldKindView::Sequence(ElementView::Struct(s)) => 0 <= k < s.fields.len()
                    && s.fields[k].ty is Boolean ==> has_line(
                    source_text(c),
                    "#define "@ + member_stem(m, f, s.fields[k]) + "_MASK "@ + "(1 << 0)"@,
                ),
                _ => true,
            }
        }),
{
    let m = c.messages[i];
    let f = m.fields[j];
    let n = c.messages.len();
    let found = match f.kind {
        FieldKindView::Scalar(ty) => if ty is Boolean {
            Some(mask_macro(field_token(m, f)))
        } else {
            None
        },
        FieldKindView::Sequence(ElementView::Struct(s)) => if 0 <= k < s.fields.len()
            && s.fields[k].ty is Boolean {
            Some(mask_macro(sub_token(m, f, s.fields[k])))
        } else {
            None
        },
        _ => None,
    };
    if let Some(line) = found {
        match f.kind {
            FieldKindView::Sequence(ElementView::Struct(s)) => {
                lemma_sub_mask(m, f, s.fields, s.fields.len(), k);
            },
            _ => {
                assert(field_masks(m, f)[0] == line);
            },
        }
        lemma_field_mask(m, m.fields.len(), j, line);
        lemma_mask_line(c.messages, n, i, line);
        lemma_distinct_line(mask_lines(c.messages, n), line);
        assert(occurs(source_macros(c.tables.enums, c.messages), line + "\n"@)) by {
            broadcast use lemma_occurs_in_sum;

            reveal(source_macros);
        }
        lemma_from_macros(c, line);
    }
}

proof fn lemma_topic_declaration(names: Seq<Text>, n: nat, k: int)
    requires
        0 <= k < n <= names.len(),
    ensures
        occurs(topic_declarations(names, n), "extern const char "@ + names[k] + "[];\n"@),
    decreases n,
{
    broadcast use {group_append, lemma_occurs_in_sum};

    let line = "extern const char "@ + names[k] + "[];\n"@;
    if k < n - 1 {
        lemma_topic_declaration(names, (n - 1) as nat, k);
    } else {
        lemma_occurs(topic_declarations(names, (n - 1) as nat), line, Seq::empty());
    }
}

/// The topic of every message is declared in the header and given in the source under the same
/// name.
pub proof fn law_topics_are_declared_and_given(c: ContextView, i: int)
    requires
        0 <= i < c.messages.len(),
    ensures
        ({
            let m = c.messages[i];
            let name = screaming(m.name) + "_TOPIC"@;
            &&& occurs(header_text(c), "extern const char "@ + name + "[];\n"@)
            &&& has_line(
                source_text(c),
                "const char "@ + name + "[] = "@ + topic_literal(m.topic) + ";"@,
            )
        }),
{
    let m = c.messages[i];
    let name = screaming(m.name) + "_TOPIC"@;
    let names = topic_names(c.messages);
    assert(names[i] == name);
    lemma_sorted_line(names, name);
    let sorted = sorted_lines(names);
    let k = choose|k: int| 0 <= k < sorted.len() && sorted[k] == name;
    lemma_topic_declaration(sorted, sorted.len(), k);
    assert(occurs(header_text(c), "extern const char "@ + name + "[];\n"@)) by {
        broadcast use lemma_occurs_in_sum;

        reveal(header_text);
    }
    let lines = topic_lines(c.messages);
    assert(lines[i] == "const char "@ + name + "[] = "@ + topic_literal(m.topic) + ";"@);
    lemma_sorted_line(lines, lines[i]);
    assert(has_line(source_text(c), lines[i])) by {
        broadcast use lemma_occurs_in_sum;

        reveal(source_text);
    }
}

proof fn lemma_key_macro(messages: Seq<MessageView>, order: Seq<int>, n: nat, k: int)
    requires
        0 <= k < n <= order.len(),
    ensures
        has_line(
            key_macros(messages, order, n),
            "#define "@ + key_macro_name(messages[order[k]]) + " "@ + key_literal(
                messages[order[k]],
            ),
        ),
    decreases n,
{
    broadcast use {group_append, lemma_occurs_in_sum};

    let line = "#define "@ + key_macro_name(messages[order[k]]) + " "@ + key_literal(
        messages[order[k]],
    ) + "\n"@;
    if k < n - 1 {
        lemma_key_macro(messages, order, (n - 1) as nat, k);
    } else {
        lemma_occurs(key_macros(messages, order, (n - 1) as nat), line, Seq::empty());
    }
}

/// The header names the key of every message, after the modules that it stands in: their names
/// and its own with underscores between neighbours.
pub proof fn law_keys_are_named(c: ContextView, i: int)
    requires
        0 <= i < c.messages.len(),
        c.messages[i].scope.len() > 0 ==> joined(
            screaming_segments(c.messages[i].scope),
            "_"@,
        ).len() > 0,
    ensures
        ({
            let m = c.messages[i];
            has_line(
                header_text(c),
                "#define "@ + joined(screaming_segments(m.scope.push(m.name)), "_"@) + "_KEY"@
                    + " "@ + key_literal(m),
            )
        }),
{
    broadcast use vstd::seq_lib::group_to_multiset_ensures;

    let m = c.messages[i];
    let names = key_names(c.messages);
    let order = stable_order(names);
    law_order_is_sorted_and_stable(names);
    assert(positions(names.len())[i] == i);
    assert(positions(names.len()).contains(i));
    assert(order.to_multiset().contains(i));
    let k = choose|k: int| 0 <= k < order.len() && order[k] == i;
    lemma_key_macro(c.messages, order, c.messages.len(), k);
    assert(screaming_segments(m.scope.push(m.name)) =~= screaming_segments(m.scope).push(
        screaming(m.name),
    ));
    assert(screaming_segments(m.scope).push(screaming(m.name)).drop_last() =~= screaming_segments(
        m.scope,
    ));
    assert(key_macro_name(m) == joined(screaming_segments(m.scope.push(m.name)), "_"@) + "_KEY"@);
    let line = "#define "@ + key_macro_name(m) + " "@ + key_literal(m);
    assert("#define "@ + joined(screaming_segments(m.scope.push(m.name)), "_"@) + "_KEY"@ + " "@
        + key_literal(m) == line) by {
        broadcast use group_append;

    }
    assert(has_line(header_text(c), line)) by {
        broadcast use lemma_occurs_in_sum;

        reveal(header_text);
    }
}

proof fn lemma_enum_value(e: EnumView, n: nat, k: int)
    requires
        0 <= k < n <= e.values.len(),
    ensures
        occurs(
            enum_values(e.value_prefix, e.values, n),
            "\t"@ + e.value_prefix + "_"@ + e.values[k].name + " = "@ + e.values[k].literal
                + ", \n"@,
        ),
    decreases n,
{
    broadcast use {group_append, lemma_occurs_in_sum};

    let line = "\t"@ + e.value_prefix + "_"@ + e.values[k].name + " = "@ + e.values[k].literal
        + ", \n"@;
    if k < n - 1 {
        lemma_enum_value(e, (n - 1) as nat, k);
    } else {
        lemma_occurs(enum_values(e.value_prefix, e.values, (n - 1) as nat), line, Seq::empty());
    }
}

proof fn lemma_enum_in_header(c: ContextView, n: nat, i: int, part: Text)
    requires
        0 <= i < n <= c.enum_models.len(),
        occurs(enum_declaration(c.enum_models[i]), part),
    ensures
        occurs(enum_declarations(c.enum_models, n), part),
    decreases n,
{
    broadcast use lemma_occurs_in_sum;

    if i < n - 1 {
        lemma_enum_in_header(c, (n - 1) as nat, i, part);
    }
}

/// The header declares every enumeration under its name, with each of its values.
pub proof fn law_enumerations_are_declared(c: ContextView, i: int)
    requires
        0 <= i < c.enum_models.len(),
    ensures
        ({
            let e = c.enum_models[i];
            exists|values: Text| #[trigger]
                occurs(header_text(c), "typedef enum {\n"@ + values + "} "@ + e.typedef + ";\n"@)
                    && forall|k: int|
                    0 <= k < e.values.len() ==> occurs(
                        values,
                        "\t"@ + e.value_prefix + "_"@ + (#[trigger] e.values[k]).name + " = "@
                            + e.values[k].literal + ", \n"@,
                    )
        }),
{
    let e = c.enum_models[i];
    let values = enum_values(e.value_prefix, e.values, e.values.len());
    let whole = "typedef enum {\n"@ + values + "} "@ + e.typedef + ";\n"@;
    assert(occurs(enum_declaration(e), whole)) by {
        broadcast use group_append;

        reveal(enum_declaration);
        let doc = crate::c::docs::comment_block(e.comments, ""@);
        assert(enum_declaration(e) == doc + whole + "\n"@);
        lemma_occurs(doc, whole, "\n"@);
    }
    lemma_enum_in_header(c, c.enum_models.len(), i, whole);
    assert(occurs(header_text(c), whole)) by {
        broadcast use lemma_occurs_in_sum;

        reveal(header_text);
    }
    assert forall|k: int| 0 <= k < e.values.len() implies occurs(
        values,
        "\t"@ + e.value_prefix + "_"@ + (#[trigger] e.values[k]).name + " = "@
            + e.values[k].literal + ", \n"@,
    ) by {
        lemma_enum_value(e, e.values.len(), k);
    }
}

} // verus!
