//! The two emitted files.
use vstd::multiset::Multiset;
use vstd::prelude::*;
use vstd::seq_lib::lemma_multiset_commutative;
use crate::bags::{bag, lemma_bag_permutation, lemma_bag_push, lemma_map_permutation};
use crate::c::banners::{
    AUTOGEN_BANNER, LICENSE_BANNER, SECTION_DEFINES, SECTION_INCLUDES, SECTION_PROTOTYPES,
    SECTION_SOURCE, SECTION_TOPICS, SECTION_TYPES, SECTION_VARIABLES,
};
use crate::c::context::{Context, ContextView};
use crate::c::macros::{
    byte_counts_upto, collect_bool_mask_macros, collect_index_macros, collect_ordinal_macros,
    collect_sequence_element_byte_counts, define_number, header_message_key_macro, key_literal,
    key_literal_of, key_macro_name, masks_upto, message_macros, number_macro, topic_macro_name,
    topic_name, Numbering,
};
use crate::c::model::{EnumModel, EnumView, MessageModel, MessageView};
use crate::c::names::{screaming, screaming_message_token};
use crate::c::prototypes::{
    emit_enum_typedef, emit_message_prototypes, enum_declaration, message_prototypes,
};
use crate::c::source::{emit_message_source, message_source};
use crate::c::tables::{Enums, Tables};
use crate::c::topic::{quoted_topic, topic_literal};
use crate::c::types::messages_have_scalars;
use crate::concat::{views, Text};
use crate::order::{
    as_positions, distinct_lines, law_order_is_sorted_and_stable, law_sorting_forgets_the_order,
    law_text_order_is_total, order_of, positions, precedes, sort_and_dedup, sort_lines, sorted_lines, stable_order, text_le,
};
use crate::text::owned;

verus! {

broadcast use {
    crate::concat::group_append,
    crate::concat::group_lines,
    crate::concat::group_views,
};

/// The first `n` lines, each ended.
pub open spec fn lines_text(lines: Seq<Text>, n: nat) -> Text
    decreases n,
{
    if n == 0 {
        Seq::empty()
    } else {
        lines_text(lines, (n - 1) as nat) + lines[n - 1] + "\n"@
    }
}

fn emit_lines(out: &mut String, lines: &Vec<String>)
    ensures
        final(out)@ == old(out)@ + lines_text(views(lines@), lines@.len()),
{
    let ghost before = out@;
    for i in 0..lines.len()
        invariant
            before == old(out)@,
            out@ == before + lines_text(views(lines@), i as nat),
    {
        assert(views(lines@)[i as int] == lines@[i as int]@);
        out.push_str(lines[i].as_str());
        out.push_str("\n");
    }
}

/// The names of the messages' key macros.
pub open spec fn key_names(messages: Seq<MessageView>) -> Seq<Text> {
    messages.map_values(|m: MessageView| key_macro_name(m))
}

/// The key macros of the messages at the first `n` places of an order.
pub open spec fn key_macros(messages: Seq<MessageView>, order: Seq<int>, n: nat) -> Text
    decreases n,
{
    if n == 0 {
        Seq::empty()
    } else {
        let m = messages[order[n - 1]];
        key_macros(messages, order, (n - 1) as nat) + "#define "@ + key_macro_name(m) + " "@
            + key_literal(m) + "\n"@
    }
}

fn emit_key_macros(out: &mut String, messages: &Vec<MessageModel>)
    ensures
        final(out)@ == old(out)@ + key_macros(
            views(messages@),
            stable_order(key_names(views(messages@))),
            messages@.len(),
        ),
{
    let ghost all = views(messages@);
    let mut names: Vec<String> = Vec::new();
    for i in 0..messages.len()
        invariant
            all == views(messages@),
            views(names@) == key_names(all).take(i as int),
    {
        assert(all[i as int] == messages@[i as int]@);
        names.push(header_message_key_macro(&messages[i]));
        assert(views(names@) =~= key_names(all).take(i + 1));
    }
    assert(key_names(all).take(all.len() as int) =~= key_names(all));
    assert(views(names@).len() == names@.len());
    let order = order_of(&names);
    let ghost at = as_positions(order@);
    let ghost before = out@;
    for i in 0..order.len()
        invariant
            all == views(messages@),
            before == old(out)@,
            at == as_positions(order@),
            forall|k: int| 0 <= k < order@.len() ==> #[trigger] order@[k] < messages@.len(),
            out@ == before + key_macros(all, at, i as nat),
    {
        assert(at[i as int] == order@[i as int]);
        let m = &messages[order[i]];
        assert(all[at[i as int]] == m@);
        out.push_str("#define ");
        out.push_str(header_message_key_macro(m).as_str());
        out.push_str(" ");
        out.push_str(key_literal_of(m).as_str());
        out.push_str("\n");
    }
}

/// The declarations of the first `n` enumerations.
pub open spec fn enum_declarations(enums: Seq<EnumView>, n: nat) -> Text
    decreases n,
{
    if n == 0 {
        Seq::empty()
    } else {
        enum_declarations(enums, (n - 1) as nat) + enum_declaration(enums[n - 1])
    }
}

fn emit_enums(out: &mut String, enums: &Vec<EnumModel>)
    ensures
        final(out)@ == old(out)@ + enum_declarations(views(enums@), enums@.len()),
{
    let ghost before = out@;
    for i in 0..enums.len()
        invariant
            before == old(out)@,
            out@ == before + enum_declarations(views(enums@), i as nat),
    {
        assert(views(enums@)[i as int] == enums@[i as int]@);
        emit_enum_typedef(out, &enums[i]);
    }
}

/// The names of the messages' topic constants.
pub open spec fn topic_names(messages: Seq<MessageView>) -> Seq<Text> {
    messages.map_values(|m: MessageView| topic_name(m))
}

/// The declarations of the first `n` topic constants.
pub open spec fn topic_declarations(names: Seq<Text>, n: nat) -> Text
    decreases n,
{
    if n == 0 {
        Seq::empty()
    } else {
        topic_declarations(names, (n - 1) as nat) + "extern const char "@ + names[n - 1] + "[];\n"@
    }
}

fn emit_topic_declarations(out: &mut String, messages: &Vec<MessageModel>)
    ensures
        final(out)@ == old(out)@ + topic_declarations(
            sorted_lines(topic_names(views(messages@))),
            sorted_lines(topic_names(views(messages@))).len(),
        ),
{
    let ghost all = views(messages@);
    let mut names: Vec<String> = Vec::new();
    for i in 0..messages.len()
        invariant
            all == views(messages@),
            views(names@) == topic_names(all).take(i as int),
    {
        assert(all[i as int] == messages@[i as int]@);
        names.push(topic_macro_name(&messages[i]));
        assert(views(names@) =~= topic_names(all).take(i + 1));
    }
    assert(topic_names(all).take(all.len() as int) =~= topic_names(all));
    let sorted = sort_lines(&names);
    let ghost before = out@;
    for i in 0..sorted.len()
        invariant
            before == old(out)@,
            out@ == before + topic_declarations(views(sorted@), i as nat),
    {
        assert(views(sorted@)[i as int] == sorted@[i as int]@);
        out.push_str("extern const char ");
        out.push_str(sorted[i].as_str());
        out.push_str("[];\n");
    }
    assert(views(sorted@).len() == sorted@.len());
}

/// The names of the messages.
pub open spec fn message_names(messages: Seq<MessageView>) -> Seq<Text> {
    messages.map_values(|m: MessageView| m.name)
}

fn order_by_name(messages: &Vec<MessageModel>) -> (r: Vec<usize>)
    ensures
        as_positions(r@) == stable_order(message_names(views(messages@))),
        r@.len() == messages@.len(),
        forall|k: int| 0 <= k < r@.len() ==> #[trigger] r@[k] < messages@.len(),
{
    let ghost all = views(messages@);
    let mut names: Vec<String> = Vec::new();
    for i in 0..messages.len()
        invariant
            all == views(messages@),
            views(names@) == message_names(all).take(i as int),
    {
        assert(all[i as int] == messages@[i as int]@);
        names.push(messages[i].name.clone());
        assert(views(names@) =~= message_names(all).take(i + 1));
    }
    assert(message_names(all).take(all.len() as int) =~= message_names(all));
    assert(views(names@).len() == names@.len());
    order_of(&names)
}

/// The declarations of the messages at the first `n` places of an order.
pub open spec fn prototypes_in_order(
    enums: Enums,
    messages: Seq<MessageView>,
    order: Seq<int>,
    n: nat,
) -> Text
    decreases n,
{
    if n == 0 {
        Seq::empty()
    } else {
        prototypes_in_order(enums, messages, order, (n - 1) as nat) + message_prototypes(
            enums,
            messages[order[n - 1]],
        )
    }
}

fn emit_prototypes(out: &mut String, tables: &Tables, messages: &Vec<MessageModel>)
    ensures
        final(out)@ == old(out)@ + prototypes_in_order(
            tables@.enums,
            views(messages@),
            stable_order(message_names(views(messages@))),
            messages@.len(),
        ),
{
    let order = order_by_name(messages);
    let ghost all = views(messages@);
    let ghost at = as_positions(order@);
    let ghost before = out@;
    for i in 0..order.len()
        invariant
            all == views(messages@),
            before == old(out)@,
            at == as_positions(order@),
            forall|k: int| 0 <= k < order@.len() ==> #[trigger] order@[k] < messages@.len(),
            out@ == before + prototypes_in_order(tables@.enums, all, at, i as nat),
    {
        assert(at[i as int] == order@[i as int]);
        assert(all[at[i as int]] == messages@[order@[i as int] as int]@);
        emit_message_prototypes(out, tables, &messages[order[i]]);
    }
}

/// The header file: keys, enumerations, topics and prototypes. Keys are in the
/// order of their names, topics too; messages are in the order of theirs.
#[verifier::opaque]
pub open spec fn header_text(c: ContextView) -> Text {
    LICENSE_BANNER@ + AUTOGEN_BANNER@ + "\n#ifndef _BLUEBERRY_DEVICES_MODULE_\n"@
        + "#define _BLUEBERRY_DEVICES_MODULE_\n\n\n"@ + SECTION_INCLUDES@
        + "\n#include <stdbool.h>\n"@ + "#include <stdint.h>\n"@
        + "#include <blueberry-transcoder.h>\n\n"@ + SECTION_DEFINES@ + "\n//Message keys\n"@
        + key_macros(c.messages, stable_order(key_names(c.messages)), c.messages.len())
        + "//Numerical & Boolean Constants\n\n"@ + SECTION_TYPES@ + "\n"@ + enum_declarations(
        c.enum_models,
        c.enum_models.len(),
    ) + "\n"@ + SECTION_VARIABLES@ + "\n\n\n"@ + SECTION_TOPICS@ + "\n"@ + "\n"@
        + topic_declarations(
        sorted_lines(topic_names(c.messages)),
        sorted_lines(topic_names(c.messages)).len(),
    ) + "\n\n"@ + SECTION_PROTOTYPES@ + "\n"@ + "\n"@ + prototypes_in_order(
        c.tables.enums,
        c.messages,
        stable_order(message_names(c.messages)),
        c.messages.len(),
    ) + "\n#endif\n"@
}

/// Renders the header file.
pub fn render_header(c: &Context) -> (r: String)
    ensures
        r@ == header_text(c@),
{
    proof {
        reveal(header_text);
    }
    let mut out = owned(LICENSE_BANNER);
    out.push_str(AUTOGEN_BANNER);
    out.push_str("\n#ifndef _BLUEBERRY_DEVICES_MODULE_\n");
    out.push_str("#define _BLUEBERRY_DEVICES_MODULE_\n\n\n");
    out.push_str(SECTION_INCLUDES);
    out.push_str("\n#include <stdbool.h>\n");
    out.push_str("#include <stdint.h>\n");
    out.push_str("#include <blueberry-transcoder.h>\n\n");
    out.push_str(SECTION_DEFINES);
    out.push_str("\n//Message keys\n");
    emit_key_macros(&mut out, &c.messages);
    out.push_str("//Numerical & Boolean Constants\n\n");
    out.push_str(SECTION_TYPES);
    out.push_str("\n");
    emit_enums(&mut out, &c.enum_models);
    out.push_str("\n");
    out.push_str(SECTION_VARIABLES);
    out.push_str("\n\n\n");
    out.push_str(SECTION_TOPICS);
    out.push_str("\n");
    out.push_str("\n");
    emit_topic_declarations(&mut out, &c.messages);
    out.push_str("\n\n");
    out.push_str(SECTION_PROTOTYPES);
    out.push_str("\n");
    out.push_str("\n");
    emit_prototypes(&mut out, &c.tables, &c.messages);
    out.push_str("\n#endif\n");
    out
}

/// The index or ordinal macros of the first `n` messages.
pub open spec fn numbering_lines(messages: Seq<MessageView>, kind: Numbering, n: nat) -> Seq<Text>
    decreases n,
{
    if n == 0 {
        Seq::empty()
    } else {
        numbering_lines(messages, kind, (n - 1) as nat) + message_macros(messages[n - 1], kind)
    }
}

fn emit_numbering(out: &mut String, messages: &Vec<MessageModel>, kind: Numbering)
    ensures
        final(out)@ == old(out)@ + lines_text(
            distinct_lines(numbering_lines(views(messages@), kind, messages@.len())),
            distinct_lines(numbering_lines(views(messages@), kind, messages@.len())).len(),
        ),
{
    let ghost all = views(messages@);
    let mut lines: Vec<String> = Vec::new();
    for i in 0..messages.len()
        invariant
            all == views(messages@),
            views(lines@) == numbering_lines(all, kind, i as nat),
    {
        assert(all[i as int] == messages@[i as int]@);
        match kind {
            Numbering::Index => collect_index_macros(&messages[i], &mut lines),
            Numbering::Ordinal => collect_ordinal_macros(&messages[i], &mut lines),
        }
    }
    let sorted = sort_and_dedup(&lines);
    assert(views(sorted@).len() == sorted@.len());
    emit_lines(out, &sorted);
}

/// The macros with the largest ordinals and the keys of the first `n` messages.
pub open spec fn summary_lines(messages: Seq<MessageView>, n: nat) -> Seq<Text>
    decreases n,
{
    if n == 0 {
        Seq::empty()
    } else {
        let m = messages[n - 1];
        summary_lines(messages, (n - 1) as nat).push(
            number_macro(screaming(m.name) + "_MAX_ORDINAL"@, m.max_ordinal as nat),
        ).push("#define "@ + screaming(m.name) + "_MODULE_MESSAGE_KEY "@ + key_literal(m))
    }
}

fn emit_summary(out: &mut String, messages: &Vec<MessageModel>)
    ensures
        final(out)@ == old(out)@ + lines_text(
            sorted_lines(summary_lines(views(messages@), messages@.len())),
            sorted_lines(summary_lines(views(messages@), messages@.len())).len(),
        ),
{
    let ghost all = views(messages@);
    let mut lines: Vec<String> = Vec::new();
    for i in 0..messages.len()
        invariant
            all == views(messages@),
            views(lines@) == summary_lines(all, i as nat),
    {
        let m = &messages[i];
        assert(all[i as int] == m@);
        let mut name = screaming_message_token(m.name.as_str());
        name.push_str("_MAX_ORDINAL");
        lines.push(define_number(name.as_str(), m.max_ordinal as u64));
        let mut key = owned("#define ");
        key.push_str(screaming_message_token(m.name.as_str()).as_str());
        key.push_str("_MODULE_MESSAGE_KEY ");
        key.push_str(key_literal_of(m).as_str());
        lines.push(key);
    }
    let sorted = sort_lines(&lines);
    assert(views(sorted@).len() == sorted@.len());
    emit_lines(out, &sorted);
}

/// A section that stands only where it has lines: its title, then the distinct
/// lines in order.
pub open spec fn optional_section(title: Text, lines: Seq<Text>) -> Text {
    if lines.len() == 0 {
        Seq::empty()
    } else {
        title + lines_text(distinct_lines(lines), distinct_lines(lines).len())
    }
}

fn emit_optional_section(out: &mut String, title: &str, lines: &Vec<String>)
    ensures
        final(out)@ == old(out)@ + optional_section(title@, views(lines@)),
{
    if lines.len() > 0 {
        out.push_str(title);
        let sorted = sort_and_dedup(lines);
        assert(views(sorted@).len() == sorted@.len());
        emit_lines(out, &sorted);
    }
}

/// The mask macros of the first `n` messages.
pub open spec fn mask_lines(messages: Seq<MessageView>, n: nat) -> Seq<Text>
    decreases n,
{
    if n == 0 {
        Seq::empty()
    } else {
        mask_lines(messages, (n - 1) as nat) + masks_upto(
            messages[n - 1],
            messages[n - 1].fields.len(),
        )
    }
}

fn emit_masks(out: &mut String, messages: &Vec<MessageModel>)
    ensures
        final(out)@ == old(out)@ + optional_section(
            "\n//Add message boolean field masks\n"@,
            mask_lines(views(messages@), messages@.len()),
        ),
{
    let ghost all = views(messages@);
    let mut lines: Vec<String> = Vec::new();
    for i in 0..messages.len()
        invariant
            all == views(messages@),
            views(lines@) == mask_lines(all, i as nat),
    {
        assert(all[i as int] == messages@[i as int]@);
        collect_bool_mask_macros(&messages[i], &mut lines);
    }
    emit_optional_section(out, "\n//Add message boolean field masks\n", &lines);
}

/// The element size macros of the first `n` messages.
pub open spec fn byte_count_lines(
    enums: Enums,
    messages: Seq<MessageView>,
    n: nat,
) -> Seq<Text>
    decreases n,
{
    if n == 0 {
        Seq::empty()
    } else {
        byte_count_lines(enums, messages, (n - 1) as nat) + byte_counts_upto(
            enums,
            messages[n - 1],
            messages[n - 1].fields.len(),
        )
    }
}

fn emit_byte_counts(out: &mut String, tables: &Tables, messages: &Vec<MessageModel>)
    requires
        messages_have_scalars(tables@.enums, views(messages@)),
    ensures
        final(out)@ == old(out)@ + optional_section(
            "\n//Add sequence element byte count\n"@,
            byte_count_lines(tables@.enums, views(messages@), messages@.len()),
        ),
{
    let ghost all = views(messages@);
    let mut lines: Vec<String> = Vec::new();
    for i in 0..messages.len()
        invariant
            all == views(messages@),
            messages_have_scalars(tables@.enums, all),
            views(lines@) == byte_count_lines(tables@.enums, all, i as nat),
    {
        assert(all[i as int] == messages@[i as int]@);
        collect_sequence_element_byte_counts(tables, &messages[i], &mut lines);
    }
    emit_optional_section(out, "\n//Add sequence element byte count\n", &lines);
}

/// The length macro of a message.
pub open spec fn length_line(m: MessageView) -> Text {
    number_macro(screaming(m.name) + "_LENGTH"@, m.body_length)
}

/// The length macros of the messages.
pub open spec fn length_lines(messages: Seq<MessageView>) -> Seq<Text> {
    messages.map_values(|m: MessageView| length_line(m))
}

fn emit_lengths(out: &mut String, messages: &Vec<MessageModel>)
    ensures
        final(out)@ == old(out)@ + lines_text(
            sorted_lines(length_lines(views(messages@))),
            sorted_lines(length_lines(views(messages@))).len(),
        ),
{
    let ghost all = views(messages@);
    let mut lines: Vec<String> = Vec::new();
    for i in 0..messages.len()
        invariant
            all == views(messages@),
            views(lines@) == length_lines(all).take(i as int),
    {
        let m = &messages[i];
        assert(all[i as int] == m@);
        let mut name = screaming_message_token(m.name.as_str());
        name.push_str("_LENGTH");
        lines.push(define_number(name.as_str(), m.body_length as u64));
        assert(views(lines@) =~= length_lines(all).take(i + 1));
    }
    assert(length_lines(all).take(all.len() as int) =~= length_lines(all));
    let sorted = sort_lines(&lines);
    assert(views(sorted@).len() == sorted@.len());
    emit_lines(out, &sorted);
}

/// The definition of a message's topic constant.
pub open spec fn topic_line(m: MessageView) -> Text {
    "const char "@ + topic_name(m) + "[] = "@ + topic_literal(m.topic) + ";"@
}

/// The definitions of the messages' topic constants.
pub open spec fn topic_lines(messages: Seq<MessageView>) -> Seq<Text> {
    messages.map_values(|m: MessageView| topic_line(m))
}

fn emit_topics(out: &mut String, messages: &Vec<MessageModel>)
    ensures
        final(out)@ == old(out)@ + lines_text(
            sorted_lines(topic_lines(views(messages@))),
            sorted_lines(topic_lines(views(messages@))).len(),
        ),
{
    let ghost all = views(messages@);
    let mut lines: Vec<String> = Vec::new();
    for i in 0..messages.len()
        invariant
            all == views(messages@),
            views(lines@) == topic_lines(all).take(i as int),
    {
        let m = &messages[i];
        assert(all[i as int] == m@);
        let mut line = owned("const char ");
        line.push_str(topic_macro_name(m).as_str());
        line.push_str("[] = ");
        line.push_str(quoted_topic(m.topic.as_str()).as_str());
        line.push_str(";");
        lines.push(line);
        assert(views(lines@) =~= topic_lines(all).take(i + 1));
    }
    assert(topic_lines(all).take(all.len() as int) =~= topic_lines(all));
    let sorted = sort_lines(&lines);
    assert(views(sorted@).len() == sorted@.len());
    emit_lines(out, &sorted);
}

/// The functions of the messages at the first `n` places of an order.
pub open spec fn sources_in_order(
    enums: Enums,
    messages: Seq<MessageView>,
    order: Seq<int>,
    n: nat,
) -> Text
    decreases n,
{
    if n == 0 {
        Seq::empty()
    } else {
        sources_in_order(enums, messages, order, (n - 1) as nat) + message_source(
            enums,
            messages[order[n - 1]],
        )
    }
}

fn emit_sources(out: &mut String, tables: &Tables, messages: &Vec<MessageModel>)
    requires
        messages_have_scalars(tables@.enums, views(messages@)),
    ensures
        final(out)@ == old(out)@ + sources_in_order(
            tables@.enums,
            views(messages@),
            stable_order(message_names(views(messages@))),
            messages@.len(),
        ),
{
    let order = order_by_name(messages);
    let ghost all = views(messages@);
    let ghost at = as_positions(order@);
    let ghost before = out@;
    for i in 0..order.len()
        invariant
            all == views(messages@),
            messages_have_scalars(tables@.enums, all),
            before == old(out)@,
            at == as_positions(order@),
            forall|k: int| 0 <= k < order@.len() ==> #[trigger] order@[k] < messages@.len(),
            out@ == before + sources_in_order(tables@.enums, all, at, i as nat),
    {
        assert(at[i as int] == order@[i as int]);
        assert(all[at[i as int]] == messages@[order@[i as int] as int]@);
        emit_message_source(out, tables, &messages[order[i]]);
    }
}

/// The macros of the source file.
#[verifier::opaque]
pub open spec fn source_macros(enums: Enums, messages: Seq<MessageView>) -> Text {
    let index = distinct_lines(numbering_lines(messages, Numbering::Index, messages.len()));
    let ordinal = distinct_lines(numbering_lines(messages, Numbering::Ordinal, messages.len()));
    let summary = sorted_lines(summary_lines(messages, messages.len()));
    let lengths = sorted_lines(length_lines(messages));
    "\n//Add message field indeces\n"@ + lines_text(index, index.len())
        + "\n//Add message field ordinals\n"@ + lines_text(ordinal, ordinal.len())
        + "\n//Add message max ordinals - the number of fields in the message and the ordinal of the last field of the message\n"@
        + lines_text(summary, summary.len()) + optional_section(
        "\n//Add message boolean field masks\n"@,
        mask_lines(messages, messages.len()),
    ) + optional_section(
        "\n//Add sequence element byte count\n"@,
        byte_count_lines(enums, messages, messages.len()),
    ) + "\n//Add message lengths - measured in bytes\n"@ + lines_text(lengths, lengths.len())
}

fn emit_source_macros(out: &mut String, tables: &Tables, messages: &Vec<MessageModel>)
    requires
        messages_have_scalars(tables@.enums, views(messages@)),
    ensures
        final(out)@ == old(out)@ + source_macros(tables@.enums, views(messages@)),
{
    proof {
        reveal(source_macros);
    }
    assert(views(messages@).len() == messages@.len());
    out.push_str("\n//Add message field indeces\n");
    emit_numbering(out, messages, Numbering::Index);
    out.push_str("\n//Add message field ordinals\n");
    emit_numbering(out, messages, Numbering::Ordinal);
    out.push_str(
        "\n//Add message max ordinals - the number of fields in the message and the ordinal of the last field of the message\n",
    );
    emit_summary(out, messages);
    emit_masks(out, messages);
    emit_byte_counts(out, tables, messages);
    out.push_str("\n//Add message lengths - measured in bytes\n");
    emit_lengths(out, messages);
}

/// The source file: macros in order, topics in order, and the functions of the
/// messages in the order of their names.
#[verifier::opaque]
pub open spec fn source_text(c: ContextView) -> Text {
    let topics = sorted_lines(topic_lines(c.messages));
    LICENSE_BANNER@ + AUTOGEN_BANNER@ + "\n"@ + "\n"@ + SECTION_INCLUDES@
        + "\n#include <blueberry_devices.h>\n"@ + "#include <blueberry-message.h>\n\n"@
        + SECTION_DEFINES@ + "\n"@ + source_macros(c.tables.enums, c.messages) + "\n"@ + SECTION_TYPES@
        + "\n\n\n"@ + SECTION_VARIABLES@ + "\n\n\n"@ + SECTION_TOPICS@ + "\n"@ + "\n"@
        + lines_text(topics, topics.len()) + "\n"@ + SECTION_PROTOTYPES@ + "\n\n\n"@
        + SECTION_SOURCE@ + "\n"@ + "\n"@ + sources_in_order(
        c.tables.enums,
        c.messages,
        stable_order(message_names(c.messages)),
        c.messages.len(),
    )
}

/// Renders the source file.
pub fn render_source(c: &Context) -> (r: String)
    requires
        messages_have_scalars(c@.tables.enums, c@.messages),
    ensures
        r@ == source_text(c@),
{
    proof {
        reveal(source_text);
    }
    let mut out = owned(LICENSE_BANNER);
    out.push_str(AUTOGEN_BANNER);
    out.push_str("\n");
    out.push_str("\n");
    out.push_str(SECTION_INCLUDES);
    out.push_str("\n#include <blueberry_devices.h>\n");
    out.push_str("#include <blueberry-message.h>\n\n");
    out.push_str(SECTION_DEFINES);
    out.push_str("\n");
    emit_source_macros(&mut out, &c.tables, &c.messages);
    out.push_str("\n");
    out.push_str(SECTION_TYPES);
    out.push_str("\n\n\n");
    out.push_str(SECTION_VARIABLES);
    out.push_str("\n\n\n");
    out.push_str(SECTION_TOPICS);
    out.push_str("\n");
    out.push_str("\n");
    emit_topics(&mut out, &c.messages);
    out.push_str("\n");
    out.push_str(SECTION_PROTOTYPES);
    out.push_str("\n\n\n");
    out.push_str(SECTION_SOURCE);
    out.push_str("\n");
    out.push_str("\n");
    emit_sources(&mut out, &c.tables, &c.messages);
    out
}

/// Messages are emitted in the order of their names, each of them once; messages
/// of the same name in the order in which they were defined.
pub proof fn law_messages_are_emitted_once_in_order(messages: Seq<MessageView>)
    ensures
        ({
            let order = stable_order(message_names(messages));
            &&& order.len() == messages.len()
            &&& order.to_multiset() == positions(messages.len()).to_multiset()
            &&& forall|k: int|
                0 <= k < messages.len() ==> 0 <= #[trigger] order[k] < messages.len()
            &&& forall|k: int, l: int|
                0 <= k <= l < messages.len() ==> text_le(
                    messages[#[trigger] order[k]].name,
                    messages[#[trigger] order[l]].name,
                ) && (messages[order[k]].name == messages[order[l]].name ==> order[k] <= order[l])
        }),
{
    let names = message_names(messages);
    law_order_is_sorted_and_stable(names);
    assert forall|k: int, l: int| 0 <= k <= l < messages.len() implies text_le(
        messages[#[trigger] stable_order(names)[k]].name,
        messages[#[trigger] stable_order(names)[l]].name,
    ) && (messages[stable_order(names)[k]].name == messages[stable_order(names)[l]].name
        ==> stable_order(names)[k] <= stable_order(names)[l]) by {
        let a = stable_order(names)[k];
        let b = stable_order(names)[l];
        assert(precedes(names, a, b));
        assert(names[a] == messages[a].name && names[b] == messages[b].name);
        law_text_order_is_total(names[a], names[b], names[b]);
    }
}

proof fn lemma_no_lines()
    ensures
        Seq::<Text>::empty().to_multiset() == Multiset::<Text>::empty(),
{
    broadcast use {
        vstd::multiset::group_multiset_axioms,
        vstd::seq_lib::group_to_multiset_ensures,
    };

    assert(Seq::<Text>::empty().to_multiset() =~= Multiset::<Text>::empty());
}

proof fn lemma_numbering_bag(kind: Numbering, messages: Seq<MessageView>, n: nat)
    requires
        n <= messages.len(),
    ensures
        numbering_lines(messages, kind, n).to_multiset() == bag(
            messages.take(n as int),
            |m: MessageView| message_macros(m, kind).to_multiset(),
        ),
    decreases n,
{
    let f = |m: MessageView| message_macros(m, kind).to_multiset();
    if n == 0 {
        assert(messages.take(0) =~= Seq::<MessageView>::empty());
        lemma_no_lines();
    } else {
        let m = messages[n - 1];
        lemma_numbering_bag(kind, messages, (n - 1) as nat);
        assert(messages.take(n as int) =~= messages.take(n - 1).push(m));
        lemma_bag_push(messages.take(n - 1), m, f);
        lemma_multiset_commutative(numbering_lines(messages, kind, (n - 1) as nat), message_macros(m, kind));
    }
}

proof fn lemma_mask_bag(messages: Seq<MessageView>, n: nat)
    requires
        n <= messages.len(),
    ensures
        mask_lines(messages, n).to_multiset() == bag(
            messages.take(n as int),
            |m: MessageView| masks_upto(m, m.fields.len()).to_multiset(),
        ),
    decreases n,
{
    let f = |m: MessageView| masks_upto(m, m.fields.len()).to_multiset();
    if n == 0 {
        assert(messages.take(0) =~= Seq::<MessageView>::empty());
        lemma_no_lines();
    } else {
        let m = messages[n - 1];
        lemma_mask_bag(messages, (n - 1) as nat);
        assert(messages.take(n as int) =~= messages.take(n - 1).push(m));
        lemma_bag_push(messages.take(n - 1), m, f);
        lemma_multiset_commutative(mask_lines(messages, (n - 1) as nat), masks_upto(m, m.fields.len()));
    }
}

proof fn lemma_byte_count_bag(enums: Enums, messages: Seq<MessageView>, n: nat)
    requires
        n <= messages.len(),
    ensures
        byte_count_lines(enums, messages, n).to_multiset() == bag(
            messages.take(n as int),
            |m: MessageView| byte_counts_upto(enums, m, m.fields.len()).to_multiset(),
        ),
    decreases n,
{
    let f = |m: MessageView| byte_counts_upto(enums, m, m.fields.len()).to_multiset();
    if n == 0 {
        assert(messages.take(0) =~= Seq::<MessageView>::empty());
        lemma_no_lines();
    } else {
        let m = messages[n - 1];
        lemma_byte_count_bag(enums, messages, (n - 1) as nat);
        assert(messages.take(n as int) =~= messages.take(n - 1).push(m));
        lemma_bag_push(messages.take(n - 1), m, f);
        lemma_multiset_commutative(byte_count_lines(enums, messages, (n - 1) as nat), byte_counts_upto(enums, m, m.fields.len()));
    }
}

/// The summary macros of a message.
pub open spec fn message_summary(m: MessageView) -> Seq<Text> {
    seq![
        number_macro(screaming(m.name) + "_MAX_ORDINAL"@, m.max_ordinal as nat),
        "#define "@ + screaming(m.name) + "_MODULE_MESSAGE_KEY "@ + key_literal(m),
    ]
}

proof fn lemma_summary_bag(messages: Seq<MessageView>, n: nat)
    requires
        n <= messages.len(),
    ensures
        summary_lines(messages, n).to_multiset() == bag(
            messages.take(n as int),
            |m: MessageView| message_summary(m).to_multiset(),
        ),
    decreases n,
{
    let f = |m: MessageView| message_summary(m).to_multiset();
    if n == 0 {
        assert(messages.take(0) =~= Seq::<MessageView>::empty());
        lemma_no_lines();
    } else {
        let m = messages[n - 1];
        lemma_summary_bag(messages, (n - 1) as nat);
        assert(messages.take(n as int) =~= messages.take(n - 1).push(m));
        lemma_bag_push(messages.take(n - 1), m, f);
        assert(summary_lines(messages, n) =~= summary_lines(messages, (n - 1) as nat)
            + message_summary(m));
        lemma_multiset_commutative(summary_lines(messages, (n - 1) as nat), message_summary(m));
    }
}

proof fn lemma_sorted_numbering(a: Seq<MessageView>, b: Seq<MessageView>, kind: Numbering)
    requires
        a.to_multiset() == b.to_multiset(),
        a.len() == b.len(),
    ensures
        distinct_lines(numbering_lines(a, kind, a.len())) == distinct_lines(
            numbering_lines(b, kind, b.len()),
        ),
{
    lemma_numbering_bag(kind, a, a.len());
    lemma_numbering_bag(kind, b, b.len());
    assert(a.take(a.len() as int) =~= a);
    assert(b.take(b.len() as int) =~= b);
    lemma_bag_permutation(a, b, |m: MessageView| message_macros(m, kind).to_multiset());
    law_sorting_forgets_the_order(
        numbering_lines(a, kind, a.len()),
        numbering_lines(b, kind, b.len()),
    );
}

proof fn lemma_same_section(title: Text, a: Seq<Text>, b: Seq<Text>)
    requires
        a.to_multiset() == b.to_multiset(),
    ensures
        optional_section(title, a) == optional_section(title, b),
{
    broadcast use vstd::seq_lib::group_to_multiset_ensures;

    assert(a.to_multiset().len() == a.len());
    assert(b.to_multiset().len() == b.len());
    law_sorting_forgets_the_order(a, b);
}

proof fn lemma_same_macros(enums: Enums, a: Seq<MessageView>, b: Seq<MessageView>)
    requires
        a.to_multiset() == b.to_multiset(),
        a.len() == b.len(),
    ensures
        source_macros(enums, a) == source_macros(enums, b),
{
    reveal(source_macros);
    assert(a.take(a.len() as int) =~= a);
    assert(b.take(b.len() as int) =~= b);
    lemma_sorted_numbering(a, b, Numbering::Index);
    lemma_sorted_numbering(a, b, Numbering::Ordinal);
    lemma_summary_bag(a, a.len());
    lemma_summary_bag(b, b.len());
    lemma_bag_permutation(a, b, |m: MessageView| message_summary(m).to_multiset());
    law_sorting_forgets_the_order(summary_lines(a, a.len()), summary_lines(b, b.len()));
    lemma_mask_bag(a, a.len());
    lemma_mask_bag(b, b.len());
    lemma_bag_permutation(
        a,
        b,
        |m: MessageView| masks_upto(m, m.fields.len()).to_multiset(),
    );
    lemma_same_section(
        "\n//Add message boolean field masks\n"@,
        mask_lines(a, a.len()),
        mask_lines(b, b.len()),
    );
    lemma_byte_count_bag(enums, a, a.len());
    lemma_byte_count_bag(enums, b, b.len());
    lemma_bag_permutation(
        a,
        b,
        |m: MessageView| byte_counts_upto(enums, m, m.fields.len()).to_multiset(),
    );
    lemma_same_section(
        "\n//Add sequence element byte count\n"@,
        byte_count_lines(enums, a, a.len()),
        byte_count_lines(enums, b, b.len()),
    );
    lemma_map_permutation(a, b, |m: MessageView| length_line(m));
    law_sorting_forgets_the_order(length_lines(a), length_lines(b));
}

/// Whether no two messages have the same name.
pub open spec fn names_distinct(messages: Seq<MessageView>) -> bool {
    forall|i: int, j: int|
        0 <= i < messages.len() && 0 <= j < messages.len() && #[trigger] messages[i].name
            == #[trigger] messages[j].name ==> i == j
}

proof fn lemma_same_place(a: Seq<MessageView>, b: Seq<MessageView>, k: int)
    requires
        a.to_multiset() == b.to_multiset(),
        a.len() == b.len(),
        names_distinct(a),
        0 <= k < a.len(),
    ensures
        a[stable_order(message_names(a))[k]] == b[stable_order(message_names(b))[k]],
{
    broadcast use vstd::seq_lib::group_to_multiset_ensures;

    let order_a = stable_order(message_names(a));
    let order_b = stable_order(message_names(b));
    law_order_is_sorted_and_stable(message_names(a));
    law_order_is_sorted_and_stable(message_names(b));
    lemma_map_permutation(a, b, |m: MessageView| m.name);
    law_sorting_forgets_the_order(message_names(a), message_names(b));
    assert(sorted_lines(message_names(a))[k] == a[order_a[k]].name);
    assert(sorted_lines(message_names(b))[k] == b[order_b[k]].name);
    let m = b[order_b[k]];
    assert(b.contains(m));
    assert(a.to_multiset().contains(m));
    assert(a.contains(m));
    let i = choose|i: int| 0 <= i < a.len() && a[i] == m;
    assert(a[i].name == a[order_a[k]].name);
}

proof fn lemma_same_sources(
    enums: Enums,
    a: Seq<MessageView>,
    b: Seq<MessageView>,
    n: nat,
)
    requires
        a.to_multiset() == b.to_multiset(),
        a.len() == b.len(),
        names_distinct(a),
        n <= a.len(),
    ensures
        sources_in_order(enums, a, stable_order(message_names(a)), n) == sources_in_order(
            enums,
            b,
            stable_order(message_names(b)),
            n,
        ),
    decreases n,
{
    if n > 0 {
        lemma_same_sources(enums, a, b, (n - 1) as nat);
        lemma_same_place(a, b, n - 1);
    }
}

/// The source file does not depend on the order in which messages of different
/// names were defined.
pub proof fn law_source_forgets_the_order_of_messages(a: ContextView, b: ContextView)
    requires
        a.tables.enums == b.tables.enums,
        a.messages.to_multiset() == b.messages.to_multiset(),
        names_distinct(a.messages),
    ensures
        source_text(a) == source_text(b),
{
    broadcast use vstd::seq_lib::group_to_multiset_ensures;

    reveal(source_text);
    assert(a.messages.to_multiset().len() == a.messages.len());
    assert(b.messages.to_multiset().len() == b.messages.len());
    lemma_same_macros(a.tables.enums, a.messages, b.messages);
    lemma_map_permutation(a.messages, b.messages, |m: MessageView| topic_line(m));
    law_sorting_forgets_the_order(topic_lines(a.messages), topic_lines(b.messages));
    lemma_same_sources(a.tables.enums, a.messages, b.messages, a.messages.len());
}

} // verus!
