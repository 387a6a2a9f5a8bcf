//! Comments in the emitted code.
use vstd::prelude::*;
use crate::c::model::{FieldKindView, FieldView, MessageFieldKind, MessageModel, MessageView};
use crate::concat::{lemma_occurs, lemma_occurs_in_sum, occurs, views, Text};
use crate::text::{chars_of, joined, owned, string_of};
use crate::whitespace::{char_is_whitespace, end_of_text, is_whitespace, trimmed_end};

verus! {

broadcast use {crate::concat::group_append, crate::concat::group_views};

/// Whether a character belongs to the margin of a comment: white space or a
/// marker.
pub open spec fn is_margin(c: char) -> bool {
    is_whitespace(c) || c == '*'
}

/// Text from its first character on that does not belong to the margin.
pub open spec fn without_margin(s: Text) -> Text
    decreases s.len(),
{
    if s.len() > 0 && is_margin(s.first()) {
        without_margin(s.drop_first())
    } else {
        s
    }
}

/// A comment line without the markers and the white space at its start and
/// without the white space at its end.
pub open spec fn cleaned(line: Text) -> Text {
    trimmed_end(without_margin(line))
}

/// Removes the markers at the start of a comment line and the white space around
/// it.
pub fn clean_doc_line(line: &str) -> (r: String)
    ensures
        r@ == cleaned(line@),
{
    let v = chars_of(line);
    let mut from: usize = 0;
    assert(v@.skip(0) =~= v@);
    while from < v.len() && (char_is_whitespace(v[from]) || v[from] == '*')
        invariant
            from <= v@.len(),
            without_margin(v@) == without_margin(v@.skip(from as int)),
        decreases v@.len() - from,
    {
        assert(v@.skip(from as int).drop_first() =~= v@.skip(from + 1));
        from += 1;
    }
    let to: usize = end_of_text(&v, from);
    string_of(v.as_slice(), from, to)
}

/// What trimming the end keeps stands as it stood.
proof fn lemma_trimmed_end_is_prefix(s: Text)
    ensures
        trimmed_end(s).len() <= s.len(),
        trimmed_end(s) == s.take(trimmed_end(s).len() as int),
        trimmed_end(s).len() > 0 ==> !is_whitespace(trimmed_end(s).last()),
    decreases s.len(),
{
    if s.len() > 0 && is_whitespace(s.last()) {
        lemma_trimmed_end_is_prefix(s.drop_last());
        assert(s.drop_last().take(trimmed_end(s).len() as int) =~= s.take(
            trimmed_end(s).len() as int,
        ));
    } else {
        assert(s.take(s.len() as int) =~= s);
    }
}

proof fn lemma_margin_is_gone(s: Text)
    ensures
        without_margin(s).len() > 0 ==> !is_margin(without_margin(s).first()),
    decreases s.len(),
{
    if s.len() > 0 && is_margin(s.first()) {
        lemma_margin_is_gone(s.drop_first());
    }
}

/// A cleaned line begins with neither a marker nor white space, so that a new
/// marker can stand before it.
pub proof fn law_cleaned_line_has_no_marker(line: Text)
    ensures
        cleaned(line).len() > 0 ==> cleaned(line).first() != '*' && !is_whitespace(
            cleaned(line).first(),
        ),
{
    lemma_margin_is_gone(line);
    lemma_trimmed_end_is_prefix(without_margin(line));
}

/// A cleaned line has no white space at its end.
pub proof fn law_cleaned_line_has_no_trailing_space(line: Text)
    ensures
        cleaned(line).len() > 0 ==> !is_whitespace(cleaned(line).last()),
{
    lemma_trimmed_end_is_prefix(without_margin(line));
}

/// Cleaning a line a second time changes nothing.
pub proof fn law_cleaning_twice_is_cleaning_once(line: Text)
    ensures
        cleaned(cleaned(line)) == cleaned(line),
{
    law_cleaned_line_has_no_marker(line);
    law_cleaned_line_has_no_trailing_space(line);
}

/// The first `n` lines as lines of a block comment.
pub open spec fn comment_lines(lines: Seq<Text>, indent: Text, n: nat) -> Text
    decreases n,
{
    if n == 0 {
        Seq::empty()
    } else {
        comment_lines(lines, indent, (n - 1) as nat) + indent + " * "@ + cleaned(lines[n - 1])
            + "\n"@
    }
}

/// Appends lines of a block comment.
fn emit_comment_lines(out: &mut String, lines: &[String], indent: &str)
    ensures
        final(out)@ == old(out)@ + comment_lines(views(lines@), indent@, lines@.len()),
{
    let ghost before = out@;
    for i in 0..lines.len()
        invariant
            before == old(out)@,
            out@ == before + comment_lines(views(lines@), indent@, i as nat),
    {
        assert(views(lines@)[i as int] == lines@[i as int]@);
        out.push_str(indent);
        out.push_str(" * ");
        out.push_str(clean_doc_line(lines[i].as_str()).as_str());
        out.push_str("\n");
    }
}

/// A block comment of the lines, or nothing where there is none.
#[verifier::opaque]
pub open spec fn comment_block(lines: Seq<Text>, indent: Text) -> Text {
    if lines.len() == 0 {
        Seq::empty()
    } else {
        indent + "/**\n"@ + comment_lines(lines, indent, lines.len()) + indent + " */\n"@
    }
}

/// Appends a block comment of the lines, where there are any.
pub fn emit_comment_block(out: &mut String, primary: &[String], indent: &str)
    ensures
        final(out)@ == old(out)@ + comment_block(views(primary@), indent@),
{
    proof {
        reveal(comment_block);
    }
    if primary.len() == 0 {
        return;
    }
    out.push_str(indent);
    out.push_str("/**\n");
    emit_comment_lines(out, primary, indent);
    out.push_str(indent);
    out.push_str(" */\n");
}

/// A documentation comment: its own lines, then those of the definition.
pub open spec fn doc_block(lines: Seq<Text>, extra: Seq<Text>) -> Text {
    "/**\n"@ + comment_lines(lines, ""@, lines.len()) + comment_lines(extra, ""@, extra.len())
        + " */\n"@
}

/// Appends a documentation comment.
pub fn emit_doc_block(out: &mut String, lines: &[String], extra: &[String])
    ensures
        final(out)@ == old(out)@ + doc_block(views(lines@), views(extra@)),
{
    out.push_str("/**\n");
    emit_comment_lines(out, lines, "");
    emit_comment_lines(out, extra, "");
    out.push_str(" */\n");
}

/// A name with words before and after it.
pub open spec fn sentence(before: Text, name: Text, after: Text) -> Text {
    before + name + after
}

/// Puts words before and after a name.
pub fn sentence_of(before: &str, name: &str, after: &str) -> (r: String)
    ensures
        r@ == sentence(before@, name@, after@),
{
    let mut r = owned(before);
    r.push_str(name);
    r.push_str(after);
    r
}

/// Appends a documentation comment with one line of its own.
pub fn emit_doc_line(out: &mut String, line: String, extra: &[String])
    ensures
        final(out)@ == old(out)@ + doc_block(seq![line@], views(extra@)),
{
    let mut lines: Vec<String> = Vec::new();
    lines.push(line);
    emit_doc_block(out, lines.as_slice(), extra);
}

/// The lines on an accessor of sequence elements: what it is, then its
/// parameters.
pub open spec fn element_doc_lines(first: Text, sequence: Text) -> Seq<Text> {
    seq![
        first,
        "@param buf - the message buffer to add the message to"@,
        "@param msg - the index of the start of the message"@,
        sentence("@param i0 - index of "@, sequence, " sequence."@),
    ]
}

fn element_doc(first: String, sequence: &str) -> (r: Vec<String>)
    ensures
        views(r@) == element_doc_lines(first@, sequence@),
{
    let mut lines: Vec<String> = Vec::new();
    lines.push(first);
    lines.push(owned("@param buf - the message buffer to add the message to"));
    lines.push(owned("@param msg - the index of the start of the message"));
    lines.push(sentence_of("@param i0 - index of ", sequence, " sequence."));
    lines
}

/// The documentation comment of a function that reads an element.
pub open spec fn element_getter_doc(value: Text, sequence: Text, extra: Seq<Text>) -> Text {
    doc_block(
        element_doc_lines(sentence("A getter for the "@, value, " field"@), sequence),
        extra,
    )
}

/// Appends the documentation comment of a function that reads an element.
pub fn emit_element_getter_doc(out: &mut String, value: &str, sequence: &str, extra: &[String])
    ensures
        final(out)@ == old(out)@ + element_getter_doc(value@, sequence@, views(extra@)),
{
    let lines = element_doc(sentence_of("A getter for the ", value, " field"), sequence);
    emit_doc_block(out, lines.as_slice(), extra);
}

/// The documentation comment of a function that writes an element.
pub open spec fn element_setter_doc(value: Text, sequence: Text, extra: Seq<Text>) -> Text {
    doc_block(
        element_doc_lines(sentence("A setter for the "@, value, " field"@), sequence).push(
            "@param "@ + value,
        ),
        extra,
    )
}

/// Appends the documentation comment of a function that writes an element.
pub fn emit_element_setter_doc(out: &mut String, value: &str, sequence: &str, extra: &[String])
    ensures
        final(out)@ == old(out)@ + element_setter_doc(value@, sequence@, views(extra@)),
{
    let mut lines = element_doc(sentence_of("A setter for the ", value, " field"), sequence);
    let mut param = owned("@param ");
    param.push_str(value);
    lines.push(param);
    emit_doc_block(out, lines.as_slice(), extra);
}

/// The parameter lines of the first `n` fields: one for each scalar, with the
/// first line of its comment.
pub open spec fn builder_params(fields: Seq<FieldView>, n: nat) -> Text
    decreases n,
{
    if n == 0 {
        Seq::empty()
    } else {
        let before = builder_params(fields, (n - 1) as nat);
        let f = fields[n - 1];
        match f.kind {
            FieldKindView::Scalar(_) => before + " * @param "@ + f.name + (if f.comments.len() > 0 {
                " - "@ + cleaned(f.comments[0]) + "\n"@
            } else {
                "\n"@
            }),
            FieldKindView::Sequence(_) => before,
        }
    }
}

/// The documentation comment of the function that adds a message.
#[verifier::opaque]
pub open spec fn builder_doc(m: MessageView) -> Text {
    "/**\n"@ + " * Adds a "@ + m.words + " to the end of the current buffer\n"@
        + comment_lines(m.comments, ""@, m.comments.len())
        + " * @param buf - the message buffer to add the message to\n"@ + builder_params(
        m.fields,
        m.fields.len(),
    ) + " * @returns - the index of the new message.\n"@ + " */\n"@
}

fn emit_builder_params(out: &mut String, m: &MessageModel)
    ensures
        final(out)@ == old(out)@ + builder_params(m@.fields, m@.fields.len()),
{
    let ghost before = out@;
    for i in 0..m.fields.len()
        invariant
            before == old(out)@,
            out@ == before + builder_params(m@.fields, i as nat),
    {
        let f = &m.fields[i];
        assert(m@.fields[i as int] == f@);
        if let MessageFieldKind::Scalar(_) = &f.kind {
            out.push_str(" * @param ");
            out.push_str(f.name.as_str());
            if f.comments.len() > 0 {
                assert(f@.comments[0] == f.comments@[0]@);
                out.push_str(" - ");
                out.push_str(clean_doc_line(f.comments[0].as_str()).as_str());
            }
            out.push_str("\n");
        }
    }
}

/// Appends the documentation comment of the function that adds a message.
pub fn emit_doc_add_builder(out: &mut String, m: &MessageModel)
    ensures
        final(out)@ == old(out)@ + builder_doc(m@),
{
    proof {
        reveal(builder_doc);
    }
    out.push_str("/**\n");
    out.push_str(" * Adds a ");
    out.push_str(m.words.as_str());
    out.push_str(" to the end of the current buffer\n");
    emit_comment_lines(out, m.comments.as_slice(), "");
    out.push_str(" * @param buf - the message buffer to add the message to\n");
    emit_builder_params(out, m);
    out.push_str(" * @returns - the index of the new message.\n");
    out.push_str(" */\n");
}

/// A line of a comment stands in it.
pub proof fn lemma_comment_line(lines: Seq<Text>, indent: Text, n: nat, k: int)
    requires
        0 <= k < n <= lines.len(),
    ensures
        occurs(comment_lines(lines, indent, n), indent + " * "@ + cleaned(lines[k]) + "\n"@),
    decreases n,
{
    broadcast use lemma_occurs_in_sum;

    let line = indent + " * "@ + cleaned(lines[k]) + "\n"@;
    if k < n - 1 {
        lemma_comment_line(lines, indent, (n - 1) as nat, k);
    } else {
        lemma_occurs(comment_lines(lines, indent, (n - 1) as nat), line, Seq::empty());
    }
}

/// Every line of a comment stands in it, after a star, without the markers and the white space
/// that it had around it.
pub proof fn law_comments_keep_every_line(lines: Seq<Text>, extra: Seq<Text>, k: int)
    ensures
        0 <= k < lines.len() ==> occurs(
            doc_block(lines, extra),
            " * "@ + cleaned(lines[k]) + "\n"@,
        ),
        0 <= k < extra.len() ==> occurs(
            doc_block(lines, extra),
            " * "@ + cleaned(extra[k]) + "\n"@,
        ),
        0 <= k < lines.len() ==> occurs(
            comment_block(lines, ""@),
            " * "@ + cleaned(lines[k]) + "\n"@,
        ),
{
    broadcast use lemma_occurs_in_sum;

    reveal(comment_block);
    reveal_strlit("");
    assert(""@ =~= Seq::<char>::empty());
    if 0 <= k < lines.len() {
        lemma_comment_line(lines, ""@, lines.len(), k);
    }
    if 0 <= k < extra.len() {
        lemma_comment_line(extra, ""@, extra.len(), k);
    }
}

/// A cleaned line is what is left of the line when white space and stars are taken from its
/// front and white space from its end: it stands in the line, with nothing else before it or
/// after it.
pub proof fn law_cleaning_takes_only_the_margin(line: Text)
    ensures
        exists|before: Text, after: Text|
            line == #[trigger] (before + cleaned(line) + after) && (forall|i: int|
                0 <= i < before.len() ==> is_whitespace(#[trigger] before[i]) || before[i] == '*')
                && (forall|i: int| 0 <= i < after.len() ==> is_whitespace(#[trigger] after[i])),
{
    lemma_margin(line);
    let n = (line.len() - without_margin(line).len()) as int;
    let rest = without_margin(line);
    lemma_end(rest);
    let before = line.take(n);
    let after = rest.skip(trimmed_end(rest).len() as int);
    assert(line =~= before + cleaned(line) + after) by {
        assert(line.skip(n) == rest);
        assert(rest.take(trimmed_end(rest).len() as int) == trimmed_end(rest));
        assert(line =~= line.take(n) + line.skip(n));
        assert(rest =~= rest.take(trimmed_end(rest).len() as int) + after);
    }
}

proof fn lemma_margin(s: Text)
    ensures
        without_margin(s).len() <= s.len(),
        s.skip(s.len() - without_margin(s).len()) == without_margin(s),
        forall|i: int|
            0 <= i < s.len() - without_margin(s).len() ==> is_whitespace(#[trigger] s[i]) || s[i]
                == '*',
    decreases s.len(),
{
    if s.len() > 0 && is_margin(s.first()) {
        let rest = s.drop_first();
        lemma_margin(rest);
        let n = s.len() - without_margin(s).len();
        assert(s.skip(n) =~= rest.skip(n - 1));
        assert forall|i: int| 0 <= i < n implies is_whitespace(#[trigger] s[i]) || s[i] == '*' by {
            if i > 0 {
                assert(rest[i - 1] == s[i]);
            }
        }
    } else {
        assert(s.skip(0) =~= s);
    }
}

proof fn lemma_end(s: Text)
    ensures
        trimmed_end(s).len() <= s.len(),
        s.take(trimmed_end(s).len() as int) == trimmed_end(s),
        forall|i: int|
            trimmed_end(s).len() <= i < s.len() ==> is_whitespace(#[trigger] s[i]),
    decreases s.len(),
{
    lemma_trimmed_end_is_prefix(s);
    if s.len() > 0 && is_whitespace(s.last()) {
        let rest = s.drop_last();
        lemma_end(rest);
        assert forall|i: int| trimmed_end(s).len() <= i < s.len() implies is_whitespace(
            #[trigger] s[i],
        ) by {
            if i < rest.len() {
                assert(rest[i] == s[i]);
            }
        }
    }
}

/// A line of a block comment.
pub open spec fn comment_line(line: Text) -> Text {
    " * "@ + cleaned(line) + "\n"@
}

proof fn lemma_comment_lines_are_joined(lines: Seq<Text>, n: nat)
    requires
        n <= lines.len(),
    ensures
        comment_lines(lines, ""@, n) == joined(
            lines.take(n as int).map_values(|line: Text| comment_line(line)),
            ""@,
        ),
    decreases n,
{
    reveal_strlit("");
    assert(""@ =~= Seq::<char>::empty());
    if n > 0 {
        lemma_comment_lines_are_joined(lines, (n - 1) as nat);
        let parts = lines.take(n as int).map_values(|line: Text| comment_line(line));
        assert(parts.drop_last() =~= lines.take(n - 1).map_values(
            |line: Text| comment_line(line),
        ));
        assert(parts.last() == comment_line(lines[n - 1]));
    }
}

/// A comment holds one line for each of its own lines and then one for each line of the
/// definition, in their order, and nothing else; one without any line of its own is left out
/// where the definition has no comment.
pub proof fn law_comments_hold_their_lines_in_order(lines: Seq<Text>, extra: Seq<Text>)
    ensures
        doc_block(lines, extra) == "/**\n"@ + joined(
            lines.map_values(|line: Text| comment_line(line)),
            ""@,
        ) + joined(extra.map_values(|line: Text| comment_line(line)), ""@) + " */\n"@,
        comment_block(lines, ""@) == if lines.len() == 0 {
            Seq::empty()
        } else {
            doc_block(lines, Seq::empty())
        },
{
    reveal(comment_block);
    reveal_strlit("");
    assert(""@ =~= Seq::<char>::empty());
    lemma_comment_lines_are_joined(lines, lines.len());
    lemma_comment_lines_are_joined(extra, extra.len());
    assert(lines.take(lines.len() as int) =~= lines);
    assert(extra.take(extra.len() as int) =~= extra);
}

/// The line on a parameter: for a single value its name, with the first line of its comment where
/// it has one; nothing for a sequence.
pub open spec fn parameter_line(f: FieldView) -> Text {
    match f.kind {
        FieldKindView::Scalar(_) => " * @param "@ + f.name + (if f.comments.len() > 0 {
            " - "@ + cleaned(f.comments[0])
        } else {
            Seq::empty()
        }) + "\n"@,
        FieldKindView::Sequence(_) => Seq::empty(),
    }
}

proof fn lemma_parameters_are_joined(fields: Seq<FieldView>, n: nat)
    requires
        n <= fields.len(),
    ensures
        builder_params(fields, n) == joined(
            fields.take(n as int).map_values(|f: FieldView| parameter_line(f)),
            ""@,
        ),
    decreases n,
{
    reveal_strlit("");
    assert(""@ =~= Seq::<char>::empty());
    if n > 0 {
        lemma_parameters_are_joined(fields, (n - 1) as nat);
        let parts = fields.take(n as int).map_values(|f: FieldView| parameter_line(f));
        assert(parts.drop_last() =~= fields.take(n - 1).map_values(
            |f: FieldView| parameter_line(f),
        ));
        assert(parts.last() == parameter_line(fields[n - 1]));
    }
}

/// The comment on a builder says what it adds, then what the definition says, then what it takes,
/// in declared order, and then what it returns.
pub proof fn law_builder_comments_hold_their_lines_in_order(m: MessageView)
    ensures
        builder_doc(m) == "/**\n"@ + " * Adds a "@ + m.words
            + " to the end of the current buffer\n"@ + joined(
            m.comments.map_values(|line: Text| comment_line(line)),
            ""@,
        ) + " * @param buf - the message buffer to add the message to\n"@ + joined(
            m.fields.map_values(|f: FieldView| parameter_line(f)),
            ""@,
        ) + " * @returns - the index of the new message.\n"@ + " */\n"@,
{
    reveal(builder_doc);
    lemma_comment_lines_are_joined(m.comments, m.comments.len());
    lemma_parameters_are_joined(m.fields, m.fields.len());
    assert(m.comments.take(m.comments.len() as int) =~= m.comments);
    assert(m.fields.take(m.fields.len() as int) =~= m.fields);
}

} // verus!
