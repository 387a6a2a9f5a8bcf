//! Topic templates and quoted text.
use vstd::prelude::*;
use crate::concat::{views, Text};
use crate::text::{chars_of, owned, same_text, string_of};

verus! {

broadcast use {crate::concat::group_append, crate::concat::group_views};

/// How a character stands between double quotes.
pub open spec fn escape(c: char) -> Text {
    if c == '"' {
        "\\\""@
    } else if c == '\\' {
        "\\\\"@
    } else if c == '\n' {
        "\\n"@
    } else if c == '\r' {
        "\\r"@
    } else if c == '\t' {
        "\\t"@
    } else {
        seq![c]
    }
}

/// Text with its special characters escaped.
pub open spec fn escaped(s: Text) -> Text
    decreases s.len(),
{
    if s.len() == 0 {
        Seq::empty()
    } else {
        escape(s.first()) + escaped(s.drop_first())
    }
}

/// Text between double quotes.
pub open spec fn quoted(s: Text) -> Text {
    "\""@ + escaped(s) + "\""@
}

/// A double-quoted literal of a text.
pub fn quoted_string(value: &str) -> (r: String)
    ensures
        r@ == quoted(value@),
{
    let v = chars_of(value);
    let mut out = owned("\"");
    let ghost open = out@;
    assert(v@.skip(0) =~= v@);
    for i in 0..v.len()
        invariant
            v@ == value@,
            out@ + escaped(v@.skip(i as int)) == open + escaped(value@),
    {
        let c = v[i];
        let ghost before = out@;
        match c {
            '"' => out.push_str("\\\""),
            '\\' => out.push_str("\\\\"),
            '\n' => out.push_str("\\n"),
            '\r' => out.push_str("\\r"),
            '\t' => out.push_str("\\t"),
            _ => out.push(c),
        }
        assert(out@ =~= before + escape(c));
        assert(v@.skip(i as int).drop_first() =~= v@.skip(i + 1));
    }
    assert(escaped(v@.skip(v@.len() as int)) == Seq::<char>::empty());
    out.push_str("\"");
    out
}

/// The character that an escape stands for, by what follows its backslash.
pub open spec fn unescape(c: char) -> char {
    if c == 'n' {
        '\n'
    } else if c == 'r' {
        '\r'
    } else if c == 't' {
        '\t'
    } else {
        c
    }
}

/// What text with escapes stands for.
pub open spec fn unescaped(s: Text) -> Text
    decreases s.len(),
{
    if s.len() == 0 {
        Seq::empty()
    } else if s.first() == '\\' && s.len() > 1 {
        seq![unescape(s[1])] + unescaped(s.skip(2))
    } else {
        seq![s.first()] + unescaped(s.drop_first())
    }
}

/// Undoing the escapes gives back the text.
pub proof fn law_escapes_can_be_undone(s: Text)
    ensures
        unescaped(escaped(s)) == s,
    decreases s.len(),
{
    if s.len() > 0 {
        reveal_strlit("\\\"");
        reveal_strlit("\\\\");
        reveal_strlit("\\n");
        reveal_strlit("\\r");
        reveal_strlit("\\t");
        let c = s.first();
        let rest = escaped(s.drop_first());
        law_escapes_can_be_undone(s.drop_first());
        let e = escape(c) + rest;
        if escape(c).len() == 2 {
            assert(e.skip(2) =~= rest);
            assert(e[1] == escape(c)[1]);
            assert(e.first() == escape(c)[0]);
        } else {
            assert(escape(c) == seq![c]);
            assert(e.drop_first() =~= rest);
            assert(e.first() == c);
        }
        assert(unescaped(e) == seq![c] + unescaped(rest));
        assert(seq![c] + s.drop_first() =~= s);
    }
}

/// Different texts have different literals.
pub proof fn law_quoting_keeps_texts_apart(a: Text, b: Text)
    ensures
        quoted(a) == quoted(b) ==> a == b,
{
    if quoted(a) == quoted(b) {
        reveal_strlit("\"");
        assert(quoted(a).subrange(1, quoted(a).len() - 1) =~= escaped(a));
        assert(quoted(b).subrange(1, quoted(b).len() - 1) =~= escaped(b));
        law_escapes_can_be_undone(a);
        law_escapes_can_be_undone(b);
    }
}

/// A piece of a topic template.
#[derive(Debug)]
pub enum Piece {
    /// Text that stands for itself.
    Plain(String),
    /// A name between braces.
    Named(String),
}

/// What contracts see of a [`Piece`].
pub enum PieceView {
    Plain(Text),
    Named(Text),
}

impl View for Piece {
    type V = PieceView;

    open spec fn view(&self) -> PieceView {
        match self {
            Piece::Plain(text) => PieceView::Plain(text@),
            Piece::Named(name) => PieceView::Named(name@),
        }
    }
}

/// How many characters stand before the first `c`, all where there is none.
pub open spec fn before_first(s: Text, c: char) -> nat
    decreases s.len(),
{
    if s.len() == 0 || s.first() == c {
        0
    } else {
        1 + before_first(s.drop_first(), c)
    }
}

/// The first `c` is where counting before it stops.
pub proof fn lemma_before_first(s: Text, c: char)
    ensures
        before_first(s, c) <= s.len(),
        before_first(s, c) < s.len() ==> s[before_first(s, c) as int] == c,
    decreases s.len(),
{
    if s.len() > 0 && s.first() != c {
        lemma_before_first(s.drop_first(), c);
    }
}

/// What stands after the first `n` characters and one more.
pub open spec fn after_closing(s: Text, n: nat) -> Text {
    if n < s.len() {
        s.skip(n as int + 1)
    } else {
        Seq::empty()
    }
}

/// The pieces of a template. A brace opens a name that ends before the next
/// closing brace, or with the template; text outside of names is plain.
pub open spec fn pieces(s: Text) -> Seq<PieceView>
    decreases s.len(),
{
    if s.len() == 0 {
        Seq::empty()
    } else if s.first() == '{' {
        let rest = s.drop_first();
        let n = before_first(rest, '}');
        seq![PieceView::Named(rest.take(n as int))] + pieces(after_closing(rest, n))
    } else {
        let n = before_first(s, '{');
        proof {
            lemma_before_first(s, '{');
        }
        seq![PieceView::Plain(s.take(n as int))] + pieces(s.skip(n as int))
    }
}

/// Where the characters from `from` on meet the first `stop`, or end.
fn find_stop(v: &Vec<char>, from: usize, stop: char) -> (r: usize)
    requires
        from <= v@.len(),
    ensures
        from <= r <= v@.len(),
        r - from == before_first(v@.skip(from as int), stop),
{
    let mut i: usize = from;
    while i < v.len() && v[i] != stop
        invariant
            from <= i <= v@.len(),
            before_first(v@.skip(from as int), stop) == (i - from) + before_first(
                v@.skip(i as int),
                stop,
            ),
        decreases v@.len() - i,
    {
        assert(v@.skip(i as int).drop_first() =~= v@.skip(i + 1));
        i += 1;
    }
    i
}

/// Splits a template into its pieces.
pub fn split_template(template: &str) -> (r: Vec<Piece>)
    ensures
        views(r@) == pieces(template@),
{
    let v = chars_of(template);
    let mut out: Vec<Piece> = Vec::new();
    let mut i: usize = 0;
    assert(v@.skip(0) =~= v@);
    assert(views(out@) + pieces(v@) =~= pieces(v@));
    while i < v.len()
        invariant
            v@ == template@,
            i <= v@.len(),
            views(out@) + pieces(v@.skip(i as int)) == pieces(template@),
        decreases v@.len() - i,
    {
        let ghost done = views(out@);
        let ghost todo = v@.skip(i as int);
        if v[i] == '{' {
            let end: usize = find_stop(&v, i + 1, '}');
            assert(todo.drop_first() =~= v@.skip(i + 1));
            let name = string_of(v.as_slice(), i + 1, end);
            assert(name@ =~= todo.drop_first().take(end - (i + 1)));
            out.push(Piece::Named(name));
            i = if end < v.len() {
                end + 1
            } else {
                end
            };
            assert(v@.skip(i as int) =~= after_closing(
                todo.drop_first(),
                before_first(todo.drop_first(), '}'),
            ));
        } else {
            let end: usize = find_stop(&v, i, '{');
            let text = string_of(v.as_slice(), i, end);
            assert(text@ =~= todo.take(end - i));
            out.push(Piece::Plain(text));
            assert(v@.skip(end as int) =~= todo.skip(end - i));
            i = end;
        }
        assert(views(out@) + pieces(v@.skip(i as int)) =~= done + pieces(todo));
    }
    assert(pieces(v@.skip(v@.len() as int)) =~= Seq::<PieceView>::empty());
    assert(views(out@) + Seq::<PieceView>::empty() =~= views(out@));
    out
}

/// The template that the pieces were split from.
pub open spec fn template_of(ps: Seq<PieceView>) -> Text
    decreases ps.len(),
{
    if ps.len() == 0 {
        Seq::empty()
    } else {
        (match ps.first() {
            PieceView::Plain(text) => text,
            PieceView::Named(name) => seq!['{'] + name + seq!['}'],
        }) + template_of(ps.drop_first())
    }
}

/// Whether every brace that opens a name is closed.
pub open spec fn names_are_closed(s: Text) -> bool
    decreases s.len(),
{
    if s.len() == 0 {
        true
    } else if s.first() == '{' {
        let rest = s.drop_first();
        let n = before_first(rest, '}');
        n < rest.len() && names_are_closed(after_closing(rest, n))
    } else {
        let n = before_first(s, '{');
        proof {
            lemma_before_first(s, '{');
        }
        names_are_closed(s.skip(n as int))
    }
}

/// Splitting loses nothing: the pieces make up the template again. This leaves
/// out a template whose last name is not closed: the pieces make it up with that
/// name closed.
pub proof fn law_pieces_make_up_the_template(s: Text)
    requires
        names_are_closed(s),
    ensures
        template_of(pieces(s)) == s,
    decreases s.len(),
{
    if s.len() > 0 {
        let ps = pieces(s);
        if s.first() == '{' {
            let rest = s.drop_first();
            let n = before_first(rest, '}');
            lemma_before_first(rest, '}');
            law_pieces_make_up_the_template(after_closing(rest, n));
            assert(ps.drop_first() =~= pieces(after_closing(rest, n)));
            assert(seq!['{'] + rest.take(n as int) + seq!['}'] + after_closing(rest, n) =~= s);
        } else {
            let n = before_first(s, '{');
            lemma_before_first(s, '{');
            law_pieces_make_up_the_template(s.skip(n as int));
            assert(ps.drop_first() =~= pieces(s.skip(n as int)));
            assert(s.take(n as int) + s.skip(n as int) =~= s);
        }
    }
}

/// A value that is filled into a topic.
#[derive(Debug, Clone, Copy, PartialEq, Eq, Structural)]
pub enum TopicPlaceholder {
    DeviceType,
    Nid,
}

/// A topic as a format string and what to fill into it.
#[derive(Debug, Clone)]
pub struct TopicFormat {
    pub template: String,
    pub placeholders: Vec<TopicPlaceholder>,
}

/// What contracts see of a [`TopicFormat`].
pub struct TopicFormatView {
    pub template: Text,
    pub placeholders: Seq<TopicPlaceholder>,
}

impl View for TopicFormat {
    type V = TopicFormatView;

    open spec fn view(&self) -> TopicFormatView {
        TopicFormatView { template: self.template@, placeholders: self.placeholders@ }
    }
}

/// The value that a name stands for, if it stands for one.
pub open spec fn placeholder_of(name: Text) -> Option<TopicPlaceholder> {
    if name == "device_type"@ {
        Some(TopicPlaceholder::DeviceType)
    } else if name == "nid"@ {
        Some(TopicPlaceholder::Nid)
    } else {
        None
    }
}

/// The value that a name stands for, if it stands for one.
pub fn find_placeholder(name: &str) -> (r: Option<TopicPlaceholder>)
    ensures
        r == placeholder_of(name@),
{
    if same_text(name, "device_type") {
        Some(TopicPlaceholder::DeviceType)
    } else if same_text(name, "nid") {
        Some(TopicPlaceholder::Nid)
    } else {
        None
    }
}

/// A topic with the first `n` pieces: a placeholder becomes `%s`, anything else
/// stays.
pub open spec fn format_upto(ps: Seq<PieceView>, n: nat) -> TopicFormatView
    decreases n,
{
    if n == 0 {
        TopicFormatView { template: Seq::empty(), placeholders: Seq::empty() }
    } else {
        let before = format_upto(ps, (n - 1) as nat);
        match ps[n - 1] {
            PieceView::Plain(text) => TopicFormatView {
                template: before.template + text,
                ..before
            },
            PieceView::Named(name) => match placeholder_of(name) {
                Some(p) => TopicFormatView {
                    template: before.template + "%s"@,
                    placeholders: before.placeholders.push(p),
                },
                None => TopicFormatView {
                    template: before.template + "{"@ + name + "}"@,
                    ..before
                },
            },
        }
    }
}

/// A topic as a format string: the placeholders `{device_type}` and `{nid}`
/// become `%s` and are listed in order.
pub fn topic_format(template: &str) -> (r: TopicFormat)
    ensures
        r@ == format_upto(pieces(template@), pieces(template@).len()),
{
    let ps = split_template(template);
    let ghost all = views(ps@);
    let mut fmt = String::new();
    let mut placeholders: Vec<TopicPlaceholder> = Vec::new();
    for i in 0..ps.len()
        invariant
            all == views(ps@),
            format_upto(all, i as nat) == (TopicFormatView {
                template: fmt@,
                placeholders: placeholders@,
            }),
    {
        assert(all[i as int] == ps@[i as int]@);
        match &ps[i] {
            Piece::Plain(text) => fmt.push_str(text.as_str()),
            Piece::Named(name) => match find_placeholder(name.as_str()) {
                Some(p) => {
                    fmt.push_str("%s");
                    placeholders.push(p);
                },
                None => {
                    fmt.push_str("{");
                    fmt.push_str(name.as_str());
                    fmt.push_str("}");
                },
            },
        }
    }
    TopicFormat { template: fmt, placeholders }
}

/// How many of the first `n` pieces are placeholders.
pub open spec fn placeholder_count(ps: Seq<PieceView>, n: nat) -> nat
    decreases n,
{
    if n == 0 {
        0
    } else {
        placeholder_count(ps, (n - 1) as nat) + (match ps[n - 1] {
            PieceView::Named(name) => if placeholder_of(name) is Some {
                1nat
            } else {
                0
            },
            PieceView::Plain(_) => 0,
        })
    }
}

/// A format lists one value for each placeholder of its template.
pub proof fn law_every_placeholder_is_listed(ps: Seq<PieceView>, n: nat)
    ensures
        format_upto(ps, n).placeholders.len() == placeholder_count(ps, n),
    decreases n,
{
    if n > 0 {
        law_every_placeholder_is_listed(ps, (n - 1) as nat);
    }
}

proof fn lemma_before_first_at(s: Text, c: char, n: nat)
    requires
        n <= s.len(),
        forall|i: int| 0 <= i < n ==> #[trigger] s[i] != c,
        n < s.len() ==> s[n as int] == c,
    ensures
        before_first(s, c) == n,
    decreases n,
{
    if n > 0 {
        assert(s[0] != c);
        let rest = s.drop_first();
        assert forall|i: int| 0 <= i < n - 1 implies #[trigger] rest[i] != c by {
            assert(rest[i] == s[i + 1]);
        }
        lemma_before_first_at(rest, c, (n - 1) as nat);
    }
}

/// A template is split at its braces: text without an opening brace is one plain piece, and
/// what stands between an opening brace and the next closing one is a name.
pub proof fn law_templates_are_split_at_braces(plain: Text, name: Text, rest: Text)
    requires
        forall|i: int| 0 <= i < plain.len() ==> #[trigger] plain[i] != '{',
        forall|i: int| 0 <= i < name.len() ==> #[trigger] name[i] != '}',
    ensures
        pieces(plain) == (if plain.len() == 0 {
            Seq::empty()
        } else {
            seq![PieceView::Plain(plain)]
        }),
        pieces(plain + seq!['{'] + name + seq!['}'] + rest) == pieces(plain) + seq![
            PieceView::Named(name),
        ] + pieces(rest),
{
    let named = seq!['{'] + name + seq!['}'] + rest;
    let inner = name + seq!['}'] + rest;
    assert(named.drop_first() =~= inner);
    assert forall|i: int| 0 <= i < name.len() implies #[trigger] inner[i] != '}' by {
        assert(inner[i] == name[i]);
    }
    lemma_before_first_at(inner, '}', name.len());
    assert(inner.take(name.len() as int) =~= name);
    assert(after_closing(inner, name.len()) =~= rest);
    assert(pieces(named) == seq![PieceView::Named(name)] + pieces(rest));
    let whole = plain + seq!['{'] + name + seq!['}'] + rest;
    assert(whole =~= plain + named);
    if plain.len() == 0 {
        assert(whole =~= named);
        assert(pieces(plain) + seq![PieceView::Named(name)] + pieces(rest) =~= pieces(named));
    } else {
        lemma_before_first_at(plain, '{', plain.len());
        assert(plain.take(plain.len() as int) =~= plain);
        let nothing = plain.skip(plain.len() as int);
        assert(nothing =~= Seq::<char>::empty());
        assert(pieces(nothing) =~= Seq::<PieceView>::empty());
        assert(pieces(plain) == seq![PieceView::Plain(plain)] + pieces(nothing));
        assert(pieces(plain) =~= seq![PieceView::Plain(plain)]);
        assert(whole[0] == plain[0]);
        assert forall|i: int| 0 <= i < plain.len() implies #[trigger] whole[i] != '{' by {
            assert(whole[i] == plain[i]);
        }
        lemma_before_first_at(whole, '{', plain.len());
        assert(whole.take(plain.len() as int) =~= plain);
        assert(whole.skip(plain.len() as int) =~= named);
        assert(pieces(whole) == seq![PieceView::Plain(plain)] + pieces(named));
        assert(pieces(whole) =~= pieces(plain) + seq![PieceView::Named(name)] + pieces(rest));
    }
}

proof fn lemma_format_first(p: PieceView, ps: Seq<PieceView>, n: nat)
    requires
        n <= ps.len(),
    ensures
        ({
            let one = format_upto(seq![p], 1);
            let rest = format_upto(ps, n);
            let all = format_upto(seq![p] + ps, n + 1);
            &&& all.template == one.template + rest.template
            &&& all.placeholders == one.placeholders + rest.placeholders
        }),
    decreases n,
{
    let one = format_upto(seq![p], 1);
    let all = format_upto(seq![p] + ps, n + 1);
    reveal_with_fuel(format_upto, 2);
    if n == 0 {
        assert((seq![p] + ps)[0] == p);
        assert(all.template =~= one.template + Seq::<char>::empty());
        assert(all.placeholders =~= one.placeholders + Seq::<TopicPlaceholder>::empty());
    } else {
        lemma_format_first(p, ps, (n - 1) as nat);
        assert((seq![p] + ps)[n as int] == ps[n - 1]);
        let rest = format_upto(ps, n);
        assert(all.template =~= one.template + rest.template);
        assert(all.placeholders =~= one.placeholders + rest.placeholders);
    }
}

/// The format of a topic.
pub open spec fn formatted(topic: Text) -> TopicFormatView {
    format_upto(pieces(topic), pieces(topic).len())
}

/// In the format of a topic plain text stays as it is, each of the two placeholders becomes a
/// place for a string and is listed in its turn, and any other name stays in its braces.
pub proof fn law_placeholders_are_formatted(plain: Text, name: Text, rest: Text)
    requires
        forall|i: int| 0 <= i < plain.len() ==> #[trigger] plain[i] != '{',
        forall|i: int| 0 <= i < name.len() ==> #[trigger] name[i] != '}',
    ensures
        formatted(plain).template == plain,
        formatted(plain).placeholders.len() == 0,
        ({
            let whole = formatted(plain + seq!['{'] + name + seq!['}'] + rest);
            let after = formatted(rest);
            if name == "device_type"@ {
                &&& whole.template == plain + "%s"@ + after.template
                &&& whole.placeholders == seq![TopicPlaceholder::DeviceType] + after.placeholders
            } else if name == "nid"@ {
                &&& whole.template == plain + "%s"@ + after.template
                &&& whole.placeholders == seq![TopicPlaceholder::Nid] + after.placeholders
            } else {
                &&& whole.template == plain + "{"@ + name + "}"@ + after.template
                &&& whole.placeholders == after.placeholders
            }
        }),
{
    law_templates_are_split_at_braces(plain, name, rest);
    let whole = plain + seq!['{'] + name + seq!['}'] + rest;
    let named = PieceView::Named(name);
    let after = pieces(rest);
    reveal_with_fuel(format_upto, 2);
    reveal_strlit("device_type");
    reveal_strlit("nid");
    assert("device_type"@.len() != "nid"@.len());
    lemma_format_first(named, after, after.len());
    let tail = seq![named] + after;
    let one = format_upto(seq![named], 1);
    assert(seq![named][0] == named);
    assert(one.placeholders =~= match placeholder_of(name) {
        Some(p) => seq![p],
        None => Seq::empty(),
    });
    assert(Seq::<TopicPlaceholder>::empty() + formatted(rest).placeholders =~= formatted(
        rest,
    ).placeholders);
    if plain.len() == 0 {
        assert(plain =~= Seq::<char>::empty());
        assert(pieces(whole) =~= tail);
    } else {
        assert(seq![PieceView::Plain(plain)][0] == PieceView::Plain(plain));
        lemma_format_first(PieceView::Plain(plain), tail, tail.len());
        assert(pieces(whole) =~= seq![PieceView::Plain(plain)] + tail);
        let head = format_upto(seq![PieceView::Plain(plain)], 1);
        assert(head.template =~= plain);
        assert(head.placeholders =~= Seq::<TopicPlaceholder>::empty());
        assert(head.placeholders + format_upto(tail, tail.len()).placeholders =~= format_upto(
            tail,
            tail.len(),
        ).placeholders);
    }
}

} // verus!
