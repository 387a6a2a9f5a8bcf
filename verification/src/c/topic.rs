//! Topics as C string literals.
use vstd::prelude::*;
use crate::common::topic::{
    find_placeholder, law_templates_are_split_at_braces, pieces, placeholder_of, split_template,
    unescaped, Piece, PieceView, TopicPlaceholder,
};
use crate::concat::{views, Text};
use crate::text::{chars_of, owned};

verus! {

broadcast use {crate::concat::group_append, crate::concat::group_views};

/// How a character of a topic stands in the literal: a quote or a backslash
/// escaped, any other as it is.
pub open spec fn char_literal(c: char) -> Text {
    if c == '"' {
        "\\\""@
    } else if c == '\\' {
        "\\\\"@
    } else {
        seq![c]
    }
}

/// How text outside of names stands in the literal.
pub open spec fn plain_literal(s: Text) -> Text
    decreases s.len(),
{
    if s.len() == 0 {
        Seq::empty()
    } else {
        plain_literal(s.drop_last()) + char_literal(s.last())
    }
}

fn emit_plain(out: &mut String, text: &str)
    ensures
        final(out)@ == old(out)@ + plain_literal(text@),
{
    let v = chars_of(text);
    let ghost before = out@;
    for i in 0..v.len()
        invariant
            before == old(out)@,
            out@ == before + plain_literal(v@.take(i as int)),
    {
        let c = v[i];
        let ghost so_far = out@;
        match c {
            '"' => out.push_str("\\\""),
            '\\' => out.push_str("\\\\"),
            _ => {
                out.push(c);
                assert(out@ =~= so_far + seq![c]);
            },
        }
        assert(v@.take(i + 1).drop_last() =~= v@.take(i as int));
    }
    assert(v@.take(v@.len() as int) =~= v@);
}

/// How a piece of a topic stands in the literal: a placeholder as the byte that
/// the target fills in, any other name in its braces.
pub open spec fn piece_literal(p: PieceView) -> Text {
    match p {
        PieceView::Plain(text) => plain_literal(text),
        PieceView::Named(name) => match placeholder_of(name) {
            Some(TopicPlaceholder::DeviceType) => "\\x81"@,
            Some(TopicPlaceholder::Nid) => "\\x80"@,
            None => "{"@ + name + "}"@,
        },
    }
}

/// The literal of the first `n` pieces.
pub open spec fn piece_literals(ps: Seq<PieceView>, n: nat) -> Text
    decreases n,
{
    if n == 0 {
        Seq::empty()
    } else {
        piece_literals(ps, (n - 1) as nat) + piece_literal(ps[n - 1])
    }
}

/// The C literal of a topic.
pub open spec fn topic_literal(topic: Text) -> Text {
    "\""@ + piece_literals(pieces(topic), pieces(topic).len()) + "\""@
}

/// The C literal of a topic.
pub fn quoted_topic(topic: &str) -> (r: String)
    ensures
        r@ == topic_literal(topic@),
{
    let ps = split_template(topic);
    let ghost all = views(ps@);
    let mut out = owned("\"");
    let ghost open = out@;
    for i in 0..ps.len()
        invariant
            all == views(ps@),
            out@ == open + piece_literals(all, i as nat),
    {
        assert(all[i as int] == ps@[i as int]@);
        match &ps[i] {
            Piece::Plain(text) => emit_plain(&mut out, text.as_str()),
            Piece::Named(name) => match find_placeholder(name.as_str()) {
                Some(TopicPlaceholder::DeviceType) => out.push_str("\\x81"),
                Some(TopicPlaceholder::Nid) => out.push_str("\\x80"),
                None => {
                    out.push_str("{");
                    out.push_str(name.as_str());
                    out.push_str("}");
                },
            },
        }
    }
    out.push_str("\"");
    out
}

proof fn lemma_literals_first(p: PieceView, ps: Seq<PieceView>, n: nat)
    requires
        n <= ps.len(),
    ensures
        piece_literals(seq![p] + ps, n + 1) == piece_literal(p) + piece_literals(ps, n),
    decreases n,
{
    if n == 0 {
        reveal_with_fuel(piece_literals, 2);
        assert((seq![p] + ps)[0] == p);
    } else {
        lemma_literals_first(p, ps, (n - 1) as nat);
        assert((seq![p] + ps)[n as int] == ps[n - 1]);
    }
}

/// In the literal of a topic each of the two placeholders becomes the byte that stands for it,
/// any other name stays in its braces, and what comes after them follows as it would by itself.
pub proof fn law_placeholders_become_bytes(plain: Text, name: Text, rest: Text)
    requires
        forall|i: int| 0 <= i < plain.len() ==> #[trigger] plain[i] != '{',
        forall|i: int| 0 <= i < name.len() ==> #[trigger] name[i] != '}',
    ensures
        topic_literal(plain) == "\""@ + plain_literal(plain) + "\""@,
        ({
            let whole = topic_literal(plain + seq!['{'] + name + seq!['}'] + rest);
            let before = "\""@ + plain_literal(plain);
            let after = topic_literal(rest).drop_first();
            if name == "device_type"@ {
                whole == before + "\\x81"@ + after
            } else if name == "nid"@ {
                whole == before + "\\x80"@ + after
            } else {
                whole == before + "{"@ + name + "}"@ + after
            }
        }),
{
    law_templates_are_split_at_braces(plain, name, rest);
    let whole = plain + seq!['{'] + name + seq!['}'] + rest;
    let named = PieceView::Named(name);
    let after = pieces(rest);
    let tail = seq![named] + after;
    reveal_with_fuel(piece_literals, 2);
    reveal_strlit("\"");
    reveal_strlit("device_type");
    reveal_strlit("nid");
    assert("device_type"@.len() != "nid"@.len());
    lemma_literals_first(named, after, after.len());
    assert(topic_literal(rest).drop_first() =~= piece_literals(after, after.len()) + "\""@);
    if plain.len() == 0 {
        assert(plain =~= Seq::<char>::empty());
        assert(pieces(whole) =~= tail);
        assert(plain_literal(plain) =~= Seq::<char>::empty());
    } else {
        assert(seq![PieceView::Plain(plain)][0] == PieceView::Plain(plain));
        lemma_literals_first(PieceView::Plain(plain), tail, tail.len());
        assert(pieces(whole) =~= seq![PieceView::Plain(plain)] + tail);
    }
}

proof fn lemma_plain_first(s: Text)
    requires
        s.len() > 0,
    ensures
        plain_literal(s) == char_literal(s.first()) + plain_literal(s.drop_first()),
    decreases s.len(),
{
    if s.len() == 1 {
        assert(s.drop_last() =~= Seq::<char>::empty());
        assert(s.drop_first() =~= Seq::<char>::empty());
        reveal_with_fuel(plain_literal, 2);
    } else {
        lemma_plain_first(s.drop_last());
        assert(s.drop_last().drop_first() =~= s.drop_first().drop_last());
        assert(s.drop_first().last() == s.last());
        assert(s.drop_last().first() == s.first());
    }
}

/// Undoing the escapes in the literal of plain text gives back the text.
pub proof fn law_plain_literals_can_be_undone(s: Text)
    ensures
        unescaped(plain_literal(s)) == s,
    decreases s.len(),
{
    if s.len() > 0 {
        reveal_strlit("\\\"");
        reveal_strlit("\\\\");
        lemma_plain_first(s);
        law_plain_literals_can_be_undone(s.drop_first());
        let c = s.first();
        let rest = plain_literal(s.drop_first());
        let e = char_literal(c) + rest;
        if char_literal(c).len() == 2 {
            assert(e.skip(2) =~= rest);
            assert(e[1] == char_literal(c)[1]);
            assert(e.first() == char_literal(c)[0]);
        } else {
            assert(char_literal(c) == seq![c]);
            assert(e.drop_first() =~= rest);
            assert(e.first() == c);
        }
        assert(unescaped(e) == seq![c] + unescaped(rest));
        assert(seq![c] + s.drop_first() =~= s);
    }
}

} // verus!
