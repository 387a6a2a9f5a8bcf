//! Identifiers of the generated C code.
use vstd::prelude::*;
use crate::common::names::{law_snake_case_keeps_every_letter, letters, snake, snake_cased};
use crate::concat::{views, Path, Text};
use crate::text::{
    chars_of, ends_with, has_suffix, join, joined, lower, lowercase, owned, to_uppercase, uppercase,
};
use crate::unicode::{capitalize, capitalized};

verus! {

broadcast use {crate::concat::group_append, crate::concat::group_views};

/// A name in snake case, with a new word at a digit after a small letter.
pub open spec fn c_snake_case(s: Text) -> Text {
    snake_cased(s, true)
}

/// A name in snake case with ASCII capitals.
pub open spec fn screaming(s: Text) -> Text {
    uppercase(c_snake_case(s))
}

/// Turns a name into snake case: `c0` becomes `c_0`, `STM32F446` stays one word.
pub fn to_snake_case(identifier: &str) -> (r: String)
    ensures
        r@ == c_snake_case(identifier@),
{
    snake(identifier, true)
}

/// Turns a name into snake case with ASCII capitals.
pub fn to_screaming_snake(s: &str) -> (r: String)
    ensures
        r@ == screaming(s@),
{
    let low = to_snake_case(s);
    to_uppercase(low.as_str())
}

/// The macro prefix of a message.
pub fn screaming_message_token(name: &str) -> (r: String)
    ensures
        r@ == screaming(name@),
{
    to_screaming_snake(name)
}

/// The words found in the first `n` characters: those that an underscore has
/// ended, and the one that is still open.
pub struct WordState {
    pub words: Path,
    pub open: Text,
}

/// The words with the open one closed, unless it is empty.
pub open spec fn close_word(st: WordState) -> Path {
    if st.open.len() == 0 {
        st.words
    } else {
        st.words.push(st.open)
    }
}

/// The words of the first `n` characters.
pub open spec fn words_upto(s: Text, n: nat) -> WordState
    decreases n,
{
    if n == 0 {
        WordState { words: Seq::empty(), open: Seq::empty() }
    } else {
        let before = words_upto(s, (n - 1) as nat);
        if s[n - 1] == '_' {
            WordState { words: close_word(before), open: Seq::empty() }
        } else {
            WordState { words: before.words, open: before.open.push(s[n - 1]) }
        }
    }
}

/// The parts of a text between underscores, without the empty ones.
pub open spec fn words_of(s: Text) -> Path {
    close_word(words_upto(s, s.len()))
}

/// Splits a string at its underscores and drops the empty parts.
pub fn split_words(s: &str) -> (r: Vec<String>)
    ensures
        views(r@) == words_of(s@),
{
    let v = chars_of(s);
    let mut words: Vec<String> = Vec::new();
    let mut open = String::new();
    let mut open_is_empty: bool = true;
    for i in 0..v.len()
        invariant
            v@ == s@,
            views(words@) == words_upto(s@, i as nat).words,
            open@ == words_upto(s@, i as nat).open,
            open_is_empty == (open@.len() == 0),
    {
        if v[i] == '_' {
            if !open_is_empty {
                words.push(open);
            }
            open = String::new();
            open_is_empty = true;
        } else {
            open.push(v[i]);
            open_is_empty = false;
        }
    }
    if !open_is_empty {
        words.push(open);
    }
    words
}

/// Each word with its first character made a capital.
pub open spec fn capitalized_words(words: Path) -> Path {
    words.map_values(|w: Text| capitalized(w))
}

/// The words of a name, capitalised, with spaces between them.
pub open spec fn title(s: Text) -> Text {
    joined(capitalized_words(words_of(c_snake_case(s))), " "@)
}

/// Splits a name into capitalised words: `fooBarBaz` becomes `Foo Bar Baz`.
pub fn titlecase_words(s: &str) -> (r: String)
    ensures
        r@ == title(s@),
{
    let snake_text = to_snake_case(s);
    let words = split_words(snake_text.as_str());
    let ghost all = views(words@);
    let mut titled: Vec<String> = Vec::new();
    for i in 0..words.len()
        invariant
            all == views(words@),
            views(titled@) == capitalized_words(all).take(i as int),
    {
        titled.push(capitalize(words[i].as_str()));
        assert(views(titled@) =~= capitalized_words(all).take(i + 1));
    }
    assert(capitalized_words(all).take(all.len() as int) =~= capitalized_words(all));
    join(titled.as_slice(), " ")
}

/// The C type of an enumeration: its name, ending in `Enum`.
pub open spec fn enum_typedef(name: Text) -> Text {
    if has_suffix(name, "Enum"@) {
        name
    } else {
        name + "Enum"@
    }
}

/// The C type of an enumeration.
pub fn enum_typedef_name(name: &str) -> (r: String)
    ensures
        r@ == enum_typedef(name@),
{
    let mut r = owned(name);
    if !ends_with(name, "Enum") {
        r.push_str("Enum");
    }
    r
}

/// The C type of an enumeration ends in `Enum`, and taking it again changes
/// nothing.
pub proof fn law_enum_typedef_suffix(name: Text)
    ensures
        has_suffix(enum_typedef(name), "Enum"@),
        enum_typedef(enum_typedef(name)) == enum_typedef(name),
{
    let t = enum_typedef(name);
    if !has_suffix(name, "Enum"@) {
        assert(t.skip(t.len() - "Enum"@.len()) =~= "Enum"@);
    }
}

proof fn lemma_words(s: Text, n: nat)
    requires
        n <= s.len(),
    ensures
        ({
            let st = words_upto(s, n);
            &&& joined(st.words, ""@) + st.open == without_underscores(s.take(n as int))
            &&& forall|i: int| 0 <= i < st.words.len() ==> is_word(#[trigger] st.words[i])
            &&& st.open.len() > 0 ==> is_word(st.open)
        }),
    decreases n,
{
    let st = words_upto(s, n);
    reveal_strlit("");
    assert(""@ =~= Seq::<char>::empty());
    if n == 0 {
        assert(s.take(0) =~= Seq::<char>::empty());
    } else {
        lemma_words(s, (n - 1) as nat);
        let before = words_upto(s, (n - 1) as nat);
        let c = s[n - 1];
        assert(s.take(n as int) =~= s.take(n - 1).push(c));
        assert(s.take(n as int).drop_last() =~= s.take(n - 1));
        if c == '_' {
            assert(before.words.push(before.open).drop_last() =~= before.words);
            assert(joined(st.words, ""@) + st.open == joined(before.words, ""@) + before.open);
        } else {
            assert(joined(before.words, ""@) + before.open.push(c) =~= (joined(before.words, ""@)
                + before.open).push(c));
            assert forall|i: int| 0 <= i < st.open.len() implies #[trigger] st.open[i] != '_' by {
                if i < before.open.len() {
                    assert(st.open[i] == before.open[i]);
                }
            }
        }
    }
}

/// Text without its underscores.
pub open spec fn without_underscores(s: Text) -> Text
    decreases s.len(),
{
    if s.len() == 0 {
        Seq::empty()
    } else if s.last() == '_' {
        without_underscores(s.drop_last())
    } else {
        without_underscores(s.drop_last()).push(s.last())
    }
}

/// Whether text can be a word: it is not empty and holds no underscore.
pub open spec fn is_word(s: Text) -> bool {
    s.len() > 0 && forall|i: int| 0 <= i < s.len() ==> #[trigger] s[i] != '_'
}

/// The words of a name make up the name again, but for its underscores, and none of them is
/// empty or holds an underscore.
pub proof fn law_words_make_up_the_name(s: Text)
    ensures
        joined(words_of(s), ""@) == without_underscores(s),
        forall|i: int| 0 <= i < words_of(s).len() ==> is_word(#[trigger] words_of(s)[i]),
{
    lemma_words(s, s.len());
    assert(s.take(s.len() as int) =~= s);
    let st = words_upto(s, s.len());
    reveal_strlit("");
    assert(""@ =~= Seq::<char>::empty());
    if st.open.len() > 0 {
        assert(st.words.push(st.open).drop_last() =~= st.words);
    } else {
        assert(joined(st.words, ""@) + st.open =~= joined(st.words, ""@));
    }
}

/// The C type of an enumeration begins with its name, and is its name where that ends in `Enum`
/// already.
pub proof fn law_enum_typedef_keeps_the_name(name: Text)
    ensures
        name.is_prefix_of(enum_typedef(name)),
        has_suffix(name, "Enum"@) ==> enum_typedef(name) == name,
        !has_suffix(name, "Enum"@) ==> enum_typedef(name) == name + "Enum"@,
{
    assert(enum_typedef(name).subrange(0, name.len() as int) =~= name);
}

/// The macro name of something has no small letter, and its letters are those of the name.
pub proof fn law_screaming_keeps_every_letter(s: Text, i: int)
    ensures
        0 <= i < screaming(s).len() ==> !('a' <= screaming(s)[i] <= 'z'),
        screaming(s).len() == c_snake_case(s).len(),
        letters(c_snake_case(s)) == lowercase(letters(s)),
        0 <= i < screaming(s).len() ==> lower(screaming(s)[i]) == lower(c_snake_case(s)[i]),
{
    law_snake_case_keeps_every_letter(s, true);
}

} // verus!
