//! Naming schemes: scoped names, snake case and class names.
use vstd::prelude::*;
use crate::concat::{views, Path, Text};
use crate::text::{
    char_is_digit, char_is_lower, char_is_upper, chars_of, child_path, is_digit, is_lower, is_upper, join, joined, lower, lowercase, owned, to_lower, to_uppercase, uppercase,
};

verus! {

broadcast use {crate::concat::group_append, crate::concat::group_views};

/// How far a name has been turned into snake case.
pub struct SnakeState {
    pub text: Text,
    /// Whether the last character read was an ASCII small letter.
    pub after_lower: bool,
}

/// The text with an underscore at its end.
pub open spec fn with_underscore(text: Text) -> Text {
    if text.len() > 0 && text.last() == '_' {
        text
    } else {
        text.push('_')
    }
}

/// The state after one more character. An ASCII capital, and a digit where
/// `split_digits` is set, starts a new word after a small letter; a space or a
/// hyphen ends a word.
pub open spec fn snake_step(st: SnakeState, c: char, split_digits: bool) -> SnakeState {
    if is_upper(c) || (split_digits && is_digit(c)) {
        let text = if st.after_lower {
            with_underscore(st.text)
        } else {
            st.text
        };
        SnakeState { text: text.push(lower(c)), after_lower: false }
    } else if c == ' ' || c == '-' {
        SnakeState { text: with_underscore(st.text), after_lower: false }
    } else {
        SnakeState { text: st.text.push(c), after_lower: is_lower(c) }
    }
}

/// The state after the first `n` characters.
pub open spec fn snake_upto(s: Text, n: nat, split_digits: bool) -> SnakeState
    decreases n,
{
    if n == 0 {
        SnakeState { text: Seq::empty(), after_lower: false }
    } else {
        snake_step(snake_upto(s, (n - 1) as nat, split_digits), s[n - 1], split_digits)
    }
}

/// A name in snake case.
pub open spec fn snake_cased(s: Text, split_digits: bool) -> Text {
    snake_upto(s, s.len(), split_digits).text
}

/// A name in snake case, with digits kept in the word before them.
pub open spec fn snake_case(s: Text) -> Text {
    snake_cased(s, false)
}

fn push_underscore(text: &mut String, ends_with_underscore: bool)
    requires
        ends_with_underscore == (old(text)@.len() > 0 && old(text)@.last() == '_'),
    ensures
        final(text)@ == with_underscore(old(text)@),
{
    if !ends_with_underscore {
        text.push('_');
    }
}

/// Turns a name into snake case, starting a new word at a digit after a small
/// letter where `split_digits` is set.
pub fn snake(identifier: &str, split_digits: bool) -> (r: String)
    ensures
        r@ == snake_cased(identifier@, split_digits),
{
    let v = chars_of(identifier);
    let mut text = String::new();
    let mut after_lower: bool = false;
    let mut underscored: bool = false;
    for i in 0..v.len()
        invariant
            v@ == identifier@,
            text@ == snake_upto(identifier@, i as nat, split_digits).text,
            after_lower == snake_upto(identifier@, i as nat, split_digits).after_lower,
            underscored == (text@.len() > 0 && text@.last() == '_'),
    {
        let c = v[i];
        if char_is_upper(c) || (split_digits && char_is_digit(c)) {
            if after_lower {
                push_underscore(&mut text, underscored);
            }
            text.push(to_lower(c));
            after_lower = false;
            underscored = false;
        } else if c == ' ' || c == '-' {
            push_underscore(&mut text, underscored);
            after_lower = false;
            underscored = true;
        } else {
            text.push(c);
            after_lower = char_is_lower(c);
            underscored = c == '_';
        }
    }
    text
}

/// Turns a name into snake case.
pub fn to_snake_case(identifier: &str) -> (r: String)
    ensures
        r@ == snake_case(identifier@),
{
    snake(identifier, false)
}

/// A name with its scope before it, joined by `::`.
pub open spec fn scoped_text(scope: Path, name: Text) -> Text {
    if scope.len() == 0 {
        name
    } else {
        joined(scope, "::"@) + "::"@ + name
    }
}

/// Puts the scope before the name, joined by `::`.
pub fn scoped_name(scope: &[String], name: &str) -> (r: String)
    ensures
        r@ == scoped_text(views(scope@), name@),
{
    if scope.len() == 0 {
        owned(name)
    } else {
        let mut r = join(scope, "::");
        r.push_str("::");
        r.push_str(name);
        r
    }
}

/// The segments of a path in snake case.
pub open spec fn snake_segments(path: Path) -> Path {
    path.map_values(|s: Text| snake_case(s))
}

/// A scoped name in snake case, joined by underscores.
pub open spec fn snake_path(scope: Path, name: Text) -> Text {
    joined(snake_segments(scope).push(snake_case(name)), "_"@)
}

/// Turns a scoped name into snake case, joined by underscores.
pub fn snake_case_path(scope: &[String], name: &str) -> (r: String)
    ensures
        r@ == snake_path(views(scope@), name@),
{
    let mut parts: Vec<String> = Vec::new();
    for i in 0..scope.len()
        invariant
            views(parts@) == snake_segments(views(scope@)).take(i as int),
    {
        parts.push(to_snake_case(scope[i].as_str()));
        assert(views(parts@) =~= snake_segments(views(scope@)).take(i + 1));
    }
    parts.push(to_snake_case(name));
    assert(views(parts@) =~= snake_segments(views(scope@)).push(snake_case(name@)));
    join(parts.as_slice(), "_")
}

/// Joins a scoped name by underscores.
pub fn class_name(scope: &[String], name: &str) -> (r: String)
    ensures
        r@ == joined(views(scope@).push(name@), "_"@),
{
    let parts = child_path(scope, name);
    join(parts.as_slice(), "_")
}

/// Turns a scoped name into snake case with ASCII capitals.
pub fn uppercase_path(scope: &[String], name: &str) -> (r: String)
    ensures
        r@ == uppercase(snake_path(views(scope@), name@)),
{
    let path = snake_case_path(scope, name);
    to_uppercase(path.as_str())
}

/// Whether a character can stand in snake case.
pub open spec fn is_snake(c: char) -> bool {
    !is_upper(c) && c != ' ' && c != '-'
}

proof fn lemma_snake_upto_chars(s: Text, n: nat, split_digits: bool)
    requires
        n <= s.len(),
    ensures
        forall|i: int|
            0 <= i < snake_upto(s, n, split_digits).text.len() ==> is_snake(
                #[trigger] snake_upto(s, n, split_digits).text[i],
            ),
    decreases n,
{
    if n > 0 {
        lemma_snake_upto_chars(s, (n - 1) as nat, split_digits);
        let before = snake_upto(s, (n - 1) as nat, split_digits);
        let after = snake_upto(s, n, split_digits);
        assert forall|i: int| 0 <= i < after.text.len() implies is_snake(
            #[trigger] after.text[i],
        ) by {
            if i < before.text.len() {
                assert(after.text[i] == before.text[i]);
            }
        }
    }
}

/// Snake case holds no ASCII capital, no space and no hyphen.
pub proof fn law_snake_case_characters(s: Text, split_digits: bool)
    ensures
        forall|i: int|
            0 <= i < snake_cased(s, split_digits).len() ==> is_snake(
                #[trigger] snake_cased(s, split_digits)[i],
            ),
{
    lemma_snake_upto_chars(s, s.len(), split_digits);
}

proof fn lemma_snake_fixed(s: Text, n: nat)
    requires
        n <= s.len(),
        forall|i: int| 0 <= i < s.len() ==> is_snake(#[trigger] s[i]),
    ensures
        snake_upto(s, n, false).text == s.take(n as int),
    decreases n,
{
    if n > 0 {
        lemma_snake_fixed(s, (n - 1) as nat);
        assert(is_snake(s[n - 1]));
        assert(s.take(n as int) =~= s.take(n - 1).push(s[n - 1]));
    } else {
        assert(s.take(0) =~= Seq::<char>::empty());
    }
}

/// Turning a name into snake case twice is the same as once.
pub proof fn law_snake_case_is_idempotent(s: Text)
    ensures
        snake_case(snake_case(s)) == snake_case(s),
{
    law_snake_case_characters(s, false);
    lemma_snake_fixed(snake_case(s), snake_case(s).len());
    assert(snake_case(s).take(snake_case(s).len() as int) =~= snake_case(s));
}

/// Text without the characters that stand between words.
pub open spec fn letters(s: Text) -> Text
    decreases s.len(),
{
    if s.len() == 0 {
        Seq::empty()
    } else if s.last() == '_' || s.last() == ' ' || s.last() == '-' {
        letters(s.drop_last())
    } else {
        letters(s.drop_last()).push(s.last())
    }
}

proof fn lemma_letters_push(s: Text, c: char)
    ensures
        letters(s.push(c)) == if c == '_' || c == ' ' || c == '-' {
            letters(s)
        } else {
            letters(s).push(c)
        },
{
    assert(s.push(c).drop_last() =~= s);
}

proof fn lemma_snake_letters(s: Text, n: nat, split_digits: bool)
    requires
        n <= s.len(),
    ensures
        letters(snake_upto(s, n, split_digits).text) == lowercase(letters(s.take(n as int))),
    decreases n,
{
    if n == 0 {
        assert(s.take(0) =~= Seq::<char>::empty());
        assert(lowercase(letters(s.take(0))) =~= Seq::<char>::empty());
    } else {
        lemma_snake_letters(s, (n - 1) as nat, split_digits);
        let before = snake_upto(s, (n - 1) as nat, split_digits).text;
        let c = s[n - 1];
        assert(s.take(n as int) =~= s.take(n - 1).push(c));
        lemma_letters_push(s.take(n - 1), c);
        lemma_letters_push(before, '_');
        lemma_letters_push(before, c);
        lemma_letters_push(before, lower(c));
        lemma_letters_push(with_underscore(before), lower(c));
        let kept = letters(s.take(n - 1));
        assert(lowercase(kept.push(c)) =~= lowercase(kept).push(lower(c)));
    }
}

/// Snake case keeps every letter in its turn: but for what stands between words, a name in
/// snake case is the name with its capitals made small.
pub proof fn law_snake_case_keeps_every_letter(s: Text, split_digits: bool)
    ensures
        letters(snake_cased(s, split_digits)) == lowercase(letters(s)),
{
    lemma_snake_letters(s, s.len(), split_digits);
    assert(s.take(s.len() as int) =~= s);
}

proof fn lemma_snake_prefix(s: Text, c: char, n: nat, split_digits: bool)
    requires
        n <= s.len(),
    ensures
        snake_upto(s.push(c), n, split_digits) == snake_upto(s, n, split_digits),
    decreases n,
{
    if n > 0 {
        lemma_snake_prefix(s, c, (n - 1) as nat, split_digits);
        assert(s.push(c)[n - 1] == s[n - 1]);
    }
}

/// A new word begins, with one underscore before it, exactly where a capital follows a small
/// letter, and where digits are split a digit that does; any other letter goes on with the word
/// that it stands in.
pub proof fn law_words_begin_after_small_letters(s: Text, a: char, b: char, split_digits: bool)
    requires
        b != ' ',
        b != '-',
    ensures
        ({
            let before = snake_cased(s.push(a), split_digits);
            let after = snake_cased(s.push(a).push(b), split_digits);
            if 'a' <= a <= 'z' && ('A' <= b <= 'Z' || (split_digits && '0' <= b <= '9')) {
                after == before.push('_').push(lower(b))
            } else {
                after == before.push(lower(b))
            }
        }),
{
    let t = s.push(a);
    lemma_snake_prefix(s, a, s.len(), split_digits);
    lemma_snake_prefix(t, b, s.len(), split_digits);
    lemma_snake_prefix(t, b, t.len(), split_digits);
    assert(t[s.len() as int] == a);
    assert(t.push(b)[t.len() as int] == b);
    let before = snake_upto(t, t.len(), split_digits);
    assert(before == snake_step(snake_upto(s, s.len(), split_digits), a, split_digits));
    assert(snake_upto(t.push(b), t.push(b).len(), split_digits) == snake_step(
        before,
        b,
        split_digits,
    ));
    if 'a' <= a <= 'z' {
        assert(before.text.last() == a);
        assert(before.after_lower);
    }
}

/// A space or a hyphen ends a word: one underscore stands for it, however many come together.
pub proof fn law_gaps_become_one_underscore(s: Text, gap: char, split_digits: bool)
    requires
        gap == ' ' || gap == '-',
    ensures
        ({
            let before = snake_cased(s, split_digits);
            let after = snake_cased(s.push(gap), split_digits);
            if before.len() > 0 && before.last() == '_' {
                after == before
            } else {
                after == before.push('_')
            }
        }),
{
    lemma_snake_prefix(s, gap, s.len(), split_digits);
    assert(s.push(gap)[s.len() as int] == gap);
}

/// A path in snake case is the names in it in snake case, one underscore between neighbours.
pub proof fn law_paths_become_snake_case(scope: Path, last: Text, name: Text)
    ensures
        snake_path(Seq::empty(), name) == snake_case(name),
        snake_path(scope.push(last), name) == snake_path(scope, last) + "_"@ + snake_case(name),
{
    let none = snake_segments(Seq::empty());
    assert(none =~= Seq::<Text>::empty());
    assert(none.push(snake_case(name))[0] == snake_case(name));
    let parts = snake_segments(scope.push(last));
    assert(parts =~= snake_segments(scope).push(snake_case(last)));
    assert(parts.push(snake_case(name)).drop_last() =~= parts);
}

} // verus!
