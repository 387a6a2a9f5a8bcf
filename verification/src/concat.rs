//! Facts about concatenation that let emitters append piece by piece.
use vstd::prelude::*;

verus! {

/// Text as contracts see it.
pub type Text = Seq<char>;

/// A scoped name as contracts see it: its segments in order.
pub type Path = Seq<Seq<char>>;

/// Appending a concatenation is appending its two halves in turn.
pub broadcast proof fn lemma_append_assoc(x: Seq<char>, y: Seq<char>, z: Seq<char>)
    ensures
        #[trigger] (x + (y + z)) == (x + y) + z,
{
    assert(x + (y + z) =~= (x + y) + z);
}

/// Appending to nothing.
pub broadcast proof fn lemma_append_empty_left(x: Seq<char>)
    ensures
        #[trigger] (Seq::<char>::empty() + x) == x,
{
    assert(Seq::<char>::empty() + x =~= x);
}

/// Appending nothing.
pub broadcast proof fn lemma_append_empty_right(x: Seq<char>)
    ensures
        #[trigger] (x + Seq::<char>::empty()) == x,
{
    assert(x + Seq::<char>::empty() =~= x);
}

pub broadcast group group_append {
    lemma_append_assoc,
    lemma_append_empty_left,
    lemma_append_empty_right,
}

/// Appending two lists of lines is appending them in turn.
pub broadcast proof fn lemma_lines_assoc(x: Seq<Text>, y: Seq<Text>, z: Seq<Text>)
    ensures
        #[trigger] (x + (y + z)) == (x + y) + z,
{
    assert(x + (y + z) =~= (x + y) + z);
}

/// Appending lines to nothing.
pub broadcast proof fn lemma_lines_empty_left(x: Seq<Text>)
    ensures
        #[trigger] (Seq::<Text>::empty() + x) == x,
{
    assert(Seq::<Text>::empty() + x =~= x);
}

/// Appending no lines.
pub broadcast proof fn lemma_lines_empty_right(x: Seq<Text>)
    ensures
        #[trigger] (x + Seq::<Text>::empty()) == x,
{
    assert(x + Seq::<Text>::empty() =~= x);
}

/// Appending lines and then one more.
pub broadcast proof fn lemma_lines_push(x: Seq<Text>, y: Seq<Text>, z: Text)
    ensures
        #[trigger] (x + y.push(z)) == (x + y).push(z),
{
    assert(x + y.push(z) =~= (x + y).push(z));
}

pub broadcast group group_lines {
    lemma_lines_assoc,
    lemma_lines_empty_left,
    lemma_lines_empty_right,
    lemma_lines_push,
}

/// The views of a sequence of values.
pub open spec fn views<T: View>(s: Seq<T>) -> Seq<T::V> {
    s.map_values(|t: T| t@)
}

/// The views of a longer sequence.
pub broadcast proof fn lemma_views_push<T: View>(s: Seq<T>, t: T)
    ensures
        #[trigger] views(s.push(t)) == views(s).push(t@),
{
    assert(views(s.push(t)) =~= views(s).push(t@));
}

/// The views of nothing.
pub broadcast proof fn lemma_views_empty<T: View>()
    ensures
        #[trigger] views(Seq::<T>::empty()) == Seq::<T::V>::empty(),
{
    assert(views(Seq::<T>::empty()) =~= Seq::<T::V>::empty());
}

pub broadcast group group_views {
    lemma_views_push,
    lemma_views_empty,
}

/// A prefix of a prefix is a prefix.
pub proof fn lemma_prefix_of_prefix<T>(a: Seq<T>, b: Seq<T>, c: Seq<T>)
    requires
        a.is_prefix_of(b),
        b.is_prefix_of(c),
    ensures
        a.is_prefix_of(c),
{
    assert(c.subrange(0, a.len() as int) =~= b.subrange(0, a.len() as int));
}

/// Whether a part stands somewhere in a text.
pub open spec fn occurs(text: Text, part: Text) -> bool {
    exists|i: int|
        0 <= i && i + part.len() <= text.len() && #[trigger] text.subrange(
            i,
            i + part.len(),
        ) == part
}

/// A part stands between what comes before it and what comes after it.
pub proof fn lemma_occurs(before: Text, part: Text, after: Text)
    ensures
        occurs(before + part + after, part),
{
    let text = before + part + after;
    let i = before.len() as int;
    assert(text.subrange(i, i + part.len()) =~= part);
}

/// What stands in one of two texts stands in them together.
pub broadcast proof fn lemma_occurs_in_sum(a: Text, b: Text, part: Text)
    ensures
        occurs(a, part) || occurs(b, part) ==> #[trigger] occurs(a + b, part),
{
    if occurs(a, part) {
        let i = choose|i: int|
            0 <= i && i + part.len() <= a.len() && #[trigger] a.subrange(i, i + part.len()) == part;
        assert((a + b).subrange(i, i + part.len()) =~= part);
    } else if occurs(b, part) {
        let i = choose|i: int|
            0 <= i && i + part.len() <= b.len() && #[trigger] b.subrange(i, i + part.len()) == part;
        let j = a.len() + i;
        assert((a + b).subrange(j, j + part.len()) =~= part);
    }
}

/// What stands in a part of a text stands in the text.
pub proof fn lemma_occurs_through(text: Text, middle: Text, part: Text)
    requires
        occurs(text, middle),
        occurs(middle, part),
    ensures
        occurs(text, part),
{
    let i = choose|i: int|
        0 <= i && i + middle.len() <= text.len() && #[trigger] text.subrange(i, i + middle.len())
            == middle;
    let j = choose|j: int|
        0 <= j && j + part.len() <= middle.len() && #[trigger] middle.subrange(j, j + part.len())
            == part;
    let k = i + j;
    assert(text.subrange(k, k + part.len()) =~= middle.subrange(j, j + part.len()));
}

/// A text stands in itself.
pub proof fn lemma_occurs_whole(text: Text)
    ensures
        occurs(text, text),
{
    assert(text.subrange(0int, 0int + text.len()) =~= text);
}

} // verus!
