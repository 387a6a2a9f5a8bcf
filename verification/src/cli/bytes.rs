//! Positions in source text, counted in bytes.
use vstd::prelude::*;
use vstd::utf8::encode_utf8;
use crate::concat::Text;

verus! {

/// The bytes of a text.
pub open spec fn bytes_of(s: Text) -> Seq<u8> {
    encode_utf8(s)
}

/// Whether `pattern` stands at position `i`.
pub open spec fn occurs_at(source: Seq<u8>, pattern: Seq<u8>, i: int) -> bool {
    &&& 0 <= i
    &&& i + pattern.len() <= source.len()
    &&& source.subrange(i, i + pattern.len()) == pattern
}

/// The first position at or after `from` at which `pattern` stands.
pub open spec fn first_from(source: Seq<u8>, pattern: Seq<u8>, from: nat) -> Option<nat>
    decreases source.len() - from,
{
    if from > source.len() {
        None
    } else if occurs_at(source, pattern, from as int) {
        Some(from)
    } else if from == source.len() {
        None
    } else {
        first_from(source, pattern, from + 1)
    }
}

/// What is found is an occurrence, and the first one; where nothing is found
/// there is none.
pub proof fn law_first_is_first(source: Seq<u8>, pattern: Seq<u8>, from: nat)
    ensures
        match first_from(source, pattern, from) {
            Some(i) => {
                &&& from <= i
                &&& occurs_at(source, pattern, i as int)
                &&& forall|k: int| from <= k < i ==> !#[trigger] occurs_at(source, pattern, k)
            },
            None => forall|k: int| from <= k ==> !#[trigger] occurs_at(source, pattern, k),
        },
    decreases source.len() - from,
{
    if from < source.len() && !occurs_at(source, pattern, from as int) {
        law_first_is_first(source, pattern, from + 1);
    }
}

fn matches_at(source: &[u8], pattern: &[u8], at: usize) -> (r: bool)
    requires
        at <= source@.len(),
    ensures
        r == occurs_at(source@, pattern@, at as int),
{
    let total: usize = source.len();
    if pattern.len() > total - at {
        return false;
    }
    for i in 0..pattern.len()
        invariant
            total == source@.len(),
            at + pattern@.len() <= total,
            forall|k: int| 0 <= k < i ==> source@[at + k] == pattern@[k],
    {
        if source[at + i] != pattern[i] {
            assert(source@.subrange(at as int, at + pattern@.len())[i as int] != pattern@[i as int]);
            return false;
        }
    }
    assert(source@.subrange(at as int, at + pattern@.len()) =~= pattern@);
    true
}

/// Finds the first position at or after `from` at which `pattern` stands.
pub fn find_from(source: &[u8], pattern: &[u8], from: usize) -> (r: Option<usize>)
    requires
        from <= source@.len(),
    ensures
        match r {
            Some(i) => {
                &&& first_from(source@, pattern@, from as nat) == Some(i as nat)
                &&& i + pattern@.len() <= source@.len()
            },
            None => first_from(source@, pattern@, from as nat) is None,
        },
{
    let mut i: usize = from;
    loop
        invariant
            from <= i <= source@.len(),
            first_from(source@, pattern@, from as nat) == first_from(
                source@,
                pattern@,
                i as nat,
            ),
        decreases source@.len() - i,
    {
        if matches_at(source, pattern, i) {
            return Some(i);
        }
        if i == source.len() {
            return None;
        }
        i += 1;
    }
}

/// The newlines among the first `n` bytes.
pub open spec fn newlines(source: Seq<u8>, n: nat) -> nat
    decreases n,
{
    if n == 0 {
        0
    } else {
        newlines(source, (n - 1) as nat) + if source[n - 1] == 10 {
            1nat
        } else {
            0
        }
    }
}

/// The line that a position stands on, counted from one. A position past the end
/// stands on the last line.
pub open spec fn line_at(source: Seq<u8>, offset: nat) -> nat {
    1 + newlines(
        source,
        if offset < source.len() {
            offset
        } else {
            source.len()
        },
    )
}

/// The line that a position stands on, counted from one.
pub fn byte_offset_to_line(source: &str, offset: usize) -> (r: u128)
    ensures
        r == line_at(bytes_of(source@), offset as nat),
{
    let bytes = source.as_bytes();
    let end: usize = if offset < bytes.len() {
        offset
    } else {
        bytes.len()
    };
    let mut line: u128 = 1;
    for i in 0..end
        invariant
            end <= bytes@.len(),
            line == 1 + newlines(bytes@, i as nat),
            line <= i + 1,
    {
        if bytes[i] == 10 {
            line += 1;
        }
    }
    line
}

/// The position of the occurrence of `pattern` that `n` others come before, not
/// counting those that overlap an earlier one.
pub open spec fn nth_from(source: Seq<u8>, pattern: Seq<u8>, from: nat, n: nat) -> Option<nat>
    decreases n,
{
    match first_from(source, pattern, from) {
        None => None,
        Some(i) => if n == 0 {
            Some(i)
        } else {
            nth_from(source, pattern, i + pattern.len(), (n - 1) as nat)
        },
    }
}

/// Where something that begins at `start` ends: after the next `close`, or after
/// `length` bytes where there is none.
pub open spec fn end_after(source: Seq<u8>, start: nat, close: u8, length: nat) -> nat {
    match first_from(source, seq![close], start) {
        Some(i) => i + 1,
        None => start + length,
    }
}

/// Where something that begins at `start` ends.
pub fn find_end(source: &[u8], start: usize, close: u8, length: usize) -> (r: usize)
    requires
        start <= source@.len(),
        start + length <= usize::MAX,
    ensures
        r == end_after(source@, start as nat, close, length as nat),
{
    let mut pattern: Vec<u8> = Vec::new();
    pattern.push(close);
    assert(pattern@ =~= seq![close]);
    // Its length bounds the offsets in it, and fits in a `usize`.
    let _total: usize = source.len();
    match find_from(source, pattern.as_slice(), start) {
        Some(i) => i + 1,
        None => start + length,
    }
}

/// A range of bytes.
pub struct Span {
    pub start: nat,
    pub end: nat,
}

/// The range of the `n`th annotation that begins with `pattern`: up to its
/// closing bracket, or the pattern alone where there is none. Where there is no
/// such annotation, the beginning of the source.
pub open spec fn nth_pattern(source: Seq<u8>, pattern: Seq<u8>, n: nat) -> Span {
    match nth_from(source, pattern, 0, n) {
        Some(start) => Span { start, end: end_after(source, start, 41, pattern.len()) },
        None => Span {
            start: 0,
            end: if pattern.len() < source.len() {
                pattern.len()
            } else {
                source.len()
            },
        },
    }
}

/// Finds the range of the `n`th annotation that begins with `pattern`.
pub fn find_nth_pattern(source: &str, pattern: &str, n: usize) -> (r: (usize, usize))
    ensures
        nth_pattern(bytes_of(source@), bytes_of(pattern@), n as nat) == (Span {
            start: r.0 as nat,
            end: r.1 as nat,
        }),
{
    let hay = source.as_bytes();
    let needle = pattern.as_bytes();
    let mut count: usize = 0;
    let mut search_from: usize = 0;
    let total: usize = hay.len();
    loop
        invariant
            total == hay@.len(),
            count <= n,
            hay@ == bytes_of(source@),
            needle@ == bytes_of(pattern@),
            search_from <= hay@.len(),
            nth_from(hay@, needle@, 0, n as nat) == nth_from(
                hay@,
                needle@,
                search_from as nat,
                (n - count) as nat,
            ),
        decreases n - count,
    {
        match find_from(hay, needle, search_from) {
            None => {
                let end: usize = if needle.len() < hay.len() {
                    needle.len()
                } else {
                    hay.len()
                };
                return (0, end);
            },
            Some(start) => {
                if count == n {
                    let end: usize = find_end(hay, start, 41, needle.len());
                    return (start, end);
                }
                count += 1;
                search_from = start + needle.len();
            },
        }
    }
}

/// Lines are counted from one; the number goes up by one after each line feed, and by nothing
/// else, and stays where it is beyond the end.
pub proof fn law_lines_end_with_line_feeds(source: Seq<u8>, offset: nat)
    ensures
        line_at(source, 0) == 1,
        offset < source.len() ==> line_at(source, offset + 1) == line_at(source, offset) + if source[offset as int]
            == 10 {
            1int
        } else {
            0int
        },
        offset >= source.len() ==> line_at(source, offset) == line_at(source, source.len()),
{
}

/// The first occurrence is the first from the start on, and each next one is the first that
/// does not overlap the one before it.
pub proof fn law_occurrences_follow_each_other(source: Seq<u8>, pattern: Seq<u8>, n: nat)
    ensures
        nth_from(source, pattern, 0, 0) == first_from(source, pattern, 0),
        nth_from(source, pattern, 0, n + 1) == match nth_from(source, pattern, 0, n) {
            Some(i) => first_from(source, pattern, i + pattern.len()),
            None => None,
        },
{
    lemma_next_occurrence(source, pattern, 0, n);
}

proof fn lemma_next_occurrence(source: Seq<u8>, pattern: Seq<u8>, from: nat, n: nat)
    ensures
        nth_from(source, pattern, from, n + 1) == match nth_from(source, pattern, from, n) {
            Some(i) => first_from(source, pattern, i + pattern.len()),
            None => None,
        },
    decreases n,
{
    if let Some(i) = first_from(source, pattern, from) {
        if n > 0 {
            lemma_next_occurrence(source, pattern, i + pattern.len(), (n - 1) as nat);
        } else {
            reveal_with_fuel(nth_from, 2);
        }
    }
}

/// An annotation that is found begins where its pattern does and ends after the first closing
/// bracket from there on; where there is none, it ends with the pattern. One that is not found
/// is shown at the start, no longer than the source.
pub proof fn law_annotations_end_with_their_bracket(source: Seq<u8>, pattern: Seq<u8>, n: nat)
    ensures
        ({
            let span = nth_pattern(source, pattern, n);
            match nth_from(source, pattern, 0, n) {
                Some(start) => {
                    &&& span.start == start
                    &&& match first_from(source, seq![')' as u8], start) {
                        Some(i) => span.end == i + 1,
                        None => span.end == start + pattern.len(),
                    }
                },
                None => span.start == 0 && span.end <= source.len() && span.end <= pattern.len()
                    && (span.end == source.len() || span.end == pattern.len()),
            }
        }),
{
}

} // verus!
