//! Building and comparing text.
use vstd::prelude::*;
use crate::concat::{views, Path, Text};

verus! {

broadcast use {crate::concat::group_append, crate::concat::group_views};

/// `String::push` appends one character.
pub assume_specification[ std::string::String::push ](s: &mut std::string::String, c: char)
    ensures
        final(s)@ == old(s)@.push(c),
;

/// `String::push_str` appends a string slice.
pub assume_specification[ std::string::String::push_str ](s: &mut std::string::String, t: &str)
    ensures
        final(s)@ == old(s)@ + t@,
;

/// The characters of a string, in order.
pub fn chars_of(s: &str) -> (v: Vec<char>)
    ensures
        v@ == s@,
{
    let mut v: Vec<char> = Vec::new();
    for c in it: s.chars()
        invariant
            v@ == it.seq().take(it.index()),
            it.seq() == s@,
    {
        v.push(c);
    }
    v
}

/// The string made of the characters from `from` up to but not including `to`.
pub fn string_of(v: &[char], from: usize, to: usize) -> (s: String)
    requires
        from <= to <= v@.len(),
    ensures
        s@ == v@.subrange(from as int, to as int),
{
    let mut s = String::new();
    for i in from..to
        invariant
            from <= i <= to <= v@.len(),
            s@ == v@.subrange(from as int, i as int),
    {
        s.push(v[i]);
        assert(v@.subrange(from as int, i + 1) =~= v@.subrange(from as int, i as int).push(v@[i as int]));
    }
    assert(v@.subrange(from as int, to as int) == s@);
    s
}

/// An owned copy of a string slice.
pub fn owned(s: &str) -> (r: String)
    ensures
        r@ == s@,
{
    s.to_owned()
}

/// Whether a string holds nothing.
pub fn is_empty(s: &str) -> (r: bool)
    ensures
        r == (s@.len() == 0),
{
    chars_of(s).len() == 0
}

/// Whether two strings hold the same characters.
pub fn same_text(a: &str, b: &str) -> (r: bool)
    ensures
        r == (a@ == b@),
{
    owned(a) == owned(b)
}

/// Whether two paths have the same segments.
pub fn same_path(a: &[String], b: &[String]) -> (r: bool)
    ensures
        r == (views(a@) == views(b@)),
{
    if a.len() != b.len() {
        assert(views(a@).len() != views(b@).len());
        return false;
    }
    for i in 0..a.len()
        invariant
            a@.len() == b@.len(),
            forall|k: int| 0 <= k < i ==> a@[k]@ == b@[k]@,
    {
        if a[i] != b[i] {
            assert(views(a@)[i as int] != views(b@)[i as int]);
            return false;
        }
    }
    assert(views(a@) =~= views(b@));
    true
}

/// A copy of a path.
pub fn copy_path(path: &[String]) -> (r: Vec<String>)
    ensures
        views(r@) == views(path@),
{
    let mut r: Vec<String> = Vec::new();
    for i in 0..path.len()
        invariant
            views(r@) == views(path@).take(i as int),
    {
        r.push(path[i].clone());
        assert(views(r@) =~= views(path@).take(i + 1));
    }
    assert(views(path@).take(path@.len() as int) =~= views(path@));
    r
}

/// A copy of a path with one more segment at its end.
pub fn child_path(scope: &[String], name: &str) -> (r: Vec<String>)
    ensures
        views(r@) == views(scope@).push(name@),
{
    let mut r = copy_path(scope);
    r.push(owned(name));
    assert(views(r@) =~= views(scope@).push(name@));
    r
}

/// The parts of a sequence, with `sep` between neighbours.
pub open spec fn joined(parts: Path, sep: Text) -> Text
    decreases parts.len(),
{
    if parts.len() == 0 {
        Seq::empty()
    } else if parts.len() == 1 {
        parts[0]
    } else {
        joined(parts.drop_last(), sep) + sep + parts.last()
    }
}

/// Joins the parts with `sep` between neighbours.
pub fn join(parts: &[String], sep: &str) -> (r: String)
    ensures
        r@ == joined(views(parts@), sep@),
{
    let mut r = String::new();
    let ghost all = views(parts@);
    for i in 0..parts.len()
        invariant
            all == views(parts@),
            r@ == joined(all.take(i as int), sep@),
    {
        if i > 0 {
            r.push_str(sep);
        }
        r.push_str(parts[i].as_str());
        assert(all.take(i + 1).drop_last() =~= all.take(i as int));
    }
    assert(all.take(parts@.len() as int) =~= all);
    r
}

/// An ASCII capital letter.
pub open spec fn is_upper(c: char) -> bool {
    'A' <= c <= 'Z'
}

/// An ASCII small letter.
pub open spec fn is_lower(c: char) -> bool {
    'a' <= c <= 'z'
}

/// An ASCII decimal digit.
pub open spec fn is_digit(c: char) -> bool {
    '0' <= c <= '9'
}

/// The small letter of an ASCII capital; any other character as it is.
pub open spec fn lower(c: char) -> char {
    if is_upper(c) {
        ((c as u8 + 32) as u8) as char
    } else {
        c
    }
}

/// The capital of an ASCII small letter; any other character as it is.
pub open spec fn upper(c: char) -> char {
    if is_lower(c) {
        ((c as u8 - 32) as u8) as char
    } else {
        c
    }
}

/// Text with its ASCII capitals made small.
pub open spec fn lowercase(s: Text) -> Text {
    s.map_values(|c: char| lower(c))
}

/// Text with its ASCII small letters made capitals.
pub open spec fn uppercase(s: Text) -> Text {
    s.map_values(|c: char| upper(c))
}

/// Whether two texts differ at most in the case of ASCII letters.
pub open spec fn same_ignoring_case(a: Text, b: Text) -> bool {
    lowercase(a) == lowercase(b)
}

pub fn char_is_upper(c: char) -> (r: bool)
    ensures
        r == is_upper(c),
{
    'A' <= c && c <= 'Z'
}

pub fn char_is_lower(c: char) -> (r: bool)
    ensures
        r == is_lower(c),
{
    'a' <= c && c <= 'z'
}

pub fn char_is_digit(c: char) -> (r: bool)
    ensures
        r == is_digit(c),
{
    '0' <= c && c <= '9'
}

/// The small letter of an ASCII capital.
pub fn to_lower(c: char) -> (r: char)
    ensures
        r == lower(c),
{
    if char_is_upper(c) {
        (c as u8 + 32u8) as char
    } else {
        c
    }
}

/// The capital of an ASCII small letter.
pub fn to_upper(c: char) -> (r: char)
    ensures
        r == upper(c),
{
    if char_is_lower(c) {
        (c as u8 - 32u8) as char
    } else {
        c
    }
}

/// Makes every ASCII small letter a capital.
pub fn to_uppercase(s: &str) -> (r: String)
    ensures
        r@ == uppercase(s@),
{
    let v = chars_of(s);
    let mut r = String::new();
    for i in 0..v.len()
        invariant
            v@ == s@,
            r@ == uppercase(s@).take(i as int),
    {
        r.push(to_upper(v[i]));
        assert(uppercase(s@).take(i + 1) =~= uppercase(s@).take(i as int).push(upper(s@[i as int])));
    }
    assert(uppercase(s@).take(s@.len() as int) =~= uppercase(s@));
    r
}

/// Whether two strings differ at most in the case of ASCII letters.
pub fn eq_ignoring_case(a: &str, b: &str) -> (r: bool)
    ensures
        r == same_ignoring_case(a@, b@),
{
    let x = chars_of(a);
    let y = chars_of(b);
    if x.len() != y.len() {
        assert(lowercase(a@).len() != lowercase(b@).len());
        return false;
    }
    for i in 0..x.len()
        invariant
            x@ == a@,
            y@ == b@,
            x@.len() == y@.len(),
            forall|k: int| 0 <= k < i ==> lower(a@[k]) == lower(b@[k]),
    {
        if to_lower(x[i]) != to_lower(y[i]) {
            assert(lowercase(a@)[i as int] != lowercase(b@)[i as int]);
            return false;
        }
    }
    assert(lowercase(a@) =~= lowercase(b@));
    true
}

/// Whether `s` ends with `suffix`.
pub open spec fn has_suffix(s: Text, suffix: Text) -> bool {
    suffix.len() <= s.len() && s.skip(s.len() - suffix.len()) == suffix
}

/// Whether `s` ends with `suffix`.
pub fn ends_with(s: &str, suffix: &str) -> (r: bool)
    ensures
        r == has_suffix(s@, suffix@),
{
    let v = chars_of(s);
    let w = chars_of(suffix);
    if w.len() > v.len() {
        return false;
    }
    let total: usize = v.len();
    let start: usize = total - w.len();
    for i in 0..w.len()
        invariant
            total == v@.len(),
            v@ == s@,
            w@ == suffix@,
            start + w@.len() == v@.len(),
            forall|k: int| 0 <= k < i ==> s@[start + k] == suffix@[k],
    {
        if v[start + i] != w[i] {
            assert(s@.skip(start as int)[i as int] != suffix@[i as int]);
            return false;
        }
    }
    assert(s@.skip(start as int) =~= suffix@);
    true
}

/// The two cases of an ASCII letter lie 32 apart; a change of case moves letters of the other
/// case only, and there is no letter of the other case left after it.
pub proof fn law_cases_lie_apart(s: Text, i: int)
    requires
        0 <= i < s.len(),
    ensures
        uppercase(s).len() == s.len(),
        lowercase(s).len() == s.len(),
        'a' <= s[i] <= 'z' ==> uppercase(s)[i] as u32 == s[i] as u32 - 32,
        !('a' <= s[i] <= 'z') ==> uppercase(s)[i] == s[i],
        'A' <= s[i] <= 'Z' ==> lowercase(s)[i] as u32 == s[i] as u32 + 32,
        !('A' <= s[i] <= 'Z') ==> lowercase(s)[i] == s[i],
{
}

/// Joined parts stand one after another: nothing is nothing, one part is itself, and each more
/// comes after one more separator.
pub proof fn law_parts_are_joined_in_turn(parts: Path, last: Text, sep: Text)
    ensures
        joined(Seq::empty(), sep).len() == 0,
        joined(parts.push(last), sep) == if parts.len() == 0 {
            last
        } else {
            joined(parts, sep) + sep + last
        },
{
    assert(parts.push(last).drop_last() =~= parts);
}

} // verus!
