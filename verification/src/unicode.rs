//! Case mappings of the Unicode character database, as the standard library
//! holds them.
use vstd::prelude::*;
use crate::concat::Text;
use crate::text::{chars_of, lowercase, string_of, upper};

verus! {

broadcast use crate::concat::group_append;

/// What `char::to_uppercase` maps a character to.
pub uninterp spec fn unicode_uppercase(c: char) -> Seq<char>;

/// What `str::to_lowercase` maps a string to.
pub uninterp spec fn unicode_lowercase(s: Seq<char>) -> Seq<char>;

/// `char::to_uppercase`: the full Unicode capital of a character, which can be
/// several characters long. An ASCII character has the capital that the ASCII
/// mapping gives it.
#[verifier::external_body]
fn char_to_uppercase(c: char) -> (r: String)
    ensures
        r@ == unicode_uppercase(c),
        c as u32 <= 127 ==> r@ == seq![upper(c)],
{
    c.to_uppercase().to_string()
}

/// `str::to_lowercase`: the full Unicode small form of a string. A string of
/// ASCII characters has the small form that the ASCII mapping gives it.
#[verifier::external_body]
fn str_to_lowercase(s: &str) -> (r: String)
    ensures
        r@ == unicode_lowercase(s@),
        (forall|i: int| 0 <= i < s@.len() ==> s@[i] as u32 <= 127) ==> r@ == lowercase(s@),
{
    s.to_lowercase()
}

/// A text with its first character replaced by its Unicode capital.
pub open spec fn capitalized(s: Text) -> Text {
    if s.len() == 0 {
        Seq::empty()
    } else {
        with_initial(unicode_uppercase(s[0]), s)
    }
}

/// A text with its first character replaced by `initial`.
pub open spec fn with_initial(initial: Text, s: Text) -> Text {
    initial + s.subrange(1, s.len() as int)
}

/// Replaces the first character of `s` by `initial`.
pub fn replace_initial(initial: &str, s: &str) -> (r: String)
    requires
        s@.len() > 0,
    ensures
        r@ == with_initial(initial@, s@),
{
    let v = chars_of(s);
    let rest = string_of(v.as_slice(), 1, v.len());
    let mut r = String::new();
    r.push_str(initial);
    r.push_str(rest.as_str());
    r
}

/// Replaces the first character by its Unicode capital.
pub fn capitalize(s: &str) -> (r: String)
    ensures
        r@ == capitalized(s@),
        s@.len() > 0 && s@[0] as u32 <= 127 ==> r@ == with_initial(seq![upper(s@[0])], s@),
{
    let v = chars_of(s);
    if v.len() == 0 {
        String::new()
    } else {
        replace_initial(char_to_uppercase(v[0]).as_str(), s)
    }
}

/// The small form of a string.
pub fn to_lowercase(s: &str) -> (r: String)
    ensures
        r@ == unicode_lowercase(s@),
        (forall|i: int| 0 <= i < s@.len() ==> s@[i] as u32 <= 127) ==> r@ == lowercase(s@),
{
    str_to_lowercase(s)
}

/// Making the first character a capital leaves what comes after it as it is.
pub proof fn law_capitals_leave_the_rest(s: Text)
    ensures
        s.len() == 0 ==> capitalized(s).len() == 0,
        s.len() > 0 ==> capitalized(s) == unicode_uppercase(s[0]) + s.drop_first(),
{
    if s.len() > 0 {
        assert(s.subrange(1, s.len() as int) =~= s.drop_first());
    }
}

} // verus!
