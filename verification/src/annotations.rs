//! Reading annotations.
use vstd::prelude::*;
use crate::ast::{Annotation, AnnotationParam, AnnotationView, ConstValue, ConstView, ParamView};
use crate::concat::{views, Path, Text};
use crate::text::{eq_ignoring_case, lower, lowercase, same_ignoring_case};

verus! {

broadcast use crate::concat::group_views;

/// Whether the last segment of the annotation's name is `expected`, but for the
/// case of ASCII letters.
pub open spec fn is_named(a: AnnotationView, expected: Text) -> bool {
    a.name.len() > 0 && same_ignoring_case(a.name.last(), expected)
}

/// The first annotation named `name` at or after position `from`.
pub open spec fn first_named_from(
    annotations: Seq<AnnotationView>,
    name: Text,
    from: int,
) -> Option<AnnotationView>
    decreases annotations.len() - from,
{
    if from < 0 || from >= annotations.len() {
        None
    } else if is_named(annotations[from], name) {
        Some(annotations[from])
    } else {
        first_named_from(annotations, name, from + 1)
    }
}

/// The first annotation named `name`.
pub open spec fn first_named(annotations: Seq<AnnotationView>, name: Text) -> Option<
    AnnotationView,
> {
    first_named_from(annotations, name, 0)
}

/// The constant that a parameter carries, named or not.
pub open spec fn param_value(p: ParamView) -> ConstView {
    match p {
        ParamView::Named { name, value } => value,
        ParamView::Positional(value) => value,
    }
}

/// The constant of the annotation's first parameter.
pub open spec fn first_value(a: AnnotationView) -> Option<ConstView> {
    if a.params.len() == 0 {
        None
    } else {
        Some(param_value(a.params[0]))
    }
}

/// The first constant of the first annotation named `name`.
pub open spec fn value_of(annotations: Seq<AnnotationView>, name: Text) -> Option<ConstView> {
    match first_named(annotations, name) {
        Some(a) => first_value(a),
        None => None,
    }
}

/// The string of the first annotation named `name`.
pub open spec fn string_value(annotations: Seq<AnnotationView>, name: Text) -> Option<Text> {
    match value_of(annotations, name) {
        Some(ConstView::String(s)) => Some(s),
        _ => None,
    }
}

/// The 16-bit number of the first annotation named `name`.
pub open spec fn u16_value(annotations: Seq<AnnotationView>, name: Text) -> Option<u16> {
    match value_of(annotations, name) {
        Some(ConstView::Integer(lit)) => if 0 <= lit.value <= u16::MAX {
            Some(lit.value as u16)
        } else {
            None
        },
        _ => None,
    }
}

/// The integer of the annotation's first parameter.
pub open spec fn integer_value(a: AnnotationView) -> Option<i128> {
    match first_value(a) {
        Some(ConstView::Integer(lit)) => Some(lit.value),
        _ => None,
    }
}

/// The integer of the first annotation named `name`.
pub open spec fn named_integer(annotations: Seq<AnnotationView>, name: Text) -> Option<i128> {
    match first_named(annotations, name) {
        Some(a) => integer_value(a),
        None => None,
    }
}

/// Whether the last segment of the annotation's name is `expected`, but for the
/// case of ASCII letters.
pub fn annotation_name_matches(annotation: &Annotation, expected: &str) -> (r: bool)
    ensures
        r == is_named(annotation@, expected@),
{
    let n: usize = annotation.name.len();
    if n == 0 {
        false
    } else {
        assert(annotation@.name.last() == annotation.name@[n - 1]@);
        eq_ignoring_case(annotation.name[n - 1].as_str(), expected)
    }
}

/// The first annotation named `name`.
pub fn find_annotation<'a>(annotations: &'a [Annotation], name: &str) -> (r: Option<&'a Annotation>)
    ensures
        match r {
            Some(a) => first_named(views(annotations@), name@) == Some(a@),
            None => first_named(views(annotations@), name@) is None,
        },
{
    let n: usize = annotations.len();
    let mut i: usize = 0;
    while i < n
        invariant
            i <= n,
            n == annotations@.len(),
            first_named(views(annotations@), name@) == first_named_from(
                views(annotations@),
                name@,
                i as int,
            ),
        decreases n - i,
    {
        assert(views(annotations@)[i as int] == annotations@[i as int]@);
        if annotation_name_matches(&annotations[i], name) {
            return Some(&annotations[i]);
        }
        i += 1;
    }
    None
}

/// The constant of the annotation's first parameter.
pub fn annotation_first_value<'a>(annotation: &'a Annotation) -> (r: Option<&'a ConstValue>)
    ensures
        match r {
            Some(v) => first_value(annotation@) == Some(v@),
            None => first_value(annotation@) is None,
        },
{
    if annotation.params.len() == 0 {
        None
    } else {
        assert(annotation@.params[0] == annotation.params@[0]@);
        match &annotation.params[0] {
            AnnotationParam::Named { name: _, value } => Some(value),
            AnnotationParam::Positional(value) => Some(value),
        }
    }
}

/// The first constant of the first annotation named `name`.
pub fn annotation_value<'a>(annotations: &'a [Annotation], name: &str) -> (r: Option<
    &'a ConstValue,
>)
    ensures
        match r {
            Some(v) => value_of(views(annotations@), name@) == Some(v@),
            None => value_of(views(annotations@), name@) is None,
        },
{
    match find_annotation(annotations, name) {
        Some(a) => annotation_first_value(a),
        None => None,
    }
}

/// The string of the first annotation named `name`.
pub fn annotation_string(annotations: &[Annotation], name: &str) -> (r: Option<String>)
    ensures
        match r {
            Some(s) => string_value(views(annotations@), name@) == Some(s@),
            None => string_value(views(annotations@), name@) is None,
        },
{
    match annotation_value(annotations, name) {
        Some(ConstValue::String(s)) => Some(s.clone()),
        _ => None,
    }
}

/// The 16-bit number of the first annotation named `name`.
pub fn annotation_u16(annotations: &[Annotation], name: &str) -> (r: Option<u16>)
    ensures
        r == u16_value(views(annotations@), name@),
{
    match annotation_value(annotations, name) {
        Some(ConstValue::Integer(lit)) => if 0 <= lit.value && lit.value <= 65535 {
            Some(lit.value as u16)
        } else {
            None
        },
        _ => None,
    }
}

/// The integer of the annotation's first parameter.
pub fn annotation_integer_value(annotation: &Annotation) -> (r: Option<i128>)
    ensures
        r == integer_value(annotation@),
{
    match annotation_first_value(annotation) {
        Some(ConstValue::Integer(lit)) => Some(lit.value),
        _ => None,
    }
}

/// The integer of the first annotation named `name`.
pub fn find_integer(annotations: &[Annotation], name: &str) -> (r: Option<i128>)
    ensures
        r == named_integer(views(annotations@), name@),
{
    match find_annotation(annotations, name) {
        Some(a) => annotation_integer_value(a),
        None => None,
    }
}

/// Whether this is a `@module_key`.
pub fn is_module_key_annotation(annotation: &Annotation) -> (r: bool)
    ensures
        r == is_named(annotation@, "module_key"@),
{
    annotation_name_matches(annotation, "module_key")
}

/// Whether this is a `@message_key`.
pub fn is_message_key_annotation(annotation: &Annotation) -> (r: bool)
    ensures
        r == is_named(annotation@, "message_key"@),
{
    annotation_name_matches(annotation, "message_key")
}

proof fn lemma_first_named(annotations: Seq<AnnotationView>, name: Text, from: int, i: int)
    requires
        0 <= from <= i <= annotations.len(),
        forall|j: int| from <= j < i ==> !is_named(#[trigger] annotations[j], name),
        i < annotations.len() ==> is_named(annotations[i], name),
    ensures
        first_named_from(annotations, name, from) == if i < annotations.len() {
            Some(annotations[i])
        } else {
            None
        },
    decreases i - from,
{
    if from < i {
        assert(!is_named(annotations[from], name));
        lemma_first_named(annotations, name, from + 1, i);
    }
}

/// Of several annotations of a name the first counts, whatever comes after it. Its value is
/// that of its first parameter, named or not; a number is read only where it is an integer,
/// and as a key only where it fits in sixteen bits.
pub proof fn law_the_first_annotation_counts(
    annotations: Seq<AnnotationView>,
    name: Text,
    i: int,
)
    requires
        0 <= i <= annotations.len(),
        forall|j: int| 0 <= j < i ==> !is_named(#[trigger] annotations[j], name),
        i < annotations.len() ==> is_named(annotations[i], name),
    ensures
        i == annotations.len() ==> {
            &&& first_named(annotations, name) is None
            &&& string_value(annotations, name) is None
            &&& u16_value(annotations, name) is None
            &&& named_integer(annotations, name) is None
        },
        i < annotations.len() ==> {
            let a = annotations[i];
            &&& first_named(annotations, name) == Some(a)
            &&& a.params.len() == 0 ==> {
                &&& string_value(annotations, name) is None
                &&& u16_value(annotations, name) is None
                &&& named_integer(annotations, name) is None
            }
            &&& a.params.len() > 0 ==> {
                let value = match a.params[0] {
                    ParamView::Named { name, value } => value,
                    ParamView::Positional(value) => value,
                };
                &&& string_value(annotations, name) == match value {
                    ConstView::String(s) => Some(s),
                    _ => None,
                }
                &&& named_integer(annotations, name) == match value {
                    ConstView::Integer(lit) => Some(lit.value),
                    _ => None,
                }
                &&& match u16_value(annotations, name) {
                    Some(key) => value matches ConstView::Integer(lit) && lit.value == key,
                    None => !(value matches ConstView::Integer(lit) && 0 <= lit.value <= 65535),
                }
            }
        },
{
    lemma_first_named(annotations, name, 0, i);
}

/// An annotation is named by the last segment of its name, in either case of each ASCII
/// letter.
pub proof fn law_annotations_are_named_by_their_last_segment(
    a: AnnotationView,
    prefix: Path,
    segment: Text,
    name: Text,
)
    requires
        a.name == prefix.push(segment),
    ensures
        is_named(a, name) <==> segment.len() == name.len() && forall|i: int|
            0 <= i < name.len() ==> same_letter(#[trigger] segment[i], name[i]),
{
    assert(a.name.last() == segment);
    if is_named(a, name) {
        assert(lowercase(segment).len() == lowercase(name).len());
        assert forall|i: int| 0 <= i < name.len() implies same_letter(
            #[trigger] segment[i],
            name[i],
        ) by {
            assert(lowercase(segment)[i] == lowercase(name)[i]);
            lemma_same_letter(segment[i], name[i]);
        }
    }
    if segment.len() == name.len() && forall|i: int|
        0 <= i < name.len() ==> same_letter(#[trigger] segment[i], name[i]) {
        assert forall|i: int| 0 <= i < name.len() implies lowercase(segment)[i] == lowercase(
            name,
        )[i] by {
            assert(same_letter(segment[i], name[i]));
            lemma_same_letter(segment[i], name[i]);
        }
        assert(lowercase(segment) =~= lowercase(name));
    }
}

/// Whether two characters are the same, or the two cases of one ASCII letter.
pub open spec fn same_letter(a: char, b: char) -> bool {
    ||| a == b
    ||| 'A' <= a <= 'Z' && b as u32 == a as u32 + 32
    ||| 'A' <= b <= 'Z' && a as u32 == b as u32 + 32
}

proof fn lemma_same_letter(a: char, b: char)
    ensures
        lower(a) == lower(b) <==> same_letter(a, b),
{
}

} // verus!
