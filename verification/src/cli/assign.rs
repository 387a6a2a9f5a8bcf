//! Keys for messages that name none.
use std::collections::HashSet;
use vstd::prelude::*;
use vstd::set_lib::{lemma_int_range, lemma_len_subset, lemma_map_size, set_int_range};
use crate::annotations::{
    annotation_u16, find_annotation, first_named, first_named_from, is_named, u16_value,
};
use crate::ast::{
    definition_view, definitions_view, Annotation, AnnotationParam, AnnotationView, CommentedView,
    ConstValue, ConstView, Definition, DefinitionView, IntegerBase, IntegerLiteral, MessageDefView,
    ModuleDefView, ParamView,
};
use crate::cli::bytes::bytes_of;
use crate::cli::diagnostics::{
    missing_message_key, report_missing_message_key, Diagnostic, DiagnosticView, OutputFormat,
};
use crate::cli::keys::{SourceFile, SourceFileView};
use crate::concat::{views, Path, Text};
use crate::text::{child_path, joined, owned};
use crate::tree::{found, lemma_found_inside, lemma_found_push, Found};
use crate::unicode::{to_lowercase, unicode_lowercase};

verus! {

broadcast use {
    crate::concat::group_append,
    crate::concat::group_views,
    vstd::std_specs::hash::group_hash_axioms,
};

/// How many keys there are.
pub const KEY_COUNT: u32 = 65536;

/// One step of the division by the polynomial: the top bit goes out, and where
/// it was set the rest of the polynomial is subtracted.
pub open spec fn crc_step(crc: u16) -> u16 {
    if crc & 0x8000 != 0 {
        (crc << 1) ^ 0x1021
    } else {
        crc << 1
    }
}

/// The remainder after `n` steps.
pub open spec fn crc_steps(crc: u16, n: nat) -> u16
    decreases n,
{
    if n == 0 {
        crc
    } else {
        crc_step(crc_steps(crc, (n - 1) as nat))
    }
}

/// The CRC-16 of the first `n` bytes with the CCITT polynomial, begun with all
/// ones.
pub open spec fn crc_upto(data: Seq<u8>, n: nat) -> u16
    decreases n,
{
    if n == 0 {
        0xFFFF
    } else {
        crc_steps(crc_upto(data, (n - 1) as nat) ^ ((data[n - 1] as u16) << 8), 8)
    }
}

/// The CRC-16 of the bytes with the CCITT polynomial.
pub fn crc16_ccitt(data: &[u8]) -> (r: u16)
    ensures
        r == crc_upto(data@, data@.len()),
{
    let mut crc: u16 = 0xFFFF;
    for i in 0..data.len()
        invariant
            crc == crc_upto(data@, i as nat),
    {
        crc = crc ^ ((data[i] as u16) << 8);
        let ghost start = crc;
        for k in 0..8
            invariant
                crc == crc_steps(start, k as nat),
        {
            if crc & 0x8000 != 0 {
                crc = (crc << 1) ^ 0x1021;
            } else {
                crc = crc << 1;
            }
        }
    }
    crc
}

/// The first `n` segments, each with a separator after it.
pub open spec fn segments_text(segments: Path, n: nat) -> Text
    decreases n,
{
    if n == 0 {
        Seq::empty()
    } else {
        segments_text(segments, (n - 1) as nat) + segments[n - 1] + "::"@
    }
}

/// The path of `name` below modules, from the root.
pub open spec fn rooted(modules: Path, name: Text) -> Text {
    "::"@ + segments_text(modules, modules.len()) + name
}

/// The path of `name` below modules, from the root.
pub fn rooted_path(modules: &[String], name: &str) -> (r: String)
    ensures
        r@ == rooted(views(modules@), name@),
{
    let mut path = owned("::");
    let ghost head = path@;
    for i in 0..modules.len()
        invariant
            path@ == head + segments_text(views(modules@), i as nat),
    {
        assert(views(modules@)[i as int] == modules@[i as int]@);
        path.push_str(modules[i].as_str());
        path.push_str("::");
    }
    path.push_str(name);
    path
}

/// The segments of a path in small letters.
pub open spec fn lower_segments(path: Path) -> Path {
    path.map_values(|s: Text| unicode_lowercase(s))
}

/// The absolute path of a message, in small letters.
pub open spec fn absolute_path(path: Path, name: Text) -> Text {
    rooted(lower_segments(path), unicode_lowercase(name))
}

/// The absolute path of a message, in small letters.
pub fn message_absolute_path(modules: &[String], message_name: &str) -> (r: String)
    ensures
        r@ == absolute_path(views(modules@), message_name@),
{
    let ghost all = lower_segments(views(modules@));
    let mut lower: Vec<String> = Vec::new();
    for i in 0..modules.len()
        invariant
            all == lower_segments(views(modules@)),
            views(lower@) == all.take(i as int),
    {
        assert(views(modules@)[i as int] == modules@[i as int]@);
        lower.push(to_lowercase(modules[i].as_str()));
        assert(views(lower@) =~= all.take(i + 1));
    }
    assert(all.take(modules@.len() as int) =~= all);
    rooted_path(lower.as_slice(), to_lowercase(message_name).as_str())
}

/// The key that the absolute path of a message gives.
pub open spec fn hashed_key(path: Text) -> u16 {
    crc_upto(bytes_of(path), bytes_of(path).len())
}

/// The key that the absolute path of a message gives.
pub fn hash_path(path: &str) -> (r: u16)
    ensures
        r == hashed_key(path@),
{
    crc16_ccitt(path.as_bytes())
}

/// Whether annotations name a message key.
pub open spec fn has_key(annotations: Seq<AnnotationView>) -> bool {
    first_named(annotations, "message_key"@) is Some
}

fn names_key(annotations: &Vec<Annotation>) -> (r: bool)
    ensures
        r == has_key(views(annotations@)),
{
    find_annotation(annotations.as_slice(), "message_key").is_some()
}

/// What is said of the first `n` definitions: each message, at any depth, that
/// names no key.
pub open spec fn missing_upto(
    format: OutputFormat,
    file: Text,
    source: Text,
    defs: Seq<DefinitionView>,
    at: Path,
    n: nat,
) -> Seq<DiagnosticView>
    decreases defs, n,
{
    if n == 0 || n > defs.len() {
        Seq::empty()
    } else {
        let before = missing_upto(format, file, source, defs, at, (n - 1) as nat);
        match defs[n - 1] {
            DefinitionView::MessageDef(m) => if has_key(m.annotations) {
                before
            } else {
                let path = absolute_path(at, m.node.name);
                before.push(
                    missing_message_key(format, m.node.name, path, hashed_key(path), file, source),
                )
            },
            DefinitionView::ModuleDef(m) => before + missing_upto(
                format,
                file,
                source,
                m.node.definitions,
                at.push(m.node.name),
                m.node.definitions.len(),
            ),
            _ => before,
        }
    }
}

/// Says of each message, at any depth, that names no key which one its path
/// gives.
pub fn warn_missing_keys_recursive(
    format: OutputFormat,
    defs: &[Definition],
    at: &Vec<String>,
    file: &str,
    source: &str,
    out: &mut Vec<Diagnostic>,
)
    ensures
        views(final(out)@) == views(old(out)@) + missing_upto(
            format,
            file@,
            source@,
            definitions_view(defs@),
            views(at@),
            defs@.len(),
        ),
    decreases defs@,
{
    let ghost start = views(out@);
    let ghost all = definitions_view(defs@);
    let ghost here = views(at@);
    assert(start + Seq::<DiagnosticView>::empty() =~= start);
    for i in 0..defs.len()
        invariant
            start == views(old(out)@),
            all == definitions_view(defs@),
            here == views(at@),
            views(out@) == start + missing_upto(format, file@, source@, all, here, i as nat),
    {
        assert(all[i as int] == definition_view(defs@[i as int]));
        match &defs[i] {
            Definition::MessageDef(m) => {
                if !names_key(&m.annotations) {
                    let path = message_absolute_path(at.as_slice(), m.node.name.as_str());
                    let key: u16 = hash_path(path.as_str());
                    out.push(
                        report_missing_message_key(
                            format,
                            m.node.name.as_str(),
                            path.as_str(),
                            key,
                            file,
                            source,
                        ),
                    );
                }
            },
            Definition::ModuleDef(m) => {
                let inner = child_path(at.as_slice(), m.node.name.as_str());
                warn_missing_keys_recursive(
                    format,
                    m.node.definitions.as_slice(),
                    &inner,
                    file,
                    source,
                    out,
                );
            },
            _ => {},
        }
        assert(views(out@) =~= start + missing_upto(
            format,
            file@,
            source@,
            all,
            here,
            (i + 1) as nat,
        ));
    }
}

/// What is said of messages without a key in the first `n` files.
pub open spec fn missing_key_warnings(
    format: OutputFormat,
    files: Seq<SourceFileView>,
    n: nat,
) -> Seq<DiagnosticView>
    decreases n,
{
    if n == 0 {
        Seq::empty()
    } else {
        let file = files[n - 1];
        missing_key_warnings(format, files, (n - 1) as nat) + missing_upto(
            format,
            file.name,
            file.source,
            file.definitions,
            Seq::empty(),
            file.definitions.len(),
        )
    }
}

/// Says of each message in the files that names no key which one its path gives.
pub fn warn_missing_message_keys(format: OutputFormat, files: &Vec<SourceFile>) -> (r: Vec<
    Diagnostic,
>)
    ensures
        views(r@) == missing_key_warnings(format, views(files@), files@.len()),
{
    let mut out: Vec<Diagnostic> = Vec::new();
    let root: Vec<String> = Vec::new();
    for i in 0..files.len()
        invariant
            views(root@) == Seq::<Text>::empty(),
            views(out@) == missing_key_warnings(format, views(files@), i as nat),
    {
        let file = &files[i];
        assert(views(files@)[i as int] == file@);
        warn_missing_keys_recursive(
            format,
            file.definitions.as_slice(),
            &root,
            file.name.as_str(),
            file.source.as_str(),
            &mut out,
        );
    }
    out
}

/// The keys with those that the first `n` definitions name, at any depth.
pub open spec fn existing_upto(used: Set<u16>, defs: Seq<DefinitionView>, n: nat) -> Set<u16>
    decreases defs, n,
{
    if n == 0 || n > defs.len() {
        used
    } else {
        let before = existing_upto(used, defs, (n - 1) as nat);
        match defs[n - 1] {
            DefinitionView::MessageDef(m) => match u16_value(m.annotations, "message_key"@) {
                Some(key) => before.insert(key),
                None => before,
            },
            DefinitionView::ModuleDef(m) => existing_upto(
                before,
                m.node.definitions,
                m.node.definitions.len(),
            ),
            _ => before,
        }
    }
}

/// Adds the keys that the definitions name, at any depth.
pub fn collect_existing_message_keys(defs: &[Definition], used: &mut HashSet<u16>)
    ensures
        final(used)@ == existing_upto(old(used)@, definitions_view(defs@), defs@.len()),
    decreases defs@,
{
    let ghost start = used@;
    let ghost all = definitions_view(defs@);
    for i in 0..defs.len()
        invariant
            start == old(used)@,
            all == definitions_view(defs@),
            used@ == existing_upto(start, all, i as nat),
    {
        assert(all[i as int] == definition_view(defs@[i as int]));
        match &defs[i] {
            Definition::MessageDef(m) => {
                if let Some(key) = annotation_u16(m.annotations.as_slice(), "message_key") {
                    used.insert(key);
                }
            },
            Definition::ModuleDef(m) => {
                collect_existing_message_keys(m.node.definitions.as_slice(), used);
            },
            _ => {},
        }
    }
}

/// The key after a key, from the last back to the first.
pub open spec fn next_key(key: u16) -> u16 {
    if key == u16::MAX {
        0
    } else {
        (key + 1) as u16
    }
}

/// The first key from `key` on that is not used, looking at no more than
/// `tries` keys before it.
pub open spec fn probe(key: u16, used: Set<u16>, tries: nat) -> u16
    decreases tries,
{
    if tries == 0 || !used.contains(key) {
        key
    } else {
        probe(next_key(key), used, (tries - 1) as nat)
    }
}

/// The first key from `key` on that is not used.
pub open spec fn first_free(key: u16, used: Set<u16>) -> u16 {
    probe(key, used, KEY_COUNT as nat)
}

/// The key `n` keys after `key`.
pub open spec fn key_plus(key: u16, n: nat) -> u16 {
    ((key + n) % 65536) as u16
}

proof fn lemma_probe_failed(key: u16, used: Set<u16>, tries: nat)
    requires
        used.contains(probe(key, used, tries)),
    ensures
        forall|k: nat| k <= tries ==> used.contains(#[trigger] key_plus(key, k)),
    decreases tries,
{
    assert(key_plus(key, 0) == key);
    if tries > 0 {
        lemma_probe_failed(next_key(key), used, (tries - 1) as nat);
        assert forall|k: nat| k <= tries implies used.contains(#[trigger] key_plus(key, k)) by {
            if k > 0 {
                assert(key_plus(next_key(key), (k - 1) as nat) == key_plus(key, k));
            }
        }
    }
}

/// Where not all keys are used, the first free one is found.
pub proof fn law_first_free_is_free(key: u16, used: Set<u16>)
    requires
        used.finite(),
        used.len() < KEY_COUNT,
    ensures
        !used.contains(first_free(key, used)),
{
    if used.contains(first_free(key, used)) {
        lemma_probe_failed(key, used, KEY_COUNT as nat);
        let numbers = set_int_range(0, 65536);
        let to_key = |i: int| i as u16;
        lemma_int_range(0, 65536);
        let keys = numbers.map(to_key);
        lemma_map_size(numbers, keys, to_key);
        assert forall|k: u16| keys.contains(k) implies used.contains(k) by {
            let n: nat = if k >= key {
                (k - key) as nat
            } else {
                (k + 65536 - key) as nat
            };
            assert(key_plus(key, n) == k);
        }
        lemma_len_subset(keys, used);
    }
}

/// No key between `key` and the first free one is free.
pub proof fn law_first_free_is_first(key: u16, used: Set<u16>, n: nat)
    requires
        n < KEY_COUNT,
        forall|k: nat| k < n ==> used.contains(#[trigger] key_plus(key, k)),
        !used.contains(key_plus(key, n)),
    ensures
        first_free(key, used) == key_plus(key, n),
{
    lemma_probe_walks(key, used, KEY_COUNT as nat, n);
}

proof fn lemma_probe_walks(key: u16, used: Set<u16>, tries: nat, n: nat)
    requires
        n < tries,
        forall|k: nat| k < n ==> used.contains(#[trigger] key_plus(key, k)),
        !used.contains(key_plus(key, n)),
    ensures
        probe(key, used, tries) == key_plus(key, n),
    decreases tries,
{
    assert(key_plus(key, 0) == key);
    if n > 0 {
        assert(used.contains(key_plus(key, 0)));
        assert forall|k: nat| k < n - 1 implies used.contains(
            #[trigger] key_plus(next_key(key), k),
        ) by {
            assert(key_plus(next_key(key), k) == key_plus(key, k + 1));
        }
        assert(key_plus(next_key(key), (n - 1) as nat) == key_plus(key, n));
        lemma_probe_walks(next_key(key), used, (tries - 1) as nat, (n - 1) as nat);
    }
}

/// Finds the first key from `key` on that is not used.
pub fn find_free(key: u16, used: &HashSet<u16>) -> (r: u16)
    ensures
        r == first_free(key, used@),
{
    let mut candidate: u16 = key;
    let mut tries: u32 = KEY_COUNT;
    while tries > 0 && used.contains(&candidate)
        invariant
            first_free(key, used@) == probe(candidate, used@, tries as nat),
        decreases tries,
    {
        candidate = if candidate == u16::MAX {
            0
        } else {
            candidate + 1
        };
        tries -= 1;
    }
    candidate
}

/// The annotation that names a key.
pub open spec fn key_annotation(key: u16) -> AnnotationView {
    AnnotationView {
        name: seq!["message_key"@],
        params: seq![
            ParamView::Positional(
                ConstView::Integer(
                    IntegerLiteral { value: key as i128, base: IntegerBase::Hexadecimal },
                ),
            ),
        ],
    }
}

fn make_key_annotation(key: u16) -> (r: Annotation)
    ensures
        r@ == key_annotation(key),
{
    let mut name: Vec<String> = Vec::new();
    name.push(owned("message_key"));
    let mut params: Vec<AnnotationParam> = Vec::new();
    params.push(
        AnnotationParam::Positional(
            ConstValue::Integer(IntegerLiteral::new(key as i128, IntegerBase::Hexadecimal)),
        ),
    );
    Annotation { name, params }
}

/// Definitions with keys, the keys that are used then, and those among them that
/// were given out.
pub struct AssignedView {
    pub defs: Seq<DefinitionView>,
    pub used: Set<u16>,
    pub fresh: Seq<u16>,
}

/// The first `n` definitions with a key for every message, at any depth, that
/// names none: the first free one from the hash of its path on.
pub open spec fn assigned_upto(
    defs: Seq<DefinitionView>,
    at: Path,
    used: Set<u16>,
    n: nat,
) -> AssignedView
    decreases defs, n,
{
    if n == 0 || n > defs.len() {
        AssignedView { defs: Seq::empty(), used, fresh: Seq::empty() }
    } else {
        let before = assigned_upto(defs, at, used, (n - 1) as nat);
        match defs[n - 1] {
            DefinitionView::MessageDef(m) => if has_key(m.annotations) {
                AssignedView { defs: before.defs.push(defs[n - 1]), ..before }
            } else {
                let key = first_free(hashed_key(absolute_path(at, m.node.name)), before.used);
                AssignedView {
                    defs: before.defs.push(
                        DefinitionView::MessageDef(
                            CommentedView {
                                annotations: m.annotations.push(key_annotation(key)),
                                ..m
                            },
                        ),
                    ),
                    used: before.used.insert(key),
                    fresh: before.fresh.push(key),
                }
            },
            DefinitionView::ModuleDef(m) => {
                let inner = assigned_upto(
                    m.node.definitions,
                    at.push(m.node.name),
                    before.used,
                    m.node.definitions.len(),
                );
                AssignedView {
                    defs: before.defs.push(
                        DefinitionView::ModuleDef(
                            CommentedView {
                                node: ModuleDefView { definitions: inner.defs, ..m.node },
                                ..m
                            },
                        ),
                    ),
                    used: inner.used,
                    fresh: before.fresh + inner.fresh,
                }
            },
            _ => AssignedView { defs: before.defs.push(defs[n - 1]), ..before },
        }
    }
}

/// How many of the first `n` definitions, at any depth, are messages that name
/// no key.
pub open spec fn missing_count(defs: Seq<DefinitionView>, n: nat) -> nat
    decreases defs, n,
{
    if n == 0 || n > defs.len() {
        0
    } else {
        missing_count(defs, (n - 1) as nat) + match defs[n - 1] {
            DefinitionView::MessageDef(m) => if has_key(m.annotations) {
                0
            } else {
                1nat
            },
            DefinitionView::ModuleDef(m) => missing_count(
                m.node.definitions,
                m.node.definitions.len(),
            ),
            _ => 0,
        }
    }
}

proof fn lemma_assigned_len(defs: Seq<DefinitionView>, at: Path, used: Set<u16>, n: nat)
    requires
        n <= defs.len(),
    ensures
        assigned_upto(defs, at, used, n).defs.len() == n,
    decreases n,
{
    if n > 0 {
        lemma_assigned_len(defs, at, used, (n - 1) as nat);
    }
}

/// Where there are keys enough, the keys that are given out are free and all
/// different, and they are the only ones that come to be used.
pub proof fn law_fresh_keys_are_free_and_distinct(
    defs: Seq<DefinitionView>,
    at: Path,
    used: Set<u16>,
    n: nat,
)
    requires
        n <= defs.len(),
        used.finite(),
        used.len() + missing_count(defs, n) <= KEY_COUNT,
    ensures
        ({
            let r = assigned_upto(defs, at, used, n);
            &&& r.used.finite()
            &&& r.used.len() == used.len() + missing_count(defs, n)
            &&& r.fresh.len() == missing_count(defs, n)
            &&& r.fresh.no_duplicates()
            &&& forall|i: int| 0 <= i < r.fresh.len() ==> !used.contains(#[trigger] r.fresh[i])
            &&& forall|k: u16| #[trigger]
                r.used.contains(k) <==> used.contains(k) || r.fresh.contains(k)
        }),
    decreases defs, n,
{
    let r = assigned_upto(defs, at, used, n);
    if n > 0 {
        law_fresh_keys_are_free_and_distinct(defs, at, used, (n - 1) as nat);
        let before = assigned_upto(defs, at, used, (n - 1) as nat);
        match defs[n - 1] {
            DefinitionView::MessageDef(m) => {
                if !has_key(m.annotations) {
                    let key = first_free(hashed_key(absolute_path(at, m.node.name)), before.used);
                    law_first_free_is_free(
                        hashed_key(absolute_path(at, m.node.name)),
                        before.used,
                    );
                    assert(r.fresh == before.fresh.push(key));
                    assert forall|k: u16| #[trigger]
                        r.used.contains(k) <==> used.contains(k) || r.fresh.contains(k) by {
                        if before.fresh.contains(k) {
                            let i = choose|i: int|
                                0 <= i < before.fresh.len() && before.fresh[i] == k;
                            assert(r.fresh[i] == k);
                        }
                        if k == key {
                            assert(r.fresh[before.fresh.len() as int] == k);
                        }
                        if r.fresh.contains(k) {
                            let i = choose|i: int| 0 <= i < r.fresh.len() && r.fresh[i] == k;
                            if i < before.fresh.len() {
                                assert(before.fresh[i] == k);
                            }
                        }
                    }
                    assert(!before.fresh.contains(key));
                    assert(r.fresh.no_duplicates()) by {
                        assert forall|i: int, j: int|
                            0 <= i < r.fresh.len() && 0 <= j < r.fresh.len() && i
                                != j implies r.fresh[i] != r.fresh[j] by {
                            if i == before.fresh.len() {
                                assert(before.fresh.contains(before.fresh[j]));
                            } else if j == before.fresh.len() {
                                assert(before.fresh.contains(before.fresh[i]));
                            }
                        }
                    }
                }
            },
            DefinitionView::ModuleDef(m) => {
                law_fresh_keys_are_free_and_distinct(
                    m.node.definitions,
                    at.push(m.node.name),
                    before.used,
                    m.node.definitions.len(),
                );
                let inner = assigned_upto(
                    m.node.definitions,
                    at.push(m.node.name),
                    before.used,
                    m.node.definitions.len(),
                );
                lemma_concat_contains(before.fresh, inner.fresh);
                assert forall|k: u16| #[trigger]
                    r.used.contains(k) <==> used.contains(k) || r.fresh.contains(k) by {
                    assert(before.used.contains(k) <==> used.contains(k) || before.fresh.contains(
                        k,
                    ));
                }
                assert(r.fresh.no_duplicates()) by {
                    assert forall|i: int, j: int|
                        0 <= i < r.fresh.len() && 0 <= j < r.fresh.len() && i
                            != j implies r.fresh[i] != r.fresh[j] by {
                        let a = before.fresh.len();
                        if i < a && j >= a {
                            assert(before.fresh.contains(before.fresh[i]));
                            assert(!before.used.contains(inner.fresh[j - a]));
                        } else if i >= a && j < a {
                            assert(before.fresh.contains(before.fresh[j]));
                            assert(!before.used.contains(inner.fresh[i - a]));
                        }
                    }
                }
                assert forall|i: int| 0 <= i < r.fresh.len() implies !used.contains(
                    #[trigger] r.fresh[i],
                ) by {
                    if i >= before.fresh.len() {
                        assert(!before.used.contains(inner.fresh[i - before.fresh.len()]));
                    }
                }
            },
            _ => {},
        }
    }
}

proof fn lemma_concat_contains(a: Seq<u16>, b: Seq<u16>)
    ensures
        forall|k: u16| #[trigger] (a + b).contains(k) <==> a.contains(k) || b.contains(k),
{
    assert forall|k: u16| #[trigger] (a + b).contains(k) <==> a.contains(k) || b.contains(k) by {
        if a.contains(k) {
            let i = choose|i: int| 0 <= i < a.len() && a[i] == k;
            assert((a + b)[i] == k);
        }
        if b.contains(k) {
            let i = choose|i: int| 0 <= i < b.len() && b[i] == k;
            assert((a + b)[a.len() + i] == k);
        }
        if (a + b).contains(k) {
            let i = choose|i: int| 0 <= i < (a + b).len() && (a + b)[i] == k;
            if i < a.len() {
                assert(a[i] == k);
            } else {
                assert(b[i - a.len()] == k);
            }
        }
    }
}

/// Gives a key to every message among the definitions, at any depth, that names
/// none.
fn assign_missing_message_keys(
    defs: &mut Vec<Definition>,
    at: &Vec<String>,
    used: &mut HashSet<u16>,
)
    ensures
        ({
            let r = assigned_upto(
                definitions_view(old(defs)@),
                views(at@),
                old(used)@,
                old(defs)@.len(),
            );
            &&& definitions_view(final(defs)@) == r.defs
            &&& final(used)@ == r.used
        }),
    decreases old(defs)@,
{
    let ghost original = defs@;
    let ghost all = definitions_view(defs@);
    let ghost here = views(at@);
    let ghost start = used@;
    let total: usize = defs.len();
    let mut i: usize = 0;
    while i < total
        invariant
            i <= total,
            original == old(defs)@,
            start == old(used)@,
            total == original.len(),
            defs@.len() == total,
            all == definitions_view(original),
            here == views(at@),
            used@ == assigned_upto(all, here, start, i as nat).used,
            forall|k: int| i <= k < total ==> #[trigger] defs@[k] == original[k],
            assigned_upto(all, here, start, i as nat).defs.len() == i,
            forall|k: int|
                0 <= k < i ==> definition_view(#[trigger] defs@[k]) == assigned_upto(
                    all,
                    here,
                    start,
                    i as nat,
                ).defs[k],
        decreases total - i,
    {
        assert(all[i as int] == definition_view(original[i as int]));
        let ghost before = defs@;
        match &mut defs[i] {
            Definition::MessageDef(m) => {
                if !names_key(&m.annotations) {
                    let path = message_absolute_path(at.as_slice(), m.node.name.as_str());
                    let key: u16 = find_free(hash_path(path.as_str()), used);
                    used.insert(key);
                    m.annotations.push(make_key_annotation(key));
                }
            },
            Definition::ModuleDef(m) => {
                let inner = child_path(at.as_slice(), m.node.name.as_str());
                assign_missing_message_keys(&mut m.node.definitions, &inner, used);
            },
            _ => {},
        }
        assert(forall|k: int| 0 <= k < total && k != i ==> #[trigger] defs@[k] == before[k]);
        proof {
            let now = assigned_upto(all, here, start, (i + 1) as nat);
            assert(definition_view(defs@[i as int]) == now.defs[i as int]);
        }
        i += 1;
    }
    assert(definitions_view(defs@) =~= assigned_upto(all, here, start, total as nat).defs);
}

/// The keys that the definitions name.
pub open spec fn existing_keys(defs: Seq<DefinitionView>) -> Set<u16> {
    existing_upto(Set::empty(), defs, defs.len())
}

/// The definitions with a key for every message.
pub open spec fn auto_assigned(defs: Seq<DefinitionView>) -> AssignedView {
    assigned_upto(defs, Seq::empty(), existing_keys(defs), defs.len())
}

/// Whether there is a key left for every message that names none.
pub open spec fn enough_keys(defs: Seq<DefinitionView>) -> bool {
    existing_keys(defs).len() + missing_count(defs, defs.len()) <= KEY_COUNT
}

proof fn lemma_missing_grows(defs: Seq<DefinitionView>, n: nat, m: nat)
    requires
        n <= m <= defs.len(),
    ensures
        missing_count(defs, n) <= missing_count(defs, m),
    decreases m,
{
    if n < m {
        lemma_missing_grows(defs, n, (m - 1) as nat);
    }
}

/// What is left of `budget` after one key for every message that names none.
fn spend_keys(defs: &[Definition], budget: u32) -> (r: Option<u32>)
    ensures
        match r {
            Some(left) => left == budget - missing_count(definitions_view(defs@), defs@.len()),
            None => missing_count(definitions_view(defs@), defs@.len()) > budget,
        },
    decreases defs@,
{
    let ghost all = definitions_view(defs@);
    let mut left: u32 = budget;
    for i in 0..defs.len()
        invariant
            all == definitions_view(defs@),
            left == budget - missing_count(all, i as nat),
    {
        assert(all[i as int] == definition_view(defs@[i as int]));
        proof {
            lemma_missing_grows(all, (i + 1) as nat, all.len());
        }
        match &defs[i] {
            Definition::MessageDef(m) => {
                if !names_key(&m.annotations) {
                    if left == 0 {
                        return None;
                    }
                    left -= 1;
                }
            },
            Definition::ModuleDef(m) => {
                match spend_keys(m.node.definitions.as_slice(), left) {
                    Some(rest) => {
                        left = rest;
                    },
                    None => {
                        return None;
                    },
                }
            },
            _ => {},
        }
    }
    Some(left)
}

/// Whether there is a key left for every message that names none.
pub fn keys_suffice(defs: &[Definition]) -> (r: bool)
    ensures
        r == enough_keys(definitions_view(defs@)),
{
    let mut used: HashSet<u16> = HashSet::new();
    collect_existing_message_keys(defs, &mut used);
    let count: usize = used.len();
    if count > 65536 {
        return false;
    }
    spend_keys(defs, KEY_COUNT - count as u32).is_some()
}

/// Gives a key to every message, at any depth, that names none: the first free
/// one from the hash of its path on.
pub fn auto_assign_message_keys(defs: &mut Vec<Definition>)
    requires
        enough_keys(definitions_view(old(defs)@)),
    ensures
        definitions_view(final(defs)@) == auto_assigned(definitions_view(old(defs)@)).defs,
{
    let mut used: HashSet<u16> = HashSet::new();
    collect_existing_message_keys(defs.as_slice(), &mut used);
    let root: Vec<String> = Vec::new();
    assign_missing_message_keys(defs, &root, &mut used);
}

proof fn lemma_existing_finite(used: Set<u16>, defs: Seq<DefinitionView>, n: nat)
    requires
        used.finite(),
    ensures
        existing_upto(used, defs, n).finite(),
    decreases defs, n,
{
    if 0 < n <= defs.len() {
        lemma_existing_finite(used, defs, (n - 1) as nat);
        if let DefinitionView::ModuleDef(m) = defs[n - 1] {
            lemma_existing_finite(
                existing_upto(used, defs, (n - 1) as nat),
                m.node.definitions,
                m.node.definitions.len(),
            );
        }
    }
}

/// The keys that messages are given are different from each other and from every
/// key that a message names.
pub proof fn law_assigned_keys_are_unique(defs: Seq<DefinitionView>)
    requires
        enough_keys(defs),
    ensures
        auto_assigned(defs).fresh.len() == missing_count(defs, defs.len()),
        auto_assigned(defs).fresh.no_duplicates(),
        forall|i: int|
            0 <= i < auto_assigned(defs).fresh.len() ==> !existing_keys(defs).contains(
                #[trigger] auto_assigned(defs).fresh[i],
            ),
{
    lemma_existing_finite(Set::empty(), defs, defs.len());
    law_fresh_keys_are_free_and_distinct(
        defs,
        Seq::empty(),
        existing_keys(defs),
        defs.len(),
    );
}

proof fn lemma_first_named_push(
    annotations: Seq<AnnotationView>,
    a: AnnotationView,
    name: Text,
    from: int,
)
    requires
        0 <= from <= annotations.len(),
        first_named_from(annotations, name, from) is None,
        is_named(a, name),
    ensures
        first_named_from(annotations.push(a), name, from) == Some(a),
    decreases annotations.len() - from,
{
    if from < annotations.len() {
        lemma_first_named_push(annotations, a, name, from + 1);
    }
}

/// The key that a message is given is the one that is read from it afterwards.
pub proof fn law_assigned_key_is_read_back(annotations: Seq<AnnotationView>, key: u16)
    requires
        !has_key(annotations),
    ensures
        has_key(annotations.push(key_annotation(key))),
        u16_value(annotations.push(key_annotation(key)), "message_key"@) == Some(key),
{
    lemma_first_named_push(annotations, key_annotation(key), "message_key"@, 0);
}

/// Whether every message among the first `n` definitions, at any depth, names a
/// key.
pub open spec fn all_keyed(defs: Seq<DefinitionView>, n: nat) -> bool
    decreases defs, n,
{
    n == 0 || n > defs.len() || {
        &&& all_keyed(defs, (n - 1) as nat)
        &&& match defs[n - 1] {
            DefinitionView::MessageDef(m) => has_key(m.annotations),
            DefinitionView::ModuleDef(m) => all_keyed(
                m.node.definitions,
                m.node.definitions.len(),
            ),
            _ => true,
        }
    }
}

proof fn lemma_all_keyed_push(defs: Seq<DefinitionView>, d: DefinitionView, n: nat)
    requires
        n <= defs.len(),
    ensures
        all_keyed(defs.push(d), n) == all_keyed(defs, n),
    decreases n,
{
    if n > 0 {
        lemma_all_keyed_push(defs, d, (n - 1) as nat);
        assert(defs.push(d)[n - 1] == defs[n - 1]);
    }
}

proof fn lemma_assigned_is_keyed(defs: Seq<DefinitionView>, at: Path, used: Set<u16>, n: nat)
    requires
        n <= defs.len(),
    ensures
        all_keyed(assigned_upto(defs, at, used, n).defs, n),
    decreases defs, n,
{
    if n > 0 {
        lemma_assigned_is_keyed(defs, at, used, (n - 1) as nat);
        lemma_assigned_len(defs, at, used, (n - 1) as nat);
        let before = assigned_upto(defs, at, used, (n - 1) as nat);
        let r = assigned_upto(defs, at, used, n);
        lemma_all_keyed_push(before.defs, r.defs[n - 1], (n - 1) as nat);
        assert(r.defs == before.defs.push(r.defs[n - 1]));
        match defs[n - 1] {
            DefinitionView::MessageDef(m) => {
                if !has_key(m.annotations) {
                    law_assigned_key_is_read_back(
                        m.annotations,
                        first_free(hashed_key(absolute_path(at, m.node.name)), before.used),
                    );
                }
            },
            DefinitionView::ModuleDef(m) => {
                lemma_assigned_is_keyed(
                    m.node.definitions,
                    at.push(m.node.name),
                    before.used,
                    m.node.definitions.len(),
                );
                lemma_assigned_len(
                    m.node.definitions,
                    at.push(m.node.name),
                    before.used,
                    m.node.definitions.len(),
                );
            },
            _ => {},
        }
    }
}

/// Afterwards every message names a key.
pub proof fn law_every_message_gets_a_key(defs: Seq<DefinitionView>)
    ensures
        auto_assigned(defs).defs.len() == defs.len(),
        all_keyed(auto_assigned(defs).defs, defs.len()),
{
    lemma_assigned_len(defs, Seq::empty(), existing_keys(defs), defs.len());
    lemma_assigned_is_keyed(defs, Seq::empty(), existing_keys(defs), defs.len());
}

proof fn lemma_keyed_stays(defs: Seq<DefinitionView>, at: Path, used: Set<u16>, n: nat)
    requires
        n <= defs.len(),
        all_keyed(defs, n),
    ensures
        assigned_upto(defs, at, used, n) == (AssignedView {
            defs: defs.take(n as int),
            used,
            fresh: Seq::empty(),
        }),
    decreases defs, n,
{
    if n == 0 {
        assert(defs.take(0) =~= Seq::<DefinitionView>::empty());
    } else {
        lemma_keyed_stays(defs, at, used, (n - 1) as nat);
        assert(defs.take(n as int) =~= defs.take(n - 1).push(defs[n - 1]));
        if let DefinitionView::ModuleDef(m) = defs[n - 1] {
            lemma_keyed_stays(
                m.node.definitions,
                at.push(m.node.name),
                used,
                m.node.definitions.len(),
            );
            assert(m.node.definitions.take(m.node.definitions.len() as int)
                =~= m.node.definitions);
            assert(Seq::<u16>::empty() + Seq::<u16>::empty() =~= Seq::<u16>::empty());
        }
    }
}

/// Definitions in which every message names a key stay as they are; giving out
/// keys a second time changes nothing.
pub proof fn law_assigning_twice_is_assigning_once(defs: Seq<DefinitionView>)
    ensures
        all_keyed(defs, defs.len()) ==> auto_assigned(defs).defs == defs,
        auto_assigned(auto_assigned(defs).defs).defs == auto_assigned(defs).defs,
{
    if all_keyed(defs, defs.len()) {
        lemma_keyed_stays(defs, Seq::empty(), existing_keys(defs), defs.len());
        assert(defs.take(defs.len() as int) =~= defs);
    }
    law_every_message_gets_a_key(defs);
    let once = auto_assigned(defs).defs;
    lemma_keyed_stays(once, Seq::empty(), existing_keys(once), once.len());
    assert(once.take(once.len() as int) =~= once);
}

/// Whether two lists of definitions are the same in their first `n` places, but
/// for one annotation at the end of messages that named no key.
pub open spec fn same_but_for_keys(
    a: Seq<DefinitionView>,
    b: Seq<DefinitionView>,
    n: nat,
) -> bool
    decreases a, n,
{
    n == 0 || n > a.len() || {
        &&& same_but_for_keys(a, b, (n - 1) as nat)
        &&& match (a[n - 1], b[n - 1]) {
            (DefinitionView::MessageDef(x), DefinitionView::MessageDef(y)) => {
                &&& x.node == y.node
                &&& x.comments == y.comments
                &&& x.id == y.id
                &&& x.annotations == y.annotations || (!has_key(x.annotations) && exists|
                    key: u16,
                |
                    y.annotations == #[trigger] x.annotations.push(key_annotation(key)))
            },
            (DefinitionView::ModuleDef(x), DefinitionView::ModuleDef(y)) => {
                &&& x.node.name == y.node.name
                &&& x.annotations == y.annotations
                &&& x.comments == y.comments
                &&& x.id == y.id
                &&& x.node.definitions.len() == y.node.definitions.len()
                &&& same_but_for_keys(
                    x.node.definitions,
                    y.node.definitions,
                    x.node.definitions.len(),
                )
            },
            (x, y) => x == y,
        }
    }
}

proof fn lemma_same_but_for_keys_push(
    a: Seq<DefinitionView>,
    b: Seq<DefinitionView>,
    d: DefinitionView,
    n: nat,
)
    requires
        n <= b.len(),
    ensures
        same_but_for_keys(a, b.push(d), n) == same_but_for_keys(a, b, n),
    decreases n,
{
    if 0 < n <= a.len() {
        lemma_same_but_for_keys_push(a, b, d, (n - 1) as nat);
        assert(b.push(d)[n - 1] == b[n - 1]);
    }
}

/// Giving out keys changes nothing but the annotations of messages that named
/// none.
pub proof fn law_only_missing_keys_are_added(
    defs: Seq<DefinitionView>,
    at: Path,
    used: Set<u16>,
    n: nat,
)
    requires
        n <= defs.len(),
    ensures
        assigned_upto(defs, at, used, n).defs.len() == n,
        same_but_for_keys(defs, assigned_upto(defs, at, used, n).defs, n),
    decreases defs, n,
{
    if n > 0 {
        law_only_missing_keys_are_added(defs, at, used, (n - 1) as nat);
        let before = assigned_upto(defs, at, used, (n - 1) as nat);
        let r = assigned_upto(defs, at, used, n);
        lemma_same_but_for_keys_push(defs, before.defs, r.defs[n - 1], (n - 1) as nat);
        assert(r.defs == before.defs.push(r.defs[n - 1]));
        match defs[n - 1] {
            DefinitionView::MessageDef(m) => {
                if !has_key(m.annotations) {
                    let key = first_free(hashed_key(absolute_path(at, m.node.name)), before.used);
                    let y = m.annotations.push(key_annotation(key));
                    assert(y == m.annotations.push(key_annotation(key)));
                }
            },
            DefinitionView::ModuleDef(m) => {
                law_only_missing_keys_are_added(
                    m.node.definitions,
                    at.push(m.node.name),
                    before.used,
                    m.node.definitions.len(),
                );
            },
            _ => {},
        }
    }
}

/// The path of a message is two colons, then the names of its modules and its own, in
/// small letters, with two colons between neighbours.
pub proof fn law_paths_name_every_module(modules: Path, name: Text)
    ensures
        absolute_path(modules, name) == "::"@ + joined(lower_segments(modules.push(name)), "::"@),
{
    assert(lower_segments(modules.push(name)) =~= lower_segments(modules).push(
        unicode_lowercase(name),
    ));
    lemma_rooted_is_joined(lower_segments(modules), unicode_lowercase(name), modules.len());
    assert(lower_segments(modules).take(modules.len() as int) =~= lower_segments(modules));
}

proof fn lemma_rooted_is_joined(modules: Path, name: Text, n: nat)
    requires
        n <= modules.len(),
    ensures
        segments_text(modules, n) + name == joined(modules.take(n as int).push(name), "::"@),
    decreases n,
{
    let all = modules.take(n as int).push(name);
    assert(all.drop_last() =~= modules.take(n as int));
    if n > 0 {
        lemma_rooted_is_joined(modules, modules[n - 1], (n - 1) as nat);
        assert(modules.take(n as int) =~= modules.take(n - 1).push(modules[n - 1]));
        assert(all.len() > 1);
    } else {
        assert(all.len() == 1);
        assert(segments_text(modules, 0) + name =~= name);
    }
}

proof fn lemma_small_remainders_move_up(crc: u16, n: nat)
    requires
        crc < 256,
        n <= 8,
    ensures
        crc_steps(crc, n) == crc << (n as u16),
    decreases n,
{
    if n == 0 {
        assert(crc << 0u16 == crc) by (bit_vector);
    } else {
        lemma_small_remainders_move_up(crc, (n - 1) as nat);
        let k = (n - 1) as u16;
        assert((crc << k) & 0x8000 == 0 && (crc << k) << 1 == crc << ((k + 1) as u16)) by (bit_vector)
            requires
                crc < 256,
                k < 8,
        ;
    }
}

/// Bytes followed by the two bytes of their remainder leave no remainder, as it is with
/// every cyclic check.
pub proof fn law_appended_remainder_leaves_none(data: Seq<u8>)
    ensures
        ({
            let crc = crc_upto(data, data.len());
            let whole = data.push((crc >> 8) as u8).push((crc & 0xFF) as u8);
            crc_upto(whole, whole.len()) == 0
        }),
{
    let crc = crc_upto(data, data.len());
    let high = (crc >> 8) as u8;
    let low = (crc & 0xFF) as u8;
    let one = data.push(high);
    let whole = one.push(low);
    lemma_crc_prefix(one, data, data.len());
    lemma_crc_prefix(whole, one, one.len());
    let rest = crc & 0xFF;
    assert(crc ^ ((high as u16) << 8) == rest && rest < 256) by (bit_vector)
        requires
            high == (crc >> 8) as u8,
            rest == crc & 0xFF,
    ;
    lemma_small_remainders_move_up(rest, 8);
    assert((rest << 8u16) ^ ((low as u16) << 8) == 0) by (bit_vector)
        requires
            low == (crc & 0xFF) as u8,
            rest == crc & 0xFF,
    ;
    lemma_small_remainders_move_up(0, 8);
    assert(0u16 << 8u16 == 0u16) by (bit_vector);
}

proof fn lemma_crc_prefix(a: Seq<u8>, b: Seq<u8>, n: nat)
    requires
        n <= a.len(),
        n <= b.len(),
        forall|i: int| 0 <= i < n ==> #[trigger] a[i] == b[i],
    ensures
        crc_upto(a, n) == crc_upto(b, n),
    decreases n,
{
    if n > 0 {
        lemma_crc_prefix(a, b, (n - 1) as nat);
        assert(a[n - 1] == b[n - 1]);
    }
}

/// The message at a place that names no key, and the path of the modules around it.
pub open spec fn keyless_at(
    defs: Seq<DefinitionView>,
    at: Path,
    steps: Seq<int>,
) -> Option<(Path, CommentedView<MessageDefView>)> {
    match found(defs, at, steps) {
        Some(f) => match f.def {
            DefinitionView::MessageDef(m) => if first_named(m.annotations, "message_key"@) is None {
                Some((f.path, m))
            } else {
                None
            },
            _ => None,
        },
        None => None,
    }
}

/// How many messages that name no key come before a place.
pub open spec fn keyless_before(defs: Seq<DefinitionView>, steps: Seq<int>) -> nat
    decreases steps.len(),
{
    if steps.len() == 0 || !(0 <= steps[0] < defs.len()) {
        0
    } else {
        missing_count(defs, steps[0] as nat) + match defs[steps[0]] {
            DefinitionView::ModuleDef(m) => keyless_before(
                m.node.definitions,
                steps.drop_first(),
            ),
            _ => 0,
        }
    }
}

/// Whether a key is the first, from `hash` on, that is not among those taken.
pub open spec fn is_nearest(hash: u16, key: u16, taken: Set<u16>) -> bool {
    exists|j: nat|
        j <= 65536 && key == #[trigger] key_plus(hash, j) && forall|i: nat|
            i < j ==> taken.contains(#[trigger] key_plus(hash, i))
}

proof fn lemma_probe_is_nearest(key: u16, used: Set<u16>, tries: nat)
    requires
        tries <= 65536,
    ensures
        exists|j: nat|
            j <= tries && probe(key, used, tries) == #[trigger] key_plus(key, j) && forall|i: nat|
                i < j ==> used.contains(#[trigger] key_plus(key, i)),
    decreases tries,
{
    assert(key_plus(key, 0) == key);
    if tries > 0 && used.contains(key) {
        let next = next_key(key);
        lemma_probe_is_nearest(next, used, (tries - 1) as nat);
        let j = choose|j: nat|
            j <= tries - 1 && probe(next, used, (tries - 1) as nat) == #[trigger] key_plus(next, j)
                && forall|i: nat| i < j ==> used.contains(#[trigger] key_plus(next, i));
        assert(key_plus(next, j) == key_plus(key, j + 1));
        assert forall|i: nat| i < j + 1 implies used.contains(#[trigger] key_plus(key, i)) by {
            if i > 0 {
                assert(key_plus(next, (i - 1) as nat) == key_plus(key, i));
            }
        }
    }
}

proof fn lemma_used_is_old_and_given(
    defs: Seq<DefinitionView>,
    at: Path,
    used: Set<u16>,
    n: nat,
)
    requires
        n <= defs.len(),
    ensures
        ({
            let r = assigned_upto(defs, at, used, n);
            &&& r.used == used.union(r.fresh.to_set())
            &&& r.fresh.len() == missing_count(defs, n)
            &&& r.defs.len() == n
        }),
    decreases defs, n,
{
    let r = assigned_upto(defs, at, used, n);
    if n == 0 {
        assert(r.used =~= used.union(r.fresh.to_set()));
    } else {
        lemma_used_is_old_and_given(defs, at, used, (n - 1) as nat);
        let before = assigned_upto(defs, at, used, (n - 1) as nat);
        match defs[n - 1] {
            DefinitionView::MessageDef(m) => {
                if !has_key(m.annotations) {
                    let key = r.fresh.last();
                    assert(r.fresh == before.fresh.push(key));
                    lemma_push_to_set(before.fresh, key);
                    assert(r.used =~= used.union(r.fresh.to_set()));
                }
            },
            DefinitionView::ModuleDef(m) => {
                let inside = m.node.definitions;
                lemma_used_is_old_and_given(
                    inside,
                    at.push(m.node.name),
                    before.used,
                    inside.len(),
                );
                let inner = assigned_upto(inside, at.push(m.node.name), before.used, inside.len());
                lemma_concat_to_set(before.fresh, inner.fresh);
                assert(r.used =~= used.union(r.fresh.to_set()));
            },
            _ => {},
        }
    }
}

proof fn lemma_push_to_set(a: Seq<u16>, k: u16)
    ensures
        a.push(k).to_set() == a.to_set().insert(k),
{
    lemma_concat_contains(a, seq![k]);
    assert(a.push(k) =~= a + seq![k]);
    assert(seq![k][0] == k);
    assert forall|x: u16| a.push(k).to_set().contains(x) <==> a.to_set().insert(k).contains(x) by {
        assert((a + seq![k]).contains(x) <==> a.contains(x) || seq![k].contains(x));
    }
    assert(a.push(k).to_set() =~= a.to_set().insert(k));
}

proof fn lemma_concat_to_set(a: Seq<u16>, b: Seq<u16>)
    ensures
        (a + b).to_set() == a.to_set().union(b.to_set()),
{
    lemma_concat_contains(a, b);
    assert forall|x: u16| (a + b).to_set().contains(x) <==> a.to_set().union(
        b.to_set(),
    ).contains(x) by {
        assert((a + b).contains(x) <==> a.contains(x) || b.contains(x));
    }
    assert((a + b).to_set() =~= a.to_set().union(b.to_set()));
}

/// The keys that are taken when the message after `k` given keys is looked at.
pub open spec fn taken_by(used: Set<u16>, fresh: Seq<u16>, k: nat) -> Set<u16> {
    used.union(fresh.take(k as int).to_set())
}

proof fn lemma_given_key(
    defs: Seq<DefinitionView>,
    at: Path,
    used: Set<u16>,
    n: nat,
    steps: Seq<int>,
)
    requires
        n <= defs.len(),
        keyless_at(defs, at, steps) is Some,
        steps[0] < n,
    ensures
        ({
            let r = assigned_upto(defs, at, used, n);
            let (path, m) = keyless_at(defs, at, steps).unwrap();
            let k = keyless_before(defs, steps);
            &&& k < r.fresh.len()
            &&& is_nearest(
                hashed_key(absolute_path(path, m.node.name)),
                r.fresh[k as int],
                taken_by(used, r.fresh, k),
            )
            &&& found(r.defs, at, steps) == Some(
                Found {
                    path,
                    def: DefinitionView::MessageDef(
                        CommentedView {
                            annotations: m.annotations.push(key_annotation(r.fresh[k as int])),
                            ..m
                        },
                    ),
                },
            )
        }),
    decreases defs, n,
{
    let r = assigned_upto(defs, at, used, n);
    let before = assigned_upto(defs, at, used, (n - 1) as nat);
    let (path, m) = keyless_at(defs, at, steps).unwrap();
    let k = keyless_before(defs, steps);
    lemma_used_is_old_and_given(defs, at, used, (n - 1) as nat);
    lemma_used_is_old_and_given(defs, at, used, n);
    if steps[0] < n - 1 {
        lemma_given_key(defs, at, used, (n - 1) as nat, steps);
        assert(r.defs == before.defs.push(r.defs.last()));
        lemma_found_push(before.defs, r.defs.last(), at, steps);
        assert(r.fresh[k as int] == before.fresh[k as int]);
        assert(r.fresh.take(k as int) =~= before.fresh.take(k as int));
    } else if steps.len() == 1 {
        let hash = hashed_key(absolute_path(at, m.node.name));
        lemma_probe_is_nearest(hash, before.used, KEY_COUNT as nat);
        assert(r.fresh.take(k as int) =~= before.fresh);
        assert(r.fresh[k as int] == first_free(hash, before.used));
        assert(steps.drop_first().len() == 0);
    } else {
        let outer = defs[n - 1]->ModuleDef_0;
        let inside = outer.node.definitions;
        let rest = steps.drop_first();
        let below = at.push(outer.node.name);
        assert(keyless_at(inside, below, rest) == keyless_at(defs, at, steps));
        assert(found(inside, below, rest) is Some);
        lemma_given_key(inside, below, before.used, inside.len(), rest);
        let inner = assigned_upto(inside, below, before.used, inside.len());
        let j = keyless_before(inside, rest);
        assert(k == before.fresh.len() + j);
        assert(r.fresh[k as int] == inner.fresh[j as int]);
        assert(r.fresh.take(k as int) =~= before.fresh + inner.fresh.take(j as int));
        lemma_concat_to_set(before.fresh, inner.fresh.take(j as int));
        assert(taken_by(used, r.fresh, k) =~= taken_by(before.used, inner.fresh, j));
        assert(r.defs[n - 1] is ModuleDef);
        assert(found(r.defs, at, steps) == found(inner.defs, below, rest));
    }
}

/// A message that names no key, at any depth, is given the first key from the check sum
/// of its whole path on that no message names and that none before it was given. Where
/// the check sum itself is neither named nor given before, that is the key.
pub proof fn law_missing_keys_come_from_the_whole_path(defs: Seq<DefinitionView>, steps: Seq<int>)
    requires
        keyless_at(defs, Seq::empty(), steps) is Some,
    ensures
        ({
            let r = auto_assigned(defs);
            let (path, m) = keyless_at(defs, Seq::empty(), steps).unwrap();
            let k = keyless_before(defs, steps);
            let hash = hashed_key("::"@ + joined(lower_segments(path.push(m.node.name)), "::"@));
            let taken = taken_by(existing_keys(defs), r.fresh, k);
            let key = r.fresh[k as int];
            &&& k < r.fresh.len()
            &&& is_nearest(hash, key, taken)
            &&& !taken.contains(hash) ==> key == hash
            &&& found(r.defs, Seq::empty(), steps) == Some(
                Found {
                    path,
                    def: DefinitionView::MessageDef(
                        CommentedView {
                            annotations: m.annotations.push(key_annotation(key)),
                            ..m
                        },
                    ),
                },
            )
        }),
{
    let r = auto_assigned(defs);
    let (path, m) = keyless_at(defs, Seq::empty(), steps).unwrap();
    lemma_given_key(defs, Seq::empty(), existing_keys(defs), defs.len(), steps);
    law_paths_name_every_module(path, m.node.name);
    let k = keyless_before(defs, steps);
    let hash = hashed_key(absolute_path(path, m.node.name));
    let taken = taken_by(existing_keys(defs), r.fresh, k);
    if !taken.contains(hash) {
        let key = r.fresh[k as int];
        let j = choose|j: nat|
            j <= 65536 && key == #[trigger] key_plus(hash, j) && forall|i: nat|
                i < j ==> taken.contains(#[trigger] key_plus(hash, i));
        assert(key_plus(hash, 0) == hash);
        if j > 0 {
            assert(taken.contains(key_plus(hash, 0)));
        }
    }
}

/// What is said of a message that names no key: the check sum of its whole path is the
/// key that it would be given.
pub open spec fn announcement(
    format: OutputFormat,
    path: Path,
    name: Text,
    file: Text,
    source: Text,
) -> DiagnosticView {
    let whole = "::"@ + joined(lower_segments(path.push(name)), "::"@);
    missing_message_key(format, name, whole, hashed_key(whole), file, source)
}

proof fn lemma_announced(
    format: OutputFormat,
    file: Text,
    source: Text,
    defs: Seq<DefinitionView>,
    at: Path,
    n: nat,
    steps: Seq<int>,
)
    requires
        n <= defs.len(),
        keyless_at(defs, at, steps) is Some,
        steps[0] < n,
    ensures
        ({
            let r = missing_upto(format, file, source, defs, at, n);
            let (path, m) = keyless_at(defs, at, steps).unwrap();
            let k = keyless_before(defs, steps);
            &&& k < r.len()
            &&& r[k as int] == announcement(format, path, m.node.name, file, source)
        }),
    decreases defs, n,
{
    let r = missing_upto(format, file, source, defs, at, n);
    let before = missing_upto(format, file, source, defs, at, (n - 1) as nat);
    let (path, m) = keyless_at(defs, at, steps).unwrap();
    lemma_announcements(format, file, source, defs, at, (n - 1) as nat);
    lemma_announcements(format, file, source, defs, at, n);
    if steps[0] < n - 1 {
        lemma_announced(format, file, source, defs, at, (n - 1) as nat, steps);
        let k = keyless_before(defs, steps);
        assert(r[k as int] == before[k as int]);
    } else if steps.len() == 1 {
        law_paths_name_every_module(at, m.node.name);
        assert(steps.drop_first().len() == 0);
    } else {
        let outer = defs[n - 1]->ModuleDef_0;
        let inside = outer.node.definitions;
        let rest = steps.drop_first();
        let below = at.push(outer.node.name);
        assert(keyless_at(inside, below, rest) == keyless_at(defs, at, steps));
        assert(found(inside, below, rest) is Some);
        lemma_announced(format, file, source, inside, below, inside.len(), rest);
    }
}

proof fn lemma_announcements(
    format: OutputFormat,
    file: Text,
    source: Text,
    defs: Seq<DefinitionView>,
    at: Path,
    n: nat,
)
    requires
        n <= defs.len(),
    ensures
        missing_upto(format, file, source, defs, at, n).len() == missing_count(defs, n),
    decreases defs, n,
{
    if n > 0 {
        lemma_announcements(format, file, source, defs, at, (n - 1) as nat);
        if let DefinitionView::ModuleDef(m) = defs[n - 1] {
            lemma_announcements(
                format,
                file,
                source,
                m.node.definitions,
                at.push(m.node.name),
                m.node.definitions.len(),
            );
        }
    }
}

/// One warning is given for each message that names no key, at any depth, in the order of
/// the source; it states the check sum of the whole path of the message, which is the key
/// that is tried first when keys are given out.
pub proof fn law_every_missing_key_is_announced(
    format: OutputFormat,
    file: Text,
    source: Text,
    defs: Seq<DefinitionView>,
    steps: Seq<int>,
)
    ensures
        ({
            let r = missing_upto(format, file, source, defs, Seq::empty(), defs.len());
            &&& r.len() == missing_count(defs, defs.len())
            &&& keyless_at(defs, Seq::empty(), steps) matches Some((path, m)) ==> {
                let k = keyless_before(defs, steps);
                &&& k < r.len()
                &&& r[k as int] == announcement(format, path, m.node.name, file, source)
            }
        }),
{
    lemma_announcements(format, file, source, defs, Seq::empty(), defs.len());
    if keyless_at(defs, Seq::empty(), steps) is Some {
        lemma_announced(format, file, source, defs, Seq::empty(), defs.len(), steps);
    }
}

/// The key that the message at a place names.
pub open spec fn named_key_at(
    defs: Seq<DefinitionView>,
    at: Path,
    steps: Seq<int>,
) -> Option<u16> {
    match found(defs, at, steps) {
        Some(f) => match f.def {
            DefinitionView::MessageDef(m) => u16_value(m.annotations, "message_key"@),
            _ => None,
        },
        None => None,
    }
}

proof fn lemma_existing_grow(used: Set<u16>, defs: Seq<DefinitionView>, n: nat)
    ensures
        used.subset_of(existing_upto(used, defs, n)),
    decreases defs, n,
{
    if 0 < n <= defs.len() {
        lemma_existing_grow(used, defs, (n - 1) as nat);
        if let DefinitionView::ModuleDef(m) = defs[n - 1] {
            lemma_existing_grow(
                existing_upto(used, defs, (n - 1) as nat),
                m.node.definitions,
                m.node.definitions.len(),
            );
        }
    }
}

proof fn lemma_named_key_exists(
    used: Set<u16>,
    defs: Seq<DefinitionView>,
    at: Path,
    n: nat,
    steps: Seq<int>,
)
    requires
        n <= defs.len(),
        named_key_at(defs, at, steps) is Some,
        steps[0] < n,
    ensures
        existing_upto(used, defs, n).contains(named_key_at(defs, at, steps).unwrap()),
    decreases defs, n,
{
    let before = existing_upto(used, defs, (n - 1) as nat);
    if steps[0] < n - 1 {
        lemma_named_key_exists(used, defs, at, (n - 1) as nat, steps);
        if let DefinitionView::ModuleDef(m) = defs[n - 1] {
            lemma_existing_grow(before, m.node.definitions, m.node.definitions.len());
        }
    } else if steps.len() > 1 {
        let outer = defs[n - 1]->ModuleDef_0;
        let inside = outer.node.definitions;
        let rest = steps.drop_first();
        let below = at.push(outer.node.name);
        assert(named_key_at(inside, below, rest) == named_key_at(defs, at, steps));
        assert(found(inside, below, rest) is Some);
        lemma_named_key_exists(before, inside, below, inside.len(), rest);
    }
}

proof fn lemma_existing_key_is_named(
    used: Set<u16>,
    defs: Seq<DefinitionView>,
    at: Path,
    n: nat,
    key: u16,
)
    requires
        n <= defs.len(),
        existing_upto(used, defs, n).contains(key),
        !used.contains(key),
    ensures
        exists|steps: Seq<int>| #[trigger] named_key_at(defs, at, steps) == Some(key),
    decreases defs, n,
{
    let before = existing_upto(used, defs, (n - 1) as nat);
    if before.contains(key) {
        lemma_existing_key_is_named(used, defs, at, (n - 1) as nat, key);
    } else {
        match defs[n - 1] {
            DefinitionView::ModuleDef(m) => {
                let inside = m.node.definitions;
                let below = at.push(m.node.name);
                lemma_existing_key_is_named(before, inside, below, inside.len(), key);
                let rest = choose|steps: Seq<int>| #[trigger]
                    named_key_at(inside, below, steps) == Some(key);
                lemma_found_inside(defs, at, n - 1, rest);
                assert(named_key_at(defs, at, seq![n - 1] + rest) == Some(key));
            },
            _ => {
                assert(named_key_at(defs, at, seq![n - 1]) == Some(key));
            },
        }
    }
}

/// The keys that are never given out are those that messages name, at any depth, and no
/// others.
pub proof fn law_existing_keys_are_those_named(defs: Seq<DefinitionView>, key: u16)
    ensures
        existing_keys(defs).contains(key) <==> exists|steps: Seq<int>| #[trigger]
            named_key_at(defs, Seq::empty(), steps) == Some(key),
{
    if existing_keys(defs).contains(key) {
        lemma_existing_key_is_named(Set::empty(), defs, Seq::empty(), defs.len(), key);
    }
    if exists|steps: Seq<int>| #[trigger]
        named_key_at(defs, Seq::empty(), steps) == Some(key) {
        let steps = choose|steps: Seq<int>| #[trigger]
            named_key_at(defs, Seq::empty(), steps) == Some(key);
        lemma_named_key_exists(Set::empty(), defs, Seq::empty(), defs.len(), steps);
    }
}

/// The warnings of every file are given, those of one file after those of the file before it.
pub proof fn law_every_file_is_warned_of(
    format: OutputFormat,
    files: Seq<SourceFileView>,
    n: nat,
)
    requires
        n < files.len(),
    ensures
        missing_key_warnings(format, files, 0).len() == 0,
        missing_key_warnings(format, files, n + 1) == missing_key_warnings(format, files, n)
            + missing_upto(
            format,
            files[n as int].name,
            files[n as int].source,
            files[n as int].definitions,
            Seq::empty(),
            files[n as int].definitions.len(),
        ),
{
}

proof fn lemma_others_stay(
    defs: Seq<DefinitionView>,
    at: Path,
    used: Set<u16>,
    n: nat,
    steps: Seq<int>,
)
    requires
        n <= defs.len(),
        found(defs, at, steps) matches Some(f) && !(f.def is ModuleDef),
        keyless_at(defs, at, steps) is None,
        steps[0] < n,
    ensures
        found(assigned_upto(defs, at, used, n).defs, at, steps) == found(defs, at, steps),
    decreases defs, n,
{
    let r = assigned_upto(defs, at, used, n);
    let before = assigned_upto(defs, at, used, (n - 1) as nat);
    lemma_assigned_len(defs, at, used, (n - 1) as nat);
    lemma_assigned_len(defs, at, used, n);
    if steps[0] < n - 1 {
        lemma_others_stay(defs, at, used, (n - 1) as nat, steps);
        assert(r.defs == before.defs.push(r.defs.last()));
        lemma_found_push(before.defs, r.defs.last(), at, steps);
    } else if steps.len() > 1 {
        let m = defs[n - 1]->ModuleDef_0;
        let inside = m.node.definitions;
        let below = at.push(m.node.name);
        let rest = steps.drop_first();
        assert(found(inside, below, rest) == found(defs, at, steps));
        assert(keyless_at(inside, below, rest) is None);
        lemma_others_stay(inside, below, before.used, inside.len(), rest);
        assert(r.defs[n - 1] is ModuleDef);
    }
}

/// Giving out keys changes only messages that name none: whatever else is not a module stays as
/// it is, where it is.
pub proof fn law_everything_else_stays(defs: Seq<DefinitionView>, steps: Seq<int>)
    requires
        found(defs, Seq::empty(), steps) matches Some(f) && !(f.def is ModuleDef),
        keyless_at(defs, Seq::empty(), steps) is None,
    ensures
        found(auto_assigned(defs).defs, Seq::empty(), steps) == found(defs, Seq::empty(), steps),
{
    lemma_others_stay(defs, Seq::empty(), existing_keys(defs), defs.len(), steps);
}

proof fn lemma_modules_stay(
    defs: Seq<DefinitionView>,
    at: Path,
    used: Set<u16>,
    n: nat,
    steps: Seq<int>,
)
    requires
        n <= defs.len(),
        found(defs, at, steps) matches Some(f) && f.def is ModuleDef,
        steps[0] < n,
    ensures
        ({
            let a = found(defs, at, steps).unwrap();
            let b = found(assigned_upto(defs, at, used, n).defs, at, steps);
            &&& b matches Some(f)
            &&& f.path == a.path
            &&& f.def matches DefinitionView::ModuleDef(m)
            &&& m.node.name == a.def->ModuleDef_0.node.name
            &&& m.annotations == a.def->ModuleDef_0.annotations
            &&& m.comments == a.def->ModuleDef_0.comments
        }),
    decreases defs, n,
{
    let r = assigned_upto(defs, at, used, n);
    let before = assigned_upto(defs, at, used, (n - 1) as nat);
    lemma_assigned_len(defs, at, used, (n - 1) as nat);
    lemma_assigned_len(defs, at, used, n);
    if steps[0] < n - 1 {
        lemma_modules_stay(defs, at, used, (n - 1) as nat, steps);
        assert(r.defs == before.defs.push(r.defs.last()));
        lemma_found_push(before.defs, r.defs.last(), at, steps);
    } else if steps.len() > 1 {
        let m = defs[n - 1]->ModuleDef_0;
        let inside = m.node.definitions;
        let below = at.push(m.node.name);
        let rest = steps.drop_first();
        assert(found(inside, below, rest) == found(defs, at, steps));
        lemma_modules_stay(inside, below, before.used, inside.len(), rest);
        assert(r.defs[n - 1] is ModuleDef);
    }
}

/// Giving out keys leaves modules where they are, with their names, annotations and comments.
pub proof fn law_modules_stay(defs: Seq<DefinitionView>, steps: Seq<int>)
    requires
        found(defs, Seq::empty(), steps) matches Some(f) && f.def is ModuleDef,
    ensures
        ({
            let a = found(defs, Seq::empty(), steps).unwrap();
            let b = found(auto_assigned(defs).defs, Seq::empty(), steps);
            &&& b matches Some(f)
            &&& f.path == a.path
            &&& f.def matches DefinitionView::ModuleDef(m)
            &&& m.node.name == a.def->ModuleDef_0.node.name
            &&& m.annotations == a.def->ModuleDef_0.annotations
            &&& m.comments == a.def->ModuleDef_0.comments
        }),
{
    lemma_modules_stay(defs, Seq::empty(), existing_keys(defs), defs.len(), steps);
}

} // verus!
