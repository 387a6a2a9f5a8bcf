//! From parsed files to definitions that are ready to generate from.
use vstd::prelude::*;
use crate::annotations::{first_named, first_named_from, is_named};
use crate::ast::{definitions_view, AnnotationView, CommentedView, Definition, DefinitionView};
use crate::cli::assign::{
    all_keyed, auto_assign_message_keys, auto_assigned, enough_keys, key_annotation, keyless_at,
    keyless_before, keys_suffice, law_every_message_gets_a_key, law_every_missing_key_is_announced,
    law_everything_else_stays, law_missing_keys_come_from_the_whole_path, law_modules_stay,
    missing_count,
    missing_key_warnings, missing_upto, warn_missing_message_keys,
};
use crate::cli::diagnostics::{Diagnostic, DiagnosticView, OutputFormat};
use crate::cli::imports::{
    collect_all_module_paths, import_diagnostics, module_paths, validate_imports,
};
use crate::cli::keys::{key_diagnostics, validate_keys, SourceFile, SourceFileView};
use crate::cli::modules::{
    key_named_at, law_merging_keeps_every_definition, law_modules_take_over_the_first_key, leaves,
    lemma_found_is_leaf, lemma_leaf_is_found, merge_definitions, merged_upto,
    propagate_module_key_annotations, propagated, Leaf,
};
use crate::concat::{views, Text};
use crate::tree::{found, Found};

verus! {

broadcast use crate::concat::group_views;

/// What is said of files that pass the checks, or of those that do not. The
/// imports are only looked at where the keys agree.
pub open spec fn checked(format: OutputFormat, files: Seq<SourceFileView>) -> Result<
    Seq<DiagnosticView>,
    Seq<DiagnosticView>,
> {
    let on_keys = key_diagnostics(format, files);
    let on_imports = import_diagnostics(
        format,
        files,
        module_paths(files, files.len()),
        files.len(),
    );
    if on_keys.len() > 0 {
        Err(on_keys)
    } else if on_imports.len() > 0 {
        Err(on_imports)
    } else {
        Ok(missing_key_warnings(format, files, files.len()))
    }
}

/// Checks the keys and the imports of files, and lists the messages that name no
/// key.
pub fn check_files(format: OutputFormat, files: &Vec<SourceFile>) -> (r: Result<
    Vec<Diagnostic>,
    Vec<Diagnostic>,
>)
    ensures
        match r {
            Ok(warnings) => checked(format, views(files@)) == Ok::<
                Seq<DiagnosticView>,
                Seq<DiagnosticView>,
            >(views(warnings@)),
            Err(errors) => checked(format, views(files@)) == Err::<
                Seq<DiagnosticView>,
                Seq<DiagnosticView>,
            >(views(errors@)),
        },
{
    match validate_keys(format, files) {
        Ok(_) => {},
        Err(errors) => {
            assert(views(errors@).len() == errors@.len());
            return Err(errors);
        },
    }
    let paths = collect_all_module_paths(files);
    match validate_imports(format, files, &paths) {
        Ok(_) => {},
        Err(errors) => {
            assert(views(errors@).len() == errors@.len());
            return Err(errors);
        },
    }
    Ok(warn_missing_message_keys(format, files))
}

/// Definitions that are ready to generate from, and what was said of them.
#[derive(Debug)]
pub struct Prepared {
    pub definitions: Vec<Definition>,
    pub warnings: Vec<Diagnostic>,
}

/// What contracts see of a [`Prepared`].
pub struct PreparedView {
    pub definitions: Seq<DefinitionView>,
    pub warnings: Seq<DiagnosticView>,
}

impl View for Prepared {
    type V = PreparedView;

    open spec fn view(&self) -> PreparedView {
        PreparedView {
            definitions: definitions_view(self.definitions@),
            warnings: views(self.warnings@),
        }
    }
}

/// Why files are not ready to generate from.
#[derive(Debug)]
pub enum Refusal {
    /// The checks failed.
    Diagnostics(Vec<Diagnostic>),
    /// There are more messages than keys.
    OutOfKeys,
}

/// What contracts see of a [`Refusal`].
pub enum RefusalView {
    Diagnostics(Seq<DiagnosticView>),
    OutOfKeys,
}

impl View for Refusal {
    type V = RefusalView;

    open spec fn view(&self) -> RefusalView {
        match self {
            Refusal::Diagnostics(d) => RefusalView::Diagnostics(views(d@)),
            Refusal::OutOfKeys => RefusalView::OutOfKeys,
        }
    }
}

/// Checked definitions with a key for every message.
pub open spec fn finished(
    warnings: Seq<DiagnosticView>,
    definitions: Seq<DefinitionView>,
) -> Result<PreparedView, RefusalView> {
    if enough_keys(definitions) {
        Ok(PreparedView { definitions: auto_assigned(definitions).defs, warnings })
    } else {
        Err(RefusalView::OutOfKeys)
    }
}

fn finish(warnings: Vec<Diagnostic>, definitions: Vec<Definition>) -> (r: Result<
    Prepared,
    Refusal,
>)
    ensures
        match r {
            Ok(p) => finished(views(warnings@), definitions_view(definitions@)) == Ok::<
                PreparedView,
                RefusalView,
            >(p@),
            Err(e) => finished(views(warnings@), definitions_view(definitions@)) == Err::<
                PreparedView,
                RefusalView,
            >(e@),
        },
{
    if !keys_suffice(definitions.as_slice()) {
        return Err(Refusal::OutOfKeys);
    }
    let mut definitions = definitions;
    auto_assign_message_keys(&mut definitions);
    Ok(Prepared { definitions, warnings })
}

/// A single file, ready to generate from.
pub open spec fn prepared_file(format: OutputFormat, file: SourceFileView) -> Result<
    PreparedView,
    RefusalView,
> {
    match checked(format, seq![file]) {
        Err(errors) => Err(RefusalView::Diagnostics(errors)),
        Ok(warnings) => finished(warnings, file.definitions),
    }
}

/// Checks a single file and gives every message in it a key.
pub fn prepare_file(format: OutputFormat, file: SourceFile) -> (r: Result<Prepared, Refusal>)
    ensures
        match r {
            Ok(p) => prepared_file(format, file@) == Ok::<PreparedView, RefusalView>(p@),
            Err(e) => prepared_file(format, file@) == Err::<PreparedView, RefusalView>(e@),
        },
{
    let ghost only = file@;
    let mut files: Vec<SourceFile> = Vec::new();
    files.push(file);
    assert(views(files@) =~= seq![only]);
    match check_files(format, &files) {
        Err(errors) => Err(Refusal::Diagnostics(errors)),
        Ok(warnings) => match files.pop() {
            Some(last) => finish(warnings, last.definitions),
            None => Err(Refusal::OutOfKeys),
        },
    }
}

/// The definitions of the first `n` files, merged in order.
pub open spec fn merged_files(files: Seq<SourceFileView>, n: nat) -> Seq<DefinitionView>
    decreases n,
{
    if n == 0 {
        Seq::empty()
    } else {
        merged_upto(
            merged_files(files, (n - 1) as nat),
            files[n - 1].definitions,
            files[n - 1].definitions.len(),
        )
    }
}

/// A directory of files, ready to generate from.
pub open spec fn prepared_directory(format: OutputFormat, files: Seq<SourceFileView>) -> Result<
    PreparedView,
    RefusalView,
> {
    match checked(format, files) {
        Err(errors) => Err(RefusalView::Diagnostics(errors)),
        Ok(warnings) => finished(warnings, propagated(merged_files(files, files.len()))),
    }
}

fn merge_files(files: Vec<SourceFile>) -> (r: Vec<Definition>)
    ensures
        definitions_view(r@) == merged_files(views(files@), files@.len()),
{
    let ghost all = views(files@);
    let mut merged: Vec<Definition> = Vec::new();
    assert(definitions_view(merged@) =~= Seq::<DefinitionView>::empty());
    for file in it: files.into_iter()
        invariant
            all == views(files@),
            it.seq() == files@,
            definitions_view(merged@) == merged_files(all, it.index() as nat),
    {
        assert(all[it.index()] == file@);
        merge_definitions(&mut merged, file.definitions);
    }
    merged
}

/// Checks the files of a directory, merges their modules, shares module keys
/// among modules of the same name, and gives every message a key.
pub fn prepare_directory(format: OutputFormat, files: Vec<SourceFile>) -> (r: Result<
    Prepared,
    Refusal,
>)
    ensures
        match r {
            Ok(p) => prepared_directory(format, views(files@)) == Ok::<PreparedView, RefusalView>(
                p@,
            ),
            Err(e) => prepared_directory(format, views(files@)) == Err::<
                PreparedView,
                RefusalView,
            >(e@),
        },
{
    match check_files(format, &files) {
        Err(errors) => Err(Refusal::Diagnostics(errors)),
        Ok(warnings) => {
            let mut definitions = merge_files(files);
            propagate_module_key_annotations(&mut definitions);
            finish(warnings, definitions)
        },
    }
}

/// Whatever is ready to generate from has a key for every message.
pub proof fn law_prepared_messages_have_keys(format: OutputFormat, files: Seq<SourceFileView>)
    ensures
        prepared_directory(format, files) matches Ok(p) ==> all_keyed(
            p.definitions,
            p.definitions.len(),
        ),
        files.len() > 0 ==> (prepared_file(format, files[0]) matches Ok(p) ==> all_keyed(
            p.definitions,
            p.definitions.len(),
        )),
{
    law_every_message_gets_a_key(propagated(merged_files(files, files.len())));
    if files.len() > 0 {
        law_every_message_gets_a_key(files[0].definitions);
    }
}

/// Files are ready to generate from exactly where their keys agree, their imports name modules
/// and there are keys enough for their messages; keys are looked at first. What is said then is
/// a warning for each message that names no key.
pub proof fn law_files_are_ready_exactly_where_nothing_is_wrong(
    format: OutputFormat,
    file: SourceFileView,
)
    ensures
        ({
            let files = seq![file];
            let on_imports = import_diagnostics(format, files, module_paths(files, 1), 1);
            &&& prepared_file(format, file) is Ok <==> {
                &&& key_diagnostics(format, files).len() == 0
                &&& on_imports.len() == 0
                &&& enough_keys(file.definitions)
            }
            &&& key_diagnostics(format, files).len() > 0 ==> prepared_file(format, file) == Err::<
                PreparedView,
                RefusalView,
            >(RefusalView::Diagnostics(key_diagnostics(format, files)))
            &&& prepared_file(format, file) matches Ok(p) ==> {
                &&& p.warnings == missing_upto(
                    format,
                    file.name,
                    file.source,
                    file.definitions,
                    Seq::empty(),
                    file.definitions.len(),
                )
                &&& p.warnings.len() == missing_count(file.definitions, file.definitions.len())
            }
        }),
{
    let files = seq![file];
    law_every_missing_key_is_announced(
        format,
        file.name,
        file.source,
        file.definitions,
        Seq::empty(),
    );
    reveal_with_fuel(missing_key_warnings, 2);
    assert(files[0] == file);
    let warnings = missing_upto(
        format,
        file.name,
        file.source,
        file.definitions,
        Seq::empty(),
        file.definitions.len(),
    );
    assert(Seq::<DiagnosticView>::empty() + warnings =~= warnings);
}

proof fn lemma_merged_leaf(files: Seq<SourceFileView>, n: nat, f: int, leaf: Leaf)
    requires
        0 <= f < n <= files.len(),
        leaves(files[f].definitions, Seq::empty()).count(leaf) > 0,
    ensures
        leaves(merged_files(files, n), Seq::empty()).count(leaf) > 0,
    decreases n,
{
    broadcast use vstd::multiset::group_multiset_axioms;

    let last = files[n - 1].definitions;
    law_merging_keeps_every_definition(
        merged_files(files, (n - 1) as nat),
        last,
        Seq::empty(),
        last.len(),
    );
    if f < n - 1 {
        lemma_merged_leaf(files, (n - 1) as nat, f, leaf);
    }
}

/// Whether a definition is another one, or the same message with a key where it named none.
pub open spec fn same_but_for_a_key(a: DefinitionView, b: DefinitionView) -> bool {
    ||| a == b
    ||| {
        &&& a matches DefinitionView::MessageDef(m)
        &&& first_named(m.annotations, "message_key"@) is None
        &&& exists|key: u16|
            b == DefinitionView::MessageDef(
                CommentedView {
                    annotations: #[trigger] m.annotations.push(key_annotation(key)),
                    ..m
                },
            )
    }
}

/// Nothing that stands in a file is lost when a directory is made ready: it stands in the
/// modules of the same names afterwards, and is the same but for the key of a message that named
/// none.
pub proof fn law_directories_lose_nothing(
    format: OutputFormat,
    files: Seq<SourceFileView>,
    f: int,
    steps: Seq<int>,
)
    requires
        0 <= f < files.len(),
        prepared_directory(format, files) is Ok,
        found(files[f].definitions, Seq::empty(), steps) matches Some(x) && !(x.def is ModuleDef),
    ensures
        ({
            let x = found(files[f].definitions, Seq::empty(), steps).unwrap();
            let p = prepared_directory(format, files)->Ok_0;
            exists|t: Seq<int>|
                (#[trigger] found(p.definitions, Seq::empty(), t)) matches Some(y) && y.path
                    == x.path && same_but_for_a_key(x.def, y.def)
        }),
{
    let defs = files[f].definitions;
    let x = found(defs, Seq::empty(), steps).unwrap();
    let leaf = Leaf { path: x.path, def: x.def };
    let merged = merged_files(files, files.len());
    lemma_found_is_leaf(defs, Seq::empty(), defs.len(), steps);
    lemma_merged_leaf(files, files.len(), f, leaf);
    lemma_leaf_is_found(merged, Seq::empty(), merged.len(), leaf);
    let t = choose|t: Seq<int>| #[trigger]
        found(merged, Seq::empty(), t) == Some(Found { path: leaf.path, def: leaf.def });
    law_modules_take_over_the_first_key(merged, t);
    let shared = propagated(merged);
    assert(found(shared, Seq::empty(), t) == Some(x));
    let p = prepared_directory(format, files)->Ok_0;
    if keyless_at(shared, Seq::empty(), t) is Some {
        law_missing_keys_come_from_the_whole_path(shared, t);
        let m = x.def->MessageDef_0;
        let key = auto_assigned(shared).fresh[keyless_before(
            shared,
            t,
        ) as int];
        let y = found(p.definitions, Seq::empty(), t).unwrap();
        assert(y.def == DefinitionView::MessageDef(
            CommentedView { annotations: m.annotations.push(key_annotation(key)), ..m },
        ));
        assert(same_but_for_a_key(x.def, y.def));
    } else {
        law_everything_else_stays(shared, t);
    }
    assert(found(p.definitions, Seq::empty(), t) is Some);
}

/// In a directory that is ready every module whose name has a key somewhere has a key.
pub proof fn law_directories_share_module_keys(
    format: OutputFormat,
    files: Seq<SourceFileView>,
    steps: Seq<int>,
    other: Seq<int>,
)
    requires
        prepared_directory(format, files) is Ok,
        ({
            let merged = merged_files(files, files.len());
            &&& found(merged, Seq::empty(), steps) matches Some(x)
            &&& x.def matches DefinitionView::ModuleDef(m)
            &&& key_named_at(merged, other, m.node.name) is Some
        }),
    ensures
        ({
            let p = prepared_directory(format, files)->Ok_0;
            &&& found(p.definitions, Seq::empty(), steps) matches Some(y)
            &&& y.def matches DefinitionView::ModuleDef(m)
            &&& first_named(m.annotations, "module_key"@) is Some
        }),
{
    let merged = merged_files(files, files.len());
    let m = found(merged, Seq::empty(), steps).unwrap().def->ModuleDef_0;
    law_modules_take_over_the_first_key(merged, steps);
    law_modules_stay(propagated(merged), steps);
    if first_named(m.annotations, "module_key"@) is None {
        let place = choose|place: Seq<int>|
            #[trigger] key_named_at(merged, place, m.node.name) is Some && found(
                propagated(merged),
                Seq::empty(),
                steps,
            ).unwrap().def->ModuleDef_0.annotations == m.annotations.push(
                key_named_at(merged, place, m.node.name).unwrap(),
            );
        lemma_key_is_named(merged, place, m.node.name);
        lemma_named_after_push(
            m.annotations,
            key_named_at(merged, place, m.node.name).unwrap(),
            0,
        );
    }
}

proof fn lemma_key_is_named(defs: Seq<DefinitionView>, steps: Seq<int>, name: Text)
    requires
        key_named_at(defs, steps, name) is Some,
    ensures
        is_named(key_named_at(defs, steps, name).unwrap(), "module_key"@),
{
    let m = found(defs, Seq::empty(), steps).unwrap().def->ModuleDef_0;
    lemma_first_is_named(m.annotations, 0);
}

proof fn lemma_first_is_named(annotations: Seq<AnnotationView>, from: int)
    requires
        0 <= from,
    ensures
        first_named_from(annotations, "module_key"@, from) matches Some(a) ==> is_named(
            a,
            "module_key"@,
        ),
    decreases annotations.len() - from,
{
    if from < annotations.len() {
        lemma_first_is_named(annotations, from + 1);
    }
}

proof fn lemma_named_after_push(annotations: Seq<AnnotationView>, a: AnnotationView, from: int)
    requires
        0 <= from <= annotations.len(),
        is_named(a, "module_key"@),
    ensures
        first_named_from(annotations.push(a), "module_key"@, from) is Some,
    decreases annotations.len() - from,
{
    if from < annotations.len() {
        lemma_named_after_push(annotations, a, from + 1);
    }
}

/// A directory is ready to generate from exactly where the keys of its files agree, their imports
/// name modules and there are keys enough for their messages; keys are looked at first. A warning
/// is given for each message that names no key.
pub proof fn law_directories_are_ready_exactly_where_nothing_is_wrong(
    format: OutputFormat,
    files: Seq<SourceFileView>,
)
    ensures
        ({
            let on_keys = key_diagnostics(format, files);
            let on_imports = import_diagnostics(
                format,
                files,
                module_paths(files, files.len()),
                files.len(),
            );
            let r = prepared_directory(format, files);
            &&& on_keys.len() > 0 ==> r == Err::<PreparedView, RefusalView>(
                RefusalView::Diagnostics(on_keys),
            )
            &&& on_keys.len() == 0 && on_imports.len() > 0 ==> r == Err::<
                PreparedView,
                RefusalView,
            >(RefusalView::Diagnostics(on_imports))
            &&& on_keys.len() == 0 && on_imports.len() == 0 ==> match r {
                Ok(p) => p.warnings == missing_key_warnings(format, files, files.len()),
                Err(e) => e == RefusalView::OutOfKeys,
            }
        }),
{
}

} // verus!
