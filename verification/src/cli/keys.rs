//! The keys that modules and messages name, and whether they agree.
use vstd::prelude::*;
use crate::annotations::{find_integer, named_integer};
use crate::ast::{definition_view, definitions_view, AnnotationView, Definition, DefinitionView};
use crate::cli::diagnostics::{
    conflicting_module_key, duplicate_message_key, report_conflicting_module_key,
    report_duplicate_message_key, Diagnostic, DiagnosticView, OutputFormat, Place, PlaceView,
};
use crate::concat::{lemma_prefix_of_prefix, views, Path, Text};
use crate::text::{child_path, copy_path, same_path, same_text};
use crate::tree::{found, lemma_found_inside};

verus! {

broadcast use crate::concat::group_views;

/// A file of definitions.
#[derive(Debug)]
pub struct SourceFile {
    pub name: String,
    pub source: String,
    pub definitions: Vec<Definition>,
}

/// What contracts see of a [`SourceFile`].
pub struct SourceFileView {
    pub name: Text,
    pub source: Text,
    pub definitions: Seq<DefinitionView>,
}

impl View for SourceFile {
    type V = SourceFileView;

    open spec fn view(&self) -> SourceFileView {
        SourceFileView {
            name: self.name@,
            source: self.source@,
            definitions: definitions_view(self.definitions@),
        }
    }
}

/// A key that a definition names: its value, the name of the definition, the
/// file, and how many such annotations come before it in that file.
#[derive(Debug)]
pub struct KeyEntry {
    pub value: i128,
    pub label: String,
    pub file_idx: usize,
    pub occurrence: usize,
}

/// What contracts see of a [`KeyEntry`].
pub struct KeyEntryView {
    pub value: i128,
    pub label: Text,
    pub file_idx: nat,
    pub occurrence: nat,
}

impl View for KeyEntry {
    type V = KeyEntryView;

    open spec fn view(&self) -> KeyEntryView {
        KeyEntryView {
            value: self.value,
            label: self.label@,
            file_idx: self.file_idx as nat,
            occurrence: self.occurrence as nat,
        }
    }
}

/// The key of a module, by its path.
#[derive(Debug)]
pub struct ModuleKey {
    pub path: Vec<String>,
    pub entry: KeyEntry,
}

/// What contracts see of a [`ModuleKey`].
pub struct ModuleKeyView {
    pub path: Path,
    pub entry: KeyEntryView,
}

impl View for ModuleKey {
    type V = ModuleKeyView;

    open spec fn view(&self) -> ModuleKeyView {
        ModuleKeyView { path: views(self.path@), entry: self.entry@ }
    }
}

/// The key of a message, by the outermost module that it stands in.
#[derive(Debug)]
pub struct MessageKey {
    pub root: String,
    pub entry: KeyEntry,
}

/// What contracts see of a [`MessageKey`].
pub struct MessageKeyView {
    pub root: Text,
    pub entry: KeyEntryView,
}

impl View for MessageKey {
    type V = MessageKeyView;

    open spec fn view(&self) -> MessageKeyView {
        MessageKeyView { root: self.root@, entry: self.entry@ }
    }
}

/// The keys that definitions name, in the order of the source.
#[derive(Debug)]
pub struct Keys {
    pub modules: Vec<ModuleKey>,
    pub messages: Vec<MessageKey>,
}

/// What contracts see of [`Keys`].
pub struct KeysView {
    pub modules: Seq<ModuleKeyView>,
    pub messages: Seq<MessageKeyView>,
}

impl View for Keys {
    type V = KeysView;

    open spec fn view(&self) -> KeysView {
        KeysView { modules: views(self.modules@), messages: views(self.messages@) }
    }
}

/// The first segment of a path, nothing where it has none.
pub open spec fn root_of(path: Path) -> Text {
    if path.len() == 0 {
        Seq::empty()
    } else {
        path.first()
    }
}

/// The keys with that of a module, where it names one. Occurrences are counted
/// from the first `base` keys on.
pub open spec fn with_module_key(
    keys: KeysView,
    value: Option<i128>,
    name: Text,
    path: Path,
    file_idx: nat,
    base: nat,
) -> KeysView {
    match value {
        Some(value) => KeysView {
            modules: keys.modules.push(
                ModuleKeyView {
                    path,
                    entry: KeyEntryView {
                        value,
                        label: name,
                        file_idx,
                        occurrence: (keys.modules.len() - base) as nat,
                    },
                },
            ),
            ..keys
        },
        None => keys,
    }
}

/// The keys with that of a message, where it names one.
pub open spec fn with_message_key(
    keys: KeysView,
    value: Option<i128>,
    name: Text,
    path: Path,
    file_idx: nat,
    base: nat,
) -> KeysView {
    match value {
        Some(value) => KeysView {
            messages: keys.messages.push(
                MessageKeyView {
                    root: root_of(path),
                    entry: KeyEntryView {
                        value,
                        label: name,
                        file_idx,
                        occurrence: (keys.messages.len() - base) as nat,
                    },
                },
            ),
            ..keys
        },
        None => keys,
    }
}

/// The keys after the first `n` definitions of a file, modules included.
pub open spec fn keys_upto(
    keys: KeysView,
    defs: Seq<DefinitionView>,
    path: Path,
    file_idx: nat,
    module_base: nat,
    message_base: nat,
    n: nat,
) -> KeysView
    decreases defs, n,
{
    if n == 0 || n > defs.len() {
        keys
    } else {
        let before = keys_upto(
            keys,
            defs,
            path,
            file_idx,
            module_base,
            message_base,
            (n - 1) as nat,
        );
        match defs[n - 1] {
            DefinitionView::ModuleDef(m) => {
                let inner = path.push(m.node.name);
                keys_upto(
                    with_module_key(
                        before,
                        named_integer(m.annotations, "module_key"@),
                        m.node.name,
                        inner,
                        file_idx,
                        module_base,
                    ),
                    m.node.definitions,
                    inner,
                    file_idx,
                    module_base,
                    message_base,
                    m.node.definitions.len(),
                )
            },
            DefinitionView::MessageDef(m) => with_message_key(
                before,
                named_integer(m.annotations, "message_key"@),
                m.node.name,
                path,
                file_idx,
                message_base,
            ),
            _ => before,
        }
    }
}

fn first_segment(path: &Vec<String>) -> (r: String)
    ensures
        r@ == root_of(views(path@)),
{
    if path.len() == 0 {
        let r = String::new();
        assert(r@ =~= Seq::<char>::empty());
        r
    } else {
        assert(views(path@).first() == path@[0]@);
        path[0].clone()
    }
}

/// Adds the keys that the definitions of a file name.
pub fn collect_keys(
    defs: &[Definition],
    path: &Vec<String>,
    file_idx: usize,
    module_base: usize,
    message_base: usize,
    keys: &mut Keys,
)
    requires
        module_base <= old(keys)@.modules.len(),
        message_base <= old(keys)@.messages.len(),
    ensures
        final(keys)@ == keys_upto(
            old(keys)@,
            definitions_view(defs@),
            views(path@),
            file_idx as nat,
            module_base as nat,
            message_base as nat,
            defs@.len(),
        ),
        module_base <= final(keys)@.modules.len(),
        message_base <= final(keys)@.messages.len(),
    decreases defs@,
{
    let ghost start = keys@;
    let ghost all = definitions_view(defs@);
    let ghost at = views(path@);
    for i in 0..defs.len()
        invariant
            start == old(keys)@,
            all == definitions_view(defs@),
            at == views(path@),
            module_base <= keys@.modules.len(),
            message_base <= keys@.messages.len(),
            keys@ == keys_upto(
                start,
                all,
                at,
                file_idx as nat,
                module_base as nat,
                message_base as nat,
                i as nat,
            ),
    {
        assert(all[i as int] == definition_view(defs@[i as int]));
        match &defs[i] {
            Definition::ModuleDef(m) => {
                let inner = child_path(path.as_slice(), m.node.name.as_str());
                if let Some(value) = find_integer(m.annotations.as_slice(), "module_key") {
                    let occurrence: usize = keys.modules.len() - module_base;
                    keys.modules.push(
                        ModuleKey {
                            path: copy_path(inner.as_slice()),
                            entry: KeyEntry {
                                value,
                                label: m.node.name.clone(),
                                file_idx,
                                occurrence,
                            },
                        },
                    );
                }
                collect_keys(
                    m.node.definitions.as_slice(),
                    &inner,
                    file_idx,
                    module_base,
                    message_base,
                    keys,
                );
            },
            Definition::MessageDef(m) => {
                if let Some(value) = find_integer(m.annotations.as_slice(), "message_key") {
                    let occurrence: usize = keys.messages.len() - message_base;
                    keys.messages.push(
                        MessageKey {
                            root: first_segment(path),
                            entry: KeyEntry {
                                value,
                                label: m.node.name.clone(),
                                file_idx,
                                occurrence,
                            },
                        },
                    );
                }
            },
            _ => {},
        }
    }
}

/// The keys of the first `n` files.
pub open spec fn keys_of_files(files: Seq<SourceFileView>, n: nat) -> KeysView
    decreases n,
{
    if n == 0 {
        KeysView { modules: Seq::empty(), messages: Seq::empty() }
    } else {
        let before = keys_of_files(files, (n - 1) as nat);
        keys_upto(
            before,
            files[n - 1].definitions,
            Seq::empty(),
            (n - 1) as nat,
            before.modules.len(),
            before.messages.len(),
            files[n - 1].definitions.len(),
        )
    }
}

/// Whether every key stands in one of the first `n` files.
pub open spec fn files_known(keys: KeysView, n: nat) -> bool {
    &&& forall|i: int|
        0 <= i < keys.modules.len() ==> (#[trigger] keys.modules[i]).entry.file_idx < n
    &&& forall|i: int|
        0 <= i < keys.messages.len() ==> (#[trigger] keys.messages[i]).entry.file_idx < n
}

proof fn lemma_files_known(
    keys: KeysView,
    defs: Seq<DefinitionView>,
    path: Path,
    file_idx: nat,
    module_base: nat,
    message_base: nat,
    n: nat,
    count: nat,
)
    requires
        files_known(keys, count),
        file_idx < count,
    ensures
        files_known(
            keys_upto(keys, defs, path, file_idx, module_base, message_base, n),
            count,
        ),
    decreases defs, n,
{
    if 0 < n <= defs.len() {
        lemma_files_known(
            keys,
            defs,
            path,
            file_idx,
            module_base,
            message_base,
            (n - 1) as nat,
            count,
        );
        let before = keys_upto(
            keys,
            defs,
            path,
            file_idx,
            module_base,
            message_base,
            (n - 1) as nat,
        );
        if let DefinitionView::ModuleDef(m) = defs[n - 1] {
            let inner = path.push(m.node.name);
            lemma_files_known(
                with_module_key(
                    before,
                    named_integer(m.annotations, "module_key"@),
                    m.node.name,
                    inner,
                    file_idx,
                    module_base,
                ),
                m.node.definitions,
                inner,
                file_idx,
                module_base,
                message_base,
                m.node.definitions.len(),
                count,
            );
        }
    }
}

proof fn lemma_files_known_grows(keys: KeysView, n: nat, m: nat)
    requires
        files_known(keys, n),
        n <= m,
    ensures
        files_known(keys, m),
{
}

fn collect_all_keys(files: &Vec<SourceFile>) -> (r: Keys)
    ensures
        r@ == keys_of_files(views(files@), files@.len()),
        files_known(r@, files@.len()),
{
    let mut keys = Keys { modules: Vec::new(), messages: Vec::new() };
    let root: Vec<String> = Vec::new();
    for i in 0..files.len()
        invariant
            views(root@) == Seq::<Text>::empty(),
            keys@ == keys_of_files(views(files@), i as nat),
            files_known(keys@, i as nat),
    {
        assert(views(files@)[i as int] == files@[i as int]@);
        let module_base: usize = keys.modules.len();
        let message_base: usize = keys.messages.len();
        proof {
            lemma_files_known_grows(keys@, i as nat, (i + 1) as nat);
            lemma_files_known(
                keys@,
                files@[i as int]@.definitions,
                Seq::empty(),
                i as nat,
                module_base as nat,
                message_base as nat,
                files@[i as int]@.definitions.len(),
                (i + 1) as nat,
            );
        }
        collect_keys(
            files[i].definitions.as_slice(),
            &root,
            i,
            module_base,
            message_base,
            &mut keys,
        );
    }
    keys
}

/// The first position at or after `from` with the key of a module at `path`.
pub open spec fn first_at_path(modules: Seq<ModuleKeyView>, path: Path, from: nat) -> nat
    decreases modules.len() - from,
{
    if from >= modules.len() || modules[from as int].path == path {
        from
    } else {
        first_at_path(modules, path, from + 1)
    }
}

/// The first position at or after `from` with this key of a message under
/// `root`.
pub open spec fn first_with_key(
    messages: Seq<MessageKeyView>,
    root: Text,
    value: i128,
    from: nat,
) -> nat
    decreases messages.len() - from,
{
    if from >= messages.len() || (messages[from as int].root == root
        && messages[from as int].entry.value == value) {
        from
    } else {
        first_with_key(messages, root, value, from + 1)
    }
}

/// Where a key stands.
pub open spec fn place_of(files: Seq<SourceFileView>, entry: KeyEntryView) -> PlaceView {
    PlaceView {
        file: files[entry.file_idx as int].name,
        source: files[entry.file_idx as int].source,
        occurrence: entry.occurrence,
    }
}

fn find_place<'a>(files: &'a Vec<SourceFile>, entry: &KeyEntry) -> (r: Place<'a>)
    requires
        entry@.file_idx < files@.len(),
    ensures
        r@ == place_of(views(files@), entry@),
{
    let file = &files[entry.file_idx];
    assert(views(files@)[entry.file_idx as int] == file@);
    Place {
        file: file.name.as_str(),
        source: file.source.as_str(),
        occurrence: entry.occurrence,
    }
}

/// What is said of the first `n` module keys: each that differs from the first
/// key at its path.
pub open spec fn module_conflicts(
    format: OutputFormat,
    files: Seq<SourceFileView>,
    modules: Seq<ModuleKeyView>,
    n: nat,
) -> Seq<DiagnosticView>
    decreases n,
{
    if n == 0 {
        Seq::empty()
    } else {
        let before = module_conflicts(format, files, modules, (n - 1) as nat);
        let second = modules[n - 1];
        let first = modules[first_at_path(modules, second.path, 0) as int];
        if first.entry.value != second.entry.value {
            before.push(
                conflicting_module_key(
                    format,
                    second.path,
                    place_of(files, first.entry),
                    first.entry.value,
                    place_of(files, second.entry),
                    second.entry.value,
                ),
            )
        } else {
            before
        }
    }
}

/// What is said of the first `n` message keys: each whose message is not named
/// like the first one with its key under the same outermost module.
pub open spec fn message_duplicates(
    format: OutputFormat,
    files: Seq<SourceFileView>,
    messages: Seq<MessageKeyView>,
    n: nat,
) -> Seq<DiagnosticView>
    decreases n,
{
    if n == 0 {
        Seq::empty()
    } else {
        let before = message_duplicates(format, files, messages, (n - 1) as nat);
        let second = messages[n - 1];
        let first = messages[first_with_key(
            messages,
            second.root,
            second.entry.value,
            0,
        ) as int];
        if first.entry.label != second.entry.label {
            before.push(
                duplicate_message_key(
                    format,
                    second.root,
                    second.entry.value,
                    place_of(files, first.entry),
                    first.entry.label,
                    place_of(files, second.entry),
                    second.entry.label,
                ),
            )
        } else {
            before
        }
    }
}

/// What is said of the keys of the files.
pub open spec fn key_diagnostics(format: OutputFormat, files: Seq<SourceFileView>) -> Seq<
    DiagnosticView,
> {
    let keys = keys_of_files(files, files.len());
    module_conflicts(format, files, keys.modules, keys.modules.len()) + message_duplicates(
        format,
        files,
        keys.messages,
        keys.messages.len(),
    )
}

proof fn lemma_first_at_path(modules: Seq<ModuleKeyView>, i: int, from: nat)
    requires
        from <= i < modules.len(),
    ensures
        from <= first_at_path(modules, modules[i].path, from) <= i,
        modules[first_at_path(modules, modules[i].path, from) as int].path == modules[i].path,
    decreases modules.len() - from,
{
    if modules[from as int].path != modules[i].path {
        lemma_first_at_path(modules, i, from + 1);
    }
}

proof fn lemma_first_with_key(messages: Seq<MessageKeyView>, i: int, from: nat)
    requires
        from <= i < messages.len(),
    ensures
        ({
            let f = first_with_key(messages, messages[i].root, messages[i].entry.value, from);
            &&& from <= f <= i
            &&& messages[f as int].root == messages[i].root
            &&& messages[f as int].entry.value == messages[i].entry.value
        }),
    decreases messages.len() - from,
{
    if !(messages[from as int].root == messages[i].root && messages[from as int].entry.value
        == messages[i].entry.value) {
        lemma_first_with_key(messages, i, from + 1);
    }
}

fn find_at_path(modules: &Vec<ModuleKey>, i: usize) -> (r: usize)
    requires
        i < modules@.len(),
    ensures
        r <= i,
        r == first_at_path(views(modules@), modules@[i as int]@.path, 0),
{
    let ghost all = views(modules@);
    let mut j: usize = 0;
    proof {
        assert(all[i as int] == modules@[i as int]@);
        lemma_first_at_path(all, i as int, 0);
    }
    while j < i
        invariant
            all == views(modules@),
            j <= i < modules@.len(),
            first_at_path(all, modules@[i as int]@.path, 0) == first_at_path(
                all,
                modules@[i as int]@.path,
                j as nat,
            ),
        decreases i - j,
    {
        assert(all[j as int] == modules@[j as int]@);
        if same_path(modules[j].path.as_slice(), modules[i].path.as_slice()) {
            return j;
        }
        j += 1;
    }
    assert(all[i as int] == modules@[i as int]@);
    i
}

fn find_with_key(messages: &Vec<MessageKey>, i: usize) -> (r: usize)
    requires
        i < messages@.len(),
    ensures
        r <= i,
        r == first_with_key(
            views(messages@),
            messages@[i as int]@.root,
            messages@[i as int]@.entry.value,
            0,
        ),
{
    let ghost all = views(messages@);
    let ghost key = messages@[i as int]@;
    let mut j: usize = 0;
    while j < i
        invariant
            all == views(messages@),
            j <= i < messages@.len(),
            key == messages@[i as int]@,
            first_with_key(all, key.root, key.entry.value, 0) == first_with_key(
                all,
                key.root,
                key.entry.value,
                j as nat,
            ),
        decreases i - j,
    {
        assert(all[j as int] == messages@[j as int]@);
        if same_text(messages[j].root.as_str(), messages[i].root.as_str())
            && messages[j].entry.value == messages[i].entry.value {
            return j;
        }
        j += 1;
    }
    assert(all[i as int] == messages@[i as int]@);
    i
}

fn check_module_keys(
    format: OutputFormat,
    files: &Vec<SourceFile>,
    keys: &Keys,
    out: &mut Vec<Diagnostic>,
)
    requires
        files_known(keys@, files@.len()),
    ensures
        views(final(out)@) == views(old(out)@) + module_conflicts(
            format,
            views(files@),
            keys@.modules,
            keys@.modules.len(),
        ),
{
    let ghost before = views(out@);
    let ghost all = keys@.modules;
    assert(before + Seq::<DiagnosticView>::empty() =~= before);
    for i in 0..keys.modules.len()
        invariant
            files_known(keys@, files@.len()),
            before == views(old(out)@),
            all == keys@.modules,
            views(out@) == before + module_conflicts(format, views(files@), all, i as nat),
    {
        let second = &keys.modules[i];
        let j: usize = find_at_path(&keys.modules, i);
        let first = &keys.modules[j];
        assert(all[i as int] == second@);
        assert(all[j as int] == first@);
        if first.entry.value != second.entry.value {
            out.push(
                report_conflicting_module_key(
                    format,
                    second.path.as_slice(),
                    find_place(files, &first.entry),
                    first.entry.value,
                    find_place(files, &second.entry),
                    second.entry.value,
                ),
            );
        }
        assert(views(out@) =~= before + module_conflicts(
            format,
            views(files@),
            all,
            (i + 1) as nat,
        ));
    }
}

fn check_message_keys(
    format: OutputFormat,
    files: &Vec<SourceFile>,
    keys: &Keys,
    out: &mut Vec<Diagnostic>,
)
    requires
        files_known(keys@, files@.len()),
    ensures
        views(final(out)@) == views(old(out)@) + message_duplicates(
            format,
            views(files@),
            keys@.messages,
            keys@.messages.len(),
        ),
{
    let ghost before = views(out@);
    let ghost all = keys@.messages;
    assert(before + Seq::<DiagnosticView>::empty() =~= before);
    for i in 0..keys.messages.len()
        invariant
            files_known(keys@, files@.len()),
            before == views(old(out)@),
            all == keys@.messages,
            views(out@) == before + message_duplicates(format, views(files@), all, i as nat),
    {
        let second = &keys.messages[i];
        let j: usize = find_with_key(&keys.messages, i);
        let first = &keys.messages[j];
        assert(all[i as int] == second@);
        assert(all[j as int] == first@);
        if !same_text(first.entry.label.as_str(), second.entry.label.as_str()) {
            out.push(
                report_duplicate_message_key(
                    format,
                    second.root.as_str(),
                    second.entry.value,
                    find_place(files, &first.entry),
                    first.entry.label.as_str(),
                    find_place(files, &second.entry),
                    second.entry.label.as_str(),
                ),
            );
        }
        assert(views(out@) =~= before + message_duplicates(
            format,
            views(files@),
            all,
            (i + 1) as nat,
        ));
    }
}

/// Checks that modules at the same path do not name different keys, and that
/// messages of different names under the same outermost module do not name the
/// same key. Where they do, says so of each.
pub fn validate_keys(format: OutputFormat, files: &Vec<SourceFile>) -> (r: Result<
    (),
    Vec<Diagnostic>,
>)
    ensures
        match r {
            Ok(_) => key_diagnostics(format, views(files@)).len() == 0,
            Err(diagnostics) => {
                &&& views(diagnostics@) == key_diagnostics(format, views(files@))
                &&& diagnostics@.len() > 0
            },
        },
{
    let keys = collect_all_keys(files);
    let mut out: Vec<Diagnostic> = Vec::new();
    check_module_keys(format, files, &keys, &mut out);
    check_message_keys(format, files, &keys, &mut out);
    assert(views(out@) =~= key_diagnostics(format, views(files@)));
    if out.len() > 0 {
        Err(out)
    } else {
        Ok(())
    }
}

/// Whether modules at the same path name the same key.
pub open spec fn module_keys_agree(modules: Seq<ModuleKeyView>) -> bool {
    forall|i: int, j: int|
        0 <= i < modules.len() && 0 <= j < modules.len() && #[trigger] modules[i].path
            == #[trigger] modules[j].path ==> modules[i].entry.value == modules[j].entry.value
}

/// Whether messages with the same key under the same outermost module have the
/// same name.
pub open spec fn message_keys_agree(messages: Seq<MessageKeyView>) -> bool {
    forall|i: int, j: int|
        0 <= i < messages.len() && 0 <= j < messages.len() && #[trigger] messages[i].root
            == #[trigger] messages[j].root && messages[i].entry.value == messages[j].entry.value
            ==> messages[i].entry.label == messages[j].entry.label
}

proof fn lemma_module_conflicts(
    format: OutputFormat,
    files: Seq<SourceFileView>,
    modules: Seq<ModuleKeyView>,
    n: nat,
)
    requires
        n <= modules.len(),
    ensures
        module_conflicts(format, files, modules, n).len() == 0 <==> forall|i: int|
            0 <= i < n ==> modules[first_at_path(modules, (#[trigger] modules[i]).path, 0) as int].entry.value
                == modules[i].entry.value,
    decreases n,
{
    if n > 0 {
        lemma_module_conflicts(format, files, modules, (n - 1) as nat);
    }
}

proof fn lemma_message_duplicates(
    format: OutputFormat,
    files: Seq<SourceFileView>,
    messages: Seq<MessageKeyView>,
    n: nat,
)
    requires
        n <= messages.len(),
    ensures
        message_duplicates(format, files, messages, n).len() == 0 <==> forall|i: int|
            0 <= i < n ==> messages[first_with_key(
                messages,
                (#[trigger] messages[i]).root,
                messages[i].entry.value,
                0,
            ) as int].entry.label == messages[i].entry.label,
    decreases n,
{
    if n > 0 {
        lemma_message_duplicates(format, files, messages, (n - 1) as nat);
    }
}

/// Nothing is said of the keys exactly where they agree: where modules at the
/// same path name the same key, and messages that share a key under the same
/// outermost module share a name.
pub proof fn law_keys_pass_exactly_where_they_agree(
    format: OutputFormat,
    files: Seq<SourceFileView>,
)
    ensures
        key_diagnostics(format, files).len() == 0 <==> module_keys_agree(
            keys_of_files(files, files.len()).modules,
        ) && message_keys_agree(keys_of_files(files, files.len()).messages),
{
    let keys = keys_of_files(files, files.len());
    let modules = keys.modules;
    let messages = keys.messages;
    lemma_module_conflicts(format, files, modules, modules.len());
    lemma_message_duplicates(format, files, messages, messages.len());
    assert forall|i: int| 0 <= i < modules.len() implies {
        let f = first_at_path(modules, (#[trigger] modules[i]).path, 0);
        0 <= f < modules.len() && modules[f as int].path == modules[i].path
    } by {
        lemma_first_at_path(modules, i, 0);
    }
    assert forall|i: int| 0 <= i < messages.len() implies {
        let f = first_with_key(
            messages,
            (#[trigger] messages[i]).root,
            messages[i].entry.value,
            0,
        );
        0 <= f < messages.len() && messages[f as int].root == messages[i].root
            && messages[f as int].entry.value == messages[i].entry.value
    } by {
        lemma_first_with_key(messages, i, 0);
    }
}

/// A key that a definition names, by the path that decides which other keys it is
/// compared with.
pub struct KeyAt {
    pub path: Path,
    pub value: i128,
    pub name: Text,
}

/// The key that the module at a place in a file names, with the full path of the
/// module.
pub open spec fn module_key_at(
    defs: Seq<DefinitionView>,
    at: Path,
    steps: Seq<int>,
) -> Option<KeyAt> {
    match found(defs, at, steps) {
        Some(f) => match f.def {
            DefinitionView::ModuleDef(m) => match named_integer(m.annotations, "module_key"@) {
                Some(value) => Some(
                    KeyAt { path: f.path.push(m.node.name), value, name: m.node.name },
                ),
                None => None,
            },
            _ => None,
        },
        None => None,
    }
}

/// The key that the message at a place in a file names, with the path of the modules
/// that it stands in.
pub open spec fn message_key_at(
    defs: Seq<DefinitionView>,
    at: Path,
    steps: Seq<int>,
) -> Option<KeyAt> {
    match found(defs, at, steps) {
        Some(f) => match f.def {
            DefinitionView::MessageDef(m) => match named_integer(m.annotations, "message_key"@) {
                Some(value) => Some(KeyAt { path: f.path, value, name: m.node.name }),
                None => None,
            },
            _ => None,
        },
        None => None,
    }
}

/// Whether an entry holds the key of a module.
pub open spec fn holds_module_key(e: ModuleKeyView, k: KeyAt, file_idx: nat) -> bool {
    &&& e.path == k.path
    &&& e.entry.value == k.value
    &&& e.entry.label == k.name
    &&& e.entry.file_idx == file_idx
}

/// Whether an entry holds the key of a message: it is filed under the outermost of the
/// modules that the message stands in, and under nothing where it stands in none.
pub open spec fn holds_message_key(e: MessageKeyView, k: KeyAt, file_idx: nat) -> bool {
    &&& k.path.len() > 0 ==> e.root == k.path[0]
    &&& k.path.len() == 0 ==> e.root.len() == 0
    &&& e.entry.value == k.value
    &&& e.entry.label == k.name
    &&& e.entry.file_idx == file_idx
}

proof fn lemma_keys_grow(
    keys: KeysView,
    defs: Seq<DefinitionView>,
    path: Path,
    file_idx: nat,
    module_base: nat,
    message_base: nat,
    n: nat,
)
    ensures
        ({
            let r = keys_upto(keys, defs, path, file_idx, module_base, message_base, n);
            &&& keys.modules.is_prefix_of(r.modules)
            &&& keys.messages.is_prefix_of(r.messages)
        }),
    decreases defs, n,
{
    if 0 < n <= defs.len() {
        lemma_keys_grow(keys, defs, path, file_idx, module_base, message_base, (n - 1) as nat);
        let before = keys_upto(
            keys,
            defs,
            path,
            file_idx,
            module_base,
            message_base,
            (n - 1) as nat,
        );
        let r = keys_upto(keys, defs, path, file_idx, module_base, message_base, n);
        if let DefinitionView::ModuleDef(m) = defs[n - 1] {
            let inner = path.push(m.node.name);
            let entered = with_module_key(
                before,
                named_integer(m.annotations, "module_key"@),
                m.node.name,
                inner,
                file_idx,
                module_base,
            );
            lemma_keys_grow(
                entered,
                m.node.definitions,
                inner,
                file_idx,
                module_base,
                message_base,
                m.node.definitions.len(),
            );
            lemma_prefix_of_prefix(before.modules, entered.modules, r.modules);
            lemma_prefix_of_prefix(before.messages, entered.messages, r.messages);
        }
        lemma_prefix_of_prefix(keys.modules, before.modules, r.modules);
        lemma_prefix_of_prefix(keys.messages, before.messages, r.messages);
    }
}

proof fn lemma_in_prefix<T>(a: Seq<T>, b: Seq<T>, i: int)
    requires
        a.is_prefix_of(b),
        0 <= i < a.len(),
    ensures
        i < b.len(),
        b[i] == a[i],
{
    assert(b.subrange(0, a.len() as int)[i] == b[i]);
}

proof fn lemma_named_keys_are_collected(
    keys: KeysView,
    defs: Seq<DefinitionView>,
    path: Path,
    file_idx: nat,
    module_base: nat,
    message_base: nat,
    n: nat,
    steps: Seq<int>,
)
    requires
        n <= defs.len(),
        steps.len() > 0,
        steps[0] < n,
    ensures
        ({
            let r = keys_upto(keys, defs, path, file_idx, module_base, message_base, n);
            &&& module_key_at(defs, path, steps) matches Some(k) ==> exists|i: int|
                keys.modules.len() <= i < r.modules.len() && #[trigger] holds_module_key(
                    r.modules[i],
                    k,
                    file_idx,
                )
            &&& message_key_at(defs, path, steps) matches Some(k) ==> exists|i: int|
                keys.messages.len() <= i < r.messages.len() && #[trigger] holds_message_key(
                    r.messages[i],
                    k,
                    file_idx,
                )
        }),
    decreases defs, n,
{
    if 0 < n && found(defs, path, steps) is Some {
        let before = keys_upto(
            keys,
            defs,
            path,
            file_idx,
            module_base,
            message_base,
            (n - 1) as nat,
        );
        let r = keys_upto(keys, defs, path, file_idx, module_base, message_base, n);
        lemma_keys_grow(keys, defs, path, file_idx, module_base, message_base, (n - 1) as nat);
        let (entered, inner) = match defs[n - 1] {
            DefinitionView::ModuleDef(m) => (
                with_module_key(
                    before,
                    named_integer(m.annotations, "module_key"@),
                    m.node.name,
                    path.push(m.node.name),
                    file_idx,
                    module_base,
                ),
                m.node.definitions,
            ),
            _ => (r, Seq::empty()),
        };
        if let DefinitionView::ModuleDef(m) = defs[n - 1] {
            lemma_keys_grow(
                entered,
                inner,
                path.push(m.node.name),
                file_idx,
                module_base,
                message_base,
                inner.len(),
            );
            lemma_prefix_of_prefix(before.modules, entered.modules, r.modules);
            lemma_prefix_of_prefix(before.messages, entered.messages, r.messages);
        }
        if steps[0] < n - 1 {
            lemma_named_keys_are_collected(
                keys,
                defs,
                path,
                file_idx,
                module_base,
                message_base,
                (n - 1) as nat,
                steps,
            );
            if let Some(k) = module_key_at(defs, path, steps) {
                let i = choose|i: int|
                    keys.modules.len() <= i < before.modules.len() && #[trigger] holds_module_key(
                        before.modules[i],
                        k,
                        file_idx,
                    );
                lemma_in_prefix(before.modules, r.modules, i);
                assert(holds_module_key(r.modules[i], k, file_idx));
            }
            if let Some(k) = message_key_at(defs, path, steps) {
                let i = choose|i: int|
                    keys.messages.len() <= i < before.messages.len()
                        && #[trigger] holds_message_key(before.messages[i], k, file_idx);
                lemma_in_prefix(before.messages, r.messages, i);
                assert(holds_message_key(r.messages[i], k, file_idx));
            }
        } else if steps.len() == 1 {
            if let Some(k) = module_key_at(defs, path, steps) {
                let i = before.modules.len() as int;
                assert(holds_module_key(entered.modules[i], k, file_idx));
                lemma_in_prefix(entered.modules, r.modules, i);
                assert(holds_module_key(r.modules[i], k, file_idx));
            }
            if let Some(k) = message_key_at(defs, path, steps) {
                let i = before.messages.len() as int;
                assert(holds_message_key(r.messages[i], k, file_idx));
            }
        } else {
            let m = defs[n - 1]->ModuleDef_0;
            assert(found(inner, path.push(m.node.name), steps.drop_first()) is Some);
            lemma_named_keys_are_collected(
                entered,
                inner,
                path.push(m.node.name),
                file_idx,
                module_base,
                message_base,
                inner.len(),
                steps.drop_first(),
            );
            assert(keys.modules.len() <= entered.modules.len());
            assert(keys.messages.len() <= entered.messages.len());
        }
    }
}

/// What `found` sees as a key for some steps.
spec fn is_module_key_of(
    defs: Seq<DefinitionView>,
    at: Path,
    steps: Seq<int>,
    e: ModuleKeyView,
    file_idx: nat,
) -> bool {
    module_key_at(defs, at, steps) matches Some(k) && holds_module_key(e, k, file_idx)
}

spec fn is_message_key_of(
    defs: Seq<DefinitionView>,
    at: Path,
    steps: Seq<int>,
    e: MessageKeyView,
    file_idx: nat,
) -> bool {
    message_key_at(defs, at, steps) matches Some(k) && holds_message_key(e, k, file_idx)
}

proof fn lemma_module_entries_are_named(
    keys: KeysView,
    defs: Seq<DefinitionView>,
    path: Path,
    file_idx: nat,
    module_base: nat,
    message_base: nat,
    n: nat,
    i: int,
)
    requires
        n <= defs.len(),
        keys.modules.len() <= i < keys_upto(
            keys,
            defs,
            path,
            file_idx,
            module_base,
            message_base,
            n,
        ).modules.len(),
    ensures
        exists|steps: Seq<int>| #[trigger]
            is_module_key_of(
                defs,
                path,
                steps,
                keys_upto(keys, defs, path, file_idx, module_base, message_base, n).modules[i],
                file_idx,
            ),
    decreases defs, n,
{
    if n > 0 {
        let before = keys_upto(
            keys,
            defs,
            path,
            file_idx,
            module_base,
            message_base,
            (n - 1) as nat,
        );
        let r = keys_upto(keys, defs, path, file_idx, module_base, message_base, n);
        if i < before.modules.len() {
            lemma_module_entries_are_named(
                keys,
                defs,
                path,
                file_idx,
                module_base,
                message_base,
                (n - 1) as nat,
                i,
            );
            let steps = choose|steps: Seq<int>| #[trigger]
                is_module_key_of(defs, path, steps, before.modules[i], file_idx);
            if let DefinitionView::ModuleDef(m) = defs[n - 1] {
                let entered = with_module_key(
                    before,
                    named_integer(m.annotations, "module_key"@),
                    m.node.name,
                    path.push(m.node.name),
                    file_idx,
                    module_base,
                );
                lemma_keys_grow(
                    entered,
                    m.node.definitions,
                    path.push(m.node.name),
                    file_idx,
                    module_base,
                    message_base,
                    m.node.definitions.len(),
                );
                lemma_prefix_of_prefix(before.modules, entered.modules, r.modules);
                lemma_in_prefix(before.modules, r.modules, i);
            }
            assert(is_module_key_of(defs, path, steps, r.modules[i], file_idx));
        } else {
            let m = defs[n - 1]->ModuleDef_0;
            let entered = with_module_key(
                before,
                named_integer(m.annotations, "module_key"@),
                m.node.name,
                path.push(m.node.name),
                file_idx,
                module_base,
            );
            lemma_keys_grow(
                entered,
                m.node.definitions,
                path.push(m.node.name),
                file_idx,
                module_base,
                message_base,
                m.node.definitions.len(),
            );
            if i < entered.modules.len() {
                lemma_in_prefix(entered.modules, r.modules, i);
                let steps = seq![n - 1];
                assert(is_module_key_of(defs, path, steps, r.modules[i], file_idx));
            } else {
                lemma_module_entries_are_named(
                    entered,
                    m.node.definitions,
                    path.push(m.node.name),
                    file_idx,
                    module_base,
                    message_base,
                    m.node.definitions.len(),
                    i,
                );
                let inner = choose|steps: Seq<int>| #[trigger]
                    is_module_key_of(
                        m.node.definitions,
                        path.push(m.node.name),
                        steps,
                        r.modules[i],
                        file_idx,
                    );
                lemma_found_inside(defs, path, n - 1, inner);
                assert(is_module_key_of(
                    defs,
                    path,
                    seq![n - 1] + inner,
                    r.modules[i],
                    file_idx,
                ));
            }
        }
    }
}

proof fn lemma_message_entries_are_named(
    keys: KeysView,
    defs: Seq<DefinitionView>,
    path: Path,
    file_idx: nat,
    module_base: nat,
    message_base: nat,
    n: nat,
    i: int,
)
    requires
        n <= defs.len(),
        keys.messages.len() <= i < keys_upto(
            keys,
            defs,
            path,
            file_idx,
            module_base,
            message_base,
            n,
        ).messages.len(),
    ensures
        exists|steps: Seq<int>| #[trigger]
            is_message_key_of(
                defs,
                path,
                steps,
                keys_upto(keys, defs, path, file_idx, module_base, message_base, n).messages[i],
                file_idx,
            ),
    decreases defs, n,
{
    if n > 0 {
        let before = keys_upto(
            keys,
            defs,
            path,
            file_idx,
            module_base,
            message_base,
            (n - 1) as nat,
        );
        let r = keys_upto(keys, defs, path, file_idx, module_base, message_base, n);
        if i < before.messages.len() {
            lemma_message_entries_are_named(
                keys,
                defs,
                path,
                file_idx,
                module_base,
                message_base,
                (n - 1) as nat,
                i,
            );
            let steps = choose|steps: Seq<int>| #[trigger]
                is_message_key_of(defs, path, steps, before.messages[i], file_idx);
            if let DefinitionView::ModuleDef(m) = defs[n - 1] {
                let entered = with_module_key(
                    before,
                    named_integer(m.annotations, "module_key"@),
                    m.node.name,
                    path.push(m.node.name),
                    file_idx,
                    module_base,
                );
                lemma_keys_grow(
                    entered,
                    m.node.definitions,
                    path.push(m.node.name),
                    file_idx,
                    module_base,
                    message_base,
                    m.node.definitions.len(),
                );
                lemma_prefix_of_prefix(before.messages, entered.messages, r.messages);
                lemma_in_prefix(before.messages, r.messages, i);
            }
            assert(is_message_key_of(defs, path, steps, r.messages[i], file_idx));
        } else {
            match defs[n - 1] {
                DefinitionView::ModuleDef(m) => {
                    let entered = with_module_key(
                        before,
                        named_integer(m.annotations, "module_key"@),
                        m.node.name,
                        path.push(m.node.name),
                        file_idx,
                        module_base,
                    );
                    lemma_message_entries_are_named(
                        entered,
                        m.node.definitions,
                        path.push(m.node.name),
                        file_idx,
                        module_base,
                        message_base,
                        m.node.definitions.len(),
                        i,
                    );
                    let inner = choose|steps: Seq<int>| #[trigger]
                        is_message_key_of(
                            m.node.definitions,
                            path.push(m.node.name),
                            steps,
                            r.messages[i],
                            file_idx,
                        );
                    lemma_found_inside(defs, path, n - 1, inner);
                    assert(is_message_key_of(
                        defs,
                        path,
                        seq![n - 1] + inner,
                        r.messages[i],
                        file_idx,
                    ));
                },
                _ => {
                    let steps = seq![n - 1];
                    assert(is_message_key_of(defs, path, steps, r.messages[i], file_idx));
                },
            }
        }
    }
}

proof fn lemma_file_keys_grow(files: Seq<SourceFileView>, n: nat, m: nat)
    requires
        n <= m <= files.len(),
    ensures
        keys_of_files(files, n).modules.is_prefix_of(keys_of_files(files, m).modules),
        keys_of_files(files, n).messages.is_prefix_of(keys_of_files(files, m).messages),
    decreases m,
{
    if n < m {
        lemma_file_keys_grow(files, n, (m - 1) as nat);
        let before = keys_of_files(files, (m - 1) as nat);
        let after = keys_of_files(files, m);
        lemma_keys_grow(
            before,
            files[m - 1].definitions,
            Seq::empty(),
            (m - 1) as nat,
            before.modules.len(),
            before.messages.len(),
            files[m - 1].definitions.len(),
        );
        lemma_prefix_of_prefix(keys_of_files(files, n).modules, before.modules, after.modules);
        lemma_prefix_of_prefix(keys_of_files(files, n).messages, before.messages, after.messages);
    }
}

/// The key of every module, at any depth of every file, is collected with the full path
/// of the module, and that of every message with the outermost module that it stands in.
pub proof fn law_every_named_key_is_collected(
    files: Seq<SourceFileView>,
    file_idx: nat,
    steps: Seq<int>,
)
    requires
        file_idx < files.len(),
    ensures
        ({
            let keys = keys_of_files(files, files.len());
            let defs = files[file_idx as int].definitions;
            &&& module_key_at(defs, Seq::empty(), steps) matches Some(k) ==> exists|i: int|
                0 <= i < keys.modules.len() && #[trigger] holds_module_key(
                    keys.modules[i],
                    k,
                    file_idx,
                )
            &&& message_key_at(defs, Seq::empty(), steps) matches Some(k) ==> exists|i: int|
                0 <= i < keys.messages.len() && #[trigger] holds_message_key(
                    keys.messages[i],
                    k,
                    file_idx,
                )
        }),
{
    let keys = keys_of_files(files, files.len());
    let defs = files[file_idx as int].definitions;
    let before = keys_of_files(files, file_idx);
    let after = keys_of_files(files, file_idx + 1);
    if found(defs, Seq::empty(), steps) is Some {
        lemma_named_keys_are_collected(
            before,
            defs,
            Seq::empty(),
            file_idx,
            before.modules.len(),
            before.messages.len(),
            defs.len(),
            steps,
        );
        lemma_file_keys_grow(files, file_idx + 1, files.len());
        if let Some(k) = module_key_at(defs, Seq::empty(), steps) {
            let i = choose|i: int|
                before.modules.len() <= i < after.modules.len() && #[trigger] holds_module_key(
                    after.modules[i],
                    k,
                    file_idx,
                );
            lemma_in_prefix(after.modules, keys.modules, i);
            assert(holds_module_key(keys.modules[i], k, file_idx));
        }
        if let Some(k) = message_key_at(defs, Seq::empty(), steps) {
            let i = choose|i: int|
                before.messages.len() <= i < after.messages.len() && #[trigger] holds_message_key(
                    after.messages[i],
                    k,
                    file_idx,
                );
            lemma_in_prefix(after.messages, keys.messages, i);
            assert(holds_message_key(keys.messages[i], k, file_idx));
        }
    }
}

proof fn lemma_collected_module_key_is_named(files: Seq<SourceFileView>, n: nat, i: int)
    requires
        n <= files.len(),
        0 <= i < keys_of_files(files, n).modules.len(),
    ensures
        exists|f: nat, steps: Seq<int>|
            f < n && #[trigger] is_module_key_of(
                files[f as int].definitions,
                Seq::empty(),
                steps,
                keys_of_files(files, n).modules[i],
                f,
            ),
    decreases n,
{
    if n > 0 {
        let last = (n - 1) as nat;
        let before = keys_of_files(files, last);
        let r = keys_of_files(files, n);
        let defs = files[n - 1].definitions;
        lemma_file_keys_grow(files, last, n);
        if i < before.modules.len() {
            lemma_collected_module_key_is_named(files, last, i);
            lemma_in_prefix(before.modules, r.modules, i);
            let (f, steps) = choose|f: nat, steps: Seq<int>|
                f < last && #[trigger] is_module_key_of(
                    files[f as int].definitions,
                    Seq::empty(),
                    steps,
                    before.modules[i],
                    f,
                );
            assert(is_module_key_of(
                files[f as int].definitions,
                Seq::empty(),
                steps,
                r.modules[i],
                f,
            ));
        } else {
            lemma_module_entries_are_named(
                before,
                defs,
                Seq::empty(),
                last,
                before.modules.len(),
                before.messages.len(),
                defs.len(),
                i,
            );
            let steps = choose|steps: Seq<int>| #[trigger]
                is_module_key_of(defs, Seq::empty(), steps, r.modules[i], last);
            assert(is_module_key_of(
                files[last as int].definitions,
                Seq::empty(),
                steps,
                r.modules[i],
                last,
            ));
        }
    }
}

proof fn lemma_collected_message_key_is_named(files: Seq<SourceFileView>, n: nat, i: int)
    requires
        n <= files.len(),
        0 <= i < keys_of_files(files, n).messages.len(),
    ensures
        exists|f: nat, steps: Seq<int>|
            f < n && #[trigger] is_message_key_of(
                files[f as int].definitions,
                Seq::empty(),
                steps,
                keys_of_files(files, n).messages[i],
                f,
            ),
    decreases n,
{
    if n > 0 {
        let last = (n - 1) as nat;
        let before = keys_of_files(files, last);
        let r = keys_of_files(files, n);
        let defs = files[n - 1].definitions;
        lemma_file_keys_grow(files, last, n);
        if i < before.messages.len() {
            lemma_collected_message_key_is_named(files, last, i);
            lemma_in_prefix(before.messages, r.messages, i);
            let (f, steps) = choose|f: nat, steps: Seq<int>|
                f < last && #[trigger] is_message_key_of(
                    files[f as int].definitions,
                    Seq::empty(),
                    steps,
                    before.messages[i],
                    f,
                );
            assert(is_message_key_of(
                files[f as int].definitions,
                Seq::empty(),
                steps,
                r.messages[i],
                f,
            ));
        } else {
            lemma_message_entries_are_named(
                before,
                defs,
                Seq::empty(),
                last,
                before.modules.len(),
                before.messages.len(),
                defs.len(),
                i,
            );
            let steps = choose|steps: Seq<int>| #[trigger]
                is_message_key_of(defs, Seq::empty(), steps, r.messages[i], last);
            assert(is_message_key_of(
                files[last as int].definitions,
                Seq::empty(),
                steps,
                r.messages[i],
                last,
            ));
        }
    }
}

/// Whether two modules anywhere in the files that have the same full path never name
/// different keys.
pub open spec fn modules_agree(files: Seq<SourceFileView>) -> bool {
    forall|f: nat, s: Seq<int>, g: nat, t: Seq<int>|
        f < files.len() && g < files.len() ==> {
            (#[trigger] module_key_at(files[f as int].definitions, Seq::empty(), s)) matches Some(a)
                ==> (#[trigger] module_key_at(files[g as int].definitions, Seq::empty(), t)) matches Some(
            b) ==> a.path == b.path ==> a.value == b.value
        }
}

/// Whether two paths begin with the same module, or neither with any.
pub open spec fn same_outermost(a: Path, b: Path) -> bool {
    if a.len() == 0 || a[0].len() == 0 {
        b.len() == 0 || b[0].len() == 0
    } else {
        b.len() > 0 && a[0] == b[0]
    }
}

/// Whether two messages anywhere in the files that stand in the same outermost module and
/// name the same key always have the same name.
pub open spec fn messages_agree(files: Seq<SourceFileView>) -> bool {
    forall|f: nat, s: Seq<int>, g: nat, t: Seq<int>|
        f < files.len() && g < files.len() ==> {
            (#[trigger] message_key_at(files[f as int].definitions, Seq::empty(), s)) matches Some(
                a,
            ) ==> (#[trigger] message_key_at(files[g as int].definitions, Seq::empty(), t)) matches Some(
            b) ==> same_outermost(a.path, b.path) && a.value == b.value ==> a.name == b.name
        }
}

proof fn lemma_modules_agree(files: Seq<SourceFileView>)
    ensures
        module_keys_agree(keys_of_files(files, files.len()).modules) <==> modules_agree(files),
{
    let modules = keys_of_files(files, files.len()).modules;
    if module_keys_agree(modules) {
        assert forall|f: nat, s: Seq<int>, g: nat, t: Seq<int>|
            f < files.len() && g < files.len() implies {
            (#[trigger] module_key_at(files[f as int].definitions, Seq::empty(), s)) matches Some(a)
                ==> (#[trigger] module_key_at(files[g as int].definitions, Seq::empty(), t)) matches Some(
            b) ==> a.path == b.path ==> a.value == b.value
        } by {
            law_every_named_key_is_collected(files, f, s);
            law_every_named_key_is_collected(files, g, t);
            if let Some(a) = module_key_at(files[f as int].definitions, Seq::empty(), s) {
                if let Some(b) = module_key_at(files[g as int].definitions, Seq::empty(), t) {
                    let i = choose|i: int|
                        0 <= i < modules.len() && #[trigger] holds_module_key(modules[i], a, f);
                    let j = choose|j: int|
                        0 <= j < modules.len() && #[trigger] holds_module_key(modules[j], b, g);
                    if a.path == b.path {
                        assert(modules[i].path == modules[j].path);
                    }
                }
            }
        }
    }
    if modules_agree(files) {
        assert forall|i: int, j: int|
            0 <= i < modules.len() && 0 <= j < modules.len() && #[trigger] modules[i].path
                == #[trigger] modules[j].path implies modules[i].entry.value
            == modules[j].entry.value by {
            lemma_collected_module_key_is_named(files, files.len(), i);
            lemma_collected_module_key_is_named(files, files.len(), j);
            let (f, s) = choose|f: nat, s: Seq<int>|
                f < files.len() && #[trigger] is_module_key_of(
                    files[f as int].definitions,
                    Seq::empty(),
                    s,
                    modules[i],
                    f,
                );
            let (g, t) = choose|g: nat, t: Seq<int>|
                g < files.len() && #[trigger] is_module_key_of(
                    files[g as int].definitions,
                    Seq::empty(),
                    t,
                    modules[j],
                    g,
                );
            assert(module_key_at(files[f as int].definitions, Seq::empty(), s) is Some);
            assert(module_key_at(files[g as int].definitions, Seq::empty(), t) is Some);
        }
    }
}

proof fn lemma_messages_agree(files: Seq<SourceFileView>)
    ensures
        message_keys_agree(keys_of_files(files, files.len()).messages) <==> messages_agree(files),
{
    let messages = keys_of_files(files, files.len()).messages;
    if message_keys_agree(messages) {
        assert forall|f: nat, s: Seq<int>, g: nat, t: Seq<int>|
            f < files.len() && g < files.len() implies {
            (#[trigger] message_key_at(files[f as int].definitions, Seq::empty(), s)) matches Some(
                a,
            ) ==> (#[trigger] message_key_at(files[g as int].definitions, Seq::empty(), t)) matches Some(
            b) ==> same_outermost(a.path, b.path) && a.value == b.value ==> a.name == b.name
        } by {
            law_every_named_key_is_collected(files, f, s);
            law_every_named_key_is_collected(files, g, t);
            if let Some(a) = message_key_at(files[f as int].definitions, Seq::empty(), s) {
                if let Some(b) = message_key_at(files[g as int].definitions, Seq::empty(), t) {
                    let i = choose|i: int|
                        0 <= i < messages.len() && #[trigger] holds_message_key(messages[i], a, f);
                    let j = choose|j: int|
                        0 <= j < messages.len() && #[trigger] holds_message_key(messages[j], b, g);
                    if same_outermost(a.path, b.path) {
                        assert(messages[i].root =~= messages[j].root);
                    }
                }
            }
        }
    }
    if messages_agree(files) {
        assert forall|i: int, j: int|
            0 <= i < messages.len() && 0 <= j < messages.len() && #[trigger] messages[i].root
                == #[trigger] messages[j].root && messages[i].entry.value
                == messages[j].entry.value implies messages[i].entry.label
            == messages[j].entry.label by {
            lemma_collected_message_key_is_named(files, files.len(), i);
            lemma_collected_message_key_is_named(files, files.len(), j);
            let (f, s) = choose|f: nat, s: Seq<int>|
                f < files.len() && #[trigger] is_message_key_of(
                    files[f as int].definitions,
                    Seq::empty(),
                    s,
                    messages[i],
                    f,
                );
            let (g, t) = choose|g: nat, t: Seq<int>|
                g < files.len() && #[trigger] is_message_key_of(
                    files[g as int].definitions,
                    Seq::empty(),
                    t,
                    messages[j],
                    g,
                );
            let a = message_key_at(files[f as int].definitions, Seq::empty(), s)->0;
            let b = message_key_at(files[g as int].definitions, Seq::empty(), t)->0;
            assert(same_outermost(a.path, b.path));
        }
    }
}

/// Keys pass exactly where they agree throughout the files: no two modules of the same
/// full path name different keys, and no two messages of different names in the same
/// outermost module name the same key. This holds of modules and messages at any depth.
pub proof fn law_conflicting_keys_never_pass(format: OutputFormat, files: Seq<SourceFileView>)
    ensures
        key_diagnostics(format, files).len() == 0 <==> modules_agree(files) && messages_agree(
            files,
        ),
{
    law_keys_pass_exactly_where_they_agree(format, files);
    lemma_modules_agree(files);
    lemma_messages_agree(files);
}

proof fn lemma_occurrences(
    keys: KeysView,
    defs: Seq<DefinitionView>,
    path: Path,
    file_idx: nat,
    module_base: nat,
    message_base: nat,
    n: nat,
)
    requires
        module_base <= keys.modules.len(),
        message_base <= keys.messages.len(),
    ensures
        ({
            let r = keys_upto(keys, defs, path, file_idx, module_base, message_base, n);
            &&& forall|i: int|
                keys.modules.len() <= i < r.modules.len() ==> (#[trigger] r.modules[i]).entry.file_idx
                    == file_idx && r.modules[i].entry.occurrence == i - module_base
            &&& forall|i: int|
                keys.messages.len() <= i < r.messages.len() ==> (
                #[trigger] r.messages[i]).entry.file_idx == file_idx
                    && r.messages[i].entry.occurrence == i - message_base
        }),
    decreases defs, n,
{
    if 0 < n <= defs.len() {
        lemma_occurrences(keys, defs, path, file_idx, module_base, message_base, (n - 1) as nat);
        lemma_keys_grow(keys, defs, path, file_idx, module_base, message_base, (n - 1) as nat);
        let before = keys_upto(
            keys,
            defs,
            path,
            file_idx,
            module_base,
            message_base,
            (n - 1) as nat,
        );
        let r = keys_upto(keys, defs, path, file_idx, module_base, message_base, n);
        if let DefinitionView::ModuleDef(m) = defs[n - 1] {
            let entered = with_module_key(
                before,
                named_integer(m.annotations, "module_key"@),
                m.node.name,
                path.push(m.node.name),
                file_idx,
                module_base,
            );
            let inner = m.node.definitions;
            lemma_occurrences(
                entered,
                inner,
                path.push(m.node.name),
                file_idx,
                module_base,
                message_base,
                inner.len(),
            );
            lemma_keys_grow(
                entered,
                inner,
                path.push(m.node.name),
                file_idx,
                module_base,
                message_base,
                inner.len(),
            );
            assert forall|i: int| keys.modules.len() <= i < r.modules.len() implies (
            #[trigger] r.modules[i]).entry.file_idx == file_idx && r.modules[i].entry.occurrence
                == i - module_base by {
                if i < entered.modules.len() {
                    lemma_in_prefix(entered.modules, r.modules, i);
                    if i < before.modules.len() {
                        assert(entered.modules[i] == before.modules[i]);
                    }
                }
            }
            assert forall|i: int| keys.messages.len() <= i < r.messages.len() implies (
            #[trigger] r.messages[i]).entry.file_idx == file_idx && r.messages[i].entry.occurrence
                == i - message_base by {
                if i < entered.messages.len() {
                    lemma_in_prefix(entered.messages, r.messages, i);
                    assert(entered.messages[i] == before.messages[i]);
                }
            }
        }
    }
}

proof fn lemma_file_occurrences(files: Seq<SourceFileView>, n: nat)
    requires
        n <= files.len(),
    ensures
        ({
            let keys = keys_of_files(files, n);
            &&& forall|i: int|
                0 <= i < keys.modules.len() ==> (#[trigger] keys.modules[i]).entry.file_idx < n
                    && keys.modules[i].entry.occurrence == i - keys_of_files(
                    files,
                    keys.modules[i].entry.file_idx,
                ).modules.len()
            &&& forall|i: int|
                0 <= i < keys.messages.len() ==> (#[trigger] keys.messages[i]).entry.file_idx < n
                    && keys.messages[i].entry.occurrence == i - keys_of_files(
                    files,
                    keys.messages[i].entry.file_idx,
                ).messages.len()
        }),
    decreases n,
{
    if n > 0 {
        let last = (n - 1) as nat;
        let before = keys_of_files(files, last);
        let keys = keys_of_files(files, n);
        lemma_file_occurrences(files, last);
        lemma_file_keys_grow(files, last, n);
        lemma_occurrences(
            before,
            files[n - 1].definitions,
            Seq::empty(),
            last,
            before.modules.len(),
            before.messages.len(),
            files[n - 1].definitions.len(),
        );
        assert forall|i: int| 0 <= i < keys.modules.len() implies (
        #[trigger] keys.modules[i]).entry.file_idx < n && keys.modules[i].entry.occurrence == i
            - keys_of_files(files, keys.modules[i].entry.file_idx).modules.len() by {
            if i < before.modules.len() {
                lemma_in_prefix(before.modules, keys.modules, i);
            }
        }
        assert forall|i: int| 0 <= i < keys.messages.len() implies (
        #[trigger] keys.messages[i]).entry.file_idx < n && keys.messages[i].entry.occurrence == i
            - keys_of_files(files, keys.messages[i].entry.file_idx).messages.len() by {
            if i < before.messages.len() {
                lemma_in_prefix(before.messages, keys.messages, i);
            }
        }
    }
}

/// Within a file the keys of modules are numbered from zero in the order in which they
/// are collected, and so are the keys of messages: the first of a file has the number
/// zero, and each key has the next number after the one before it in the same file.
pub proof fn law_keys_are_numbered_within_their_file(files: Seq<SourceFileView>, i: int)
    ensures
        ({
            let keys = keys_of_files(files, files.len());
            &&& 0 <= i < keys.modules.len() ==> if i > 0 && keys.modules[i - 1].entry.file_idx
                == keys.modules[i].entry.file_idx {
                keys.modules[i].entry.occurrence == keys.modules[i - 1].entry.occurrence + 1
            } else {
                keys.modules[i].entry.occurrence == 0
            }
            &&& 0 <= i < keys.messages.len() ==> if i > 0 && keys.messages[i - 1].entry.file_idx
                == keys.messages[i].entry.file_idx {
                keys.messages[i].entry.occurrence == keys.messages[i - 1].entry.occurrence + 1
            } else {
                keys.messages[i].entry.occurrence == 0
            }
        }),
{
    let keys = keys_of_files(files, files.len());
    lemma_file_occurrences(files, files.len());
    if 0 <= i < keys.modules.len() {
        let f = keys.modules[i].entry.file_idx;
        let before = keys_of_files(files, f);
        lemma_file_keys_grow(files, f, files.len());
        lemma_file_keys_grow(files, f + 1, files.len());
        if i > before.modules.len() {
            let after = keys_of_files(files, f + 1);
            lemma_file_occurrences(files, f + 1);
            lemma_occurrences(
                before,
                files[f as int].definitions,
                Seq::empty(),
                f,
                before.modules.len(),
                before.messages.len(),
                files[f as int].definitions.len(),
            );
            if i - 1 < after.modules.len() {
                lemma_in_prefix(after.modules, keys.modules, i - 1);
            } else {
                lemma_later_entries(files, f + 1, files.len(), i - 1, true);
                lemma_later_entries(files, f + 1, files.len(), i, true);
            }
        } else if i > 0 {
            lemma_in_prefix(before.modules, keys.modules, i - 1);
            lemma_file_occurrences(files, f);
        }
    }
    if 0 <= i < keys.messages.len() {
        let f = keys.messages[i].entry.file_idx;
        let before = keys_of_files(files, f);
        lemma_file_keys_grow(files, f, files.len());
        lemma_file_keys_grow(files, f + 1, files.len());
        if i > before.messages.len() {
            let after = keys_of_files(files, f + 1);
            lemma_file_occurrences(files, f + 1);
            lemma_occurrences(
                before,
                files[f as int].definitions,
                Seq::empty(),
                f,
                before.modules.len(),
                before.messages.len(),
                files[f as int].definitions.len(),
            );
            if i - 1 < after.messages.len() {
                lemma_in_prefix(after.messages, keys.messages, i - 1);
            } else {
                lemma_later_entries(files, f + 1, files.len(), i - 1, false);
                lemma_later_entries(files, f + 1, files.len(), i, false);
            }
        } else if i > 0 {
            lemma_in_prefix(before.messages, keys.messages, i - 1);
            lemma_file_occurrences(files, f);
        }
    }
}

proof fn lemma_later_entries(files: Seq<SourceFileView>, f: nat, n: nat, i: int, modules: bool)
    requires
        f <= n <= files.len(),
    ensures
        modules && keys_of_files(files, f).modules.len() <= i < keys_of_files(
            files,
            n,
        ).modules.len() ==> keys_of_files(files, n).modules[i].entry.file_idx >= f,
        !modules && keys_of_files(files, f).messages.len() <= i < keys_of_files(
            files,
            n,
        ).messages.len() ==> keys_of_files(files, n).messages[i].entry.file_idx >= f,
    decreases n,
{
    if f < n {
        let last = (n - 1) as nat;
        let before = keys_of_files(files, last);
        let keys = keys_of_files(files, n);
        lemma_later_entries(files, f, last, i, modules);
        lemma_file_keys_grow(files, last, n);
        lemma_occurrences(
            before,
            files[n - 1].definitions,
            Seq::empty(),
            last,
            before.modules.len(),
            before.messages.len(),
            files[n - 1].definitions.len(),
        );
        if modules && 0 <= i < before.modules.len() {
            lemma_in_prefix(before.modules, keys.modules, i);
        }
        if !modules && 0 <= i < before.messages.len() {
            lemma_in_prefix(before.messages, keys.messages, i);
        }
    }
}

/// Where a key that was collected stands.
pub open spec fn standing(files: Seq<SourceFileView>, entry: KeyEntryView) -> PlaceView {
    let file = files[entry.file_idx as int];
    PlaceView { file: file.name, source: file.source, occurrence: entry.occurrence }
}

proof fn lemma_first_at_path_is(modules: Seq<ModuleKeyView>, path: Path, from: nat, j: int)
    requires
        from <= j < modules.len(),
        modules[j].path == path,
        forall|k: int| from <= k < j ==> (#[trigger] modules[k]).path != path,
    ensures
        first_at_path(modules, path, from) == j,
    decreases j - from,
{
    if from < j {
        assert(modules[from as int].path != path);
        lemma_first_at_path_is(modules, path, from + 1, j);
    }
}

proof fn lemma_first_with_key_is(
    messages: Seq<MessageKeyView>,
    root: Text,
    value: i128,
    from: nat,
    j: int,
)
    requires
        from <= j < messages.len(),
        messages[j].root == root && messages[j].entry.value == value,
        forall|k: int|
            from <= k < j ==> !((#[trigger] messages[k]).root == root && messages[k].entry.value
                == value),
    ensures
        first_with_key(messages, root, value, from) == j,
    decreases j - from,
{
    if from < j {
        assert(!(messages[from as int].root == root && messages[from as int].entry.value == value));
        lemma_first_with_key_is(messages, root, value, from + 1, j);
    }
}

proof fn lemma_conflict_is_said(
    format: OutputFormat,
    files: Seq<SourceFileView>,
    modules: Seq<ModuleKeyView>,
    n: nat,
    i: int,
    j: int,
)
    requires
        0 <= i < n <= modules.len(),
        first_at_path(modules, modules[i].path, 0) == j,
        modules[j].entry.value != modules[i].entry.value,
    ensures
        module_conflicts(format, files, modules, n).contains(
            conflicting_module_key(
                format,
                modules[i].path,
                standing(files, modules[j].entry),
                modules[j].entry.value,
                standing(files, modules[i].entry),
                modules[i].entry.value,
            ),
        ),
    decreases n,
{
    let before = module_conflicts(format, files, modules, (n - 1) as nat);
    let r = module_conflicts(format, files, modules, n);
    let said = conflicting_module_key(
        format,
        modules[i].path,
        standing(files, modules[j].entry),
        modules[j].entry.value,
        standing(files, modules[i].entry),
        modules[i].entry.value,
    );
    if i < n - 1 {
        lemma_conflict_is_said(format, files, modules, (n - 1) as nat, i, j);
        let k = choose|k: int| 0 <= k < before.len() && before[k] == said;
        assert(r[k] == said);
    } else {
        assert(r[before.len() as int] == said);
    }
}

proof fn lemma_duplicate_is_said(
    format: OutputFormat,
    files: Seq<SourceFileView>,
    messages: Seq<MessageKeyView>,
    n: nat,
    i: int,
    j: int,
)
    requires
        0 <= i < n <= messages.len(),
        first_with_key(messages, messages[i].root, messages[i].entry.value, 0) == j,
        messages[j].entry.label != messages[i].entry.label,
    ensures
        message_duplicates(format, files, messages, n).contains(
            duplicate_message_key(
                format,
                messages[i].root,
                messages[i].entry.value,
                standing(files, messages[j].entry),
                messages[j].entry.label,
                standing(files, messages[i].entry),
                messages[i].entry.label,
            ),
        ),
    decreases n,
{
    let before = message_duplicates(format, files, messages, (n - 1) as nat);
    let r = message_duplicates(format, files, messages, n);
    let said = duplicate_message_key(
        format,
        messages[i].root,
        messages[i].entry.value,
        standing(files, messages[j].entry),
        messages[j].entry.label,
        standing(files, messages[i].entry),
        messages[i].entry.label,
    );
    if i < n - 1 {
        lemma_duplicate_is_said(format, files, messages, (n - 1) as nat, i, j);
        let k = choose|k: int| 0 <= k < before.len() && before[k] == said;
        assert(r[k] == said);
    } else {
        assert(r[before.len() as int] == said);
    }
}

/// Each module key that differs from the first one of the same path is reported together with
/// that one, each at the place where it stands; and so is each message key that a message of
/// another name was the first to name in the same outermost module.
pub proof fn law_every_conflict_is_reported(
    format: OutputFormat,
    files: Seq<SourceFileView>,
    i: int,
    j: int,
)
    ensures
        ({
            let modules = keys_of_files(files, files.len()).modules;
            let messages = keys_of_files(files, files.len()).messages;
            &&& 0 <= j < i < modules.len() && modules[j].path == modules[i].path && (forall|k: int|
                0 <= k < j ==> (#[trigger] modules[k]).path != modules[i].path)
                && modules[j].entry.value != modules[i].entry.value ==> key_diagnostics(
                format,
                files,
            ).contains(
                conflicting_module_key(
                    format,
                    modules[i].path,
                    standing(files, modules[j].entry),
                    modules[j].entry.value,
                    standing(files, modules[i].entry),
                    modules[i].entry.value,
                ),
            )
            &&& 0 <= j < i < messages.len() && messages[j].root == messages[i].root
                && messages[j].entry.value == messages[i].entry.value && (forall|k: int|
                0 <= k < j ==> !((#[trigger] messages[k]).root == messages[i].root
                    && messages[k].entry.value == messages[i].entry.value))
                && messages[j].entry.label != messages[i].entry.label ==> key_diagnostics(
                format,
                files,
            ).contains(
                duplicate_message_key(
                    format,
                    messages[i].root,
                    messages[i].entry.value,
                    standing(files, messages[j].entry),
                    messages[j].entry.label,
                    standing(files, messages[i].entry),
                    messages[i].entry.label,
                ),
            )
        }),
{
    let modules = keys_of_files(files, files.len()).modules;
    let messages = keys_of_files(files, files.len()).messages;
    let on_modules = module_conflicts(format, files, modules, modules.len());
    let on_messages = message_duplicates(format, files, messages, messages.len());
    if 0 <= j < i < modules.len() && modules[j].path == modules[i].path && (forall|k: int|
        0 <= k < j ==> (#[trigger] modules[k]).path != modules[i].path) && modules[j].entry.value
        != modules[i].entry.value {
        lemma_first_at_path_is(modules, modules[i].path, 0, j);
        lemma_conflict_is_said(format, files, modules, modules.len(), i, j);
        let said = conflicting_module_key(
            format,
            modules[i].path,
            standing(files, modules[j].entry),
            modules[j].entry.value,
            standing(files, modules[i].entry),
            modules[i].entry.value,
        );
        let k = choose|k: int| 0 <= k < on_modules.len() && on_modules[k] == said;
        assert((on_modules + on_messages)[k] == said);
    }
    if 0 <= j < i < messages.len() && messages[j].root == messages[i].root
        && messages[j].entry.value == messages[i].entry.value && (forall|k: int|
        0 <= k < j ==> !((#[trigger] messages[k]).root == messages[i].root
            && messages[k].entry.value == messages[i].entry.value)) && messages[j].entry.label
        != messages[i].entry.label {
        lemma_first_with_key_is(messages, messages[i].root, messages[i].entry.value, 0, j);
        lemma_duplicate_is_said(format, files, messages, messages.len(), i, j);
        let said = duplicate_message_key(
            format,
            messages[i].root,
            messages[i].entry.value,
            standing(files, messages[j].entry),
            messages[j].entry.label,
            standing(files, messages[i].entry),
            messages[i].entry.label,
        );
        let k = choose|k: int| 0 <= k < on_messages.len() && on_messages[k] == said;
        assert((on_modules + on_messages)[on_modules.len() + k] == said);
    }
}

/// One for a key that is named, and nothing for none.
pub open spec fn one_where_named(annotations: Seq<AnnotationView>, name: Text) -> nat {
    if named_integer(annotations, name) is Some {
        1
    } else {
        0
    }
}

/// How many modules name a key in the first `n` definitions, at any depth.
pub open spec fn module_keys_upto(defs: Seq<DefinitionView>, n: nat) -> nat
    decreases defs, n,
{
    if n == 0 || n > defs.len() {
        0
    } else {
        module_keys_upto(defs, (n - 1) as nat) + match defs[n - 1] {
            DefinitionView::ModuleDef(m) => one_where_named(m.annotations, "module_key"@)
                + module_keys_upto(m.node.definitions, m.node.definitions.len()),
            _ => 0,
        }
    }
}

/// How many messages name a key in the first `n` definitions, at any depth.
pub open spec fn message_keys_upto(defs: Seq<DefinitionView>, n: nat) -> nat
    decreases defs, n,
{
    if n == 0 || n > defs.len() {
        0
    } else {
        message_keys_upto(defs, (n - 1) as nat) + match defs[n - 1] {
            DefinitionView::ModuleDef(m) => message_keys_upto(
                m.node.definitions,
                m.node.definitions.len(),
            ),
            DefinitionView::MessageDef(m) => one_where_named(m.annotations, "message_key"@),
            _ => 0,
        }
    }
}

/// How many modules name a key in a file before a place in it; a module stands before
/// what it holds.
pub open spec fn module_keys_before(defs: Seq<DefinitionView>, steps: Seq<int>) -> nat
    decreases steps.len(),
{
    if steps.len() == 0 || !(0 <= steps[0] < defs.len()) {
        0
    } else {
        module_keys_upto(defs, steps[0] as nat) + match defs[steps[0]] {
            DefinitionView::ModuleDef(m) => if steps.len() == 1 {
                0
            } else {
                one_where_named(m.annotations, "module_key"@) + module_keys_before(
                    m.node.definitions,
                    steps.drop_first(),
                )
            },
            _ => 0,
        }
    }
}

/// How many messages name a key in a file before a place in it.
pub open spec fn message_keys_before(defs: Seq<DefinitionView>, steps: Seq<int>) -> nat
    decreases steps.len(),
{
    if steps.len() == 0 || !(0 <= steps[0] < defs.len()) {
        0
    } else {
        message_keys_upto(defs, steps[0] as nat) + match defs[steps[0]] {
            DefinitionView::ModuleDef(m) => message_keys_before(
                m.node.definitions,
                steps.drop_first(),
            ),
            _ => 0,
        }
    }
}

proof fn lemma_keys_are_counted(
    keys: KeysView,
    defs: Seq<DefinitionView>,
    path: Path,
    file_idx: nat,
    module_base: nat,
    message_base: nat,
    n: nat,
)
    ensures
        ({
            let r = keys_upto(keys, defs, path, file_idx, module_base, message_base, n);
            &&& r.modules.len() == keys.modules.len() + module_keys_upto(defs, n)
            &&& r.messages.len() == keys.messages.len() + message_keys_upto(defs, n)
        }),
    decreases defs, n,
{
    if 0 < n <= defs.len() {
        let before = keys_upto(
            keys,
            defs,
            path,
            file_idx,
            module_base,
            message_base,
            (n - 1) as nat,
        );
        lemma_keys_are_counted(
            keys,
            defs,
            path,
            file_idx,
            module_base,
            message_base,
            (n - 1) as nat,
        );
        if let DefinitionView::ModuleDef(m) = defs[n - 1] {
            let inner = path.push(m.node.name);
            lemma_keys_are_counted(
                with_module_key(
                    before,
                    named_integer(m.annotations, "module_key"@),
                    m.node.name,
                    inner,
                    file_idx,
                    module_base,
                ),
                m.node.definitions,
                inner,
                file_idx,
                module_base,
                message_base,
                m.node.definitions.len(),
            );
        }
    }
}

proof fn lemma_keys_stand_in_order(
    keys: KeysView,
    defs: Seq<DefinitionView>,
    path: Path,
    file_idx: nat,
    module_base: nat,
    message_base: nat,
    n: nat,
    steps: Seq<int>,
)
    requires
        n <= defs.len(),
        steps.len() > 0,
        steps[0] < n,
    ensures
        ({
            let r = keys_upto(keys, defs, path, file_idx, module_base, message_base, n);
            let i = keys.modules.len() + module_keys_before(defs, steps);
            let j = keys.messages.len() + message_keys_before(defs, steps);
            &&& module_key_at(defs, path, steps) matches Some(k) ==> i < r.modules.len()
                && holds_module_key(r.modules[i as int], k, file_idx)
            &&& message_key_at(defs, path, steps) matches Some(k) ==> j < r.messages.len()
                && holds_message_key(r.messages[j as int], k, file_idx)
        }),
    decreases defs, n,
{
    if 0 < n && found(defs, path, steps) is Some {
        let before = keys_upto(
            keys,
            defs,
            path,
            file_idx,
            module_base,
            message_base,
            (n - 1) as nat,
        );
        let r = keys_upto(keys, defs, path, file_idx, module_base, message_base, n);
        let i = (keys.modules.len() + module_keys_before(defs, steps)) as int;
        let j = (keys.messages.len() + message_keys_before(defs, steps)) as int;
        lemma_keys_are_counted(
            keys,
            defs,
            path,
            file_idx,
            module_base,
            message_base,
            (n - 1) as nat,
        );
        let (entered, inner) = match defs[n - 1] {
            DefinitionView::ModuleDef(m) => (
                with_module_key(
                    before,
                    named_integer(m.annotations, "module_key"@),
                    m.node.name,
                    path.push(m.node.name),
                    file_idx,
                    module_base,
                ),
                m.node.definitions,
            ),
            _ => (r, Seq::empty()),
        };
        if let DefinitionView::ModuleDef(m) = defs[n - 1] {
            lemma_keys_grow(
                entered,
                inner,
                path.push(m.node.name),
                file_idx,
                module_base,
                message_base,
                inner.len(),
            );
            lemma_prefix_of_prefix(before.modules, entered.modules, r.modules);
            lemma_prefix_of_prefix(before.messages, entered.messages, r.messages);
        }
        if steps[0] < n - 1 {
            lemma_keys_stand_in_order(
                keys,
                defs,
                path,
                file_idx,
                module_base,
                message_base,
                (n - 1) as nat,
                steps,
            );
            if module_key_at(defs, path, steps) is Some {
                lemma_in_prefix(before.modules, r.modules, i);
            }
            if message_key_at(defs, path, steps) is Some {
                lemma_in_prefix(before.messages, r.messages, j);
            }
        } else if steps.len() == 1 {
            if let Some(k) = module_key_at(defs, path, steps) {
                assert(holds_module_key(entered.modules[i], k, file_idx));
                lemma_in_prefix(entered.modules, r.modules, i);
            }
            if let Some(k) = message_key_at(defs, path, steps) {
                assert(holds_message_key(r.messages[j], k, file_idx));
            }
        } else {
            let m = defs[n - 1]->ModuleDef_0;
            assert(found(inner, path.push(m.node.name), steps.drop_first()) is Some);
            lemma_keys_stand_in_order(
                entered,
                inner,
                path.push(m.node.name),
                file_idx,
                module_base,
                message_base,
                inner.len(),
                steps.drop_first(),
            );
        }
    }
}

/// Keys are collected in the order in which they stand in their file, a module before what
/// it holds: the number of a key within its file is how many keys of its kind the file
/// names before it.
pub proof fn law_keys_are_numbered_in_the_order_of_the_file(
    files: Seq<SourceFileView>,
    file_idx: nat,
    steps: Seq<int>,
)
    requires
        file_idx < files.len(),
    ensures
        ({
            let keys = keys_of_files(files, files.len());
            let defs = files[file_idx as int].definitions;
            &&& module_key_at(defs, Seq::empty(), steps) matches Some(k) ==> exists|i: int|
                0 <= i < keys.modules.len() && #[trigger] holds_module_key(
                    keys.modules[i],
                    k,
                    file_idx,
                ) && keys.modules[i].entry.occurrence == module_keys_before(defs, steps)
            &&& message_key_at(defs, Seq::empty(), steps) matches Some(k) ==> exists|i: int|
                0 <= i < keys.messages.len() && #[trigger] holds_message_key(
                    keys.messages[i],
                    k,
                    file_idx,
                ) && keys.messages[i].entry.occurrence == message_keys_before(defs, steps)
        }),
{
    let keys = keys_of_files(files, files.len());
    let defs = files[file_idx as int].definitions;
    let before = keys_of_files(files, file_idx);
    let after = keys_of_files(files, file_idx + 1);
    if found(defs, Seq::empty(), steps) is Some {
        lemma_keys_stand_in_order(
            before,
            defs,
            Seq::empty(),
            file_idx,
            before.modules.len(),
            before.messages.len(),
            defs.len(),
            steps,
        );
        lemma_file_keys_grow(files, file_idx + 1, files.len());
        lemma_file_occurrences(files, files.len());
        if let Some(k) = module_key_at(defs, Seq::empty(), steps) {
            let i = (before.modules.len() + module_keys_before(defs, steps)) as int;
            lemma_in_prefix(after.modules, keys.modules, i);
            assert(holds_module_key(keys.modules[i], k, file_idx));
        }
        if let Some(k) = message_key_at(defs, Seq::empty(), steps) {
            let i = (before.messages.len() + message_keys_before(defs, steps)) as int;
            lemma_in_prefix(after.messages, keys.messages, i);
            assert(holds_message_key(keys.messages[i], k, file_idx));
        }
    }
}

/// Whether a module key is the first of its path.
pub open spec fn is_first_of_path(modules: Seq<ModuleKeyView>, j: int, path: Path) -> bool {
    0 <= j < modules.len() && modules[j].path == path && forall|k: int|
        0 <= k < j ==> (#[trigger] modules[k]).path != path
}

/// Whether a message key is the first of its value under an outermost module.
pub open spec fn is_first_of_key(
    messages: Seq<MessageKeyView>,
    j: int,
    root: Text,
    value: i128,
) -> bool {
    0 <= j < messages.len() && messages[j].root == root && messages[j].entry.value == value
        && forall|k: int|
        0 <= k < j ==> !((#[trigger] messages[k]).root == root && messages[k].entry.value == value)
}

/// Whether a module key differs from the first of its path.
pub open spec fn module_disagrees(modules: Seq<ModuleKeyView>, i: int) -> bool {
    exists|j: int| #[trigger]
        is_first_of_path(modules, j, modules[i].path) && modules[j].entry.value
            != modules[i].entry.value
}

/// Whether a message of another name was the first to name a message key.
pub open spec fn message_disagrees(messages: Seq<MessageKeyView>, i: int) -> bool {
    exists|j: int| #[trigger]
        is_first_of_key(messages, j, messages[i].root, messages[i].entry.value)
            && messages[j].entry.label != messages[i].entry.label
}

/// How many of the first `n` module keys differ from the first of their path.
pub open spec fn modules_disagreeing(modules: Seq<ModuleKeyView>, n: nat) -> nat
    decreases n,
{
    if n == 0 || n > modules.len() {
        0
    } else {
        modules_disagreeing(modules, (n - 1) as nat) + if module_disagrees(modules, n - 1) {
            1nat
        } else {
            0nat
        }
    }
}

/// How many of the first `n` message keys a message of another name was the first to name.
pub open spec fn messages_disagreeing(messages: Seq<MessageKeyView>, n: nat) -> nat
    decreases n,
{
    if n == 0 || n > messages.len() {
        0
    } else {
        messages_disagreeing(messages, (n - 1) as nat) + if message_disagrees(messages, n - 1) {
            1nat
        } else {
            0nat
        }
    }
}

proof fn lemma_first_of_path(modules: Seq<ModuleKeyView>, i: int, from: nat)
    requires
        from <= i < modules.len(),
        forall|k: int| 0 <= k < from ==> (#[trigger] modules[k]).path != modules[i].path,
    ensures
        is_first_of_path(
            modules,
            first_at_path(modules, modules[i].path, from) as int,
            modules[i].path,
        ),
    decreases i - from,
{
    if modules[from as int].path != modules[i].path {
        lemma_first_of_path(modules, i, from + 1);
    }
}

proof fn lemma_first_of_key(messages: Seq<MessageKeyView>, i: int, from: nat)
    requires
        from <= i < messages.len(),
        forall|k: int|
            0 <= k < from ==> !((#[trigger] messages[k]).root == messages[i].root
                && messages[k].entry.value == messages[i].entry.value),
    ensures
        is_first_of_key(
            messages,
            first_with_key(messages, messages[i].root, messages[i].entry.value, from) as int,
            messages[i].root,
            messages[i].entry.value,
        ),
    decreases i - from,
{
    if !(messages[from as int].root == messages[i].root && messages[from as int].entry.value
        == messages[i].entry.value) {
        lemma_first_of_key(messages, i, from + 1);
    }
}

proof fn lemma_module_reports(
    format: OutputFormat,
    files: Seq<SourceFileView>,
    modules: Seq<ModuleKeyView>,
    n: nat,
    i: int,
    j: int,
)
    requires
        n <= modules.len(),
    ensures
        ({
            let reports = module_conflicts(format, files, modules, n);
            let k = modules_disagreeing(modules, i as nat);
            &&& reports.len() == modules_disagreeing(modules, n)
            &&& 0 <= i < n && is_first_of_path(modules, j, modules[i].path)
                && modules[j].entry.value != modules[i].entry.value ==> k < reports.len()
                && reports[k as int] == conflicting_module_key(
                format,
                modules[i].path,
                standing(files, modules[j].entry),
                modules[j].entry.value,
                standing(files, modules[i].entry),
                modules[i].entry.value,
            )
        }),
    decreases n,
{
    if n > 0 {
        lemma_module_reports(format, files, modules, (n - 1) as nat, i, j);
        let last = n - 1;
        let path = modules[last].path;
        lemma_first_of_path(modules, last, 0);
        let first = first_at_path(modules, path, 0) as int;
        assert(module_disagrees(modules, last) <==> modules[first].entry.value
            != modules[last].entry.value) by {
            assert forall|other: int| #[trigger] is_first_of_path(modules, other, path) implies other
                == first by {
                assert(modules[other].path == path && modules[first].path == path);
            }
        }
        if i == last && is_first_of_path(modules, j, path) {
            assert(modules[j].path == path && modules[first].path == path);
            assert(j == first);
        }
    }
}

proof fn lemma_message_reports(
    format: OutputFormat,
    files: Seq<SourceFileView>,
    messages: Seq<MessageKeyView>,
    n: nat,
    i: int,
    j: int,
)
    requires
        n <= messages.len(),
    ensures
        ({
            let reports = message_duplicates(format, files, messages, n);
            let k = messages_disagreeing(messages, i as nat);
            &&& reports.len() == messages_disagreeing(messages, n)
            &&& 0 <= i < n && is_first_of_key(
                messages,
                j,
                messages[i].root,
                messages[i].entry.value,
            ) && messages[j].entry.label != messages[i].entry.label ==> k < reports.len()
                && reports[k as int] == duplicate_message_key(
                format,
                messages[i].root,
                messages[i].entry.value,
                standing(files, messages[j].entry),
                messages[j].entry.label,
                standing(files, messages[i].entry),
                messages[i].entry.label,
            )
        }),
    decreases n,
{
    if n > 0 {
        lemma_message_reports(format, files, messages, (n - 1) as nat, i, j);
        let last = n - 1;
        let root = messages[last].root;
        let value = messages[last].entry.value;
        lemma_first_of_key(messages, last, 0);
        let first = first_with_key(messages, root, value, 0) as int;
        assert(message_disagrees(messages, last) <==> messages[first].entry.label
            != messages[last].entry.label) by {
            assert forall|other: int| #[trigger]
                is_first_of_key(messages, other, root, value) implies other == first by {
                assert(messages[other].root == root && messages[first].root == root);
            }
        }
        if i == last && is_first_of_key(messages, j, root, value) {
            assert(messages[j].root == root && messages[first].root == root);
            assert(j == first);
        }
    }
}

/// The conflicts of module keys are reported before those of message keys, each kind in the
/// order in which the keys were collected, one report for each key that disagrees with the
/// first of its kind, and nothing else is reported.
pub proof fn law_conflicts_are_reported_in_order(
    format: OutputFormat,
    files: Seq<SourceFileView>,
    i: int,
    j: int,
)
    ensures
        ({
            let modules = keys_of_files(files, files.len()).modules;
            let messages = keys_of_files(files, files.len()).messages;
            let reports = key_diagnostics(format, files);
            let on_modules = modules_disagreeing(modules, modules.len());
            let k = modules_disagreeing(modules, i as nat);
            let l = on_modules + messages_disagreeing(messages, i as nat);
            &&& reports.len() == on_modules + messages_disagreeing(messages, messages.len())
            &&& 0 <= i < modules.len() && is_first_of_path(modules, j, modules[i].path)
                && modules[j].entry.value != modules[i].entry.value ==> k < on_modules
                && reports[k as int] == conflicting_module_key(
                format,
                modules[i].path,
                standing(files, modules[j].entry),
                modules[j].entry.value,
                standing(files, modules[i].entry),
                modules[i].entry.value,
            )
            &&& 0 <= i < messages.len() && is_first_of_key(
                messages,
                j,
                messages[i].root,
                messages[i].entry.value,
            ) && messages[j].entry.label != messages[i].entry.label ==> l < reports.len()
                && reports[l as int] == duplicate_message_key(
                format,
                messages[i].root,
                messages[i].entry.value,
                standing(files, messages[j].entry),
                messages[j].entry.label,
                standing(files, messages[i].entry),
                messages[i].entry.label,
            )
        }),
{
    let modules = keys_of_files(files, files.len()).modules;
    let messages = keys_of_files(files, files.len()).messages;
    lemma_module_reports(format, files, modules, modules.len(), i, j);
    lemma_message_reports(format, files, messages, messages.len(), i, j);
}

} // verus!
