//! Imports, and the modules that they name.
use vstd::prelude::*;
use crate::ast::{
    definition_view, definitions_view, Definition, DefinitionView, ImportScope, ImportScopeView,
};
use crate::cli::diagnostics::{
    report_unresolved_import, unresolved_import, Diagnostic, DiagnosticView, OutputFormat,
};
use crate::cli::keys::{SourceFile, SourceFileView};
use crate::concat::{views, Path, Text};
use crate::text::{child_path, copy_path, same_path};
use crate::tree::{found, lemma_found_inside};

verus! {

broadcast use crate::concat::group_views;

/// Paths as contracts see them.
pub open spec fn path_views(paths: Seq<Vec<String>>) -> Seq<Path> {
    paths.map_values(|p: Vec<String>| views(p@))
}

/// The paths with one more, unless it is among them.
pub open spec fn with_path(paths: Seq<Path>, path: Path) -> Seq<Path> {
    if paths.contains(path) {
        paths
    } else {
        paths.push(path)
    }
}

/// The paths with those of the modules among the first `n` definitions, at any
/// depth.
pub open spec fn module_paths_upto(
    paths: Seq<Path>,
    defs: Seq<DefinitionView>,
    at: Path,
    n: nat,
) -> Seq<Path>
    decreases defs, n,
{
    if n == 0 || n > defs.len() {
        paths
    } else {
        let before = module_paths_upto(paths, defs, at, (n - 1) as nat);
        match defs[n - 1] {
            DefinitionView::ModuleDef(m) => module_paths_upto(
                with_path(before, at.push(m.node.name)),
                m.node.definitions,
                at.push(m.node.name),
                m.node.definitions.len(),
            ),
            _ => before,
        }
    }
}

/// Whether a path is among the paths.
pub fn contains_path(paths: &Vec<Vec<String>>, path: &[String]) -> (r: bool)
    ensures
        r == path_views(paths@).contains(views(path@)),
{
    let ghost all = path_views(paths@);
    for i in 0..paths.len()
        invariant
            all == path_views(paths@),
            forall|k: int| 0 <= k < i ==> #[trigger] all[k] != views(path@),
    {
        assert(all[i as int] == views(paths@[i as int]@));
        if same_path(paths[i].as_slice(), path) {
            return true;
        }
    }
    false
}

/// Adds the paths of the modules among the definitions, at any depth.
pub fn collect_module_paths(defs: &[Definition], at: &Vec<String>, paths: &mut Vec<Vec<String>>)
    ensures
        path_views(final(paths)@) == module_paths_upto(
            path_views(old(paths)@),
            definitions_view(defs@),
            views(at@),
            defs@.len(),
        ),
    decreases defs@,
{
    let ghost start = path_views(paths@);
    let ghost all = definitions_view(defs@);
    let ghost here = views(at@);
    for i in 0..defs.len()
        invariant
            start == path_views(old(paths)@),
            all == definitions_view(defs@),
            here == views(at@),
            path_views(paths@) == module_paths_upto(start, all, here, i as nat),
    {
        assert(all[i as int] == definition_view(defs@[i as int]));
        if let Definition::ModuleDef(m) = &defs[i] {
            let inner = child_path(at.as_slice(), m.node.name.as_str());
            let ghost before = path_views(paths@);
            if !contains_path(paths, inner.as_slice()) {
                paths.push(copy_path(inner.as_slice()));
                assert(path_views(paths@) =~= before.push(views(inner@)));
            }
            collect_module_paths(m.node.definitions.as_slice(), &inner, paths);
        }
    }
}

/// The paths of the modules in the first `n` files.
pub open spec fn module_paths(files: Seq<SourceFileView>, n: nat) -> Seq<Path>
    decreases n,
{
    if n == 0 {
        Seq::empty()
    } else {
        module_paths_upto(
            module_paths(files, (n - 1) as nat),
            files[n - 1].definitions,
            Seq::empty(),
            files[n - 1].definitions.len(),
        )
    }
}

/// Collects the paths of the modules in the files.
pub fn collect_all_module_paths(files: &Vec<SourceFile>) -> (r: Vec<Vec<String>>)
    ensures
        path_views(r@) == module_paths(views(files@), files@.len()),
{
    let mut paths: Vec<Vec<String>> = Vec::new();
    let root: Vec<String> = Vec::new();
    assert(path_views(paths@) =~= Seq::<Path>::empty());
    for i in 0..files.len()
        invariant
            views(root@) == Seq::<Text>::empty(),
            path_views(paths@) == module_paths(views(files@), i as nat),
    {
        assert(views(files@)[i as int] == files@[i as int]@);
        collect_module_paths(files[i].definitions.as_slice(), &root, &mut paths);
    }
    paths
}

/// Whether `path` is that of a module among the first `n` definitions, at any
/// depth, where they stand at `at`.
pub open spec fn is_module_path(defs: Seq<DefinitionView>, at: Path, n: nat, path: Path) -> bool
    decreases defs, n,
{
    if n == 0 || n > defs.len() {
        false
    } else {
        is_module_path(defs, at, (n - 1) as nat, path) || match defs[n - 1] {
            DefinitionView::ModuleDef(m) => path == at.push(m.node.name) || is_module_path(
                m.node.definitions,
                at.push(m.node.name),
                m.node.definitions.len(),
                path,
            ),
            _ => false,
        }
    }
}

proof fn lemma_with_path(paths: Seq<Path>, path: Path)
    ensures
        forall|p: Path| #[trigger]
            with_path(paths, path).contains(p) <==> paths.contains(p) || p == path,
        paths.no_duplicates() ==> with_path(paths, path).no_duplicates(),
{
    if !paths.contains(path) {
        let r = paths.push(path);
        assert forall|p: Path| #[trigger] r.contains(p) <==> paths.contains(p) || p == path by {
            if paths.contains(p) {
                let k = choose|k: int| 0 <= k < paths.len() && paths[k] == p;
                assert(r[k] == p);
            }
            if p == path {
                assert(r[paths.len() as int] == p);
            }
            if r.contains(p) {
                let k = choose|k: int| 0 <= k < r.len() && r[k] == p;
                if k < paths.len() {
                    assert(paths[k] == p);
                }
            }
        }
    }
}

/// The collected paths are those of the modules, each of them once.
pub proof fn law_module_paths_are_collected_once(
    paths: Seq<Path>,
    defs: Seq<DefinitionView>,
    at: Path,
    n: nat,
)
    requires
        paths.no_duplicates(),
        n <= defs.len(),
    ensures
        module_paths_upto(paths, defs, at, n).no_duplicates(),
        forall|p: Path| #[trigger]
            module_paths_upto(paths, defs, at, n).contains(p) <==> paths.contains(p)
                || is_module_path(defs, at, n, p),
    decreases defs, n,
{
    if n > 0 {
        law_module_paths_are_collected_once(paths, defs, at, (n - 1) as nat);
        let before = module_paths_upto(paths, defs, at, (n - 1) as nat);
        if let DefinitionView::ModuleDef(m) = defs[n - 1] {
            let inner = at.push(m.node.name);
            lemma_with_path(before, inner);
            law_module_paths_are_collected_once(
                with_path(before, inner),
                m.node.definitions,
                inner,
                m.node.definitions.len(),
            );
        }
    }
}

/// What is said of the imports among the first `n` definitions, at any depth:
/// each that names no module.
pub open spec fn unresolved_upto(
    format: OutputFormat,
    file: Text,
    source: Text,
    paths: Seq<Path>,
    defs: Seq<DefinitionView>,
    n: nat,
) -> Seq<DiagnosticView>
    decreases defs, n,
{
    if n == 0 || n > defs.len() {
        Seq::empty()
    } else {
        let before = unresolved_upto(format, file, source, paths, defs, (n - 1) as nat);
        match defs[n - 1] {
            DefinitionView::ImportDef(i) => match i.node.scope {
                ImportScopeView::Scoped(segments) => if paths.contains(segments) {
                    before
                } else {
                    before.push(unresolved_import(format, segments, file, source))
                },
                ImportScopeView::Other(_) => before,
            },
            DefinitionView::ModuleDef(m) => before + unresolved_upto(
                format,
                file,
                source,
                paths,
                m.node.definitions,
                m.node.definitions.len(),
            ),
            _ => before,
        }
    }
}

/// Says of each import, at any depth, that names no module that it does not.
pub fn check_imports_recursive(
    format: OutputFormat,
    defs: &[Definition],
    file: &str,
    source: &str,
    paths: &Vec<Vec<String>>,
    out: &mut Vec<Diagnostic>,
)
    ensures
        views(final(out)@) == views(old(out)@) + unresolved_upto(
            format,
            file@,
            source@,
            path_views(paths@),
            definitions_view(defs@),
            defs@.len(),
        ),
    decreases defs@,
{
    let ghost start = views(out@);
    let ghost all = definitions_view(defs@);
    let ghost known = path_views(paths@);
    assert(start + Seq::<DiagnosticView>::empty() =~= start);
    for i in 0..defs.len()
        invariant
            start == views(old(out)@),
            all == definitions_view(defs@),
            known == path_views(paths@),
            views(out@) == start + unresolved_upto(
                format,
                file@,
                source@,
                known,
                all,
                i as nat,
            ),
    {
        assert(all[i as int] == definition_view(defs@[i as int]));
        let ghost before = unresolved_upto(format, file@, source@, known, all, i as nat);
        match &defs[i] {
            Definition::ImportDef(import) => {
                if let ImportScope::Scoped(segments) = &import.node.scope {
                    if !contains_path(paths, segments.as_slice()) {
                        out.push(
                            report_unresolved_import(format, segments.as_slice(), file, source),
                        );
                    }
                }
            },
            Definition::ModuleDef(m) => {
                check_imports_recursive(
                    format,
                    m.node.definitions.as_slice(),
                    file,
                    source,
                    paths,
                    out,
                );
            },
            _ => {},
        }
        assert(views(out@) =~= start + unresolved_upto(
            format,
            file@,
            source@,
            known,
            all,
            (i + 1) as nat,
        ));
    }
}

/// What is said of the imports of the first `n` files.
pub open spec fn import_diagnostics(
    format: OutputFormat,
    files: Seq<SourceFileView>,
    paths: Seq<Path>,
    n: nat,
) -> Seq<DiagnosticView>
    decreases n,
{
    if n == 0 {
        Seq::empty()
    } else {
        let file = files[n - 1];
        import_diagnostics(format, files, paths, (n - 1) as nat) + unresolved_upto(
            format,
            file.name,
            file.source,
            paths,
            file.definitions,
            file.definitions.len(),
        )
    }
}

/// Checks that every import names a module. Where one does not, says so of each.
pub fn validate_imports(format: OutputFormat, files: &Vec<SourceFile>, paths: &Vec<Vec<String>>) -> (r:
    Result<(), Vec<Diagnostic>>)
    ensures
        match r {
            Ok(_) => import_diagnostics(
                format,
                views(files@),
                path_views(paths@),
                files@.len(),
            ).len() == 0,
            Err(diagnostics) => {
                &&& views(diagnostics@) == import_diagnostics(
                    format,
                    views(files@),
                    path_views(paths@),
                    files@.len(),
                )
                &&& diagnostics@.len() > 0
            },
        },
{
    let mut out: Vec<Diagnostic> = Vec::new();
    for i in 0..files.len()
        invariant
            views(out@) == import_diagnostics(
                format,
                views(files@),
                path_views(paths@),
                i as nat,
            ),
    {
        let file = &files[i];
        assert(views(files@)[i as int] == file@);
        check_imports_recursive(
            format,
            file.definitions.as_slice(),
            file.name.as_str(),
            file.source.as_str(),
            paths,
            &mut out,
        );
    }
    assert(views(out@).len() == out@.len());
    if out.len() > 0 {
        Err(out)
    } else {
        Ok(())
    }
}

/// Whether every import among the first `n` definitions, at any depth, names a
/// known module.
pub open spec fn imports_resolve(paths: Seq<Path>, defs: Seq<DefinitionView>, n: nat) -> bool
    decreases defs, n,
{
    n == 0 || n > defs.len() || {
        &&& imports_resolve(paths, defs, (n - 1) as nat)
        &&& match defs[n - 1] {
            DefinitionView::ImportDef(i) => match i.node.scope {
                ImportScopeView::Scoped(segments) => paths.contains(segments),
                ImportScopeView::Other(_) => true,
            },
            DefinitionView::ModuleDef(m) => imports_resolve(
                paths,
                m.node.definitions,
                m.node.definitions.len(),
            ),
            _ => true,
        }
    }
}

/// Nothing is said of the imports exactly where each of them names a module.
pub proof fn law_imports_pass_exactly_where_they_resolve(
    format: OutputFormat,
    file: Text,
    source: Text,
    paths: Seq<Path>,
    defs: Seq<DefinitionView>,
    n: nat,
)
    requires
        n <= defs.len(),
    ensures
        unresolved_upto(format, file, source, paths, defs, n).len() == 0 <==> imports_resolve(
            paths,
            defs,
            n,
        ),
    decreases defs, n,
{
    if n > 0 {
        law_imports_pass_exactly_where_they_resolve(
            format,
            file,
            source,
            paths,
            defs,
            (n - 1) as nat,
        );
        if let DefinitionView::ModuleDef(m) = defs[n - 1] {
            law_imports_pass_exactly_where_they_resolve(
                format,
                file,
                source,
                paths,
                m.node.definitions,
                m.node.definitions.len(),
            );
        }
    }
}

/// Whether a module of this full path stands at a place.
pub open spec fn is_module_at(
    defs: Seq<DefinitionView>,
    at: Path,
    steps: Seq<int>,
    path: Path,
) -> bool {
    found(defs, at, steps) matches Some(f) && f.def matches DefinitionView::ModuleDef(m) && path
        == f.path.push(m.node.name)
}

/// The module that the import at a place names.
pub open spec fn import_at(
    defs: Seq<DefinitionView>,
    at: Path,
    steps: Seq<int>,
) -> Option<Path> {
    match found(defs, at, steps) {
        Some(f) => match f.def {
            DefinitionView::ImportDef(i) => match i.node.scope {
                ImportScopeView::Scoped(segments) => Some(segments),
                ImportScopeView::Other(_) => None,
            },
            _ => None,
        },
        None => None,
    }
}

/// Whether a module of this full path stands anywhere in the files.
pub open spec fn module_exists(files: Seq<SourceFileView>, path: Path) -> bool {
    exists|f: nat, steps: Seq<int>|
        f < files.len() && #[trigger] is_module_at(
            files[f as int].definitions,
            Seq::empty(),
            steps,
            path,
        )
}

proof fn lemma_module_path_stands(defs: Seq<DefinitionView>, at: Path, n: nat, path: Path)
    requires
        n <= defs.len(),
        is_module_path(defs, at, n, path),
    ensures
        exists|steps: Seq<int>| #[trigger] is_module_at(defs, at, steps, path),
    decreases defs, n,
{
    if n > 0 {
        if is_module_path(defs, at, (n - 1) as nat, path) {
            lemma_module_path_stands(defs, at, (n - 1) as nat, path);
        } else {
            let m = defs[n - 1]->ModuleDef_0;
            if path == at.push(m.node.name) {
                assert(is_module_at(defs, at, seq![n - 1], path));
            } else {
                let inside = m.node.definitions;
                let below = at.push(m.node.name);
                lemma_module_path_stands(inside, below, inside.len(), path);
                let rest = choose|steps: Seq<int>| #[trigger]
                    is_module_at(inside, below, steps, path);
                lemma_found_inside(defs, at, n - 1, rest);
                assert(is_module_at(defs, at, seq![n - 1] + rest, path));
            }
        }
    }
}

proof fn lemma_standing_module_is_path(
    defs: Seq<DefinitionView>,
    at: Path,
    n: nat,
    steps: Seq<int>,
    path: Path,
)
    requires
        n <= defs.len(),
        is_module_at(defs, at, steps, path),
        steps[0] < n,
    ensures
        is_module_path(defs, at, n, path),
    decreases defs, n,
{
    if steps[0] < n - 1 {
        lemma_standing_module_is_path(defs, at, (n - 1) as nat, steps, path);
    } else if steps.len() > 1 {
        let m = defs[n - 1]->ModuleDef_0;
        let inside = m.node.definitions;
        let below = at.push(m.node.name);
        let rest = steps.drop_first();
        assert(found(inside, below, rest) is Some);
        lemma_standing_module_is_path(inside, below, inside.len(), rest, path);
    }
}

proof fn lemma_module_paths(files: Seq<SourceFileView>, n: nat, path: Path)
    requires
        n <= files.len(),
    ensures
        module_paths(files, n).no_duplicates(),
        module_paths(files, n).contains(path) <==> exists|f: nat, steps: Seq<int>|
            f < n && #[trigger] is_module_at(
                files[f as int].definitions,
                Seq::empty(),
                steps,
                path,
            ),
    decreases n,
{
    if n > 0 {
        let last = (n - 1) as nat;
        let before = module_paths(files, last);
        let defs = files[n - 1].definitions;
        lemma_module_paths(files, last, path);
        law_module_paths_are_collected_once(before, defs, Seq::empty(), defs.len());
        if module_paths(files, n).contains(path) {
            if before.contains(path) {
                let (f, steps) = choose|f: nat, steps: Seq<int>|
                    f < last && #[trigger] is_module_at(
                        files[f as int].definitions,
                        Seq::empty(),
                        steps,
                        path,
                    );
                assert(f < n && is_module_at(
                    files[f as int].definitions,
                    Seq::empty(),
                    steps,
                    path,
                ));
            } else {
                lemma_module_path_stands(defs, Seq::empty(), defs.len(), path);
                let steps = choose|steps: Seq<int>| #[trigger]
                    is_module_at(defs, Seq::empty(), steps, path);
                assert(is_module_at(files[last as int].definitions, Seq::empty(), steps, path));
            }
        }
        if exists|f: nat, steps: Seq<int>|
            f < n && #[trigger] is_module_at(
                files[f as int].definitions,
                Seq::empty(),
                steps,
                path,
            ) {
            let (f, steps) = choose|f: nat, steps: Seq<int>|
                f < n && #[trigger] is_module_at(
                    files[f as int].definitions,
                    Seq::empty(),
                    steps,
                    path,
                );
            if f == last {
                lemma_standing_module_is_path(defs, Seq::empty(), defs.len(), steps, path);
            } else {
                assert(f < last && is_module_at(
                    files[f as int].definitions,
                    Seq::empty(),
                    steps,
                    path,
                ));
            }
        }
    }
}

proof fn lemma_imports_resolve_at(
    paths: Seq<Path>,
    defs: Seq<DefinitionView>,
    at: Path,
    n: nat,
    steps: Seq<int>,
)
    requires
        n <= defs.len(),
        imports_resolve(paths, defs, n),
        import_at(defs, at, steps) is Some,
        steps[0] < n,
    ensures
        paths.contains(import_at(defs, at, steps).unwrap()),
    decreases defs, n,
{
    if steps[0] < n - 1 {
        lemma_imports_resolve_at(paths, defs, at, (n - 1) as nat, steps);
    } else if steps.len() > 1 {
        let m = defs[n - 1]->ModuleDef_0;
        let inside = m.node.definitions;
        let below = at.push(m.node.name);
        let rest = steps.drop_first();
        assert(found(inside, below, rest) is Some);
        assert(import_at(inside, below, rest) == import_at(defs, at, steps));
        lemma_imports_resolve_at(paths, inside, below, inside.len(), rest);
    }
}

proof fn lemma_unresolved_import_at(
    paths: Seq<Path>,
    defs: Seq<DefinitionView>,
    at: Path,
    n: nat,
)
    requires
        n <= defs.len(),
        !imports_resolve(paths, defs, n),
    ensures
        exists|steps: Seq<int>| #[trigger]
            import_at(defs, at, steps) matches Some(path) && !paths.contains(path),
    decreases defs, n,
{
    if n > 0 {
        if !imports_resolve(paths, defs, (n - 1) as nat) {
            lemma_unresolved_import_at(paths, defs, at, (n - 1) as nat);
        } else {
            match defs[n - 1] {
                DefinitionView::ModuleDef(m) => {
                    let inside = m.node.definitions;
                    let below = at.push(m.node.name);
                    lemma_unresolved_import_at(paths, inside, below, inside.len());
                    let rest = choose|steps: Seq<int>| #[trigger]
                        import_at(inside, below, steps) matches Some(path) && !paths.contains(path);
                    lemma_found_inside(defs, at, n - 1, rest);
                    assert(import_at(defs, at, seq![n - 1] + rest) == import_at(
                        inside,
                        below,
                        rest,
                    ));
                },
                DefinitionView::ImportDef(i) => {
                    let steps = seq![n - 1];
                    assert(import_at(defs, at, steps) is Some);
                },
                _ => {},
            }
        }
    }
}

proof fn lemma_diagnostics_of_files(
    format: OutputFormat,
    files: Seq<SourceFileView>,
    paths: Seq<Path>,
    n: nat,
)
    requires
        n <= files.len(),
    ensures
        import_diagnostics(format, files, paths, n).len() == 0 <==> forall|f: nat|
            f < n ==> #[trigger] imports_resolve(
                paths,
                files[f as int].definitions,
                files[f as int].definitions.len(),
            ),
    decreases n,
{
    if n > 0 {
        let last = (n - 1) as nat;
        lemma_diagnostics_of_files(format, files, paths, last);
        let file = files[n - 1];
        law_imports_pass_exactly_where_they_resolve(
            format,
            file.name,
            file.source,
            paths,
            file.definitions,
            file.definitions.len(),
        );
        assert(imports_resolve(
            paths,
            files[last as int].definitions,
            files[last as int].definitions.len(),
        ) <==> unresolved_upto(
            format,
            file.name,
            file.source,
            paths,
            file.definitions,
            file.definitions.len(),
        ).len() == 0);
    }
}

/// Imports pass exactly where every import, at any depth of every file, names the full path of
/// a module that stands somewhere in the files, at any depth.
pub proof fn law_imports_must_name_modules(format: OutputFormat, files: Seq<SourceFileView>)
    ensures
        import_diagnostics(
            format,
            files,
            module_paths(files, files.len()),
            files.len(),
        ).len() == 0 <==> forall|f: nat, steps: Seq<int>|
            f < files.len() ==> ((#[trigger] import_at(
                files[f as int].definitions,
                Seq::empty(),
                steps,
            )) matches Some(path) ==> module_exists(files, path)),
{
    let paths = module_paths(files, files.len());
    lemma_diagnostics_of_files(format, files, paths, files.len());
    if import_diagnostics(format, files, paths, files.len()).len() == 0 {
        assert forall|f: nat, steps: Seq<int>| f < files.len() implies ((#[trigger] import_at(
            files[f as int].definitions,
            Seq::empty(),
            steps,
        )) matches Some(path) ==> module_exists(files, path)) by {
            let defs = files[f as int].definitions;
            if let Some(path) = import_at(defs, Seq::empty(), steps) {
                assert(imports_resolve(paths, defs, defs.len()));
                lemma_imports_resolve_at(paths, defs, Seq::empty(), defs.len(), steps);
                lemma_module_paths(files, files.len(), path);
            }
        }
    } else {
        let f = choose|f: nat|
            f < files.len() && !#[trigger] imports_resolve(
                paths,
                files[f as int].definitions,
                files[f as int].definitions.len(),
            );
        let defs = files[f as int].definitions;
        lemma_unresolved_import_at(paths, defs, Seq::empty(), defs.len());
        let steps = choose|steps: Seq<int>| #[trigger]
            import_at(defs, Seq::empty(), steps) matches Some(path) && !paths.contains(path);
        let path = import_at(defs, Seq::empty(), steps).unwrap();
        lemma_module_paths(files, files.len(), path);
        assert(import_at(files[f as int].definitions, Seq::empty(), steps) is Some);
        assert(!module_exists(files, path));
    }
}

/// How many imports in the first `n` definitions, at any depth, name no module.
pub open spec fn unresolved_in(
    files: Seq<SourceFileView>,
    defs: Seq<DefinitionView>,
    n: nat,
) -> nat
    decreases defs, n,
{
    if n == 0 || n > defs.len() {
        0
    } else {
        unresolved_in(files, defs, (n - 1) as nat) + match defs[n - 1] {
            DefinitionView::ImportDef(i) => match i.node.scope {
                ImportScopeView::Scoped(segments) => if module_exists(files, segments) {
                    0nat
                } else {
                    1nat
                },
                ImportScopeView::Other(_) => 0,
            },
            DefinitionView::ModuleDef(m) => unresolved_in(
                files,
                m.node.definitions,
                m.node.definitions.len(),
            ),
            _ => 0,
        }
    }
}

/// How many imports of a file before a place in it name no module.
pub open spec fn unresolved_before(
    files: Seq<SourceFileView>,
    defs: Seq<DefinitionView>,
    steps: Seq<int>,
) -> nat
    decreases steps.len(),
{
    if steps.len() == 0 || !(0 <= steps[0] < defs.len()) {
        0
    } else {
        unresolved_in(files, defs, steps[0] as nat) + match defs[steps[0]] {
            DefinitionView::ModuleDef(m) => unresolved_before(
                files,
                m.node.definitions,
                steps.drop_first(),
            ),
            _ => 0,
        }
    }
}

/// How many imports of the first `n` files name no module.
pub open spec fn unresolved_in_files(files: Seq<SourceFileView>, n: nat) -> nat
    decreases n,
{
    if n == 0 || n > files.len() {
        0
    } else {
        unresolved_in_files(files, (n - 1) as nat) + unresolved_in(
            files,
            files[n - 1].definitions,
            files[n - 1].definitions.len(),
        )
    }
}

proof fn lemma_unresolved_are_counted(
    format: OutputFormat,
    file: Text,
    source: Text,
    files: Seq<SourceFileView>,
    defs: Seq<DefinitionView>,
    n: nat,
)
    ensures
        unresolved_upto(
            format,
            file,
            source,
            module_paths(files, files.len()),
            defs,
            n,
        ).len() == unresolved_in(files, defs, n),
    decreases defs, n,
{
    if 0 < n <= defs.len() {
        lemma_unresolved_are_counted(format, file, source, files, defs, (n - 1) as nat);
        match defs[n - 1] {
            DefinitionView::ImportDef(i) => {
                if let ImportScopeView::Scoped(segments) = i.node.scope {
                    lemma_module_paths(files, files.len(), segments);
                }
            },
            DefinitionView::ModuleDef(m) => {
                lemma_unresolved_are_counted(
                    format,
                    file,
                    source,
                    files,
                    m.node.definitions,
                    m.node.definitions.len(),
                );
            },
            _ => {},
        }
    }
}

proof fn lemma_unresolved_at(
    format: OutputFormat,
    file: Text,
    source: Text,
    files: Seq<SourceFileView>,
    defs: Seq<DefinitionView>,
    at: Path,
    n: nat,
    steps: Seq<int>,
)
    requires
        n <= defs.len(),
        steps.len() > 0,
        steps[0] < n,
        import_at(defs, at, steps) is Some,
        !module_exists(files, import_at(defs, at, steps).unwrap()),
    ensures
        ({
            let reports = unresolved_upto(
                format,
                file,
                source,
                module_paths(files, files.len()),
                defs,
                n,
            );
            let k = unresolved_before(files, defs, steps);
            &&& k < reports.len()
            &&& reports[k as int] == unresolved_import(
                format,
                import_at(defs, at, steps).unwrap(),
                file,
                source,
            )
        }),
    decreases defs, n,
{
    let paths = module_paths(files, files.len());
    lemma_unresolved_are_counted(format, file, source, files, defs, (n - 1) as nat);
    if steps[0] < n - 1 {
        lemma_unresolved_at(format, file, source, files, defs, at, (n - 1) as nat, steps);
    } else if steps.len() == 1 {
        lemma_module_paths(files, files.len(), import_at(defs, at, steps).unwrap());
    } else {
        let m = defs[n - 1]->ModuleDef_0;
        let inner = m.node.definitions;
        assert(found(inner, at.push(m.node.name), steps.drop_first()) == found(defs, at, steps));
        lemma_unresolved_at(
            format,
            file,
            source,
            files,
            inner,
            at.push(m.node.name),
            inner.len(),
            steps.drop_first(),
        );
        let before = unresolved_upto(format, file, source, paths, defs, (n - 1) as nat);
        let nested = unresolved_upto(format, file, source, paths, inner, inner.len());
        let k = unresolved_before(files, inner, steps.drop_first()) as int;
        assert((before + nested)[before.len() + k] == nested[k]);
    }
}

proof fn lemma_reports_of_files(
    format: OutputFormat,
    files: Seq<SourceFileView>,
    n: nat,
    f: nat,
    steps: Seq<int>,
)
    requires
        n <= files.len(),
    ensures
        ({
            let reports = import_diagnostics(format, files, module_paths(files, files.len()), n);
            let defs = files[f as int].definitions;
            let k = unresolved_in_files(files, f) + unresolved_before(files, defs, steps);
            &&& reports.len() == unresolved_in_files(files, n)
            &&& f < n && import_at(defs, Seq::empty(), steps) is Some && !module_exists(
                files,
                import_at(defs, Seq::empty(), steps).unwrap(),
            ) ==> k < reports.len() && reports[k as int] == unresolved_import(
                format,
                import_at(defs, Seq::empty(), steps).unwrap(),
                files[f as int].name,
                files[f as int].source,
            )
        }),
    decreases n,
{
    if n > 0 {
        let paths = module_paths(files, files.len());
        let file = files[n - 1];
        lemma_reports_of_files(format, files, (n - 1) as nat, f, steps);
        lemma_unresolved_are_counted(
            format,
            file.name,
            file.source,
            files,
            file.definitions,
            file.definitions.len(),
        );
        if f == n - 1 && import_at(file.definitions, Seq::empty(), steps) is Some
            && !module_exists(files, import_at(file.definitions, Seq::empty(), steps).unwrap()) {
            lemma_unresolved_at(
                format,
                file.name,
                file.source,
                files,
                file.definitions,
                Seq::empty(),
                file.definitions.len(),
                steps,
            );
            let before = import_diagnostics(format, files, paths, (n - 1) as nat);
            let here = unresolved_upto(
                format,
                file.name,
                file.source,
                paths,
                file.definitions,
                file.definitions.len(),
            );
            let k = unresolved_before(files, file.definitions, steps) as int;
            assert((before + here)[before.len() + k] == here[k]);
        }
    }
}

/// Every import that names no module is reported with its path and its file, one report for
/// each, in the order of the files and of the imports in them, and nothing else is reported.
pub proof fn law_unresolved_imports_are_reported_in_order(
    format: OutputFormat,
    files: Seq<SourceFileView>,
    f: nat,
    steps: Seq<int>,
)
    requires
        f < files.len(),
    ensures
        ({
            let reports = import_diagnostics(
                format,
                files,
                module_paths(files, files.len()),
                files.len(),
            );
            let file = files[f as int];
            let k = unresolved_in_files(files, f) + unresolved_before(
                files,
                file.definitions,
                steps,
            );
            &&& reports.len() == unresolved_in_files(files, files.len())
            &&& import_at(file.definitions, Seq::empty(), steps) matches Some(path) ==> (
            !module_exists(files, path) ==> k < reports.len() && reports[k as int]
                == unresolved_import(format, path, file.name, file.source))
        }),
{
    lemma_reports_of_files(format, files, files.len(), f, steps);
}

} // verus!
