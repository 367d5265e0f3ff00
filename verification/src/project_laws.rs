//! Which files of a project are live and what is reported of the others, said of what was read.

use crate::check::{
    bound_first, check_reports, is_entry_root, is_extra_edge, is_parent_package, path_edges,
    project_files, project_spellings, root_files, scan_edges, scan_failures, scan_graph, scan_of,
    scan_roots, walked_files, FileModel, FileScan, ParsingError, ProjectScan, ScanModel, WalkedFile,
    WalkedRoot,
};
use crate::check_laws::{
    is_dead_in, lemma_bound_first_domain, lemma_first_found, lemma_imported_files_live,
    lemma_skipped_file_reported,
};
use crate::collections::{union_over, views};
use crate::config::{rule_severity, DeadcodeDetection, ProjectConfig, RuleSetting, Severity};
use crate::diagnostics::{
    comes_before, global, is_stable_sort, sort_id, wording, DetailsModel, DiagnosticModel, LocationModel,
};
use crate::graph::{import_step, live_files, EntryModel};
use crate::imports::{member_file, module_file};
use crate::order::text_precedes;
use crate::path::{extension, file_name, is_init, joined, normalized, path_precedes, FilePath};
use crate::reach::{lemma_reachable_least, lemma_start_reachable};
use crate::settings::{detections, is_ignored, is_unchecked, rule_ignores};
use crate::text::{parents, texts};
use vstd::prelude::*;

verus! {

/// The parents of a dotted path are the paths that, followed by a dot, start it.
pub proof fn lemma_parents_exact(module: Seq<char>, p: Seq<char>)
    ensures
        parents(module).contains(p) <==> p.push('.').is_prefix_of(module),
    decreases module.len(),
{
    let list = parents(module);
    if module.len() > 0 {
        let shorter = module.drop_last();
        let before = parents(shorter);
        lemma_parents_exact(shorter, p);
        if before.contains(p) {
            let k = choose|k: int| 0 <= k < before.len() && before[k] == p;
            assert(list[k] == p);
            assert(p.push('.') =~= module.take(p.len() as int + 1)) by {
                assert(p.push('.') == shorter.take(p.len() as int + 1));
            }
        }
        if module.last() == '.' && p == shorter {
            assert(list[before.len() as int] == p);
            assert(p.push('.') =~= module);
        }
        if list.contains(p) {
            let k = choose|k: int| 0 <= k < list.len() && list[k] == p;
            if k < before.len() {
                assert(before[k] == p);
            } else {
                assert(p == shorter && module.last() == '.');
                assert(p.push('.') =~= module);
            }
        }
        if p.push('.').is_prefix_of(module) {
            if p.len() + 1 == module.len() {
                assert(p.push('.') =~= module);
                assert(p =~= shorter);
            } else {
                assert(p.push('.') =~= shorter.take(p.len() as int + 1));
                assert(p.push('.').is_prefix_of(shorter));
            }
        }
    } else {
        assert(list.len() == 0);
    }
}

/// Whether `file` is the `__init__.py`, and a file of the project, of a package around `module`.
pub open spec fn is_package_around(
    scan: ProjectScan,
    module: Seq<char>,
    package: Seq<char>,
    file: Seq<char>,
) -> bool {
    &&& package.push('.').is_prefix_of(module)
    &&& module_file(scan.index@, package) == Some(file)
    &&& file_name(file) == "__init__.py"@
    &&& project_files(scan.walked@).contains_key(file)
}

proof fn lemma_package_around(
    scan: ProjectScan,
    module: Seq<char>,
    file: Seq<char>,
)
    ensures
        is_parent_package(scan.index@, project_files(scan.walked@), module, file) <==> exists|
            package: Seq<char>,
        | #[trigger]
            is_package_around(scan, module, package, file),
{
    let files = project_files(scan.walked@);
    let list = parents(module);
    if is_parent_package(scan.index@, files, module, file) {
        let j = choose|j: int|
            0 <= j < list.len() && module_file(scan.index@, #[trigger] list[j]) == Some(file)
                && is_init(file) && files.contains_key(file);
        lemma_parents_exact(module, list[j]);
        assert(list.contains(list[j]));
        assert(is_package_around(scan, module, list[j], file));
    }
    if exists|package: Seq<char>| #[trigger] is_package_around(scan, module, package, file) {
        let package = choose|package: Seq<char>| #[trigger]
            is_package_around(scan, module, package, file);
        lemma_parents_exact(module, package);
        let j = choose|j: int| 0 <= j < list.len() && list[j] == package;
        assert(module_file(scan.index@, list[j]) == Some(file));
    }
}

/// For every dotted path that a live file imports: if the path leads to a Python file of the
/// project, that file is live, whatever it is called.
pub proof fn lemma_imported_file_live(
    scan: ProjectScan,
    from: Seq<char>,
    paths: Seq<Seq<char>>,
    i: int,
)
    requires
        live_files(scan_graph(scan), scan_roots(scan)).contains(from),
        project_files(scan.walked@).contains_key(from),
        scan.outcomes@.contains_key(from),
        scan.outcomes@[from] == ScanModel::Imports(paths),
        0 <= i < paths.len(),
        member_file(scan.index@, paths[i]) is Some,
        extension(member_file(scan.index@, paths[i])->0.file) == Some("py"@),
        project_files(scan.walked@).contains_key(member_file(scan.index@, paths[i])->0.file),
    ensures
        live_files(scan_graph(scan), scan_roots(scan)).contains(
            member_file(scan.index@, paths[i])->0.file,
        ),
{
    let file = member_file(scan.index@, paths[i])->0.file;
    assert(path_edges(scan.index@, project_files(scan.walked@), from, paths[i]).contains(
        (from, file),
    ));
    lemma_imported_files_live(scan, from, paths, i, file);
}

/// So are the `__init__.py` files of the packages around the path.
pub proof fn lemma_imported_package_live(
    scan: ProjectScan,
    from: Seq<char>,
    paths: Seq<Seq<char>>,
    i: int,
    package: Seq<char>,
    file: Seq<char>,
)
    requires
        live_files(scan_graph(scan), scan_roots(scan)).contains(from),
        project_files(scan.walked@).contains_key(from),
        scan.outcomes@.contains_key(from),
        scan.outcomes@[from] == ScanModel::Imports(paths),
        0 <= i < paths.len(),
        member_file(scan.index@, paths[i]) is Some,
        extension(member_file(scan.index@, paths[i])->0.file) == Some("py"@),
        project_files(scan.walked@).contains_key(member_file(scan.index@, paths[i])->0.file),
        package.push('.').is_prefix_of(paths[i]),
        module_file(scan.index@, package) == Some(file),
        file_name(file) == "__init__.py"@,
        project_files(scan.walked@).contains_key(file),
    ensures
        live_files(scan_graph(scan), scan_roots(scan)).contains(file),
{
    assert(is_package_around(scan, paths[i], package, file));
    lemma_package_around(scan, paths[i], file);
    assert(path_edges(scan.index@, project_files(scan.walked@), from, paths[i]).contains(
        (from, file),
    ));
    lemma_imported_files_live(scan, from, paths, i, file);
}

/// An entry file of the project is live, and so is the `__init__.py` of each package around it.
pub proof fn lemma_entry_file_live(scan: ProjectScan, j: int, package: Seq<char>, file: Seq<char>)
    requires
        0 <= j < scan.entry_points.files@.len(),
        project_files(scan.walked@).contains_key(scan.entry_points.files@[j]@),
    ensures
        live_files(scan_graph(scan), scan_roots(scan)).contains(scan.entry_points.files@[j]@),
        scan_roots(scan) != Set::<Seq<char>>::empty(),
        package.push('.').is_prefix_of(project_files(scan.walked@)[scan.entry_points.files@[j]@])
            && module_file(scan.index@, package) == Some(file) && file_name(file)
            == "__init__.py"@ && project_files(scan.walked@).contains_key(file) ==> live_files(
            scan_graph(scan),
            scan_roots(scan),
        ).contains(file),
{
    let files = project_files(scan.walked@);
    let list = views(scan.entry_points.files@);
    let entry = scan.entry_points.files@[j]@;
    assert(list[j] == entry);
    assert(is_entry_root(scan.index@, files, list, entry));
    assert(scan_roots(scan).contains(entry));
    lemma_start_reachable(scan_roots(scan), import_step(scan_graph(scan)));
    if package.push('.').is_prefix_of(files[entry]) && module_file(scan.index@, package) == Some(
        file,
    ) && file_name(file) == "__init__.py"@ && files.contains_key(file) {
        assert(is_package_around(scan, files[entry], package, file));
        lemma_package_around(scan, files[entry], file);
        assert(is_entry_root(scan.index@, files, list, file));
        assert(scan_roots(scan).contains(file));
    }
}

/// A file that a live file depends on without importing it is live, if both are files of the
/// project.
pub proof fn lemma_dependency_live(scan: ProjectScan, k: int, s: int, d: int)
    requires
        0 <= k < scan.extra_dependencies@.len(),
        0 <= s < scan.extra_dependencies@[k].sources@.len(),
        0 <= d < scan.extra_dependencies@[k].dependencies@.len(),
        project_files(scan.walked@).contains_key(scan.extra_dependencies@[k].sources@[s]@),
        project_files(scan.walked@).contains_key(scan.extra_dependencies@[k].dependencies@[d]@),
        live_files(scan_graph(scan), scan_roots(scan)).contains(
            scan.extra_dependencies@[k].sources@[s]@,
        ),
    ensures
        live_files(scan_graph(scan), scan_roots(scan)).contains(
            scan.extra_dependencies@[k].dependencies@[d]@,
        ),
{
    let extra = scan.extra_dependencies@;
    let from = extra[k].sources@[s]@;
    let to = extra[k].dependencies@[d]@;
    assert(views(extra[k].sources@)[s] == from);
    assert(views(extra[k].dependencies@)[d] == to);
    assert(views(extra[k].sources@).contains(from));
    assert(views(extra[k].dependencies@).contains(to));
    assert(is_extra_edge(extra, project_files(scan.walked@), from, to));
    crate::check_laws::lemma_extra_dependencies_live(scan, from, to);
}

/// Whether a file that was read imports `to`: through a path that leads to a Python file of the
/// project, either that file or a package around the path.
pub open spec fn imports_file(scan: ProjectScan, from: Seq<char>, to: Seq<char>) -> bool {
    &&& project_files(scan.walked@).contains_key(from)
    &&& scan.outcomes@.contains_key(from)
    &&& match scan.outcomes@[from] {
        ScanModel::Imports(paths) => exists|i: int|
            0 <= i < paths.len() && path_imports(scan, #[trigger] paths[i], to),
        _ => false,
    }
}

pub open spec fn path_imports(scan: ProjectScan, path: Seq<char>, to: Seq<char>) -> bool {
    match member_file(scan.index@, path) {
        Some(found) => extension(found.file) == Some("py"@) && project_files(
            scan.walked@,
        ).contains_key(found.file) && (to == found.file || exists|package: Seq<char>| #[trigger]
            is_package_around(scan, path, package, to)),
        None => false,
    }
}

/// Nothing else is live: every set that holds the entry files of the project and the packages
/// around them, and with a file all that it imports or depends on, holds all live files.
pub proof fn lemma_live_files_least(scan: ProjectScan, set: Set<Seq<char>>)
    requires
        forall|j: int|
            0 <= j < scan.entry_points.files@.len() && project_files(scan.walked@).contains_key(
                (#[trigger] scan.entry_points.files@[j])@,
            ) ==> set.contains(scan.entry_points.files@[j]@),
        forall|j: int, package: Seq<char>, file: Seq<char>|
            0 <= j < scan.entry_points.files@.len() && project_files(scan.walked@).contains_key(
                (#[trigger] scan.entry_points.files@[j])@,
            ) && #[trigger] is_package_around(
                scan,
                project_files(scan.walked@)[scan.entry_points.files@[j]@],
                package,
                file,
            ) ==> set.contains(file),
        forall|from: Seq<char>, to: Seq<char>|
            set.contains(from) && #[trigger] imports_file(scan, from, to) ==> set.contains(to),
        forall|k: int, s: int, d: int|
            0 <= k < scan.extra_dependencies@.len() && 0 <= s
                < scan.extra_dependencies@[k].sources@.len() && 0 <= d
                < scan.extra_dependencies@[k].dependencies@.len() && set.contains(
                (#[trigger] scan.extra_dependencies@[k].sources@[s])@,
            ) && project_files(scan.walked@).contains_key(
                (#[trigger] scan.extra_dependencies@[k].dependencies@[d])@,
            ) ==> set.contains(scan.extra_dependencies@[k].dependencies@[d]@),
    ensures
        live_files(scan_graph(scan), scan_roots(scan)).subset_of(set),
{
    let files = project_files(scan.walked@);
    let roots = scan_roots(scan);
    let step = import_step(scan_graph(scan));
    let list = views(scan.entry_points.files@);
    assert forall|file: Seq<char>| roots.contains(file) implies set.contains(file) by {
        let j = choose|j: int|
            0 <= j < list.len() && files.contains_key(#[trigger] list[j]) && (file == list[j]
                || is_parent_package(scan.index@, files, files[list[j]], file));
        assert(list[j] == scan.entry_points.files@[j]@);
        if file != list[j] {
            lemma_package_around(scan, files[list[j]], file);
            let package = choose|package: Seq<char>| #[trigger]
                is_package_around(scan, files[list[j]], package, file);
            assert(is_package_around(
                scan,
                files[scan.entry_points.files@[j]@],
                package,
                file,
            ));
        }
    }
    let gives = scan_edges(scan.index@, files, scan.outcomes@);
    assert forall|a: Seq<char>, b: Seq<char>| set.contains(a) && #[trigger] step(
        a,
        b,
    ) implies set.contains(b) by {
        let e = (a, b);
        if union_over(files.dom(), gives).contains(e) {
            let from = choose|from: Seq<char>| #[trigger]
                files.dom().contains(from) && gives(from, e);
            let paths = scan_of(scan.outcomes@, from)->Imports_0;
            let by_path = |path: Seq<char>, e: (Seq<char>, Seq<char>)|
                path_edges(scan.index@, files, from, path).contains(e);
            let i = choose|i: int| 0 <= i < paths.len() && by_path(#[trigger] paths[i], e);
            assert(path_edges(scan.index@, files, from, paths[i]).contains(e));
            lemma_package_around(scan, paths[i], b);
            assert(path_imports(scan, paths[i], b));
            assert(imports_file(scan, a, b));
        } else {
            let extra = scan.extra_dependencies@;
            assert(is_extra_edge(extra, files, a, b));
            let k = choose|k: int|
                0 <= k < extra.len() && views((#[trigger] extra[k]).sources@).contains(a) && views(
                    extra[k].dependencies@,
                ).contains(b);
            let sources = views(extra[k].sources@);
            let dependencies = views(extra[k].dependencies@);
            let s = choose|s: int| 0 <= s < sources.len() && sources[s] == a;
            let d = choose|d: int| 0 <= d < dependencies.len() && dependencies[d] == b;
            assert(extra[k].sources@[s]@ == a);
            assert(extra[k].dependencies@[d]@ == b);
        }
    }
    lemma_reachable_least(roots, step, set);
}

/// Whether the walked file at position `j` below the source root at position `k` has a module path
/// and lies at `path`.
pub open spec fn walks_to(walked: Seq<WalkedRoot>, k: int, j: int, path: Seq<char>) -> bool {
    &&& 0 <= k < walked.len()
    &&& 0 <= j < walked[k].files@.len()
    &&& walked[k].files@[j].module is Some
    &&& path == normalized(
        joined(walked[k].source_root.spelling(), walked[k].files@[j].file_path.spelling()),
    )
}

proof fn lemma_root_files(root: FilePath, files: Seq<WalkedFile>, path: Seq<char>, entry: EntryModel)
    ensures
        root_files(root, files).contains((path, entry)) <==> exists|j: int|
            0 <= j < files.len() && (#[trigger] files[j]).module is Some && entry.module
                == files[j].module->0@ && entry.spelling == joined(
                root.spelling(),
                files[j].file_path.spelling(),
            ) && path == normalized(entry.spelling),
    decreases files.len(),
{
    let list = root_files(root, files);
    if files.len() > 0 {
        let shorter = files.drop_last();
        let last = files.len() - 1;
        let before = root_files(root, shorter);
        lemma_root_files(root, shorter, path, entry);
        assert(files[last] == files.last());
        assert forall|j: int| 0 <= j < last implies #[trigger] files[j] == shorter[j] by {}
        if before.contains((path, entry)) {
            let d = choose|d: int| 0 <= d < before.len() && before[d] == (path, entry);
            assert(list[d] == (path, entry));
            let j = choose|j: int|
                0 <= j < shorter.len() && (#[trigger] shorter[j]).module is Some && entry.module
                    == shorter[j].module->0@ && entry.spelling == joined(
                    root.spelling(),
                    shorter[j].file_path.spelling(),
                ) && path == normalized(entry.spelling);
            assert(files[j] == shorter[j]);
        }
        if let Some(module) = files.last().module {
            assert(list[before.len() as int].1.module == module@);
        }
        if list.contains((path, entry)) {
            let d = choose|d: int| 0 <= d < list.len() && list[d] == (path, entry);
            if d < before.len() {
                assert(before[d] == (path, entry));
            }
        }
        if exists|j: int|
            0 <= j < files.len() && (#[trigger] files[j]).module is Some && entry.module
                == files[j].module->0@ && entry.spelling == joined(
                root.spelling(),
                files[j].file_path.spelling(),
            ) && path == normalized(entry.spelling) {
            let j = choose|j: int|
                0 <= j < files.len() && (#[trigger] files[j]).module is Some && entry.module
                    == files[j].module->0@ && entry.spelling == joined(
                    root.spelling(),
                    files[j].file_path.spelling(),
                ) && path == normalized(entry.spelling);
            if j < last {
                assert(shorter[j] == files[j]);
            } else {
                assert(list[before.len() as int] == (path, entry));
            }
        }
    } else {
        assert(list.len() == 0);
    }
}

proof fn lemma_walked_files(walked: Seq<WalkedRoot>, path: Seq<char>, entry: EntryModel)
    ensures
        walked_files(walked).contains((path, entry)) <==> exists|k: int, j: int| #[trigger]
            walks_to(walked, k, j, path) && entry.module == walked[k].files@[j].module->0@
                && entry.spelling == joined(
                walked[k].source_root.spelling(),
                walked[k].files@[j].file_path.spelling(),
            ),
    decreases walked.len(),
{
    let list = walked_files(walked);
    if walked.len() > 0 {
        let shorter = walked.drop_last();
        let last = walked.len() - 1;
        let root = walked.last();
        let before = walked_files(shorter);
        let added = root_files(root.source_root, root.files@);
        lemma_walked_files(shorter, path, entry);
        lemma_root_files(root.source_root, root.files@, path, entry);
        crate::check_laws::lemma_concat_contains(before, added, (path, entry));
        assert(walked[last] == root);
        assert forall|k: int| 0 <= k < last implies #[trigger] walked[k] == shorter[k] by {}
        if before.contains((path, entry)) {
            let (k, j) = choose|k: int, j: int| #[trigger]
                walks_to(shorter, k, j, path) && entry.module == shorter[k].files@[j].module->0@
                    && entry.spelling == joined(
                    shorter[k].source_root.spelling(),
                    shorter[k].files@[j].file_path.spelling(),
                );
            assert(walked[k] == shorter[k]);
            assert(walks_to(walked, k, j, path));
        }
        if added.contains((path, entry)) {
            let files = root.files@;
            let j = choose|j: int|
                0 <= j < files.len() && (#[trigger] files[j]).module is Some && entry.module
                    == files[j].module->0@ && entry.spelling == joined(
                    root.source_root.spelling(),
                    files[j].file_path.spelling(),
                ) && path == normalized(entry.spelling);
            assert(walks_to(walked, last, j, path));
        }
        if exists|k: int, j: int| #[trigger]
            walks_to(walked, k, j, path) && entry.module == walked[k].files@[j].module->0@
                && entry.spelling == joined(
                walked[k].source_root.spelling(),
                walked[k].files@[j].file_path.spelling(),
            ) {
            let (k, j) = choose|k: int, j: int| #[trigger]
                walks_to(walked, k, j, path) && entry.module == walked[k].files@[j].module->0@
                    && entry.spelling == joined(
                    walked[k].source_root.spelling(),
                    walked[k].files@[j].file_path.spelling(),
                );
            if k < last {
                assert(walks_to(shorter, k, j, path));
            } else {
                assert(root.files@[j].module is Some);
            }
        }
    } else {
        assert(list.len() == 0);
    }
}

/// The files of a project are the walked files that have a module path.
pub proof fn lemma_project_files(walked: Seq<WalkedRoot>, path: Seq<char>)
    ensures
        project_files(walked).contains_key(path) <==> exists|k: int, j: int| #[trigger]
            walks_to(walked, k, j, path),
        project_spellings(walked).contains_key(path) <==> project_files(walked).contains_key(path),
{
    let list = walked_files(walked);
    if project_files(walked).contains_key(path) {
        lemma_bound_first_domain(list, path);
        let d = choose|d: int| 0 <= d < list.len() && (#[trigger] list[d]).0 == path;
        lemma_walked_files(walked, path, list[d].1);
        assert(list[d] == (path, list[d].1));
        assert(list.contains(list[d]));
        let (k, j) = choose|k: int, j: int| #[trigger]
            walks_to(walked, k, j, path) && list[d].1.module == walked[k].files@[j].module->0@
                && list[d].1.spelling == joined(
                walked[k].source_root.spelling(),
                walked[k].files@[j].file_path.spelling(),
            );
        assert(walks_to(walked, k, j, path));
    }
    if exists|k: int, j: int| #[trigger] walks_to(walked, k, j, path) {
        let (k, j) = choose|k: int, j: int| #[trigger] walks_to(walked, k, j, path);
        let entry = EntryModel {
            module: walked[k].files@[j].module->0@,
            spelling: joined(
                walked[k].source_root.spelling(),
                walked[k].files@[j].file_path.spelling(),
            ),
        };
        lemma_walked_files(walked, path, entry);
        let d = choose|d: int| 0 <= d < list.len() && list[d] == (path, entry);
        lemma_first_of(list, d);
    }
}

proof fn lemma_first_of(list: Seq<FileModel>, d: int)
    requires
        0 <= d < list.len(),
    ensures
        bound_first(list).contains_key(list[d].0),
    decreases list.len(),
{
    let shorter = list.drop_last();
    if d < shorter.len() {
        assert(shorter[d] == list[d]);
        lemma_first_of(shorter, d);
    }
}

/// A file that was walked to only once has the module path and the spelling that it had there.
pub proof fn lemma_project_file(walked: Seq<WalkedRoot>, k: int, j: int, path: Seq<char>)
    requires
        walks_to(walked, k, j, path),
        forall|k2: int, j2: int| #[trigger]
            walks_to(walked, k2, j2, path) ==> k2 == k && j2 == j,
    ensures
        project_files(walked)[path] == walked[k].files@[j].module->0@,
        project_spellings(walked)[path] == joined(
            walked[k].source_root.spelling(),
            walked[k].files@[j].file_path.spelling(),
        ),
{
    let list = walked_files(walked);
    lemma_project_files(walked, path);
    lemma_bound_first_domain(list, path);
    let d = lemma_first_position(list, path);
    lemma_first_found(list, d);
    assert(list[d] == (path, list[d].1));
    assert(list.contains(list[d]));
    lemma_walked_files(walked, path, list[d].1);
    let (k2, j2) = choose|k2: int, j2: int| #[trigger]
        walks_to(walked, k2, j2, path) && list[d].1.module == walked[k2].files@[j2].module->0@
            && list[d].1.spelling == joined(
            walked[k2].source_root.spelling(),
            walked[k2].files@[j2].file_path.spelling(),
        );
    assert(k2 == k && j2 == j);
}

proof fn lemma_first_position(list: Seq<FileModel>, path: Seq<char>) -> (d: int)
    requires
        exists|d: int| 0 <= d < list.len() && (#[trigger] list[d]).0 == path,
    ensures
        0 <= d < list.len(),
        list[d].0 == path,
        forall|e: int| 0 <= e < d ==> (#[trigger] list[e]).0 != path,
    decreases list.len(),
{
    let shorter = list.drop_last();
    if exists|d: int| 0 <= d < shorter.len() && (#[trigger] shorter[d]).0 == path {
        let d = lemma_first_position(shorter, path);
        assert(list[d] == shorter[d]);
        assert forall|e: int| 0 <= e < d implies (#[trigger] list[e]).0 != path by {
            assert(list[e] == shorter[e]);
        }
        d
    } else {
        let d = choose|d: int| 0 <= d < list.len() && (#[trigger] list[d]).0 == path;
        if d < shorter.len() {
            assert(shorter[d].0 == path);
        }
        assert forall|e: int| 0 <= e < d implies (#[trigger] list[e]).0 != path by {
            if list[e].0 == path {
                assert(shorter[e].0 == path);
            }
        }
        d
    }
}

/// A file that could not be read, or whose parsing failed on reading, is reported as unreadable,
/// with a warning; one that could not be parsed, or whose imports could not be told, as having a
/// syntax error, with an error; and no other.
pub proof fn lemma_scan_outcomes(imports: Vec<String>)
    ensures
        FileScan::ReadFailed@ is Io,
        FileScan::ParseFailed(ParsingError::Io)@ is Io,
        FileScan::ParseFailed(ParsingError::Filesystem)@ is Io,
        FileScan::ParseFailed(ParsingError::PythonParse)@ is Syntax,
        FileScan::ParseFailed(ParsingError::InvalidSyntax)@ is Syntax,
        FileScan::ImportsFailed@ is Syntax,
        FileScan::Imports(imports)@ == ScanModel::Imports(texts(imports@)),
{
}

/// A file of the project that was skipped is reported as its outcome says, and is never dead.
pub proof fn lemma_skipped_reported(
    root: Seq<char>,
    config: ProjectConfig,
    detect_files: bool,
    scan: ProjectScan,
    file: Seq<char>,
)
    requires
        project_files(scan.walked@).contains_key(file),
    ensures
        !scan.outcomes@.contains_key(file) || scan.outcomes@[file] is Io ==> check_reports(
            root,
            config,
            detect_files,
            scan,
        ).contains(
            global(
                Severity::Warning,
                DetailsModel::IoError(project_spellings(scan.walked@)[file]),
            ),
        ) && scan_failures(scan).contains(file),
        scan.outcomes@.contains_key(file) && scan.outcomes@[file] is Syntax ==> check_reports(
            root,
            config,
            detect_files,
            scan,
        ).contains(
            global(
                Severity::Error,
                DetailsModel::SyntaxError(project_spellings(scan.walked@)[file]),
            ),
        ) && scan_failures(scan).contains(file),
        scan.outcomes@.contains_key(file) && scan.outcomes@[file] is Imports ==> !scan_failures(
            scan,
        ).contains(file),
        scan_failures(scan).contains(file) ==> !is_dead_in(root, config, scan, file),
{
    if scan_failures(scan).contains(file) {
        lemma_skipped_file_reported(root, config, detect_files, scan, file);
    }
}

/// A file is dead exactly where it is a file of the project, is not live, was read and parsed, is
/// no protected `__init__.py`, and neither an ignore rule nor an unchecked module exempts it.
pub proof fn lemma_dead_conditions(
    root: Seq<char>,
    config: ProjectConfig,
    scan: ProjectScan,
    file: Seq<char>,
)
    ensures
        is_dead_in(root, config, scan, file) <==> {
            let files = project_files(scan.walked@);
            &&& files.contains_key(file)
            &&& !live_files(scan_graph(scan), scan_roots(scan)).contains(file)
            &&& scan.outcomes@.contains_key(file) && scan.outcomes@[file] is Imports
            &&& !(config.deadcode.protect_init_files && file_name(file) == "__init__.py"@)
            &&& !exists|i: int|
                0 <= i < config.deadcode.ignore@.len() && rule_ignores(
                    (#[trigger] config.deadcode.ignore@[i])@,
                    root,
                    views(scan.source_roots@),
                    file,
                    project_spellings(scan.walked@)[file],
                    Some(files[file]),
                )
            &&& !is_unchecked(config.modules@, files[file])
        },
{
    let files = project_files(scan.walked@);
    let rules = texts(config.deadcode.ignore@);
    let spelling = project_spellings(scan.walked@)[file];
    let roots = views(scan.source_roots@);
    if is_ignored(rules, root, roots, file, spelling, Some(files[file])) {
        let i = choose|i: int|
            0 <= i < rules.len() && rule_ignores(
                #[trigger] rules[i],
                root,
                roots,
                file,
                spelling,
                Some(files[file]),
            );
        assert(rules[i] == config.deadcode.ignore@[i]@);
    }
    if exists|i: int|
        0 <= i < config.deadcode.ignore@.len() && rule_ignores(
            (#[trigger] config.deadcode.ignore@[i])@,
            root,
            roots,
            file,
            spelling,
            Some(files[file]),
        ) {
        let i = choose|i: int|
            0 <= i < config.deadcode.ignore@.len() && rule_ignores(
                (#[trigger] config.deadcode.ignore@[i])@,
                root,
                roots,
                file,
                spelling,
                Some(files[file]),
            );
        assert(rules[i] == config.deadcode.ignore@[i]@);
    }
}

/// Where files are looked for, there is an entry point, the rule is not off and no live file was
/// skipped, each dead file is reported: at its first line, with its module, and with its path as
/// it was walked to.
pub proof fn lemma_dead_file_location(
    root: Seq<char>,
    config: ProjectConfig,
    scan: ProjectScan,
    severity: Severity,
    file: Seq<char>,
)
    requires
        rule_severity(config.deadcode.severity) == Some(severity),
        scan_roots(scan) != Set::<Seq<char>>::empty(),
        forall|f: Seq<char>| #[trigger]
            scan_failures(scan).contains(f) ==> !live_files(
                scan_graph(scan),
                scan_roots(scan),
            ).contains(f),
        is_dead_in(root, config, scan, file),
    ensures
        check_reports(root, config, true, scan).contains(
            (DiagnosticModel {
                severity,
                details: DetailsModel::DeadFile(project_files(scan.walked@)[file]),
                location: Some(
                    LocationModel {
                        file,
                        spelling: project_spellings(scan.walked@)[file],
                        line: 1,
                        original_line: None,
                    },
                ),
            }),
        ),
{
    crate::check_laws::lemma_dead_file_reported(root, config, scan, severity, file);
}

/// A rule that is off reports nothing, one that warns reports warnings, and one that is an error
/// reports errors.
pub proof fn lemma_severities()
    ensures
        rule_severity(RuleSetting::Off) is None,
        rule_severity(RuleSetting::Warn) == Some(Severity::Warning),
        rule_severity(RuleSetting::Error) == Some(Severity::Error),
{
}

/// What the command line asks for is what is looked for; only where it asks for nothing do the
/// settings decide.
pub proof fn lemma_detections(config: ProjectConfig, files: bool, symbols: bool)
    ensures
        files || symbols ==> detections(config, files, symbols) == (files, symbols),
        detections(config, false, false) == (
            config.deadcode.detect@.contains(DeadcodeDetection::Files),
            config.deadcode.detect@.contains(DeadcodeDetection::Symbols),
        ),
{
}

/// The message of a report names what it is about and says what is wrong with it.
pub proof fn lemma_wording(text: Seq<char>)
    ensures
        wording(DetailsModel::DeadFile(text)) == "Module '"@ + text
            + "' is not reachable from any entry point."@,
        wording(DetailsModel::EntryPointNotFound(text)) == "Deadcode entry point '"@ + text
            + "' was not found."@,
        wording(DetailsModel::NoEntryPoints)
            == "No deadcode entry points were found in the project."@,
        wording(DetailsModel::SyntaxError(text)) == "Skipped '"@ + text
            + "' due to a syntax error."@,
        wording(DetailsModel::IoError(text)) == "Skipped '"@ + text + "' due to an I/O error."@,
{
}

/// After sorting, reports without a file come first, by message; then the others, by file and then
/// by message.
pub proof fn lemma_report_order(
    given: Seq<DiagnosticModel>,
    list: Seq<DiagnosticModel>,
    i: int,
    j: int,
)
    requires
        is_stable_sort(given, list),
        0 <= i < j < list.len(),
    ensures
        list[j].location is None ==> list[i].location is None,
        list[i].location is None && list[j].location is None ==> !text_precedes(
            wording(list[j].details),
            wording(list[i].details),
        ),
        list[i].location is Some && list[j].location is Some ==> !path_precedes(
            list[j].location->0.file,
            list[i].location->0.file,
        ),
        list[i].location is Some && list[j].location is Some && list[i].location->0.file
            == list[j].location->0.file ==> !text_precedes(
            wording(list[j].details),
            wording(list[i].details),
        ),
{
    assert(!comes_before(sort_id(list[j]), sort_id(list[i])));
}

} // verus!
