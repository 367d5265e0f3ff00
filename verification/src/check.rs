//! The dead code check of a project: files that no entry point reaches.

use crate::collections::{
    gathered, in_order, is_listed, lemma_gathered_empty, lemma_gathered_push, lemma_gathered_set,
    lemma_push_contains, lemma_to_set_push, strictly_sorted, union_over, views, SortedMap,
    SortedSet,
};
use crate::config::{rule_severity, ProjectConfig, Severity};
use crate::diagnostics::{
    diagnostic_models, global, is_stable_sort, sort_diagnostics, CodeDiagnostic,
    ConfigurationDiagnostic, DetailsModel, Diagnostic, DiagnosticDetails, DiagnosticModel,
    LocationModel,
};
use crate::graph::{
    live_files, modules_of, spellings_of, spells_paths, EntryModel, FileEntry, FileImportGraph, GraphModel,
};
use crate::imports::{
    find_member_file, find_module_file, member_file, module_file, IndexModel, ModuleIndex,
};
use crate::order::Ordered;
use crate::path::{extension, is_init, is_init_file, joined, normalized, FilePath};
use crate::settings::{
    chosen_detections, deadcode_exclude_paths, detections, effective_entry_points, exclusions,
    ignores_file, is_ignored, is_unchecked, is_unchecked_module, texts_of,
};
use crate::symbols::{any_failed, has_live_failure};
use crate::text::{parent_modules, parents, same_text, texts};
use vstd::prelude::*;

verus! {

/// Why a check could not be made.
#[derive(Debug)]
pub enum CheckError {
    InvalidDirectory(String),
    Filesystem(String),
    SourceRootResolution(String),
}

/// Why a file could not be parsed.
#[derive(Debug)]
pub enum ParsingError {
    PythonParse,
    InvalidSyntax,
    Io,
    Filesystem,
}

/// What came of reading a file.
#[derive(Debug)]
pub enum FileScan {
    ReadFailed,
    ParseFailed(ParsingError),
    /// The file was parsed, but its imports could not be told.
    ImportsFailed,
    /// The dotted paths that the file imports.
    Imports(Vec<String>),
}

/// What a file's imports are, or how it is reported as skipped.
pub enum ScanModel {
    Syntax,
    Io,
    Imports(Seq<Seq<char>>),
}

impl View for FileScan {
    type V = ScanModel;

    open spec fn view(&self) -> ScanModel {
        match *self {
            FileScan::ReadFailed => ScanModel::Io,
            FileScan::ParseFailed(error) => match error {
                ParsingError::PythonParse | ParsingError::InvalidSyntax => ScanModel::Syntax,
                ParsingError::Io | ParsingError::Filesystem => ScanModel::Io,
            },
            FileScan::ImportsFailed => ScanModel::Syntax,
            FileScan::Imports(imports) => ScanModel::Imports(texts(imports@)),
        }
    }
}

/// A file of the project and its module path.
#[derive(Debug)]
pub struct DeadcodeFile {
    pub file_path: FilePath,
    pub module: String,
}

/// A path and what is known of the file there.
pub type FileModel = (Seq<char>, EntryModel);

impl View for DeadcodeFile {
    type V = FileModel;

    open spec fn view(&self) -> FileModel {
        (
            self.file_path@,
            EntryModel { module: self.module@, spelling: self.file_path.spelling() },
        )
    }
}

impl DeadcodeFile {
    pub fn new(file_path: FilePath, module: String) -> (file: DeadcodeFile)
        ensures
            file@ == (
                file_path@,
                EntryModel { module: module@, spelling: file_path.spelling() },
            ),
    {
        DeadcodeFile { file_path, module }
    }
}

pub open spec fn file_models(files: Seq<DeadcodeFile>) -> Seq<FileModel> {
    files.map_values(|f: DeadcodeFile| f@)
}

/// A Python file below a source root, and the module path it has, if any.
#[derive(Debug)]
pub struct WalkedFile {
    pub file_path: FilePath,
    pub module: Option<String>,
}

/// The Python files below a source root.
#[derive(Debug)]
pub struct WalkedRoot {
    pub source_root: FilePath,
    pub files: Vec<WalkedFile>,
}

/// The files that entry points stand for, and the entry points that stand for none.
#[derive(Debug)]
pub struct ResolvedEntryPoints {
    pub files: Vec<FilePath>,
    pub unresolved: Vec<String>,
}

/// Files that depend on other files without importing them.
#[derive(Debug)]
pub struct ExtraDependency {
    pub sources: Vec<FilePath>,
    pub dependencies: Vec<FilePath>,
}

/// The files below one source root that have a module path.
pub open spec fn root_files(root: FilePath, files: Seq<WalkedFile>) -> Seq<FileModel>
    decreases files.len(),
{
    if files.len() == 0 {
        Seq::empty()
    } else {
        let before = root_files(root, files.drop_last());
        let spelling = joined(root.spelling(), files.last().file_path.spelling());
        match files.last().module {
            Some(module) => before.push(
                (normalized(spelling), EntryModel { module: module@, spelling }),
            ),
            None => before,
        }
    }
}

/// The files that have a module path, source root by source root.
pub open spec fn walked_files(walked: Seq<WalkedRoot>) -> Seq<FileModel>
    decreases walked.len(),
{
    if walked.len() == 0 {
        Seq::empty()
    } else {
        walked_files(walked.drop_last()) + root_files(
            walked.last().source_root,
            walked.last().files@,
        )
    }
}

/// The map of a list of bindings in which a key keeps its first value.
pub open spec fn bound_first<A, B>(bindings: Seq<(A, B)>) -> Map<A, B>
    decreases bindings.len(),
{
    if bindings.len() == 0 {
        Map::empty()
    } else {
        let before = bound_first(bindings.drop_last());
        if before.contains_key(bindings.last().0) {
            before
        } else {
            before.insert(bindings.last().0, bindings.last().1)
        }
    }
}

/// The files of a project, each as it was found first.
pub open spec fn project_entries(walked: Seq<WalkedRoot>) -> Map<Seq<char>, EntryModel> {
    bound_first(walked_files(walked))
}

/// The files of a project with their module paths.
pub open spec fn project_files(walked: Seq<WalkedRoot>) -> Map<Seq<char>, Seq<char>> {
    modules_of(project_entries(walked))
}

/// How the paths of a project's files are written.
pub open spec fn project_spellings(walked: Seq<WalkedRoot>) -> Map<Seq<char>, Seq<char>> {
    spellings_of(project_entries(walked))
}

/// The files of a map in the order of their paths.
pub open spec fn listing(entries: Map<Seq<char>, EntryModel>) -> Seq<FileModel> {
    in_order::<FilePath>(entries.dom()).map_values(|file: Seq<char>| (file, entries[file]))
}

fn add_root_files(walked: &WalkedRoot, found: &mut SortedMap<FilePath, FileEntry>, known: Ghost<
    Seq<FileModel>,
>)
    requires
        old(found)@ == bound_first(known@),
        spells_paths(old(found)@),
    ensures
        final(found)@ == bound_first(known@ + root_files(walked.source_root, walked.files@)),
        spells_paths(final(found)@),
{
    let ghost root = walked.source_root;
    let ghost files = walked.files@;
    let mut i: usize = 0;
    assert(known@ + root_files(root, files.take(0)) =~= known@);
    while i < walked.files.len()
        invariant
            i <= files.len(),
            root == walked.source_root,
            files == walked.files@,
            found@ == bound_first(known@ + root_files(root, files.take(i as int))),
            spells_paths(found@),
        decreases files.len() - i,
    {
        let ghost before = known@ + root_files(root, files.take(i as int));
        let ghost after = known@ + root_files(root, files.take(i + 1));
        let file = &walked.files[i];
        assert(files.take(i + 1).drop_last() =~= files.take(i as int));
        if let Some(module) = &file.module {
            let file_path = walked.source_root.join(&file.file_path);
            let entry = FileEntry {
                module: module.clone(),
                spelling: file_path.display().to_string(),
            };
            proof {
                assert(after =~= before.push((file_path@, entry@)));
                assert(after.drop_last() =~= before);
            }
            if !found.contains_key(&file_path) {
                found.insert(file_path, entry);
            }
        } else {
            assert(after =~= before);
        }
        i += 1;
    }
    assert(files.take(i as int) =~= files);
}

/// The files of the project in the order of their paths; a file found twice is listed as it was
/// found first.
pub fn collect_project_files(walked: &Vec<WalkedRoot>) -> (files: Vec<DeadcodeFile>)
    ensures
        file_models(files@) == listing(project_entries(walked@)),
        is_listed::<FilePath>(project_entries(walked@).dom()),
{
    let mut found: SortedMap<FilePath, FileEntry> = SortedMap::new();
    let mut i: usize = 0;
    while i < walked.len()
        invariant
            i <= walked@.len(),
            found@ == bound_first(walked_files(walked@.take(i as int))),
            spells_paths(found@),
        decreases walked@.len() - i,
    {
        assert(walked@.take(i + 1).drop_last() =~= walked@.take(i as int));
        add_root_files(&walked[i], &mut found, Ghost(walked_files(walked@.take(i as int))));
        i += 1;
    }
    assert(walked@.take(i as int) =~= walked@);
    let mut files: Vec<DeadcodeFile> = Vec::new();
    let n = found.len();
    let ghost list = in_order::<FilePath>(found@.dom());
    let mut k: usize = 0;
    while k < n
        invariant
            k <= n,
            n == list.len(),
            list == in_order::<FilePath>(found@.dom()),
            list.to_set() == found@.dom(),
            spells_paths(found@),
            files@.len() == k,
            forall|j: int| 0 <= j < k ==> (#[trigger] files@[j])@ == (list[j], found@[list[j]]),
        decreases n - k,
    {
        let entry = found.value_at(k);
        assert(list.to_set().contains(list[k as int]));
        assert(found@.contains_key(list[k as int]));
        files.push(DeadcodeFile::new(FilePath::new(entry.spelling.clone()), entry.module.clone()));
        k += 1;
    }
    assert(file_models(files@) =~= listing(found@));
    files
}

pub fn deadcode_entry_point_not_found_warning(entry_point: &str) -> (diagnostic: Diagnostic)
    ensures
        diagnostic@ == global(Severity::Warning, DetailsModel::EntryPointNotFound(entry_point@)),
{
    Diagnostic::new_global_warning(
        DiagnosticDetails::Configuration(
            ConfigurationDiagnostic::DeadcodeEntryPointNotFound {
                entry_point: entry_point.to_string(),
            },
        ),
    )
}

/// The report that a file with a syntax error was skipped.
pub open spec fn syntax_report(file: Seq<char>) -> DiagnosticModel {
    global(Severity::Error, DetailsModel::SyntaxError(file))
}

/// The report that an unreadable file was skipped.
pub open spec fn io_report(file: Seq<char>) -> DiagnosticModel {
    global(Severity::Warning, DetailsModel::IoError(file))
}

pub fn push_skipped_file_syntax_error(
    diagnostics: &mut Vec<Diagnostic>,
    parse_failures: &mut SortedSet<FilePath>,
    file_path: &FilePath,
)
    ensures
        diagnostic_models(final(diagnostics)@) == diagnostic_models(old(diagnostics)@).push(
            syntax_report(file_path.spelling()),
        ),
        final(parse_failures)@ == old(parse_failures)@.insert(file_path@),
{
    let ghost before = diagnostic_models(diagnostics@);
    parse_failures.insert(file_path.duplicate());
    diagnostics.push(
        Diagnostic::new_global_error(
            DiagnosticDetails::Configuration(
                ConfigurationDiagnostic::SkippedFileSyntaxError {
                    file_path: file_path.display().to_string(),
                },
            ),
        ),
    );
    assert(diagnostic_models(diagnostics@) =~= before.push(syntax_report(file_path.spelling())));
}

pub fn push_skipped_file_io_warning(
    diagnostics: &mut Vec<Diagnostic>,
    parse_failures: &mut SortedSet<FilePath>,
    file_path: &FilePath,
)
    ensures
        diagnostic_models(final(diagnostics)@) == diagnostic_models(old(diagnostics)@).push(
            io_report(file_path.spelling()),
        ),
        final(parse_failures)@ == old(parse_failures)@.insert(file_path@),
{
    let ghost before = diagnostic_models(diagnostics@);
    parse_failures.insert(file_path.duplicate());
    diagnostics.push(
        Diagnostic::new_global_warning(
            DiagnosticDetails::Configuration(
                ConfigurationDiagnostic::SkippedFileIoError { file_path: file_path.display().to_string() },
            ),
        ),
    );
    assert(diagnostic_models(diagnostics@) =~= before.push(io_report(file_path.spelling())));
}

/// Whether `file` is the `__init__.py`, and a file of the project, of a package that encloses
/// `module`.
pub open spec fn is_parent_package(
    index: IndexModel,
    files: Map<Seq<char>, Seq<char>>,
    module: Seq<char>,
    file: Seq<char>,
) -> bool {
    exists|j: int|
        0 <= j < parents(module).len() && module_file(index, #[trigger] parents(module)[j]) == Some(
            file,
        ) && is_init(file) && files.contains_key(file)
}

/// The `__init__.py` files of the project for the packages that enclose a module.
pub fn parent_packages(graph: &FileImportGraph, index: &ModuleIndex, module: &str) -> (packages:
    SortedSet<FilePath>)
    ensures
        forall|file: Seq<char>| #[trigger]
            packages@.contains(file) <==> is_parent_package(
                index@,
                graph@.files,
                module@,
                file,
            ),
{
    let modules = parent_modules(module);
    let ghost list = parents(module@);
    let mut packages: SortedSet<FilePath> = SortedSet::new();
    let mut i: usize = 0;
    while i < modules.len()
        invariant
            i <= modules@.len(),
            list == parents(module@),
            texts(modules@) == list,
            forall|file: Seq<char>| #[trigger]
                packages@.contains(file) <==> exists|j: int|
                    0 <= j < i && module_file(index@, #[trigger] list[j]) == Some(file) && is_init(
                        file,
                    ) && graph@.files.contains_key(file),
        decreases modules@.len() - i,
    {
        let ghost before = packages@;
        assert(list[i as int] == modules@[i as int]@);
        if let Some(package) = find_module_file(index, &modules[i]) {
            if is_init_file(package) && graph.has_file(package) {
                packages.insert(package.duplicate());
            }
        }
        proof {
            let m = list[i as int];
            let fits = |file: Seq<char>|
                module_file(index@, m) == Some(file) && is_init(file) && graph@.files.contains_key(
                    file,
                );
            assert forall|file: Seq<char>| #[trigger] packages@.contains(file) <==> exists|j: int|
                0 <= j < i + 1 && module_file(index@, #[trigger] list[j]) == Some(file) && is_init(
                    file,
                ) && graph@.files.contains_key(file) by {
                assert(packages@.contains(file) <==> before.contains(file) || fits(file));
            }
        }
        i += 1;
    }
    packages
}

/// Whether `file` is a root of the search: an entry file of the project, or the `__init__.py` of a
/// package around one.
pub open spec fn is_entry_root(
    index: IndexModel,
    files: Map<Seq<char>, Seq<char>>,
    entry_files: Seq<Seq<char>>,
    file: Seq<char>,
) -> bool {
    exists|j: int|
        0 <= j < entry_files.len() && files.contains_key(#[trigger] entry_files[j]) && (file
            == entry_files[j] || is_parent_package(index, files, files[entry_files[j]], file))
}

/// The roots of the search for live files.
pub open spec fn entry_roots(
    index: IndexModel,
    files: Map<Seq<char>, Seq<char>>,
    entry_files: Seq<Seq<char>>,
) -> Set<Seq<char>> {
    Set::new(|file: Seq<char>| is_entry_root(index, files, entry_files, file))
}

/// Adds the members of `more`.
fn extend_paths(paths: &mut SortedSet<FilePath>, more: &SortedSet<FilePath>)
    ensures
        final(paths)@ == old(paths)@.union(more@),
{
    let ghost start = paths@;
    let n = more.len();
    let ghost list = in_order::<FilePath>(more@);
    let mut i: usize = 0;
    assert(paths@ =~= start.union(list.take(0).to_set()));
    while i < n
        invariant
            i <= n,
            n == list.len(),
            list == in_order::<FilePath>(more@),
            paths@ == start.union(list.take(i as int).to_set()),
        decreases n - i,
    {
        paths.insert(more.at(i).duplicate());
        proof {
            assert(list.take(i + 1) =~= list.take(i as int).push(list[i as int]));
            lemma_to_set_push(list.take(i as int), list[i as int]);
            assert(paths@ =~= start.union(list.take(i + 1).to_set()));
        }
        i += 1;
    }
    assert(list.take(i as int) =~= list);
}

/// The entry files of the project and the `__init__.py` files of the packages around them, in
/// the order of their paths.
fn expand_entry_file_roots(
    graph: &FileImportGraph,
    index: &ModuleIndex,
    entry_files: &Vec<FilePath>,
) -> (roots: Vec<FilePath>)
    ensures
        views(roots@) == in_order::<FilePath>(
            entry_roots(index@, graph@.files, views(entry_files@)),
        ),
        is_listed::<FilePath>(entry_roots(index@, graph@.files, views(entry_files@))),
{
    let ghost list = views(entry_files@);
    let ghost files = graph@.files;
    let mut roots: SortedSet<FilePath> = SortedSet::new();
    let mut i: usize = 0;
    assert(roots@ =~= entry_roots(index@, files, list.take(0)));
    while i < entry_files.len()
        invariant
            i <= entry_files@.len(),
            list == views(entry_files@),
            files == graph@.files,
            roots@ == entry_roots(index@, files, list.take(i as int)),
        decreases entry_files@.len() - i,
    {
        let ghost before = roots@;
        let ghost seen = list.take(i as int);
        let ghost more = list.take(i + 1);
        let entry_file = &entry_files[i];
        if let Some(module) = graph.module_of(entry_file) {
            roots.insert(entry_file.duplicate());
            let packages = parent_packages(graph, index, module.as_str());
            extend_paths(&mut roots, &packages);
            assert(forall|file: Seq<char>| #[trigger]
                roots@.contains(file) <==> before.contains(file) || file == entry_file@
                    || is_parent_package(index@, files, files[entry_file@], file));
        }
        proof {
            assert(more[i as int] == entry_file@);
            assert forall|file: Seq<char>| #[trigger] roots@.contains(file) <==> is_entry_root(
                index@,
                files,
                more,
                file,
            ) by {
                if before.contains(file) {
                    let j = choose|j: int|
                        0 <= j < seen.len() && files.contains_key(#[trigger] seen[j]) && (file
                            == seen[j] || is_parent_package(index@, files, files[seen[j]], file));
                    assert(more[j] == seen[j]);
                }
                if is_entry_root(index@, files, more, file) {
                    let j = choose|j: int|
                        0 <= j < more.len() && files.contains_key(#[trigger] more[j]) && (file
                            == more[j] || is_parent_package(index@, files, files[more[j]], file));
                    if j < i {
                        assert(seen[j] == more[j]);
                        assert(is_entry_root(index@, files, seen, file));
                    }
                }
            }
            assert(roots@ =~= entry_roots(index@, files, more));
        }
        i += 1;
    }
    assert(list.take(i as int) =~= list);
    roots.to_list()
}

/// The imports that follow from a file importing `module`, which `imported` holds: of `imported`
/// itself, where it is a file of the project, and then of the packages around `module`.
pub open spec fn import_edges(
    index: IndexModel,
    files: Map<Seq<char>, Seq<char>>,
    from: Seq<char>,
    module: Seq<char>,
    imported: Seq<char>,
) -> Set<(Seq<char>, Seq<char>)> {
    Set::new(
        |e: (Seq<char>, Seq<char>)|
            e.0 == from && files.contains_key(imported) && (e.1 == imported || is_parent_package(
                index,
                files,
                module,
                e.1,
            )),
    )
}

/// Connects a file to each of the given ones.
fn add_imports(graph: &mut FileImportGraph, from: &FilePath, targets: &SortedSet<FilePath>)
    ensures
        final(graph)@.files == old(graph)@.files,
        final(graph)@.spellings == old(graph)@.spellings,
        final(graph)@.imports == old(graph)@.imports.union(
            Set::new(|e: (Seq<char>, Seq<char>)| e.0 == from@ && targets@.contains(e.1)),
        ),
{
    let ghost start = graph@;
    let n = targets.len();
    let ghost list = in_order::<FilePath>(targets@);
    let mut i: usize = 0;
    while i < n
        invariant
            i <= n,
            n == list.len(),
            list == in_order::<FilePath>(targets@),
            graph@.files == start.files,
            graph@.spellings == start.spellings,
            forall|e: (Seq<char>, Seq<char>)| #[trigger]
                graph@.imports.contains(e) <==> start.imports.contains(e) || (e.0 == from@
                    && list.take(i as int).contains(e.1)),
        decreases n - i,
    {
        graph.add_import(from, targets.at(i));
        proof {
            assert(list.take(i + 1) =~= list.take(i as int).push(list[i as int]));
            lemma_push_contains(list.take(i as int), list[i as int]);
        }
        i += 1;
    }
    assert(list.take(i as int) =~= list);
    assert forall|e: (Seq<char>, Seq<char>)| #[trigger]
        graph@.imports.contains(e) <==> start.imports.contains(e) || (e.0 == from@
            && targets@.contains(e.1)) by {
        assert(list.contains(e.1) <==> list.to_set().contains(e.1));
    }
    assert(graph@.imports =~= start.imports.union(
        Set::new(|e: (Seq<char>, Seq<char>)| e.0 == from@ && targets@.contains(e.1)),
    ));
}

/// Records an import of `imported_module`, held by `imported_file`, and of the packages around it.
pub fn add_import_edges(
    graph: &mut FileImportGraph,
    index: &ModuleIndex,
    from: &FilePath,
    imported_module: &str,
    imported_file: &FilePath,
)
    ensures
        final(graph)@ == (GraphModel {
            imports: old(graph)@.imports.union(
                import_edges(
                    index@,
                    old(graph)@.files,
                    from@,
                    imported_module@,
                    imported_file@,
                ),
            ),
            ..old(graph)@
        }),
{
    let ghost start = graph@;
    if graph.has_file(imported_file) {
        let packages = parent_packages(graph, index, imported_module);
        graph.add_import(from, imported_file);
        add_imports(graph, from, &packages);
    }
    assert(graph@.imports =~= start.imports.union(
        import_edges(index@, start.files, from@, imported_module@, imported_file@),
    ));
}

/// The imports that follow from a file importing the dotted path `path`: none unless it leads to
/// a Python file.
pub open spec fn path_edges(
    index: IndexModel,
    files: Map<Seq<char>, Seq<char>>,
    from: Seq<char>,
    path: Seq<char>,
) -> Set<(Seq<char>, Seq<char>)> {
    match member_file(index, path) {
        Some(resolved) => if extension(resolved.file) == Some("py"@) {
            import_edges(index, files, from, path, resolved.file)
        } else {
            Set::empty()
        },
        None => Set::empty(),
    }
}

/// The imports that follow from a file importing the given dotted paths.
pub open spec fn file_edges(
    index: IndexModel,
    files: Map<Seq<char>, Seq<char>>,
    from: Seq<char>,
    paths: Seq<Seq<char>>,
) -> Set<(Seq<char>, Seq<char>)> {
    gathered(
        paths,
        |path: Seq<char>, e: (Seq<char>, Seq<char>)| path_edges(index, files, from, path).contains(e),
    )
}

/// Records what a file imports.
pub fn add_file_imports(
    graph: &mut FileImportGraph,
    index: &ModuleIndex,
    from: &FilePath,
    paths: &Vec<String>,
)
    ensures
        final(graph)@ == (GraphModel {
            imports: old(graph)@.imports.union(
                file_edges(index@, old(graph)@.files, from@, texts(paths@)),
            ),
            ..old(graph)@
        }),
{
    let ghost start = graph@;
    let ghost list = texts(paths@);
    let ghost gives = |path: Seq<char>, e: (Seq<char>, Seq<char>)|
        path_edges(index@, start.files, from@, path).contains(e);
    let mut i: usize = 0;
    proof {
        lemma_gathered_empty(gives);
        assert(list.take(0) =~= Seq::empty());
        assert(graph@.imports =~= start.imports.union(gathered(list.take(0), gives)));
    }
    while i < paths.len()
        invariant
            i <= paths@.len(),
            list == texts(paths@),
            gives == (|path: Seq<char>, e: (Seq<char>, Seq<char>)|
                path_edges(index@, start.files, from@, path).contains(e)),
            graph@.files == start.files,
            graph@.spellings == start.spellings,
            graph@.imports == start.imports.union(gathered(list.take(i as int), gives)),
        decreases paths@.len() - i,
    {
        let ghost before = graph@.imports;
        if let Some(resolved) = find_member_file(index, &paths[i]) {
            if let Some(ext) = resolved.file_path.extension() {
                if same_text(ext, "py") {
                    add_import_edges(graph, index, from, paths[i].as_str(), &resolved.file_path);
                }
            }
        }
        proof {
            let path = list[i as int];
            assert(list.take(i + 1) =~= list.take(i as int).push(path));
            lemma_gathered_push(list.take(i as int), path, gives);
            assert(graph@.imports =~= before.union(path_edges(index@, start.files, from@, path)));
            assert(Set::new(|e: (Seq<char>, Seq<char>)| gives(path, e)) =~= path_edges(
                index@,
                start.files,
                from@,
                path,
            ));
            assert(graph@.imports =~= start.imports.union(gathered(list.take(i + 1), gives)));
        }
        i += 1;
    }
    assert(list.take(i as int) =~= list);
}

/// Whether some listed dependency leads from the one file to the other, both of the project.
pub open spec fn is_extra_edge(
    extra: Seq<ExtraDependency>,
    files: Map<Seq<char>, Seq<char>>,
    from: Seq<char>,
    to: Seq<char>,
) -> bool {
    files.contains_key(from) && files.contains_key(to) && exists|i: int|
        0 <= i < extra.len() && views((#[trigger] extra[i]).sources@).contains(from) && views(
            extra[i].dependencies@,
        ).contains(to)
}

/// Connects `from` to those of the given files that the graph has.
fn add_dependencies(graph: &mut FileImportGraph, from: &FilePath, targets: &Vec<FilePath>)
    ensures
        final(graph)@.files == old(graph)@.files,
        final(graph)@.spellings == old(graph)@.spellings,
        forall|e: (Seq<char>, Seq<char>)| #[trigger]
            final(graph)@.imports.contains(e) <==> old(graph)@.imports.contains(e) || (e.0 == from@
                && views(targets@).contains(e.1) && old(graph)@.files.contains_key(e.1)),
{
    let ghost start = graph@;
    let ghost list = views(targets@);
    let mut i: usize = 0;
    while i < targets.len()
        invariant
            i <= targets@.len(),
            list == views(targets@),
            graph@.files == start.files,
            graph@.spellings == start.spellings,
            forall|e: (Seq<char>, Seq<char>)| #[trigger]
                graph@.imports.contains(e) <==> start.imports.contains(e) || (e.0 == from@
                    && list.take(i as int).contains(e.1) && start.files.contains_key(e.1)),
        decreases targets@.len() - i,
    {
        if graph.has_file(&targets[i]) {
            graph.add_import(from, &targets[i]);
        }
        proof {
            assert(list.take(i + 1) =~= list.take(i as int).push(list[i as int]));
            lemma_push_contains(list.take(i as int), list[i as int]);
        }
        i += 1;
    }
    assert(list.take(i as int) =~= list);
}

/// Connects those of the source files that the graph has to those of the dependencies that it has.
fn add_dependency(graph: &mut FileImportGraph, extra: &ExtraDependency)
    ensures
        final(graph)@.files == old(graph)@.files,
        final(graph)@.spellings == old(graph)@.spellings,
        forall|e: (Seq<char>, Seq<char>)| #[trigger]
            final(graph)@.imports.contains(e) <==> old(graph)@.imports.contains(e) || (views(
                extra.sources@,
            ).contains(e.0) && old(graph)@.files.contains_key(e.0) && views(
                extra.dependencies@,
            ).contains(e.1) && old(graph)@.files.contains_key(e.1)),
{
    let ghost start = graph@;
    let ghost list = views(extra.sources@);
    let mut i: usize = 0;
    while i < extra.sources.len()
        invariant
            i <= extra.sources@.len(),
            list == views(extra.sources@),
            graph@.files == start.files,
            graph@.spellings == start.spellings,
            forall|e: (Seq<char>, Seq<char>)| #[trigger]
                graph@.imports.contains(e) <==> start.imports.contains(e) || (list.take(
                    i as int,
                ).contains(e.0) && start.files.contains_key(e.0) && views(
                    extra.dependencies@,
                ).contains(e.1) && start.files.contains_key(e.1)),
        decreases extra.sources@.len() - i,
    {
        if graph.has_file(&extra.sources[i]) {
            add_dependencies(graph, &extra.sources[i], &extra.dependencies);
        }
        proof {
            assert(list.take(i + 1) =~= list.take(i as int).push(list[i as int]));
            lemma_push_contains(list.take(i as int), list[i as int]);
        }
        i += 1;
    }
    assert(list.take(i as int) =~= list);
}

/// Records the dependencies that are not imports.
pub fn add_extra_dependency_edges(graph: &mut FileImportGraph, extra: &Vec<ExtraDependency>)
    ensures
        final(graph)@ == (GraphModel {
            imports: old(graph)@.imports.union(
                Set::new(
                    |e: (Seq<char>, Seq<char>)|
                        is_extra_edge(extra@, old(graph)@.files, e.0, e.1),
                ),
            ),
            ..old(graph)@
        }),
{
    let ghost start = graph@;
    let mut i: usize = 0;
    while i < extra.len()
        invariant
            i <= extra@.len(),
            graph@.files == start.files,
            graph@.spellings == start.spellings,
            forall|e: (Seq<char>, Seq<char>)| #[trigger]
                graph@.imports.contains(e) <==> start.imports.contains(e) || is_extra_edge(
                    extra@.take(i as int),
                    start.files,
                    e.0,
                    e.1,
                ),
        decreases extra@.len() - i,
    {
        let ghost before = graph@.imports;
        let ghost seen = extra@.take(i as int);
        let ghost more = extra@.take(i + 1);
        add_dependency(graph, &extra[i]);
        proof {
            assert(more[i as int] == extra@[i as int]);
            assert forall|e: (Seq<char>, Seq<char>)| #[trigger]
                graph@.imports.contains(e) <==> start.imports.contains(e) || is_extra_edge(
                    more,
                    start.files,
                    e.0,
                    e.1,
                ) by {
                assert(before.contains(e) <==> start.imports.contains(e) || is_extra_edge(
                    seen,
                    start.files,
                    e.0,
                    e.1,
                ));
                if is_extra_edge(seen, start.files, e.0, e.1) {
                    let j = choose|j: int|
                        0 <= j < seen.len() && views((#[trigger] seen[j]).sources@).contains(e.0)
                            && views(seen[j].dependencies@).contains(e.1);
                    assert(more[j] == seen[j]);
                }
                if is_extra_edge(more, start.files, e.0, e.1) {
                    let j = choose|j: int|
                        0 <= j < more.len() && views((#[trigger] more[j]).sources@).contains(e.0)
                            && views(more[j].dependencies@).contains(e.1);
                    if j < i {
                        assert(seen[j] == more[j]);
                    }
                }
            }
        }
        i += 1;
    }
    assert(extra@.take(i as int) =~= extra@);
    assert(graph@.imports =~= start.imports.union(
        Set::new(|e: (Seq<char>, Seq<char>)| is_extra_edge(extra@, start.files, e.0, e.1)),
    ));
}

/// What came of reading a file; one that was not read counts as unreadable.
pub open spec fn scan_of(outcomes: Map<Seq<char>, ScanModel>, file: Seq<char>) -> ScanModel {
    if outcomes.contains_key(file) {
        outcomes[file]
    } else {
        ScanModel::Io
    }
}

/// The reports of the skipped ones among the given files, in their order.
pub open spec fn skip_reports(
    outcomes: Map<Seq<char>, ScanModel>,
    spellings: Map<Seq<char>, Seq<char>>,
    files: Seq<Seq<char>>,
) -> Seq<DiagnosticModel>
    decreases files.len(),
{
    if files.len() == 0 {
        Seq::empty()
    } else {
        let before = skip_reports(outcomes, spellings, files.drop_last());
        let file = files.last();
        match scan_of(outcomes, file) {
            ScanModel::Syntax => before.push(syntax_report(spellings[file])),
            ScanModel::Io => before.push(io_report(spellings[file])),
            ScanModel::Imports(_) => before,
        }
    }
}

/// Whether a file was skipped.
pub open spec fn is_skipped(outcomes: Map<Seq<char>, ScanModel>, file: Seq<char>) -> bool {
    !(scan_of(outcomes, file) is Imports)
}

/// The skipped ones among the given files.
pub open spec fn skipped_files(
    outcomes: Map<Seq<char>, ScanModel>,
    files: Set<Seq<char>>,
) -> Set<Seq<char>> {
    Set::new(|file: Seq<char>| files.contains(file) && is_skipped(outcomes, file))
}

/// The imports of one file, if it was not skipped.
pub open spec fn scan_edges(
    index: IndexModel,
    files: Map<Seq<char>, Seq<char>>,
    outcomes: Map<Seq<char>, ScanModel>,
) -> spec_fn(Seq<char>, (Seq<char>, Seq<char>)) -> bool {
    |file: Seq<char>, e: (Seq<char>, Seq<char>)|
        match scan_of(outcomes, file) {
            ScanModel::Imports(paths) => file_edges(index, files, file, paths).contains(e),
            _ => false,
        }
}

/// Handles one file: records its imports, or reports it as skipped.
fn scan_file(
    file_path: &FilePath,
    outcomes: &SortedMap<FilePath, FileScan>,
    index: &ModuleIndex,
    graph: &mut FileImportGraph,
    diagnostics: &mut Vec<Diagnostic>,
    parse_failures: &mut SortedSet<FilePath>,
)
    ensures
        final(graph)@.files == old(graph)@.files,
        final(graph)@.spellings == old(graph)@.spellings,
        final(graph)@.imports == old(graph)@.imports.union(
            Set::new(
                |e: (Seq<char>, Seq<char>)|
                    scan_edges(index@, old(graph)@.files, outcomes@)(file_path@, e),
            ),
        ),
        diagnostic_models(final(diagnostics)@) == diagnostic_models(old(diagnostics)@) + (
        match scan_of(outcomes@, file_path@) {
            ScanModel::Syntax => seq![syntax_report(file_path.spelling())],
            ScanModel::Io => seq![io_report(file_path.spelling())],
            ScanModel::Imports(_) => Seq::empty(),
        }),
        final(parse_failures)@ == if is_skipped(outcomes@, file_path@) {
            old(parse_failures)@.insert(file_path@)
        } else {
            old(parse_failures)@
        },
{
    let ghost start = graph@;
    let ghost reports = diagnostic_models(diagnostics@);
    match outcomes.get(file_path) {
        None | Some(FileScan::ReadFailed) => {
            push_skipped_file_io_warning(diagnostics, parse_failures, file_path);
        },
        Some(FileScan::ParseFailed(error)) => match error {
            ParsingError::PythonParse | ParsingError::InvalidSyntax => {
                push_skipped_file_syntax_error(diagnostics, parse_failures, file_path);
            },
            ParsingError::Io | ParsingError::Filesystem => {
                push_skipped_file_io_warning(diagnostics, parse_failures, file_path);
            },
        },
        Some(FileScan::ImportsFailed) => {
            push_skipped_file_syntax_error(diagnostics, parse_failures, file_path);
        },
        Some(FileScan::Imports(paths)) => {
            add_file_imports(graph, index, file_path, paths);
        },
    }
    proof {
        let added = Set::new(
            |e: (Seq<char>, Seq<char>)|
                scan_edges(index@, start.files, outcomes@)(file_path@, e),
        );
        assert(graph@.imports =~= start.imports.union(added));
        assert(diagnostic_models(diagnostics@) =~= reports + (match scan_of(
            outcomes@,
            file_path@,
        ) {
            ScanModel::Syntax => seq![syntax_report(file_path.spelling())],
            ScanModel::Io => seq![io_report(file_path.spelling())],
            ScanModel::Imports(_) => Seq::empty(),
        }));
    }
}

/// The paths in a listing.
pub open spec fn listed_paths(files: Seq<DeadcodeFile>) -> Seq<Seq<char>> {
    files.map_values(|f: DeadcodeFile| f.file_path@)
}

/// Handles the files one by one: records their imports, and reports those that are skipped.
fn scan_files(
    files: &Vec<DeadcodeFile>,
    outcomes: &SortedMap<FilePath, FileScan>,
    index: &ModuleIndex,
    graph: &mut FileImportGraph,
    diagnostics: &mut Vec<Diagnostic>,
    parse_failures: &mut SortedSet<FilePath>,
)
    requires
        forall|i: int|
            0 <= i < files@.len() ==> old(graph)@.spellings[(#[trigger] files@[i]).file_path@]
                == files@[i].file_path.spelling(),
    ensures
        final(graph)@.files == old(graph)@.files,
        final(graph)@.spellings == old(graph)@.spellings,
        final(graph)@.imports == old(graph)@.imports.union(
            gathered(
                listed_paths(files@),
                scan_edges(index@, old(graph)@.files, outcomes@),
            ),
        ),
        diagnostic_models(final(diagnostics)@) == diagnostic_models(old(diagnostics)@)
            + skip_reports(outcomes@, old(graph)@.spellings, listed_paths(files@)),
        final(parse_failures)@ == old(parse_failures)@.union(
            skipped_files(outcomes@, listed_paths(files@).to_set()),
        ),
{
    let ghost start = graph@;
    let ghost reports = diagnostic_models(diagnostics@);
    let ghost failures = parse_failures@;
    let ghost list = listed_paths(files@);
    let ghost gives = scan_edges(index@, start.files, outcomes@);
    let mut i: usize = 0;
    proof {
        lemma_gathered_empty(gives);
        assert(list.take(0) =~= Seq::empty());
        assert(graph@.imports =~= start.imports.union(gathered(list.take(0), gives)));
        assert(diagnostic_models(diagnostics@) =~= reports + skip_reports(
            outcomes@,
            start.spellings,
            list.take(0),
        ));
        assert(parse_failures@ =~= failures.union(
            skipped_files(outcomes@, list.take(0).to_set()),
        ));
    }
    while i < files.len()
        invariant
            i <= files@.len(),
            list == listed_paths(files@),
            forall|j: int|
                0 <= j < files@.len() ==> start.spellings[(#[trigger] files@[j]).file_path@]
                    == files@[j].file_path.spelling(),
            gives == scan_edges(index@, start.files, outcomes@),
            graph@.files == start.files,
            graph@.spellings == start.spellings,
            graph@.imports == start.imports.union(gathered(list.take(i as int), gives)),
            diagnostic_models(diagnostics@) == reports + skip_reports(
                outcomes@,
                start.spellings,
                list.take(i as int),
            ),
            parse_failures@ == failures.union(
                skipped_files(outcomes@, list.take(i as int).to_set()),
            ),
        decreases files@.len() - i,
    {
        let ghost seen = list.take(i as int);
        let ghost more = list.take(i + 1);
        let ghost path = list[i as int];
        scan_file(
            &files[i].file_path,
            outcomes,
            index,
            graph,
            diagnostics,
            parse_failures,
        );
        proof {
            assert(more =~= seen.push(path));
            assert(more.drop_last() =~= seen);
            lemma_gathered_push(seen, path, gives);
            lemma_to_set_push(seen, path);
            assert(graph@.imports =~= start.imports.union(gathered(more, gives)));
            assert(diagnostic_models(diagnostics@) =~= reports + skip_reports(
                outcomes@,
                start.spellings,
                more,
            ));
            assert(parse_failures@ =~= failures.union(skipped_files(outcomes@, more.to_set())));
        }
        i += 1;
    }
    assert(list.take(i as int) =~= list);
}

/// Whether a file is reported as dead: it is not live, was not skipped, is no protected
/// `__init__.py`, and neither an ignore rule nor an unchecked module leaves it out.
pub open spec fn is_dead_file(
    config: ProjectConfig,
    root: Seq<char>,
    source_roots: Seq<Seq<char>>,
    graph: GraphModel,
    live: Set<Seq<char>>,
    failures: Set<Seq<char>>,
    file: Seq<char>,
) -> bool {
    &&& graph.files.contains_key(file)
    &&& !live.contains(file)
    &&& !failures.contains(file)
    &&& !(config.deadcode.protect_init_files && is_init(file))
    &&& !is_ignored(
        texts(config.deadcode.ignore@),
        root,
        source_roots,
        file,
        graph.spellings[file],
        Some(graph.files[file]),
    )
    &&& !is_unchecked(config.modules@, graph.files[file])
}

/// Which files are reported as dead.
pub open spec fn dead_test(
    config: ProjectConfig,
    root: Seq<char>,
    source_roots: Seq<Seq<char>>,
    graph: GraphModel,
    live: Set<Seq<char>>,
    failures: Set<Seq<char>>,
) -> spec_fn(Seq<char>) -> bool {
    |file: Seq<char>| is_dead_file(config, root, source_roots, graph, live, failures, file)
}

/// The report of a dead file, at its first line, with its path as the graph writes it.
pub open spec fn dead_file_report(
    severity: Severity,
    graph: GraphModel,
    file: Seq<char>,
) -> DiagnosticModel {
    DiagnosticModel {
        severity,
        details: DetailsModel::DeadFile(graph.files[file]),
        location: Some(
            LocationModel {
                file,
                spelling: graph.spellings[file],
                line: 1,
                original_line: None,
            },
        ),
    }
}

/// The reports of the dead ones among the given files, in their order.
pub open spec fn dead_reports(
    severity: Severity,
    graph: GraphModel,
    dead: spec_fn(Seq<char>) -> bool,
    files: Seq<Seq<char>>,
) -> Seq<DiagnosticModel>
    decreases files.len(),
{
    if files.len() == 0 {
        Seq::empty()
    } else {
        let before = dead_reports(severity, graph, dead, files.drop_last());
        if dead(files.last()) {
            before.push(dead_file_report(severity, graph, files.last()))
        } else {
            before
        }
    }
}

/// The reports of dead files: none where the rule is off, or where a live file was skipped, as
/// what it imports is unknown.
pub open spec fn dead_file_reports(
    config: ProjectConfig,
    root: Seq<char>,
    source_roots: Seq<Seq<char>>,
    graph: GraphModel,
    roots: Set<Seq<char>>,
    failures: Set<Seq<char>>,
) -> Seq<DiagnosticModel> {
    match rule_severity(config.deadcode.severity) {
        Some(severity) => if has_live_failure(graph, roots, failures) {
            Seq::empty()
        } else {
            dead_reports(
                severity,
                graph,
                dead_test(config, root, source_roots, graph, live_files(graph, roots), failures),
                in_order::<FilePath>(graph.files.dom()),
            )
        },
        None => Seq::empty(),
    }
}

fn file_is_dead(
    project_config: &ProjectConfig,
    project_root: &FilePath,
    source_roots: &Vec<FilePath>,
    graph: &FileImportGraph,
    live: &SortedSet<FilePath>,
    parse_failures: &SortedSet<FilePath>,
    file: &FilePath,
) -> (yes: bool)
    ensures
        yes == is_dead_file(
            *project_config,
            project_root@,
            views(source_roots@),
            graph@,
            live@,
            parse_failures@,
            file@,
        ),
{
    if live.contains(file) || parse_failures.contains(file) {
        return false;
    }
    if project_config.deadcode.protect_init_files && is_init_file(file) {
        return false;
    }
    match graph.entry_of(file) {
        Some(entry) => !ignores_file(
            &project_config.deadcode.ignore,
            project_root,
            source_roots,
            file,
            entry.spelling.as_str(),
            Some(entry.module.as_str()),
        ) && !is_unchecked_module(project_config, entry.module.as_str()),
        None => false,
    }
}

/// Reports the dead files.
pub fn emit_dead_file_diagnostics(
    diagnostics: &mut Vec<Diagnostic>,
    project_config: &ProjectConfig,
    project_root: &FilePath,
    source_roots: &Vec<FilePath>,
    graph: &FileImportGraph,
    entry_file_roots: &Vec<FilePath>,
    parse_failures: &SortedSet<FilePath>,
)
    ensures
        diagnostic_models(final(diagnostics)@) == diagnostic_models(old(diagnostics)@)
            + dead_file_reports(
            *project_config,
            project_root@,
            views(source_roots@),
            graph@,
            views(entry_file_roots@).to_set(),
            parse_failures@,
        ),
{
    let ghost start = diagnostic_models(diagnostics@);
    let severity = match project_config.deadcode.severity.severity() {
        Some(severity) => severity,
        None => {
            assert(start =~= start + Seq::<DiagnosticModel>::empty());
            return;
        },
    };
    let live = graph.reachable_from(entry_file_roots);
    if any_failed(parse_failures, &live) {
        assert(start =~= start + Seq::<DiagnosticModel>::empty());
        return;
    }
    let n = graph.file_count();
    let ghost list = in_order::<FilePath>(graph@.files.dom());
    let ghost dead = dead_test(
        *project_config,
        project_root@,
        views(source_roots@),
        graph@,
        live@,
        parse_failures@,
    );
    let mut i: usize = 0;
    assert(diagnostic_models(diagnostics@) =~= start + dead_reports(
        severity,
        graph@,
        dead,
        list.take(0),
    ));
    while i < n
        invariant
            i <= n,
            n == list.len(),
            list == in_order::<FilePath>(graph@.files.dom()),
            dead == dead_test(
                *project_config,
                project_root@,
                views(source_roots@),
                graph@,
                live@,
                parse_failures@,
            ),
            diagnostic_models(diagnostics@) == start + dead_reports(
                severity,
                graph@,
                dead,
                list.take(i as int),
            ),
        decreases n - i,
    {
        let ghost before = diagnostic_models(diagnostics@);
        let file = graph.file_at(i);
        assert(list.take(i + 1).drop_last() =~= list.take(i as int));
        if file_is_dead(
            project_config,
            project_root,
            source_roots,
            graph,
            &live,
            parse_failures,
            file,
        ) {
            if let Some(entry) = graph.entry_of(file) {
                diagnostics.push(
                    Diagnostic::new_located(
                        severity,
                        DiagnosticDetails::Code(
                            CodeDiagnostic::DeadFile { module: entry.module.clone() },
                        ),
                        FilePath::new(entry.spelling.clone()),
                        1,
                        None,
                    ),
                );
                assert(diagnostic_models(diagnostics@) =~= before.push(
                    dead_file_report(severity, graph@, file@),
                ));
            }
        }
        assert(diagnostic_models(diagnostics@) =~= start + dead_reports(
            severity,
            graph@,
            dead,
            list.take(i + 1),
        ));
        i += 1;
    }
    assert(list.take(i as int) =~= list);
}

/// What a check needs to know before the project is read.
#[derive(Debug)]
pub struct CheckPlan {
    pub detect_files: bool,
    pub detect_symbols: bool,
    /// The paths that are not walked.
    pub exclude_paths: Vec<String>,
    /// The entry points to resolve.
    pub entry_points: Vec<String>,
}

/// Decides whether there is anything to check and what to read for it. A project root that is no
/// directory is an error.
pub fn plan_check(
    project_root: &str,
    root_is_directory: bool,
    project_config: &ProjectConfig,
    entry_points: Option<Vec<String>>,
    files: bool,
    symbols: bool,
    default_exclude_paths: &Vec<String>,
) -> (plan: Result<Option<CheckPlan>, CheckError>)
    ensures
        match plan {
            Err(error) => !root_is_directory && (error matches CheckError::InvalidDirectory(text)
                && text@ == project_root@),
            Ok(None) => root_is_directory && detections(*project_config, files, symbols) == (
                false,
                false,
            ),
            Ok(Some(plan)) => {
                &&& root_is_directory
                &&& detections(*project_config, files, symbols) == (
                    plan.detect_files,
                    plan.detect_symbols,
                )
                &&& plan.detect_files || plan.detect_symbols
                &&& texts(plan.exclude_paths@) == exclusions(
                    *project_config,
                    texts(default_exclude_paths@),
                )
                &&& texts(plan.entry_points@) == texts(project_config.deadcode.entry_points@)
                    + texts_of(entry_points)
            },
        },
{
    if !root_is_directory {
        return Err(CheckError::InvalidDirectory(project_root.to_string()));
    }
    let (detect_files, detect_symbols) = chosen_detections(project_config, files, symbols);
    if !detect_files && !detect_symbols {
        return Ok(None);
    }
    Ok(
        Some(
            CheckPlan {
                detect_files,
                detect_symbols,
                exclude_paths: deadcode_exclude_paths(project_config, default_exclude_paths),
                entry_points: effective_entry_points(project_config, entry_points),
            },
        ),
    )
}

/// What was read of a project.
pub struct ProjectScan {
    pub source_roots: Vec<FilePath>,
    pub entry_points: ResolvedEntryPoints,
    pub walked: Vec<WalkedRoot>,
    /// What came of reading each file.
    pub outcomes: SortedMap<FilePath, FileScan>,
    pub index: ModuleIndex,
    pub extra_dependencies: Vec<ExtraDependency>,
}

/// The files of the project, the imports between them, and the dependencies that are not imports.
pub open spec fn scan_graph(scan: ProjectScan) -> GraphModel {
    let files = project_files(scan.walked@);
    GraphModel {
        files,
        spellings: project_spellings(scan.walked@),
        imports: union_over(files.dom(), scan_edges(scan.index@, files, scan.outcomes@)).union(
            Set::new(
                |e: (Seq<char>, Seq<char>)|
                    is_extra_edge(scan.extra_dependencies@, files, e.0, e.1),
            ),
        ),
    }
}

/// The files of the project that were skipped.
pub open spec fn scan_failures(scan: ProjectScan) -> Set<Seq<char>> {
    skipped_files(scan.outcomes@, project_files(scan.walked@).dom())
}

/// The roots of the search for live files.
pub open spec fn scan_roots(scan: ProjectScan) -> Set<Seq<char>> {
    entry_roots(scan.index@, project_files(scan.walked@), views(scan.entry_points.files@))
}

/// The reports of entry points that stand for no file.
pub open spec fn unresolved_reports(entry_points: Seq<Seq<char>>) -> Seq<DiagnosticModel> {
    entry_points.map_values(
        |entry_point: Seq<char>|
            global(Severity::Warning, DetailsModel::EntryPointNotFound(entry_point)),
    )
}

/// What a check reports last: that there is no entry point, or, where files are looked for, the
/// dead ones.
pub open spec fn final_reports(
    root: Seq<char>,
    config: ProjectConfig,
    detect_files: bool,
    scan: ProjectScan,
) -> Seq<DiagnosticModel> {
    if scan_roots(scan) == Set::<Seq<char>>::empty() {
        seq![global(Severity::Warning, DetailsModel::NoEntryPoints)]
    } else if detect_files {
        dead_file_reports(
            config,
            root,
            views(scan.source_roots@),
            scan_graph(scan),
            scan_roots(scan),
            scan_failures(scan),
        )
    } else {
        Seq::empty()
    }
}

/// What a check reports: the entry points that were not found, the files that were skipped, and
/// then either that there is no entry point at all or, where files are looked for, the dead ones.
pub open spec fn check_reports(
    root: Seq<char>,
    config: ProjectConfig,
    detect_files: bool,
    scan: ProjectScan,
) -> Seq<DiagnosticModel> {
    unresolved_reports(texts(scan.entry_points.unresolved@)) + skip_reports(
        scan.outcomes@,
        project_spellings(scan.walked@),
        in_order::<FilePath>(project_files(scan.walked@).dom()),
    ) + final_reports(root, config, detect_files, scan)
}

fn report_unresolved(entry_points: &Vec<String>) -> (diagnostics: Vec<Diagnostic>)
    ensures
        diagnostic_models(diagnostics@) == unresolved_reports(texts(entry_points@)),
{
    let mut diagnostics: Vec<Diagnostic> = Vec::new();
    let mut i: usize = 0;
    while i < entry_points.len()
        invariant
            i <= entry_points@.len(),
            diagnostics@.len() == i,
            forall|j: int|
                0 <= j < i ==> (#[trigger] diagnostics@[j])@ == unresolved_reports(
                    texts(entry_points@),
                )[j],
        decreases entry_points@.len() - i,
    {
        diagnostics.push(deadcode_entry_point_not_found_warning(entry_points[i].as_str()));
        i += 1;
    }
    assert(diagnostic_models(diagnostics@) =~= unresolved_reports(texts(entry_points@)));
    diagnostics
}

/// The graph of the given files without any imports.
fn graph_of(files: &Vec<DeadcodeFile>, entries: Ghost<Map<Seq<char>, EntryModel>>) -> (graph:
    FileImportGraph)
    requires
        file_models(files@) == listing(entries@),
        is_listed::<FilePath>(entries@.dom()),
    ensures
        graph@ == (GraphModel {
            files: modules_of(entries@),
            spellings: spellings_of(entries@),
            imports: Set::empty(),
        }),
{
    let mut graph = FileImportGraph::new();
    let ghost list = in_order::<FilePath>(entries@.dom());
    let mut i: usize = 0;
    assert(file_models(files@).len() == list.len());
    while i < files.len()
        invariant
            i <= files@.len(),
            files@.len() == list.len(),
            strictly_sorted::<FilePath>(list),
            list == in_order::<FilePath>(entries@.dom()),
            file_models(files@) == listing(entries@),
            forall|file: Seq<char>| #[trigger]
                graph@.files.contains_key(file) <==> list.take(i as int).contains(file),
            forall|file: Seq<char>| #[trigger]
                graph@.files.contains_key(file) ==> graph@.files[file] == entries@[file].module,
            forall|file: Seq<char>| #[trigger]
                graph@.spellings.contains_key(file) <==> list.take(i as int).contains(file),
            forall|file: Seq<char>| #[trigger]
                graph@.spellings.contains_key(file) ==> graph@.spellings[file]
                    == entries@[file].spelling,
            graph@.imports == Set::<(Seq<char>, Seq<char>)>::empty(),
        decreases files@.len() - i,
    {
        let ghost seen = list.take(i as int);
        let ghost file = list[i as int];
        proof {
            assert(file_models(files@)[i as int] == files@[i as int]@);
            assert(listing(entries@)[i as int] == (file, entries@[file]));
            assert(list.take(i + 1) =~= seen.push(file));
            lemma_push_contains(seen, file);
            assert(!seen.contains(file)) by {
                if seen.contains(file) {
                    let j = choose|j: int| 0 <= j < seen.len() && seen[j] == file;
                    assert(FilePath::precedes(list[j], list[i as int]));
                    FilePath::precedes_irreflexive(file);
                }
            }
        }
        graph.add_file(files[i].file_path.duplicate(), files[i].module.clone());
        i += 1;
    }
    proof {
        assert(list.take(i as int) =~= list);
        assert forall|file: Seq<char>| #[trigger] list.contains(file) <==> entries@.contains_key(
            file,
        ) by {
            assert(list.to_set().contains(file) <==> list.contains(file));
        }
        assert(graph@.files =~= modules_of(entries@));
        assert(graph@.spellings =~= spellings_of(entries@));
    }
    graph
}

/// The sorted reports of a check, or the error that kept the project from being read.
pub fn check_deadcode(
    project_root: &FilePath,
    project_config: &ProjectConfig,
    plan: &CheckPlan,
    scan: Result<ProjectScan, CheckError>,
) -> (diagnostics: Result<Vec<Diagnostic>, CheckError>)
    ensures
        match scan {
            Ok(scan) => diagnostics matches Ok(list) && is_stable_sort(
                check_reports(project_root@, *project_config, plan.detect_files, scan),
                diagnostic_models(list@),
            ),
            Err(error) => diagnostics == Err::<Vec<Diagnostic>, CheckError>(error),
        },
{
    let scan = match scan {
        Ok(scan) => scan,
        Err(error) => return Err(error),
    };
    let mut diagnostics = report_unresolved(&scan.entry_points.unresolved);
    let files = collect_project_files(&scan.walked);
    let ghost entries = project_entries(scan.walked@);
    let mut graph = graph_of(&files, Ghost(entries));
    let ghost modules = project_files(scan.walked@);
    let ghost list = in_order::<FilePath>(modules.dom());
    let ghost gives = scan_edges(scan.index@, modules, scan.outcomes@);
    proof {
        assert(modules.dom() =~= entries.dom());
        assert(file_models(files@).len() == list.len());
        assert forall|j: int| 0 <= j < files@.len() implies (#[trigger] files@[j])@ == (
            list[j],
            entries[list[j]],
        ) && entries.contains_key(list[j]) by {
            assert(file_models(files@)[j] == files@[j]@);
            assert(listing(entries)[j] == (list[j], entries[list[j]]));
            assert(list.to_set().contains(list[j]));
        }
        assert(listed_paths(files@) =~= list);
        lemma_gathered_set(list, gives);
    }
    let mut parse_failures: SortedSet<FilePath> = SortedSet::new();
    scan_files(
        &files,
        &scan.outcomes,
        &scan.index,
        &mut graph,
        &mut diagnostics,
        &mut parse_failures,
    );
    assert(parse_failures@ =~= scan_failures(scan));
    add_extra_dependency_edges(&mut graph, &scan.extra_dependencies);
    assert(graph@.imports =~= scan_graph(scan).imports);
    let entry_file_roots = expand_entry_file_roots(&graph, &scan.index, &scan.entry_points.files);
    let ghost roots = scan_roots(scan);
    let ghost so_far = diagnostic_models(diagnostics@);
    proof {
        let root_list = views(entry_file_roots@);
        assert(root_list.to_set() == roots);
        if root_list.len() == 0 {
            assert(root_list.to_set() =~= Set::empty());
        } else {
            assert(root_list.to_set().contains(root_list[0]));
        }
    }
    if entry_file_roots.len() == 0 {
        diagnostics.push(
            Diagnostic::new_global_warning(
                DiagnosticDetails::Configuration(ConfigurationDiagnostic::DeadcodeNoEntryPoints),
            ),
        );
        assert(diagnostic_models(diagnostics@) =~= so_far + seq![
            global(Severity::Warning, DetailsModel::NoEntryPoints),
        ]);
        return Ok(sort_diagnostics(diagnostics));
    }
    if plan.detect_files {
        emit_dead_file_diagnostics(
            &mut diagnostics,
            project_config,
            project_root,
            &scan.source_roots,
            &graph,
            &entry_file_roots,
            &parse_failures,
        );
    } else {
        assert(so_far =~= so_far + Seq::<DiagnosticModel>::empty());
    }
    Ok(sort_diagnostics(diagnostics))
}

} // verus!
