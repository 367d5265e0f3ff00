//! What holds of the check of a project as a whole.

use crate::check::{
    bound_first, check_reports, dead_file_report, dead_reports, dead_test, file_edges, final_reports,
    io_report, is_dead_file, is_entry_root, is_extra_edge, is_parent_package, is_skipped,
    path_edges, project_files, project_spellings, scan_edges, scan_failures, scan_graph, scan_of,
    scan_roots, skip_reports, syntax_report, unresolved_reports, walked_files, ProjectScan, ScanModel,
    WalkedRoot,
};
use crate::collections::{gathered, in_order, is_listed, lemma_in_order, union_over, views};
use crate::config::{rule_severity, ProjectConfig, Severity};
use crate::diagnostics::{
    alike, comes_before, file_of, global, is_sorted, is_stable_sort, lemma_comes_before_total,
    sort_id, DetailsModel, DiagnosticModel, SortId,
};
use crate::graph::{import_step, live_files, GraphModel};
use crate::path::{is_init, FilePath};
use crate::reach::{
    lemma_reachable_closed, lemma_reachable_least, lemma_start_reachable, lemma_step_reachable,
};
use crate::settings::{is_ignored, is_unchecked};
use crate::symbols::has_live_failure;
use crate::text::texts;
use vstd::prelude::*;

verus! {

proof fn lemma_bound_first_finite<A, B>(bindings: Seq<(A, B)>)
    ensures
        bound_first(bindings).dom().finite(),
    decreases bindings.len(),
{
    if bindings.len() > 0 {
        lemma_bound_first_finite(bindings.drop_last());
    }
}

/// The files of a project can be listed in the order of their paths.
pub proof fn lemma_project_files_listed(walked: Seq<WalkedRoot>)
    ensures
        is_listed::<FilePath>(project_files(walked).dom()),
{
    lemma_bound_first_finite(walked_files(walked));
    assert(project_files(walked).dom() =~= bound_first(walked_files(walked)).dom());
    lemma_in_order::<FilePath>(project_files(walked).dom());
}

/// Each file keeps the module path and the spelling with which it was found first.
pub proof fn lemma_first_found<A, B>(bindings: Seq<(A, B)>, i: int)
    requires
        0 <= i < bindings.len(),
        forall|j: int| 0 <= j < i ==> (#[trigger] bindings[j]).0 != bindings[i].0,
    ensures
        bound_first(bindings).contains_key(bindings[i].0),
        bound_first(bindings)[bindings[i].0] == bindings[i].1,
    decreases bindings.len(),
{
    let shorter = bindings.drop_last();
    if i < shorter.len() {
        assert(shorter[i] == bindings[i]);
        assert(forall|j: int| 0 <= j < i ==> #[trigger] shorter[j] == bindings[j]);
        lemma_first_found(shorter, i);
    } else {
        lemma_bound_first_domain(shorter, bindings[i].0);
        if bound_first(shorter).contains_key(bindings[i].0) {
            let j = choose|j: int|
                0 <= j < shorter.len() && (#[trigger] shorter[j]).0 == bindings[i].0;
            assert(bindings[j] == shorter[j]);
        }
    }
}

pub proof fn lemma_bound_first_domain<A, B>(bindings: Seq<(A, B)>, key: A)
    ensures
        bound_first(bindings).contains_key(key) ==> exists|j: int|
            0 <= j < bindings.len() && (#[trigger] bindings[j]).0 == key,
    decreases bindings.len(),
{
    if bindings.len() > 0 && bound_first(bindings).contains_key(key) {
        let shorter = bindings.drop_last();
        lemma_bound_first_domain(shorter, key);
        if bound_first(shorter).contains_key(key) {
            let j = choose|j: int| 0 <= j < shorter.len() && (#[trigger] shorter[j]).0 == key;
            assert(bindings[j] == shorter[j]);
        } else {
            assert(bindings[bindings.len() - 1].0 == key);
        }
    }
}

proof fn lemma_dead_reports(
    severity: Severity,
    graph: GraphModel,
    dead: spec_fn(Seq<char>) -> bool,
    files: Seq<Seq<char>>,
    report: DiagnosticModel,
)
    ensures
        dead_reports(severity, graph, dead, files).contains(report) <==> exists|i: int|
            0 <= i < files.len() && dead(#[trigger] files[i]) && report == dead_file_report(severity, graph, files[i]),
    decreases files.len(),
{
    let reports = dead_reports(severity, graph, dead, files);
    if files.len() > 0 {
        let shorter = files.drop_last();
        let before = dead_reports(severity, graph, dead, shorter);
        lemma_dead_reports(severity, graph, dead, shorter, report);
        if before.contains(report) {
            let j = choose|j: int| 0 <= j < before.len() && before[j] == report;
            assert(reports[j] == report);
            let i = choose|i: int|
                0 <= i < shorter.len() && dead(#[trigger] shorter[i]) && report
                    == dead_file_report(severity, graph, shorter[i]);
            assert(files[i] == shorter[i]);
        }
        if dead(files.last()) {
            assert(reports[before.len() as int] == dead_file_report(severity, graph, files.last(),
            ));
            assert(files[files.len() - 1] == files.last());
        }
        if reports.contains(report) {
            let j = choose|j: int| 0 <= j < reports.len() && reports[j] == report;
            if j < before.len() {
                assert(before[j] == report);
            }
        }
        if exists|i: int|
            0 <= i < files.len() && dead(#[trigger] files[i]) && report == dead_file_report(severity, graph, files[i]) {
            let i = choose|i: int|
                0 <= i < files.len() && dead(#[trigger] files[i]) && report == dead_file_report(severity, graph, files[i]);
            if i < shorter.len() {
                assert(shorter[i] == files[i]);
            }
        }
    }
}

/// The report of a skipped file.
pub open spec fn skip_report(
    outcomes: Map<Seq<char>, ScanModel>,
    spellings: Map<Seq<char>, Seq<char>>,
    file: Seq<char>,
) -> DiagnosticModel {
    match scan_of(outcomes, file) {
        ScanModel::Syntax => syntax_report(spellings[file]),
        _ => io_report(spellings[file]),
    }
}

proof fn lemma_skip_reports(
    outcomes: Map<Seq<char>, ScanModel>,
    spellings: Map<Seq<char>, Seq<char>>,
    files: Seq<Seq<char>>,
    report: DiagnosticModel,
)
    ensures
        skip_reports(outcomes, spellings, files).contains(report) <==> exists|i: int|
            0 <= i < files.len() && is_skipped(outcomes, #[trigger] files[i]) && report
                == skip_report(outcomes, spellings, files[i]),
    decreases files.len(),
{
    let reports = skip_reports(outcomes, spellings, files);
    if files.len() > 0 {
        let shorter = files.drop_last();
        let before = skip_reports(outcomes, spellings, shorter);
        lemma_skip_reports(outcomes, spellings, shorter, report);
        if before.contains(report) {
            let j = choose|j: int| 0 <= j < before.len() && before[j] == report;
            assert(reports[j] == report);
            let i = choose|i: int|
                0 <= i < shorter.len() && is_skipped(outcomes, #[trigger] shorter[i]) && report
                    == skip_report(outcomes, spellings, shorter[i]);
            assert(files[i] == shorter[i]);
        }
        if is_skipped(outcomes, files.last()) {
            assert(reports[before.len() as int] == skip_report(outcomes, spellings, files.last()));
            assert(files[files.len() - 1] == files.last());
        }
        if reports.contains(report) {
            let j = choose|j: int| 0 <= j < reports.len() && reports[j] == report;
            if j < before.len() {
                assert(before[j] == report);
            }
        }
        if exists|i: int|
            0 <= i < files.len() && is_skipped(outcomes, #[trigger] files[i]) && report
                == skip_report(outcomes, spellings, files[i]) {
            let i = choose|i: int|
                0 <= i < files.len() && is_skipped(outcomes, #[trigger] files[i]) && report
                    == skip_report(outcomes, spellings, files[i]);
            if i < shorter.len() {
                assert(shorter[i] == files[i]);
            }
        }
    }
}

pub proof fn lemma_concat_contains<A>(first: Seq<A>, second: Seq<A>, x: A)
    ensures
        (first + second).contains(x) <==> first.contains(x) || second.contains(x),
{
    let all = first + second;
    if first.contains(x) {
        let j = choose|j: int| 0 <= j < first.len() && first[j] == x;
        assert(all[j] == x);
    }
    if second.contains(x) {
        let j = choose|j: int| 0 <= j < second.len() && second[j] == x;
        assert(all[first.len() + j] == x);
    }
    if all.contains(x) {
        let j = choose|j: int| 0 <= j < all.len() && all[j] == x;
        if j < first.len() {
            assert(first[j] == x);
        } else {
            assert(second[j - first.len()] == x);
        }
    }
}

proof fn lemma_check_reports(
    root: Seq<char>,
    config: ProjectConfig,
    detect_files: bool,
    scan: ProjectScan,
    report: DiagnosticModel,
)
    ensures
        check_reports(root, config, detect_files, scan).contains(report) <==> unresolved_reports(
            texts(scan.entry_points.unresolved@),
        ).contains(report) || skip_reports(
            scan.outcomes@,
            project_spellings(scan.walked@),
            in_order::<FilePath>(project_files(scan.walked@).dom()),
        ).contains(report) || final_reports(root, config, detect_files, scan).contains(report),
{
    let first = unresolved_reports(texts(scan.entry_points.unresolved@));
    let second = skip_reports(
        scan.outcomes@,
        project_spellings(scan.walked@),
        in_order::<FilePath>(project_files(scan.walked@).dom()),
    );
    lemma_concat_contains(first, second, report);
    lemma_concat_contains(
        first + second,
        final_reports(root, config, detect_files, scan),
        report,
    );
}

/// Which files are dead in a project that was read.
pub open spec fn dead_in(
    root: Seq<char>,
    config: ProjectConfig,
    scan: ProjectScan,
) -> spec_fn(Seq<char>) -> bool {
    dead_test(
        config,
        root,
        views(scan.source_roots@),
        scan_graph(scan),
        live_files(scan_graph(scan), scan_roots(scan)),
        scan_failures(scan),
    )
}

/// Whether a file is dead in a project that was read.
pub open spec fn is_dead_in(
    root: Seq<char>,
    config: ProjectConfig,
    scan: ProjectScan,
    file: Seq<char>,
) -> bool {
    dead_in(root, config, scan)(file)
}

/// A report about a file is one about a dead file, at its first line and with the severity of the
/// rule; and it is made only where files are looked for, there is an entry point, and no live file
/// was skipped. So nothing is ever said of single symbols.
pub proof fn lemma_located_reports(
    root: Seq<char>,
    config: ProjectConfig,
    detect_files: bool,
    scan: ProjectScan,
    report: DiagnosticModel,
)
    requires
        check_reports(root, config, detect_files, scan).contains(report),
        report.location is Some,
    ensures
        detect_files,
        scan_roots(scan) != Set::<Seq<char>>::empty(),
        !has_live_failure(scan_graph(scan), scan_roots(scan), scan_failures(scan)),
        rule_severity(config.deadcode.severity) == Some(report.severity),
        ({
            let file = report.location->0.file;
            is_dead_in(root, config, scan, file) && report == dead_file_report(
                report.severity,
                scan_graph(scan),
                file,
            )
        }),
{
    lemma_check_reports(root, config, detect_files, scan, report);
    let files = in_order::<FilePath>(project_files(scan.walked@).dom());
    lemma_skip_reports(scan.outcomes@, project_spellings(scan.walked@), files, report);
    let first = unresolved_reports(texts(scan.entry_points.unresolved@));
    if first.contains(report) {
        let j = choose|j: int| 0 <= j < first.len() && first[j] == report;
        assert(first[j].location is None);
    }
    assert(final_reports(root, config, detect_files, scan).contains(report));
    if scan_roots(scan) == Set::<Seq<char>>::empty() {
        let only = seq![global(Severity::Warning, DetailsModel::NoEntryPoints)];
        let j = choose|j: int| 0 <= j < only.len() && only[j] == report;
        assert(j == 0);
    } else {
        let severity = rule_severity(config.deadcode.severity)->0;
        let dead = dead_in(root, config, scan);
        lemma_dead_reports(severity, scan_graph(scan), dead, files, report);
    }
}

/// A file that can be reached from an entry point is not reported.
pub proof fn lemma_live_file_not_reported(
    root: Seq<char>,
    config: ProjectConfig,
    detect_files: bool,
    scan: ProjectScan,
    report: DiagnosticModel,
)
    requires
        check_reports(root, config, detect_files, scan).contains(report),
        report.location is Some,
    ensures
        !live_files(scan_graph(scan), scan_roots(scan)).contains(report.location->0.file),
{
    lemma_located_reports(root, config, detect_files, scan, report);
}

/// A skipped file, a protected `__init__.py`, a file that an ignore rule applies to and a file of
/// an unchecked module are not reported as dead.
pub proof fn lemma_exempt_file_not_reported(
    root: Seq<char>,
    config: ProjectConfig,
    detect_files: bool,
    scan: ProjectScan,
    file: Seq<char>,
    report: DiagnosticModel,
)
    requires
        scan_failures(scan).contains(file) || (config.deadcode.protect_init_files && is_init(file))
            || is_ignored(
            texts(config.deadcode.ignore@),
            root,
            views(scan.source_roots@),
            file,
            project_spellings(scan.walked@)[file],
            Some(project_files(scan.walked@)[file]),
        ) || is_unchecked(config.modules@, project_files(scan.walked@)[file]),
        check_reports(root, config, detect_files, scan).contains(report),
    ensures
        file_of(report) != Some(file),
{
    if file_of(report) == Some(file) {
        lemma_located_reports(root, config, detect_files, scan, report);
    }
}

/// Where files are looked for, the rule is on, there is an entry point and no live file was
/// skipped, exactly the dead files are reported.
pub proof fn lemma_dead_file_reported(
    root: Seq<char>,
    config: ProjectConfig,
    scan: ProjectScan,
    severity: Severity,
    file: Seq<char>,
)
    requires
        rule_severity(config.deadcode.severity) == Some(severity),
        scan_roots(scan) != Set::<Seq<char>>::empty(),
        !has_live_failure(scan_graph(scan), scan_roots(scan), scan_failures(scan)),
    ensures
        check_reports(root, config, true, scan).contains(
            dead_file_report(severity, scan_graph(scan), file),
        ) <==> is_dead_in(root, config, scan, file),
{
    let report = dead_file_report(severity, scan_graph(scan), file);
    if is_dead_in(root, config, scan, file) {
        lemma_project_files_listed(scan.walked@);
        let files = in_order::<FilePath>(project_files(scan.walked@).dom());
        let dead = dead_in(root, config, scan);
        lemma_dead_reports(severity, scan_graph(scan), dead, files, report);
        assert(files.to_set().contains(file));
        let i = choose|i: int| 0 <= i < files.len() && files[i] == file;
        assert(dead(files[i]));
        lemma_check_reports(root, config, true, scan, report);
    }
    if check_reports(root, config, true, scan).contains(report) {
        lemma_located_reports(root, config, true, scan, report);
    }
}

/// That there is no entry point is reported exactly where the search has no root.
pub proof fn lemma_no_entry_points_reported(
    root: Seq<char>,
    config: ProjectConfig,
    detect_files: bool,
    scan: ProjectScan,
)
    ensures
        check_reports(root, config, detect_files, scan).contains(
            global(Severity::Warning, DetailsModel::NoEntryPoints),
        ) <==> scan_roots(scan) == Set::<Seq<char>>::empty(),
{
    let report = global(Severity::Warning, DetailsModel::NoEntryPoints);
    lemma_check_reports(root, config, detect_files, scan, report);
    let files = in_order::<FilePath>(project_files(scan.walked@).dom());
    lemma_skip_reports(scan.outcomes@, project_spellings(scan.walked@), files, report);
    let first = unresolved_reports(texts(scan.entry_points.unresolved@));
    if first.contains(report) {
        let j = choose|j: int| 0 <= j < first.len() && first[j] == report;
        assert(first[j].details is EntryPointNotFound);
    }
    let last = final_reports(root, config, detect_files, scan);
    if scan_roots(scan) == Set::<Seq<char>>::empty() {
        assert(last[0] == report);
    } else if last.contains(report) {
        let severity = rule_severity(config.deadcode.severity)->0;
        let dead = dead_in(root, config, scan);
        lemma_dead_reports(severity, scan_graph(scan), dead, files, report);
    }
}

/// Every skipped file of the project is reported.
pub proof fn lemma_skipped_file_reported(
    root: Seq<char>,
    config: ProjectConfig,
    detect_files: bool,
    scan: ProjectScan,
    file: Seq<char>,
)
    requires
        scan_failures(scan).contains(file),
    ensures
        check_reports(root, config, detect_files, scan).contains(
            skip_report(scan.outcomes@, project_spellings(scan.walked@), file),
        ),
{
    let report = skip_report(scan.outcomes@, project_spellings(scan.walked@), file);
    lemma_project_files_listed(scan.walked@);
    let files = in_order::<FilePath>(project_files(scan.walked@).dom());
    assert(files.to_set().contains(file));
    let i = choose|i: int| 0 <= i < files.len() && files[i] == file;
    assert(is_skipped(scan.outcomes@, files[i]));
    lemma_skip_reports(scan.outcomes@, project_spellings(scan.walked@), files, report);
    lemma_check_reports(root, config, detect_files, scan, report);
}

/// Every entry point that stands for no file is reported.
pub proof fn lemma_unresolved_reported(
    root: Seq<char>,
    config: ProjectConfig,
    detect_files: bool,
    scan: ProjectScan,
    i: int,
)
    requires
        0 <= i < scan.entry_points.unresolved@.len(),
    ensures
        check_reports(root, config, detect_files, scan).contains(
            global(
                Severity::Warning,
                DetailsModel::EntryPointNotFound(scan.entry_points.unresolved@[i]@),
            ),
        ),
{
    let first = unresolved_reports(texts(scan.entry_points.unresolved@));
    assert(first.contains(first[i]));
    lemma_check_reports(root, config, detect_files, scan, first[i]);
}

/// An entry file of the project is live, and so are the `__init__.py` files of the packages around
/// it.
pub proof fn lemma_entry_files_live(scan: ProjectScan, i: int, file: Seq<char>)
    requires
        0 <= i < scan.entry_points.files@.len(),
        project_files(scan.walked@).contains_key(scan.entry_points.files@[i]@),
        file == scan.entry_points.files@[i]@ || is_parent_package(
            scan.index@,
            project_files(scan.walked@),
            project_files(scan.walked@)[scan.entry_points.files@[i]@],
            file,
        ),
    ensures
        live_files(scan_graph(scan), scan_roots(scan)).contains(file),
{
    let list = views(scan.entry_points.files@);
    assert(list[i] == scan.entry_points.files@[i]@);
    assert(is_entry_root(scan.index@, project_files(scan.walked@), list, file));
    assert(scan_roots(scan).contains(file));
    lemma_start_reachable(scan_roots(scan), import_step(scan_graph(scan)));
}

/// What a live file imports is live, if it is a Python file of the project, and so are the
/// `__init__.py` files of the packages around it.
pub proof fn lemma_imported_files_live(
    scan: ProjectScan,
    from: Seq<char>,
    paths: Seq<Seq<char>>,
    i: int,
    file: Seq<char>,
)
    requires
        live_files(scan_graph(scan), scan_roots(scan)).contains(from),
        project_files(scan.walked@).contains_key(from),
        scan_of(scan.outcomes@, from) == ScanModel::Imports(paths),
        0 <= i < paths.len(),
        path_edges(scan.index@, project_files(scan.walked@), from, paths[i]).contains((from, file)),
    ensures
        live_files(scan_graph(scan), scan_roots(scan)).contains(file),
{
    let files = project_files(scan.walked@);
    let e = (from, file);
    let by_path = |path: Seq<char>, e: (Seq<char>, Seq<char>)|
        path_edges(scan.index@, files, from, path).contains(e);
    assert(by_path(paths[i], e));
    assert(gathered(paths, by_path).contains(e));
    assert(file_edges(scan.index@, files, from, paths).contains(e));
    let gives = scan_edges(scan.index@, files, scan.outcomes@);
    assert(files.dom().contains(from) && gives(from, e));
    assert(union_over(files.dom(), gives).contains(e));
    let step = import_step(scan_graph(scan));
    assert(step(from, file));
    lemma_step_reachable(scan_roots(scan), step, from, file);
}

/// What a live file depends on without importing it is live.
pub proof fn lemma_extra_dependencies_live(scan: ProjectScan, from: Seq<char>, to: Seq<char>)
    requires
        live_files(scan_graph(scan), scan_roots(scan)).contains(from),
        is_extra_edge(scan.extra_dependencies@, project_files(scan.walked@), from, to),
    ensures
        live_files(scan_graph(scan), scan_roots(scan)).contains(to),
{
    let step = import_step(scan_graph(scan));
    assert(scan_graph(scan).imports.contains((from, to)));
    assert(step(from, to));
    lemma_step_reachable(scan_roots(scan), step, from, to);
}

/// More imports and more roots leave no more files dead.
pub proof fn lemma_more_imports_fewer_dead_files(
    config: ProjectConfig,
    root: Seq<char>,
    source_roots: Seq<Seq<char>>,
    graph: GraphModel,
    more: GraphModel,
    roots: Set<Seq<char>>,
    more_roots: Set<Seq<char>>,
    failures: Set<Seq<char>>,
    file: Seq<char>,
)
    requires
        graph.files == more.files,
        graph.spellings == more.spellings,
        graph.imports.subset_of(more.imports),
        roots.subset_of(more_roots),
        is_dead_file(
            config,
            root,
            source_roots,
            more,
            live_files(more, more_roots),
            failures,
            file,
        ),
    ensures
        is_dead_file(config, root, source_roots, graph, live_files(graph, roots), failures, file),
{
    let wide = live_files(more, more_roots);
    let step = import_step(graph);
    let wide_step = import_step(more);
    lemma_start_reachable(more_roots, wide_step);
    lemma_reachable_closed(more_roots, wide_step);
    assert forall|a: Seq<char>, b: Seq<char>| wide.contains(a) && #[trigger] step(
        a,
        b,
    ) implies wide.contains(b) by {
        assert(wide_step(a, b));
    }
    lemma_reachable_least(roots, step, wide);
}

proof fn lemma_filter_count<A>(list: Seq<A>, pred: spec_fn(A) -> bool, x: A)
    requires
        pred(x),
    ensures
        list.filter(pred).to_multiset().count(x) == list.to_multiset().count(x),
    decreases list.len(),
{
    broadcast use vstd::seq_lib::group_to_multiset_ensures;

    reveal(Seq::filter);
    if list.len() > 0 {
        let shorter = list.drop_last();
        lemma_filter_count(shorter, pred, x);
        assert(list =~= shorter.push(list.last()));
    }
}

/// Sorting keeps every report as often as it was there.
pub proof fn lemma_sort_keeps_all(list: Seq<DiagnosticModel>, result: Seq<DiagnosticModel>)
    requires
        is_stable_sort(list, result),
    ensures
        result.to_multiset() == list.to_multiset(),
{
    assert forall|d: DiagnosticModel| result.to_multiset().count(d) == list.to_multiset().count(
        d,
    ) by {
        let id = sort_id(d);
        let same = |e: DiagnosticModel| sort_id(e) == id;
        lemma_filter_count(list, same, d);
        lemma_filter_count(result, same, d);
        assert(alike(result, id) == alike(list, id));
    }
    assert(result.to_multiset() =~= list.to_multiset());
}

proof fn lemma_alike_first(list: Seq<DiagnosticModel>)
    requires
        list.len() > 0,
    ensures
        ({
            let id = sort_id(list[0]);
            &&& alike(list, id).len() > 0
            &&& alike(list, id)[0] == list[0]
        }),
        forall|id: SortId| #[trigger]
            alike(list, id) == if id == sort_id(list[0]) {
                seq![list[0]] + alike(list.drop_first(), id)
            } else {
                alike(list.drop_first(), id)
            },
{
    let first = seq![list[0]];
    assert(list =~= first + list.drop_first());
    assert forall|id: SortId| #[trigger]
        alike(list, id) == if id == sort_id(list[0]) {
            first + alike(list.drop_first(), id)
        } else {
            alike(list.drop_first(), id)
        } by {
        let same = |d: DiagnosticModel| sort_id(d) == id;
        Seq::filter_distributes_over_add(first, list.drop_first(), same);
        reveal(Seq::filter);
        assert(first.drop_last() =~= Seq::empty());
        assert(first.drop_last().filter(same) =~= Seq::empty());
        if id == sort_id(list[0]) {
            assert(first.filter(same) =~= first);
        } else {
            assert(first.filter(same) =~= Seq::empty());
            assert(Seq::<DiagnosticModel>::empty() + alike(list.drop_first(), id) =~= alike(
                list.drop_first(),
                id,
            ));
        }
    }
    assert(alike(list, sort_id(list[0])) == first + alike(list.drop_first(), sort_id(list[0])));
}

proof fn lemma_alike_member(list: Seq<DiagnosticModel>, id: SortId)
    ensures
        alike(list, id).len() > 0 ==> exists|j: int|
            0 <= j < list.len() && sort_id(#[trigger] list[j]) == id,
    decreases list.len(),
{
    if list.len() > 0 {
        lemma_alike_first(list);
        if id == sort_id(list[0]) {
            assert(sort_id(list[0]) == id);
        } else {
            lemma_alike_member(list.drop_first(), id);
            assert(alike(list, id) == alike(list.drop_first(), id));
            if alike(list, id).len() > 0 {
                let rest = list.drop_first();
                let j = choose|j: int| 0 <= j < rest.len() && sort_id(#[trigger] rest[j]) == id;
                assert(list[j + 1] == rest[j]);
            }
        }
    } else {
        reveal(Seq::filter);
    }
}

proof fn lemma_sort_unique(a: Seq<DiagnosticModel>, b: Seq<DiagnosticModel>)
    requires
        is_sorted(a),
        is_stable_sort(a, b),
    ensures
        a == b,
    decreases a.len(),
{
    if a.len() == 0 {
        if b.len() > 0 {
            lemma_alike_first(b);
            reveal(Seq::filter);
            assert(alike(b, sort_id(b[0])) == alike(a, sort_id(b[0])));
        }
        assert(a =~= b);
    } else {
        lemma_alike_first(a);
        let id = sort_id(a[0]);
        assert(alike(b, id) == alike(a, id));
        lemma_alike_member(b, id);
        let j = choose|j: int| 0 <= j < b.len() && sort_id(#[trigger] b[j]) == id;
        lemma_alike_first(b);
        let other = sort_id(b[0]);
        assert(alike(b, other) == alike(a, other));
        lemma_alike_member(a, other);
        let k = choose|k: int| 0 <= k < a.len() && sort_id(#[trigger] a[k]) == other;
        lemma_comes_before_total(id, other);
        assert(!comes_before(sort_id(b[j]), sort_id(b[0])));
        assert(!comes_before(sort_id(a[k]), sort_id(a[0])));
        assert(id == other);
        assert(a[0] == b[0]);
        let rest = a.drop_first();
        let tail = b.drop_first();
        assert forall|n: SortId| #[trigger] alike(tail, n) == alike(rest, n) by {
            assert(alike(b, n) == alike(a, n));
            if n == id {
                assert(alike(tail, n) =~= alike(b, n).drop_first());
                assert(alike(rest, n) =~= alike(a, n).drop_first());
            }
        }
        assert(is_sorted(rest)) by {
            assert forall|x: int, y: int| 0 <= x < y < rest.len() implies !comes_before(
                sort_id(#[trigger] rest[y]),
                sort_id(#[trigger] rest[x]),
            ) by {
                assert(rest[x] == a[x + 1] && rest[y] == a[y + 1]);
            }
        }
        assert(is_sorted(tail)) by {
            assert forall|x: int, y: int| 0 <= x < y < tail.len() implies !comes_before(
                sort_id(#[trigger] tail[y]),
                sort_id(#[trigger] tail[x]),
            ) by {
                assert(tail[x] == b[x + 1] && tail[y] == b[y + 1]);
            }
        }
        lemma_sort_unique(rest, tail);
        assert(a =~= seq![a[0]] + rest);
        assert(b =~= seq![b[0]] + tail);
    }
}

/// Two stable sorts of one list are the same.
pub proof fn lemma_stable_sort_unique(
    list: Seq<DiagnosticModel>,
    a: Seq<DiagnosticModel>,
    b: Seq<DiagnosticModel>,
)
    requires
        is_stable_sort(list, a),
        is_stable_sort(list, b),
    ensures
        a == b,
{
    assert forall|id: SortId| #[trigger] alike(b, id) == alike(a, id) by {
        assert(alike(a, id) == alike(list, id));
    }
    lemma_sort_unique(a, b);
}

} // verus!
