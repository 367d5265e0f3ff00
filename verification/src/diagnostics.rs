//! What is reported, and in which order.

use crate::config::Severity;
use crate::order::{Ordered, Placement};
use crate::path::FilePath;
use vstd::prelude::*;

verus! {

/// What can be found in the code.
#[derive(Debug)]
pub enum CodeDiagnostic {
    DeadFile { module: String },
}

/// What can be wrong with the settings or the files that they select.
#[derive(Debug)]
pub enum ConfigurationDiagnostic {
    DeadcodeEntryPointNotFound { entry_point: String },
    DeadcodeNoEntryPoints,
    SkippedFileSyntaxError { file_path: String },
    SkippedFileIoError { file_path: String },
}

#[derive(Debug)]
pub enum DiagnosticDetails {
    Code(CodeDiagnostic),
    Configuration(ConfigurationDiagnostic),
}

pub enum DetailsModel {
    DeadFile(Seq<char>),
    EntryPointNotFound(Seq<char>),
    NoEntryPoints,
    SyntaxError(Seq<char>),
    IoError(Seq<char>),
}

impl View for DiagnosticDetails {
    type V = DetailsModel;

    open spec fn view(&self) -> DetailsModel {
        match *self {
            DiagnosticDetails::Code(CodeDiagnostic::DeadFile { module }) => DetailsModel::DeadFile(
                module@,
            ),
            DiagnosticDetails::Configuration(found) => match found {
                ConfigurationDiagnostic::DeadcodeEntryPointNotFound {
                    entry_point,
                } => DetailsModel::EntryPointNotFound(entry_point@),
                ConfigurationDiagnostic::DeadcodeNoEntryPoints => DetailsModel::NoEntryPoints,
                ConfigurationDiagnostic::SkippedFileSyntaxError {
                    file_path,
                } => DetailsModel::SyntaxError(file_path@),
                ConfigurationDiagnostic::SkippedFileIoError { file_path } => DetailsModel::IoError(
                    file_path@,
                ),
            },
        }
    }
}

/// Three texts in a row.
pub open spec fn around(before: Seq<char>, middle: Seq<char>, after: Seq<char>) -> Seq<char> {
    before + middle + after
}

/// The wording of a diagnostic.
pub open spec fn wording(details: DetailsModel) -> Seq<char> {
    match details {
        DetailsModel::DeadFile(module) => around(
            "Module '"@,
            module,
            "' is not reachable from any entry point."@,
        ),
        DetailsModel::EntryPointNotFound(entry_point) => around(
            "Deadcode entry point '"@,
            entry_point,
            "' was not found."@,
        ),
        DetailsModel::NoEntryPoints => "No deadcode entry points were found in the project."@,
        DetailsModel::SyntaxError(file) => around(
            "Skipped '"@,
            file,
            "' due to a syntax error."@,
        ),
        DetailsModel::IoError(file) => around("Skipped '"@, file, "' due to an I/O error."@),
    }
}

fn join_around(before: &str, middle: &str, after: &str) -> (text: String)
    ensures
        text@ == around(before@, middle@, after@),
{
    let mut text = before.to_string();
    text.append(middle);
    text.append(after);
    text
}

impl DiagnosticDetails {
    pub fn message(&self) -> (text: String)
        ensures
            text@ == wording(self@),
    {
        match self {
            DiagnosticDetails::Code(CodeDiagnostic::DeadFile { module }) => join_around(
                "Module '",
                module.as_str(),
                "' is not reachable from any entry point.",
            ),
            DiagnosticDetails::Configuration(found) => match found {
                ConfigurationDiagnostic::DeadcodeEntryPointNotFound { entry_point } => join_around(
                    "Deadcode entry point '",
                    entry_point.as_str(),
                    "' was not found.",
                ),
                ConfigurationDiagnostic::DeadcodeNoEntryPoints => {
                    "No deadcode entry points were found in the project.".to_string()
                },
                ConfigurationDiagnostic::SkippedFileSyntaxError { file_path } => join_around(
                    "Skipped '",
                    file_path.as_str(),
                    "' due to a syntax error.",
                ),
                ConfigurationDiagnostic::SkippedFileIoError { file_path } => join_around(
                    "Skipped '",
                    file_path.as_str(),
                    "' due to an I/O error.",
                ),
            },
        }
    }
}

/// A report, about the project as a whole or about a line of a file.
#[derive(Debug)]
pub enum Diagnostic {
    Global { severity: Severity, details: DiagnosticDetails },
    Located {
        severity: Severity,
        details: DiagnosticDetails,
        file_path: FilePath,
        line_number: usize,
        original_line_number: Option<usize>,
    },
}

pub struct LocationModel {
    pub file: Seq<char>,
    /// How the path of the file is written.
    pub spelling: Seq<char>,
    pub line: nat,
    pub original_line: Option<nat>,
}

pub struct DiagnosticModel {
    pub severity: Severity,
    pub details: DetailsModel,
    pub location: Option<LocationModel>,
}

pub open spec fn line_of(line: Option<usize>) -> Option<nat> {
    match line {
        Some(n) => Some(n as nat),
        None => None,
    }
}

impl View for Diagnostic {
    type V = DiagnosticModel;

    open spec fn view(&self) -> DiagnosticModel {
        match *self {
            Diagnostic::Global { severity, details } => DiagnosticModel {
                severity,
                details: details@,
                location: None,
            },
            Diagnostic::Located {
                severity,
                details,
                file_path,
                line_number,
                original_line_number,
            } => DiagnosticModel {
                severity,
                details: details@,
                location: Some(
                    LocationModel {
                        file: file_path@,
                        spelling: file_path.spelling(),
                        line: line_number as nat,
                        original_line: line_of(original_line_number),
                    },
                ),
            },
        }
    }
}

pub open spec fn global(severity: Severity, details: DetailsModel) -> DiagnosticModel {
    DiagnosticModel { severity, details, location: None }
}

/// The file that a diagnostic is about, if any.
pub open spec fn file_of(diagnostic: DiagnosticModel) -> Option<Seq<char>> {
    match diagnostic.location {
        Some(location) => Some(location.file),
        None => None,
    }
}

impl Diagnostic {
    pub fn new_global_warning(details: DiagnosticDetails) -> (diagnostic: Diagnostic)
        ensures
            diagnostic@ == global(Severity::Warning, details@),
    {
        Diagnostic::Global { severity: Severity::Warning, details }
    }

    pub fn new_global_error(details: DiagnosticDetails) -> (diagnostic: Diagnostic)
        ensures
            diagnostic@ == global(Severity::Error, details@),
    {
        Diagnostic::Global { severity: Severity::Error, details }
    }

    pub fn new_located(
        severity: Severity,
        details: DiagnosticDetails,
        file_path: FilePath,
        line_number: usize,
        original_line_number: Option<usize>,
    ) -> (diagnostic: Diagnostic)
        ensures
            diagnostic@ == (DiagnosticModel {
                severity,
                details: details@,
                location: Some(
                    LocationModel {
                        file: file_path@,
                        spelling: file_path.spelling(),
                        line: line_number as nat,
                        original_line: line_of(original_line_number),
                    },
                ),
            }),
    {
        Diagnostic::Located {
            severity,
            details,
            file_path,
            line_number,
            original_line_number,
        }
    }

    pub fn file_path(&self) -> (path: Option<&FilePath>)
        ensures
            match path {
                Some(p) => file_of(self@) == Some(p@),
                None => file_of(self@) is None,
            },
    {
        match self {
            Diagnostic::Global { .. } => None,
            Diagnostic::Located { file_path, .. } => Some(file_path),
        }
    }

    pub fn message(&self) -> (text: String)
        ensures
            text@ == wording(self@.details),
    {
        match self {
            Diagnostic::Global { details, .. } => details.message(),
            Diagnostic::Located { details, .. } => details.message(),
        }
    }
}

/// What diagnostics are ordered by: the file, if any, and the message.
pub type SortId = (Option<Seq<char>>, Seq<char>);

pub open spec fn sort_id(diagnostic: DiagnosticModel) -> SortId {
    (file_of(diagnostic), wording(diagnostic.details))
}

/// The order of the reports: those without a file first, by message; then by file and message.
pub open spec fn comes_before(a: SortId, b: SortId) -> bool {
    match (a.0, b.0) {
        (None, None) => String::precedes(a.1, b.1),
        (None, Some(_)) => true,
        (Some(_), None) => false,
        (Some(f), Some(g)) => FilePath::precedes(f, g) || (f == g && String::precedes(a.1, b.1)),
    }
}

/// Of two different positions in the order, one comes before the other.
pub proof fn lemma_comes_before_total(a: SortId, b: SortId)
    ensures
        a == b || comes_before(a, b) || comes_before(b, a),
        !comes_before(a, a),
{
    String::precedes_irreflexive(a.1);
    String::precedes_total(a.1, b.1);
    if a.0 is Some {
        FilePath::precedes_irreflexive(a.0->0);
        if b.0 is Some {
            FilePath::precedes_total(a.0->0, b.0->0);
        }
    }
}

pub proof fn lemma_comes_before_transitive(a: SortId, b: SortId, c: SortId)
    requires
        comes_before(a, b),
        comes_before(b, c),
    ensures
        comes_before(a, c),
{
    if String::precedes(a.1, b.1) && String::precedes(b.1, c.1) {
        String::precedes_transitive(a.1, b.1, c.1);
    }
    if a.0 is Some && b.0 is Some && c.0 is Some {
        if FilePath::precedes(a.0->0, b.0->0) && FilePath::precedes(b.0->0, c.0->0) {
            FilePath::precedes_transitive(a.0->0, b.0->0, c.0->0);
        }
    }
}

pub open spec fn diagnostic_models(list: Seq<Diagnostic>) -> Seq<DiagnosticModel> {
    list.map_values(|d: Diagnostic| d@)
}

/// Whether no diagnostic stands after one that it should come before.
pub open spec fn is_sorted(list: Seq<DiagnosticModel>) -> bool {
    forall|i: int, j: int|
        0 <= i < j < list.len() ==> !comes_before(
            sort_id(#[trigger] list[j]),
            sort_id(#[trigger] list[i]),
        )
}

/// The diagnostics of a list at one position of the order.
pub open spec fn alike(list: Seq<DiagnosticModel>, id: SortId) -> Seq<DiagnosticModel> {
    list.filter(|d: DiagnosticModel| sort_id(d) == id)
}

/// Whether `result` is `list` sorted, with diagnostics at one position of the order left in the
/// order in which they stood.
pub open spec fn is_stable_sort(list: Seq<DiagnosticModel>, result: Seq<DiagnosticModel>) -> bool {
    &&& is_sorted(result)
    &&& forall|id: SortId| #[trigger] alike(result, id) == alike(list, id)
}

fn stands_before(left: &Diagnostic, right: &Diagnostic) -> (yes: bool)
    ensures
        yes == comes_before(sort_id(left@), sort_id(right@)),
{
    proof {
        lemma_comes_before_total(sort_id(left@), sort_id(right@));
        String::precedes_irreflexive(wording(left@.details));
    }
    let left_message = left.message();
    let right_message = right.message();
    match (left.file_path(), right.file_path()) {
        (None, None) => text_before(&left_message, &right_message),
        (None, Some(_)) => true,
        (Some(_), None) => false,
        (Some(left_file), Some(right_file)) => match left_file.place(right_file) {
            Placement::Before => true,
            Placement::Same => text_before(&left_message, &right_message),
            Placement::After => {
                proof {
                    if FilePath::precedes(left_file@, right_file@) {
                        FilePath::precedes_transitive(left_file@, right_file@, left_file@);
                    }
                    FilePath::precedes_irreflexive(left_file@);
                }
                false
            },
        },
    }
}

fn text_before(left: &String, right: &String) -> (yes: bool)
    ensures
        yes == String::precedes(left@, right@),
{
    match left.place(right) {
        Placement::Before => true,
        Placement::Same => {
            proof {
                String::precedes_irreflexive(left@);
            }
            false
        },
        Placement::After => {
            proof {
                if String::precedes(left@, right@) {
                    String::precedes_transitive(left@, right@, left@);
                }
                String::precedes_irreflexive(left@);
            }
            false
        },
    }
}

proof fn lemma_insert_stable(
    list: Seq<DiagnosticModel>,
    sorted: Seq<DiagnosticModel>,
    p: int,
    item: DiagnosticModel,
)
    requires
        is_stable_sort(list, sorted),
        0 <= p <= sorted.len(),
        forall|j: int| 0 <= j < p ==> comes_before(sort_id(#[trigger] sorted[j]), sort_id(item)),
        p < sorted.len() ==> !comes_before(sort_id(sorted[p]), sort_id(item)),
    ensures
        is_stable_sort(seq![item] + list, sorted.insert(p, item)),
{
    let result = sorted.insert(p, item);
    let before = sorted.take(p);
    let after = sorted.skip(p);
    assert(sorted =~= before + after);
    assert(result =~= before + (seq![item] + after));
    assert forall|j: int| p <= j < sorted.len() implies !comes_before(
        sort_id(#[trigger] sorted[j]),
        sort_id(item),
    ) by {
        if j > p && comes_before(sort_id(sorted[j]), sort_id(item)) {
            lemma_comes_before_total(sort_id(item), sort_id(sorted[p]));
            if comes_before(sort_id(item), sort_id(sorted[p])) {
                lemma_comes_before_transitive(
                    sort_id(sorted[j]),
                    sort_id(item),
                    sort_id(sorted[p]),
                );
            }
        }
    }
    assert forall|i: int, j: int| 0 <= i < j < result.len() implies !comes_before(
        sort_id(#[trigger] result[j]),
        sort_id(#[trigger] result[i]),
    ) by {
        if i == p {
            assert(result[j] == sorted[j - 1]);
        } else if j == p {
            assert(result[i] == sorted[i]);
            if comes_before(sort_id(item), sort_id(sorted[i])) {
                lemma_comes_before_transitive(
                    sort_id(item),
                    sort_id(sorted[i]),
                    sort_id(item),
                );
                lemma_comes_before_total(sort_id(item), sort_id(item));
            }
        } else {
            let i0 = if i < p {
                i
            } else {
                i - 1
            };
            let j0 = if j < p {
                j
            } else {
                j - 1
            };
            assert(result[i] == sorted[i0] && result[j] == sorted[j0]);
        }
    }
    assert forall|id: SortId| #[trigger] alike(result, id) == alike(seq![item] + list, id) by {
        let same = |d: DiagnosticModel| sort_id(d) == id;
        Seq::filter_distributes_over_add(before, after, same);
        Seq::filter_distributes_over_add(before, seq![item] + after, same);
        Seq::filter_distributes_over_add(seq![item], after, same);
        Seq::filter_distributes_over_add(seq![item], list, same);
        assert(alike(sorted, id) == alike(list, id));
        if sort_id(item) == id {
            assert(before.filter(same) =~= Seq::empty()) by {
                if before.filter(same).len() > 0 {
                    before.lemma_filter_pred(same, 0);
                    let d = before.filter(same)[0];
                    lemma_filter_member(before, same, 0);
                    let j = choose|j: int| 0 <= j < before.len() && before[j] == d;
                    assert(sorted[j] == d);
                    lemma_comes_before_total(id, id);
                }
            }
        } else {
            assert(seq![item].filter(same) =~= Seq::empty()) by {
                reveal(Seq::filter);
                assert(seq![item].drop_last() =~= Seq::empty());
                assert(seq![item].drop_last().filter(same) =~= Seq::empty());
            }
        }
    }
}

proof fn lemma_filter_member<A>(list: Seq<A>, pred: spec_fn(A) -> bool, i: int)
    requires
        0 <= i < list.filter(pred).len(),
    ensures
        list.contains(list.filter(pred)[i]),
    decreases list.len(),
{
    reveal(Seq::filter);
    if list.len() > 0 {
        let shorter = list.drop_last();
        if i < shorter.filter(pred).len() {
            lemma_filter_member(shorter, pred, i);
            let d = shorter.filter(pred)[i];
            let j = choose|j: int| 0 <= j < shorter.len() && shorter[j] == d;
            assert(list[j] == d);
            assert(list.filter(pred)[i] == d);
        } else {
            assert(list.filter(pred)[i] == list.last());
            assert(list[list.len() - 1] == list.last());
        }
    }
}

/// Sorts by file and message, those without a file first; the sort is stable.
pub fn sort_diagnostics(diagnostics: Vec<Diagnostic>) -> (sorted: Vec<Diagnostic>)
    ensures
        is_stable_sort(diagnostic_models(diagnostics@), diagnostic_models(sorted@)),
{
    let mut rest = diagnostics;
    let ghost all = diagnostic_models(rest@);
    let mut sorted: Vec<Diagnostic> = Vec::new();
    assert(all.skip(all.len() as int) =~= Seq::empty());
    assert(diagnostic_models(sorted@) =~= Seq::empty());
    while rest.len() > 0
        invariant
            rest@.len() <= all.len(),
            diagnostic_models(rest@) == all.take(rest@.len() as int),
            is_stable_sort(all.skip(rest@.len() as int), diagnostic_models(sorted@)),
        decreases rest@.len(),
    {
        let ghost n = rest@.len() as int;
        let ghost last = rest@[n - 1];
        if let Some(diagnostic) = rest.pop() {
            let mut p: usize = 0;
            while p < sorted.len() && stands_before(&sorted[p], &diagnostic)
                invariant
                    p <= sorted@.len(),
                    forall|j: int|
                        0 <= j < p ==> comes_before(
                            sort_id((#[trigger] sorted@[j])@),
                            sort_id(diagnostic@),
                        ),
                decreases sorted@.len() - p,
            {
                p += 1;
            }
            let ghost models = diagnostic_models(sorted@);
            let ghost item = diagnostic@;
            proof {
                assert(forall|j: int|
                    0 <= j < p ==> comes_before(sort_id(#[trigger] models[j]), sort_id(item)));
                lemma_insert_stable(all.skip(n), models, p as int, item);
                assert(all.take(n)[n - 1] == all[n - 1]);
                assert(all.take(n)[n - 1] == last@);
                assert(all.skip(n - 1) =~= seq![item] + all.skip(n));
            }
            sorted.insert(p, diagnostic);
            assert(diagnostic_models(sorted@) =~= models.insert(p as int, item));
            assert(diagnostic_models(rest@) =~= all.take(n - 1));
        }
    }
    assert(all.skip(0) =~= all);
    sorted
}

} // verus!
