//! What imported names and dotted expressions stand for.

use crate::ast::Expr;
use crate::collections::SortedMap;
use crate::keys::{SymbolId, SymbolKey};
use crate::path::FilePath;
use crate::text::{cut_last, dotted, join_dotted, rsplit_once};
use vstd::prelude::*;

verus! {

pub open spec fn text_of(text: Option<String>) -> Option<Seq<char>> {
    match text {
        Some(t) => Some(t@),
        None => None,
    }
}

pub open spec fn path_of(path: Option<FilePath>) -> Option<Seq<char>> {
    match path {
        Some(p) => Some(p@),
        None => None,
    }
}

pub open spec fn id_of(key: Option<SymbolKey>) -> Option<SymbolId> {
    match key {
        Some(k) => Some(k@),
        None => None,
    }
}

/// The file that a dotted path leads to.
#[derive(Debug)]
pub struct ResolvedModule {
    pub file_path: FilePath,
    /// The name within the file, where the path goes one step beyond the file's module.
    pub member_name: Option<String>,
    /// The module path of the file, where it lies below a source root.
    pub file_module: Option<String>,
}

pub struct ResolvedModel {
    pub file: Seq<char>,
    pub member: Option<Seq<char>>,
    pub file_module: Option<Seq<char>>,
}

impl View for ResolvedModule {
    type V = ResolvedModel;

    open spec fn view(&self) -> ResolvedModel {
        ResolvedModel {
            file: self.file_path@,
            member: text_of(self.member_name),
            file_module: text_of(self.file_module),
        }
    }
}

/// What the source roots hold for one dotted path.
#[derive(Debug)]
pub struct ModuleLookup {
    /// The file of the module with exactly this path.
    pub module_file: Option<FilePath>,
    /// The file of the module with this path, or of the module it names a member of.
    pub resolved: Option<ResolvedModule>,
}

pub struct LookupModel {
    pub module_file: Option<Seq<char>>,
    pub resolved: Option<ResolvedModel>,
}

impl View for ModuleLookup {
    type V = LookupModel;

    open spec fn view(&self) -> LookupModel {
        LookupModel {
            module_file: path_of(self.module_file),
            resolved: match self.resolved {
                Some(r) => Some(r@),
                None => None,
            },
        }
    }
}

/// Answers about dotted paths; a path without an answer is not found.
pub type ModuleIndex = SortedMap<String, ModuleLookup>;

pub type IndexModel = Map<Seq<char>, LookupModel>;

/// The file of the module with path `module`.
pub open spec fn module_file(index: IndexModel, module: Seq<char>) -> Option<Seq<char>> {
    if index.contains_key(module) {
        index[module].module_file
    } else {
        None
    }
}

/// The file that `path` leads to, as a module or as a member of one.
pub open spec fn member_file(index: IndexModel, path: Seq<char>) -> Option<ResolvedModel> {
    if index.contains_key(path) {
        index[path].resolved
    } else {
        None
    }
}

pub fn find_module_file<'a>(index: &'a ModuleIndex, module: &String) -> (file: Option<&'a FilePath>)
    ensures
        match file {
            Some(f) => module_file(index@, module@) == Some(f@),
            None => module_file(index@, module@) is None,
        },
{
    match index.get(module) {
        Some(lookup) => lookup.module_file.as_ref(),
        None => None,
    }
}

pub fn find_member_file<'a>(index: &'a ModuleIndex, path: &String) -> (file: Option<
    &'a ResolvedModule,
>)
    ensures
        match file {
            Some(f) => member_file(index@, path@) == Some(f@),
            None => member_file(index@, path@) is None,
        },
{
    match index.get(path) {
        Some(lookup) => lookup.resolved.as_ref(),
        None => None,
    }
}

/// What an imported name stands for.
#[derive(Debug)]
pub enum ImportTarget {
    Module(String),
    Symbol(SymbolKey),
}

pub enum TargetModel {
    Module(Seq<char>),
    Symbol(SymbolId),
}

impl View for ImportTarget {
    type V = TargetModel;

    open spec fn view(&self) -> TargetModel {
        match self {
            ImportTarget::Module(m) => TargetModel::Module(m@),
            ImportTarget::Symbol(k) => TargetModel::Symbol(k@),
        }
    }
}

/// The imported names of a module.
pub type ImportMap = SortedMap<String, ImportTarget>;

pub type ImportModel = Map<Seq<char>, TargetModel>;

/// What `path` stands for when it is imported with `from`: a module where one has this path, else
/// a member of the module that the path leads to, else a symbol named by the last segment.
pub open spec fn import_target(index: IndexModel, path: Seq<char>) -> TargetModel {
    if module_file(index, path) is Some {
        TargetModel::Module(path)
    } else {
        match member_file(index, path) {
            Some(resolved) => match (resolved.member, resolved.file_module) {
                (Some(member), Some(module)) => TargetModel::Symbol((module, member)),
                _ => TargetModel::Module(path),
            },
            None => match cut_last(path, '.') {
                Some((module, name)) => TargetModel::Symbol((module, name)),
                None => TargetModel::Module(path),
            },
        }
    }
}

pub fn import_target_from_path(index: &ModuleIndex, full_import: &String) -> (target: ImportTarget)
    ensures
        target@ == import_target(index@, full_import@),
{
    if find_module_file(index, full_import).is_some() {
        return ImportTarget::Module(full_import.clone());
    }
    if let Some(resolved) = find_member_file(index, full_import) {
        if let (Some(member), Some(module)) = (&resolved.member_name, &resolved.file_module) {
            return ImportTarget::Symbol(SymbolKey::new(module.clone(), member.clone()));
        }
        return ImportTarget::Module(full_import.clone());
    }
    match rsplit_once(full_import.as_str(), '.') {
        Some((module, name)) => ImportTarget::Symbol(
            SymbolKey::new(module.to_string(), name.to_string()),
        ),
        None => ImportTarget::Module(full_import.clone()),
    }
}

/// The module path that a dotted expression stands for.
pub open spec fn module_of_expr(expr: Expr, imports: ImportModel) -> Option<Seq<char>>
    decreases expr,
{
    match expr {
        Expr::Name { id, .. } => if imports.contains_key(id@) {
            match imports[id@] {
                TargetModel::Module(module) => Some(module),
                TargetModel::Symbol(_) => None,
            }
        } else {
            None
        },
        Expr::Attribute { value, attr, .. } => match module_of_expr(*value, imports) {
            Some(prefix) => Some(dotted(prefix, attr@)),
            None => None,
        },
        _ => None,
    }
}

pub fn resolve_module_expression(expr: &Expr, imports: &ImportMap) -> (module: Option<String>)
    ensures
        text_of(module) == module_of_expr(*expr, imports@),
    decreases *expr,
{
    match expr {
        Expr::Name { id, .. } => match imports.get(id) {
            Some(ImportTarget::Module(module)) => Some(module.clone()),
            _ => None,
        },
        Expr::Attribute { value, attr, .. } => match resolve_module_expression(value, imports) {
            Some(prefix) => Some(join_dotted(prefix.as_str(), attr.as_str())),
            None => None,
        },
        _ => None,
    }
}

/// A dotted expression as it is written.
pub open spec fn written_path(expr: Expr) -> Option<Seq<char>>
    decreases expr,
{
    match expr {
        Expr::Name { id, .. } => Some(id@),
        Expr::Attribute { value, attr, .. } => match written_path(*value) {
            Some(prefix) => Some(dotted(prefix, attr@)),
            None => None,
        },
        _ => None,
    }
}

pub fn raw_expression_path(expr: &Expr) -> (path: Option<String>)
    ensures
        text_of(path) == written_path(*expr),
    decreases *expr,
{
    match expr {
        Expr::Name { id, .. } => Some(id.clone()),
        Expr::Attribute { value, attr, .. } => match raw_expression_path(value) {
            Some(prefix) => Some(join_dotted(prefix.as_str(), attr.as_str())),
            None => None,
        },
        _ => None,
    }
}

/// The identifier, where an expression is a bare name.
pub open spec fn bare_name(expr: Expr) -> Option<Seq<char>> {
    match expr {
        Expr::Name { id, .. } => Some(id@),
        _ => None,
    }
}

pub fn simple_name(expr: &Expr) -> (name: Option<&String>)
    ensures
        match name {
            Some(n) => bare_name(*expr) == Some(n@),
            None => bare_name(*expr) is None,
        },
{
    match expr {
        Expr::Name { id, .. } => Some(id),
        _ => None,
    }
}

} // verus!
