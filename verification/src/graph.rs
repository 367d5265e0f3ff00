//! Which files import which.

use crate::collections::{in_order, is_listed, views, SortedMap, SortedSet};
use crate::path::{normalized, FilePath};
use crate::reach::{add_edge, edges, explore, reachable, steps};
use vstd::prelude::*;

verus! {

/// What is known of a file of a project, besides its path.
#[derive(Debug)]
pub struct FileEntry {
    pub module: String,
    /// The path as it was written.
    pub spelling: String,
}

pub struct EntryModel {
    pub module: Seq<char>,
    pub spelling: Seq<char>,
}

impl View for FileEntry {
    type V = EntryModel;

    open spec fn view(&self) -> EntryModel {
        EntryModel { module: self.module@, spelling: self.spelling@ }
    }
}

pub open spec fn modules_of(entries: Map<Seq<char>, EntryModel>) -> Map<Seq<char>, Seq<char>> {
    entries.map_values(|entry: EntryModel| entry.module)
}

pub open spec fn spellings_of(entries: Map<Seq<char>, EntryModel>) -> Map<Seq<char>, Seq<char>> {
    entries.map_values(|entry: EntryModel| entry.spelling)
}

/// Whether each path is the one that its spelling stands for.
pub open spec fn spells_paths(entries: Map<Seq<char>, EntryModel>) -> bool {
    forall|file: Seq<char>| #[trigger]
        entries.contains_key(file) ==> normalized(entries[file].spelling) == file
}

/// The files of a project, each with its module path, and the imports between them.
pub struct FileImportGraph {
    files: SortedMap<FilePath, FileEntry>,
    imports: SortedMap<FilePath, SortedSet<FilePath>>,
}

pub struct GraphModel {
    /// The module path of each file.
    pub files: Map<Seq<char>, Seq<char>>,
    /// How the path of each file is written.
    pub spellings: Map<Seq<char>, Seq<char>>,
    /// Pairs of an importing file and a file that it imports.
    pub imports: Set<(Seq<char>, Seq<char>)>,
}

/// The step from a file to a file that it imports.
pub open spec fn import_step(graph: GraphModel) -> spec_fn(Seq<char>, Seq<char>) -> bool {
    |from: Seq<char>, to: Seq<char>| graph.imports.contains((from, to))
}

/// The files that are imported, directly or not, from the given ones, and these themselves.
pub open spec fn live_files(graph: GraphModel, roots: Set<Seq<char>>) -> Set<Seq<char>> {
    reachable(roots, import_step(graph))
}

impl View for FileImportGraph {
    type V = GraphModel;

    closed spec fn view(&self) -> GraphModel {
        GraphModel {
            files: modules_of(self.files@),
            spellings: spellings_of(self.files@),
            imports: edges(self.imports@),
        }
    }
}

impl FileImportGraph {
    #[verifier::type_invariant]
    spec fn spells_its_files(self) -> bool {
        spells_paths(self.files@)
    }

    pub fn new() -> (graph: FileImportGraph)
        ensures
            graph@ == (GraphModel {
                files: Map::empty(),
                spellings: Map::empty(),
                imports: Set::empty(),
            }),
    {
        let graph = FileImportGraph { files: SortedMap::new(), imports: SortedMap::new() };
        assert(graph@.files =~= Map::empty());
        assert(graph@.spellings =~= Map::empty());
        assert(graph@.imports =~= Set::empty());
        graph
    }

    /// Adds a file, or gives it another module path; its path stays as it was written first.
    pub fn add_file(&mut self, file_path: FilePath, module: String)
        ensures
            final(self)@ == (GraphModel {
                files: old(self)@.files.insert(file_path@, module@),
                spellings: if old(self)@.files.contains_key(file_path@) {
                    old(self)@.spellings
                } else {
                    old(self)@.spellings.insert(file_path@, file_path.spelling())
                },
                imports: old(self)@.imports,
            }),
    {
        let ghost before = *self;
        proof {
            use_type_invariant(&*self);
        }
        let spelling = match self.files.get(&file_path) {
            Some(entry) => entry.spelling.clone(),
            None => file_path.display().to_string(),
        };
        assert(normalized(spelling@) == file_path@);
        let ghost added = EntryModel { module: module@, spelling: spelling@ };
        let mut files: SortedMap<FilePath, FileEntry> = SortedMap::new();
        std::mem::swap(&mut files, &mut self.files);
        files.insert(file_path, FileEntry { module, spelling });
        self.files = files;
        proof {
            assert(self.files@ == before.files@.insert(file_path@, added));
            assert(self@.files =~= before@.files.insert(file_path@, module@));
            assert(self@.spellings =~= if before@.files.contains_key(file_path@) {
                before@.spellings
            } else {
                before@.spellings.insert(file_path@, file_path.spelling())
            });
            assert(self@.imports =~= before@.imports);
        }
    }

    pub fn has_file(&self, file_path: &FilePath) -> (yes: bool)
        ensures
            yes == self@.files.contains_key(file_path@),
    {
        self.files.contains_key(file_path)
    }

    pub fn module_of(&self, file_path: &FilePath) -> (module: Option<&String>)
        ensures
            match module {
                Some(m) => self@.files.contains_key(file_path@) && self@.files[file_path@] == m@,
                None => !self@.files.contains_key(file_path@),
            },
    {
        match self.files.get(file_path) {
            Some(entry) => Some(&entry.module),
            None => None,
        }
    }

    /// The module path of a file, and how its path is written.
    pub fn entry_of(&self, file_path: &FilePath) -> (entry: Option<&FileEntry>)
        ensures
            match entry {
                Some(e) => self@.files.contains_key(file_path@) && self@.files[file_path@]
                    == e.module@ && self@.spellings[file_path@] == e.spelling@ && normalized(
                    e.spelling@,
                ) == file_path@,
                None => !self@.files.contains_key(file_path@),
            },
    {
        proof {
            use_type_invariant(self);
        }
        self.files.get(file_path)
    }

    pub fn add_import(&mut self, from: &FilePath, to: &FilePath)
        ensures
            final(self)@ == (GraphModel {
                imports: old(self)@.imports.insert((from@, to@)),
                ..old(self)@
            }),
    {
        proof {
            use_type_invariant(&*self);
        }
        let mut imports: SortedMap<FilePath, SortedSet<FilePath>> = SortedMap::new();
        std::mem::swap(&mut imports, &mut self.imports);
        add_edge(&mut imports, from, to);
        self.imports = imports;
    }

    /// The number of files.
    pub fn file_count(&self) -> (n: usize)
        ensures
            n == in_order::<FilePath>(self@.files.dom()).len(),
            is_listed::<FilePath>(self@.files.dom()),
    {
        assert(self@.files.dom() =~= self.files@.dom());
        self.files.len()
    }

    /// The file at position `i` in increasing order.
    pub fn file_at(&self, i: usize) -> (file_path: &FilePath)
        requires
            i < in_order::<FilePath>(self@.files.dom()).len(),
        ensures
            file_path@ == in_order::<FilePath>(self@.files.dom())[i as int],
            self@.files.contains_key(file_path@),
    {
        assert(self@.files.dom() =~= self.files@.dom());
        self.files.key_at(i)
    }

    /// The given files and everything they import, directly or not.
    pub fn reachable_from(&self, roots: &Vec<FilePath>) -> (found: SortedSet<FilePath>)
        ensures
            found@ == live_files(self@, views(roots@).to_set()),
            is_listed::<FilePath>(found@),
    {
        let start = SortedSet::from_list(roots);
        assert(steps(self.imports@) =~= import_step(self@));
        explore(&start, &self.imports)
    }
}

} // verus!
