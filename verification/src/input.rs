//! The inputs of the analysis: source roots, the crate graph, and the change
//! set through which the host replaces them.

use vstd::prelude::*;
use crate::base::{CrateId, FileId, SourceRootId};
use crate::symbol_index::SymbolIndex;
use crate::syntax::{PathModel, SourceFile, SourcePath};

verus! {

/// A source root: the files of a package or a library, by their paths, in
/// the order in which they were added.
#[derive(Debug, PartialEq, Eq)]
pub struct SourceRoot {
    pub files: Vec<(SourcePath, FileId)>,
}

/// The entries of a root as mathematical values.
pub open spec fn entries_of(files: Seq<(SourcePath, FileId)>) -> Seq<(PathModel, FileId)> {
    Seq::new(files.len(), |i: int| (files[i].0@, files[i].1))
}

impl View for SourceRoot {
    type V = Seq<(PathModel, FileId)>;

    open spec fn view(&self) -> Seq<(PathModel, FileId)> {
        entries_of(self.files@)
    }
}

/// The first position from `from` on at which `path` stands.
pub open spec fn position_of(entries: Seq<(PathModel, FileId)>, path: PathModel, from: int) -> Option<
    int,
>
    decreases entries.len() - from,
{
    if from < 0 || from >= entries.len() {
        None
    } else if entries[from].0 == path {
        Some(from)
    } else {
        position_of(entries, path, from + 1)
    }
}

/// The file at `path`.
pub open spec fn file_at(entries: Seq<(PathModel, FileId)>, path: PathModel) -> Option<FileId> {
    match position_of(entries, path, 0) {
        Some(k) => Some(entries[k].1),
        None => None,
    }
}

/// The entries with `file_id` at `path`: in the place of the file that
/// stood there, or behind the other files.
pub open spec fn insert_entry(entries: Seq<(PathModel, FileId)>, path: PathModel, file_id: FileId) -> Seq<
    (PathModel, FileId),
> {
    match position_of(entries, path, 0) {
        Some(k) => entries.update(k, (path, file_id)),
        None => entries.push((path, file_id)),
    }
}

/// The entries without the file at `path`.
pub open spec fn remove_entry(entries: Seq<(PathModel, FileId)>, path: PathModel) -> Seq<
    (PathModel, FileId),
> {
    match position_of(entries, path, 0) {
        Some(k) => entries.remove(k),
        None => entries,
    }
}

impl SourceRoot {
    /// A root without files.
    pub fn new() -> (r: SourceRoot)
        ensures
            r@ == Seq::<(PathModel, FileId)>::empty(),
    {
        let r = SourceRoot { files: Vec::new() };
        assert(r@ =~= Seq::empty());
        r
    }

    /// The position of the first entry at `path`.
    pub fn position(&self, path: &SourcePath) -> (r: Option<usize>)
        ensures
            match r {
                Some(k) => k < self.files.len() && position_of(self@, path@, 0) == Some(k as int),
                None => position_of(self@, path@, 0).is_none(),
            },
    {
        let mut i: usize = 0;
        while i < self.files.len()
            invariant
                i <= self.files.len(),
                position_of(self@, path@, 0) == position_of(self@, path@, i as int),
            decreases self.files.len() - i,
        {
            if self.files[i].0.is_same(path) {
                return Some(i);
            }
            i = i + 1;
        }
        None
    }

    /// The file at `path`.
    pub fn get(&self, path: &SourcePath) -> (r: Option<FileId>)
        ensures
            r == file_at(self@, path@),
    {
        match self.position(path) {
            Some(k) => Some(self.files[k].1),
            None => None,
        }
    }

    /// Puts `file_id` at `path`: in the place of the file that stood there,
    /// or behind the other files.
    pub fn insert(&mut self, path: SourcePath, file_id: FileId)
        ensures
            final(self)@ == insert_entry(old(self)@, path@, file_id),
    {
        match self.position(&path) {
            Some(k) => {
                self.files.set(k, (path, file_id));
                assert(self@ =~= insert_entry(old(self)@, path@, file_id));
            },
            None => {
                self.files.push((path, file_id));
                assert(self@ =~= insert_entry(old(self)@, path@, file_id));
            },
        }
    }

    /// Takes the file at `path` out of the root, if one stands there.
    pub fn remove(&mut self, path: &SourcePath)
        ensures
            final(self)@ == remove_entry(old(self)@, path@),
    {
        match self.position(path) {
            Some(k) => {
                self.files.remove(k);
                assert(self@ =~= remove_entry(old(self)@, path@));
            },
            None => {},
        }
    }

    /// A copy of the root.
    pub fn duplicate(&self) -> (r: SourceRoot)
        ensures
            r@ == self@,
    {
        let mut files: Vec<(SourcePath, FileId)> = Vec::new();
        let mut i: usize = 0;
        while i < self.files.len()
            invariant
                i <= self.files.len(),
                files.len() == i,
                forall|k: int|
                    0 <= k < i ==> (#[trigger] files@[k]).0@ == self.files@[k].0@ && files@[k].1
                        == self.files@[k].1,
            decreases self.files.len() - i,
        {
            files.push((self.files[i].0.duplicate(), self.files[i].1));
            i = i + 1;
        }
        let r = SourceRoot { files };
        assert(r@ =~= self@);
        r
    }
}

/// A dependency of a crate on another one, under a name.
#[derive(Debug, PartialEq, Eq)]
pub struct CrateDep {
    pub from: CrateId,
    pub name: String,
    pub to: CrateId,
}

/// The crate graph: for each crate, the file at its root; and the
/// dependencies between the crates. The graph is taken to have no cycle;
/// nothing here follows its dependencies.
#[derive(Debug, PartialEq, Eq)]
pub struct CrateGraph {
    pub roots: Vec<(CrateId, FileId)>,
    pub deps: Vec<CrateDep>,
}

/// The dependencies among the first `upto` that start at `from`, each with
/// its name.
pub open spec fn deps_from(deps: Seq<CrateDep>, from: CrateId, upto: int) -> Seq<(String, CrateId)>
    decreases upto,
{
    if upto <= 0 {
        Seq::empty()
    } else {
        let rest = deps_from(deps, from, upto - 1);
        if deps[upto - 1].from == from {
            rest.push((deps[upto - 1].name, deps[upto - 1].to))
        } else {
            rest
        }
    }
}

/// The first position from `from` on that holds a crate rooted at `file_id`.
pub open spec fn crate_position(roots: Seq<(CrateId, FileId)>, file_id: FileId, from: int) -> Option<
    int,
>
    decreases roots.len() - from,
{
    if from < 0 || from >= roots.len() {
        None
    } else if roots[from].1 == file_id {
        Some(from)
    } else {
        crate_position(roots, file_id, from + 1)
    }
}

/// The first position from `from` on that holds the crate `crate_id`.
pub open spec fn root_position(roots: Seq<(CrateId, FileId)>, crate_id: CrateId, from: int) -> Option<
    int,
>
    decreases roots.len() - from,
{
    if from < 0 || from >= roots.len() {
        None
    } else if roots[from].0 == crate_id {
        Some(from)
    } else {
        root_position(roots, crate_id, from + 1)
    }
}

impl CrateGraph {
    /// A graph without crates.
    pub fn new() -> (g: CrateGraph)
        ensures
            g.roots@ == Seq::<(CrateId, FileId)>::empty(),
            g.deps@ == Seq::<CrateDep>::empty(),
    {
        CrateGraph { roots: Vec::new(), deps: Vec::new() }
    }

    /// Adds a dependency of the crate `from` on the crate `to`, under `name`.
    pub fn add_dep(&mut self, from: CrateId, name: String, to: CrateId)
        ensures
            final(self).roots@ == old(self).roots@,
            final(self).deps@ == old(self).deps@.push(CrateDep { from, name, to }),
    {
        self.deps.push(CrateDep { from, name, to });
    }

    /// The crates that a crate depends on, each with the name of the
    /// dependency, in the order in which they were added.
    pub fn dependencies(&self, from: CrateId) -> (r: Vec<(String, CrateId)>)
        ensures
            r@ == deps_from(self.deps@, from, self.deps@.len() as int),
    {
        let mut r: Vec<(String, CrateId)> = Vec::new();
        let mut i: usize = 0;
        while i < self.deps.len()
            invariant
                i <= self.deps.len(),
                r@ == deps_from(self.deps@, from, i as int),
            decreases self.deps.len() - i,
        {
            if self.deps[i].from == from {
                r.push((self.deps[i].name.clone(), self.deps[i].to));
            }
            i = i + 1;
        }
        r
    }

    /// Adds a crate with its root file; its identity is its number in the
    /// graph. Nothing is added once identities run out.
    pub fn add_crate_root(&mut self, file_id: FileId) -> (r: Option<CrateId>)
        ensures
            match r {
                Some(id) => id.0 == old(self).roots@.len() && final(self).roots@ == old(
                    self,
                ).roots@.push((id, file_id)),
                None => old(self).roots@.len() > u32::MAX && final(self).roots@ == old(self).roots@,
            },
            final(self).deps@ == old(self).deps@,
    {
        let n = self.roots.len();
        if n > u32::MAX as usize {
            return None;
        }
        let id = CrateId(n as u32);
        self.roots.push((id, file_id));
        Some(id)
    }

    /// The crate that `file_id` is the root of: the first one in the graph.
    pub fn crate_id_for_crate_root(&self, file_id: FileId) -> (r: Option<CrateId>)
        ensures
            r == match crate_position(self.roots@, file_id, 0) {
                Some(k) => Some(self.roots@[k].0),
                None => None,
            },
    {
        let mut i: usize = 0;
        while i < self.roots.len()
            invariant
                i <= self.roots.len(),
                crate_position(self.roots@, file_id, 0) == crate_position(self.roots@, file_id, i as int),
            decreases self.roots.len() - i,
        {
            if self.roots[i].1 == file_id {
                return Some(self.roots[i].0);
            }
            i = i + 1;
        }
        None
    }

    /// The root file of a crate, or nothing for a crate that the graph does
    /// not hold.
    pub fn crate_root(&self, crate_id: CrateId) -> (r: Option<FileId>)
        ensures
            r == match root_position(self.roots@, crate_id, 0) {
                Some(k) => Some(self.roots@[k].1),
                None => None,
            },
    {
        let mut i: usize = 0;
        while i < self.roots.len()
            invariant
                i <= self.roots.len(),
                root_position(self.roots@, crate_id, 0) == root_position(self.roots@, crate_id, i as int),
            decreases self.roots.len() - i,
        {
            if self.roots[i].0 == crate_id {
                return Some(self.roots[i].1);
            }
            i = i + 1;
        }
        None
    }
}

/// A file that enters a source root.
pub struct AddFile {
    pub file_id: FileId,
    pub path: SourcePath,
    pub text: String,
    pub syntax: SourceFile,
}

/// A file that leaves a source root.
pub struct RemoveFile {
    pub file_id: FileId,
    pub path: SourcePath,
}

/// What changes in one source root.
pub struct RootChange {
    pub added: Vec<AddFile>,
    pub removed: Vec<RemoveFile>,
}

/// A file whose text changes.
pub struct ChangeFile {
    pub file_id: FileId,
    pub text: String,
    pub syntax: SourceFile,
}

/// A library: its root, its files, and the symbol index that was built for
/// it beforehand.
pub struct LibraryData {
    pub root_id: SourceRootId,
    pub root_change: RootChange,
    pub symbol_index: SymbolIndex,
}

/// One atomic change of the inputs. Every part may be empty.
pub struct AnalysisChange {
    pub new_roots: Vec<(SourceRootId, bool)>,
    pub roots_changed: Vec<(SourceRootId, RootChange)>,
    pub files_changed: Vec<ChangeFile>,
    pub libraries_added: Vec<LibraryData>,
    pub crate_graph: Option<CrateGraph>,
}

impl AnalysisChange {
    /// The change that changes nothing.
    pub fn new() -> (c: AnalysisChange)
        ensures
            c.new_roots@.len() == 0,
            c.roots_changed@.len() == 0,
            c.files_changed@.len() == 0,
            c.libraries_added@.len() == 0,
            c.crate_graph.is_none(),
    {
        AnalysisChange {
            new_roots: Vec::new(),
            roots_changed: Vec::new(),
            files_changed: Vec::new(),
            libraries_added: Vec::new(),
            crate_graph: None,
        }
    }
}

} // verus!
