//! What the analysis reads of a source file: its path, its items, and the
//! modules they declare.

use vstd::prelude::*;
use crate::base::{FileId, FileSymbol, SourceRootId, SyntaxKind, TextRange};
use crate::scope::BodyEvent;

verus! {

/// The path of a source file inside its source root: the directories from
/// the root down, and the file's name without its extension.
#[derive(Debug, PartialEq, Eq, Hash)]
pub struct SourcePath {
    pub dir: Vec<String>,
    pub stem: String,
}

/// A path as a mathematical value.
pub struct PathModel {
    pub dir: Seq<Seq<char>>,
    pub stem: Seq<char>,
}

/// The characters of each string.
pub open spec fn texts(names: Seq<String>) -> Seq<Seq<char>> {
    Seq::new(names.len(), |i: int| names[i]@)
}

impl View for SourcePath {
    type V = PathModel;

    open spec fn view(&self) -> PathModel {
        PathModel { dir: texts(self.dir@), stem: self.stem@ }
    }
}

impl PathModel {
    /// The file `stem` in the same directory.
    pub open spec fn with_stem(self, stem: Seq<char>) -> PathModel {
        PathModel { dir: self.dir, stem }
    }

    /// The file `stem` in the directory `name` below this path's directory.
    pub open spec fn below(self, name: Seq<char>, stem: Seq<char>) -> PathModel {
        PathModel { dir: self.dir.push(name), stem }
    }

    /// The path `other`, read from the directory of this path.
    pub open spec fn join(self, other: PathModel) -> PathModel {
        PathModel { dir: self.dir + other.dir, stem: other.stem }
    }

    /// Whether the file owns its directory: `mod`, `lib` or `main`.
    pub open spec fn is_dir_owner(self) -> bool {
        self.stem == "mod"@ || self.stem == "lib"@ || self.stem == "main"@
    }
}

/// A copy of the strings.
pub fn copy_strings(names: &Vec<String>) -> (r: Vec<String>)
    ensures
        r@ == names@,
{
    let mut r: Vec<String> = Vec::new();
    let mut i: usize = 0;
    while i < names.len()
        invariant
            i <= names.len(),
            r@ == names@.take(i as int),
        decreases names.len() - i,
    {
        r.push(names[i].clone());
        assert(names@.take(i as int + 1) =~= names@.take(i as int).push(names@[i as int]));
        i = i + 1;
    }
    assert(names@.take(i as int) =~= names@);
    r
}

impl SourcePath {
    /// A copy of the path.
    pub fn duplicate(&self) -> (r: SourcePath)
        ensures
            r@ == self@,
            r.dir@ == self.dir@,
            r.stem == self.stem,
    {
        SourcePath { dir: copy_strings(&self.dir), stem: self.stem.clone() }
    }

    /// Whether two paths name the same file.
    pub fn is_same(&self, other: &SourcePath) -> (b: bool)
        ensures
            b == (self@ == other@),
    {
        if !(self.stem == other.stem) || self.dir.len() != other.dir.len() {
            assert(self@.dir.len() == self.dir@.len());
            assert(other@.dir.len() == other.dir@.len());
            return false;
        }
        let mut i: usize = 0;
        while i < self.dir.len()
            invariant
                i <= self.dir.len(),
                self.dir.len() == other.dir.len(),
                self.stem@ == other.stem@,
                forall|k: int| 0 <= k < i ==> self.dir@[k]@ == other.dir@[k]@,
            decreases self.dir.len() - i,
        {
            if !(self.dir[i] == other.dir[i]) {
                assert(self@.dir[i as int] != other@.dir[i as int]);
                return false;
            }
            i = i + 1;
        }
        assert(self@.dir =~= other@.dir);
        true
    }

    /// The file `stem` in the same directory.
    pub fn with_stem(&self, stem: &String) -> (r: SourcePath)
        ensures
            r@ == self@.with_stem(stem@),
    {
        SourcePath { dir: copy_strings(&self.dir), stem: stem.clone() }
    }

    /// The file `stem` in the directory `name` below this path's directory.
    pub fn below(&self, name: &String, stem: &String) -> (r: SourcePath)
        ensures
            r@ == self@.below(name@, stem@),
    {
        let mut dir = copy_strings(&self.dir);
        dir.push(name.clone());
        let r = SourcePath { dir, stem: stem.clone() };
        assert(r@.dir =~= self@.dir.push(name@));
        r
    }

    /// The path `other`, read from the directory of this path.
    pub fn join(&self, other: &SourcePath) -> (r: SourcePath)
        ensures
            r@ == self@.join(other@),
    {
        let mut dir = copy_strings(&self.dir);
        let mut i: usize = 0;
        while i < other.dir.len()
            invariant
                i <= other.dir.len(),
                dir@ == self.dir@ + other.dir@.take(i as int),
            decreases other.dir.len() - i,
        {
            dir.push(other.dir[i].clone());
            assert(other.dir@.take(i as int + 1) =~= other.dir@.take(i as int).push(
                other.dir@[i as int],
            ));
            assert(dir@ =~= self.dir@ + other.dir@.take(i as int + 1));
            i = i + 1;
        }
        assert(other.dir@.take(i as int) =~= other.dir@);
        let r = SourcePath { dir, stem: other.stem.clone() };
        assert(r@.dir =~= self@.dir + other@.dir);
        r
    }

    /// Whether the file owns its directory: `mod`, `lib` or `main`.
    pub fn is_dir_owner(&self) -> (b: bool)
        ensures
            b == self@.is_dir_owner(),
    {
        let m = String::from_str("mod");
        let l = String::from_str("lib");
        let n = String::from_str("main");
        self.stem == m || self.stem == l || self.stem == n
    }
}

/// How the path of an import begins.
#[derive(Clone, Copy, Debug, PartialEq, Eq, Structural, Hash)]
pub enum PathKind {
    Plain,
    SelfPath,
    Super,
    Crate,
}

/// What an item is.
#[derive(Debug, PartialEq, Eq)]
pub enum ItemKind {
    /// A module: declared with a semicolon, its body in a file of its own, or
    /// defined inline.
    Module { has_semi: bool },
    /// A `use` item: the path it imports, and whether it ends in `*`.
    Import { path_kind: PathKind, segments: Vec<String>, is_glob: bool },
    /// A function: whether it takes `self`, the texts of its parameters
    /// (that of `self` included), and the walk through its body.
    Function { has_self: bool, params: Vec<String>, body: Vec<BodyEvent> },
    /// Any other item.
    Other { syntax_kind: SyntaxKind },
}

/// An item of a file.
#[derive(Debug, PartialEq, Eq)]
pub struct SourceItem {
    pub kind: ItemKind,
    /// The item's name, where it has one.
    pub name: Option<String>,
    /// Where the name stands.
    pub name_range: TextRange,
    /// Where the item stands.
    pub range: TextRange,
    /// The inline module that the item stands in: its position among the
    /// items of the file. Nothing for an item at the top of the file.
    pub parent: Option<usize>,
}

impl SourceItem {
    /// The item is a module with a name.
    pub open spec fn is_module(&self) -> bool {
        self.kind is Module && self.name is Some
    }

    /// The item is a module with a name and a body of its own.
    pub open spec fn is_inline_module(&self) -> bool {
        self.is_module() && self.kind == (ItemKind::Module { has_semi: false })
    }
}

/// What the syntax of one file gives: its symbols and its items, each in
/// source order.
#[derive(Debug, PartialEq, Eq)]
pub struct SourceFile {
    pub symbols: Vec<FileSymbol>,
    pub items: Vec<SourceItem>,
}

/// A file as the analysis holds it.
#[derive(Debug, PartialEq, Eq)]
pub struct FileData {
    pub file_id: FileId,
    pub source_root: SourceRootId,
    pub path: SourcePath,
    pub text: String,
    pub syntax: SourceFile,
    /// The revision at which the file was last set.
    pub changed_at: u64,
}

/// A file as a mathematical value.
pub struct FileModel {
    pub file_id: FileId,
    pub source_root: SourceRootId,
    pub path: PathModel,
    pub text: Seq<char>,
    pub symbols: Seq<FileSymbol>,
    pub items: Seq<SourceItem>,
    pub changed_at: u64,
}

impl View for FileData {
    type V = FileModel;

    open spec fn view(&self) -> FileModel {
        FileModel {
            file_id: self.file_id,
            source_root: self.source_root,
            path: self.path@,
            text: self.text@,
            symbols: self.syntax.symbols@,
            items: self.syntax.items@,
            changed_at: self.changed_at,
        }
    }
}

/// Where the body of a module stands: a whole file, or an inline module, named
/// by its file and its position among the items of that file.
#[derive(Clone, Copy, Debug, PartialEq, Eq, Structural, Hash)]
pub enum ModuleSource {
    File(FileId),
    Inline(FileId, usize),
}

impl ModuleSource {
    /// The file that the module stands in.
    pub open spec fn spec_file_id(self) -> FileId {
        match self {
            ModuleSource::File(f) => f,
            ModuleSource::Inline(f, _) => f,
        }
    }

    /// The file that the module stands in.
    #[verifier::when_used_as_spec(spec_file_id)]
    pub fn file_id(self) -> (f: FileId)
        ensures
            f == self.spec_file_id(),
    {
        match self {
            ModuleSource::File(f) => f,
            ModuleSource::Inline(f, _) => f,
        }
    }

    /// The item that defines the module; nothing for a whole file.
    pub open spec fn spec_item(self) -> Option<usize> {
        match self {
            ModuleSource::File(_) => None,
            ModuleSource::Inline(_, i) => Some(i),
        }
    }

    /// The item that defines the module; nothing for a whole file.
    #[verifier::when_used_as_spec(spec_item)]
    pub fn item(self) -> (i: Option<usize>)
        ensures
            i == self.spec_item(),
    {
        match self {
            ModuleSource::File(_) => None,
            ModuleSource::Inline(_, i) => Some(i),
        }
    }
}

} // verus!
