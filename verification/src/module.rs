//! Modules: the submodules that a module declares or defines, the files that
//! declarations resolve to, and the module tree of a source root.

use std::sync::Arc;
use vstd::prelude::*;
use crate::base::{FileId, TextRange};
use crate::syntax::{FileData, FileModel, ItemKind, ModuleSource, PathModel, SourceItem, SourcePath};

verus! {

/// A submodule as its parent module names it.
#[derive(Debug, PartialEq, Eq)]
pub enum Submodule {
    /// `mod name;`: the body stands in another file.
    Declaration(String),
    /// `mod name { .. }`: the body stands inline.
    Definition(String, ModuleSource),
}

/// Why a module declaration resolves to no file.
#[derive(Debug, PartialEq, Eq)]
pub enum Problem {
    /// No file stands where the declaration looks for one; `candidate` is the
    /// first place it looks at.
    UnresolvedModule { candidate: SourcePath },
    /// The declaring file does not own its directory. To declare the module
    /// it has to move to `move_to`; the module's file is then `candidate`,
    /// read from there.
    NotDirOwner { move_to: SourcePath, candidate: SourcePath },
}

/// A problem as a mathematical value.
pub enum ProblemModel {
    UnresolvedModule { candidate: PathModel },
    NotDirOwner { move_to: PathModel, candidate: PathModel },
}

impl View for Problem {
    type V = ProblemModel;

    open spec fn view(&self) -> ProblemModel {
        match self {
            Problem::UnresolvedModule { candidate } => ProblemModel::UnresolvedModule {
                candidate: candidate@,
            },
            Problem::NotDirOwner { move_to, candidate } => ProblemModel::NotDirOwner {
                move_to: move_to@,
                candidate: candidate@,
            },
        }
    }
}

/// The view of a problem, where there is one.
pub open spec fn problem_view(p: Option<Problem>) -> Option<ProblemModel> {
    match p {
        Some(p) => Some(p@),
        None => None,
    }
}

/// The problems as mathematical values.
pub open spec fn problem_models(problems: Seq<(TextRange, Problem)>) -> Seq<(TextRange, ProblemModel)> {
    Seq::new(problems.len(), |i: int| (problems[i].0, problems[i].1@))
}

/// The item at `i` is a named module that stands directly in `parent`.
pub open spec fn is_module_in(items: Seq<SourceItem>, i: int, parent: Option<usize>) -> bool {
    0 <= i < items.len() && items[i].is_module() && items[i].parent == parent
}

/// The positions, among the first `upto` items, of the named modules that
/// stand directly in `parent`.
pub open spec fn modules_upto(items: Seq<SourceItem>, parent: Option<usize>, upto: int) -> Seq<usize>
    decreases upto,
{
    if upto <= 0 {
        Seq::empty()
    } else {
        let rest = modules_upto(items, parent, upto - 1);
        if is_module_in(items, upto - 1, parent) {
            rest.push((upto - 1) as usize)
        } else {
            rest
        }
    }
}

/// Every position that `modules_upto` lists is that of a named module in
/// `parent`, below `upto`.
pub proof fn lemma_modules_upto(items: Seq<SourceItem>, parent: Option<usize>, upto: int)
    requires
        upto <= items.len() <= usize::MAX,
    ensures
        forall|k: int|
            0 <= k < modules_upto(items, parent, upto).len() ==> is_module_in(
                items,
                (#[trigger] modules_upto(items, parent, upto)[k]) as int,
                parent,
            ) && modules_upto(items, parent, upto)[k] < upto,
    decreases upto,
{
    if upto > 0 {
        lemma_modules_upto(items, parent, upto - 1);
        let rest = modules_upto(items, parent, upto - 1);
        let all = modules_upto(items, parent, upto);
        assert forall|k: int| 0 <= k < all.len() implies is_module_in(
            items,
            (#[trigger] all[k]) as int,
            parent,
        ) && all[k] < upto by {
            if k < rest.len() {
                assert(all[k] == rest[k]);
            }
        }
    }
}

/// Whether the option holds a module item.
fn names_module(item: &SourceItem) -> (b: bool)
    ensures
        b == item.is_module(),
{
    match item.kind {
        ItemKind::Module { .. } => item.name.is_some(),
        _ => false,
    }
}

/// Whether two optional positions are the same.
fn same_parent(a: Option<usize>, b: Option<usize>) -> (r: bool)
    ensures
        r == (a == b),
{
    match (a, b) {
        (Some(x), Some(y)) => x == y,
        (None, None) => true,
        _ => false,
    }
}

/// The named modules that stand directly in `parent`, by their positions
/// among the items, in source order.
pub fn modules(items: &Vec<SourceItem>, parent: Option<usize>) -> (r: Vec<usize>)
    ensures
        r@ == modules_upto(items@, parent, items.len() as int),
{
    let mut r: Vec<usize> = Vec::new();
    let mut i: usize = 0;
    while i < items.len()
        invariant
            i <= items.len(),
            r@ == modules_upto(items@, parent, i as int),
        decreases items.len() - i,
    {
        if names_module(&items[i]) && same_parent(items[i].parent, parent) {
            r.push(i);
        }
        i = i + 1;
    }
    r
}

/// The submodule that the module item at `idx` stands for.
pub open spec fn submodule_at(source: ModuleSource, items: Seq<SourceItem>, idx: int) -> Submodule {
    let name = items[idx].name->Some_0;
    if items[idx].kind == (ItemKind::Module { has_semi: true }) {
        Submodule::Declaration(name)
    } else {
        Submodule::Definition(name, ModuleSource::Inline(source.file_id(), idx as usize))
    }
}

/// The submodules of the module at `source`, whose file has `items`.
pub open spec fn submodules_spec(source: ModuleSource, items: Seq<SourceItem>) -> Seq<Submodule> {
    let mods = modules_upto(items, source.item(), items.len() as int);
    Seq::new(mods.len(), |k: int| submodule_at(source, items, mods[k] as int))
}

/// The submodules of a module read nothing but the module items that stand
/// directly in it: an edit of the file that keeps those items where they
/// stand, with their names and with or without their bodies, keeps the
/// submodules, whatever else it changes. Submodules that are read anew
/// after such an edit are found the same, and keep the revision at which
/// they last changed.
pub proof fn law_submodules_read_module_items(source: ModuleSource, before: Seq<SourceItem>, after: Seq<SourceItem>)
    requires
        modules_upto(after, source.item(), after.len() as int) == modules_upto(
            before,
            source.item(),
            before.len() as int,
        ),
        forall|k: int|
            0 <= k < modules_upto(before, source.item(), before.len() as int).len() ==> {
                let idx = #[trigger] modules_upto(before, source.item(), before.len() as int)[k] as int;
                after[idx].name == before[idx].name && after[idx].kind == before[idx].kind
            },
    ensures
        submodules_spec(source, after) == submodules_spec(source, before),
        same_submodules(submodules_spec(source, before), submodules_spec(source, after)),
{
    assert(submodules_spec(source, after) =~= submodules_spec(source, before));
    lemma_same_submodules_reflexive(submodules_spec(source, before));
}

/// A list of submodules is the same as itself.
pub proof fn lemma_same_submodules_reflexive(subs: Seq<Submodule>)
    ensures
        same_submodules(subs, subs),
{
    assert forall|i: int| 0 <= i < subs.len() implies same_submodule(#[trigger] subs[i], subs[i]) by {
        match subs[i] {
            Submodule::Declaration(_) => {},
            Submodule::Definition(_, _) => {},
        }
    }
}

/// The submodules of the module at `source`: one for each named module that
/// stands directly in it, a declaration where the item ends in a semicolon,
/// a definition with its inline source where it has a body. `items` are the
/// items of the file of `source`.
pub fn submodules(source: ModuleSource, items: &Vec<SourceItem>) -> (r: Vec<Submodule>)
    ensures
        r@ == submodules_spec(source, items@),
{
    let mods = modules(items, source.item());
    let file_id = source.file_id();
    let mut r: Vec<Submodule> = Vec::new();
    let mut k: usize = 0;
    proof {
        lemma_modules_upto(items@, source.item(), items.len() as int);
    }
    while k < mods.len()
        invariant
            k <= mods.len(),
            mods@ == modules_upto(items@, source.item(), items.len() as int),
            file_id == source.file_id(),
            forall|j: int|
                0 <= j < mods.len() ==> is_module_in(items@, (#[trigger] mods@[j]) as int, source.item()),
            r.len() == k,
            forall|j: int| 0 <= j < k ==> #[trigger] r@[j] == submodule_at(source, items@, mods@[j] as int),
        decreases mods.len() - k,
    {
        let idx = mods[k];
        assert(is_module_in(items@, mods@[k as int] as int, source.item()));
        let item = &items[idx];
        let name = match &item.name {
            Some(n) => n.clone(),
            None => String::new(),
        };
        let sub = match item.kind {
            ItemKind::Module { has_semi } => if has_semi {
                Submodule::Declaration(name)
            } else {
                Submodule::Definition(name, ModuleSource::Inline(file_id, idx))
            },
            _ => Submodule::Declaration(name),
        };
        r.push(sub);
        k = k + 1;
    }
    assert(r@ =~= submodules_spec(source, items@));
    r
}

/// The files as mathematical values.
pub open spec fn file_models(files: Seq<Arc<FileData>>) -> Seq<FileModel> {
    Seq::new(files.len(), |i: int| files[i]@)
}

/// The position of the first file from `from` on that stands at `path`.
pub open spec fn find_path(files: Seq<FileModel>, path: PathModel, from: int) -> Option<int>
    decreases files.len() - from,
{
    if from < 0 || from >= files.len() {
        None
    } else if files[from].path == path {
        Some(from)
    } else {
        find_path(files, path, from + 1)
    }
}

/// The position of the first file from `from` on that has the identity
/// `file_id`.
pub open spec fn find_file(files: Seq<FileModel>, file_id: FileId, from: int) -> Option<int>
    decreases files.len() - from,
{
    if from < 0 || from >= files.len() {
        None
    } else if files[from].file_id == file_id {
        Some(from)
    } else {
        find_file(files, file_id, from + 1)
    }
}

/// The position of the first source from `from` on that is `source`.
pub open spec fn find_source(sources: Seq<ModuleSource>, source: ModuleSource, from: int) -> Option<
    int,
>
    decreases sources.len() - from,
{
    if from < 0 || from >= sources.len() {
        None
    } else if sources[from] == source {
        Some(from)
    } else {
        find_source(sources, source, from + 1)
    }
}

/// Where the declaration `mod name;` in the file at `path` looks for the
/// module's file: beside the declaring file, then in a directory of the
/// module's name. A file that does not own its directory has no such place.
pub open spec fn candidates(path: PathModel, name: Seq<char>) -> Seq<PathModel> {
    if path.is_dir_owner() {
        seq![path.with_stem(name), path.below(name, "mod"@)]
    } else {
        Seq::empty()
    }
}

/// The positions of the files that stand at the first `upto` of the
/// candidates, in the order of the candidates.
pub open spec fn found_files(files: Seq<FileModel>, places: Seq<PathModel>, upto: int) -> Seq<
    usize,
>
    decreases upto,
{
    if upto <= 0 {
        Seq::empty()
    } else {
        let rest = found_files(files, places, upto - 1);
        match find_path(files, places[upto - 1], 0) {
            Some(k) => rest.push(k as usize),
            None => rest,
        }
    }
}

/// The files that the declaration `mod name;` in the file at `path`
/// resolves to, by their positions.
pub open spec fn resolve_files(files: Seq<FileModel>, path: PathModel, name: Seq<char>) -> Seq<
    usize,
> {
    found_files(files, candidates(path, name), candidates(path, name).len() as int)
}

/// The problem of the declaration `mod name;` in the file at `path`, if it
/// has one.
pub open spec fn resolve_problem(files: Seq<FileModel>, path: PathModel, name: Seq<char>) -> Option<
    ProblemModel,
> {
    if !path.is_dir_owner() {
        Some(
            ProblemModel::NotDirOwner {
                move_to: path.below(path.stem, "mod"@),
                candidate: PathModel { dir: Seq::empty(), stem: name },
            },
        )
    } else if resolve_files(files, path, name).len() == 0 {
        Some(ProblemModel::UnresolvedModule { candidate: path.with_stem(name) })
    } else {
        None
    }
}

/// The first file that stands at `path`.
pub fn lookup_path(files: &Vec<Arc<FileData>>, path: &SourcePath) -> (r: Option<usize>)
    ensures
        match r {
            Some(k) => k < files.len() && find_path(file_models(files@), path@, 0) == Some(k as int),
            None => find_path(file_models(files@), path@, 0).is_none(),
        },
{
    let mut i: usize = 0;
    while i < files.len()
        invariant
            i <= files.len(),
            find_path(file_models(files@), path@, 0) == find_path(file_models(files@), path@, i as int),
        decreases files.len() - i,
    {
        if files[i].path.is_same(path) {
            return Some(i);
        }
        i = i + 1;
    }
    None
}

/// The first file that has the identity `file_id`.
pub fn lookup_file(files: &Vec<Arc<FileData>>, file_id: FileId) -> (r: Option<usize>)
    ensures
        match r {
            Some(k) => k < files.len() && files@[k as int].file_id == file_id && find_file(file_models(files@),
                file_id,
                0,
            ) == Some(k as int),
            None => find_file(file_models(files@), file_id, 0).is_none(),
        },
{
    let mut i: usize = 0;
    while i < files.len()
        invariant
            i <= files.len(),
            find_file(file_models(files@), file_id, 0) == find_file(file_models(files@), file_id, i as int),
        decreases files.len() - i,
    {
        if files[i].file_id == file_id {
            return Some(i);
        }
        i = i + 1;
    }
    None
}

/// Resolves the declaration `mod name;` in the file at `path` against the
/// files of its source root: the files it resolves to, by their positions,
/// and the problem where it resolves to none.
pub fn resolve_submodule(files: &Vec<Arc<FileData>>, path: &SourcePath, name: &String) -> (r: (
    Vec<usize>,
    Option<Problem>,
))
    ensures
        r.0@ == resolve_files(file_models(files@), path@, name@),
        problem_view(r.1) == resolve_problem(file_models(files@), path@, name@),
        forall|i: int| 0 <= i < r.0.len() ==> (#[trigger] r.0@[i]) < files.len(),
{
    let mut points_to: Vec<usize> = Vec::new();
    if !path.is_dir_owner() {
        let mod_stem = String::from_str("mod");
        let move_to = path.below(&path.stem, &mod_stem);
        let candidate = SourcePath { dir: Vec::new(), stem: name.clone() };
        assert(candidate@.dir =~= Seq::empty());
        return (points_to, Some(Problem::NotDirOwner { move_to, candidate }));
    }
    let mod_stem = String::from_str("mod");
    let file_mod = path.with_stem(name);
    let dir_mod = path.below(name, &mod_stem);
    let ghost places = candidates(path@, name@);
    proof {
        assert(places.len() == 2);
        assert(places[0] == file_mod@);
        assert(places[1] == dir_mod@);
        reveal_with_fuel(found_files, 3);
    }
    match lookup_path(files, &file_mod) {
        Some(k) => {
            points_to.push(k);
        },
        None => {},
    }
    assert(points_to@ =~= found_files(file_models(files@), places, 1));
    match lookup_path(files, &dir_mod) {
        Some(k) => {
            points_to.push(k);
        },
        None => {},
    }
    assert(points_to@ =~= found_files(file_models(files@), places, 2));
    let problem = if points_to.len() == 0 {
        Some(Problem::UnresolvedModule { candidate: file_mod })
    } else {
        None
    };
    (points_to, problem)
}

/// A module of the tree: where its body stands, and the link through which
/// its parent reaches it.
#[derive(Clone, Copy, Debug, PartialEq, Eq)]
pub struct ModuleData {
    pub source: ModuleSource,
    pub parent: Option<usize>,
}

/// A link of the tree: the module `owner` names a submodule `name` with its
/// item number `decl`; the link points to the modules that this resolves
/// to, or carries the problem that it resolves to none.
#[derive(Debug, PartialEq, Eq)]
pub struct LinkData {
    pub owner: usize,
    pub decl: usize,
    pub name: String,
    pub points_to: Vec<usize>,
    pub problem: Option<Problem>,
}

/// A link as a mathematical value.
pub struct LinkModel {
    pub owner: usize,
    pub decl: usize,
    pub name: Seq<char>,
    pub points_to: Seq<usize>,
    pub problem: Option<ProblemModel>,
}

impl View for LinkData {
    type V = LinkModel;

    open spec fn view(&self) -> LinkModel {
        LinkModel {
            owner: self.owner,
            decl: self.decl,
            name: self.name@,
            points_to: self.points_to@,
            problem: problem_view(self.problem),
        }
    }
}

/// The module tree of a source root: its modules, each file before the
/// inline modules that stand in it, and the links between them.
#[derive(Debug, PartialEq, Eq)]
pub struct ModuleTree {
    pub mods: Vec<ModuleData>,
    pub links: Vec<LinkData>,
}

/// The sources of the modules.
pub open spec fn sources_of(mods: Seq<ModuleData>) -> Seq<ModuleSource> {
    Seq::new(mods.len(), |i: int| mods[i].source)
}

/// The links as mathematical values.
pub open spec fn link_models(links: Seq<LinkData>) -> Seq<LinkModel> {
    Seq::new(links.len(), |i: int| links[i]@)
}

/// The modules of one file: the file itself, then the inline modules among
/// its first `upto` items.
pub open spec fn file_sources(file: FileModel, upto: int) -> Seq<ModuleSource>
    decreases upto,
{
    if upto <= 0 {
        seq![ModuleSource::File(file.file_id)]
    } else {
        let rest = file_sources(file, upto - 1);
        if file.items[upto - 1].is_inline_module() {
            rest.push(ModuleSource::Inline(file.file_id, (upto - 1) as usize))
        } else {
            rest
        }
    }
}

/// The modules of the first `upto` files.
pub open spec fn sources_upto(files: Seq<FileModel>, upto: int) -> Seq<ModuleSource>
    decreases upto,
{
    if upto <= 0 {
        Seq::empty()
    } else {
        sources_upto(files, upto - 1) + file_sources(files[upto - 1], files[upto - 1].items.len() as int)
    }
}

/// The modules of the files at the first `upto` of the positions `found`.
pub open spec fn targets(
    files: Seq<FileModel>,
    sources: Seq<ModuleSource>,
    found: Seq<usize>,
    upto: int,
) -> Seq<usize>
    decreases upto,
{
    if upto <= 0 {
        Seq::empty()
    } else {
        let rest = targets(files, sources, found, upto - 1);
        match find_source(sources, ModuleSource::File(files[found[upto - 1] as int].file_id), 0) {
            Some(t) => rest.push(t as usize),
            None => rest,
        }
    }
}

/// The link of module `m` for the module item `idx` of its file, which is
/// the file at position `fk`.
pub open spec fn link_at(
    files: Seq<FileModel>,
    sources: Seq<ModuleSource>,
    m: int,
    fk: int,
    idx: int,
) -> LinkModel {
    let item = files[fk].items[idx];
    let name = item.name->Some_0@;
    if item.kind == (ItemKind::Module { has_semi: true }) {
        let found = resolve_files(files, files[fk].path, name);
        LinkModel {
            owner: m as usize,
            decl: idx as usize,
            name,
            points_to: targets(files, sources, found, found.len() as int),
            problem: resolve_problem(files, files[fk].path, name),
        }
    } else {
        LinkModel {
            owner: m as usize,
            decl: idx as usize,
            name,
            points_to: match find_source(
                sources,
                ModuleSource::Inline(files[fk].file_id, idx as usize),
                0,
            ) {
                Some(t) => seq![t as usize],
                None => Seq::empty(),
            },
            problem: None,
        }
    }
}

/// The links of module `m` for the first `upto` items of its file.
pub open spec fn module_links(
    files: Seq<FileModel>,
    sources: Seq<ModuleSource>,
    m: int,
    fk: int,
    upto: int,
) -> Seq<LinkModel>
    decreases upto,
{
    if upto <= 0 {
        Seq::empty()
    } else {
        let rest = module_links(files, sources, m, fk, upto - 1);
        if is_module_in(files[fk].items, upto - 1, sources[m].item()) {
            rest.push(link_at(files, sources, m, fk, upto - 1))
        } else {
            rest
        }
    }
}

/// The links of the first `upto` modules.
pub open spec fn links_upto(files: Seq<FileModel>, sources: Seq<ModuleSource>, upto: int) -> Seq<
    LinkModel,
>
    decreases upto,
{
    if upto <= 0 {
        Seq::empty()
    } else {
        let rest = links_upto(files, sources, upto - 1);
        match find_file(files, sources[upto - 1].file_id(), 0) {
            Some(fk) => rest + module_links(
                files,
                sources,
                upto - 1,
                fk,
                files[fk].items.len() as int,
            ),
            None => rest,
        }
    }
}

/// The first link from `from` on that points to module `m`.
pub open spec fn parent_link(links: Seq<LinkModel>, m: usize, from: int) -> Option<usize>
    decreases links.len() - from,
{
    if from < 0 || from >= links.len() {
        None
    } else if links[from].points_to.contains(m) {
        Some(from as usize)
    } else {
        parent_link(links, m, from + 1)
    }
}

/// `tree` is the module tree of `files`.
pub open spec fn is_tree_of(files: Seq<FileModel>, tree: ModuleTree) -> bool {
    let sources = sources_upto(files, files.len() as int);
    &&& sources_of(tree.mods@) == sources
    &&& link_models(tree.links@) == links_upto(files, sources, sources.len() as int)
    &&& forall|m: int|
        0 <= m < tree.mods.len() ==> (#[trigger] tree.mods@[m]).parent == parent_link(
            link_models(tree.links@),
            m as usize,
            0,
        )
}

/// The first module that stands at `source`.
pub fn lookup_source(mods: &Vec<ModuleData>, source: ModuleSource) -> (r: Option<usize>)
    ensures
        match r {
            Some(k) => k < mods.len() && mods@[k as int].source == source && find_source(
                sources_of(mods@),
                source,
                0,
            ) == Some(k as int),
            None => find_source(sources_of(mods@), source, 0).is_none(),
        },
{
    let mut i: usize = 0;
    while i < mods.len()
        invariant
            i <= mods.len(),
            find_source(sources_of(mods@), source, 0) == find_source(sources_of(mods@), source, i as int),
        decreases mods.len() - i,
    {
        if mods[i].source == source {
            return Some(i);
        }
        i = i + 1;
    }
    None
}

/// Whether `m` is among `targets`.
fn points_at(targets: &Vec<usize>, m: usize) -> (b: bool)
    ensures
        b == targets@.contains(m),
{
    let mut i: usize = 0;
    while i < targets.len()
        invariant
            i <= targets.len(),
            forall|k: int| 0 <= k < i ==> targets@[k] != m,
        decreases targets.len() - i,
    {
        if targets[i] == m {
            return true;
        }
        i = i + 1;
    }
    false
}

/// Whether the item is an inline module with a name.
fn names_inline_module(item: &SourceItem) -> (b: bool)
    ensures
        b == item.is_inline_module(),
{
    match item.kind {
        ItemKind::Module { has_semi } => item.name.is_some() && !has_semi,
        _ => false,
    }
}

/// Builds the link of module `m` for the module item `idx` of its file.
fn build_link(files: &Vec<Arc<FileData>>, mods: &Vec<ModuleData>, m: usize, fk: usize, idx: usize) -> (link:
    LinkData)
    requires
        fk < files.len(),
        idx < files@[fk as int].syntax.items@.len(),
        files@[fk as int].syntax.items@[idx as int].is_module(),
    ensures
        link@ == link_at(file_models(files@), sources_of(mods@), m as int, fk as int, idx as int),
        forall|i: int| 0 <= i < link.points_to.len() ==> (#[trigger] link.points_to@[i]) < mods.len(),
{
    let file = &files[fk];
    let item = &file.syntax.items[idx];
    let name = match &item.name {
        Some(n) => n.clone(),
        None => String::new(),
    };
    let has_semi = match item.kind {
        ItemKind::Module { has_semi } => has_semi,
        _ => false,
    };
    if has_semi {
        let (found, problem) = resolve_submodule(files, &file.path, &name);
        let mut points_to: Vec<usize> = Vec::new();
        let mut i: usize = 0;
        while i < found.len()
            invariant
                i <= found.len(),
                forall|k: int| 0 <= k < found.len() ==> (#[trigger] found@[k]) < files.len(),
                points_to@ == targets(file_models(files@), sources_of(mods@), found@, i as int),
                forall|k: int| 0 <= k < points_to.len() ==> (#[trigger] points_to@[k]) < mods.len(),
            decreases found.len() - i,
        {
            let k = found[i];
            assert(found@[i as int] < files.len());
            match lookup_source(mods, ModuleSource::File(files[k].file_id)) {
                Some(t) => {
                    points_to.push(t);
                },
                None => {},
            }
            i = i + 1;
        }
        LinkData { owner: m, decl: idx, name, points_to, problem }
    } else {
        let mut points_to: Vec<usize> = Vec::new();
        match lookup_source(mods, ModuleSource::Inline(file.file_id, idx)) {
            Some(t) => {
                points_to.push(t);
            },
            None => {},
        }
        let link = LinkData { owner: m, decl: idx, name, points_to, problem: None };
        assert(link@.points_to =~= link_at(file_models(files@),
            sources_of(mods@),
            m as int,
            fk as int,
            idx as int,
        ).points_to);
        link
    }
}

/// Builds the module tree of a source root from its files: every file is a
/// module, and so is every inline module in it; every named module item is
/// a link from the module it stands in, to the files its declaration
/// resolves to or to the inline module it defines; the parent of a module
/// is the first link that points to it.
pub fn module_tree(files: &Vec<Arc<FileData>>) -> (tree: ModuleTree)
    ensures
        is_tree_of(file_models(files@), tree),
        forall|l: int, i: int|
            0 <= l < tree.links.len() && 0 <= i < tree.links@[l].points_to.len() ==> (
            #[trigger] tree.links@[l].points_to@[i]) < tree.mods.len(),
        forall|l: int| 0 <= l < tree.links.len() ==> (#[trigger] tree.links@[l]).owner < tree.mods.len(),
{
    let mut mods: Vec<ModuleData> = Vec::new();
    let mut f: usize = 0;
    while f < files.len()
        invariant
            f <= files.len(),
            sources_of(mods@) == sources_upto(file_models(files@), f as int),
            forall|m: int| 0 <= m < mods.len() ==> (#[trigger] mods@[m]).parent.is_none(),
        decreases files.len() - f,
    {
        let file = &files[f];
        let ghost before = sources_of(mods@);
        mods.push(ModuleData { source: ModuleSource::File(file.file_id), parent: None });
        assert(sources_of(mods@) =~= before + file_sources((**file)@, 0));
        let mut i: usize = 0;
        while i < file.syntax.items.len()
            invariant
                i <= file.syntax.items.len(),
                sources_of(mods@) == before + file_sources((**file)@, i as int),
                forall|m: int| 0 <= m < mods.len() ==> (#[trigger] mods@[m]).parent.is_none(),
            decreases file.syntax.items.len() - i,
        {
            let ghost old_sources = sources_of(mods@);
            if names_inline_module(&file.syntax.items[i]) {
                mods.push(ModuleData { source: ModuleSource::Inline(file.file_id, i), parent: None });
                assert(sources_of(mods@) =~= old_sources.push(ModuleSource::Inline(file.file_id, i)));
            }
            assert(sources_of(mods@) =~= before + file_sources((**file)@, i as int + 1));
            i = i + 1;
        }
        assert((**file)@ == file_models(files@)[f as int]);
        f = f + 1;
    }
    let ghost sources = sources_of(mods@);
    let mut links: Vec<LinkData> = Vec::new();
    let mut m: usize = 0;
    assert(link_models(links@) =~= links_upto(file_models(files@), sources, 0));
    while m < mods.len()
        invariant
            m <= mods.len(),
            sources == sources_of(mods@),
            link_models(links@) == links_upto(file_models(files@), sources, m as int),
            forall|l: int, i: int|
                0 <= l < links.len() && 0 <= i < links@[l].points_to.len() ==> (
                #[trigger] links@[l].points_to@[i]) < mods.len(),
            forall|l: int| 0 <= l < links.len() ==> (#[trigger] links@[l]).owner < mods.len(),
        decreases mods.len() - m,
    {
        let source = mods[m].source;
        assert(sources[m as int] == source);
        match lookup_file(files, source.file_id()) {
            Some(fk) => {
                let items = &files[fk].syntax.items;
                let ghost before = link_models(links@);
                let mut idx: usize = 0;
                assert(link_models(links@) =~= before + module_links(file_models(files@),
                    sources,
                    m as int,
                    fk as int,
                    0,
                ));
                while idx < items.len()
                    invariant
                        idx <= items.len(),
                        m < mods.len(),
                        fk < files.len(),
                        items@ == files@[fk as int].syntax.items@,
                        sources == sources_of(mods@),
                        source == sources[m as int],
                        link_models(links@) == before + module_links(file_models(files@),
                            sources,
                            m as int,
                            fk as int,
                            idx as int,
                        ),
                        forall|l: int, i: int|
                            0 <= l < links.len() && 0 <= i < links@[l].points_to.len() ==> (
                            #[trigger] links@[l].points_to@[i]) < mods.len(),
                        forall|l: int| 0 <= l < links.len() ==> (#[trigger] links@[l]).owner < mods.len(),
                    decreases items.len() - idx,
                {
                    if names_module(&items[idx]) && same_parent(items[idx].parent, source.item()) {
                        let link = build_link(files, &mods, m, fk, idx);
                        let ghost old_links = links@;
                        links.push(link);
                        proof {
                            assert(link_models(links@) =~= link_models(old_links).push(link@));
                            assert forall|l: int, i: int|
                                0 <= l < links.len() && 0 <= i < links@[l].points_to.len() implies (
                            #[trigger] links@[l].points_to@[i]) < mods.len() by {
                                if l < old_links.len() {
                                    assert(links@[l] == old_links[l]);
                                }
                            }
                        }
                    }
                    assert(link_models(links@) =~= before + module_links(file_models(files@),
                        sources,
                        m as int,
                        fk as int,
                        idx as int + 1,
                    ));
                    idx = idx + 1;
                }
            },
            None => {},
        }
        m = m + 1;
    }
    let ghost models = link_models(links@);
    let mut t: usize = 0;
    while t < mods.len()
        invariant
            t <= mods.len(),
            sources == sources_of(mods@),
            models == link_models(links@),
            forall|k: int|
                0 <= k < t ==> (#[trigger] mods@[k]).parent == parent_link(models, k as usize, 0),
        decreases mods.len() - t,
    {
        let mut parent: Option<usize> = None;
        let mut l: usize = 0;
        while l < links.len() && parent.is_none()
            invariant
                l <= links.len(),
                models == link_models(links@),
                match parent {
                    Some(p) => parent_link(models, t, 0) == Some(p),
                    None => parent_link(models, t, 0) == parent_link(models, t, l as int),
                },
            decreases links.len() - l, parent.is_none() as int,
        {
            assert(models[l as int].points_to == links@[l as int].points_to@);
            if points_at(&links[l].points_to, t) {
                parent = Some(l);
            } else {
                l = l + 1;
            }
        }
        let source = mods[t].source;
        let ghost old_mods = mods@;
        mods.set(t, ModuleData { source, parent });
        proof {
            assert(sources_of(mods@) =~= sources_of(old_mods));
            assert forall|k: int| 0 <= k < t + 1 implies (#[trigger] mods@[k]).parent == parent_link(
                models,
                k as usize,
                0,
            ) by {
                if k < t {
                    assert(mods@[k] == old_mods[k]);
                }
            }
        }
        t = t + 1;
    }
    ModuleTree { mods, links }
}

/// Two links are the same: owner, item, name, targets and problem.
pub open spec fn same_link(a: LinkData, b: LinkData) -> bool {
    &&& a.owner == b.owner
    &&& a.decl == b.decl
    &&& a.name@ == b.name@
    &&& a.points_to@ == b.points_to@
    &&& problem_view(a.problem) == problem_view(b.problem)
}

/// Two trees are the same: the same modules with the same parents, and the
/// same links.
pub open spec fn same_tree(a: ModuleTree, b: ModuleTree) -> bool {
    &&& a.mods@ == b.mods@
    &&& a.links@.len() == b.links@.len()
    &&& forall|l: int| 0 <= l < a.links@.len() ==> same_link(#[trigger] a.links@[l], b.links@[l])
}

/// The module tree of a list of files is one: two trees that both are the
/// tree of `files` are the same. So a cached tree that is the tree of the
/// current files is the one that would be built from them anew.
pub proof fn law_tree_unique(files: Seq<FileModel>, a: ModuleTree, b: ModuleTree)
    requires
        is_tree_of(files, a),
        is_tree_of(files, b),
    ensures
        same_tree(a, b),
{
    let sources = sources_upto(files, files.len() as int);
    assert(a.mods@.len() == sources_of(a.mods@).len());
    assert(b.mods@.len() == sources_of(b.mods@).len());
    assert forall|m: int| 0 <= m < a.mods@.len() implies a.mods@[m] == b.mods@[m] by {
        assert(sources_of(a.mods@)[m] == sources_of(b.mods@)[m]);
        assert(a.mods@[m].parent == b.mods@[m].parent);
    }
    assert(a.mods@ =~= b.mods@);
    assert(a.links@.len() == link_models(a.links@).len());
    assert(b.links@.len() == link_models(b.links@).len());
    assert forall|l: int| 0 <= l < a.links@.len() implies same_link(#[trigger] a.links@[l], b.links@[l]) by {
        assert(link_models(a.links@)[l] == link_models(b.links@)[l]);
    }
}

/// A tree that is the same as the tree of `files` is the tree of `files`.
pub proof fn lemma_same_tree_is_tree(files: Seq<FileModel>, a: ModuleTree, b: ModuleTree)
    requires
        is_tree_of(files, b),
        same_tree(a, b),
    ensures
        is_tree_of(files, a),
{
    assert(sources_of(a.mods@) =~= sources_of(b.mods@));
    assert forall|l: int| 0 <= l < a.links@.len() implies link_models(a.links@)[l] == link_models(
        b.links@,
    )[l] by {
        assert(same_link(a.links@[l], b.links@[l]));
    }
    assert(link_models(a.links@) =~= link_models(b.links@));
}

/// Whether two lists of positions are equal.
fn same_positions(a: &Vec<usize>, b: &Vec<usize>) -> (r: bool)
    ensures
        r == (a@ == b@),
{
    if a.len() != b.len() {
        return false;
    }
    let mut i: usize = 0;
    while i < a.len()
        invariant
            i <= a.len(),
            a.len() == b.len(),
            forall|k: int| 0 <= k < i ==> a@[k] == b@[k],
        decreases a.len() - i,
    {
        if a[i] != b[i] {
            return false;
        }
        i = i + 1;
    }
    assert(a@ =~= b@);
    true
}

/// Whether two optional problems are the same.
fn same_problem(a: &Option<Problem>, b: &Option<Problem>) -> (r: bool)
    ensures
        r == (problem_view(*a) == problem_view(*b)),
{
    match (a, b) {
        (None, None) => true,
        (
            Some(Problem::UnresolvedModule { candidate: x }),
            Some(Problem::UnresolvedModule { candidate: y }),
        ) => x.is_same(y),
        (
            Some(Problem::NotDirOwner { move_to: m1, candidate: c1 }),
            Some(Problem::NotDirOwner { move_to: m2, candidate: c2 }),
        ) => m1.is_same(m2) && c1.is_same(c2),
        _ => false,
    }
}

/// Whether two optional positions are equal.
fn same_option(a: Option<usize>, b: Option<usize>) -> (r: bool)
    ensures
        r == (a == b),
{
    same_parent(a, b)
}

impl ModuleTree {
    /// Whether two trees are the same: the equality by which a new tree
    /// counts as unchanged.
    pub fn is_same(&self, other: &ModuleTree) -> (r: bool)
        ensures
            r == same_tree(*self, *other),
    {
        if self.mods.len() != other.mods.len() || self.links.len() != other.links.len() {
            return false;
        }
        let mut m: usize = 0;
        while m < self.mods.len()
            invariant
                m <= self.mods.len(),
                self.mods.len() == other.mods.len(),
                forall|k: int| 0 <= k < m ==> self.mods@[k] == other.mods@[k],
            decreases self.mods.len() - m,
        {
            if !(self.mods[m].source == other.mods[m].source && same_option(
                self.mods[m].parent,
                other.mods[m].parent,
            )) {
                return false;
            }
            m = m + 1;
        }
        assert(self.mods@ =~= other.mods@);
        let mut l: usize = 0;
        while l < self.links.len()
            invariant
                l <= self.links.len(),
                self.links.len() == other.links.len(),
                forall|k: int| 0 <= k < l ==> same_link(#[trigger] self.links@[k], other.links@[k]),
            decreases self.links.len() - l,
        {
            let a = &self.links[l];
            let b = &other.links[l];
            if !(a.owner == b.owner && a.decl == b.decl && a.name == b.name && same_positions(
                &a.points_to,
                &b.points_to,
            ) && same_problem(&a.problem, &b.problem)) {
                return false;
            }
            l = l + 1;
        }
        true
    }
}

impl Problem {
    /// A copy of the problem.
    pub fn duplicate(&self) -> (r: Problem)
        ensures
            r@ == self@,
    {
        match self {
            Problem::UnresolvedModule { candidate } => Problem::UnresolvedModule {
                candidate: candidate.duplicate(),
            },
            Problem::NotDirOwner { move_to, candidate } => Problem::NotDirOwner {
                move_to: move_to.duplicate(),
                candidate: candidate.duplicate(),
            },
        }
    }
}

/// Where the name of the item `decl` stands; the empty range at 0 where
/// there is no such item.
pub open spec fn name_range_of(items: Seq<SourceItem>, decl: usize) -> TextRange {
    if decl < items.len() {
        items[decl as int].name_range
    } else {
        TextRange { start: 0, end: 0 }
    }
}

/// The problems among the first `upto` links that the module `module` owns,
/// each with the range of the name of its declaration.
pub open spec fn problems_upto(
    links: Seq<LinkData>,
    module: usize,
    items: Seq<SourceItem>,
    upto: int,
) -> Seq<(TextRange, ProblemModel)>
    decreases upto,
{
    if upto <= 0 {
        Seq::empty()
    } else {
        let rest = problems_upto(links, module, items, upto - 1);
        let link = links[upto - 1];
        if link.owner == module && link.problem.is_some() {
            rest.push((name_range_of(items, link.decl), link.problem->Some_0@))
        } else {
            rest
        }
    }
}

/// The problems of the module of the file, as `tree` has them; none where
/// the file is no module of the tree.
pub open spec fn file_problems(tree: ModuleTree, file: FileModel) -> Seq<(TextRange, ProblemModel)> {
    match find_source(sources_of(tree.mods@), ModuleSource::File(file.file_id), 0) {
        Some(m) => problems_upto(tree.links@, m as usize, file.items, tree.links@.len() as int),
        None => Seq::empty(),
    }
}

/// The innermost named module among the first `upto` items that reaches
/// over `offset`: an inline module is its own source, a declaration stands
/// for the file.
pub open spec fn source_at(file_id: FileId, items: Seq<SourceItem>, offset: u32, upto: int) -> ModuleSource
    decreases upto,
{
    if upto <= 0 {
        ModuleSource::File(file_id)
    } else if items[upto - 1].is_module() && items[upto - 1].range.spec_touches(offset) {
        if items[upto - 1].is_inline_module() {
            ModuleSource::Inline(file_id, (upto - 1) as usize)
        } else {
            ModuleSource::File(file_id)
        }
    } else {
        source_at(file_id, items, offset, upto - 1)
    }
}

/// The source of the module that the position lies in.
pub fn module_source_at(file_id: FileId, items: &Vec<SourceItem>, offset: u32) -> (r: ModuleSource)
    ensures
        r == source_at(file_id, items@, offset, items.len() as int),
{
    let mut i: usize = items.len();
    while i > 0
        invariant
            i <= items.len(),
            source_at(file_id, items@, offset, items.len() as int) == source_at(
                file_id,
                items@,
                offset,
                i as int,
            ),
        decreases i,
    {
        let item = &items[i - 1];
        if names_module(item) && item.range.touches(offset) {
            if names_inline_module(item) {
                return ModuleSource::Inline(file_id, i - 1);
            } else {
                return ModuleSource::File(file_id);
            }
        }
        i = i - 1;
    }
    ModuleSource::File(file_id)
}

/// The module at the top of the chain of parents of `m`, followed for at
/// most `fuel` steps.
pub open spec fn root_of(tree: ModuleTree, m: usize, fuel: nat) -> usize
    decreases fuel,
{
    if fuel == 0 || m >= tree.mods@.len() {
        m
    } else {
        match tree.mods@[m as int].parent {
            Some(l) => if l < tree.links@.len() {
                root_of(tree, tree.links@[l as int].owner, (fuel - 1) as nat)
            } else {
                m
            },
            None => m,
        }
    }
}

/// The top of a chain of parents is the same in trees that are the same.
pub proof fn lemma_root_of_same(a: ModuleTree, b: ModuleTree, m: usize, fuel: nat)
    requires
        same_tree(a, b),
    ensures
        root_of(a, m, fuel) == root_of(b, m, fuel),
    decreases fuel,
{
    if fuel > 0 && m < a.mods@.len() {
        match a.mods@[m as int].parent {
            Some(l) => {
                if l < a.links@.len() {
                    assert(same_link(a.links@[l as int], b.links@[l as int]));
                    lemma_root_of_same(a, b, a.links@[l as int].owner, (fuel - 1) as nat);
                }
            },
            None => {},
        }
    }
}

/// The first link from `from` on by which the module `owner` names the item
/// `decl`.
pub open spec fn link_of(links: Seq<LinkData>, owner: usize, decl: usize, from: int) -> Option<int>
    decreases links.len() - from,
{
    if from < 0 || from >= links.len() {
        None
    } else if links[from].owner == owner && links[from].decl == decl {
        Some(from)
    } else {
        link_of(links, owner, decl, from + 1)
    }
}

impl ModuleTree {
    /// The first module that stands at `source`.
    pub fn find_module(&self, source: ModuleSource) -> (r: Option<usize>)
        ensures
            match r {
                Some(k) => k < self.mods.len() && self.mods@[k as int].source == source && find_source(
                    sources_of(self.mods@),
                    source,
                    0,
                ) == Some(k as int),
                None => find_source(sources_of(self.mods@), source, 0).is_none(),
            },
    {
        lookup_source(&self.mods, source)
    }

    /// The problems of the declarations in the module `module`, each with
    /// the range of the name that it declares. `items` are the items of the
    /// module's file.
    pub fn problems(&self, module: usize, items: &Vec<SourceItem>) -> (r: Vec<(TextRange, Problem)>)
        ensures
            problem_models(r@) == problems_upto(
                self.links@,
                module,
                items@,
                self.links@.len() as int,
            ),
    {
        let mut r: Vec<(TextRange, Problem)> = Vec::new();
        let mut l: usize = 0;
        assert(problem_models(r@) =~= problems_upto(self.links@, module, items@, 0));
        while l < self.links.len()
            invariant
                l <= self.links.len(),
                problem_models(r@) == problems_upto(
                    self.links@,
                    module,
                    items@,
                    l as int,
                ),
            decreases self.links.len() - l,
        {
            let link = &self.links[l];
            if link.owner == module {
                match &link.problem {
                    Some(problem) => {
                        let range = if link.decl < items.len() {
                            items[link.decl].name_range
                        } else {
                            TextRange { start: 0, end: 0 }
                        };
                        let ghost before = problem_models(r@);
                        r.push((range, problem.duplicate()));
                        assert(problem_models(r@) =~= before.push(
                            (range, problem@),
                        ));
                    },
                    None => {},
                }
            }
            l = l + 1;
        }
        r
    }

    /// The module at the top of the chain of parents of `m`. The chain is
    /// followed for as many steps as the tree has modules.
    pub fn crate_root(&self, m: usize) -> (r: usize)
        ensures
            r == root_of(*self, m, self.mods@.len()),
    {
        let mut at: usize = m;
        let mut fuel: usize = self.mods.len();
        while fuel > 0
            invariant
                root_of(*self, m, self.mods@.len()) == root_of(*self, at, fuel as nat),
            decreases fuel,
        {
            if at >= self.mods.len() {
                return at;
            }
            match self.mods[at].parent {
                Some(l) => {
                    if l < self.links.len() {
                        at = self.links[l].owner;
                    } else {
                        return at;
                    }
                },
                None => {
                    return at;
                },
            }
            fuel = fuel - 1;
        }
        at
    }

    /// The first link by which the module `owner` names the item `decl`.
    pub fn find_link(&self, owner: usize, decl: usize) -> (r: Option<usize>)
        ensures
            match r {
                Some(l) => l < self.links.len() && link_of(self.links@, owner, decl, 0) == Some(l as int),
                None => link_of(self.links@, owner, decl, 0).is_none(),
            },
    {
        let mut l: usize = 0;
        while l < self.links.len()
            invariant
                l <= self.links.len(),
                link_of(self.links@, owner, decl, 0) == link_of(self.links@, owner, decl, l as int),
            decreases self.links.len() - l,
        {
            if self.links[l].owner == owner && self.links[l].decl == decl {
                return Some(l);
            }
            l = l + 1;
        }
        None
    }
}

/// Whether two submodules are the same: of the same form, under the same
/// name, and for a definition with the same source.
pub open spec fn same_submodule(a: Submodule, b: Submodule) -> bool {
    match (a, b) {
        (Submodule::Declaration(x), Submodule::Declaration(y)) => x@ == y@,
        (Submodule::Definition(x, s), Submodule::Definition(y, t)) => x@ == y@ && s == t,
        _ => false,
    }
}

/// Whether two lists hold the same submodules in the same order.
pub open spec fn same_submodules(a: Seq<Submodule>, b: Seq<Submodule>) -> bool {
    a.len() == b.len() && forall|i: int| 0 <= i < a.len() ==> same_submodule(#[trigger] a[i], b[i])
}

impl Submodule {
    /// Whether the two are the same submodule.
    pub fn is_same(&self, other: &Submodule) -> (r: bool)
        ensures
            r == same_submodule(*self, *other),
    {
        match (self, other) {
            (Submodule::Declaration(x), Submodule::Declaration(y)) => *x == *y,
            (Submodule::Definition(x, s), Submodule::Definition(y, t)) => *x == *y && *s == *t,
            _ => false,
        }
    }

    /// A copy of the submodule.
    pub fn duplicate(&self) -> (r: Submodule)
        ensures
            r == *self,
    {
        match self {
            Submodule::Declaration(x) => Submodule::Declaration(x.clone()),
            Submodule::Definition(x, s) => Submodule::Definition(x.clone(), *s),
        }
    }
}

/// Whether two lists hold the same submodules in the same order.
pub fn submodules_are_same(a: &Vec<Submodule>, b: &Vec<Submodule>) -> (r: bool)
    ensures
        r == same_submodules(a@, b@),
{
    if a.len() != b.len() {
        return false;
    }
    let mut i: usize = 0;
    while i < a.len()
        invariant
            i <= a.len(),
            a.len() == b.len(),
            forall|k: int| 0 <= k < i ==> same_submodule(#[trigger] a@[k], b@[k]),
        decreases a.len() - i,
    {
        if !a[i].is_same(&b[i]) {
            return false;
        }
        i = i + 1;
    }
    true
}

/// A copy of the submodules.
pub fn copy_submodules(subs: &Vec<Submodule>) -> (r: Vec<Submodule>)
    ensures
        r@ == subs@,
{
    let mut r: Vec<Submodule> = Vec::new();
    let mut i: usize = 0;
    while i < subs.len()
        invariant
            i <= subs.len(),
            r@ == subs@.take(i as int),
        decreases subs.len() - i,
    {
        r.push(subs[i].duplicate());
        assert(subs@.take(i as int + 1) =~= subs@.take(i as int).push(subs@[i as int]));
        i = i + 1;
    }
    assert(subs@.take(i as int) =~= subs@);
    r
}


} // verus!
