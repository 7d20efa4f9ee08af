//! Name resolution: the names that each module of a source root declares or
//! imports, and what they resolve to.

use rustc_hash::FxHashMap;
use vstd::prelude::*;
use crate::base::{DefId, SyntaxKind};
use crate::intern::{DefKind, DefLoc, LocationInterner, SourceItemId};
use crate::module::{lemma_root_of_same, same_link, same_tree, LinkData, ModuleTree};
use crate::syntax::{copy_strings, ItemKind, ModuleSource, PathKind, SourceItem};

verus! {

/// The hasher of the `rustc_hash` crate. Nothing here reads inside it.
#[verifier::external_type_specification]
#[verifier::external_body]
pub struct ExFxHasher(rustc_hash::FxHasher);

/// The builder of default hashers, by which a hash map of `rustc_hash` makes
/// its hashers. Nothing here reads inside it.
#[verifier::external_type_specification]
#[verifier::external_body]
#[verifier::reject_recursive_types(H)]
pub struct ExBuildHasherDefault<H>(core::hash::BuildHasherDefault<H>);

/// Calls `FxHashMap::default`: the map is empty.
#[verifier::external_body]
pub(crate) fn fx_new() -> (table: FxHashMap<usize, InputModuleItems>)
    ensures
        table@.dom() == Set::<usize>::empty(),
{
    FxHashMap::default()
}

/// Calls `HashMap::insert` on a map with the hasher of `rustc_hash`: the map
/// then holds `value` under `key`, and the other keys as before.
#[verifier::external_body]
pub(crate) fn fx_insert(m: &mut FxHashMap<usize, InputModuleItems>, key: usize, value: InputModuleItems)
    ensures
        final(m)@ == old(m)@.insert(key, value),
{
    m.insert(key, value);
}

/// Calls `HashMap::get` on a map with the hasher of `rustc_hash`: the value
/// that the map holds under `key`, if it holds one.
#[verifier::external_body]
pub(crate) fn fx_get(m: &FxHashMap<usize, InputModuleItems>, key: usize) -> (r: Option<&InputModuleItems>)
    ensures
        match r {
            Some(value) => m@.contains_key(key) && *value == m@[key],
            None => !m@.contains_key(key),
        },
{
    m.get(&key)
}

/// A named item of a module: its position among the items of its file, its
/// name, and the kind of definition it is.
#[derive(Debug, PartialEq, Eq)]
pub struct ModuleItem {
    pub id: usize,
    pub name: String,
    pub kind: DefKind,
}

/// What an import brings in: everything, or one name; the import is named by
/// the position of its `use` item.
#[derive(Clone, Copy, Debug, PartialEq, Eq, Structural)]
pub enum ImportKind {
    Glob,
    Named(usize),
}

/// An import of a module: the path it imports, and what it brings in.
#[derive(Debug, PartialEq, Eq)]
pub struct Import {
    pub path_kind: PathKind,
    pub segments: Vec<String>,
    pub kind: ImportKind,
}

/// An import as a mathematical value.
pub struct ImportModel {
    pub path_kind: PathKind,
    pub segments: Seq<String>,
    pub kind: ImportKind,
}

impl View for Import {
    type V = ImportModel;

    open spec fn view(&self) -> ImportModel {
        ImportModel { path_kind: self.path_kind, segments: self.segments@, kind: self.kind }
    }
}

/// The imports as mathematical values.
pub open spec fn import_models(imports: Seq<Import>) -> Seq<ImportModel> {
    Seq::new(imports.len(), |i: int| imports[i]@)
}

/// What a module holds before resolution: its named items and its imports,
/// each in source order.
#[derive(Debug, PartialEq, Eq)]
pub struct InputModuleItems {
    pub items: Vec<ModuleItem>,
    pub imports: Vec<Import>,
}

/// The kind of definition that an item is.
pub open spec fn spec_def_kind(kind: ItemKind) -> DefKind {
    match kind {
        ItemKind::Module { .. } => DefKind::Module,
        ItemKind::Function { .. } => DefKind::Function,
        ItemKind::Other { syntax_kind } => if syntax_kind == SyntaxKind::StructDef {
            DefKind::Struct
        } else if syntax_kind == SyntaxKind::EnumDef {
            DefKind::Enum
        } else {
            DefKind::Item
        },
        ItemKind::Import { .. } => DefKind::Item,
    }
}

/// The kind of definition that an item is.
pub fn def_kind(kind: &ItemKind) -> (r: DefKind)
    ensures
        r == spec_def_kind(*kind),
{
    match kind {
        ItemKind::Module { .. } => DefKind::Module,
        ItemKind::Function { .. } => DefKind::Function,
        ItemKind::Other { syntax_kind } => match syntax_kind {
            SyntaxKind::StructDef => DefKind::Struct,
            SyntaxKind::EnumDef => DefKind::Enum,
            _ => DefKind::Item,
        },
        ItemKind::Import { .. } => DefKind::Item,
    }
}

/// The item at `i` stands directly in `parent`, has a name, and is no
/// import.
pub open spec fn is_named_item(items: Seq<SourceItem>, i: int, parent: Option<usize>) -> bool {
    &&& 0 <= i < items.len()
    &&& items[i].parent == parent
    &&& items[i].name.is_some()
    &&& !(items[i].kind is Import)
}

/// The item at `i` stands directly in `parent` and is an import.
pub open spec fn is_import(items: Seq<SourceItem>, i: int, parent: Option<usize>) -> bool {
    &&& 0 <= i < items.len()
    &&& items[i].parent == parent
    &&& items[i].kind is Import
}

/// The named items among the first `upto` items that stand directly in
/// `parent`.
pub open spec fn named_items(items: Seq<SourceItem>, parent: Option<usize>, upto: int) -> Seq<ModuleItem>
    decreases upto,
{
    if upto <= 0 {
        Seq::empty()
    } else {
        let rest = named_items(items, parent, upto - 1);
        if is_named_item(items, upto - 1, parent) {
            rest.push(
                ModuleItem {
                    id: (upto - 1) as usize,
                    name: items[upto - 1].name->Some_0,
                    kind: spec_def_kind(items[upto - 1].kind),
                },
            )
        } else {
            rest
        }
    }
}

/// The import that the `use` item at `i` stands for.
pub open spec fn import_at(items: Seq<SourceItem>, i: int) -> ImportModel {
    ImportModel {
        path_kind: items[i].kind->path_kind,
        segments: items[i].kind->segments@,
        kind: if items[i].kind->is_glob {
            ImportKind::Glob
        } else {
            ImportKind::Named(i as usize)
        },
    }
}

/// The imports among the first `upto` items that stand directly in `parent`.
pub open spec fn imports_of(items: Seq<SourceItem>, parent: Option<usize>, upto: int) -> Seq<ImportModel>
    decreases upto,
{
    if upto <= 0 {
        Seq::empty()
    } else {
        let rest = imports_of(items, parent, upto - 1);
        if is_import(items, upto - 1, parent) {
            rest.push(import_at(items, upto - 1))
        } else {
            rest
        }
    }
}

/// Whether two optional positions are the same.
fn same_position(a: Option<usize>, b: Option<usize>) -> (r: bool)
    ensures
        r == (a == b),
{
    match (a, b) {
        (Some(x), Some(y)) => x == y,
        (None, None) => true,
        _ => false,
    }
}

/// What the module at `source` holds before resolution: its named items
/// and its imports. `items` are the items of the file of the module.
pub fn input_module_items(source: ModuleSource, items: &Vec<SourceItem>) -> (res: InputModuleItems)
    ensures
        res.items@ == named_items(items@, source.item(), items.len() as int),
        import_models(res.imports@) == imports_of(items@, source.item(), items.len() as int),
{
    let parent = source.item();
    let mut named: Vec<ModuleItem> = Vec::new();
    let mut imports: Vec<Import> = Vec::new();
    let mut i: usize = 0;
    assert(import_models(imports@) =~= imports_of(items@, parent, 0));
    while i < items.len()
        invariant
            i <= items.len(),
            named@ == named_items(items@, parent, i as int),
            import_models(imports@) == imports_of(items@, parent, i as int),
        decreases items.len() - i,
    {
        let item = &items[i];
        if same_position(item.parent, parent) {
            match &item.kind {
                ItemKind::Import { path_kind, segments, is_glob } => {
                    let kind = if *is_glob {
                        ImportKind::Glob
                    } else {
                        ImportKind::Named(i)
                    };
                    let ghost before = import_models(imports@);
                    imports.push(Import { path_kind: *path_kind, segments: copy_strings(segments), kind });
                    assert(import_models(imports@) =~= before.push(import_at(items@, i as int)));
                },
                _ => {
                    match &item.name {
                        Some(name) => {
                            named.push(ModuleItem { id: i, name: name.clone(), kind: def_kind(&item.kind) });
                        },
                        None => {},
                    }
                },
            }
        }
        i = i + 1;
    }
    InputModuleItems { items: named, imports }
}

/// What a name resolves to: a definition, an import, or both where the
/// import was resolved to the definition.
#[derive(Clone, Copy, Debug, PartialEq, Eq, Structural)]
pub struct Resolution {
    pub def_id: Option<DefId>,
    pub import: Option<usize>,
}

/// The names of a module, each with what it resolves to.
#[derive(Debug, PartialEq, Eq)]
pub struct ModuleScope {
    pub items: Vec<(String, Resolution)>,
}

/// The names of every module of a source root: the scope of a module stands
/// at the module's number.
#[derive(Debug, PartialEq, Eq)]
pub struct ItemMap {
    pub per_module: Vec<ModuleScope>,
}

/// A scope as a mathematical value.
pub type Names = Seq<(Seq<char>, Resolution)>;

/// The first position from `from` on at which `name` stands.
pub open spec fn name_position(names: Names, name: Seq<char>, from: int) -> Option<int>
    decreases names.len() - from,
{
    if from < 0 || from >= names.len() {
        None
    } else if names[from].0 == name {
        Some(from)
    } else {
        name_position(names, name, from + 1)
    }
}

/// What `name` resolves to in the scope.
pub open spec fn name_get(names: Names, name: Seq<char>) -> Option<Resolution> {
    match name_position(names, name, 0) {
        Some(k) => Some(names[k].1),
        None => None,
    }
}

/// The scope with `name` set to `res`: in the place where the name stood, or
/// behind the other names.
pub open spec fn name_put(names: Names, name: Seq<char>, res: Resolution) -> Names {
    match name_position(names, name, 0) {
        Some(k) => names.update(k, (name, res)),
        None => names.push((name, res)),
    }
}

impl View for ModuleScope {
    type V = Names;

    open spec fn view(&self) -> Names {
        Seq::new(self.items@.len(), |i: int| (self.items@[i].0@, self.items@[i].1))
    }
}

/// The scopes as mathematical values.
pub open spec fn scopes_of(per_module: Seq<ModuleScope>) -> Seq<Names> {
    Seq::new(per_module.len(), |i: int| per_module[i]@)
}

impl View for ItemMap {
    type V = Seq<Names>;

    open spec fn view(&self) -> Seq<Names> {
        scopes_of(self.per_module@)
    }
}

impl ModuleScope {
    /// A scope without names.
    pub fn new() -> (r: ModuleScope)
        ensures
            r@ == Seq::<(Seq<char>, Resolution)>::empty(),
    {
        let r = ModuleScope { items: Vec::new() };
        assert(r@ =~= Seq::empty());
        r
    }

    /// The position at which `name` stands.
    fn position(&self, name: &String) -> (r: Option<usize>)
        ensures
            match r {
                Some(k) => k < self.items.len() && name_position(self@, name@, 0) == Some(k as int),
                None => name_position(self@, name@, 0).is_none(),
            },
    {
        let mut i: usize = 0;
        while i < self.items.len()
            invariant
                i <= self.items.len(),
                name_position(self@, name@, 0) == name_position(self@, name@, i as int),
            decreases self.items.len() - i,
        {
            if self.items[i].0 == *name {
                return Some(i);
            }
            i = i + 1;
        }
        None
    }

    /// What `name` resolves to.
    pub fn get(&self, name: &String) -> (r: Option<Resolution>)
        ensures
            r == name_get(self@, name@),
    {
        match self.position(name) {
            Some(k) => Some(self.items[k].1),
            None => None,
        }
    }

    /// Sets what `name` resolves to.
    pub fn put(&mut self, name: String, res: Resolution)
        ensures
            final(self)@ == name_put(old(self)@, name@, res),
    {
        match self.position(&name) {
            Some(k) => {
                self.items.set(k, (name, res));
                assert(self@ =~= name_put(old(self)@, name@, res));
            },
            None => {
                self.items.push((name, res));
                assert(self@ =~= name_put(old(self)@, name@, res));
            },
        }
    }
}

/// The source that a location of kind module names.
pub open spec fn source_of_item(id: SourceItemId) -> ModuleSource {
    match id.item_id {
        Some(i) => ModuleSource::Inline(id.file_id, i as usize),
        None => ModuleSource::File(id.file_id),
    }
}

/// The item that a module stands at, if its position fits in 32 bits.
pub open spec fn item_of_source(source: ModuleSource) -> Option<SourceItemId> {
    match source {
        ModuleSource::File(f) => Some(SourceItemId { file_id: f, item_id: None }),
        ModuleSource::Inline(f, i) => if i <= u32::MAX {
            Some(SourceItemId { file_id: f, item_id: Some(i as u32) })
        } else {
            None
        },
    }
}

/// The identity under which the store holds a location.
pub open spec fn def_of(defs: Seq<DefLoc>, loc: DefLoc) -> Option<DefId> {
    match crate::intern::position_of(defs, loc, 0) {
        Some(k) => Some(DefId(k as u32)),
        None => None,
    }
}

/// The identity of an item of the file of module `m`.
pub open spec fn item_def(tree: ModuleTree, defs: Seq<DefLoc>, m: int, item: ModuleItem) -> Option<DefId> {
    if item.id <= u32::MAX {
        def_of(
            defs,
            DefLoc {
                kind: item.kind,
                source_item_id: SourceItemId {
                    file_id: tree.mods@[m].source.file_id(),
                    item_id: Some(item.id as u32),
                },
            },
        )
    } else {
        None
    }
}

/// The identity of the module `t`.
pub open spec fn module_def(tree: ModuleTree, defs: Seq<DefLoc>, t: int) -> Option<DefId> {
    match item_of_source(tree.mods@[t].source) {
        Some(id) => def_of(defs, DefLoc { kind: DefKind::Module, source_item_id: id }),
        None => None,
    }
}

/// The scope after the first `upto` imports were entered: each import of
/// one name stands under the last segment of its path, unresolved.
pub open spec fn with_imports(names: Names, imports: Seq<ImportModel>, upto: int) -> Names
    decreases upto,
{
    if upto <= 0 {
        names
    } else {
        let rest = with_imports(names, imports, upto - 1);
        let import = imports[upto - 1];
        match import.kind {
            ImportKind::Named(ptr) => if import.segments.len() > 0 {
                name_put(rest, import.segments.last()@, Resolution { def_id: None, import: Some(ptr) })
            } else {
                rest
            },
            ImportKind::Glob => rest,
        }
    }
}

/// The scope after the first `upto` items were entered, each under its name
/// with its identity.
pub open spec fn with_items(
    names: Names,
    tree: ModuleTree,
    defs: Seq<DefLoc>,
    m: int,
    items: Seq<ModuleItem>,
    upto: int,
) -> Names
    decreases upto,
{
    if upto <= 0 {
        names
    } else {
        name_put(
            with_items(names, tree, defs, m, items, upto - 1),
            items[upto - 1].name@,
            Resolution { def_id: item_def(tree, defs, m, items[upto - 1]), import: None },
        )
    }
}

/// The scope after the first `upto` targets of a link were entered under
/// the name of the link.
pub open spec fn with_targets(
    names: Names,
    tree: ModuleTree,
    defs: Seq<DefLoc>,
    link: LinkData,
    upto: int,
) -> Names
    decreases upto,
{
    if upto <= 0 {
        names
    } else {
        let rest = with_targets(names, tree, defs, link, upto - 1);
        let t = link.points_to@[upto - 1];
        if t < tree.mods@.len() {
            name_put(rest, link.name@, Resolution { def_id: module_def(tree, defs, t as int), import: None })
        } else {
            rest
        }
    }
}

/// The scope after the child modules behind the first `upto` links of the
/// tree were entered, as far as module `m` owns the links.
pub open spec fn with_children(names: Names, tree: ModuleTree, defs: Seq<DefLoc>, m: int, upto: int) -> Names
    decreases upto,
{
    if upto <= 0 {
        names
    } else {
        let rest = with_children(names, tree, defs, m, upto - 1);
        let link = tree.links@[upto - 1];
        if link.owner == m {
            with_targets(rest, tree, defs, link, link.points_to@.len() as int)
        } else {
            rest
        }
    }
}

/// The scope of module `m` before imports are resolved: its imports, then
/// its items, then its child modules; a later name replaces an earlier one.
pub open spec fn populated(tree: ModuleTree, defs: Seq<DefLoc>, m: int, input: InputModuleItems) -> Names {
    with_children(
        with_items(
            with_imports(Seq::empty(), import_models(input.imports@), input.imports@.len() as int),
            tree,
            defs,
            m,
            input.items@,
            input.items@.len() as int,
        ),
        tree,
        defs,
        m,
        tree.links@.len() as int,
    )
}

/// The scopes of the first `upto` modules before imports are resolved.
pub open spec fn populated_upto(
    tree: ModuleTree,
    defs: Seq<DefLoc>,
    inputs: Map<usize, InputModuleItems>,
    upto: int,
) -> Seq<Names>
    decreases upto,
{
    if upto <= 0 {
        Seq::empty()
    } else {
        populated_upto(tree, defs, inputs, upto - 1).push(
            if inputs.contains_key((upto - 1) as usize) {
                populated(tree, defs, upto - 1, inputs[(upto - 1) as usize])
            } else {
                Seq::empty()
            },
        )
    }
}

/// The module that an identity stands for, if it stands for one.
pub open spec fn module_of_def(tree: ModuleTree, defs: Seq<DefLoc>, def_id: DefId) -> Option<int> {
    if def_id.0 < defs.len() && defs[def_id.0 as int].kind == DefKind::Module {
        crate::module::find_source(
            crate::module::sources_of(tree.mods@),
            source_of_item(defs[def_id.0 as int].source_item_id),
            0,
        )
    } else {
        None
    }
}

/// The module from which a path of kind `kind` in module `m` starts.
pub open spec fn start_module(tree: ModuleTree, m: int, kind: PathKind) -> Option<int> {
    match kind {
        PathKind::Plain => Some(m),
        PathKind::SelfPath => Some(m),
        PathKind::Super => if 0 <= m < tree.mods@.len() {
            match tree.mods@[m].parent {
                Some(l) => if l < tree.links@.len() {
                    Some(tree.links@[l as int].owner as int)
                } else {
                    None
                },
                None => None,
            }
        } else {
            None
        },
        PathKind::Crate => Some(crate::module::root_of(tree, m as usize, tree.mods@.len()) as int),
    }
}

/// The definition that the path means from its segment `i` on, read in
/// module `curr`: each segment but the last must name a module.
pub open spec fn import_target(
    map: Seq<Names>,
    tree: ModuleTree,
    defs: Seq<DefLoc>,
    segments: Seq<String>,
    i: int,
    curr: int,
) -> Option<DefId>
    decreases segments.len() - i,
{
    if i < 0 || i >= segments.len() || curr < 0 || curr >= map.len() {
        None
    } else {
        match name_get(map[curr], segments[i]@) {
            None => None,
            Some(res) => match res.def_id {
                None => None,
                Some(def_id) => if i == segments.len() - 1 {
                    Some(def_id)
                } else {
                    match module_of_def(tree, defs, def_id) {
                        Some(next) => import_target(map, tree, defs, segments, i + 1, next),
                        None => None,
                    }
                },
            },
        }
    }
}

/// The scopes after one import of module `m` was resolved, and whether that
/// changed them. An import whose path leads to a definition stands, under
/// the last segment of the path, for that definition.
pub open spec fn resolved_import(
    map: Seq<Names>,
    tree: ModuleTree,
    defs: Seq<DefLoc>,
    m: int,
    import: ImportModel,
) -> (Seq<Names>, bool) {
    match import.kind {
        ImportKind::Glob => (map, false),
        ImportKind::Named(ptr) => if 0 <= m < map.len() {
            match start_module(tree, m, import.path_kind) {
                Some(start) => match import_target(map, tree, defs, import.segments, 0, start) {
                    Some(def_id) => {
                        let name = import.segments.last()@;
                        let res = Resolution { def_id: Some(def_id), import: Some(ptr) };
                        (map.update(m, name_put(map[m], name, res)), name_get(map[m], name) != Some(res))
                    },
                    None => (map, false),
                },
                None => (map, false),
            }
        } else {
            (map, false)
        },
    }
}

/// The scopes after the first `upto` imports of module `m` were resolved,
/// and whether that changed them.
pub open spec fn resolved_module(
    map: Seq<Names>,
    tree: ModuleTree,
    defs: Seq<DefLoc>,
    m: int,
    imports: Seq<ImportModel>,
    upto: int,
) -> (Seq<Names>, bool)
    decreases upto,
{
    if upto <= 0 {
        (map, false)
    } else {
        let before = resolved_module(map, tree, defs, m, imports, upto - 1);
        let after = resolved_import(before.0, tree, defs, m, imports[upto - 1]);
        (after.0, before.1 || after.1)
    }
}

/// The scopes after one pass over the imports of the first `upto` modules,
/// and whether the pass changed them.
pub open spec fn resolved_pass(
    map: Seq<Names>,
    tree: ModuleTree,
    defs: Seq<DefLoc>,
    inputs: Map<usize, InputModuleItems>,
    upto: int,
) -> (Seq<Names>, bool)
    decreases upto,
{
    if upto <= 0 {
        (map, false)
    } else {
        let before = resolved_pass(map, tree, defs, inputs, upto - 1);
        if inputs.contains_key((upto - 1) as usize) {
            let input = inputs[(upto - 1) as usize];
            let after = resolved_module(
                before.0,
                tree,
                defs,
                upto - 1,
                import_models(input.imports@),
                input.imports@.len() as int,
            );
            (after.0, before.1 || after.1)
        } else {
            before
        }
    }
}

/// The scopes after passes over all imports, repeated until a pass changes
/// nothing, `fuel` times at most.
pub open spec fn resolved(
    map: Seq<Names>,
    tree: ModuleTree,
    defs: Seq<DefLoc>,
    inputs: Map<usize, InputModuleItems>,
    fuel: nat,
) -> Seq<Names>
    decreases fuel,
{
    if fuel == 0 {
        map
    } else {
        let pass = resolved_pass(map, tree, defs, inputs, tree.mods@.len() as int);
        if pass.1 {
            resolved(pass.0, tree, defs, inputs, (fuel - 1) as nat)
        } else {
            pass.0
        }
    }
}

/// How many passes the resolution makes at most: one more than there are
/// imports among the first `upto` modules, as far as that fits.
pub open spec fn pass_limit(inputs: Map<usize, InputModuleItems>, upto: int) -> nat
    decreases upto,
{
    if upto <= 0 {
        1
    } else {
        let more: nat = if inputs.contains_key((upto - 1) as usize) {
            inputs[(upto - 1) as usize].imports@.len()
        } else {
            0
        };
        let sum = pass_limit(inputs, upto - 1) + more;
        if sum <= usize::MAX {
            sum
        } else {
            usize::MAX as nat
        }
    }
}

/// The item map of a source root: every module's scope is populated, then
/// the imports are resolved in passes until a pass changes nothing.
pub open spec fn item_map_of(
    tree: ModuleTree,
    defs: Seq<DefLoc>,
    inputs: Map<usize, InputModuleItems>,
) -> Seq<Names> {
    resolved(
        populated_upto(tree, defs, inputs, tree.mods@.len() as int),
        tree,
        defs,
        inputs,
        pass_limit(inputs, tree.mods@.len() as int),
    )
}

/// The scopes are settled: a pass over all imports changes nothing, so
/// every import whose path leads to a definition stands for it.
pub open spec fn settled(
    map: Seq<Names>,
    tree: ModuleTree,
    defs: Seq<DefLoc>,
    inputs: Map<usize, InputModuleItems>,
) -> bool {
    !resolved_pass(map, tree, defs, inputs, tree.mods@.len() as int).1
}

/// Each of `fuel` passes in a row, from `map` on, changes the scopes.
pub open spec fn restless(
    map: Seq<Names>,
    tree: ModuleTree,
    defs: Seq<DefLoc>,
    inputs: Map<usize, InputModuleItems>,
    fuel: nat,
) -> bool
    decreases fuel,
{
    if fuel == 0 {
        true
    } else {
        let pass = resolved_pass(map, tree, defs, inputs, tree.mods@.len() as int);
        pass.1 && restless(pass.0, tree, defs, inputs, (fuel - 1) as nat)
    }
}

/// The position that is found is one at which the name stands.
proof fn lemma_position_names(names: Names, name: Seq<char>, from: int)
    requires
        0 <= from,
    ensures
        match name_position(names, name, from) {
            Some(k) => from <= k < names.len() && names[k].0 == name,
            None => true,
        },
    decreases names.len() - from,
{
    if from < names.len() && names[from].0 != name {
        lemma_position_names(names, name, from + 1);
    }
}

/// Setting a name to what it resolves to already leaves the scope as it is.
proof fn lemma_put_same(names: Names, name: Seq<char>, res: Resolution)
    requires
        name_get(names, name) == Some(res),
    ensures
        name_put(names, name, res) == names,
{
    lemma_position_names(names, name, 0);
    let k = name_position(names, name, 0)->Some_0;
    assert(names.update(k, (name, res)) =~= names);
}

/// Resolving an import that reports no change leaves the scopes as they
/// are.
proof fn lemma_quiet_import(map: Seq<Names>, tree: ModuleTree, defs: Seq<DefLoc>, m: int, import: ImportModel)
    requires
        !resolved_import(map, tree, defs, m, import).1,
    ensures
        resolved_import(map, tree, defs, m, import).0 == map,
{
    match import.kind {
        ImportKind::Glob => {},
        ImportKind::Named(ptr) => {
            if 0 <= m < map.len() {
                match start_module(tree, m, import.path_kind) {
                    Some(start) => match import_target(map, tree, defs, import.segments, 0, start) {
                        Some(def_id) => {
                            let name = import.segments.last()@;
                            let res = Resolution { def_id: Some(def_id), import: Some(ptr) };
                            lemma_put_same(map[m], name, res);
                            assert(map.update(m, map[m]) =~= map);
                        },
                        None => {},
                    },
                    None => {},
                }
            }
        },
    }
}

/// Resolving the imports of a module, none of which reports a change,
/// leaves the scopes as they are.
proof fn lemma_quiet_module(
    map: Seq<Names>,
    tree: ModuleTree,
    defs: Seq<DefLoc>,
    m: int,
    imports: Seq<ImportModel>,
    upto: int,
)
    requires
        !resolved_module(map, tree, defs, m, imports, upto).1,
    ensures
        resolved_module(map, tree, defs, m, imports, upto).0 == map,
    decreases upto,
{
    if upto > 0 {
        lemma_quiet_module(map, tree, defs, m, imports, upto - 1);
        lemma_quiet_import(map, tree, defs, m, imports[upto - 1]);
    }
}

/// A pass that reports no change changes nothing.
pub proof fn law_quiet_pass_changes_nothing(
    map: Seq<Names>,
    tree: ModuleTree,
    defs: Seq<DefLoc>,
    inputs: Map<usize, InputModuleItems>,
    upto: int,
)
    requires
        !resolved_pass(map, tree, defs, inputs, upto).1,
    ensures
        resolved_pass(map, tree, defs, inputs, upto).0 == map,
    decreases upto,
{
    if upto > 0 {
        law_quiet_pass_changes_nothing(map, tree, defs, inputs, upto - 1);
        if inputs.contains_key((upto - 1) as usize) {
            let input = inputs[(upto - 1) as usize];
            lemma_quiet_module(
                map,
                tree,
                defs,
                upto - 1,
                import_models(input.imports@),
                input.imports@.len() as int,
            );
        }
    }
}

/// The resolution ends in a fixpoint, or it was cut off: what the passes
/// leave is settled, unless every one of the `fuel` passes changed the
/// scopes.
pub proof fn law_resolution_settles(
    map: Seq<Names>,
    tree: ModuleTree,
    defs: Seq<DefLoc>,
    inputs: Map<usize, InputModuleItems>,
    fuel: nat,
)
    ensures
        settled(resolved(map, tree, defs, inputs, fuel), tree, defs, inputs) || restless(
            map,
            tree,
            defs,
            inputs,
            fuel,
        ),
    decreases fuel,
{
    if fuel > 0 {
        let pass = resolved_pass(map, tree, defs, inputs, tree.mods@.len() as int);
        if pass.1 {
            law_resolution_settles(pass.0, tree, defs, inputs, (fuel - 1) as nat);
        } else {
            law_quiet_pass_changes_nothing(map, tree, defs, inputs, tree.mods@.len() as int);
        }
    }
}

/// The item map is a fixpoint of the resolution: one more pass over all
/// imports leaves it as it is. This holds unless the imports never settle,
/// each pass up to the limit changing a scope again, as imports that lead
/// to one another in a ring may do.
pub proof fn law_item_map_is_a_fixpoint(tree: ModuleTree, defs: Seq<DefLoc>, inputs: Map<usize, InputModuleItems>)
    ensures
        ({
            let map = item_map_of(tree, defs, inputs);
            let n = tree.mods@.len() as int;
            ||| resolved_pass(map, tree, defs, inputs, n) == (map, false)
            ||| restless(populated_upto(tree, defs, inputs, n), tree, defs, inputs, pass_limit(inputs, n))
        }),
{
    let n = tree.mods@.len() as int;
    let start = populated_upto(tree, defs, inputs, n);
    let map = item_map_of(tree, defs, inputs);
    law_resolution_settles(start, tree, defs, inputs, pass_limit(inputs, n));
    if settled(map, tree, defs, inputs) {
        law_quiet_pass_changes_nothing(map, tree, defs, inputs, n);
    }
}

/// Two modules hold the same before resolution: the same items and the
/// same imports.
pub open spec fn same_input(a: InputModuleItems, b: InputModuleItems) -> bool {
    a.items@ == b.items@ && import_models(a.imports@) == import_models(b.imports@)
}

/// Two tables hold the same for the first `n` modules.
pub open spec fn same_inputs(a: Map<usize, InputModuleItems>, b: Map<usize, InputModuleItems>, n: int) -> bool {
    forall|m: usize|
        m < n ==> #[trigger] a.dom().contains(m) == b.dom().contains(m) && (a.dom().contains(m)
            ==> same_input(a[m], b[m]))
}

/// The items enter the same scope for trees with the same modules.
proof fn lemma_with_items_same(
    names: Names,
    a: ModuleTree,
    b: ModuleTree,
    defs: Seq<DefLoc>,
    m: int,
    items: Seq<ModuleItem>,
    upto: int,
)
    requires
        a.mods@ == b.mods@,
    ensures
        with_items(names, a, defs, m, items, upto) == with_items(names, b, defs, m, items, upto),
    decreases upto,
{
    if upto > 0 {
        lemma_with_items_same(names, a, b, defs, m, items, upto - 1);
    }
}

/// The targets of links that are the same enter the same scope.
proof fn lemma_with_targets_same(
    names: Names,
    a: ModuleTree,
    b: ModuleTree,
    defs: Seq<DefLoc>,
    la: LinkData,
    lb: LinkData,
    upto: int,
)
    requires
        a.mods@ == b.mods@,
        same_link(la, lb),
    ensures
        with_targets(names, a, defs, la, upto) == with_targets(names, b, defs, lb, upto),
    decreases upto,
{
    if upto > 0 {
        lemma_with_targets_same(names, a, b, defs, la, lb, upto - 1);
    }
}

/// The child modules enter the same scope for trees that are the same.
proof fn lemma_with_children_same(
    names: Names,
    a: ModuleTree,
    b: ModuleTree,
    defs: Seq<DefLoc>,
    m: int,
    upto: int,
)
    requires
        same_tree(a, b),
        upto <= a.links@.len(),
    ensures
        with_children(names, a, defs, m, upto) == with_children(names, b, defs, m, upto),
    decreases upto,
{
    if upto > 0 {
        lemma_with_children_same(names, a, b, defs, m, upto - 1);
        let la = a.links@[upto - 1];
        let lb = b.links@[upto - 1];
        assert(same_link(la, lb));
        lemma_with_targets_same(
            with_children(names, a, defs, m, upto - 1),
            a,
            b,
            defs,
            la,
            lb,
            la.points_to@.len() as int,
        );
    }
}

/// A module is populated the same for trees that are the same, from
/// modules that hold the same.
proof fn lemma_populated_same(
    a: ModuleTree,
    b: ModuleTree,
    defs: Seq<DefLoc>,
    m: int,
    ia: InputModuleItems,
    ib: InputModuleItems,
)
    requires
        same_tree(a, b),
        same_input(ia, ib),
    ensures
        populated(a, defs, m, ia) == populated(b, defs, m, ib),
{
    assert(ia.imports@.len() == import_models(ia.imports@).len());
    assert(ib.imports@.len() == import_models(ib.imports@).len());
    let s1 = with_imports(Seq::empty(), import_models(ia.imports@), ia.imports@.len() as int);
    lemma_with_items_same(s1, a, b, defs, m, ia.items@, ia.items@.len() as int);
    let s2 = with_items(s1, a, defs, m, ia.items@, ia.items@.len() as int);
    lemma_with_children_same(s2, a, b, defs, m, a.links@.len() as int);
}

/// The modules are populated the same for trees that are the same, from
/// tables that hold the same.
proof fn lemma_populated_upto_same(
    a: ModuleTree,
    b: ModuleTree,
    defs: Seq<DefLoc>,
    ia: Map<usize, InputModuleItems>,
    ib: Map<usize, InputModuleItems>,
    n: int,
    upto: int,
)
    requires
        same_tree(a, b),
        same_inputs(ia, ib, n),
        upto <= n <= usize::MAX,
    ensures
        populated_upto(a, defs, ia, upto) == populated_upto(b, defs, ib, upto),
    decreases upto,
{
    if upto > 0 {
        lemma_populated_upto_same(a, b, defs, ia, ib, n, upto - 1);
        let m = (upto - 1) as usize;
        assert(ia.dom().contains(m) == ib.dom().contains(m));
        if ia.dom().contains(m) {
            lemma_populated_same(a, b, defs, upto - 1, ia[m], ib[m]);
        }
    }
}

/// A path means the same definition in trees that are the same.
proof fn lemma_import_target_same(
    map: Seq<Names>,
    a: ModuleTree,
    b: ModuleTree,
    defs: Seq<DefLoc>,
    segments: Seq<String>,
    i: int,
    curr: int,
)
    requires
        same_tree(a, b),
    ensures
        import_target(map, a, defs, segments, i, curr) == import_target(map, b, defs, segments, i, curr),
    decreases segments.len() - i,
{
    if 0 <= i < segments.len() && 0 <= curr < map.len() {
        match name_get(map[curr], segments[i]@) {
            Some(res) => match res.def_id {
                Some(def_id) => {
                    if i < segments.len() - 1 {
                        match module_of_def(a, defs, def_id) {
                            Some(next) => {
                                lemma_import_target_same(map, a, b, defs, segments, i + 1, next);
                            },
                            None => {},
                        }
                    }
                },
                None => {},
            },
            None => {},
        }
    }
}

/// An import resolves the same in trees that are the same.
proof fn lemma_resolved_import_same(
    map: Seq<Names>,
    a: ModuleTree,
    b: ModuleTree,
    defs: Seq<DefLoc>,
    m: int,
    import: ImportModel,
)
    requires
        same_tree(a, b),
        0 <= m <= usize::MAX,
    ensures
        resolved_import(map, a, defs, m, import) == resolved_import(map, b, defs, m, import),
{
    lemma_root_of_same(a, b, m as usize, a.mods@.len());
    if 0 <= m < a.mods@.len() {
        match a.mods@[m].parent {
            Some(l) => {
                if l < a.links@.len() {
                    assert(same_link(a.links@[l as int], b.links@[l as int]));
                }
            },
            None => {},
        }
    }
    match start_module(a, m, import.path_kind) {
        Some(start) => {
            lemma_import_target_same(map, a, b, defs, import.segments, 0, start);
        },
        None => {},
    }
}

/// The imports of a module resolve the same in trees that are the same.
proof fn lemma_resolved_module_same(
    map: Seq<Names>,
    a: ModuleTree,
    b: ModuleTree,
    defs: Seq<DefLoc>,
    m: int,
    imports: Seq<ImportModel>,
    upto: int,
)
    requires
        same_tree(a, b),
        0 <= m <= usize::MAX,
    ensures
        resolved_module(map, a, defs, m, imports, upto) == resolved_module(map, b, defs, m, imports, upto),
    decreases upto,
{
    if upto > 0 {
        lemma_resolved_module_same(map, a, b, defs, m, imports, upto - 1);
        let before = resolved_module(map, a, defs, m, imports, upto - 1);
        lemma_resolved_import_same(before.0, a, b, defs, m, imports[upto - 1]);
    }
}

/// A pass resolves the same in trees that are the same, over tables that
/// hold the same.
proof fn lemma_resolved_pass_same(
    map: Seq<Names>,
    a: ModuleTree,
    b: ModuleTree,
    defs: Seq<DefLoc>,
    ia: Map<usize, InputModuleItems>,
    ib: Map<usize, InputModuleItems>,
    n: int,
    upto: int,
)
    requires
        same_tree(a, b),
        same_inputs(ia, ib, n),
        upto <= n <= usize::MAX,
    ensures
        resolved_pass(map, a, defs, ia, upto) == resolved_pass(map, b, defs, ib, upto),
    decreases upto,
{
    if upto > 0 {
        lemma_resolved_pass_same(map, a, b, defs, ia, ib, n, upto - 1);
        let m = (upto - 1) as usize;
        assert(ia.dom().contains(m) == ib.dom().contains(m));
        if ia.dom().contains(m) {
            let before = resolved_pass(map, a, defs, ia, upto - 1);
            assert(ia[m].imports@.len() == import_models(ia[m].imports@).len());
            assert(ib[m].imports@.len() == import_models(ib[m].imports@).len());
            lemma_resolved_module_same(
                before.0,
                a,
                b,
                defs,
                upto - 1,
                import_models(ia[m].imports@),
                ia[m].imports@.len() as int,
            );
        }
    }
}

/// Tables that hold the same allow the same number of passes.
proof fn lemma_pass_limit_same(
    ia: Map<usize, InputModuleItems>,
    ib: Map<usize, InputModuleItems>,
    n: int,
    upto: int,
)
    requires
        same_inputs(ia, ib, n),
        upto <= n <= usize::MAX,
    ensures
        pass_limit(ia, upto) == pass_limit(ib, upto),
    decreases upto,
{
    if upto > 0 {
        lemma_pass_limit_same(ia, ib, n, upto - 1);
        let m = (upto - 1) as usize;
        assert(ia.dom().contains(m) == ib.dom().contains(m));
        if ia.dom().contains(m) {
            assert(ia[m].imports@.len() == import_models(ia[m].imports@).len());
            assert(ib[m].imports@.len() == import_models(ib[m].imports@).len());
        }
    }
}

/// The passes end the same in trees that are the same, over tables that
/// hold the same.
proof fn lemma_resolved_same(
    map: Seq<Names>,
    a: ModuleTree,
    b: ModuleTree,
    defs: Seq<DefLoc>,
    ia: Map<usize, InputModuleItems>,
    ib: Map<usize, InputModuleItems>,
    fuel: nat,
)
    requires
        same_tree(a, b),
        same_inputs(ia, ib, a.mods@.len() as int),
        a.mods@.len() <= usize::MAX,
    ensures
        resolved(map, a, defs, ia, fuel) == resolved(map, b, defs, ib, fuel),
    decreases fuel,
{
    if fuel > 0 {
        let n = a.mods@.len() as int;
        lemma_resolved_pass_same(map, a, b, defs, ia, ib, n, n);
        let pass = resolved_pass(map, a, defs, ia, n);
        if pass.1 {
            lemma_resolved_same(pass.0, a, b, defs, ia, ib, (fuel - 1) as nat);
        }
    }
}

/// The item map is one: trees that are the same, with modules that hold the
/// same, have the same item map.
pub proof fn law_item_map_unique(
    a: ModuleTree,
    b: ModuleTree,
    defs: Seq<DefLoc>,
    ia: Map<usize, InputModuleItems>,
    ib: Map<usize, InputModuleItems>,
)
    requires
        same_tree(a, b),
        same_inputs(ia, ib, a.mods@.len() as int),
        a.mods@.len() <= usize::MAX,
    ensures
        item_map_of(a, defs, ia) == item_map_of(b, defs, ib),
{
    let n = a.mods@.len() as int;
    lemma_populated_upto_same(a, b, defs, ia, ib, n, n);
    lemma_pass_limit_same(ia, ib, n, n);
    lemma_resolved_same(populated_upto(a, defs, ia, n), a, b, defs, ia, ib, pass_limit(ia, n));
}

/// The identity under which the store holds a location.
fn def_for(defs: &LocationInterner, loc: DefLoc) -> (r: Option<DefId>)
    requires
        defs.inv(),
    ensures
        r == def_of(defs.locs(), loc),
{
    defs.get(&loc)
}

/// The identity of the module `t`.
fn module_def_for(tree: &ModuleTree, defs: &LocationInterner, t: usize) -> (r: Option<DefId>)
    requires
        defs.inv(),
        t < tree.mods@.len(),
    ensures
        r == module_def(*tree, defs.locs(), t as int),
{
    let id = match tree.mods[t].source {
        ModuleSource::File(f) => Some(SourceItemId { file_id: f, item_id: None }),
        ModuleSource::Inline(f, i) => if i <= u32::MAX as usize {
            Some(SourceItemId { file_id: f, item_id: Some(i as u32) })
        } else {
            None
        },
    };
    match id {
        Some(id) => def_for(defs, DefLoc { kind: DefKind::Module, source_item_id: id }),
        None => None,
    }
}

/// The scope of module `m` before imports are resolved.
pub fn populate(tree: &ModuleTree, defs: &LocationInterner, m: usize, input: &InputModuleItems) -> (r:
    ModuleScope)
    requires
        defs.inv(),
        m < tree.mods@.len(),
    ensures
        r@ == populated(*tree, defs.locs(), m as int, *input),
{
    let mut scope = ModuleScope::new();
    let ghost imports = import_models(input.imports@);
    let mut i: usize = 0;
    while i < input.imports.len()
        invariant
            i <= input.imports.len(),
            imports == import_models(input.imports@),
            scope@ == with_imports(Seq::empty(), imports, i as int),
        decreases input.imports.len() - i,
    {
        let import = &input.imports[i];
        assert(imports[i as int] == import@);
        match import.kind {
            ImportKind::Named(ptr) => {
                if import.segments.len() > 0 {
                    let name = import.segments[import.segments.len() - 1].clone();
                    scope.put(name, Resolution { def_id: None, import: Some(ptr) });
                }
            },
            ImportKind::Glob => {},
        }
        i = i + 1;
    }
    let ghost s1 = scope@;
    let file_id = tree.mods[m].source.file_id();
    let mut k: usize = 0;
    while k < input.items.len()
        invariant
            k <= input.items.len(),
            defs.inv(),
            m < tree.mods@.len(),
            file_id == tree.mods@[m as int].source.file_id(),
            scope@ == with_items(s1, *tree, defs.locs(), m as int, input.items@, k as int),
        decreases input.items.len() - k,
    {
        let item = &input.items[k];
        let def_id = if item.id <= u32::MAX as usize {
            def_for(
                defs,
                DefLoc {
                    kind: item.kind,
                    source_item_id: SourceItemId { file_id, item_id: Some(item.id as u32) },
                },
            )
        } else {
            None
        };
        scope.put(item.name.clone(), Resolution { def_id, import: None });
        k = k + 1;
    }
    let ghost s2 = scope@;
    let mut l: usize = 0;
    while l < tree.links.len()
        invariant
            l <= tree.links.len(),
            defs.inv(),
            scope@ == with_children(s2, *tree, defs.locs(), m as int, l as int),
        decreases tree.links.len() - l,
    {
        let link = &tree.links[l];
        if link.owner == m {
            let ghost s3 = scope@;
            let mut t: usize = 0;
            while t < link.points_to.len()
                invariant
                    t <= link.points_to.len(),
                    defs.inv(),
                    scope@ == with_targets(s3, *tree, defs.locs(), *link, t as int),
                decreases link.points_to.len() - t,
            {
                let target = link.points_to[t];
                if target < tree.mods.len() {
                    let def_id = module_def_for(tree, defs, target);
                    scope.put(link.name.clone(), Resolution { def_id, import: None });
                }
                t = t + 1;
            }
        }
        l = l + 1;
    }
    scope
}

/// The module that an identity stands for, if it stands for one.
fn module_for(tree: &ModuleTree, defs: &LocationInterner, def_id: DefId) -> (r: Option<usize>)
    ensures
        match r {
            Some(k) => k < tree.mods@.len() && module_of_def(*tree, defs.locs(), def_id) == Some(k as int),
            None => module_of_def(*tree, defs.locs(), def_id).is_none(),
        },
{
    match defs.try_lookup(def_id) {
        Some(loc) => {
            let is_module = match loc.kind {
                DefKind::Module => true,
                _ => false,
            };
            if is_module {
                let source = match loc.source_item_id.item_id {
                    Some(i) => ModuleSource::Inline(loc.source_item_id.file_id, i as usize),
                    None => ModuleSource::File(loc.source_item_id.file_id),
                };
                tree.find_module(source)
            } else {
                None
            }
        },
        None => None,
    }
}

/// The module from which a path of kind `kind` in module `m` starts.
fn start_for(tree: &ModuleTree, m: usize, kind: PathKind) -> (r: Option<usize>)
    ensures
        match r {
            Some(k) => start_module(*tree, m as int, kind) == Some(k as int),
            None => start_module(*tree, m as int, kind).is_none(),
        },
{
    match kind {
        PathKind::Plain => Some(m),
        PathKind::SelfPath => Some(m),
        PathKind::Super => {
            if m < tree.mods.len() {
                match tree.mods[m].parent {
                    Some(l) => if l < tree.links.len() {
                        Some(tree.links[l].owner)
                    } else {
                        None
                    },
                    None => None,
                }
            } else {
                None
            }
        },
        PathKind::Crate => Some(tree.crate_root(m)),
    }
}

/// The definition that the path means, read from module `start`.
fn target_for(
    per_module: &Vec<ModuleScope>,
    tree: &ModuleTree,
    defs: &LocationInterner,
    segments: &Vec<String>,
    start: usize,
) -> (r: Option<DefId>)
    ensures
        r == import_target(scopes_of(per_module@), *tree, defs.locs(), segments@, 0, start as int),
{
    let ghost map = scopes_of(per_module@);
    let mut curr: usize = start;
    let mut i: usize = 0;
    while i < segments.len()
        invariant
            i <= segments.len(),
            map == scopes_of(per_module@),
            import_target(map, *tree, defs.locs(), segments@, 0, start as int) == import_target(
                map,
                *tree,
                defs.locs(),
                segments@,
                i as int,
                curr as int,
            ),
        decreases segments.len() - i,
    {
        if curr >= per_module.len() {
            return None;
        }
        assert(map[curr as int] == per_module@[curr as int]@);
        let def_id = match per_module[curr].get(&segments[i]) {
            Some(res) => match res.def_id {
                Some(def_id) => def_id,
                None => {
                    return None;
                },
            },
            None => {
                return None;
            },
        };
        if i == segments.len() - 1 {
            return Some(def_id);
        }
        match module_for(tree, defs, def_id) {
            Some(next) => {
                curr = next;
            },
            None => {
                return None;
            },
        }
        i = i + 1;
    }
    None
}

/// Resolves one import of module `m`, and says whether that changed the
/// scopes.
pub fn resolve_import(
    per_module: &mut Vec<ModuleScope>,
    tree: &ModuleTree,
    defs: &LocationInterner,
    m: usize,
    import: &Import,
) -> (changed: bool)
    ensures
        (scopes_of(final(per_module)@), changed) == resolved_import(
            scopes_of(old(per_module)@),
            *tree,
            defs.locs(),
            m as int,
            import@,
        ),
{
    let ghost map = scopes_of(per_module@);
    let ptr = match import.kind {
        ImportKind::Glob => {
            return false;
        },
        ImportKind::Named(ptr) => ptr,
    };
    if m >= per_module.len() {
        return false;
    }
    let start = match start_for(tree, m, import.path_kind) {
        Some(start) => start,
        None => {
            return false;
        },
    };
    let def_id = match target_for(per_module, tree, defs, &import.segments, start) {
        Some(def_id) => def_id,
        None => {
            return false;
        },
    };
    if import.segments.len() == 0 {
        return false;
    }
    let name = import.segments[import.segments.len() - 1].clone();
    let res = Resolution { def_id: Some(def_id), import: Some(ptr) };
    assert(map[m as int] == per_module@[m as int]@);
    let changed = match per_module[m].get(&name) {
        Some(previous) => !(previous == res),
        None => true,
    };
    per_module[m].put(name, res);
    assert(scopes_of(per_module@) =~= map.update(m as int, name_put(map[m as int], name@, res)));
    changed
}

/// Builds the item map of a source root from its module tree and from what
/// each module holds: every scope is populated, then the imports are
/// resolved in passes until a pass changes nothing. `inputs` holds, under
/// each module's number, what that module holds; a module that it does not
/// hold has no names.
pub fn item_map(tree: &ModuleTree, defs: &LocationInterner, inputs: &FxHashMap<usize, InputModuleItems>) -> (res:
    ItemMap)
    requires
        defs.inv(),
    ensures
        res@ == item_map_of(*tree, defs.locs(), inputs@),
{
    let n = tree.mods.len();
    let mut per_module: Vec<ModuleScope> = Vec::new();
    let mut limit: usize = 1;
    let mut m: usize = 0;
    assert(scopes_of(per_module@) =~= populated_upto(*tree, defs.locs(), inputs@, 0));
    while m < n
        invariant
            m <= n,
            n == tree.mods@.len(),
            defs.inv(),
            scopes_of(per_module@) == populated_upto(*tree, defs.locs(), inputs@, m as int),
            limit == pass_limit(inputs@, m as int),
        decreases n - m,
    {
        let ghost before = scopes_of(per_module@);
        match fx_get(inputs, m) {
            Some(input) => {
                let scope = populate(tree, defs, m, input);
                per_module.push(scope);
                assert(scopes_of(per_module@) =~= before.push(scope@));
                let count = input.imports.len();
                limit = if count <= usize::MAX - limit {
                    limit + count
                } else {
                    usize::MAX
                };
            },
            None => {
                let scope = ModuleScope::new();
                per_module.push(scope);
                assert(scopes_of(per_module@) =~= before.push(scope@));
            },
        }
        m = m + 1;
    }
    let mut fuel: usize = limit;
    let ghost start = scopes_of(per_module@);
    let ghost all_fuel = limit as nat;
    while fuel > 0
        invariant
            defs.inv(),
            n == tree.mods@.len(),
            start == populated_upto(*tree, defs.locs(), inputs@, n as int),
            all_fuel == pass_limit(inputs@, n as int),
            resolved(start, *tree, defs.locs(), inputs@, all_fuel) == resolved(
                scopes_of(per_module@),
                *tree,
                defs.locs(),
                inputs@,
                fuel as nat,
            ),
        decreases fuel,
    {
        let ghost round = scopes_of(per_module@);
        let mut changed = false;
        let mut k: usize = 0;
        while k < n
            invariant
                k <= n,
                defs.inv(),
                (scopes_of(per_module@), changed) == resolved_pass(
                    round,
                    *tree,
                    defs.locs(),
                    inputs@,
                    k as int,
                ),
            decreases n - k,
        {
            match fx_get(inputs, k) {
                Some(input) => {
                    let imports = &input.imports;
                    let ghost before = scopes_of(per_module@);
                    let mut j: usize = 0;
                    let mut changed_here = false;
                    while j < imports.len()
                        invariant
                            j <= imports.len(),
                            defs.inv(),
                            (scopes_of(per_module@), changed_here) == resolved_module(
                                before,
                                *tree,
                                defs.locs(),
                                k as int,
                                import_models(imports@),
                                j as int,
                            ),
                        decreases imports.len() - j,
                    {
                        assert(import_models(imports@)[j as int] == imports@[j as int]@);
                        let one = resolve_import(&mut per_module, tree, defs, k, &imports[j]);
                        changed_here = changed_here || one;
                        j = j + 1;
                    }
                    changed = changed || changed_here;
                },
                None => {},
            }
            k = k + 1;
        }
        assert(resolved_pass(round, *tree, defs.locs(), inputs@, n as int) == (
            scopes_of(per_module@),
            changed,
        ));
        if !changed {
            assert(resolved(round, *tree, defs.locs(), inputs@, fuel as nat) == scopes_of(per_module@));
            return ItemMap { per_module };
        }
        assert(resolved(round, *tree, defs.locs(), inputs@, fuel as nat) == resolved(
            scopes_of(per_module@),
            *tree,
            defs.locs(),
            inputs@,
            (fuel - 1) as nat,
        ));
        fuel = fuel - 1;
    }
    ItemMap { per_module }
}

/// Whether two lists of names hold the same names with the same
/// resolutions.
fn same_names(a: &ModuleScope, b: &ModuleScope) -> (r: bool)
    ensures
        r == (a@ == b@),
{
    if a.items.len() != b.items.len() {
        assert(a@.len() == a.items@.len());
        assert(b@.len() == b.items@.len());
        return false;
    }
    let mut i: usize = 0;
    while i < a.items.len()
        invariant
            i <= a.items.len(),
            a.items.len() == b.items.len(),
            forall|k: int| 0 <= k < i ==> a@[k] == b@[k],
        decreases a.items.len() - i,
    {
        if !(a.items[i].0 == b.items[i].0 && a.items[i].1 == b.items[i].1) {
            assert(a@[i as int] != b@[i as int]);
            return false;
        }
        i = i + 1;
    }
    assert(a@ =~= b@);
    true
}

impl ItemMap {
    /// Whether two item maps are the same: the equality by which a new map
    /// counts as unchanged.
    pub fn is_same(&self, other: &ItemMap) -> (r: bool)
        ensures
            r == (self@ == other@),
    {
        if self.per_module.len() != other.per_module.len() {
            assert(self@.len() == self.per_module@.len());
            assert(other@.len() == other.per_module@.len());
            return false;
        }
        let mut m: usize = 0;
        while m < self.per_module.len()
            invariant
                m <= self.per_module.len(),
                self.per_module.len() == other.per_module.len(),
                forall|k: int| 0 <= k < m ==> self@[k] == other@[k],
            decreases self.per_module.len() - m,
        {
            if !same_names(&self.per_module[m], &other.per_module[m]) {
                assert(self@[m as int] != other@[m as int]);
                return false;
            }
            m = m + 1;
        }
        assert(self@ =~= other@);
        true
    }
}

} // verus!
