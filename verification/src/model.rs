//! The inputs of the analysis as a mathematical value: what a change makes of
//! them, what the derived values are, and when a cached value is in order.

use std::sync::Arc;
use vstd::prelude::*;
use crate::base::{CrateId, FileId, SourceRootId};
use crate::engine::{value_of, Dep, Memo, Slot};
use crate::input::{insert_entry, remove_entry, AddFile, AnalysisChange, ChangeFile, CrateDep,
    LibraryData, RemoveFile, RootChange};
use crate::intern::{interned_within, DefKind, DefLoc, SourceItemId};
use crate::module::{is_tree_of, same_tree, submodules_spec, ModuleTree, Submodule};
use crate::nameres::{import_models, imports_of, item_map_of, named_items, InputModuleItems, ItemMap};
use crate::symbol_index::{file_entries, is_index_of, same_entries, SymbolIndex};
use crate::syntax::{FileModel, ModuleSource, PathModel, SourceItem};

verus! {

/// A source root as a mathematical value.
pub struct RootModel {
    pub files: Seq<(PathModel, FileId)>,
    pub changed_at: u64,
}

/// The inputs of the analysis as a mathematical value.
pub struct Inputs {
    pub revision: u64,
    pub files: Map<u32, FileModel>,
    pub roots: Map<u32, RootModel>,
    pub local_roots: Seq<SourceRootId>,
    pub library_roots: Seq<SourceRootId>,
    pub library_symbols: Map<u32, Arc<SymbolIndex>>,
    pub crate_graph: Seq<(CrateId, FileId)>,
    pub crate_deps: Seq<CrateDep>,
    /// The definition locations that have an identity, each at its identity.
    pub defs: Seq<DefLoc>,
    /// The revision at which a location last got an identity.
    pub defs_changed_at: u64,
}

/// The location of the item at position `i` of a file.
pub open spec fn item_loc(file: FileModel, i: int) -> DefLoc {
    DefLoc {
        kind: crate::nameres::spec_def_kind(file.items[i].kind),
        source_item_id: SourceItemId { file_id: file.file_id, item_id: Some(i as u32) },
    }
}

/// The store with the file as a module, and the first `upto` of its items,
/// interned.
pub open spec fn with_file_defs(defs: Seq<DefLoc>, file: FileModel, upto: int) -> Seq<DefLoc>
    decreases upto,
{
    if upto <= 0 {
        interned_within(
            defs,
            DefLoc {
                kind: DefKind::Module,
                source_item_id: SourceItemId { file_id: file.file_id, item_id: None },
            },
        )
    } else {
        interned_within(with_file_defs(defs, file, upto - 1), item_loc(file, upto - 1))
    }
}

/// How many items of a file get an identity: those whose position fits in
/// 32 bits.
pub open spec fn interned_items(file: FileModel) -> int {
    if file.items.len() <= u32::MAX {
        file.items.len() as int
    } else {
        u32::MAX + 1
    }
}

impl Inputs {
    /// The entries of a root; none for a root that was never set.
    pub open spec fn root_entries(self, root: SourceRootId) -> Seq<(PathModel, FileId)> {
        if self.roots.contains_key(root.0) {
            self.roots[root.0].files
        } else {
            Seq::empty()
        }
    }

    /// The inputs at the next revision.
    pub open spec fn advance(self) -> Inputs {
        Inputs { revision: (self.revision + 1) as u64, ..self }
    }

    /// The inputs with the file set: the file and its items have their
    /// identities, as far as identities are left.
    pub open spec fn set_file(self, file: FileModel) -> Inputs {
        let defs = with_file_defs(self.defs, file, interned_items(file));
        Inputs {
            files: self.files.insert(file.file_id.0, file),
            defs,
            defs_changed_at: if defs.len() == self.defs.len() {
                self.defs_changed_at
            } else {
                self.revision
            },
            ..self
        }
    }

    /// The inputs with the entries of a root set, at the current revision.
    pub open spec fn set_root(self, root: SourceRootId, entries: Seq<(PathModel, FileId)>) -> Inputs {
        Inputs {
            roots: self.roots.insert(
                root.0,
                RootModel { files: entries, changed_at: self.revision },
            ),
            ..self
        }
    }

    /// The file that `add` brings into `root`, at the current revision.
    pub open spec fn added_file(self, root: SourceRootId, add: AddFile) -> FileModel {
        FileModel {
            file_id: add.file_id,
            source_root: root,
            path: add.path@,
            text: add.text@,
            symbols: add.syntax.symbols@,
            items: add.syntax.items@,
            changed_at: self.revision,
        }
    }

    /// The inputs with the text of a file emptied; unchanged where the file
    /// was never added.
    pub open spec fn clear_file(self, file_id: FileId) -> Inputs {
        if self.files.contains_key(file_id.0) {
            self.set_file(
                FileModel {
                    text: Seq::empty(),
                    symbols: Seq::empty(),
                    items: Seq::empty(),
                    changed_at: self.revision,
                    ..self.files[file_id.0]
                },
            )
        } else {
            self
        }
    }

    /// The inputs with the text of a file replaced; unchanged where the file
    /// was never added.
    pub open spec fn change_file(self, change: ChangeFile) -> Inputs {
        if self.files.contains_key(change.file_id.0) {
            self.set_file(
                FileModel {
                    text: change.text@,
                    symbols: change.syntax.symbols@,
                    items: change.syntax.items@,
                    changed_at: self.revision,
                    ..self.files[change.file_id.0]
                },
            )
        } else {
            self
        }
    }

    /// The inputs after the first `upto` of the added files were set.
    pub open spec fn after_added(self, root: SourceRootId, added: Seq<AddFile>, upto: int) -> Inputs
        decreases upto,
    {
        if upto <= 0 {
            self
        } else {
            let before = self.after_added(root, added, upto - 1);
            before.set_file(before.added_file(root, added[upto - 1]))
        }
    }

    /// The inputs after the first `upto` of the removed files were emptied.
    pub open spec fn after_removed(self, removed: Seq<RemoveFile>, upto: int) -> Inputs
        decreases upto,
    {
        if upto <= 0 {
            self
        } else {
            self.after_removed(removed, upto - 1).clear_file(removed[upto - 1].file_id)
        }
    }

    /// The inputs after a change of one root: the added files are set and
    /// entered in the root, the removed files are emptied and taken out of
    /// it, and the root is set.
    pub open spec fn change_root(self, root: SourceRootId, change: RootChange) -> Inputs {
        let entries = entries_after_removed(
            entries_after_added(self.root_entries(root), change.added@, change.added@.len() as int),
            change.removed@,
            change.removed@.len() as int,
        );
        self.after_added(root, change.added@, change.added@.len() as int).after_removed(
            change.removed@,
            change.removed@.len() as int,
        ).set_root(root, entries)
    }

    /// The inputs after the first `upto` of the new roots were declared.
    pub open spec fn after_new_roots(self, new_roots: Seq<(SourceRootId, bool)>, upto: int) -> Inputs
        decreases upto,
    {
        if upto <= 0 {
            self
        } else {
            let before = self.after_new_roots(new_roots, upto - 1);
            let declared = before.set_root(new_roots[upto - 1].0, Seq::empty());
            if new_roots[upto - 1].1 {
                Inputs { local_roots: before.local_roots.push(new_roots[upto - 1].0), ..declared }
            } else {
                declared
            }
        }
    }

    /// The inputs after the first `upto` of the root changes.
    pub open spec fn after_roots_changed(
        self,
        changes: Seq<(SourceRootId, RootChange)>,
        upto: int,
    ) -> Inputs
        decreases upto,
    {
        if upto <= 0 {
            self
        } else {
            self.after_roots_changed(changes, upto - 1).change_root(
                changes[upto - 1].0,
                changes[upto - 1].1,
            )
        }
    }

    /// The inputs after the first `upto` of the file changes.
    pub open spec fn after_files_changed(self, changes: Seq<ChangeFile>, upto: int) -> Inputs
        decreases upto,
    {
        if upto <= 0 {
            self
        } else {
            self.after_files_changed(changes, upto - 1).change_file(changes[upto - 1])
        }
    }

    /// The inputs after a library was added: its root is declared and listed
    /// among the libraries, its symbol index is set, and its files enter the
    /// root.
    pub open spec fn add_library(self, library: LibraryData) -> Inputs {
        let listed = Inputs {
            library_roots: self.library_roots.push(library.root_id),
            library_symbols: self.library_symbols.insert(
                library.root_id.0,
                Arc::new(library.symbol_index),
            ),
            ..self.set_root(library.root_id, Seq::empty())
        };
        listed.change_root(library.root_id, library.root_change)
    }

    /// The inputs after the first `upto` of the libraries were added.
    pub open spec fn after_libraries(self, libraries: Seq<LibraryData>, upto: int) -> Inputs
        decreases upto,
    {
        if upto <= 0 {
            self
        } else {
            self.after_libraries(libraries, upto - 1).add_library(libraries[upto - 1])
        }
    }

    /// The inputs after a whole change: one revision later, with the new
    /// roots, the root changes, the file changes, the libraries and the
    /// crate graph applied in this order.
    pub open spec fn apply(self, change: AnalysisChange) -> Inputs {
        let changed = self.advance().after_new_roots(
            change.new_roots@,
            change.new_roots@.len() as int,
        ).after_roots_changed(
            change.roots_changed@,
            change.roots_changed@.len() as int,
        ).after_files_changed(
            change.files_changed@,
            change.files_changed@.len() as int,
        ).after_libraries(change.libraries_added@, change.libraries_added@.len() as int);
        match change.crate_graph {
            Some(graph) => Inputs { crate_graph: graph.roots@, crate_deps: graph.deps@, ..changed },
            None => changed,
        }
    }
}

/// The entries of a root after the first `upto` of the added files entered.
pub open spec fn entries_after_added(
    entries: Seq<(PathModel, FileId)>,
    added: Seq<AddFile>,
    upto: int,
) -> Seq<(PathModel, FileId)>
    decreases upto,
{
    if upto <= 0 {
        entries
    } else {
        insert_entry(
            entries_after_added(entries, added, upto - 1),
            added[upto - 1].path@,
            added[upto - 1].file_id,
        )
    }
}

/// The entries of a root after the first `upto` of the removed files left.
pub open spec fn entries_after_removed(
    entries: Seq<(PathModel, FileId)>,
    removed: Seq<RemoveFile>,
    upto: int,
) -> Seq<(PathModel, FileId)>
    decreases upto,
{
    if upto <= 0 {
        entries
    } else {
        remove_entry(entries_after_removed(entries, removed, upto - 1), removed[upto - 1].path@)
    }
}

/// The revision at which an input last changed; 0 for one that was never
/// set. A derived value is no input: its stamp stands with the value.
pub open spec fn slot_stamp(inputs: Inputs, slot: Slot) -> u64 {
    match slot {
        Slot::File(f) => if inputs.files.contains_key(f.0) {
            inputs.files[f.0].changed_at
        } else {
            0
        },
        Slot::Root(r) => if inputs.roots.contains_key(r.0) {
            inputs.roots[r.0].changed_at
        } else {
            0
        },
        Slot::Defs => inputs.defs_changed_at,
        Slot::Tree(_) => 0,
    }
}

/// None of the dependencies changed after `verified_at`.
pub open spec fn fresh(inputs: Inputs, deps: Seq<Dep>, verified_at: u64) -> bool {
    forall|i: int| 0 <= i < deps.len() ==> slot_stamp(inputs, (#[trigger] deps[i]).slot) <= verified_at
}

/// The inputs that the dependencies name.
pub open spec fn dep_slots(deps: Seq<Dep>) -> Seq<Slot> {
    Seq::new(deps.len(), |i: int| deps[i].slot)
}

/// The files that the entries of a root name.
pub open spec fn file_ids(entries: Seq<(PathModel, FileId)>) -> Seq<FileId> {
    Seq::new(entries.len(), |i: int| entries[i].1)
}

/// The files of the first `upto` entries of a root, as far as they were set.
pub open spec fn gathered(files: Map<u32, FileModel>, entries: Seq<(PathModel, FileId)>, upto: int) -> Seq<
    FileModel,
>
    decreases upto,
{
    if upto <= 0 {
        Seq::empty()
    } else {
        let rest = gathered(files, entries, upto - 1);
        if files.contains_key(entries[upto - 1].1.0) {
            rest.push(files[entries[upto - 1].1.0])
        } else {
            rest
        }
    }
}

/// The files of a root, as far as they were set, in the order of the root.
pub open spec fn root_files(inputs: Inputs, root: SourceRootId) -> Seq<FileModel> {
    gathered(inputs.files, inputs.root_entries(root), inputs.root_entries(root).len() as int)
}

/// The inputs that the module tree of a root reads: the root, and each of
/// its files.
pub open spec fn tree_slots(root: SourceRootId, entries: Seq<(PathModel, FileId)>) -> Seq<Slot> {
    seq![Slot::Root(root)] + Seq::new(entries.len(), |i: int| Slot::File(entries[i].1))
}

/// `index` is the symbol index of the file, as the inputs stand.
pub open spec fn symbols_of(inputs: Inputs, file_id: FileId, index: SymbolIndex) -> bool {
    &&& inputs.files.contains_key(file_id.0)
    &&& is_index_of(file_entries(file_id, inputs.files[file_id.0].symbols), index.entries())
}

/// `tree` is the module tree of the root, as the inputs stand.
pub open spec fn tree_of(inputs: Inputs, root: SourceRootId, tree: ModuleTree) -> bool {
    is_tree_of(root_files(inputs, root), tree)
}

/// A cached symbol index is in order: its stamps are, it depends on its
/// file, and it is the index of that file unless the file changed since.
pub open spec fn symbols_ok(inputs: Inputs, file: u32, memo: Memo<SymbolIndex>) -> bool {
    &&& memo.changed_at <= memo.verified_at <= inputs.revision
    &&& dep_slots(memo.deps@) == seq![Slot::File(FileId(file))]
    &&& fresh(inputs, memo.deps@, memo.verified_at) ==> symbols_of(inputs, FileId(file), *memo.value)
}

/// A cached module tree is in order: its stamps are, and unless something
/// it read changed since, it read the root and its files and is their tree.
pub open spec fn tree_ok(inputs: Inputs, root: u32, memo: Memo<ModuleTree>) -> bool {
    &&& memo.changed_at <= memo.verified_at <= inputs.revision
    &&& fresh(inputs, memo.deps@, memo.verified_at) ==> {
        &&& dep_slots(memo.deps@) == tree_slots(SourceRootId(root), inputs.root_entries(SourceRootId(root)))
        &&& tree_of(inputs, SourceRootId(root), *memo.value)
    }
}

/// The items of the file of a module source; none where the file was never
/// added.
pub open spec fn items_of_source(inputs: Inputs, source: ModuleSource) -> Seq<SourceItem> {
    if inputs.files.contains_key(source.file_id().0) {
        inputs.files[source.file_id().0].items
    } else {
        Seq::empty()
    }
}

/// `input` is what the module at `source` holds before resolution.
pub open spec fn is_input_of(inputs: Inputs, source: ModuleSource, input: InputModuleItems) -> bool {
    let items = items_of_source(inputs, source);
    &&& input.items@ == named_items(items, source.item(), items.len() as int)
    &&& import_models(input.imports@) == imports_of(items, source.item(), items.len() as int)
}

/// `found` holds, under each module's number, what the module holds.
pub open spec fn are_inputs_of(inputs: Inputs, tree: ModuleTree, found: Map<usize, InputModuleItems>) -> bool {
    forall|m: usize|
        m < tree.mods@.len() ==> #[trigger] found.dom().contains(m) && is_input_of(
            inputs,
            tree.mods@[m as int].source,
            found[m],
        )
}

/// `map` is the item map that belongs to the tree, as the inputs stand: that
/// of the tree and of what its modules hold.
pub open spec fn item_map_with(inputs: Inputs, tree: ModuleTree, map: ItemMap) -> bool {
    exists|found: Map<usize, InputModuleItems>|
        #![trigger are_inputs_of(inputs, tree, found)]
        are_inputs_of(inputs, tree, found) && map@ == item_map_of(tree, inputs.defs, found)
}

/// `map` is the item map of the root, as the inputs stand: the item map
/// that belongs to the module tree of the root.
pub open spec fn item_map_for(inputs: Inputs, root: SourceRootId, map: ItemMap) -> bool {
    exists|tree: ModuleTree|
        #![trigger tree_of(inputs, root, tree)]
        tree_of(inputs, root, tree) && item_map_with(inputs, tree, map)
}

/// What the item map of a root reads: the module tree of the root, the file
/// of each module of the tree, and the store of definition locations.
pub open spec fn map_slots(root: SourceRootId, tree: ModuleTree) -> Seq<Slot> {
    (seq![Slot::Tree(root)] + Seq::new(
        tree.mods@.len(),
        |m: int| Slot::File(tree.mods@[m].source.file_id()),
    )).push(Slot::Defs)
}

/// A cached item map is in order: its stamps are; the module tree it was
/// built from is cached, and was verified no earlier than the map; and
/// unless that tree or an input that the map read changed since, the map
/// read what an item map reads and belongs to the cached tree.
pub open spec fn item_map_ok(
    inputs: Inputs,
    trees: Map<u32, Arc<Memo<ModuleTree>>>,
    root: u32,
    memo: Memo<ItemMap>,
) -> bool {
    &&& memo.changed_at <= memo.verified_at <= inputs.revision
    &&& trees.contains_key(root)
    &&& memo.verified_at <= trees[root].verified_at
    &&& (trees[root].changed_at <= memo.verified_at && fresh(inputs, memo.deps@, memo.verified_at)) ==> {
        &&& dep_slots(memo.deps@) == map_slots(SourceRootId(root), *trees[root].value)
        &&& item_map_with(inputs, *trees[root].value, *memo.value)
    }
}

/// Interning the identities of a file keeps the identities that were there.
pub proof fn lemma_file_defs_extend(defs: Seq<DefLoc>, file: FileModel, upto: int)
    ensures
        extends(defs, with_file_defs(defs, file, upto)),
    decreases upto,
{
    if upto > 0 {
        lemma_file_defs_extend(defs, file, upto - 1);
    }
}

/// An item map stays the item map of its tree where the files of the
/// modules of the tree and the store of locations stay as they are.
pub proof fn lemma_item_map_frame(before: Inputs, after: Inputs, tree: ModuleTree, map: Arc<ItemMap>)
    requires
        item_map_with(before, tree, *map),
        after.defs == before.defs,
        forall|m: int|
            0 <= m < tree.mods@.len() ==> items_of_source(after, (#[trigger] tree.mods@[m]).source)
                == items_of_source(before, tree.mods@[m].source),
    ensures
        item_map_with(after, tree, *map),
{
    let found = choose|found: Map<usize, InputModuleItems>|
        #![trigger are_inputs_of(before, tree, found)]
        are_inputs_of(before, tree, found) && map@ == item_map_of(tree, before.defs, found);
    assert(are_inputs_of(before, tree, found));
    assert forall|m: usize| m < tree.mods@.len() implies #[trigger] found.dom().contains(m)
        && is_input_of(after, tree.mods@[m as int].source, found[m]) by {
        assert(found.dom().contains(m));
        assert(is_input_of(before, tree.mods@[m as int].source, found[m]));
        assert(items_of_source(after, tree.mods@[m as int].source) == items_of_source(
            before,
            tree.mods@[m as int].source,
        ));
    }
    assert(are_inputs_of(after, tree, found));
}

/// A cached item map stays in order through a change of the inputs that
/// stamps what it changes: no stamp goes down, and a file or the store of
/// locations whose stamp does not lie beyond the revision at which the map
/// was verified is as it was.
pub proof fn lemma_map_carries(
    before: Inputs,
    after: Inputs,
    trees: Map<u32, Arc<Memo<ModuleTree>>>,
    key: u32,
    memo: Memo<ItemMap>,
)
    requires
        item_map_ok(before, trees, key, memo),
        before.revision <= after.revision,
        forall|slot: Slot| #[trigger] slot_stamp(before, slot) <= slot_stamp(after, slot),
        forall|f: u32|
            #[trigger] slot_stamp(after, Slot::File(FileId(f))) <= memo.verified_at ==> {
                &&& after.files.contains_key(f) == before.files.contains_key(f)
                &&& before.files.contains_key(f) ==> after.files[f] == before.files[f]
            },
        after.defs_changed_at <= memo.verified_at ==> after.defs == before.defs,
    ensures
        item_map_ok(after, trees, key, memo),
{
    let tree = trees[key];
    if tree.changed_at <= memo.verified_at && fresh(after, memo.deps@, memo.verified_at) {
        assert forall|i: int| 0 <= i < memo.deps@.len() implies slot_stamp(
            before,
            (#[trigger] memo.deps@[i]).slot,
        ) <= memo.verified_at by {
            assert(slot_stamp(after, memo.deps@[i].slot) <= memo.verified_at);
            assert(slot_stamp(before, memo.deps@[i].slot) <= slot_stamp(after, memo.deps@[i].slot));
        }
        assert(fresh(before, memo.deps@, memo.verified_at));
        let slots = map_slots(SourceRootId(key), value_of(tree));
        assert(dep_slots(memo.deps@).len() == memo.deps@.len());
        assert(slots.len() == tree.value.mods@.len() + 2);
        assert forall|m: int| 0 <= m < tree.value.mods@.len() implies items_of_source(
            after,
            (#[trigger] tree.value.mods@[m]).source,
        ) == items_of_source(before, tree.value.mods@[m].source) by {
            let file_id = tree.value.mods@[m].source.file_id();
            assert(slots[m + 1] == Slot::File(file_id));
            assert(dep_slots(memo.deps@)[m + 1] == memo.deps@[m + 1].slot);
            assert(slot_stamp(after, memo.deps@[m + 1].slot) <= memo.verified_at);
            assert(slot_stamp(after, Slot::File(FileId(file_id.0))) <= memo.verified_at);
        }
        let last: int = tree.value.mods@.len() as int + 1;
        assert(slots[last] == Slot::Defs);
        assert(dep_slots(memo.deps@)[last] == memo.deps@[last].slot);
        assert(slot_stamp(after, memo.deps@[last].slot) <= memo.verified_at);
        lemma_item_map_frame(before, after, value_of(tree), memo.value);
    }
}

/// Files that no entry names do not matter to what is gathered.
pub proof fn lemma_gathered_frame(
    one: Map<u32, FileModel>,
    other: Map<u32, FileModel>,
    entries: Seq<(PathModel, FileId)>,
    file: u32,
    upto: int,
)
    requires
        0 <= upto <= entries.len(),
        forall|k: u32| k != file ==> one.contains_key(k) == other.contains_key(k),
        forall|k: u32| k != file && one.contains_key(k) ==> one[k] == other[k],
        forall|i: int| 0 <= i < upto ==> (#[trigger] entries[i]).1.0 != file,
    ensures
        gathered(one, entries, upto) == gathered(other, entries, upto),
    decreases upto,
{
    if upto > 0 {
        lemma_gathered_frame(one, other, entries, file, upto - 1);
        assert(entries[upto - 1].1.0 != file);
    }
}

/// Setting a file at the current revision keeps a cached symbol index in
/// order that was verified earlier.
pub proof fn lemma_set_file_keeps_symbols(
    before: Inputs,
    file: FileModel,
    key: u32,
    memo: Memo<SymbolIndex>,
)
    requires
        symbols_ok(before, key, memo),
        memo.verified_at < before.revision,
        file.changed_at == before.revision,
        forall|slot: Slot| #[trigger] slot_stamp(before, slot) <= before.revision,
    ensures
        symbols_ok(before.set_file(file), key, memo),
{
    let after = before.set_file(file);
    assert(dep_slots(memo.deps@).len() == memo.deps@.len());
    if fresh(after, memo.deps@, memo.verified_at) {
        assert(dep_slots(memo.deps@)[0] == Slot::File(FileId(key)));
        assert(memo.deps@[0].slot == Slot::File(FileId(key)));
        assert(slot_stamp(after, memo.deps@[0].slot) <= memo.verified_at);
        assert(key != file.file_id.0);
        assert forall|i: int| 0 <= i < memo.deps@.len() implies slot_stamp(
            before,
            (#[trigger] memo.deps@[i]).slot,
        ) <= memo.verified_at by {
            assert(dep_slots(memo.deps@)[i] == memo.deps@[i].slot);
        }
    }
}

/// Setting a file at the current revision keeps a cached module tree in
/// order that was verified earlier.
pub proof fn lemma_set_file_keeps_tree(before: Inputs, file: FileModel, key: u32, memo: Memo<ModuleTree>)
    requires
        tree_ok(before, key, memo),
        memo.verified_at < before.revision,
        file.changed_at == before.revision,
        forall|slot: Slot| #[trigger] slot_stamp(before, slot) <= before.revision,
    ensures
        tree_ok(before.set_file(file), key, memo),
{
    let after = before.set_file(file);
    let root = SourceRootId(key);
    if fresh(after, memo.deps@, memo.verified_at) {
        assert forall|i: int| 0 <= i < memo.deps@.len() implies slot_stamp(
            before,
            (#[trigger] memo.deps@[i]).slot,
        ) <= memo.verified_at && memo.deps@[i].slot != Slot::File(file.file_id) by {
            assert(slot_stamp(after, memo.deps@[i].slot) <= memo.verified_at);
            assert(slot_stamp(before, memo.deps@[i].slot) <= slot_stamp(after, memo.deps@[i].slot));
        }
        let entries = before.root_entries(root);
        assert(after.root_entries(root) == entries);
        assert(dep_slots(memo.deps@).len() == memo.deps@.len());
        assert(tree_slots(root, entries).len() == entries.len() + 1);
        assert forall|i: int| 0 <= i < entries.len() implies (#[trigger] entries[i]).1.0
            != file.file_id.0 by {
            assert(tree_slots(root, entries)[i + 1] == Slot::File(entries[i].1));
            assert(dep_slots(memo.deps@)[i + 1] == memo.deps@[i + 1].slot);
            assert(memo.deps@[i + 1].slot != Slot::File(file.file_id));
        }
        lemma_gathered_frame(
            before.files,
            after.files,
            entries,
            file.file_id.0,
            entries.len() as int,
        );
    }
}

/// Setting a root at the current revision keeps a cached symbol index in
/// order.
pub proof fn lemma_set_root_keeps_symbols(
    before: Inputs,
    root: SourceRootId,
    entries: Seq<(PathModel, FileId)>,
    key: u32,
    memo: Memo<SymbolIndex>,
)
    requires
        symbols_ok(before, key, memo),
    ensures
        symbols_ok(before.set_root(root, entries), key, memo),
{
    let after = before.set_root(root, entries);
    assert(dep_slots(memo.deps@).len() == memo.deps@.len());
    if fresh(after, memo.deps@, memo.verified_at) {
        assert forall|i: int| 0 <= i < memo.deps@.len() implies slot_stamp(
            before,
            (#[trigger] memo.deps@[i]).slot,
        ) <= memo.verified_at by {
            assert(dep_slots(memo.deps@)[i] == memo.deps@[i].slot);
            assert(slot_stamp(after, memo.deps@[i].slot) <= memo.verified_at);
        }
    }
}

/// Setting a root at the current revision keeps a cached module tree in
/// order that was verified earlier.
pub proof fn lemma_set_root_keeps_tree(
    before: Inputs,
    root: SourceRootId,
    entries: Seq<(PathModel, FileId)>,
    key: u32,
    memo: Memo<ModuleTree>,
)
    requires
        tree_ok(before, key, memo),
        memo.verified_at < before.revision,
        forall|slot: Slot| #[trigger] slot_stamp(before, slot) <= before.revision,
    ensures
        tree_ok(before.set_root(root, entries), key, memo),
{
    let after = before.set_root(root, entries);
    if fresh(after, memo.deps@, memo.verified_at) {
        assert forall|i: int| 0 <= i < memo.deps@.len() implies slot_stamp(
            before,
            (#[trigger] memo.deps@[i]).slot,
        ) <= memo.verified_at by {
            assert(slot_stamp(after, memo.deps@[i].slot) <= memo.verified_at);
            assert(slot_stamp(before, memo.deps@[i].slot) <= before.revision);
        }
        let old_entries = before.root_entries(SourceRootId(key));
        assert(dep_slots(memo.deps@).len() == memo.deps@.len());
        assert(tree_slots(SourceRootId(key), old_entries).len() == old_entries.len() + 1);
        assert(tree_slots(SourceRootId(key), old_entries)[0] == Slot::Root(SourceRootId(key)));
        assert(dep_slots(memo.deps@)[0] == memo.deps@[0].slot);
        assert(slot_stamp(after, memo.deps@[0].slot) <= memo.verified_at);
        assert(key != root.0);
    }
}

/// A change that leaves files and roots alone, and does not turn the
/// revision back, keeps a cached symbol index in order.
pub proof fn lemma_keep_symbols(before: Inputs, after: Inputs, key: u32, memo: Memo<SymbolIndex>)
    requires
        symbols_ok(before, key, memo),
        after.files == before.files,
        after.roots == before.roots,
        after.defs_changed_at == before.defs_changed_at,
        before.revision <= after.revision,
    ensures
        symbols_ok(after, key, memo),
{
    if fresh(after, memo.deps@, memo.verified_at) {
        assert forall|i: int| 0 <= i < memo.deps@.len() implies slot_stamp(
            before,
            (#[trigger] memo.deps@[i]).slot,
        ) <= memo.verified_at by {
            assert(slot_stamp(after, memo.deps@[i].slot) <= memo.verified_at);
        }
    }
}

/// A change that leaves files and roots alone, and does not turn the
/// revision back, keeps a cached module tree in order.
pub proof fn lemma_keep_tree(before: Inputs, after: Inputs, key: u32, memo: Memo<ModuleTree>)
    requires
        tree_ok(before, key, memo),
        after.files == before.files,
        after.roots == before.roots,
        after.defs_changed_at == before.defs_changed_at,
        before.revision <= after.revision,
    ensures
        tree_ok(after, key, memo),
{
    if fresh(after, memo.deps@, memo.verified_at) {
        assert forall|i: int| 0 <= i < memo.deps@.len() implies slot_stamp(
            before,
            (#[trigger] memo.deps@[i]).slot,
        ) <= memo.verified_at by {
            assert(slot_stamp(after, memo.deps@[i].slot) <= memo.verified_at);
        }
        assert(after.root_entries(SourceRootId(key)) == before.root_entries(SourceRootId(key)));
    }
}

/// Setting files does not touch the revision.
pub proof fn lemma_revision_added(s: Inputs, root: SourceRootId, added: Seq<AddFile>, upto: int)
    ensures
        s.after_added(root, added, upto).revision == s.revision,
    decreases upto,
{
    if upto > 0 {
        lemma_revision_added(s, root, added, upto - 1);
    }
}

/// Emptying files does not touch the revision.
pub proof fn lemma_revision_removed(s: Inputs, removed: Seq<RemoveFile>, upto: int)
    ensures
        s.after_removed(removed, upto).revision == s.revision,
    decreases upto,
{
    if upto > 0 {
        lemma_revision_removed(s, removed, upto - 1);
    }
}

/// Changing a root does not touch the revision.
pub proof fn lemma_revision_change_root(s: Inputs, root: SourceRootId, change: RootChange)
    ensures
        s.change_root(root, change).revision == s.revision,
{
    lemma_revision_added(s, root, change.added@, change.added@.len() as int);
    lemma_revision_removed(
        s.after_added(root, change.added@, change.added@.len() as int),
        change.removed@,
        change.removed@.len() as int,
    );
}

/// Declaring roots does not touch the revision.
pub proof fn lemma_revision_new_roots(s: Inputs, new_roots: Seq<(SourceRootId, bool)>, upto: int)
    ensures
        s.after_new_roots(new_roots, upto).revision == s.revision,
    decreases upto,
{
    if upto > 0 {
        lemma_revision_new_roots(s, new_roots, upto - 1);
    }
}

/// Changing roots does not touch the revision.
pub proof fn lemma_revision_roots_changed(
    s: Inputs,
    changes: Seq<(SourceRootId, RootChange)>,
    upto: int,
)
    ensures
        s.after_roots_changed(changes, upto).revision == s.revision,
    decreases upto,
{
    if upto > 0 {
        lemma_revision_roots_changed(s, changes, upto - 1);
        lemma_revision_change_root(
            s.after_roots_changed(changes, upto - 1),
            changes[upto - 1].0,
            changes[upto - 1].1,
        );
    }
}

/// Changing files does not touch the revision.
pub proof fn lemma_revision_files_changed(s: Inputs, changes: Seq<ChangeFile>, upto: int)
    ensures
        s.after_files_changed(changes, upto).revision == s.revision,
    decreases upto,
{
    if upto > 0 {
        lemma_revision_files_changed(s, changes, upto - 1);
    }
}

/// Adding libraries does not touch the revision.
pub proof fn lemma_revision_libraries(s: Inputs, libraries: Seq<LibraryData>, upto: int)
    ensures
        s.after_libraries(libraries, upto).revision == s.revision,
    decreases upto,
{
    if upto > 0 {
        lemma_revision_libraries(s, libraries, upto - 1);
        let before = s.after_libraries(libraries, upto - 1);
        let library = libraries[upto - 1];
        let listed = Inputs {
            library_roots: before.library_roots.push(library.root_id),
            library_symbols: before.library_symbols.insert(
                library.root_id.0,
                Arc::new(library.symbol_index),
            ),
            ..before.set_root(library.root_id, Seq::empty())
        };
        lemma_revision_change_root(listed, library.root_id, library.root_change);
    }
}

/// Every change advances the revision, by one.
pub proof fn law_change_advances_revision(inputs: Inputs, change: AnalysisChange)
    requires
        inputs.revision < u64::MAX,
    ensures
        inputs.apply(change).revision == inputs.revision + 1,
        inputs.apply(change).revision > inputs.revision,
{
    let s0 = inputs.advance();
    lemma_revision_new_roots(s0, change.new_roots@, change.new_roots@.len() as int);
    let s1 = s0.after_new_roots(change.new_roots@, change.new_roots@.len() as int);
    lemma_revision_roots_changed(s1, change.roots_changed@, change.roots_changed@.len() as int);
    let s2 = s1.after_roots_changed(change.roots_changed@, change.roots_changed@.len() as int);
    lemma_revision_files_changed(s2, change.files_changed@, change.files_changed@.len() as int);
    let s3 = s2.after_files_changed(change.files_changed@, change.files_changed@.len() as int);
    lemma_revision_libraries(s3, change.libraries_added@, change.libraries_added@.len() as int);
}

/// A cached symbol index that answers for the current inputs is the index
/// that would be built from them anew.
pub proof fn law_cached_symbols_are_current(
    inputs: Inputs,
    file_id: FileId,
    cached: SymbolIndex,
    rebuilt: SymbolIndex,
)
    requires
        symbols_of(inputs, file_id, cached),
        symbols_of(inputs, file_id, rebuilt),
    ensures
        cached.entries() == rebuilt.entries(),
{
    crate::symbol_index::law_index_unique(
        file_entries(file_id, inputs.files[file_id.0].symbols),
        cached.entries(),
        rebuilt.entries(),
    );
}

/// A cached module tree that answers for the current inputs is the tree
/// that would be built from them anew.
pub proof fn law_cached_tree_is_current(
    inputs: Inputs,
    root: SourceRootId,
    cached: ModuleTree,
    rebuilt: ModuleTree,
)
    requires
        tree_of(inputs, root, cached),
        tree_of(inputs, root, rebuilt),
    ensures
        same_tree(cached, rebuilt),
{
    crate::module::law_tree_unique(root_files(inputs, root), cached, rebuilt);
}

/// A cached item map that answers for the current inputs is the item map
/// that would be built from them anew.
pub proof fn law_cached_item_map_is_current(inputs: Inputs, root: SourceRootId, cached: ItemMap, rebuilt: ItemMap)
    requires
        item_map_for(inputs, root, cached),
        item_map_for(inputs, root, rebuilt),
    ensures
        cached@ == rebuilt@,
{
    let a = choose|tree: ModuleTree|
        #![trigger tree_of(inputs, root, tree)]
        tree_of(inputs, root, tree) && item_map_with(inputs, tree, cached);
    let b = choose|tree: ModuleTree|
        #![trigger tree_of(inputs, root, tree)]
        tree_of(inputs, root, tree) && item_map_with(inputs, tree, rebuilt);
    crate::module::law_tree_unique(root_files(inputs, root), a, b);
    let ia = choose|found: Map<usize, InputModuleItems>|
        #![trigger are_inputs_of(inputs, a, found)]
        are_inputs_of(inputs, a, found) && cached@ == item_map_of(a, inputs.defs, found);
    let ib = choose|found: Map<usize, InputModuleItems>|
        #![trigger are_inputs_of(inputs, b, found)]
        are_inputs_of(inputs, b, found) && rebuilt@ == item_map_of(b, inputs.defs, found);
    assert(are_inputs_of(inputs, a, ia));
    assert(are_inputs_of(inputs, b, ib));
    assert forall|m: usize| m < a.mods@.len() implies #[trigger] ia.dom().contains(m)
        == ib.dom().contains(m) && (ia.dom().contains(m) ==> crate::nameres::same_input(ia[m], ib[m])) by {
        assert(ia.dom().contains(m));
        assert(ib.dom().contains(m));
        assert(is_input_of(inputs, a.mods@[m as int].source, ia[m]));
        assert(is_input_of(inputs, b.mods@[m as int].source, ib[m]));
    }
    crate::nameres::law_item_map_unique(a, b, inputs.defs, ia, ib);
}

/// A change that leaves the symbols of a file as they were leaves its
/// symbol index as it was: the index that is built after the change holds
/// the same symbols as the one built before, so it keeps the revision at
/// which it last changed.
pub proof fn law_same_symbols_same_index(
    before: Inputs,
    after: Inputs,
    file_id: FileId,
    old_index: SymbolIndex,
    new_index: SymbolIndex,
)
    requires
        symbols_of(before, file_id, old_index),
        symbols_of(after, file_id, new_index),
        after.files[file_id.0].symbols == before.files[file_id.0].symbols,
    ensures
        same_entries(old_index.entries(), new_index.entries()),
{
    crate::symbol_index::law_index_unique(
        file_entries(file_id, before.files[file_id.0].symbols),
        old_index.entries(),
        new_index.entries(),
    );
}

/// A change that leaves a root and its files as they were leaves the module
/// tree of the root as it was: the tree that is built after the change is
/// the same as the one built before, so it keeps the revision at which it
/// last changed.
pub proof fn law_same_files_same_tree(
    before: Inputs,
    after: Inputs,
    root: SourceRootId,
    old_tree: ModuleTree,
    new_tree: ModuleTree,
)
    requires
        tree_of(before, root, old_tree),
        tree_of(after, root, new_tree),
        root_files(after, root) == root_files(before, root),
    ensures
        same_tree(old_tree, new_tree),
{
    crate::module::law_tree_unique(root_files(before, root), old_tree, new_tree);
}

/// `after` holds all of `before`, each location at the identity it had.
pub open spec fn extends(before: Seq<DefLoc>, after: Seq<DefLoc>) -> bool {
    &&& before.len() <= after.len()
    &&& forall|i: int| 0 <= i < before.len() ==> #[trigger] after[i] == before[i]
}

/// How many keys of the table of submodules belong to one file: one for the
/// file itself, and one for each inline module that it may hold.
pub const KEY_SPAN: u64 = 4294967296;

/// The key under which the submodules of a module are cached; none for an
/// inline module whose position does not fit in 32 bits.
pub open spec fn key_of_source(source: ModuleSource) -> Option<u64> {
    match source {
        ModuleSource::File(file) => Some((file.0 * KEY_SPAN) as u64),
        ModuleSource::Inline(file, item) => if item < u32::MAX {
            Some((file.0 * KEY_SPAN + item + 1) as u64)
        } else {
            None
        },
    }
}

/// The module that a key of the table of submodules stands for.
pub open spec fn source_of_key(key: u64) -> ModuleSource {
    let file = FileId((key / KEY_SPAN) as u32);
    if key % KEY_SPAN == 0 {
        ModuleSource::File(file)
    } else {
        ModuleSource::Inline(file, (key % KEY_SPAN - 1) as usize)
    }
}

/// A key stands for the module that it is the key of.
pub proof fn lemma_key_of_source(source: ModuleSource)
    requires
        key_of_source(source) is Some,
    ensures
        source_of_key(key_of_source(source)->Some_0) == source,
{
}

/// `subs` are the submodules of the module at `source`, as the inputs stand.
pub open spec fn subs_of(inputs: Inputs, source: ModuleSource, subs: Seq<Submodule>) -> bool {
    subs == submodules_spec(source, items_of_source(inputs, source))
}

/// Cached submodules are in order: their stamps are, they depend on the file
/// of their module, and they are the submodules of that module unless the
/// file changed since.
pub open spec fn subs_ok(inputs: Inputs, key: u64, memo: Memo<Vec<Submodule>>) -> bool {
    &&& memo.changed_at <= memo.verified_at <= inputs.revision
    &&& dep_slots(memo.deps@) == seq![Slot::File(source_of_key(key).file_id())]
    &&& fresh(inputs, memo.deps@, memo.verified_at) ==> subs_of(inputs, source_of_key(key), memo.value@)
}

/// Setting a file at the current revision keeps cached submodules in order
/// that were verified earlier.
pub proof fn lemma_set_file_keeps_subs(before: Inputs, file: FileModel, key: u64, memo: Memo<Vec<Submodule>>)
    requires
        subs_ok(before, key, memo),
        memo.verified_at < before.revision,
        file.changed_at == before.revision,
        forall|slot: Slot| #[trigger] slot_stamp(before, slot) <= before.revision,
    ensures
        subs_ok(before.set_file(file), key, memo),
{
    let after = before.set_file(file);
    let source = source_of_key(key);
    assert(dep_slots(memo.deps@).len() == memo.deps@.len());
    if fresh(after, memo.deps@, memo.verified_at) {
        assert(dep_slots(memo.deps@)[0] == Slot::File(source.file_id()));
        assert(memo.deps@[0].slot == Slot::File(source.file_id()));
        assert(slot_stamp(after, memo.deps@[0].slot) <= memo.verified_at);
        assert(source.file_id().0 != file.file_id.0);
        assert forall|i: int| 0 <= i < memo.deps@.len() implies slot_stamp(
            before,
            (#[trigger] memo.deps@[i]).slot,
        ) <= memo.verified_at by {
            assert(dep_slots(memo.deps@)[i] == memo.deps@[i].slot);
        }
    }
}

/// A change that leaves the files alone, and does not turn the revision
/// back, keeps cached submodules in order.
pub proof fn lemma_keep_subs(before: Inputs, after: Inputs, key: u64, memo: Memo<Vec<Submodule>>)
    requires
        subs_ok(before, key, memo),
        after.files == before.files,
        before.revision <= after.revision,
    ensures
        subs_ok(after, key, memo),
{
    assert(dep_slots(memo.deps@).len() == memo.deps@.len());
    if fresh(after, memo.deps@, memo.verified_at) {
        assert forall|i: int| 0 <= i < memo.deps@.len() implies slot_stamp(
            before,
            (#[trigger] memo.deps@[i]).slot,
        ) <= memo.verified_at by {
            assert(dep_slots(memo.deps@)[i] == memo.deps@[i].slot);
            assert(slot_stamp(after, memo.deps@[i].slot) <= memo.verified_at);
        }
    }
}


} // verus!
