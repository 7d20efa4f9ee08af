//! The database: the inputs that the host sets, and the derived values that
//! are cached with the revision at which they were found valid.

use std::collections::HashMap;
use std::sync::Arc;
use vstd::prelude::*;
use vstd::std_specs::hash::*;
use vstd::std_specs::iter::IteratorSpec;
use crate::base::{Canceled, CrateId, DefId, FileId, FileSymbol, SourceRootId};
use crate::engine::{changed_at_after, inner, outdates, probe, share, Dep, Memo, Probe, Slot, Stamps};
use crate::input::{AddFile, AnalysisChange, ChangeFile, CrateGraph, LibraryData, RootChange, SourceRoot};
use crate::intern::{DefKind, DefLoc, LocationInterner, SourceItemId};
use crate::model::{Inputs, RootModel, are_inputs_of, dep_slots, entries_after_added,
    entries_after_removed, extends, file_ids, fresh, gathered, interned_items, is_input_of,
    item_loc, item_map_for, item_map_ok, item_map_with, law_change_advances_revision,
    lemma_file_defs_extend, lemma_keep_symbols, lemma_keep_tree, lemma_map_carries,
    lemma_revision_files_changed, lemma_revision_libraries, lemma_revision_new_roots,
    lemma_revision_roots_changed, lemma_set_file_keeps_symbols, lemma_set_file_keeps_tree,
    lemma_set_root_keeps_symbols, lemma_set_root_keeps_tree, map_slots, root_files, slot_stamp,
    symbols_of, symbols_ok, tree_of, tree_ok, tree_slots, with_file_defs, items_of_source,
    key_of_source, lemma_keep_subs, lemma_set_file_keeps_subs, source_of_key, subs_of, subs_ok,
    KEY_SPAN};
use crate::module::{copy_submodules, file_models, lemma_same_tree_is_tree, module_tree, same_submodules,
    same_tree, submodules, submodules_are_same, submodules_spec, ModuleTree, Submodule};
use crate::nameres::{def_kind, InputModuleItems, ItemMap};
use crate::symbol_index::{same_entries, SymbolIndex};
use crate::syntax::{FileData, FileModel, ModuleSource, SourceFile, SourceItem};

verus! {

/// A source root with the revision at which it was last set.
pub struct RootData {
    pub root: SourceRoot,
    pub changed_at: u64,
}

impl View for RootData {
    type V = RootModel;

    open spec fn view(&self) -> RootModel {
        RootModel { files: self.root@, changed_at: self.changed_at }
    }
}

/// A snapshot answers for the inputs it was taken from, whatever is applied
/// to the host afterwards: it stays at its revision, and what holds of its
/// answers is what holds of the inputs before the change.
pub proof fn law_snapshot_isolation(
    host_before: RootDatabase,
    snapshot: RootDatabase,
    host_after: RootDatabase,
    change: AnalysisChange,
)
    requires
        snapshot@ == host_before@,
        host_after@ == host_before@.apply(change),
        host_before@.revision < u64::MAX,
    ensures
        snapshot@.revision == host_before@.revision,
        snapshot@.revision < host_after@.revision,
        forall|file_id: FileId, index: SymbolIndex|
            symbols_of(snapshot@, file_id, index) == symbols_of(host_before@, file_id, index),
        forall|root: SourceRootId, tree: ModuleTree|
            tree_of(snapshot@, root, tree) == tree_of(host_before@, root, tree),
        forall|root: SourceRootId, map: ItemMap|
            item_map_for(snapshot@, root, map) == item_map_for(host_before@, root, map),
{
    law_change_advances_revision(host_before@, change);
}

/// The files of a table as mathematical values.
pub open spec fn file_table(files: Map<u32, Arc<FileData>>) -> Map<u32, FileModel> {
    Map::new(|k: u32| files.contains_key(k), |k: u32| files[k]@)
}

/// The roots of a table as mathematical values.
pub open spec fn root_table(roots: Map<u32, Arc<RootData>>) -> Map<u32, RootModel> {
    Map::new(|k: u32| roots.contains_key(k), |k: u32| roots[k]@)
}

/// The keys of a table, in no particular order.
fn table_keys<T>(table: &HashMap<u32, Arc<T>>) -> (r: Vec<u32>)
    ensures
        forall|k: u32| table@.contains_key(k) ==> r@.contains(k),
{
    broadcast use group_hash_axioms;

    let mut r: Vec<u32> = Vec::new();
    let ghost all = table.keys().remaining();
    for k in it: table.keys()
        invariant
            r@.len() == it.index(),
            forall|i: int| 0 <= i < it.index() ==> r@[i] == *it.seq()[i],
            it.seq() == all,
    {
        r.push(*k);
    }
    proof {
        axiom_spec_keys_iter(table);
        assert forall|k: u32| table@.contains_key(k) implies r@.contains(k) by {
            assert(all.unref().to_set().contains(k));
            let i = choose|i: int| 0 <= i < all.unref().len() && all.unref()[i] == k;
            assert(r@[i] == k);
        }
    }
    r
}

/// The key under which the submodules of a module are cached.
fn source_key(source: ModuleSource) -> (r: Option<u64>)
    ensures
        r == key_of_source(source),
{
    match source {
        ModuleSource::File(file) => Some(file.0 as u64 * KEY_SPAN),
        ModuleSource::Inline(file, item) => if item < u32::MAX as usize {
            Some(file.0 as u64 * KEY_SPAN + item as u64 + 1)
        } else {
            None
        },
    }
}

/// A copy of the roots.
fn copy_roots(roots: &Vec<SourceRootId>) -> (r: Vec<SourceRootId>)
    ensures
        r@ == roots@,
{
    let mut r: Vec<SourceRootId> = Vec::new();
    let mut i: usize = 0;
    while i < roots.len()
        invariant
            i <= roots.len(),
            r@ == roots@.take(i as int),
        decreases roots.len() - i,
    {
        r.push(roots[i]);
        assert(roots@.take(i as int + 1) =~= roots@.take(i as int).push(roots@[i as int]));
        i = i + 1;
    }
    assert(roots@.take(i as int) =~= roots@);
    r
}

/// A copy of the dependencies.
fn copy_deps(deps: &Vec<Dep>) -> (r: Vec<Dep>)
    ensures
        r@ == deps@,
{
    let mut r: Vec<Dep> = Vec::new();
    let mut i: usize = 0;
    while i < deps.len()
        invariant
            i <= deps.len(),
            r@ == deps@.take(i as int),
        decreases deps.len() - i,
    {
        r.push(deps[i]);
        assert(deps@.take(i as int + 1) =~= deps@.take(i as int).push(deps@[i as int]));
        i = i + 1;
    }
    assert(deps@.take(i as int) =~= deps@);
    r
}

/// A copy of the symbols.
fn copy_symbols(symbols: &Vec<FileSymbol>) -> (r: Vec<FileSymbol>)
    ensures
        r@ == symbols@,
{
    let mut r: Vec<FileSymbol> = Vec::new();
    let mut i: usize = 0;
    while i < symbols.len()
        invariant
            i <= symbols.len(),
            r@ == symbols@.take(i as int),
        decreases symbols.len() - i,
    {
        r.push(symbols[i].duplicate());
        assert(symbols@.take(i as int + 1) =~= symbols@.take(i as int).push(symbols@[i as int]));
        i = i + 1;
    }
    assert(symbols@.take(i as int) =~= symbols@);
    r
}

/// The database: inputs, and the derived values cached for them.
pub struct RootDatabase {
    revision: u64,
    canceled: bool,
    files: HashMap<u32, Arc<FileData>>,
    roots: HashMap<u32, Arc<RootData>>,
    local_roots: Vec<SourceRootId>,
    library_roots: Vec<SourceRootId>,
    library_symbols: HashMap<u32, Arc<SymbolIndex>>,
    crate_graph: Arc<CrateGraph>,
    symbols: HashMap<u32, Arc<Memo<SymbolIndex>>>,
    trees: HashMap<u32, Arc<Memo<ModuleTree>>>,
    item_maps: HashMap<u32, Arc<Memo<ItemMap>>>,
    subs: HashMap<u64, Arc<Memo<Vec<Submodule>>>>,
    swept_symbols: HashMap<u32, Arc<Stamps>>,
    swept_maps: HashMap<u32, Arc<Stamps>>,
    defs: Arc<LocationInterner>,
    defs_changed_at: u64,
}

impl View for RootDatabase {
    type V = Inputs;

    closed spec fn view(&self) -> Inputs {
        Inputs {
            revision: self.revision,
            files: file_table(self.files@),
            roots: root_table(self.roots@),
            local_roots: self.local_roots@,
            library_roots: self.library_roots@,
            library_symbols: self.library_symbols@,
            crate_graph: self.crate_graph.roots@,
            crate_deps: self.crate_graph.deps@,
            defs: self.defs.locs(),
            defs_changed_at: self.defs_changed_at,
        }
    }
}

impl RootDatabase {
    /// The database is in order: no input is stamped beyond the revision,
    /// every file stands under its own identity, and every cached value is
    /// in order.
    pub closed spec fn inv(&self) -> bool {
        &&& forall|f: u32|
            self.files@.contains_key(f) ==> (#[trigger] self.files@[f]).file_id.0 == f
                && self.files@[f].changed_at <= self.revision
        &&& forall|r: u32|
            self.roots@.contains_key(r) ==> (#[trigger] self.roots@[r]).changed_at <= self.revision
        &&& forall|f: u32|
            self.symbols@.contains_key(f) ==> symbols_ok(self@, f, *(#[trigger] self.symbols@[f]))
        &&& forall|r: u32| self.trees@.contains_key(r) ==> tree_ok(self@, r, *(#[trigger] self.trees@[r]))
        &&& forall|r: u32|
            self.item_maps@.contains_key(r) ==> item_map_ok(
                self@,
                self.trees@,
                r,
                *(#[trigger] self.item_maps@[r]),
            )
        &&& forall|k: u64| self.subs@.contains_key(k) ==> subs_ok(self@, k, *(#[trigger] self.subs@[k]))
        &&& forall|f: u32|
            self.swept_symbols@.contains_key(f) ==> (#[trigger] self.swept_symbols@[f]).changed_at
                <= self.swept_symbols@[f].verified_at <= self.revision
        &&& forall|r: u32|
            self.swept_maps@.contains_key(r) ==> (#[trigger] self.swept_maps@[r]).changed_at
                <= self.swept_maps@[r].verified_at <= self.revision
        &&& self.defs.inv()
        &&& self.defs_changed_at <= self.revision
    }

    /// The definition locations that were interned, each at its identity.
    pub closed spec fn defs(&self) -> Seq<DefLoc> {
        self.defs.locs()
    }

    /// Nothing was verified at the current revision yet.
    closed spec fn quiescent(&self) -> bool {
        &&& forall|f: u32|
            self.symbols@.contains_key(f) ==> (#[trigger] self.symbols@[f]).verified_at < self.revision
        &&& forall|r: u32|
            self.trees@.contains_key(r) ==> (#[trigger] self.trees@[r]).verified_at < self.revision
        &&& forall|r: u32|
            self.item_maps@.contains_key(r) ==> (#[trigger] self.item_maps@[r]).verified_at
                < self.revision
        &&& forall|k: u64|
            self.subs@.contains_key(k) ==> (#[trigger] self.subs@[k]).verified_at < self.revision
    }

    /// Whether the snapshot was told to give up its queries.
    pub closed spec fn is_canceled(&self) -> bool {
        self.canceled
    }

    /// The stamps of a cached symbol index: when it was verified, when it
    /// last changed.
    pub open spec fn symbols_stamp(&self, file_id: FileId) -> Option<(u64, u64)> {
        if self.memos().0.contains_key(file_id.0) {
            Some((self.memos().0[file_id.0].verified_at, self.memos().0[file_id.0].changed_at))
        } else {
            None
        }
    }

    /// The stamps of a cached module tree: when it was verified, when it
    /// last changed.
    pub open spec fn tree_stamp(&self, root: SourceRootId) -> Option<(u64, u64)> {
        if self.memos().1.contains_key(root.0) {
            Some((self.memos().1[root.0].verified_at, self.memos().1[root.0].changed_at))
        } else {
            None
        }
    }

    /// No input is stamped beyond the revision.
    proof fn lemma_stamps_bounded(&self)
        requires
            self.inv(),
        ensures
            forall|slot: Slot| #[trigger] slot_stamp(self@, slot) <= self.revision,
    {
        assert forall|slot: Slot| #[trigger] slot_stamp(self@, slot) <= self.revision by {
            match slot {
                Slot::File(f) => {
                    if self.files@.contains_key(f.0) {
                        assert(self.files@[f.0].changed_at <= self.revision);
                    }
                },
                Slot::Root(r) => {
                    if self.roots@.contains_key(r.0) {
                        assert(self.roots@[r.0].changed_at <= self.revision);
                    }
                },
                Slot::Defs => {},
                Slot::Tree(_) => {},
            }
        }
    }

    /// An empty database at revision 0: no files, no roots, no crates.
    pub fn new() -> (db: RootDatabase)
        ensures
            db.inv(),
            !db.is_canceled(),
            db@.revision == 0,
            db@.files == Map::<u32, FileModel>::empty(),
            db@.roots == Map::<u32, RootModel>::empty(),
            db@.local_roots == Seq::<SourceRootId>::empty(),
            db@.library_roots == Seq::<SourceRootId>::empty(),
            db@.library_symbols == Map::<u32, Arc<SymbolIndex>>::empty(),
            db@.crate_graph == Seq::<(CrateId, FileId)>::empty(),
            db.defs() == Seq::<DefLoc>::empty(),
    {
        broadcast use group_hash_axioms;

        let db = RootDatabase {
            revision: 0,
            canceled: false,
            files: HashMap::new(),
            roots: HashMap::new(),
            local_roots: Vec::new(),
            library_roots: Vec::new(),
            library_symbols: HashMap::new(),
            crate_graph: Arc::new(CrateGraph::new()),
            symbols: HashMap::new(),
            trees: HashMap::new(),
            item_maps: HashMap::new(),
            subs: HashMap::new(),
            swept_symbols: HashMap::new(),
            swept_maps: HashMap::new(),
            defs: Arc::new(LocationInterner::new()),
            defs_changed_at: 0,
        };
        assert(db@.files =~= Map::<u32, FileModel>::empty());
        assert(db@.roots =~= Map::<u32, RootModel>::empty());
        db
    }

    /// The current revision.
    pub fn revision(&self) -> (r: u64)
        ensures
            r == self@.revision,
    {
        self.revision
    }

    /// Gives the file and each of its items an identity, as far as
    /// identities are left. The store is shared with the snapshots that were
    /// taken: where the file brings a location that is new, the database
    /// goes on with a store of its own, and the snapshots keep theirs.
    fn intern_file(&mut self, data: &FileData)
        requires
            old(self).inv(),
            old(self).quiescent(),
        ensures
            final(self).inv(),
            final(self).quiescent(),
            final(self)@ == (Inputs {
                files: old(self)@.files,
                ..old(self)@.set_file(data@)
            }),
            final(self).is_canceled() == old(self).is_canceled(),
            extends(old(self).defs(), final(self).defs()),
            final(self).symbols == old(self).symbols,
            final(self).trees == old(self).trees,
            final(self).item_maps == old(self).item_maps,
            final(self).subs == old(self).subs,
            final(self).swept_symbols == old(self).swept_symbols,
            final(self).swept_maps == old(self).swept_maps,
            final(self).files == old(self).files,
            final(self).roots == old(self).roots,
    {
        let file_id = data.file_id;
        let ghost start = *self;
        let ghost model = data@;
        let module = DefLoc {
            kind: DefKind::Module,
            source_item_id: SourceItemId { file_id, item_id: None },
        };
        let mut all_known = self.defs.get(&module).is_some();
        let mut seen: usize = 0;
        while all_known && seen < data.syntax.items.len() && seen <= u32::MAX as usize
            invariant
                seen <= data.syntax.items.len(),
                seen <= u32::MAX + 1,
                model == data@,
                file_id == data.file_id,
                *self == start,
                self.inv(),
                all_known ==> with_file_defs(start.defs(), model, seen as int) == start.defs(),
            decreases data.syntax.items.len() - seen,
        {
            let loc = DefLoc {
                kind: def_kind(&data.syntax.items[seen].kind),
                source_item_id: SourceItemId { file_id, item_id: Some(seen as u32) },
            };
            assert(model.items[seen as int] == data.syntax.items@[seen as int]);
            assert(loc == item_loc(model, seen as int));
            all_known = self.defs.get(&loc).is_some();
            seen = seen + 1;
        }
        if all_known {
            assert(seen == interned_items(model));
            assert(self@ =~= (Inputs { files: start@.files, ..start@.set_file(model) }));
            return ;
        }
        let mut store = self.defs.duplicate();
        let known = store.len();
        store.intern(
            DefLoc { kind: DefKind::Module, source_item_id: SourceItemId { file_id, item_id: None } },
        );
        let mut i: usize = 0;
        while i < data.syntax.items.len() && i <= u32::MAX as usize
            invariant
                i <= data.syntax.items.len(),
                i <= u32::MAX + 1,
                model == data@,
                file_id == data.file_id,
                store.inv(),
                extends(start.defs(), store.locs()),
                store.locs() == with_file_defs(start.defs(), model, i as int),
            decreases data.syntax.items.len() - i,
        {
            let loc = DefLoc {
                kind: def_kind(&data.syntax.items[i].kind),
                source_item_id: SourceItemId { file_id, item_id: Some(i as u32) },
            };
            assert(model.items[i as int] == data.syntax.items@[i as int]);
            assert(loc == item_loc(model, i as int));
            store.intern(loc);
            i = i + 1;
        }
        assert(i == interned_items(model));
        proof {
            lemma_file_defs_extend(start.defs(), model, interned_items(model));
            if store.locs().len() == known {
                assert(store.locs() =~= start.defs());
            }
        }
        if store.len() != known {
            self.defs = Arc::new(store);
            self.defs_changed_at = self.revision;
        }
        proof {
            Self::lemma_same_inputs(start, *self);
        }
    }

    /// What holds of the cached values of a database holds of one that has
    /// the same files, roots and cached values at the same revision, and
    /// whose store of locations did not change unless it is stamped with the
    /// revision.
    proof fn lemma_same_inputs(before: RootDatabase, after: RootDatabase)
        requires
            before.inv(),
            before.quiescent(),
            after.files == before.files,
            after.roots == before.roots,
            after.symbols == before.symbols,
            after.trees == before.trees,
            after.item_maps == before.item_maps,
            after.subs == before.subs,
            after.swept_symbols == before.swept_symbols,
            after.swept_maps == before.swept_maps,
            after.revision == before.revision,
            after.defs.inv(),
            (after.defs_changed_at == before.defs_changed_at && after.defs.locs() == before.defs.locs())
                || after.defs_changed_at == after.revision,
        ensures
            after.inv(),
            after.quiescent(),
    {
        before.lemma_stamps_bounded();
        assert forall|slot: Slot| #[trigger] slot_stamp(before@, slot) <= slot_stamp(after@, slot) by {
            assert(slot_stamp(before@, slot) <= before.revision);
        }
        assert forall|k: u64| after.subs@.contains_key(k) implies subs_ok(
            after@,
            k,
            *(#[trigger] after.subs@[k]),
        ) by {
            lemma_keep_subs(before@, after@, k, *after.subs@[k]);
        }
        assert forall|r: u32| after.item_maps@.contains_key(r) implies item_map_ok(
            after@,
            after.trees@,
            r,
            *(#[trigger] after.item_maps@[r]),
        ) by {
            lemma_map_carries(before@, after@, after.trees@, r, *after.item_maps@[r]);
        }
        assert forall|f: u32| after.symbols@.contains_key(f) implies symbols_ok(
            after@,
            f,
            *(#[trigger] after.symbols@[f]),
        ) by {
            let memo = *after.symbols@[f];
            assert(symbols_ok(before@, f, memo));
            assert(dep_slots(memo.deps@).len() == memo.deps@.len());
            if fresh(after@, memo.deps@, memo.verified_at) {
                assert(dep_slots(memo.deps@)[0] == memo.deps@[0].slot);
                assert(slot_stamp(after@, memo.deps@[0].slot) <= memo.verified_at);
                assert forall|i: int| 0 <= i < memo.deps@.len() implies slot_stamp(
                    before@,
                    (#[trigger] memo.deps@[i]).slot,
                ) <= memo.verified_at by {
                    assert(dep_slots(memo.deps@)[i] == memo.deps@[i].slot);
                }
            }
        }
        assert forall|r: u32| after.trees@.contains_key(r) implies tree_ok(
            after@,
            r,
            *(#[trigger] after.trees@[r]),
        ) by {
            let memo = *after.trees@[r];
            assert(tree_ok(before@, r, memo));
            if fresh(after@, memo.deps@, memo.verified_at) {
                assert forall|i: int| 0 <= i < memo.deps@.len() implies slot_stamp(
                    before@,
                    (#[trigger] memo.deps@[i]).slot,
                ) <= memo.verified_at by {
                    assert(slot_stamp(after@, memo.deps@[i].slot) <= memo.verified_at);
                    assert(slot_stamp(before@, memo.deps@[i].slot) <= before.revision);
                }
                assert(after@.root_entries(SourceRootId(r)) == before@.root_entries(SourceRootId(r)));
            }
        }
    }

    /// Sets a file at the current revision.
    fn put_file(&mut self, data: FileData)
        requires
            old(self).inv(),
            old(self).quiescent(),
            data.changed_at == old(self)@.revision,
        ensures
            final(self).inv(),
            final(self).quiescent(),
            final(self)@ == old(self)@.set_file(data@),
            final(self).is_canceled() == old(self).is_canceled(),
            extends(old(self).defs(), final(self).defs()),
            final(self).memos() == old(self).memos(),
            final(self).kept() == old(self).kept(),
            final(self).subs_memos() == old(self).subs_memos(),
    {
        broadcast use group_hash_axioms;

        let ghost before = self@;
        let ghost model = data@;
        let key = data.file_id.0;
        proof {
            self.lemma_stamps_bounded();
        }
        self.intern_file(&data);
        self.files.insert(key, Arc::new(data));
        proof {
            assert(self@.files =~= before.files.insert(key, model));
            assert(self@.roots =~= before.roots);
            assert(self@ == before.set_file(model));
            assert forall|f: u32| self.symbols@.contains_key(f) implies symbols_ok(
                self@,
                f,
                *(#[trigger] self.symbols@[f]),
            ) by {
                lemma_set_file_keeps_symbols(before, model, f, *self.symbols@[f]);
            }
            assert forall|k: u64| self.subs@.contains_key(k) implies subs_ok(
                self@,
                k,
                *(#[trigger] self.subs@[k]),
            ) by {
                lemma_set_file_keeps_subs(before, model, k, *self.subs@[k]);
            }
            assert forall|r: u32| self.trees@.contains_key(r) implies tree_ok(
                self@,
                r,
                *(#[trigger] self.trees@[r]),
            ) by {
                lemma_set_file_keeps_tree(before, model, r, *self.trees@[r]);
            }
            lemma_file_defs_extend(before.defs, model, interned_items(model));
            if self@.defs.len() == before.defs.len() {
                assert(self@.defs =~= before.defs);
            }
            assert forall|slot: Slot| #[trigger] slot_stamp(before, slot) <= slot_stamp(self@, slot) by {
                assert(slot_stamp(before, slot) <= before.revision);
            }
            assert forall|r: u32| self.item_maps@.contains_key(r) implies item_map_ok(
                self@,
                self.trees@,
                r,
                *(#[trigger] self.item_maps@[r]),
            ) by {
                lemma_map_carries(before, self@, self.trees@, r, *self.item_maps@[r]);
            }
        }
    }

    /// Sets a root at the current revision.
    fn put_root(&mut self, root_id: SourceRootId, root: SourceRoot)
        requires
            old(self).inv(),
            old(self).quiescent(),
        ensures
            final(self).inv(),
            final(self).quiescent(),
            final(self)@ == old(self)@.set_root(root_id, root@),
            final(self).is_canceled() == old(self).is_canceled(),
            extends(old(self).defs(), final(self).defs()),
            final(self).memos() == old(self).memos(),
            final(self).kept() == old(self).kept(),
            final(self).subs_memos() == old(self).subs_memos(),
    {
        broadcast use group_hash_axioms;

        let ghost before = self@;
        let ghost entries = root@;
        proof {
            self.lemma_stamps_bounded();
        }
        self.roots.insert(root_id.0, Arc::new(RootData { root, changed_at: self.revision }));
        proof {
            assert(self@.files =~= before.files);
            assert(self@.roots =~= before.set_root(root_id, entries).roots);
            assert(self@ == before.set_root(root_id, entries));
            assert forall|f: u32| self.symbols@.contains_key(f) implies symbols_ok(
                self@,
                f,
                *(#[trigger] self.symbols@[f]),
            ) by {
                lemma_set_root_keeps_symbols(before, root_id, entries, f, *self.symbols@[f]);
            }
            assert forall|k: u64| self.subs@.contains_key(k) implies subs_ok(
                self@,
                k,
                *(#[trigger] self.subs@[k]),
            ) by {
                lemma_keep_subs(before, self@, k, *self.subs@[k]);
            }
            assert forall|r: u32| self.trees@.contains_key(r) implies tree_ok(
                self@,
                r,
                *(#[trigger] self.trees@[r]),
            ) by {
                lemma_set_root_keeps_tree(before, root_id, entries, r, *self.trees@[r]);
            }
            assert forall|slot: Slot| #[trigger] slot_stamp(before, slot) <= slot_stamp(self@, slot) by {
                assert(slot_stamp(before, slot) <= before.revision);
            }
            assert forall|r: u32| self.item_maps@.contains_key(r) implies item_map_ok(
                self@,
                self.trees@,
                r,
                *(#[trigger] self.item_maps@[r]),
            ) by {
                lemma_map_carries(before, self@, self.trees@, r, *self.item_maps@[r]);
            }
        }
    }

    /// What holds of a database holds of one that differs in neither files,
    /// roots nor cached values, and is at no earlier revision.
    proof fn lemma_inv_carries(before: RootDatabase, after: RootDatabase)
        requires
            before.inv(),
            after.files == before.files,
            after.roots == before.roots,
            after.symbols == before.symbols,
            after.trees == before.trees,
            after.item_maps == before.item_maps,
            after.subs == before.subs,
            after.swept_symbols == before.swept_symbols,
            after.swept_maps == before.swept_maps,
            after.defs == before.defs,
            after.defs_changed_at == before.defs_changed_at,
            before.revision <= after.revision,
        ensures
            after.inv(),
    {
        assert forall|r: u32| after.item_maps@.contains_key(r) implies item_map_ok(
            after@,
            after.trees@,
            r,
            *(#[trigger] after.item_maps@[r]),
        ) by {
            lemma_map_carries(before@, after@, after.trees@, r, *after.item_maps@[r]);
        }
        assert forall|f: u32| after.symbols@.contains_key(f) implies symbols_ok(
            after@,
            f,
            *(#[trigger] after.symbols@[f]),
        ) by {
            lemma_keep_symbols(before@, after@, f, *after.symbols@[f]);
        }
        assert forall|k: u64| after.subs@.contains_key(k) implies subs_ok(
            after@,
            k,
            *(#[trigger] after.subs@[k]),
        ) by {
            lemma_keep_subs(before@, after@, k, *after.subs@[k]);
        }
        assert forall|r: u32| after.trees@.contains_key(r) implies tree_ok(
            after@,
            r,
            *(#[trigger] after.trees@[r]),
        ) by {
            lemma_keep_tree(before@, after@, r, *after.trees@[r]);
        }
    }

    /// Empties the text of a file at the current revision; a file that was
    /// never added stays absent.
    fn clear_file(&mut self, file_id: FileId)
        requires
            old(self).inv(),
            old(self).quiescent(),
        ensures
            final(self).inv(),
            final(self).quiescent(),
            final(self)@ == old(self)@.clear_file(file_id),
            final(self).is_canceled() == old(self).is_canceled(),
            extends(old(self).defs(), final(self).defs()),
            final(self).memos() == old(self).memos(),
            final(self).kept() == old(self).kept(),
            final(self).subs_memos() == old(self).subs_memos(),
    {
        broadcast use group_hash_axioms;

        let data = match self.files.get(&file_id.0) {
            Some(file) => Some(
                FileData {
                    file_id: file.file_id,
                    source_root: file.source_root,
                    path: file.path.duplicate(),
                    text: String::new(),
                    syntax: SourceFile { symbols: Vec::new(), items: Vec::new() },
                    changed_at: self.revision,
                },
            ),
            None => None,
        };
        match data {
            Some(data) => {
                assert(data@ == FileModel {
                    text: Seq::empty(),
                    symbols: Seq::empty(),
                    items: Seq::empty(),
                    changed_at: self.revision,
                    ..self@.files[file_id.0]
                });
                self.put_file(data);
            },
            None => {},
        }
    }

    /// Replaces the text of a file at the current revision; a file that was
    /// never added stays absent.
    fn change_file(&mut self, change: ChangeFile)
        requires
            old(self).inv(),
            old(self).quiescent(),
        ensures
            final(self).inv(),
            final(self).quiescent(),
            final(self)@ == old(self)@.change_file(change),
            final(self).is_canceled() == old(self).is_canceled(),
            extends(old(self).defs(), final(self).defs()),
            final(self).memos() == old(self).memos(),
            final(self).kept() == old(self).kept(),
            final(self).subs_memos() == old(self).subs_memos(),
    {
        broadcast use group_hash_axioms;

        let ChangeFile { file_id, text, syntax } = change;
        let known = match self.files.get(&file_id.0) {
            Some(file) => Some((file.source_root, file.path.duplicate())),
            None => None,
        };
        match known {
            Some((source_root, path)) => {
                let data = FileData { file_id, source_root, path, text, syntax, changed_at: self.revision };
                assert(data@ == FileModel {
                    text: change.text@,
                    symbols: change.syntax.symbols@,
                    items: change.syntax.items@,
                    changed_at: self.revision,
                    ..self@.files[file_id.0]
                });
                self.put_file(data);
            },
            None => {},
        }
    }

    /// Applies the change of one root: sets the added files and enters them
    /// in the root, empties the removed files and takes them out of it, and
    /// sets the root.
    fn apply_root_change(&mut self, root_id: SourceRootId, root_change: RootChange)
        requires
            old(self).inv(),
            old(self).quiescent(),
        ensures
            final(self).inv(),
            final(self).quiescent(),
            final(self)@ == old(self)@.change_root(root_id, root_change),
            final(self).is_canceled() == old(self).is_canceled(),
            extends(old(self).defs(), final(self).defs()),
            final(self).memos() == old(self).memos(),
            final(self).kept() == old(self).kept(),
            final(self).subs_memos() == old(self).subs_memos(),
    {
        broadcast use group_hash_axioms;

        let ghost before = self@;
        let mut source_root = match self.roots.get(&root_id.0) {
            Some(data) => data.root.duplicate(),
            None => SourceRoot::new(),
        };
        assert(source_root@ == before.root_entries(root_id));
        let ghost entries = source_root@;
        let RootChange { added, removed } = root_change;
        for add in it: added
            invariant
                self.inv(),
                self.quiescent(),
                self.is_canceled() == old(self).is_canceled(),
                extends(old(self).defs(), self.defs()),
                self.memos() == old(self).memos(),
                self.kept() == old(self).kept(),
                self.subs_memos() == old(self).subs_memos(),
                it.seq() == added@,
                self@ == before.after_added(root_id, added@, it.index() as int),
                self@.revision == before.revision,
                source_root@ == entries_after_added(entries, added@, it.index() as int),
        {
            let AddFile { file_id, path, text, syntax } = add;
            let copy = path.duplicate();
            let data = FileData {
                file_id,
                source_root: root_id,
                path,
                text,
                syntax,
                changed_at: self.revision,
            };
            assert(data@ == self@.added_file(root_id, add));
            self.put_file(data);
            source_root.insert(copy, file_id);
        }
        let ghost mid = self@;
        let ghost mid_entries = source_root@;
        for remove in it: removed
            invariant
                self.inv(),
                self.quiescent(),
                self.is_canceled() == old(self).is_canceled(),
                extends(old(self).defs(), self.defs()),
                self.memos() == old(self).memos(),
                self.kept() == old(self).kept(),
                self.subs_memos() == old(self).subs_memos(),
                it.seq() == removed@,
                self@ == mid.after_removed(removed@, it.index() as int),
                source_root@ == entries_after_removed(mid_entries, removed@, it.index() as int),
        {
            self.clear_file(remove.file_id);
            source_root.remove(&remove.path);
        }
        self.put_root(root_id, source_root);
    }

    /// Declares a root: it has no files. A local root is listed as such.
    fn declare_root(&mut self, root_id: SourceRootId, is_local: bool)
        requires
            old(self).inv(),
            old(self).quiescent(),
        ensures
            final(self).inv(),
            final(self).quiescent(),
            final(self)@ == if is_local {
                Inputs {
                    local_roots: old(self)@.local_roots.push(root_id),
                    ..old(self)@.set_root(root_id, Seq::empty())
                }
            } else {
                old(self)@.set_root(root_id, Seq::empty())
            },
            final(self).is_canceled() == old(self).is_canceled(),
            extends(old(self).defs(), final(self).defs()),
            final(self).memos() == old(self).memos(),
            final(self).kept() == old(self).kept(),
            final(self).subs_memos() == old(self).subs_memos(),
    {
        self.put_root(root_id, SourceRoot::new());
        if is_local {
            let ghost before = *self;
            self.local_roots.push(root_id);
            proof {
                Self::lemma_inv_carries(before, *self);
            }
        }
    }

    /// Adds a library: declares its root, lists it, sets its symbol index,
    /// and brings its files in.
    fn add_library(&mut self, library: LibraryData)
        requires
            old(self).inv(),
            old(self).quiescent(),
        ensures
            final(self).inv(),
            final(self).quiescent(),
            final(self)@ == old(self)@.add_library(library),
            final(self).is_canceled() == old(self).is_canceled(),
            extends(old(self).defs(), final(self).defs()),
            final(self).memos() == old(self).memos(),
            final(self).kept() == old(self).kept(),
            final(self).subs_memos() == old(self).subs_memos(),
    {
        broadcast use group_hash_axioms;

        let LibraryData { root_id, root_change, symbol_index } = library;
        self.put_root(root_id, SourceRoot::new());
        let ghost before = *self;
        self.library_roots.push(root_id);
        self.library_symbols.insert(root_id.0, Arc::new(symbol_index));
        proof {
            Self::lemma_inv_carries(before, *self);
        }
        self.apply_root_change(root_id, root_change);
    }

    /// Applies a change to the inputs, as one step: the revision advances by
    /// one, whatever the change holds, and every input that the change sets
    /// is stamped with the new revision.
    pub fn apply_change(&mut self, change: AnalysisChange)
        requires
            old(self).inv(),
            old(self)@.revision < u64::MAX,
        ensures
            final(self).inv(),
            final(self)@ == old(self)@.apply(change),
            final(self)@.revision == old(self)@.revision + 1,
            final(self).is_canceled() == old(self).is_canceled(),
            extends(old(self).defs(), final(self).defs()),
            final(self).memos() == old(self).memos(),
            final(self).kept() == old(self).kept(),
            final(self).subs_memos() == old(self).subs_memos(),
    {
        let ghost start = *self;
        self.revision = self.revision + 1;
        proof {
            Self::lemma_inv_carries(start, *self);
            assert(self@ == start@.advance());
        }
        let ghost s0 = self@;
        let AnalysisChange { new_roots, roots_changed, files_changed, libraries_added, crate_graph } =
            change;
        for declared in it: new_roots
            invariant
                self.inv(),
                self.quiescent(),
                self.is_canceled() == old(self).is_canceled(),
                extends(old(self).defs(), self.defs()),
                self.memos() == old(self).memos(),
                self.kept() == old(self).kept(),
                self.subs_memos() == old(self).subs_memos(),
                it.seq() == new_roots@,
                self@ == s0.after_new_roots(new_roots@, it.index() as int),
        {
            self.declare_root(declared.0, declared.1);
        }
        let ghost s1 = self@;
        for changed in it: roots_changed
            invariant
                self.inv(),
                self.quiescent(),
                self.is_canceled() == old(self).is_canceled(),
                extends(old(self).defs(), self.defs()),
                self.memos() == old(self).memos(),
                self.kept() == old(self).kept(),
                self.subs_memos() == old(self).subs_memos(),
                it.seq() == roots_changed@,
                self@ == s1.after_roots_changed(roots_changed@, it.index() as int),
        {
            let (root_id, root_change) = changed;
            self.apply_root_change(root_id, root_change);
        }
        let ghost s2 = self@;
        for changed in it: files_changed
            invariant
                self.inv(),
                self.quiescent(),
                self.is_canceled() == old(self).is_canceled(),
                extends(old(self).defs(), self.defs()),
                self.memos() == old(self).memos(),
                self.kept() == old(self).kept(),
                self.subs_memos() == old(self).subs_memos(),
                it.seq() == files_changed@,
                self@ == s2.after_files_changed(files_changed@, it.index() as int),
        {
            self.change_file(changed);
        }
        let ghost s3 = self@;
        for library in it: libraries_added
            invariant
                self.inv(),
                self.quiescent(),
                self.is_canceled() == old(self).is_canceled(),
                extends(old(self).defs(), self.defs()),
                self.memos() == old(self).memos(),
                self.kept() == old(self).kept(),
                self.subs_memos() == old(self).subs_memos(),
                it.seq() == libraries_added@,
                self@ == s3.after_libraries(libraries_added@, it.index() as int),
        {
            self.add_library(library);
        }
        match crate_graph {
            Some(graph) => {
                let ghost before = *self;
                self.crate_graph = Arc::new(graph);
                proof {
                    Self::lemma_inv_carries(before, *self);
                }
            },
            None => {},
        }
        proof {
            assert(s0.after_new_roots(new_roots@, new_roots@.len() as int).revision == s0.revision)
                by {
                lemma_revision_new_roots(s0, new_roots@, new_roots@.len() as int);
            }
            lemma_revision_roots_changed(s1, roots_changed@, roots_changed@.len() as int);
            lemma_revision_files_changed(s2, files_changed@, files_changed@.len() as int);
            lemma_revision_libraries(s3, libraries_added@, libraries_added@.len() as int);
        }
    }

    /// Tells the snapshot to give up: every query on it from now on returns
    /// the cancellation signal.
    pub fn cancel(&mut self)
        ensures
            final(self).is_canceled(),
            final(self)@ == old(self)@,
            old(self).inv() ==> final(self).inv(),
            final(self).memos() == old(self).memos(),
            final(self).subs_memos() == old(self).subs_memos(),
            final(self).defs() == old(self).defs(),
    {
        self.canceled = true;
    }

    /// The cancellation signal where the snapshot was told to give up.
    pub fn check_canceled(&self) -> (r: Result<(), Canceled>)
        ensures
            r.is_err() == self.is_canceled(),
    {
        if self.canceled {
            Err(Canceled)
        } else {
            Ok(())
        }
    }

    /// All cached values with their stamps.
    pub closed spec fn memos(&self) -> (
        Map<u32, Arc<Memo<SymbolIndex>>>,
        Map<u32, Arc<Memo<ModuleTree>>>,
        Map<u32, Arc<Memo<ItemMap>>>,
    ) {
        (self.symbols@, self.trees@, self.item_maps@)
    }

    /// The stamps that are kept of discarded values: of symbol indices, of
    /// item maps.
    pub closed spec fn kept(&self) -> (Map<u32, Arc<Stamps>>, Map<u32, Arc<Stamps>>) {
        (self.swept_symbols@, self.swept_maps@)
    }

    /// A snapshot of the database: the same inputs and cached values, not
    /// cancelled. The snapshot shares the values and the store of definition
    /// locations with the database; nothing is built for it.
    pub fn snapshot(&self) -> (snap: RootDatabase)
        requires
            self.inv(),
        ensures
            snap.inv(),
            snap@ == self@,
            !snap.is_canceled(),
            snap.memos() == self.memos(),
            snap.subs_memos() == self.subs_memos(),
            snap.defs() == self.defs(),
    {
        let snap = RootDatabase {
            revision: self.revision,
            canceled: false,
            files: self.files.clone(),
            roots: self.roots.clone(),
            local_roots: copy_roots(&self.local_roots),
            library_roots: copy_roots(&self.library_roots),
            library_symbols: self.library_symbols.clone(),
            crate_graph: share(&self.crate_graph),
            symbols: self.symbols.clone(),
            trees: self.trees.clone(),
            item_maps: self.item_maps.clone(),
            subs: self.subs.clone(),
            swept_symbols: self.swept_symbols.clone(),
            swept_maps: self.swept_maps.clone(),
            defs: share(&self.defs),
            defs_changed_at: self.defs_changed_at,
        };
        assert(snap@ == self@);
        snap
    }

    /// The revision at which an input last changed.
    fn stamp_of(&self, slot: Slot) -> (stamp: u64)
        ensures
            stamp == slot_stamp(self@, slot),
    {
        broadcast use group_hash_axioms;

        match slot {
            Slot::File(f) => match self.files.get(&f.0) {
                Some(file) => file.changed_at,
                None => 0,
            },
            Slot::Root(r) => match self.roots.get(&r.0) {
                Some(root) => root.changed_at,
                None => 0,
            },
            Slot::Defs => self.defs_changed_at,
            Slot::Tree(_) => 0,
        }
    }

    /// Whether none of the dependencies changed after `verified_at`.
    fn is_fresh(&self, deps: &Vec<Dep>, verified_at: u64) -> (b: bool)
        ensures
            b == fresh(self@, deps@, verified_at),
    {
        let mut i: usize = 0;
        while i < deps.len()
            invariant
                i <= deps.len(),
                forall|k: int|
                    0 <= k < i ==> slot_stamp(self@, (#[trigger] deps@[k]).slot) <= verified_at,
            decreases deps.len() - i,
        {
            if outdates(self.stamp_of(deps[i].slot), verified_at) {
                return false;
            }
            i = i + 1;
        }
        true
    }

    /// The symbol index that is cached for a file, if one is.
    pub open spec fn cached_symbols(&self, file_id: FileId) -> Option<Arc<SymbolIndex>> {
        if self.memos().0.contains_key(file_id.0) {
            Some(self.memos().0[file_id.0].value)
        } else {
            None
        }
    }

    /// The revision at which the symbol index of a file last changed, as the
    /// stamps of a discarded index tell it: nothing where no stamps are
    /// kept, or where the file changed since they were verified.
    pub open spec fn kept_symbols(&self, file_id: FileId) -> Option<u64> {
        if self.kept().0.contains_key(file_id.0) && fresh(
            self@,
            self.kept().0[file_id.0].deps@,
            self.kept().0[file_id.0].verified_at,
        ) {
            Some(self.kept().0[file_id.0].changed_at)
        } else {
            None
        }
    }

    /// The stamps that are kept of the discarded symbol index of a file:
    /// when it was verified, when it last changed.
    pub open spec fn swept_symbols_stamp(&self, file_id: FileId) -> Option<(u64, u64)> {
        if self.kept().0.contains_key(file_id.0) {
            Some(
                (
                    self.kept().0[file_id.0].verified_at,
                    self.kept().0[file_id.0].changed_at,
                ),
            )
        } else {
            None
        }
    }

    /// The symbol index of a file. A cached index that was verified at the
    /// current revision is returned as it is; an older one is returned if the
    /// file did not change since; else the index is built anew, and keeps
    /// the stamp of the older one where the two hold the same symbols. An
    /// index that is built in the place of a discarded one keeps the stamp
    /// of that one if the file did not change since.
    pub fn file_symbols(&mut self, file_id: FileId) -> (res: Result<Arc<SymbolIndex>, Canceled>)
        requires
            old(self).inv(),
            old(self)@.files.contains_key(file_id.0),
        ensures
            final(self).inv(),
            final(self)@ == old(self)@,
            final(self).is_canceled() == old(self).is_canceled(),
            final(self).defs() == old(self).defs(),
            final(self).memos().1 == old(self).memos().1,
            final(self).memos().2 == old(self).memos().2,
            final(self).kept().1 == old(self).kept().1,
            final(self).subs_memos() == old(self).subs_memos(),
            match res {
                Ok(index) => {
                    &&& !old(self).is_canceled()
                    &&& symbols_of(final(self)@, file_id, *index)
                    &&& final(self).cached_symbols(file_id) == Some(index)
                    &&& final(self).symbols_stamp(file_id) == Some(
                        (
                            final(self)@.revision,
                            changed_at_after(
                                match old(self).symbols_stamp(file_id) {
                                    Some(stamp) => Some(stamp.1),
                                    None => old(self).kept_symbols(file_id),
                                },
                                match old(self).cached_symbols(file_id) {
                                    Some(previous) => same_entries(previous.entries(), index.entries()),
                                    None => true,
                                },
                                final(self)@.revision,
                            ),
                        ),
                    )
                    &&& final(self).swept_symbols_stamp(file_id).is_none()
                    &&& final(self).symbols_fresh(file_id)
                    &&& old(self).symbols_fresh(file_id) ==> Some(index) == old(self).cached_symbols(
                        file_id,
                    )
                },
                Err(_) => old(self).is_canceled() && final(self).symbols_stamp(file_id) == old(
                    self,
                ).symbols_stamp(file_id),
            },
    {
        broadcast use group_hash_axioms;

        if self.canceled {
            return Err(Canceled);
        }
        let key = file_id.0;
        let revision = self.revision;
        let ghost before = *self;
        proof {
            self.lemma_stamps_bounded();
        }
        let cached: Option<Arc<Memo<SymbolIndex>>> = match self.symbols.get(&key) {
            Some(memo) => Some(share(memo)),
            None => None,
        };
        match &cached {
            Some(memo) => {
                assert(symbols_ok(self@, key, **memo));
                let current = match probe(Some(memo.verified_at), revision) {
                    Probe::Current => true,
                    _ => false,
                };
                if current || self.is_fresh(&memo.deps, memo.verified_at) {
                    let value = share(&memo.value);
                    assert(fresh(self@, memo.deps@, memo.verified_at));
                    if !current {
                        let verified = Memo {
                            value: share(&memo.value),
                            verified_at: revision,
                            changed_at: memo.changed_at,
                            deps: copy_deps(&memo.deps),
                        };
                        assert(symbols_ok(self@, key, verified));
                        self.symbols.insert(key, Arc::new(verified));
                    }
                    self.swept_symbols.remove(&key);
                    assert(self@ == before@);
                    return Ok(value);
                }
            },
            None => {},
        }
        let (symbols, file_changed_at) = match self.files.get(&key) {
            Some(file) => (copy_symbols(&file.syntax.symbols), file.changed_at),
            None => (Vec::new(), 0),
        };
        let index = SymbolIndex::for_file(file_id, symbols);
        let (unchanged, previous) = match &cached {
            Some(memo) => (memo.value.same_symbols(&index), Some(memo.changed_at)),
            None => {
                let kept = self.kept_stamp(&self.swept_symbols, key);
                (true, kept)
            },
        };
        let changed_at = changed_at_after(previous, unchanged, revision);
        let mut deps: Vec<Dep> = Vec::new();
        deps.push(Dep { slot: Slot::File(file_id), changed_at: file_changed_at });
        let value = Arc::new(index);
        let computed = Memo { value: share(&value), verified_at: revision, changed_at, deps };
        proof {
            assert(dep_slots(computed.deps@) =~= seq![Slot::File(FileId(key))]);
            assert(symbols_ok(self@, key, computed));
        }
        self.symbols.insert(key, Arc::new(computed));
        self.swept_symbols.remove(&key);
        assert(self@ == before@);
        Ok(value)
    }

    /// The revision at which the discarded item map of a root was verified;
    /// 0 where no stamps are kept of one.
    fn swept_verified_at(&self, key: u32) -> (r: u64)
        ensures
            r == if self.swept_maps@.contains_key(key) {
                self.swept_maps@[key].verified_at
            } else {
                0
            },
    {
        broadcast use group_hash_axioms;

        match self.swept_maps.get(&key) {
            Some(stamps) => stamps.verified_at,
            None => 0,
        }
    }

    /// The revision at which a discarded value last changed, as the stamps
    /// that are kept of it tell: nothing where none are kept, or where an
    /// input that the value read changed since they were verified.
    fn kept_stamp(&self, swept: &HashMap<u32, Arc<Stamps>>, key: u32) -> (r: Option<u64>)
        ensures
            r == if swept@.contains_key(key) && fresh(self@, swept@[key].deps@, swept@[key].verified_at) {
                Some(swept@[key].changed_at)
            } else {
                None
            },
    {
        broadcast use group_hash_axioms;

        match swept.get(&key) {
            Some(stamps) => if self.is_fresh(&stamps.deps, stamps.verified_at) {
                Some(stamps.changed_at)
            } else {
                None
            },
            None => None,
        }
    }

    /// The cached submodules with their stamps, each list under the key of
    /// its module.
    pub closed spec fn subs_memos(&self) -> Map<u64, Arc<Memo<Vec<Submodule>>>> {
        self.subs@
    }

    /// The stamps of the cached submodules of a module: when they were
    /// verified, when they last changed.
    pub open spec fn subs_stamp(&self, source: ModuleSource) -> Option<(u64, u64)> {
        match key_of_source(source) {
            Some(k) => if self.subs_memos().contains_key(k) {
                Some((self.subs_memos()[k].verified_at, self.subs_memos()[k].changed_at))
            } else {
                None
            },
            None => None,
        }
    }

    /// The submodules that are cached for a module, if any are.
    pub open spec fn cached_subs(&self, source: ModuleSource) -> Option<Seq<Submodule>> {
        match key_of_source(source) {
            Some(k) => if self.subs_memos().contains_key(k) {
                Some(self.subs_memos()[k].value@)
            } else {
                None
            },
            None => None,
        }
    }

    /// Whether the submodules cached for a module are valid as the inputs
    /// stand: the file of the module did not change since they were
    /// verified.
    pub open spec fn subs_fresh(&self, source: ModuleSource) -> bool {
        key_of_source(source) matches Some(k) && self.subs_memos().contains_key(k) && fresh(
            self@,
            self.subs_memos()[k].deps@,
            self.subs_memos()[k].verified_at,
        )
    }

    /// The stamps of the submodules cached for a module: when they were
    /// verified, when they last changed.
    pub fn subs_stamps(&self, source: ModuleSource) -> (r: Option<(u64, u64)>)
        ensures
            r == self.subs_stamp(source),
    {
        broadcast use group_hash_axioms;

        match source_key(source) {
            Some(key) => match self.subs.get(&key) {
                Some(memo) => Some((memo.verified_at, memo.changed_at)),
                None => None,
            },
            None => None,
        }
    }

    /// The submodules of a module. Cached submodules that were verified at
    /// the current revision are returned as they are; older ones are
    /// returned if the file of the module did not change since; else they
    /// are read off the items of the file anew, and keep the stamp of the
    /// older ones where the two are the same. The submodules of an inline
    /// module whose position does not fit in 32 bits are not cached.
    pub fn submodules(&mut self, source: ModuleSource) -> (res: Result<Vec<Submodule>, Canceled>)
        requires
            old(self).inv(),
        ensures
            final(self).inv(),
            final(self)@ == old(self)@,
            final(self).is_canceled() == old(self).is_canceled(),
            final(self).defs() == old(self).defs(),
            final(self).memos() == old(self).memos(),
            final(self).kept() == old(self).kept(),
            match res {
                Ok(found) => {
                    &&& !old(self).is_canceled()
                    &&& subs_of(final(self)@, source, found@)
                    &&& key_of_source(source) is None ==> final(self).subs_memos() == old(
                        self,
                    ).subs_memos()
                    &&& key_of_source(source) is Some ==> {
                        &&& final(self).cached_subs(source) == Some(found@)
                        &&& final(self).subs_fresh(source)
                        &&& final(self).subs_stamp(source) == Some(
                            (
                                final(self)@.revision,
                                changed_at_after(
                                    match old(self).subs_stamp(source) {
                                        Some(stamp) => Some(stamp.1),
                                        None => None,
                                    },
                                    match old(self).cached_subs(source) {
                                        Some(previous) => same_submodules(previous, found@),
                                        None => false,
                                    },
                                    final(self)@.revision,
                                ),
                            ),
                        )
                    }
                },
                Err(_) => old(self).is_canceled() && final(self).subs_memos() == old(self).subs_memos(),
            },
    {
        broadcast use group_hash_axioms;

        if self.canceled {
            return Err(Canceled);
        }
        let revision = self.revision;
        let ghost before = *self;
        proof {
            self.lemma_stamps_bounded();
        }
        let file_id = source.file_id();
        let key = match source_key(source) {
            Some(key) => key,
            None => {
                return Ok(self.read_submodules(source));
            },
        };
        proof {
            crate::model::lemma_key_of_source(source);
        }
        let cached: Option<Arc<Memo<Vec<Submodule>>>> = match self.subs.get(&key) {
            Some(memo) => Some(share(memo)),
            None => None,
        };
        match &cached {
            Some(memo) => {
                assert(subs_ok(self@, key, **memo));
                let current = match probe(Some(memo.verified_at), revision) {
                    Probe::Current => true,
                    _ => false,
                };
                if current || self.is_fresh(&memo.deps, memo.verified_at) {
                    let held: &Vec<Submodule> = &memo.value;
                    let value = copy_submodules(held);
                    assert(fresh(self@, memo.deps@, memo.verified_at));
                    if !current {
                        let verified = Memo {
                            value: share(&memo.value),
                            verified_at: revision,
                            changed_at: memo.changed_at,
                            deps: copy_deps(&memo.deps),
                        };
                        assert(subs_ok(self@, key, verified));
                        self.subs.insert(key, Arc::new(verified));
                        assert(self@ == before@);
                    }
                    return Ok(value);
                }
            },
            None => {},
        }
        let slot = Slot::File(file_id);
        let mut deps: Vec<Dep> = Vec::new();
        deps.push(Dep { slot, changed_at: self.stamp_of(slot) });
        let found = self.read_submodules(source);
        let (unchanged, previous) = match &cached {
            Some(memo) => {
                let held: &Vec<Submodule> = &memo.value;
                (submodules_are_same(held, &found), Some(memo.changed_at))
            },
            None => (false, None),
        };
        let changed_at = changed_at_after(previous, unchanged, revision);
        let value = copy_submodules(&found);
        let computed = Memo { value: Arc::new(found), verified_at: revision, changed_at, deps };
        proof {
            assert(dep_slots(computed.deps@) =~= seq![Slot::File(file_id)]);
            assert(subs_ok(self@, key, computed));
        }
        self.subs.insert(key, Arc::new(computed));
        assert(self@ == before@);
        Ok(value)
    }

    /// The submodules of a module, read off the items of its file.
    fn read_submodules(&self, source: ModuleSource) -> (found: Vec<Submodule>)
        requires
            self.inv(),
        ensures
            subs_of(self@, source, found@),
    {
        match self.file_data(source.file_id()) {
            Some(file) => submodules(source, &file.syntax.items),
            None => {
                let items: Vec<SourceItem> = Vec::new();
                submodules(source, &items)
            },
        }
    }

    /// The module tree that is cached for a root, if one is.
    pub open spec fn cached_tree(&self, root: SourceRootId) -> Option<Arc<ModuleTree>> {
        if self.memos().1.contains_key(root.0) {
            Some(self.memos().1[root.0].value)
        } else {
            None
        }
    }

    /// The files of a root, as far as they were set, in the order of the
    /// root, and the inputs that this reads.
    fn gather(&self, root: SourceRootId) -> (r: (Vec<Arc<FileData>>, Vec<Dep>))
        requires
            self.inv(),
        ensures
            file_models(r.0@) == root_files(self@, root),
            dep_slots(r.1@) == tree_slots(root, self@.root_entries(root)),
    {
        broadcast use group_hash_axioms;

        let mut list: Vec<Arc<FileData>> = Vec::new();
        let mut deps: Vec<Dep> = Vec::new();
        deps.push(Dep { slot: Slot::Root(root), changed_at: self.stamp_of(Slot::Root(root)) });
        let ghost entries = self@.root_entries(root);
        match self.roots.get(&root.0) {
            Some(data) => {
                let files = &data.root.files;
                assert(data.root@ == entries);
                let mut i: usize = 0;
                assert(file_models(list@) =~= gathered(self@.files, entries, 0));
                while i < files.len()
                    invariant
                        i <= files.len(),
                        files.len() == entries.len(),
                        forall|k: int| 0 <= k < files.len() ==> (#[trigger] files@[k]).1 == entries[k].1,
                        file_models(list@) == gathered(self@.files, entries, i as int),
                        deps.len() == i + 1,
                        deps@[0].slot == Slot::Root(root),
                        forall|k: int| 0 <= k < i ==> (#[trigger] deps@[k + 1]).slot == Slot::File(
                            entries[k].1,
                        ),
                    decreases files.len() - i,
                {
                    let file_id = files[i].1;
                    assert(files@[i as int].1 == entries[i as int].1);
                    deps.push(
                        Dep { slot: Slot::File(file_id), changed_at: self.stamp_of(Slot::File(file_id)) },
                    );
                    let ghost old_list = list@;
                    match self.files.get(&file_id.0) {
                        Some(file) => {
                            list.push(share(file));
                            assert(file_models(list@) =~= file_models(old_list).push(
                                self@.files[file_id.0],
                            ));
                        },
                        None => {},
                    }
                    i = i + 1;
                }
                assert forall|k: int| 0 <= k < deps@.len() implies dep_slots(deps@)[k] == tree_slots(
                    root,
                    entries,
                )[k] by {
                    if k > 0 {
                        assert(deps@[(k - 1) + 1].slot == Slot::File(entries[k - 1].1));
                    }
                }
                assert(dep_slots(deps@) =~= tree_slots(root, entries));
            },
            None => {
                assert(file_models(list@) =~= gathered(self@.files, entries, 0));
                assert(dep_slots(deps@) =~= tree_slots(root, entries));
            },
        }
        (list, deps)
    }

    /// The module tree of a root. A cached tree that was verified at the
    /// current revision is returned as it is; an older one is returned if
    /// neither the root nor any of its files changed since; else the tree is
    /// built anew, and keeps the stamp of the older one where the two are
    /// the same.
    pub fn module_tree(&mut self, root: SourceRootId) -> (res: Result<Arc<ModuleTree>, Canceled>)
        requires
            old(self).inv(),
        ensures
            final(self).inv(),
            final(self)@ == old(self)@,
            final(self).is_canceled() == old(self).is_canceled(),
            final(self).defs() == old(self).defs(),
            final(self).memos().0 == old(self).memos().0,
            final(self).memos().2 == old(self).memos().2,
            final(self).kept() == old(self).kept(),
            final(self).subs_memos() == old(self).subs_memos(),
            match res {
                Ok(tree) => {
                    &&& !old(self).is_canceled()
                    &&& tree_of(final(self)@, root, *tree)
                    &&& final(self).cached_tree(root) == Some(tree)
                    &&& final(self).tree_stamp(root) == Some(
                        (
                            final(self)@.revision,
                            changed_at_after(
                                match old(self).tree_stamp(root) {
                                    Some(stamp) => Some(stamp.1),
                                    None => None,
                                },
                                match old(self).cached_tree(root) {
                                    Some(previous) => same_tree(*previous, *tree),
                                    None => false,
                                },
                                final(self)@.revision,
                            ),
                        ),
                    )
                    &&& final(self).tree_fresh(root)
                    &&& old(self).tree_fresh(root) ==> Some(tree) == old(self).cached_tree(root)
                        && final(self).tree_stamp(root) == Some(
                        (final(self)@.revision, old(self).memos().1[root.0].changed_at),
                    )
                },
                Err(_) => old(self).is_canceled() && final(self).tree_stamp(root) == old(
                    self,
                ).tree_stamp(root),
            },
    {
        broadcast use group_hash_axioms;

        if self.canceled {
            return Err(Canceled);
        }
        let key = root.0;
        let revision = self.revision;
        let ghost before = *self;
        proof {
            self.lemma_stamps_bounded();
        }
        let cached: Option<Arc<Memo<ModuleTree>>> = match self.trees.get(&key) {
            Some(memo) => Some(share(memo)),
            None => None,
        };
        match &cached {
            Some(memo) => {
                assert(tree_ok(self@, key, **memo));
                let current = match probe(Some(memo.verified_at), revision) {
                    Probe::Current => true,
                    _ => false,
                };
                if current || self.is_fresh(&memo.deps, memo.verified_at) {
                    let value = share(&memo.value);
                    assert(fresh(self@, memo.deps@, memo.verified_at));
                    if !current {
                        let verified = Memo {
                            value: share(&memo.value),
                            verified_at: revision,
                            changed_at: memo.changed_at,
                            deps: copy_deps(&memo.deps),
                        };
                        assert(tree_ok(self@, key, verified));
                        self.trees.insert(key, Arc::new(verified));
                        proof {
                            assert(self@ == before@);
                            Self::lemma_tree_replaced(before, *self, key);
                        }
                    }
                    return Ok(value);
                }
            },
            None => {},
        }
        let (list, deps) = self.gather(root);
        let tree = module_tree(&list);
        let (value, previous) = match &cached {
            Some(memo) => {
                if memo.value.is_same(&tree) {
                    let kept = share(&memo.value);
                    proof {
                        lemma_same_tree_is_tree(root_files(self@, root), inner(kept), tree);
                    }
                    (kept, Some(memo.changed_at))
                } else {
                    (Arc::new(tree), Some(memo.changed_at))
                }
            },
            None => (Arc::new(tree), None),
        };
        let unchanged = match &cached {
            Some(memo) => value.is_same(&memo.value),
            None => false,
        };
        let changed_at = changed_at_after(previous, unchanged, revision);
        let computed = Memo { value: share(&value), verified_at: revision, changed_at, deps };
        proof {
            assert(tree_ok(self@, key, computed));
        }
        self.trees.insert(key, Arc::new(computed));
        proof {
            assert(self@ == before@);
            Self::lemma_tree_replaced(before, *self, key);
        }
        Ok(value)
    }

    /// Replacing the cached tree of a root keeps the database in order
    /// where the new entry is in order, was verified no earlier than the one
    /// it replaces, and either holds the same tree with the same stamp of
    /// change, or is stamped as changed at the current revision, at which
    /// the one it replaces was not verified.
    proof fn lemma_tree_replaced(before: RootDatabase, after: RootDatabase, key: u32)
        requires
            before.inv(),
            after@ == before@,
            after.files == before.files,
            after.roots == before.roots,
            after.symbols == before.symbols,
            after.item_maps == before.item_maps,
            after.subs == before.subs,
            after.swept_symbols == before.swept_symbols,
            after.swept_maps == before.swept_maps,
            after.defs == before.defs,
            after.trees@.contains_key(key),
            after.trees@ == before.trees@.insert(key, after.trees@[key]),
            tree_ok(after@, key, *after.trees@[key]),
            before.trees@.contains_key(key) ==> {
                &&& before.trees@[key].verified_at <= after.trees@[key].verified_at
                &&& (after.trees@[key].value == before.trees@[key].value && after.trees@[key].changed_at
                    == before.trees@[key].changed_at) || (after.trees@[key].changed_at
                    == after.revision && before.trees@[key].verified_at < after.revision)
            },
        ensures
            after.inv(),
    {
        assert forall|f: u32| after.symbols@.contains_key(f) implies symbols_ok(
            after@,
            f,
            *(#[trigger] after.symbols@[f]),
        ) by {
            assert(symbols_ok(before@, f, *before.symbols@[f]));
        }
        assert forall|k: u64| after.subs@.contains_key(k) implies subs_ok(
            after@,
            k,
            *(#[trigger] after.subs@[k]),
        ) by {
            assert(subs_ok(before@, k, *before.subs@[k]));
        }
        assert forall|r: u32| after.trees@.contains_key(r) implies tree_ok(
            after@,
            r,
            *(#[trigger] after.trees@[r]),
        ) by {
            if r != key {
                assert(tree_ok(before@, r, *before.trees@[r]));
            }
        }
        assert forall|r: u32| after.item_maps@.contains_key(r) implies item_map_ok(
            after@,
            after.trees@,
            r,
            *(#[trigger] after.item_maps@[r]),
        ) by {
            assert(item_map_ok(before@, before.trees@, r, *before.item_maps@[r]));
        }
    }

    /// The stamps of the symbol index cached for a file: when it was
    /// verified, when it last changed.
    pub fn symbols_stamps(&self, file_id: FileId) -> (r: Option<(u64, u64)>)
        ensures
            r == self.symbols_stamp(file_id),
    {
        broadcast use group_hash_axioms;

        match self.symbols.get(&file_id.0) {
            Some(memo) => Some((memo.verified_at, memo.changed_at)),
            None => None,
        }
    }

    /// The stamps of the module tree cached for a root: when it was
    /// verified, when it last changed.
    pub fn tree_stamps(&self, root: SourceRootId) -> (r: Option<(u64, u64)>)
        ensures
            r == self.tree_stamp(root),
    {
        broadcast use group_hash_axioms;

        match self.trees.get(&root.0) {
            Some(memo) => Some((memo.verified_at, memo.changed_at)),
            None => None,
        }
    }

    /// Whether the symbol index cached for a file is valid as the inputs
    /// stand: the file did not change since the index was verified.
    pub open spec fn symbols_fresh(&self, file_id: FileId) -> bool {
        self.memos().0.contains_key(file_id.0) && fresh(
            self@,
            self.memos().0[file_id.0].deps@,
            self.memos().0[file_id.0].verified_at,
        )
    }

    /// Whether the item map cached for a root is valid as the inputs stand:
    /// no file of a module of the root, nor the store of definition
    /// locations, changed since the map was verified.
    pub open spec fn item_map_fresh(&self, root: SourceRootId) -> bool {
        self.memos().2.contains_key(root.0) && fresh(
            self@,
            self.memos().2[root.0].deps@,
            self.memos().2[root.0].verified_at,
        )
    }

    /// Whether the module tree cached for a root is valid as the inputs
    /// stand: neither the root nor a file of it changed since the tree was
    /// verified.
    pub open spec fn tree_fresh(&self, root: SourceRootId) -> bool {
        self.memos().1.contains_key(root.0) && fresh(
            self@,
            self.memos().1[root.0].deps@,
            self.memos().1[root.0].verified_at,
        )
    }

    /// Whether the item map cached for a root is valid as the inputs stand:
    /// the module tree under it is valid and did not change since the map
    /// was verified, and nothing else that the map read changed since.
    pub open spec fn item_map_valid(&self, root: SourceRootId) -> bool {
        &&& self.tree_fresh(root)
        &&& self.item_map_fresh(root)
        &&& self.memos().1[root.0].changed_at <= self.memos().2[root.0].verified_at
    }

    /// What the cached module tree and item map of a root read: the tree
    /// read the root and the files of the root, the map read the tree, the
    /// files of its modules and the store of definition locations.
    pub open spec fn item_map_reads(&self, root: SourceRootId) -> bool {
        &&& self.memos().1.contains_key(root.0)
        &&& self.memos().2.contains_key(root.0)
        &&& dep_slots(self.memos().1[root.0].deps@) == tree_slots(root, self@.root_entries(root))
        &&& dep_slots(self.memos().2[root.0].deps@) == map_slots(
            root,
            *self.memos().1[root.0].value,
        )
    }

    /// A cached item map that is valid stays valid through whatever leaves
    /// alone what it and the module tree under it read: no input that either
    /// of them read is stamped later than it was. The next query then
    /// returns the cached map, and only the revision at which it was
    /// verified advances.
    pub proof fn law_unread_change_keeps_item_map(before: RootDatabase, after: RootDatabase, root: SourceRootId)
        requires
            before.item_map_valid(root),
            after.memos() == before.memos(),
            forall|i: int|
                0 <= i < before.memos().1[root.0].deps@.len() ==> slot_stamp(
                    after@,
                    (#[trigger] before.memos().1[root.0].deps@[i]).slot,
                ) <= slot_stamp(before@, before.memos().1[root.0].deps@[i].slot),
            forall|i: int|
                0 <= i < before.memos().2[root.0].deps@.len() ==> slot_stamp(
                    after@,
                    (#[trigger] before.memos().2[root.0].deps@[i]).slot,
                ) <= slot_stamp(before@, before.memos().2[root.0].deps@[i].slot),
        ensures
            after.item_map_valid(root),
    {
    }

    /// Discards the cached symbol indices and item maps, to free their
    /// memory, and keeps their stamps: an index or a map that is built again
    /// while what it read is unchanged keeps the revision at which it last
    /// changed. The module trees stay, as the item maps are stamped against
    /// them, and so do the submodules. The inputs stay, so every query
    /// returns what it returned before.
    pub fn sweep(&mut self)
        requires
            old(self).inv(),
        ensures
            final(self).inv(),
            final(self)@ == old(self)@,
            final(self).is_canceled() == old(self).is_canceled(),
            final(self).defs() == old(self).defs(),
            final(self).memos().1 == old(self).memos().1,
            final(self).subs_memos() == old(self).subs_memos(),
            forall|file_id: FileId|
                final(self).symbols_stamp(file_id).is_none() && final(self).cached_symbols(
                    file_id,
                ).is_none(),
            forall|root: SourceRootId|
                final(self).item_map_stamp(root).is_none() && final(self).cached_item_map(
                    root,
                ).is_none(),
            forall|file_id: FileId|
                #[trigger] final(self).swept_symbols_stamp(file_id) == match old(self).symbols_stamp(
                    file_id,
                ) {
                    Some(stamp) => Some(stamp),
                    None => old(self).swept_symbols_stamp(file_id),
                },
            forall|file_id: FileId|
                #[trigger] final(self).kept_symbols(file_id) == match old(self).symbols_stamp(file_id) {
                    Some(stamp) => if old(self).symbols_fresh(file_id) {
                        Some(stamp.1)
                    } else {
                        None
                    },
                    None => old(self).kept_symbols(file_id),
                },
            forall|root: SourceRootId|
                #[trigger] final(self).swept_map_stamp(root) == match old(self).item_map_stamp(root) {
                    Some(stamp) => Some(stamp),
                    None => old(self).swept_map_stamp(root),
                },
            forall|root: SourceRootId, tree_changed_at: u64|
                #[trigger] final(self).kept_item_map(root, tree_changed_at) == match old(
                    self,
                ).item_map_stamp(root) {
                    Some(stamp) => if tree_changed_at <= stamp.0 && old(self).item_map_fresh(root) {
                        Some(stamp.1)
                    } else {
                        None
                    },
                    None => old(self).kept_item_map(root, tree_changed_at),
                },
    {
        broadcast use group_hash_axioms;

        let ghost before = *self;
        let keys = table_keys(&self.symbols);
        let mut i: usize = 0;
        while i < keys.len()
            invariant
                i <= keys.len(),
                self.inv(),
                self@ == before@,
                self.canceled == before.canceled,
                self.defs == before.defs,
                self.trees == before.trees,
                self.subs == before.subs,
                self.item_maps == before.item_maps,
                self.swept_maps == before.swept_maps,
                forall|k: u32| #[trigger] before.symbols@.contains_key(k) ==> keys@.contains(k),
                forall|k: u32| #[trigger]
                    self.symbols@.contains_key(k) ==> before.symbols@.contains_key(k) && self.symbols@[k]
                        == before.symbols@[k],
                forall|j: int| 0 <= j < i ==> !self.symbols@.contains_key(#[trigger] keys@[j]),
                forall|k: u32|
                    before.symbols@.contains_key(k) && !self.symbols@.contains_key(k) ==> {
                        &&& #[trigger] self.swept_symbols@.contains_key(k)
                        &&& self.swept_symbols@[k].verified_at == before.symbols@[k].verified_at
                        &&& self.swept_symbols@[k].changed_at == before.symbols@[k].changed_at
                        &&& self.swept_symbols@[k].deps@ == before.symbols@[k].deps@
                    },
                forall|k: u32|
                    self.symbols@.contains_key(k) || !before.symbols@.contains_key(k) ==> {
                        &&& #[trigger] self.swept_symbols@.contains_key(k)
                            == before.swept_symbols@.contains_key(k)
                        &&& self.swept_symbols@.contains_key(k) ==> self.swept_symbols@[k]
                            == before.swept_symbols@[k]
                    },
            decreases keys.len() - i,
        {
            let key = keys[i];
            let stamps = match self.symbols.get(&key) {
                Some(memo) => Some(
                    Stamps {
                        verified_at: memo.verified_at,
                        changed_at: memo.changed_at,
                        deps: copy_deps(&memo.deps),
                    },
                ),
                None => None,
            };
            match stamps {
                Some(stamps) => {
                    assert(symbols_ok(self@, key, *self.symbols@[key]));
                    self.swept_symbols.insert(key, Arc::new(stamps));
                    self.symbols.remove(&key);
                },
                None => {},
            }
            i = i + 1;
        }
        proof {
            assert forall|k: u32| !self.symbols@.contains_key(k) by {
                if self.symbols@.contains_key(k) {
                    assert(keys@.contains(k));
                    let j = choose|j: int| 0 <= j < keys@.len() && keys@[j] == k;
                    assert(!self.symbols@.contains_key(keys@[j]));
                }
            }
        }
        let ghost mid = *self;
        let keys = table_keys(&self.item_maps);
        let mut i: usize = 0;
        while i < keys.len()
            invariant
                i <= keys.len(),
                self.inv(),
                self@ == before@,
                self.canceled == before.canceled,
                self.defs == before.defs,
                self.trees == before.trees,
                self.subs == before.subs,
                self.symbols == mid.symbols,
                self.swept_symbols == mid.swept_symbols,
                forall|k: u32| #[trigger] before.item_maps@.contains_key(k) ==> keys@.contains(k),
                forall|k: u32| #[trigger]
                    self.item_maps@.contains_key(k) ==> before.item_maps@.contains_key(k) && self.item_maps@[k]
                        == before.item_maps@[k],
                forall|j: int| 0 <= j < i ==> !self.item_maps@.contains_key(#[trigger] keys@[j]),
                forall|k: u32|
                    before.item_maps@.contains_key(k) && !self.item_maps@.contains_key(k) ==> {
                        &&& #[trigger] self.swept_maps@.contains_key(k)
                        &&& self.swept_maps@[k].verified_at == before.item_maps@[k].verified_at
                        &&& self.swept_maps@[k].changed_at == before.item_maps@[k].changed_at
                        &&& self.swept_maps@[k].deps@ == before.item_maps@[k].deps@
                    },
                forall|k: u32|
                    self.item_maps@.contains_key(k) || !before.item_maps@.contains_key(k) ==> {
                        &&& #[trigger] self.swept_maps@.contains_key(k) == before.swept_maps@.contains_key(
                            k,
                        )
                        &&& self.swept_maps@.contains_key(k) ==> self.swept_maps@[k]
                            == before.swept_maps@[k]
                    },
            decreases keys.len() - i,
        {
            let key = keys[i];
            let stamps = match self.item_maps.get(&key) {
                Some(memo) => Some(
                    Stamps {
                        verified_at: memo.verified_at,
                        changed_at: memo.changed_at,
                        deps: copy_deps(&memo.deps),
                    },
                ),
                None => None,
            };
            match stamps {
                Some(stamps) => {
                    assert(item_map_ok(self@, self.trees@, key, *self.item_maps@[key]));
                    self.swept_maps.insert(key, Arc::new(stamps));
                    self.item_maps.remove(&key);
                },
                None => {},
            }
            i = i + 1;
        }
        proof {
            assert forall|k: u32| !self.item_maps@.contains_key(k) by {
                if self.item_maps@.contains_key(k) {
                    assert(keys@.contains(k));
                    let j = choose|j: int| 0 <= j < keys@.len() && keys@[j] == k;
                    assert(!self.item_maps@.contains_key(keys@[j]));
                }
            }
        }
    }

    /// The stamps that are kept of the discarded item map of a root: when it
    /// was verified, when it last changed.
    pub open spec fn swept_map_stamp(&self, root: SourceRootId) -> Option<(u64, u64)> {
        if self.kept().1.contains_key(root.0) {
            Some((self.kept().1[root.0].verified_at, self.kept().1[root.0].changed_at))
        } else {
            None
        }
    }

    /// The revision at which the item map of a root last changed, as the
    /// stamps of a discarded map tell it, where the module tree of the root
    /// last changed at `tree_changed_at`: nothing where no stamps are kept,
    /// or where the tree or an input that the map read changed since they
    /// were verified.
    pub open spec fn kept_item_map(&self, root: SourceRootId, tree_changed_at: u64) -> Option<u64> {
        if self.kept().1.contains_key(root.0) && tree_changed_at
            <= self.kept().1[root.0].verified_at && fresh(
            self@,
            self.kept().1[root.0].deps@,
            self.kept().1[root.0].verified_at,
        ) {
            Some(self.kept().1[root.0].changed_at)
        } else {
            None
        }
    }

    /// The local roots, in the order in which they were declared.
    pub fn local_roots(&self) -> (r: &Vec<SourceRootId>)
        ensures
            r@ == self@.local_roots,
    {
        &self.local_roots
    }

    /// The library roots, in the order in which they were added.
    pub fn library_roots(&self) -> (r: &Vec<SourceRootId>)
        ensures
            r@ == self@.library_roots,
    {
        &self.library_roots
    }

    /// The symbol index that a library came with.
    pub fn library_symbols(&self, root: SourceRootId) -> (r: Option<Arc<SymbolIndex>>)
        ensures
            r == if self@.library_symbols.contains_key(root.0) {
                Some(self@.library_symbols[root.0])
            } else {
                None
            },
    {
        broadcast use group_hash_axioms;

        match self.library_symbols.get(&root.0) {
            Some(index) => Some(share(index)),
            None => None,
        }
    }

    /// The crate graph.
    pub fn crate_graph(&self) -> (r: &CrateGraph)
        ensures
            r.roots@ == self@.crate_graph,
            r.deps@ == self@.crate_deps,
    {
        &self.crate_graph
    }

    /// The files that a root lists, in its order.
    pub fn root_file_ids(&self, root: SourceRootId) -> (r: Vec<FileId>)
        ensures
            r@ == file_ids(self@.root_entries(root)),
    {
        broadcast use group_hash_axioms;

        let mut r: Vec<FileId> = Vec::new();
        match self.roots.get(&root.0) {
            Some(data) => {
                let files = &data.root.files;
                let ghost entries = self@.root_entries(root);
                assert(data.root@ == entries);
                let mut i: usize = 0;
                while i < files.len()
                    invariant
                        i <= files.len(),
                        files.len() == entries.len(),
                        forall|k: int| 0 <= k < files.len() ==> (#[trigger] files@[k]).1 == entries[k].1,
                        r.len() == i,
                        forall|k: int| 0 <= k < i ==> r@[k] == entries[k].1,
                    decreases files.len() - i,
                {
                    r.push(files[i].1);
                    i = i + 1;
                }
                assert(r@ =~= file_ids(entries));
            },
            None => {
                assert(r@ =~= file_ids(self@.root_entries(root)));
            },
        }
        r
    }

    /// The file as the database holds it, if it was added.
    pub fn file_data(&self, file_id: FileId) -> (r: Option<Arc<FileData>>)
        requires
            self.inv(),
        ensures
            match r {
                Some(data) => self@.files.contains_key(file_id.0) && data@ == self@.files[file_id.0]
                    && data.file_id == file_id,
                None => !self@.files.contains_key(file_id.0),
            },
    {
        broadcast use group_hash_axioms;

        match self.files.get(&file_id.0) {
            Some(data) => Some(share(data)),
            None => None,
        }
    }

    /// Whether the file was added.
    pub fn has_file(&self, file_id: FileId) -> (b: bool)
        ensures
            b == self@.files.contains_key(file_id.0),
    {
        broadcast use group_hash_axioms;

        self.files.get(&file_id.0).is_some()
    }

    /// The text of a file.
    pub fn file_text(&self, file_id: FileId) -> (r: Option<String>)
        ensures
            match r {
                Some(text) => self@.files.contains_key(file_id.0) && text@
                    == self@.files[file_id.0].text,
                None => !self@.files.contains_key(file_id.0),
            },
    {
        broadcast use group_hash_axioms;

        match self.files.get(&file_id.0) {
            Some(data) => Some(data.text.clone()),
            None => None,
        }
    }

    /// The source root that a file belongs to.
    pub fn file_source_root(&self, file_id: FileId) -> (r: Option<SourceRootId>)
        ensures
            r == if self@.files.contains_key(file_id.0) {
                Some(self@.files[file_id.0].source_root)
            } else {
                None
            },
    {
        broadcast use group_hash_axioms;

        match self.files.get(&file_id.0) {
            Some(data) => Some(data.source_root),
            None => None,
        }
    }

    /// The identities of a database in order go round, in the database and
    /// in every snapshot of it, which holds the same locations: no location
    /// stands twice, and the identity of the location that an identity
    /// stands for is that identity.
    pub proof fn law_identities_go_round(&self, id: DefId)
        requires
            self.inv(),
            id.0 < self.defs().len(),
        ensures
            crate::intern::distinct(self.defs()),
            crate::intern::position_of(self.defs(), self.defs()[id.0 as int], 0) == Some(id.0 as int),
    {
        self.defs.law_identities_go_round(id);
    }

    /// The store of definition locations.
    pub fn interner(&self) -> (r: &LocationInterner)
        requires
            self.inv(),
        ensures
            r.inv(),
            r.locs() == self.defs(),
    {
        let store: &LocationInterner = &self.defs;
        store
    }

    /// The stamps of a cached item map: when it was verified, when it last
    /// changed.
    pub open spec fn item_map_stamp(&self, root: SourceRootId) -> Option<(u64, u64)> {
        if self.memos().2.contains_key(root.0) {
            Some((self.memos().2[root.0].verified_at, self.memos().2[root.0].changed_at))
        } else {
            None
        }
    }

    /// The item map that is cached for a root, if one is.
    pub open spec fn cached_item_map(&self, root: SourceRootId) -> Option<Arc<ItemMap>> {
        if self.memos().2.contains_key(root.0) {
            Some(self.memos().2[root.0].value)
        } else {
            None
        }
    }

    /// The stamps of the item map cached for a root: when it was verified,
    /// when it last changed.
    pub fn item_map_stamps(&self, root: SourceRootId) -> (r: Option<(u64, u64)>)
        ensures
            r == self.item_map_stamp(root),
    {
        broadcast use group_hash_axioms;

        match self.item_maps.get(&root.0) {
            Some(memo) => Some((memo.verified_at, memo.changed_at)),
            None => None,
        }
    }

    /// What the module at `source` holds before resolution.
    pub fn module_input(&self, source: ModuleSource) -> (input: InputModuleItems)
        requires
            self.inv(),
        ensures
            is_input_of(self@, source, input),
    {
        match self.file_data(source.file_id()) {
            Some(file) => crate::nameres::input_module_items(source, &file.syntax.items),
            None => {
                let items: Vec<SourceItem> = Vec::new();
                crate::nameres::input_module_items(source, &items)
            },
        }
    }

    /// The item map of a root. A cached map that was verified at the current
    /// revision is returned as it is. For an older one, the module tree of
    /// the root is brought up to date first; the map is returned if neither
    /// that tree, nor the file of any of its modules, nor the store of
    /// definition locations changed since the map was verified. Else the
    /// map is built anew from the tree, and keeps the stamp of the older one
    /// where the two are the same.
    pub fn item_map(&mut self, root: SourceRootId) -> (res: Result<Arc<ItemMap>, Canceled>)
        requires
            old(self).inv(),
        ensures
            final(self).inv(),
            final(self)@ == old(self)@,
            final(self).is_canceled() == old(self).is_canceled(),
            final(self).defs() == old(self).defs(),
            final(self).memos().0 == old(self).memos().0,
            final(self).kept().0 == old(self).kept().0,
            final(self).subs_memos() == old(self).subs_memos(),
            match res {
                Ok(map) => {
                    &&& !old(self).is_canceled()
                    &&& item_map_for(final(self)@, root, *map)
                    &&& final(self).cached_item_map(root) == Some(map)
                    &&& final(self).item_map_stamp(root) == Some(
                        (
                            final(self)@.revision,
                            changed_at_after(
                                match old(self).item_map_stamp(root) {
                                    Some(stamp) => Some(stamp.1),
                                    None => match final(self).tree_stamp(root) {
                                        Some(tree) => old(self).kept_item_map(root, tree.1),
                                        None => None,
                                    },
                                },
                                match old(self).cached_item_map(root) {
                                    Some(previous) => previous@ == map@,
                                    None => true,
                                },
                                final(self)@.revision,
                            ),
                        ),
                    )
                    &&& final(self).swept_map_stamp(root).is_none()
                    &&& final(self).item_map_valid(root)
                    &&& final(self).item_map_reads(root)
                    &&& old(self).item_map_valid(root) ==> Some(map) == old(self).cached_item_map(root)
                        && final(self).item_map_stamp(root) == Some(
                        (final(self)@.revision, old(self).memos().2[root.0].changed_at),
                    )
                    &&& match final(self).tree_stamp(root) {
                        Some(tree) => tree.1 <= tree.0 == final(self)@.revision,
                        None => false,
                    }
                },
                Err(_) => old(self).is_canceled() && final(self).item_map_stamp(root) == old(
                    self,
                ).item_map_stamp(root),
            },
    {
        broadcast use group_hash_axioms;

        if self.canceled {
            return Err(Canceled);
        }
        let key = root.0;
        let revision = self.revision;
        let ghost before = *self;
        proof {
            self.lemma_stamps_bounded();
        }
        let cached: Option<Arc<Memo<ItemMap>>> = match self.item_maps.get(&key) {
            Some(memo) => Some(share(memo)),
            None => None,
        };
        match &cached {
            Some(memo) => {
                assert(item_map_ok(self@, self.trees@, key, **memo));
                let current = match probe(Some(memo.verified_at), revision) {
                    Probe::Current => true,
                    _ => false,
                };
                if current {
                    proof {
                        let tree = self.trees@[key];
                        assert(tree_ok(self@, key, *tree));
                        assert(fresh(self@, tree.deps@, tree.verified_at));
                        assert(fresh(self@, memo.deps@, memo.verified_at));
                        assert(tree_of(self@, root, *tree.value) && item_map_with(
                            self@,
                            *tree.value,
                            *memo.value,
                        ));
                    }
                    self.swept_maps.remove(&key);
                    assert(self@ == before@);
                    return Ok(share(&memo.value));
                }
            },
            None => {},
        }
        let tree = match self.module_tree(root) {
            Ok(tree) => tree,
            Err(e) => {
                return Err(e);
            },
        };
        let ghost mid = *self;
        let tree_changed_at = match self.trees.get(&key) {
            Some(entry) => entry.changed_at,
            None => revision,
        };
        assert(self.trees@.contains_key(key) && self.trees@[key].value == tree);
        match &cached {
            Some(memo) => {
                assert(item_map_ok(self@, self.trees@, key, **memo));
                if !outdates(tree_changed_at, memo.verified_at) && self.is_fresh(
                    &memo.deps,
                    memo.verified_at,
                ) {
                    let value = share(&memo.value);
                    let verified = Memo {
                        value: share(&memo.value),
                        verified_at: revision,
                        changed_at: memo.changed_at,
                        deps: copy_deps(&memo.deps),
                    };
                    proof {
                        assert(item_map_with(self@, *tree, *memo.value));
                        assert(tree_of(self@, root, *tree) && item_map_with(self@, *tree, *value));
                        assert(item_map_ok(self@, self.trees@, key, verified));
                    }
                    self.item_maps.insert(key, Arc::new(verified));
                    self.swept_maps.remove(&key);
                    assert(self@ == before@);
                    return Ok(value);
                }
            },
            None => {},
        }
        let mut deps: Vec<Dep> = Vec::new();
        deps.push(Dep { slot: Slot::Tree(root), changed_at: tree_changed_at });
        let mut inputs = crate::nameres::fx_new();
        let mut m: usize = 0;
        while m < tree.mods.len()
            invariant
                m <= tree.mods.len(),
                self.inv(),
                *self == mid,
                deps.len() == m + 1,
                deps@[0].slot == Slot::Tree(root),
                forall|k: int|
                    0 <= k < m ==> (#[trigger] deps@[k + 1]).slot == Slot::File(
                        tree.mods@[k].source.file_id(),
                    ),
                forall|k: usize|
                    k < m ==> #[trigger] inputs@.dom().contains(k) && is_input_of(
                        self@,
                        tree.mods@[k as int].source,
                        inputs@[k],
                    ),
            decreases tree.mods.len() - m,
        {
            let source = tree.mods[m].source;
            let slot = Slot::File(source.file_id());
            deps.push(Dep { slot, changed_at: self.stamp_of(slot) });
            let input = self.module_input(source);
            let ghost old_inputs = inputs@;
            let ghost held = input;
            crate::nameres::fx_insert(&mut inputs, m, input);
            proof {
                assert forall|k: usize| k < m + 1 implies #[trigger] inputs@.dom().contains(k)
                    && is_input_of(self@, tree.mods@[k as int].source, inputs@[k]) by {
                    if k < m {
                        assert(old_inputs.dom().contains(k));
                        assert(inputs@[k] == old_inputs[k]);
                    } else {
                        assert(inputs@[k] == held);
                        assert(tree.mods@[k as int].source == source);
                    }
                }
            }
            m = m + 1;
        }
        deps.push(Dep { slot: Slot::Defs, changed_at: self.defs_changed_at });
        proof {
            let slots = map_slots(root, inner(tree));
            assert(dep_slots(deps@).len() == slots.len());
            assert forall|k: int| 0 <= k < slots.len() implies dep_slots(deps@)[k] == slots[k] by {
                if 0 < k < slots.len() - 1 {
                    assert(deps@[(k - 1) + 1].slot == Slot::File(tree.mods@[k - 1].source.file_id()));
                }
            }
            assert(dep_slots(deps@) =~= slots);
        }
        let map = crate::nameres::item_map(&tree, self.interner(), &inputs);
        assert(are_inputs_of(self@, *tree, inputs@));
        assert(item_map_with(self@, *tree, map));
        assert(tree_of(self@, root, *tree) && item_map_with(self@, *tree, map));
        let (unchanged, previous) = match &cached {
            Some(memo) => (memo.value.is_same(&map), Some(memo.changed_at)),
            None => {
                let kept = match self.kept_stamp(&self.swept_maps, key) {
                    Some(kept) => if outdates(tree_changed_at, self.swept_verified_at(key)) {
                        None
                    } else {
                        Some(kept)
                    },
                    None => None,
                };
                (true, kept)
            },
        };
        let changed_at = changed_at_after(previous, unchanged, revision);
        let value = Arc::new(map);
        let computed = Memo { value: share(&value), verified_at: revision, changed_at, deps };
        proof {
            assert(item_map_ok(self@, self.trees@, key, computed));
        }
        self.item_maps.insert(key, Arc::new(computed));
        self.swept_maps.remove(&key);
        assert(self@ == before@);
        Ok(value)
    }
}

impl Default for RootDatabase {
    /// An empty database at revision 0.
    fn default() -> (db: RootDatabase)
        ensures
            db.inv(),
            !db.is_canceled(),
            db@.revision == 0,
            db@.files == Map::<u32, FileModel>::empty(),
            db@.roots == Map::<u32, RootModel>::empty(),
            db@.local_roots == Seq::<SourceRootId>::empty(),
            db@.library_roots == Seq::<SourceRootId>::empty(),
            db@.crate_graph == Seq::<(CrateId, FileId)>::empty(),
    {
        RootDatabase::new()
    }
}

} // verus!
