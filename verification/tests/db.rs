use ra_analysis::base::{FileId, FileSymbol, SourceRootId, SyntaxKind, TextRange};
use ra_analysis::db::RootDatabase;
use ra_analysis::input::{AddFile, AnalysisChange, ChangeFile, RemoveFile, RootChange};
use ra_analysis::syntax::{ItemKind, SourceFile, SourceItem, SourcePath};

fn path(dir: &[&str], stem: &str) -> SourcePath {
    SourcePath { dir: dir.iter().map(|s| s.to_string()).collect(), stem: stem.to_string() }
}

fn sym(name: &str, start: u32, end: u32) -> FileSymbol {
    FileSymbol { name: name.to_string(), node_range: TextRange { start, end }, kind: SyntaxKind::FnDef }
}

fn module_item(name: &str, start: u32, has_semi: bool) -> SourceItem {
    SourceItem {
        kind: ItemKind::Module { has_semi },
        name: Some(name.to_string()),
        name_range: TextRange { start: start + 4, end: start + 4 + name.len() as u32 },
        range: TextRange { start, end: start + 5 + name.len() as u32 },
        parent: None,
    }
}

fn file(id: u32, dir: &[&str], stem: &str, symbols: Vec<FileSymbol>, items: Vec<SourceItem>) -> AddFile {
    AddFile {
        file_id: FileId(id),
        path: path(dir, stem),
        text: format!("// {}", stem),
        syntax: SourceFile { symbols, items },
    }
}

fn with_root(root: u32, files: Vec<AddFile>) -> AnalysisChange {
    let mut change = AnalysisChange::new();
    change.new_roots.push((SourceRootId(root), true));
    change.roots_changed.push((SourceRootId(root), RootChange { added: files, removed: Vec::new() }));
    change
}

#[test]
fn every_change_advances_the_revision_by_one() {
    let mut db = RootDatabase::new();
    assert_eq!(db.revision(), 0);
    db.apply_change(AnalysisChange::new());
    assert_eq!(db.revision(), 1);
    db.apply_change(with_root(
        1,
        vec![file(1, &[], "lib", vec![sym("a", 0, 1)], vec![]), file(2, &[], "b", vec![], vec![])],
    ));
    assert_eq!(db.revision(), 2);
}

#[test]
fn inputs_are_set_by_a_change() {
    let mut db = RootDatabase::new();
    db.apply_change(with_root(7, vec![file(1, &[], "lib", vec![], vec![]), file(2, &["a"], "b", vec![], vec![])]));
    assert_eq!(db.local_roots(), &vec![SourceRootId(7)]);
    assert!(db.library_roots().is_empty());
    assert_eq!(db.root_file_ids(SourceRootId(7)), vec![FileId(1), FileId(2)]);
    assert_eq!(db.file_source_root(FileId(2)), Some(SourceRootId(7)));
    assert_eq!(db.file_text(FileId(1)), Some("// lib".to_string()));
    assert_eq!(db.file_text(FileId(9)), None);
    assert!(db.has_file(FileId(2)));
    assert!(db.root_file_ids(SourceRootId(8)).is_empty());
}

#[test]
fn removed_file_leaves_the_root_and_loses_its_text() {
    let mut db = RootDatabase::new();
    db.apply_change(with_root(1, vec![file(1, &[], "lib", vec![sym("a", 0, 1)], vec![]), file(2, &[], "b", vec![], vec![])]));
    let mut change = AnalysisChange::new();
    change.roots_changed.push((
        SourceRootId(1),
        RootChange { added: vec![], removed: vec![RemoveFile { file_id: FileId(1), path: path(&[], "lib") }] },
    ));
    db.apply_change(change);
    assert_eq!(db.root_file_ids(SourceRootId(1)), vec![FileId(2)]);
    assert_eq!(db.file_text(FileId(1)), Some(String::new()));
    assert_eq!(db.file_symbols(FileId(1)).unwrap().len(), 0);
}

#[test]
fn changing_a_file_never_added_changes_nothing() {
    let mut db = RootDatabase::new();
    let mut change = AnalysisChange::new();
    change.files_changed.push(ChangeFile {
        file_id: FileId(3),
        text: "x".to_string(),
        syntax: SourceFile { symbols: vec![], items: vec![] },
    });
    db.apply_change(change);
    assert!(!db.has_file(FileId(3)));
    assert_eq!(db.revision(), 1);
}

#[test]
fn cached_symbols_are_verified_again_without_recomputation() {
    let mut db = RootDatabase::new();
    db.apply_change(with_root(1, vec![file(1, &[], "lib", vec![sym("a", 0, 1)], vec![])]));
    assert_eq!(db.symbols_stamps(FileId(1)), None);
    let first = db.file_symbols(FileId(1)).unwrap();
    assert_eq!(first.len(), 1);
    assert_eq!(db.symbols_stamps(FileId(1)), Some((1, 1)));
    db.apply_change(with_root(2, vec![file(5, &[], "lib", vec![], vec![])]));
    let second = db.file_symbols(FileId(1)).unwrap();
    assert!(std::sync::Arc::ptr_eq(&first, &second));
    assert_eq!(db.symbols_stamps(FileId(1)), Some((2, 1)));
}

#[test]
fn recomputed_value_that_is_equal_keeps_its_changed_at() {
    let mut db = RootDatabase::new();
    db.apply_change(with_root(1, vec![file(1, &[], "lib", vec![sym("a", 0, 1)], vec![])]));
    db.file_symbols(FileId(1)).unwrap();
    let mut change = AnalysisChange::new();
    change.files_changed.push(ChangeFile {
        file_id: FileId(1),
        text: "// other text".to_string(),
        syntax: SourceFile { symbols: vec![sym("a", 0, 1)], items: vec![] },
    });
    db.apply_change(change);
    db.file_symbols(FileId(1)).unwrap();
    assert_eq!(db.symbols_stamps(FileId(1)), Some((2, 1)));

    let mut change = AnalysisChange::new();
    change.files_changed.push(ChangeFile {
        file_id: FileId(1),
        text: "// other text".to_string(),
        syntax: SourceFile { symbols: vec![sym("b", 0, 1)], items: vec![] },
    });
    db.apply_change(change);
    let index = db.file_symbols(FileId(1)).unwrap();
    assert_eq!(index.get(0).unwrap().1.name, "b");
    assert_eq!(db.symbols_stamps(FileId(1)), Some((3, 3)));
}

#[test]
fn module_tree_is_cached_per_root() {
    let mut db = RootDatabase::new();
    db.apply_change(with_root(
        1,
        vec![file(1, &[], "lib", vec![], vec![module_item("foo", 0, true)]), file(2, &[], "foo", vec![], vec![])],
    ));
    let tree = db.module_tree(SourceRootId(1)).unwrap();
    assert_eq!(tree.mods.len(), 2);
    assert_eq!(tree.links.len(), 1);
    assert_eq!(tree.links[0].points_to, vec![1]);
    assert_eq!(tree.mods[1].parent, Some(0));
    assert_eq!(db.tree_stamps(SourceRootId(1)), Some((1, 1)));

    // a change in another root leaves the tree valid
    db.apply_change(with_root(2, vec![file(9, &[], "main", vec![], vec![])]));
    let again = db.module_tree(SourceRootId(1)).unwrap();
    assert!(std::sync::Arc::ptr_eq(&tree, &again));
    assert_eq!(db.tree_stamps(SourceRootId(1)), Some((2, 1)));

    // a change of a file of the root that keeps the modules keeps the stamp
    let mut change = AnalysisChange::new();
    change.files_changed.push(ChangeFile {
        file_id: FileId(2),
        text: "fn f() {}".to_string(),
        syntax: SourceFile { symbols: vec![sym("f", 0, 9)], items: vec![] },
    });
    db.apply_change(change);
    db.module_tree(SourceRootId(1)).unwrap();
    assert_eq!(db.tree_stamps(SourceRootId(1)), Some((3, 1)));
}

#[test]
fn snapshot_keeps_what_it_saw() {
    let mut db = RootDatabase::new();
    db.apply_change(with_root(1, vec![file(1, &[], "lib", vec![sym("a", 0, 1)], vec![])]));
    let mut snap = db.snapshot();
    let mut change = AnalysisChange::new();
    change.files_changed.push(ChangeFile {
        file_id: FileId(1),
        text: "".to_string(),
        syntax: SourceFile { symbols: vec![sym("b", 0, 1), sym("c", 2, 3)], items: vec![] },
    });
    db.apply_change(change);
    assert_eq!(snap.revision(), 1);
    assert_eq!(snap.file_symbols(FileId(1)).unwrap().len(), 1);
    assert_eq!(db.file_symbols(FileId(1)).unwrap().len(), 2);
}

#[test]
fn cancelled_snapshot_gives_the_signal() {
    let mut db = RootDatabase::new();
    db.apply_change(with_root(1, vec![file(1, &[], "lib", vec![sym("a", 0, 1)], vec![])]));
    let mut snap = db.snapshot();
    snap.cancel();
    assert!(snap.check_canceled().is_err());
    assert!(snap.file_symbols(FileId(1)).is_err());
    assert!(snap.module_tree(SourceRootId(1)).is_err());
    let mut fresh = db.snapshot();
    assert!(fresh.check_canceled().is_ok());
    assert_eq!(fresh.file_symbols(FileId(1)).unwrap().len(), 1);
}

#[test]
fn sweep_drops_cached_values_only() {
    let mut db = RootDatabase::new();
    db.apply_change(with_root(1, vec![file(1, &[], "lib", vec![sym("a", 0, 1)], vec![])]));
    db.file_symbols(FileId(1)).unwrap();
    db.sweep();
    assert_eq!(db.symbols_stamps(FileId(1)), None);
    assert_eq!(db.file_symbols(FileId(1)).unwrap().len(), 1);
}

#[test]
fn sweep_keeps_the_stamps_of_what_it_drops() {
    let mut db = RootDatabase::new();
    db.apply_change(with_root(
        1,
        vec![file(1, &[], "lib", vec![sym("a", 0, 1)], vec![]), file(2, &[], "b", vec![sym("b", 0, 1)], vec![])],
    ));
    let first = db.file_symbols(FileId(1)).unwrap();
    db.file_symbols(FileId(2)).unwrap();
    assert_eq!(db.symbols_stamps(FileId(1)), Some((1, 1)));

    // the other file changes, then the cache is swept
    let mut change = AnalysisChange::new();
    change.files_changed.push(ChangeFile {
        file_id: FileId(2),
        text: "fn c() {}".to_string(),
        syntax: SourceFile { symbols: vec![sym("c", 0, 1)], items: vec![] },
    });
    db.apply_change(change);
    db.sweep();
    assert_eq!(db.symbols_stamps(FileId(1)), None);
    assert_eq!(db.symbols_stamps(FileId(2)), None);

    // the index of the unchanged file is built again and keeps its stamp
    let second = db.file_symbols(FileId(1)).unwrap();
    assert!(!std::sync::Arc::ptr_eq(&first, &second));
    assert_eq!(second.len(), 1);
    assert_eq!(second.get(0).unwrap().1.name, "a");
    assert_eq!(db.symbols_stamps(FileId(1)), Some((2, 1)));
    // the index of the changed file is stamped with the revision of the change
    assert_eq!(db.file_symbols(FileId(2)).unwrap().get(0).unwrap().1.name, "c");
    assert_eq!(db.symbols_stamps(FileId(2)), Some((2, 2)));

    // the kept stamps were used up: a second sweep keeps the new ones
    db.apply_change(AnalysisChange::new());
    db.sweep();
    db.file_symbols(FileId(2)).unwrap();
    assert_eq!(db.symbols_stamps(FileId(2)), Some((3, 2)));
}

#[test]
fn sweep_leaves_the_module_trees() {
    let mut db = RootDatabase::new();
    db.apply_change(with_root(
        1,
        vec![file(1, &[], "lib", vec![], vec![module_item("b", 0, true)]), file(2, &[], "b", vec![], vec![])],
    ));
    let tree = db.module_tree(SourceRootId(1)).unwrap();
    db.sweep();
    assert_eq!(db.tree_stamps(SourceRootId(1)), Some((1, 1)));
    assert!(std::sync::Arc::ptr_eq(&tree, &db.module_tree(SourceRootId(1)).unwrap()));
}

#[test]
fn snapshot_shares_the_store_of_locations() {
    let mut db = RootDatabase::new();
    db.apply_change(with_root(1, vec![file(1, &[], "lib", vec![], vec![module_item("b", 0, true)])]));
    let snap = db.snapshot();
    assert!(std::ptr::eq(db.interner(), snap.interner()));
    assert_eq!(snap.interner().len(), 2);

    // a change that brings no new location leaves the store shared
    let mut change = AnalysisChange::new();
    change.files_changed.push(ChangeFile {
        file_id: FileId(1),
        text: "mod b; // edited".to_string(),
        syntax: SourceFile { symbols: vec![], items: vec![module_item("b", 0, true)] },
    });
    db.apply_change(change);
    assert!(std::ptr::eq(db.interner(), snap.interner()));

    // one that brings a new location gives the database a store of its own
    let mut change = AnalysisChange::new();
    change.files_changed.push(ChangeFile {
        file_id: FileId(1),
        text: "mod b; mod c;".to_string(),
        syntax: SourceFile { symbols: vec![], items: vec![module_item("b", 0, true), module_item("c", 7, true)] },
    });
    db.apply_change(change);
    assert!(!std::ptr::eq(db.interner(), snap.interner()));
    assert_eq!(snap.interner().len(), 2);
    assert_eq!(db.interner().len(), 3);
}
