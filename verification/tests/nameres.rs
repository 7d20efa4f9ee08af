use ra_analysis::base::{DefId, FileId, FileSymbol, SourceRootId, SyntaxKind, TextRange};
use ra_analysis::db::RootDatabase;
use ra_analysis::input::{AddFile, AnalysisChange, ChangeFile, RootChange};
use ra_analysis::intern::{DefKind, DefLoc, SourceItemId};
use ra_analysis::module::Submodule;
use ra_analysis::nameres::{input_module_items, ImportKind, ItemMap, ModuleScope, Resolution};
use ra_analysis::query_definitions::{
    enum_data, file_item, file_items, fn_scopes, item_map, struct_data, submodules, FileItem,
};
use ra_analysis::scope::{BodyEvent, NameRef, ScopeEntry};
use ra_analysis::syntax::{ItemKind, ModuleSource, PathKind, SourceFile, SourceItem, SourcePath};

fn r(start: u32, end: u32) -> TextRange {
    TextRange { start, end }
}

fn path(dir: &[&str], stem: &str) -> SourcePath {
    SourcePath { dir: dir.iter().map(|s| s.to_string()).collect(), stem: stem.to_string() }
}

fn item(kind: ItemKind, name: Option<&str>, start: u32, parent: Option<usize>) -> SourceItem {
    SourceItem { kind, name: name.map(|n| n.to_string()), name_range: r(start, start + 1), range: r(start, start + 9), parent }
}

fn module(name: &str, start: u32, has_semi: bool, parent: Option<usize>) -> SourceItem {
    item(ItemKind::Module { has_semi }, Some(name), start, parent)
}

fn def(kind: SyntaxKind, name: &str, start: u32, parent: Option<usize>) -> SourceItem {
    item(ItemKind::Other { syntax_kind: kind }, Some(name), start, parent)
}

fn function(name: &str, start: u32, body: Vec<BodyEvent>) -> SourceItem {
    item(ItemKind::Function { has_self: false, params: vec![], body }, Some(name), start, None)
}

fn import(kind: PathKind, segments: &[&str], is_glob: bool, start: u32, parent: Option<usize>) -> SourceItem {
    item(
        ItemKind::Import { path_kind: kind, segments: segments.iter().map(|s| s.to_string()).collect(), is_glob },
        None,
        start,
        parent,
    )
}

fn file(id: u32, dir: &[&str], stem: &str, items: Vec<SourceItem>) -> AddFile {
    AddFile { file_id: FileId(id), path: path(dir, stem), text: String::new(), syntax: SourceFile { symbols: vec![], items } }
}

fn db_with(root: u32, files: Vec<AddFile>) -> RootDatabase {
    let mut db = RootDatabase::new();
    let mut change = AnalysisChange::new();
    change.new_roots.push((SourceRootId(root), true));
    change.roots_changed.push((SourceRootId(root), RootChange { added: files, removed: Vec::new() }));
    db.apply_change(change);
    db
}

fn def_id(db: &RootDatabase, file: u32, item: Option<u32>, kind: DefKind) -> Option<DefId> {
    db.interner().get(&DefLoc { kind, source_item_id: SourceItemId { file_id: FileId(file), item_id: item } })
}

fn lookup(map: &ItemMap, module: usize, name: &str) -> Option<Resolution> {
    map.per_module[module].get(&name.to_string())
}

// lib.rs:  mod foo;  struct S;  use foo::Bar;  use self::foo::inner::Deep as _;  use missing::X;  use foo::*;
// foo.rs:  enum Bar {}  mod inner { fn deep() {}  use super::Bar; use crate::S; }
fn sample() -> RootDatabase {
    db_with(
        1,
        vec![
            file(
                1,
                &[],
                "lib",
                vec![
                    module("foo", 0, true, None),
                    def(SyntaxKind::StructDef, "S", 10, None),
                    import(PathKind::Plain, &["foo", "Bar"], false, 20, None),
                    import(PathKind::SelfPath, &["foo", "inner", "deep"], false, 30, None),
                    import(PathKind::Plain, &["missing", "X"], false, 40, None),
                    import(PathKind::Plain, &["foo"], true, 50, None),
                ],
            ),
            file(
                2,
                &[],
                "foo",
                vec![
                    def(SyntaxKind::EnumDef, "Bar", 0, None),
                    module("inner", 10, false, None),
                    item(ItemKind::Function { has_self: false, params: vec![], body: vec![] }, Some("deep"), 20, Some(1)),
                    import(PathKind::Super, &["Bar"], false, 30, Some(1)),
                    import(PathKind::Crate, &["S"], false, 40, Some(1)),
                ],
            ),
        ],
    )
}

#[test]
fn input_module_items_are_the_named_items_and_the_imports() {
    let items = vec![
        module("foo", 0, true, None),
        def(SyntaxKind::StructDef, "S", 10, None),
        import(PathKind::Plain, &["foo", "Bar"], false, 20, None),
        import(PathKind::Plain, &["foo"], true, 30, None),
        module("inner", 40, false, None),
        function("f", 50, vec![]),
        def(SyntaxKind::TraitDef, "T", 60, Some(4)),
        item(ItemKind::Other { syntax_kind: SyntaxKind::ConstDef }, None, 70, None),
    ];
    let top = input_module_items(ModuleSource::File(FileId(1)), &items);
    let names: Vec<(usize, &str, DefKind)> = top.items.iter().map(|i| (i.id, i.name.as_str(), i.kind)).collect();
    assert_eq!(
        names,
        vec![
            (0, "foo", DefKind::Module),
            (1, "S", DefKind::Struct),
            (4, "inner", DefKind::Module),
            (5, "f", DefKind::Function),
        ]
    );
    assert_eq!(top.imports.len(), 2);
    assert_eq!(top.imports[0].kind, ImportKind::Named(2));
    assert_eq!(top.imports[0].segments, vec!["foo".to_string(), "Bar".to_string()]);
    assert_eq!(top.imports[0].path_kind, PathKind::Plain);
    assert_eq!(top.imports[1].kind, ImportKind::Glob);
    let inner = input_module_items(ModuleSource::Inline(FileId(1), 4), &items);
    assert_eq!(inner.items.len(), 1);
    assert_eq!((inner.items[0].id, inner.items[0].kind), (6, DefKind::Item));
    assert!(inner.imports.is_empty());
}

#[test]
fn scope_keeps_one_resolution_per_name() {
    let mut scope = ModuleScope::new();
    let first = Resolution { def_id: Some(DefId(1)), import: None };
    let second = Resolution { def_id: Some(DefId(2)), import: Some(4) };
    scope.put("a".to_string(), first);
    scope.put("b".to_string(), first);
    scope.put("a".to_string(), second);
    assert_eq!(scope.items.len(), 2);
    assert_eq!(scope.get(&"a".to_string()), Some(second));
    assert_eq!(scope.get(&"b".to_string()), Some(first));
    assert_eq!(scope.get(&"c".to_string()), None);
}

#[test]
fn item_map_resolves_imports_through_modules() {
    let mut db = sample();
    let map = item_map(&mut db, SourceRootId(1)).unwrap();
    // modules: lib, foo, foo::inner
    assert_eq!(map.per_module.len(), 3);
    let s = def_id(&db, 1, Some(1), DefKind::Struct);
    let bar = def_id(&db, 2, Some(0), DefKind::Enum);
    let deep = def_id(&db, 2, Some(2), DefKind::Function);
    let foo = def_id(&db, 2, None, DefKind::Module);
    let inner = def_id(&db, 2, Some(1), DefKind::Module);
    assert!(s.is_some() && bar.is_some() && deep.is_some() && foo.is_some() && inner.is_some());

    assert_eq!(lookup(&map, 0, "S"), Some(Resolution { def_id: s, import: None }));
    assert_eq!(lookup(&map, 0, "foo"), Some(Resolution { def_id: foo, import: None }));
    assert_eq!(lookup(&map, 0, "Bar"), Some(Resolution { def_id: bar, import: Some(2) }));
    assert_eq!(lookup(&map, 0, "deep"), Some(Resolution { def_id: deep, import: Some(3) }));
    // an import that leads nowhere stays unresolved
    assert_eq!(lookup(&map, 0, "X"), Some(Resolution { def_id: None, import: Some(4) }));

    assert_eq!(lookup(&map, 1, "Bar"), Some(Resolution { def_id: bar, import: None }));
    assert_eq!(lookup(&map, 1, "inner"), Some(Resolution { def_id: inner, import: None }));
    assert_eq!(lookup(&map, 2, "deep"), Some(Resolution { def_id: deep, import: None }));
    assert_eq!(lookup(&map, 2, "Bar"), Some(Resolution { def_id: bar, import: Some(3) }));
    assert_eq!(lookup(&map, 2, "S"), Some(Resolution { def_id: s, import: Some(4) }));
}

#[test]
fn imports_that_lean_on_imports_need_a_second_pass() {
    // lib.rs:  use a::Y;  mod a;         a.rs:  use crate::b::Y;  mod b... declared in lib: mod b;
    // b.rs:    struct Y;
    let mut db = db_with(
        1,
        vec![
            file(
                1,
                &[],
                "lib",
                vec![
                    import(PathKind::Plain, &["a", "Y"], false, 0, None),
                    module("a", 10, true, None),
                    module("b", 20, true, None),
                ],
            ),
            file(2, &[], "a", vec![import(PathKind::Crate, &["b", "Y"], false, 0, None)]),
            file(3, &[], "b", vec![def(SyntaxKind::StructDef, "Y", 0, None)]),
        ],
    );
    let map = item_map(&mut db, SourceRootId(1)).unwrap();
    let y = def_id(&db, 3, Some(0), DefKind::Struct);
    assert!(y.is_some());
    assert_eq!(lookup(&map, 1, "Y"), Some(Resolution { def_id: y, import: Some(0) }));
    // the import in lib is read before the one in a is resolved: the second pass finds it
    assert_eq!(lookup(&map, 0, "Y"), Some(Resolution { def_id: y, import: Some(0) }));
}

#[test]
fn swept_item_map_keeps_its_stamp_while_its_inputs_stay() {
    let mut db = sample();
    let first = item_map(&mut db, SourceRootId(1)).unwrap();
    let built_at = db.revision();
    assert_eq!(db.item_map_stamps(SourceRootId(1)), Some((built_at, built_at)));

    db.apply_change(AnalysisChange::new());
    db.sweep();
    assert_eq!(db.item_map_stamps(SourceRootId(1)), None);
    let second = item_map(&mut db, SourceRootId(1)).unwrap();
    assert!(!std::sync::Arc::ptr_eq(&first, &second));
    assert_eq!(second, first);
    assert_eq!(db.item_map_stamps(SourceRootId(1)), Some((built_at + 1, built_at)));

    // a file of the root changes after the sweep: the kept stamp is void
    db.sweep();
    let mut change = AnalysisChange::new();
    change.files_changed.push(ChangeFile {
        file_id: FileId(2),
        text: String::new(),
        syntax: SourceFile { symbols: vec![], items: vec![def(SyntaxKind::StructDef, "Bar", 0, None)] },
    });
    db.apply_change(change);
    let third = item_map(&mut db, SourceRootId(1)).unwrap();
    assert!(third != first);
    assert_eq!(db.item_map_stamps(SourceRootId(1)), Some((built_at + 2, built_at + 2)));
}

#[test]
fn incremental_invalidation() {
    let mut db = sample();
    let mut change = AnalysisChange::new();
    change.new_roots.push((SourceRootId(2), true));
    change.roots_changed.push((
        SourceRootId(2),
        RootChange { added: vec![file(40, &[], "main", vec![function("main", 0, vec![])])], removed: vec![] },
    ));
    db.apply_change(change);
    assert_eq!(db.revision(), 2);
    assert_eq!(db.item_map_stamps(SourceRootId(1)), None);
    let first = item_map(&mut db, SourceRootId(1)).unwrap();
    assert_eq!(db.item_map_stamps(SourceRootId(1)), Some((2, 2)));
    assert_eq!(db.tree_stamps(SourceRootId(1)), Some((2, 2)));

    // a file of the other root is edited: its text changes, its items stay
    let mut change = AnalysisChange::new();
    change.files_changed.push(ChangeFile {
        file_id: FileId(40),
        text: "fn main() { }".to_string(),
        syntax: SourceFile {
            symbols: vec![FileSymbol { name: "main".to_string(), node_range: r(0, 13), kind: SyntaxKind::FnDef }],
            items: vec![function("main", 0, vec![])],
        },
    });
    db.apply_change(change);
    let second = item_map(&mut db, SourceRootId(1)).unwrap();
    // the cached map was verified again, not built anew
    assert!(std::sync::Arc::ptr_eq(&first, &second));
    assert_eq!(db.item_map_stamps(SourceRootId(1)), Some((3, 2)));

    // the edit brings a new definition: the map is built anew, found equal,
    // and keeps the revision at which it last changed
    let mut change = AnalysisChange::new();
    change.files_changed.push(ChangeFile {
        file_id: FileId(40),
        text: "fn main() {} struct T;".to_string(),
        syntax: SourceFile {
            symbols: vec![],
            items: vec![function("main", 0, vec![]), def(SyntaxKind::StructDef, "T", 13, None)],
        },
    });
    db.apply_change(change);
    let third = item_map(&mut db, SourceRootId(1)).unwrap();
    assert!(!std::sync::Arc::ptr_eq(&first, &third));
    assert_eq!(third, first);
    assert_eq!(db.item_map_stamps(SourceRootId(1)), Some((4, 2)));
    // the tree under it did not read the store of definitions: it was verified only
    assert_eq!(db.tree_stamps(SourceRootId(1)), Some((4, 2)));

    // a file of the root itself changes what a name resolves to
    let mut change = AnalysisChange::new();
    change.files_changed.push(ChangeFile {
        file_id: FileId(2),
        text: String::new(),
        syntax: SourceFile { symbols: vec![], items: vec![def(SyntaxKind::StructDef, "Bar", 0, None)] },
    });
    db.apply_change(change);
    let fourth = item_map(&mut db, SourceRootId(1)).unwrap();
    assert!(fourth != first);
    assert_eq!(db.item_map_stamps(SourceRootId(1)), Some((5, 5)));
    assert_eq!(
        lookup(&fourth, 0, "Bar"),
        Some(Resolution { def_id: def_id(&db, 2, Some(0), DefKind::Struct), import: Some(2) })
    );
}

#[test]
fn unchanged_tree_cuts_the_item_map_off() {
    let mut db = sample();
    let first = item_map(&mut db, SourceRootId(1)).unwrap();
    let tree = db.module_tree(SourceRootId(1)).unwrap();
    assert_eq!(db.item_map_stamps(SourceRootId(1)), Some((1, 1)));

    // the root is set again, with nothing new in it
    let mut change = AnalysisChange::new();
    change.roots_changed.push((SourceRootId(1), RootChange { added: vec![], removed: vec![] }));
    db.apply_change(change);
    let second = item_map(&mut db, SourceRootId(1)).unwrap();
    // the tree was built anew and found the same: it keeps its stamp and its value
    assert_eq!(db.tree_stamps(SourceRootId(1)), Some((2, 1)));
    assert!(std::sync::Arc::ptr_eq(&tree, &db.module_tree(SourceRootId(1)).unwrap()));
    // so the item map, which read the tree and not the root, was only verified
    assert!(std::sync::Arc::ptr_eq(&first, &second));
    assert_eq!(db.item_map_stamps(SourceRootId(1)), Some((2, 1)));

    // a new file changes the tree: the item map follows
    let mut change = AnalysisChange::new();
    change.roots_changed.push((
        SourceRootId(1),
        RootChange { added: vec![file(9, &[], "missing", vec![])], removed: vec![] },
    ));
    db.apply_change(change);
    let third = item_map(&mut db, SourceRootId(1)).unwrap();
    assert_eq!(db.tree_stamps(SourceRootId(1)), Some((3, 3)));
    assert_eq!(db.item_map_stamps(SourceRootId(1)), Some((3, 3)));
    assert_eq!(third.per_module.len(), 4);
    drop(second);
}

#[test]
fn identities_survive_changes() {
    let mut db = sample();
    let bar = def_id(&db, 2, Some(0), DefKind::Enum);
    let mut change = AnalysisChange::new();
    change.roots_changed.push((
        SourceRootId(1),
        RootChange { added: vec![file(3, &[], "late", vec![def(SyntaxKind::StructDef, "L", 0, None)])], removed: vec![] },
    ));
    db.apply_change(change);
    assert_eq!(def_id(&db, 2, Some(0), DefKind::Enum), bar);
    let late = def_id(&db, 3, Some(0), DefKind::Struct).unwrap();
    assert_eq!(
        db.interner().lookup(late),
        DefLoc { kind: DefKind::Struct, source_item_id: SourceItemId { file_id: FileId(3), item_id: Some(0) } }
    );
    let snap = db.snapshot();
    assert_eq!(def_id(&snap, 3, Some(0), DefKind::Struct), Some(late));
}

#[test]
fn queries_by_identity() {
    let body = vec![
        BodyEvent::Bind(ScopeEntry { name: "x".to_string(), ptr: r(5, 6) }),
        BodyEvent::Ref(NameRef { name: "x".to_string(), range: r(8, 9) }),
    ];
    let db = db_with(
        1,
        vec![file(
            1,
            &[],
            "lib",
            vec![function("f", 0, body), def(SyntaxKind::StructDef, "S", 10, None), def(SyntaxKind::EnumDef, "E", 20, None)],
        )],
    );
    let f = def_id(&db, 1, Some(0), DefKind::Function).unwrap();
    let s = def_id(&db, 1, Some(1), DefKind::Struct).unwrap();
    let e = def_id(&db, 1, Some(2), DefKind::Enum).unwrap();
    let scopes = fn_scopes(&db, f);
    assert_eq!(scopes.len(), 1);
    assert_eq!(scopes.resolve_local_name(&NameRef { name: "x".to_string(), range: r(8, 9) }).unwrap().ptr, r(5, 6));
    assert_eq!(struct_data(&db, s).name, Some("S".to_string()));
    assert_eq!(enum_data(&db, e).name, Some("E".to_string()));
    // an identity tells its kind before it is asked for its data
    assert_eq!(db.interner().try_lookup(s).unwrap().kind, DefKind::Struct);
    assert_eq!(db.interner().try_lookup(e).unwrap().kind, DefKind::Enum);
    assert!(db.interner().try_lookup(DefId(99)).is_none());

    let items = file_items(&db, FileId(1));
    assert_eq!(items.file_id, FileId(1));
    assert_eq!(items.ranges, vec![r(0, 9), r(10, 19), r(20, 29)]);
    assert!(file_items(&db, FileId(5)).ranges.is_empty());
    assert_eq!(
        file_item(&db, SourceItemId { file_id: FileId(1), item_id: Some(1) }),
        Some(FileItem::Item(r(10, 19)))
    );
    assert_eq!(file_item(&db, SourceItemId { file_id: FileId(1), item_id: None }), Some(FileItem::File(FileId(1))));
    assert_eq!(file_item(&db, SourceItemId { file_id: FileId(1), item_id: Some(7) }), None);
}

#[test]
fn submodules_of_a_source() {
    let mut db = sample();
    assert_eq!(
        submodules(&mut db, ModuleSource::File(FileId(1))).unwrap(),
        vec![Submodule::Declaration("foo".to_string())]
    );
    assert_eq!(
        submodules(&mut db, ModuleSource::File(FileId(2))).unwrap(),
        vec![Submodule::Definition("inner".to_string(), ModuleSource::Inline(FileId(2), 1))]
    );
    assert!(submodules(&mut db, ModuleSource::File(FileId(9))).unwrap().is_empty());
    let input = ra_analysis::query_definitions::input_module_items(&mut db, SourceRootId(1), 2).unwrap().unwrap();
    assert_eq!(input.items.len(), 1);
    assert_eq!(input.imports.len(), 2);
    assert!(ra_analysis::query_definitions::input_module_items(&mut db, SourceRootId(1), 3).unwrap().is_none());
    db.cancel();
    assert!(submodules(&mut db, ModuleSource::File(FileId(1))).is_err());
    assert!(item_map(&mut db, SourceRootId(1)).is_err());
    assert!(ra_analysis::query_definitions::input_module_items(&mut db, SourceRootId(1), 0).is_err());
}

#[test]
fn imports_in_a_ring_end_at_the_limit_of_passes() {
    // lib.rs: mod a; mod b; mod c;   each of a, b, c: struct X; use crate::<next>::X;
    let ring = |next: &str| {
        vec![def(SyntaxKind::StructDef, "X", 0, None), import(PathKind::Crate, &[next, "X"], false, 10, None)]
    };
    let mut db = db_with(
        1,
        vec![
            file(1, &[], "lib", vec![module("a", 0, true, None), module("b", 10, true, None), module("c", 20, true, None)]),
            file(2, &[], "a", ring("b")),
            file(3, &[], "b", ring("c")),
            file(4, &[], "c", ring("a")),
        ],
    );
    let structs: Vec<DefId> =
        (2..5).map(|f| def_id(&db, f, Some(0), DefKind::Struct).unwrap()).collect();
    let map = item_map(&mut db, SourceRootId(1)).unwrap();
    assert_eq!(map.per_module.len(), 4);
    let mut seen = 0;
    for scope in map.per_module.iter() {
        if let Some(res) = scope.get(&"X".to_string()) {
            assert!(structs.contains(&res.def_id.unwrap()));
            seen += 1;
        }
    }
    assert_eq!(seen, 3);
    // the same inputs give the same map again
    db.sweep();
    assert_eq!(item_map(&mut db, SourceRootId(1)).unwrap(), map);
}

#[test]
fn edit_that_keeps_the_module_items_keeps_the_submodules() {
    let mut db = db_with(
        1,
        vec![file(
            1,
            &[],
            "lib",
            vec![module("foo", 0, true, None), function("f", 10, vec![]), module("inner", 20, false, None)],
        )],
    );
    let before = submodules(&mut db, ModuleSource::File(FileId(1))).unwrap();
    let tree = db.module_tree(SourceRootId(1)).unwrap();
    let stamp = db.tree_stamps(SourceRootId(1)).unwrap();

    // the body of the function is edited; the module items stay
    let body = vec![BodyEvent::Bind(ScopeEntry { name: "x".to_string(), ptr: r(12, 13) })];
    let mut change = AnalysisChange::new();
    change.files_changed.push(ChangeFile {
        file_id: FileId(1),
        text: "mod foo; fn f() { let x; } mod inner {}".to_string(),
        syntax: SourceFile {
            symbols: vec![],
            items: vec![module("foo", 0, true, None), function("f", 10, body), module("inner", 20, false, None)],
        },
    });
    db.apply_change(change);
    assert_eq!(submodules(&mut db, ModuleSource::File(FileId(1))).unwrap(), before);
    assert_eq!(
        before,
        vec![
            Submodule::Declaration("foo".to_string()),
            Submodule::Definition("inner".to_string(), ModuleSource::Inline(FileId(1), 2)),
        ]
    );
    // the submodules were read anew, found the same, and keep their stamp
    let source = ModuleSource::File(FileId(1));
    assert_eq!(db.subs_stamps(source), Some((stamp.0 + 1, stamp.1)));
    assert_eq!(db.subs_stamps(ModuleSource::Inline(FileId(1), 2)), None);
    assert!(submodules(&mut db, ModuleSource::Inline(FileId(1), 2)).unwrap().is_empty());
    assert_eq!(db.subs_stamps(ModuleSource::Inline(FileId(1), 2)), Some((stamp.0 + 1, stamp.0 + 1)));
    // the tree is built again, found the same, and keeps its stamp of change
    let again = db.module_tree(SourceRootId(1)).unwrap();
    assert!(std::sync::Arc::ptr_eq(&tree, &again));
    assert_eq!(db.tree_stamps(SourceRootId(1)), Some((stamp.0 + 1, stamp.1)));
}

#[test]
fn submodules_are_stamped_anew_when_they_change() {
    let mut db = db_with(1, vec![file(1, &[], "lib", vec![module("foo", 0, true, None)])]);
    let source = ModuleSource::File(FileId(1));
    assert_eq!(db.subs_stamps(source), None);
    assert_eq!(submodules(&mut db, source).unwrap(), vec![Submodule::Declaration("foo".to_string())]);
    assert_eq!(db.subs_stamps(source), Some((1, 1)));

    // a change elsewhere: the cached submodules are verified, not read anew
    db.apply_change(AnalysisChange::new());
    assert_eq!(submodules(&mut db, source).unwrap().len(), 1);
    assert_eq!(db.subs_stamps(source), Some((2, 1)));

    // the declaration gets a body: the submodules change
    let mut change = AnalysisChange::new();
    change.files_changed.push(ChangeFile {
        file_id: FileId(1),
        text: "mod foo {}".to_string(),
        syntax: SourceFile { symbols: vec![], items: vec![module("foo", 0, false, None)] },
    });
    db.apply_change(change);
    assert_eq!(
        submodules(&mut db, source).unwrap(),
        vec![Submodule::Definition("foo".to_string(), ModuleSource::Inline(FileId(1), 0))]
    );
    assert_eq!(db.subs_stamps(source), Some((3, 3)));

    // a snapshot holds what was cached, and the sweep leaves it
    let mut snap = db.snapshot();
    db.sweep();
    assert_eq!(snap.subs_stamps(source), Some((3, 3)));
    assert_eq!(db.subs_stamps(source), Some((3, 3)));
    snap.cancel();
    assert!(submodules(&mut snap, source).is_err());
}
