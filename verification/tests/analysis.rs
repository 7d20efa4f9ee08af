use ra_analysis::base::{CrateId, FileId, FilePosition, FileSymbol, SourceRootId, SyntaxKind, TextRange};
use ra_analysis::imp::{
    current_parameter, AnalysisHostImpl, AnalysisImpl, ArgList, BindingAt, CallExpr, Callee, FnCallNode,
    MethodCallExpr, NameAt,
};
use ra_analysis::input::{AddFile, AnalysisChange, CrateGraph, LibraryData, RootChange};
use ra_analysis::scope::{BodyEvent, NameRef, ScopeEntry};
use ra_analysis::source_change::{
    AtomTextEdit, FileSystemEdit, LocalEdit, Severity, SourceFileEdit, SyntaxDiagnostic, TextEdit,
};
use ra_analysis::symbol_index::{Query, SymbolIndex};
use ra_analysis::syntax::{ItemKind, SourceFile, SourceItem, SourcePath};

fn r(start: u32, end: u32) -> TextRange {
    TextRange { start, end }
}

fn path(dir: &[&str], stem: &str) -> SourcePath {
    SourcePath { dir: dir.iter().map(|s| s.to_string()).collect(), stem: stem.to_string() }
}

fn sym(name: &str, start: u32, end: u32, kind: SyntaxKind) -> FileSymbol {
    FileSymbol { name: name.to_string(), node_range: r(start, end), kind }
}

fn module_item(name: &str, start: u32, end: u32, has_semi: bool, parent: Option<usize>) -> SourceItem {
    SourceItem {
        kind: ItemKind::Module { has_semi },
        name: Some(name.to_string()),
        name_range: r(start + 4, start + 4 + name.len() as u32),
        range: r(start, end),
        parent,
    }
}

fn function_item(name: &str, start: u32, end: u32, has_self: bool, params: &[&str], body: Vec<BodyEvent>) -> SourceItem {
    SourceItem {
        kind: ItemKind::Function { has_self, params: params.iter().map(|s| s.to_string()).collect(), body },
        name: Some(name.to_string()),
        name_range: r(start + 3, start + 3 + name.len() as u32),
        range: r(start, end),
        parent: None,
    }
}

fn file(id: u32, dir: &[&str], stem: &str, symbols: Vec<FileSymbol>, items: Vec<SourceItem>) -> AddFile {
    AddFile { file_id: FileId(id), path: path(dir, stem), text: String::new(), syntax: SourceFile { symbols, items } }
}

fn host_with(root: u32, files: Vec<AddFile>) -> AnalysisHostImpl {
    let mut host = AnalysisHostImpl::new();
    let mut change = AnalysisChange::new();
    change.new_roots.push((SourceRootId(root), true));
    change.roots_changed.push((SourceRootId(root), RootChange { added: files, removed: Vec::new() }));
    host.apply_change(change);
    host
}

fn name_ref(name: &str, start: u32, end: u32) -> NameRef {
    NameRef { name: name.to_string(), range: r(start, end) }
}

#[test]
fn symbol_search_exact_limit_4_finds_foo_in_both_files() {
    let host = host_with(
        1,
        vec![
            file(1, &[], "lib", vec![sym("foo", 0, 11, SyntaxKind::FnDef)], vec![]),
            file(2, &[], "bar", vec![sym("foo", 4, 15, SyntaxKind::FnDef), sym("food", 20, 30, SyntaxKind::FnDef)], vec![]),
        ],
    );
    let mut analysis = host.analysis();
    let mut query = Query::new("foo".to_string());
    query.exact();
    query.limit(4);
    let mut found = analysis.world_symbols(query).unwrap();
    found.sort_by_key(|e| e.0 .0);
    assert_eq!(
        found,
        vec![(FileId(1), sym("foo", 0, 11, SyntaxKind::FnDef)), (FileId(2), sym("foo", 4, 15, SyntaxKind::FnDef))]
    );
    let mut again = analysis.index_resolve("foo".to_string()).unwrap();
    again.sort_by_key(|e| e.0 .0);
    assert_eq!(again, found);
}

#[test]
fn world_symbols_searches_libraries_only_when_asked() {
    let mut host = host_with(1, vec![file(1, &[], "lib", vec![sym("local_fn", 0, 5, SyntaxKind::FnDef)], vec![])]);
    let mut change = AnalysisChange::new();
    change.libraries_added.push(LibraryData {
        root_id: SourceRootId(9),
        root_change: RootChange { added: vec![file(50, &[], "lib", vec![], vec![])], removed: vec![] },
        symbol_index: SymbolIndex::for_file(FileId(50), vec![sym("lib_fn", 0, 5, SyntaxKind::FnDef)]),
    });
    host.apply_change(change);
    assert_eq!(host.revision(), 2);
    let mut analysis = host.analysis();
    let local = analysis.world_symbols(Query::new("fn".to_string())).unwrap();
    assert_eq!(local, vec![(FileId(1), sym("local_fn", 0, 5, SyntaxKind::FnDef))]);
    let mut libs = Query::new("fn".to_string());
    libs.libs();
    let found = analysis.world_symbols(libs).unwrap();
    assert_eq!(found, vec![(FileId(50), sym("lib_fn", 0, 5, SyntaxKind::FnDef))]);
}

#[test]
fn resolve_callable_method_call() {
    // fn bar(self, a: i32, b: i32) {} ... x.bar(1, |)
    let host = host_with(
        1,
        vec![file(
            1,
            &[],
            "lib",
            vec![sym("bar", 0, 31, SyntaxKind::FnDef)],
            vec![function_item("bar", 0, 31, true, &["self", "a", "b"], vec![])],
        )],
    );
    let mut analysis = host.analysis();
    let call = FnCallNode::with_node(
        None,
        Some(MethodCallExpr {
            name_refs: vec![name_ref("bar", 52, 55)],
            arg_list: Some(ArgList { range: r(55, 60), text: "(1, )".to_string() }),
        }),
    );
    let position = FilePosition { file_id: FileId(1), offset: 59 };
    let (info, current) = analysis.resolve_callable(position, call).unwrap().unwrap();
    assert_eq!(info.name, "bar");
    assert_eq!(info.params, vec!["self".to_string(), "a".to_string(), "b".to_string()]);
    // one comma before the cursor, and one more for the receiver
    assert_eq!(current, Some(2));
}

#[test]
fn resolve_callable_method_with_one_argument() {
    // fn do_it(&self, x: i32) {} ... f.do_it(|)
    let host = host_with(
        1,
        vec![file(
            1,
            &[],
            "lib",
            vec![sym("do_it", 0, 26, SyntaxKind::FnDef)],
            vec![function_item("do_it", 0, 26, true, &["&self", "x"], vec![])],
        )],
    );
    let mut analysis = host.analysis();
    let call = FnCallNode::with_node(
        None,
        Some(MethodCallExpr {
            name_refs: vec![name_ref("do_it", 40, 45)],
            arg_list: Some(ArgList { range: r(45, 47), text: "()".to_string() }),
        }),
    );
    let position = FilePosition { file_id: FileId(1), offset: 46 };
    let (info, current) = analysis.resolve_callable(position, call).unwrap().unwrap();
    assert_eq!(info.params, vec!["&self".to_string(), "x".to_string()]);
    // no comma before the cursor, and one step for the receiver
    assert_eq!(current, Some(1));
}

#[test]
fn resolve_callable_method_of_the_receiver_alone() {
    let host = host_with(
        1,
        vec![file(
            1,
            &[],
            "lib",
            vec![sym("do_it", 0, 20, SyntaxKind::FnDef)],
            vec![function_item("do_it", 0, 20, true, &["&self"], vec![])],
        )],
    );
    let mut analysis = host.analysis();
    let call = FnCallNode::with_node(
        None,
        Some(MethodCallExpr {
            name_refs: vec![name_ref("do_it", 40, 45)],
            arg_list: Some(ArgList { range: r(45, 47), text: "()".to_string() }),
        }),
    );
    let position = FilePosition { file_id: FileId(1), offset: 46 };
    let (info, current) = analysis.resolve_callable(position, call).unwrap().unwrap();
    assert_eq!(info.params, vec!["&self".to_string()]);
    assert_eq!(current, None);
}

#[test]
fn resolve_callable_plain_call_and_misses() {
    let host = host_with(
        1,
        vec![file(
            1,
            &[],
            "lib",
            vec![sym("foo", 0, 20, SyntaxKind::FnDef), sym("Foo", 30, 40, SyntaxKind::StructDef)],
            vec![function_item("foo", 0, 20, false, &["x", "y"], vec![])],
        )],
    );
    let mut analysis = host.analysis();
    let position = FilePosition { file_id: FileId(1), offset: 57 };
    let call = FnCallNode::with_node(
        Some(CallExpr {
            callee: Some(Callee::Path { name_ref: Some(name_ref("foo", 50, 53)) }),
            arg_list: Some(ArgList { range: r(53, 60), text: "(1, 2,)".to_string() }),
        }),
        None,
    );
    let (info, current) = analysis.resolve_callable(position, call).unwrap().unwrap();
    assert_eq!(info.params.len(), 2);
    assert_eq!(current, Some(1));

    let not_a_fn = FnCallNode::with_node(
        Some(CallExpr { callee: Some(Callee::Path { name_ref: Some(name_ref("Foo", 50, 53)) }), arg_list: None }),
        None,
    );
    assert_eq!(analysis.resolve_callable(position, not_a_fn).unwrap(), None);
    let not_a_path = FnCallNode::with_node(Some(CallExpr { callee: Some(Callee::Other), arg_list: None }), None);
    assert_eq!(analysis.resolve_callable(position, not_a_path).unwrap(), None);
    assert_eq!(analysis.resolve_callable(position, None).unwrap(), None);
}

#[test]
fn current_parameter_counts_commas() {
    let list = ArgList { range: r(10, 20), text: "(a, b, c)".to_string() };
    assert_eq!(current_parameter(0, false, Some(&list), 12), None);
    assert_eq!(current_parameter(1, false, Some(&list), 12), Some(0));
    assert_eq!(current_parameter(1, true, Some(&list), 12), None);
    assert_eq!(current_parameter(3, false, Some(&list), 11), Some(0));
    assert_eq!(current_parameter(3, false, Some(&list), 13), Some(1));
    assert_eq!(current_parameter(3, false, Some(&list), 16), Some(2));
    assert_eq!(current_parameter(3, true, Some(&list), 16), Some(3));
    assert_eq!(current_parameter(3, false, Some(&list), 5), Some(0));
    assert_eq!(current_parameter(3, false, None, 16), None);
}

#[test]
fn unresolved_module_diagnostic() {
    // mod missing;
    let host = host_with(1, vec![file(1, &[], "lib", vec![], vec![module_item("missing", 0, 12, true, None)])]);
    let mut analysis = host.analysis();
    let found = analysis.diagnostics(FileId(1), vec![]).unwrap();
    assert_eq!(found.len(), 1);
    assert_eq!(found[0].range, r(4, 11));
    assert_eq!(found[0].severity, Severity::Error);
    assert_eq!(found[0].message, "unresolved module");
    let fix = found[0].fix.as_ref().unwrap();
    assert_eq!(fix.label, "create module");
    assert!(fix.source_file_edits.is_empty());
    assert_eq!(fix.cursor_position, None);
    assert_eq!(
        fix.file_system_edits,
        vec![FileSystemEdit::CreateFile { source_root: SourceRootId(1), path: path(&[], "missing") }]
    );
}

#[test]
fn declaration_in_a_file_that_owns_no_directory() {
    let host = host_with(
        1,
        vec![
            file(1, &[], "lib", vec![], vec![module_item("foo", 0, 8, true, None)]),
            file(2, &[], "foo", vec![], vec![module_item("bar", 0, 8, true, None)]),
        ],
    );
    let mut analysis = host.analysis();
    assert!(analysis.diagnostics(FileId(1), vec![]).unwrap().is_empty());
    let found = analysis.diagnostics(FileId(2), vec![]).unwrap();
    assert_eq!(found.len(), 1);
    assert_eq!(found[0].message, "can't declare module at this location");
    let fix = found[0].fix.as_ref().unwrap();
    assert_eq!(fix.label, "move file and create module");
    assert_eq!(
        fix.file_system_edits,
        vec![
            FileSystemEdit::MoveFile { src: FileId(2), dst_source_root: SourceRootId(1), dst_path: path(&["foo"], "mod") },
            FileSystemEdit::CreateFile { source_root: SourceRootId(1), path: path(&["foo"], "bar") },
        ]
    );
}

#[test]
fn syntax_diagnostics_come_first_with_their_fixes() {
    let host = host_with(1, vec![file(1, &[], "lib", vec![], vec![module_item("missing", 0, 12, true, None)])]);
    let mut analysis = host.analysis();
    let edit = TextEdit { atoms: vec![AtomTextEdit { delete: r(3, 4), insert: ";".to_string() }] };
    let syntax = vec![
        SyntaxDiagnostic { range: r(3, 4), msg: "expected SEMI".to_string(), severity: Severity::Error, fix: None },
        SyntaxDiagnostic {
            range: r(7, 9),
            msg: "unnecessary braces".to_string(),
            severity: Severity::WeakWarning,
            fix: Some(LocalEdit { label: "remove braces".to_string(), edit, cursor_position: Some(7) }),
        },
    ];
    let found = analysis.diagnostics(FileId(1), syntax).unwrap();
    assert_eq!(found.len(), 3);
    assert_eq!(found[0].message, "expected SEMI");
    assert_eq!(found[0].fix, None);
    assert_eq!(found[1].severity, Severity::WeakWarning);
    let fix = found[1].fix.as_ref().unwrap();
    assert_eq!(fix.label, "remove braces");
    assert_eq!(
        fix.source_file_edits,
        vec![SourceFileEdit {
            file_id: FileId(1),
            edit: TextEdit { atoms: vec![AtomTextEdit { delete: r(3, 4), insert: ";".to_string() }] }
        }]
    );
    assert_eq!(fix.cursor_position, Some(FilePosition { file_id: FileId(1), offset: 7 }));
    assert_eq!(found[2].message, "unresolved module");

    // a file that was never added has the diagnostics of its syntax only
    let other = analysis
        .diagnostics(
            FileId(77),
            vec![SyntaxDiagnostic { range: r(0, 1), msg: "x".to_string(), severity: Severity::Error, fix: None }],
        )
        .unwrap();
    assert_eq!(other.len(), 1);
}

fn tree_host() -> AnalysisHostImpl {
    // lib.rs: mod foo; mod inner { mod deep; }      foo.rs      inner/deep.rs is missing
    let mut host = host_with(
        1,
        vec![
            file(
                1,
                &[],
                "lib",
                vec![],
                vec![
                    module_item("foo", 0, 8, true, None),
                    module_item("inner", 10, 40, false, None),
                    module_item("deep", 24, 33, true, Some(1)),
                ],
            ),
            file(2, &[], "foo", vec![], vec![]),
            file(3, &[], "orphan", vec![], vec![]),
        ],
    );
    let mut change = AnalysisChange::new();
    let mut graph = CrateGraph::new();
    assert_eq!(graph.add_crate_root(FileId(1)), Some(CrateId(0)));
    change.crate_graph = Some(graph);
    host.apply_change(change);
    host
}

#[test]
fn parent_module_of_a_declared_file_and_of_an_inline_module() {
    let host = tree_host();
    let mut analysis = host.analysis();
    let of_foo = analysis.parent_module(FilePosition { file_id: FileId(2), offset: 0 }).unwrap();
    assert_eq!(of_foo, vec![(FileId(1), sym("foo", 4, 7, SyntaxKind::Module))]);
    let of_inner = analysis.parent_module(FilePosition { file_id: FileId(1), offset: 20 }).unwrap();
    assert_eq!(of_inner, vec![(FileId(1), sym("inner", 14, 19, SyntaxKind::Module))]);
    assert!(analysis.parent_module(FilePosition { file_id: FileId(1), offset: 50 }).unwrap().is_empty());
    assert!(analysis.parent_module(FilePosition { file_id: FileId(3), offset: 0 }).unwrap().is_empty());
    assert!(analysis.parent_module(FilePosition { file_id: FileId(42), offset: 0 }).unwrap().is_empty());
}

#[test]
fn crate_for_follows_the_parents_to_the_crate_root() {
    let host = tree_host();
    let mut analysis = host.analysis();
    assert_eq!(analysis.crate_for(FileId(2)).unwrap(), vec![CrateId(0)]);
    assert_eq!(analysis.crate_for(FileId(1)).unwrap(), vec![CrateId(0)]);
    assert!(analysis.crate_for(FileId(3)).unwrap().is_empty());
    assert!(analysis.crate_for(FileId(42)).unwrap().is_empty());
    assert_eq!(analysis.crate_root(CrateId(0)), Some(FileId(1)));
    assert_eq!(analysis.crate_root(CrateId(5)), None);
}

fn fn_host() -> AnalysisHostImpl {
    // fn f(x) { let y = x; y; other; }
    let body = vec![
        BodyEvent::Bind(ScopeEntry { name: "x".to_string(), ptr: r(5, 6) }),
        BodyEvent::Enter,
        BodyEvent::Ref(name_ref("x", 18, 19)),
        BodyEvent::Scope,
        BodyEvent::Bind(ScopeEntry { name: "y".to_string(), ptr: r(14, 15) }),
        BodyEvent::Ref(name_ref("y", 21, 22)),
        BodyEvent::Ref(name_ref("other", 24, 29)),
        BodyEvent::Leave,
    ];
    host_with(
        1,
        vec![
            file(
                1,
                &[],
                "lib",
                vec![sym("f", 0, 32, SyntaxKind::FnDef)],
                vec![function_item("f", 0, 32, false, &["x"], body), module_item("foo", 40, 48, true, None)],
            ),
            file(2, &[], "foo", vec![sym("other", 0, 10, SyntaxKind::FnDef)], vec![]),
        ],
    )
}

#[test]
fn approximately_resolve_symbol_prefers_the_local_binding() {
    let host = fn_host();
    let mut analysis = host.analysis();
    let position = FilePosition { file_id: FileId(1), offset: 21 };
    let local = analysis
        .approximately_resolve_symbol(position, NameAt::NameRef { name_ref: name_ref("y", 21, 22), function: Some(0) })
        .unwrap()
        .unwrap();
    assert_eq!(local.reference_range, r(21, 22));
    assert_eq!(local.resolves_to, vec![(FileId(1), sym("y", 14, 15, SyntaxKind::Name))]);

    let by_index = analysis
        .approximately_resolve_symbol(
            FilePosition { file_id: FileId(1), offset: 25 },
            NameAt::NameRef { name_ref: name_ref("other", 24, 29), function: Some(0) },
        )
        .unwrap()
        .unwrap();
    assert_eq!(by_index.reference_range, r(24, 29));
    assert_eq!(by_index.resolves_to, vec![(FileId(2), sym("other", 0, 10, SyntaxKind::FnDef))]);

    let unknown = analysis
        .approximately_resolve_symbol(position, NameAt::NameRef { name_ref: name_ref("nope", 1, 5), function: None })
        .unwrap()
        .unwrap();
    assert!(unknown.resolves_to.is_empty());
}

#[test]
fn approximately_resolve_symbol_of_a_module_declaration() {
    let host = fn_host();
    let mut analysis = host.analysis();
    let position = FilePosition { file_id: FileId(1), offset: 45 };
    let found = analysis
        .approximately_resolve_symbol(position, NameAt::Name { range: r(44, 47), declaration: Some(1) })
        .unwrap()
        .unwrap();
    assert_eq!(found.reference_range, r(44, 47));
    assert_eq!(found.resolves_to, vec![(FileId(2), sym("foo", 0, 0, SyntaxKind::Module))]);
    assert_eq!(
        analysis.approximately_resolve_symbol(position, NameAt::Name { range: r(3, 4), declaration: None }).unwrap(),
        None
    );
    assert_eq!(
        analysis.approximately_resolve_symbol(position, NameAt::Name { range: r(3, 4), declaration: Some(0) }).unwrap(),
        None
    );
    assert_eq!(analysis.approximately_resolve_symbol(position, NameAt::Nothing).unwrap(), None);
}

#[test]
fn find_all_refs_from_the_binding_and_from_a_reference() {
    let host = fn_host();
    let mut analysis = host.analysis();
    let position = FilePosition { file_id: FileId(1), offset: 5 };
    let from_binding =
        analysis.find_all_refs(position, BindingAt::BindPat { range: r(5, 6), function: Some(0) }).unwrap();
    assert_eq!(from_binding, vec![(FileId(1), r(5, 6)), (FileId(1), r(18, 19))]);
    let from_ref = analysis
        .find_all_refs(position, BindingAt::NameRef { name_ref: name_ref("y", 21, 22), function: Some(0) })
        .unwrap();
    assert_eq!(from_ref, vec![(FileId(1), r(14, 15)), (FileId(1), r(21, 22))]);
    let unresolved = analysis
        .find_all_refs(position, BindingAt::NameRef { name_ref: name_ref("other", 24, 29), function: Some(0) })
        .unwrap();
    assert!(unresolved.is_empty());
    assert!(analysis.find_all_refs(position, BindingAt::Nothing).unwrap().is_empty());
    assert!(analysis.find_all_refs(position, BindingAt::BindPat { range: r(5, 6), function: Some(1) }).unwrap().is_empty());
    assert!(analysis.find_all_refs(position, BindingAt::BindPat { range: r(5, 6), function: None }).unwrap().is_empty());
}

fn all_cancelled(analysis: &mut AnalysisImpl) {
    let position = FilePosition { file_id: FileId(1), offset: 0 };
    assert!(analysis.world_symbols(Query::new("f".to_string())).is_err());
    assert!(analysis.index_resolve("f".to_string()).is_err());
    assert!(analysis.diagnostics(FileId(1), vec![]).is_err());
    assert!(analysis.parent_module(position).is_err());
    assert!(analysis.crate_for(FileId(1)).is_err());
    assert!(analysis.approximately_resolve_symbol(position, NameAt::Nothing).is_err());
    assert!(analysis.find_all_refs(position, BindingAt::Nothing).is_err());
    assert!(analysis.resolve_callable(position, None).is_err());
}

#[test]
fn snapshot_cancellation() {
    let mut host = fn_host();
    let mut running = host.analysis();
    assert!(running.world_symbols(Query::new("other".to_string())).is_ok());
    // the host applies a change: the snapshot sees the signal at the next
    // check point of a query
    host.apply_change(AnalysisChange::new());
    assert!(running.world_symbols(Query::new("other".to_string())).is_err());
    all_cancelled(&mut running);
    assert!(running.check_canceled().is_err());
    let mut fresh = host.analysis();
    assert!(fresh.check_canceled().is_ok());
    let found = fresh.world_symbols(Query::new("other".to_string())).unwrap();
    assert_eq!(found, vec![(FileId(2), sym("other", 0, 10, SyntaxKind::FnDef))]);
}

#[test]
fn snapshot_told_to_give_up_stays_cancelled() {
    let host = fn_host();
    let mut running = host.analysis();
    running.cancel();
    all_cancelled(&mut running);
    assert!(running.check_canceled().is_err());
    // the other snapshots of the host go on
    let mut other = host.analysis();
    assert!(other.check_canceled().is_ok());
    assert_eq!(other.index_resolve("other".to_string()).unwrap().len(), 1);
}

#[test]
fn every_snapshot_of_a_revision_is_signalled_by_the_next_change() {
    let mut host = fn_host();
    let mut first = host.analysis();
    let mut second = host.analysis();
    host.apply_change(AnalysisChange::new());
    let mut third = host.analysis();
    assert!(first.check_canceled().is_err());
    assert!(second.check_canceled().is_err());
    assert!(third.check_canceled().is_ok());
    host.apply_change(AnalysisChange::new());
    assert!(third.check_canceled().is_err());
}

#[test]
fn note_gives_up_on_a_signal_only() {
    let host = fn_host();
    let mut snapshot = host.analysis();
    assert!(snapshot.note(false).is_ok());
    assert!(snapshot.world_symbols(Query::new("other".to_string())).is_ok());
    assert!(snapshot.note(true).is_err());
    assert!(snapshot.note(false).is_err());
    all_cancelled(&mut snapshot);
}

#[test]
fn snapshot_sees_the_inputs_of_its_revision() {
    let mut host = fn_host();
    let mut before = host.analysis();
    let mut change = AnalysisChange::new();
    change.roots_changed.push((
        SourceRootId(1),
        RootChange { added: vec![file(3, &[], "late", vec![sym("other", 5, 6, SyntaxKind::FnDef)], vec![])], removed: vec![] },
    ));
    assert_eq!(before.index_resolve("other".to_string()).unwrap().len(), 1);
    host.apply_change(change);
    // the snapshot of before never answers for the inputs of after: it holds
    // the inputs that it saw, and its queries give up
    assert!(before.file_syntax(FileId(3)).is_none());
    assert!(before.index_resolve("other".to_string()).is_err());
    assert_eq!(host.analysis().index_resolve("other".to_string()).unwrap().len(), 2);
    assert!(host.analysis().file_syntax(FileId(3)).is_some());
}

#[test]
fn gc_keeps_the_answers() {
    let mut host = fn_host();
    let before = host.analysis().index_resolve("other".to_string()).unwrap();
    host.gc_syntax_trees();
    assert_eq!(host.analysis().index_resolve("other".to_string()).unwrap(), before);
}


#[test]
fn a_query_told_of_no_signal_answers_and_one_told_of_a_signal_gives_up() {
    let host = fn_host();
    let mut snapshot = host.analysis();
    let position = FilePosition { file_id: FileId(1), offset: 24 };
    let plain = snapshot.index_resolve("other".to_string()).unwrap();
    assert_eq!(snapshot.index_resolve_noted(false, "other".to_string()).unwrap(), plain);
    assert_eq!(snapshot.world_symbols_noted(false, Query::new("other".to_string())).unwrap(), plain);
    assert_eq!(snapshot.file_index_noted(false, FileId(2)).unwrap().len(), 1);
    assert!(snapshot.diagnostics_noted(false, FileId(1), vec![]).is_ok());
    assert!(snapshot.parent_module_noted(false, position).is_ok());
    assert!(snapshot.crate_for_noted(false, FileId(1)).is_ok());
    assert!(snapshot
        .approximately_resolve_symbol_noted(
            false,
            position,
            NameAt::NameRef { name_ref: name_ref("other", 24, 29), function: Some(0) },
        )
        .unwrap()
        .is_some());
    assert!(snapshot.find_all_refs_noted(false, position, BindingAt::Nothing).unwrap().is_empty());
    assert_eq!(snapshot.resolve_callable_noted(false, position, None).unwrap(), None);

    // told of the signal, each gives up and the snapshot stays so
    let mut told = host.analysis();
    assert!(told.diagnostics_noted(true, FileId(1), vec![]).is_err());
    assert!(told.diagnostics_noted(false, FileId(1), vec![]).is_err());
    all_cancelled(&mut told);
    assert!(host.analysis().world_symbols_noted(true, Query::new("other".to_string())).is_err());
    assert!(host.analysis().index_resolve_noted(true, "other".to_string()).is_err());
    assert!(host.analysis().file_index_noted(true, FileId(2)).is_err());
    assert!(host.analysis().parent_module_noted(true, position).is_err());
    assert!(host.analysis().crate_for_noted(true, FileId(1)).is_err());
    assert!(host.analysis().find_all_refs_noted(true, position, BindingAt::Nothing).is_err());
    assert!(host.analysis().resolve_callable_noted(true, position, None).is_err());
    assert!(host
        .analysis()
        .approximately_resolve_symbol_noted(true, position, NameAt::Nothing)
        .is_err());
}

#[test]
fn host_keeps_what_it_computed_through_a_change_elsewhere() {
    let mut host = fn_host();
    let index = host.file_symbols(FileId(2)).unwrap();
    let tree = host.module_tree(SourceRootId(1)).unwrap();
    let map = host.item_map(SourceRootId(1)).unwrap();

    // another root comes with a file of its own, which brings no item
    let mut change = AnalysisChange::new();
    change.new_roots.push((SourceRootId(2), true));
    change.roots_changed.push((
        SourceRootId(2),
        RootChange { added: vec![file(9, &[], "main", vec![sym("main", 0, 4, SyntaxKind::FnDef)], vec![])], removed: vec![] },
    ));
    host.apply_change(change);
    assert!(std::sync::Arc::ptr_eq(&index, &host.file_symbols(FileId(2)).unwrap()));
    assert!(std::sync::Arc::ptr_eq(&tree, &host.module_tree(SourceRootId(1)).unwrap()));
    // the new file was given an identity: the map is built again, and is the same
    assert_eq!(host.item_map(SourceRootId(1)).unwrap(), map);

    // a change that brings no identity leaves the map itself in place
    let map = host.item_map(SourceRootId(1)).unwrap();
    host.apply_change(AnalysisChange::new());
    assert!(std::sync::Arc::ptr_eq(&map, &host.item_map(SourceRootId(1)).unwrap()));
    // and the snapshots of the host answer from what the host holds
    let found = host.analysis().index_resolve("other".to_string()).unwrap();
    assert_eq!(found, vec![(FileId(2), sym("other", 0, 10, SyntaxKind::FnDef))]);
}
