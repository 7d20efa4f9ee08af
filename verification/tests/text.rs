use ra_analysis::base::{FileId, FilePosition, FileSymbol, SyntaxKind, TextRange};
use ra_analysis::imp::AnalysisHostImpl;
use ra_analysis::input::{CrateGraph, SourceRoot};
use ra_analysis::source_change::{AtomTextEdit, LocalEdit, ReferenceResolution, SourceChange, SourceFileEdit, TextEdit};
use ra_analysis::symbol_index::is_type;
use ra_analysis::syntax::SourcePath;
use ra_analysis::text::count_commas;

fn path(dir: &[&str], stem: &str) -> SourcePath {
    SourcePath { dir: dir.iter().map(|s| s.to_string()).collect(), stem: stem.to_string() }
}

#[test]
fn commas_are_counted_up_to_the_offset() {
    assert_eq!(count_commas("(a, b, c)", 0), 0);
    assert_eq!(count_commas("(a, b, c)", 2), 0);
    assert_eq!(count_commas("(a, b, c)", 3), 1);
    assert_eq!(count_commas("(a, b, c)", 9), 2);
    assert_eq!(count_commas("(a, b, c)", 100), 2);
    assert_eq!(count_commas("", 5), 0);
    assert_eq!(count_commas(",,,", 2), 2);
    // offsets count bytes: "é" takes two
    assert_eq!(count_commas("(é,1)", 3), 0);
    assert_eq!(count_commas("(é,1)", 4), 1);
}

#[test]
fn a_type_is_a_struct_an_enum_a_trait_or_an_alias() {
    for kind in [SyntaxKind::StructDef, SyntaxKind::EnumDef, SyntaxKind::TraitDef, SyntaxKind::TypeDef] {
        assert!(is_type(kind));
    }
    for kind in [SyntaxKind::FnDef, SyntaxKind::ConstDef, SyntaxKind::StaticDef, SyntaxKind::Module, SyntaxKind::Name] {
        assert!(!is_type(kind));
    }
}

#[test]
fn ranges() {
    let r = TextRange::from_to(3, 8);
    assert_eq!(r, TextRange { start: 3, end: 8 });
    assert_eq!(TextRange::offset_len(3, 5), r);
    assert!(r.covers(TextRange { start: 3, end: 8 }));
    assert!(r.covers(TextRange { start: 4, end: 4 }));
    assert!(!r.covers(TextRange { start: 2, end: 4 }));
    assert!(!r.covers(TextRange { start: 4, end: 9 }));
    assert!(r.touches(3) && r.touches(8) && !r.touches(9) && !r.touches(2));
}

#[test]
fn symbols_are_equal_by_all_fields() {
    let a = FileSymbol { name: "a".to_string(), node_range: TextRange { start: 0, end: 1 }, kind: SyntaxKind::FnDef };
    assert!(a.is_same(&a.duplicate()));
    assert_eq!(a.clone(), a);
    assert!(!a.is_same(&FileSymbol { name: "b".to_string(), ..a.clone() }));
    assert!(!a.is_same(&FileSymbol { kind: SyntaxKind::Name, ..a.clone() }));
    assert!(!a.is_same(&FileSymbol { node_range: TextRange { start: 0, end: 2 }, ..a.clone() }));
}

#[test]
fn paths() {
    let p = path(&["a", "b"], "c");
    assert!(p.is_same(&p.duplicate()));
    assert!(!p.is_same(&path(&["a"], "c")));
    assert!(!p.is_same(&path(&["a", "x"], "c")));
    assert!(!p.is_same(&path(&["a", "b"], "d")));
    assert_eq!(p.with_stem(&"z".to_string()), path(&["a", "b"], "z"));
    assert_eq!(p.below(&"d".to_string(), &"mod".to_string()), path(&["a", "b", "d"], "mod"));
    assert_eq!(p.join(&path(&["x"], "y")), path(&["a", "b", "x"], "y"));
    assert_eq!(p.join(&path(&[], "y")), path(&["a", "b"], "y"));
}

#[test]
fn source_root_holds_one_file_per_path() {
    let mut root = SourceRoot::new();
    root.insert(path(&[], "lib"), FileId(1));
    root.insert(path(&["a"], "b"), FileId(2));
    root.insert(path(&[], "lib"), FileId(3));
    assert_eq!(root.files.len(), 2);
    assert_eq!(root.get(&path(&[], "lib")), Some(FileId(3)));
    assert_eq!(root.get(&path(&["a"], "b")), Some(FileId(2)));
    assert_eq!(root.get(&path(&["a"], "c")), None);
    assert_eq!(root.position(&path(&["a"], "b")), Some(1));
    let copy = root.duplicate();
    root.remove(&path(&[], "lib"));
    root.remove(&path(&[], "lib"));
    assert_eq!(root.files, vec![(path(&["a"], "b"), FileId(2))]);
    assert_eq!(copy.files.len(), 2);
}

#[test]
fn crate_graph_numbers_its_crates() {
    let mut graph = CrateGraph::new();
    let a = graph.add_crate_root(FileId(10)).unwrap();
    let b = graph.add_crate_root(FileId(20)).unwrap();
    assert_eq!((a.0, b.0), (0, 1));
    assert_eq!(graph.crate_root(b), Some(FileId(20)));
    assert_eq!(graph.crate_id_for_crate_root(FileId(10)), Some(a));
    assert_eq!(graph.crate_id_for_crate_root(FileId(30)), None);
    graph.add_dep(a, "b".to_string(), b);
    graph.add_dep(b, "core".to_string(), a);
    graph.add_dep(a, "alloc".to_string(), a);
    assert_eq!(graph.dependencies(a), vec![("b".to_string(), b), ("alloc".to_string(), a)]);
    assert_eq!(graph.dependencies(b), vec![("core".to_string(), a)]);
    assert_eq!(graph.crate_root(a), Some(FileId(10)));
}

#[test]
fn local_edit_becomes_a_change_of_its_file() {
    let edit = LocalEdit {
        label: "flip comma".to_string(),
        edit: TextEdit { atoms: vec![AtomTextEdit { delete: TextRange { start: 1, end: 2 }, insert: "b".to_string() }] },
        cursor_position: Some(9),
    };
    let change = SourceChange::from_local_edit(FileId(4), edit);
    assert_eq!(change.label, "flip comma");
    assert_eq!(
        change.source_file_edits,
        vec![SourceFileEdit {
            file_id: FileId(4),
            edit: TextEdit { atoms: vec![AtomTextEdit { delete: TextRange { start: 1, end: 2 }, insert: "b".to_string() }] },
        }]
    );
    assert!(change.file_system_edits.is_empty());
    assert_eq!(change.cursor_position, Some(FilePosition { file_id: FileId(4), offset: 9 }));
    let plain = SourceChange::from_local_edit(
        FileId(4),
        LocalEdit { label: "x".to_string(), edit: TextEdit { atoms: vec![] }, cursor_position: None },
    );
    assert_eq!(plain.cursor_position, None);
}

#[test]
fn assists_keep_the_edits_that_were_proposed() {
    let host = AnalysisHostImpl::new();
    let analysis = host.analysis();
    let edit = |label: &str| LocalEdit { label: label.to_string(), edit: TextEdit { atoms: vec![] }, cursor_position: None };
    let changes = analysis.assists(FileId(2), vec![None, Some(edit("add derive")), None, Some(edit("make pub")), None]);
    let labels: Vec<&str> = changes.iter().map(|c| c.label.as_str()).collect();
    assert_eq!(labels, vec!["add derive", "make pub"]);
    assert_eq!(changes[0].source_file_edits[0].file_id, FileId(2));
    assert!(analysis.assists(FileId(2), vec![None, None]).is_empty());
}

#[test]
fn doc_text_puts_the_description_in_a_code_block() {
    let host = AnalysisHostImpl::new();
    let analysis = host.analysis();
    assert_eq!(
        analysis.doc_text_for(Some("fn f()".to_string()), Some("Does f.".to_string())),
        Some("```rust\nfn f()\n```\n\nDoes f.".to_string())
    );
    assert_eq!(analysis.doc_text_for(Some("fn f()".to_string()), None), Some("```rust\nfn f()\n```".to_string()));
    assert_eq!(analysis.doc_text_for(None, Some("Does f.".to_string())), Some("Does f.".to_string()));
    assert_eq!(analysis.doc_text_for(None, None), None);
}

#[test]
fn resolution_collects_symbols() {
    let mut rr = ReferenceResolution::new(TextRange { start: 1, end: 4 });
    assert!(rr.resolves_to.is_empty());
    let s = FileSymbol { name: "a".to_string(), node_range: TextRange { start: 0, end: 1 }, kind: SyntaxKind::FnDef };
    rr.add_resolution(FileId(1), s.clone());
    assert_eq!(rr.reference_range, TextRange { start: 1, end: 4 });
    assert_eq!(rr.resolves_to, vec![(FileId(1), s)]);
}
