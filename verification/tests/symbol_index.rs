use std::sync::Arc;

use ra_analysis::base::{FileId, FileSymbol, SyntaxKind, TextRange};
use ra_analysis::symbol_index::{Query, SymbolIndex};

fn sym(name: &str, start: u32, end: u32, kind: SyntaxKind) -> FileSymbol {
    FileSymbol { name: name.to_string(), node_range: TextRange { start, end }, kind }
}

fn names(index: &SymbolIndex) -> Vec<String> {
    let mut out = Vec::new();
    let mut i = 0;
    while let Some(entry) = index.get(i) {
        out.push(entry.1.name.clone());
        i += 1;
    }
    out
}

#[test]
fn index_is_sorted_by_lowercased_name() {
    let index = SymbolIndex::for_file(
        FileId(1),
        vec![
            sym("zeta", 0, 4, SyntaxKind::FnDef),
            sym("Alpha", 5, 10, SyntaxKind::StructDef),
            sym("beta", 11, 15, SyntaxKind::FnDef),
        ],
    );
    assert_eq!(index.len(), 3);
    assert_eq!(names(&index), vec!["Alpha".to_string(), "beta".to_string(), "zeta".to_string()]);
}

#[test]
fn index_keeps_the_first_of_equal_lowercased_names() {
    let index = SymbolIndex::for_files(vec![
        (FileId(1), vec![sym("Foo", 0, 3, SyntaxKind::StructDef), sym("bar", 4, 7, SyntaxKind::FnDef)]),
        (FileId(2), vec![sym("foo", 0, 3, SyntaxKind::FnDef), sym("FOO", 9, 12, SyntaxKind::ConstDef)]),
    ]);
    assert_eq!(index.len(), 2);
    assert_eq!(names(&index), vec!["bar".to_string(), "Foo".to_string()]);
    assert_eq!(index.get(1).unwrap().0, FileId(1));
    assert!(index.get(2).is_none());
}

#[test]
fn exact_search_with_limit_finds_both_files() {
    let a = Arc::new(SymbolIndex::for_file(FileId(1), vec![sym("foo", 3, 6, SyntaxKind::FnDef)]));
    let b = Arc::new(SymbolIndex::for_file(FileId(2), vec![sym("foo", 10, 13, SyntaxKind::FnDef)]));
    let mut query = Query::new("foo".to_string());
    query.exact();
    query.limit(4);
    let mut res = query.search(&vec![a, b]);
    res.sort_by_key(|e| e.0 .0);
    assert_eq!(res.len(), 2);
    assert_eq!(res[0], (FileId(1), sym("foo", 3, 6, SyntaxKind::FnDef)));
    assert_eq!(res[1], (FileId(2), sym("foo", 10, 13, SyntaxKind::FnDef)));
}

#[test]
fn search_matches_subsequences_in_lower_case() {
    let a = Arc::new(SymbolIndex::for_file(
        FileId(1),
        vec![
            sym("FooBar", 0, 6, SyntaxKind::StructDef),
            sym("frob", 7, 11, SyntaxKind::FnDef),
            sym("quux", 12, 16, SyntaxKind::FnDef),
        ],
    ));
    let query = Query::new("FB".to_string());
    let res = query.search(&vec![a.clone()]);
    let found: Vec<String> = res.iter().map(|e| e.1.name.clone()).collect();
    assert_eq!(found, vec!["FooBar".to_string(), "frob".to_string()]);

    let mut types = Query::new("fb".to_string());
    types.only_types();
    let res = types.search(&vec![a.clone()]);
    assert_eq!(res.len(), 1);
    assert_eq!(res[0].1.name, "FooBar");

    let mut exact = Query::new("frob".to_string());
    exact.exact();
    let res = exact.search(&vec![a]);
    assert_eq!(res.len(), 1);
    assert_eq!(res[0].1.kind, SyntaxKind::FnDef);
}

#[test]
fn search_stops_at_the_limit() {
    let a = Arc::new(SymbolIndex::for_file(
        FileId(1),
        vec![
            sym("aa", 0, 1, SyntaxKind::FnDef),
            sym("ab", 2, 3, SyntaxKind::FnDef),
            sym("ac", 4, 5, SyntaxKind::FnDef),
        ],
    ));
    let mut query = Query::new("a".to_string());
    query.limit(2);
    let res = query.search(&vec![a.clone()]);
    let found: Vec<String> = res.iter().map(|e| e.1.name.clone()).collect();
    assert_eq!(found, vec!["aa".to_string(), "ab".to_string()]);

    let mut none = Query::new("a".to_string());
    none.limit(0);
    assert!(none.search(&vec![a]).is_empty());
}

#[test]
fn collect_skips_pairs_that_name_nothing() {
    let a = Arc::new(SymbolIndex::for_file(FileId(7), vec![sym("x", 0, 1, SyntaxKind::FnDef)]));
    let query = Query::new("x".to_string());
    let groups = vec![vec![(0usize, 0u64), (0, 5), (3, 0)], vec![(0, 0)]];
    let res = query.collect(&vec![a], &groups);
    assert_eq!(res.len(), 2);
    assert_eq!(res[0].0, FileId(7));
}

#[test]
fn names_beyond_ascii_are_ordered_and_found() {
    let index = Arc::new(SymbolIndex::for_file(
        FileId(1),
        vec![
            sym("zeta", 0, 1, SyntaxKind::FnDef),
            sym("École", 2, 3, SyntaxKind::StructDef),
            sym("日本語", 4, 5, SyntaxKind::FnDef),
            sym("Ünïcode", 6, 7, SyntaxKind::FnDef),
            sym("école", 8, 9, SyntaxKind::FnDef),
            sym("𝒳", 10, 11, SyntaxKind::FnDef),
            sym("a", 12, 13, SyntaxKind::FnDef),
        ],
    ));
    assert_eq!(
        names(&index),
        vec!["a".to_string(), "zeta".to_string(), "École".to_string(), "Ünïcode".to_string(), "日本語".to_string(), "𝒳".to_string()]
    );
    let found = Query::new("ÉCOLE".to_string()).search(&vec![index.clone()]);
    assert_eq!(found.len(), 1);
    assert_eq!(found[0].1.name, "École");
    let found = Query::new("本".to_string()).search(&vec![index.clone()]);
    assert_eq!(found.len(), 1);
    assert_eq!(found[0].1.name, "日本語");
    let all = Query::new(String::new()).search(&vec![index]);
    assert_eq!(all.len(), 6);
}

#[test]
fn equal_indices_hold_the_same_symbols() {
    let a = SymbolIndex::for_file(FileId(1), vec![sym("b", 0, 1, SyntaxKind::FnDef), sym("a", 2, 3, SyntaxKind::FnDef)]);
    let b = SymbolIndex::for_file(FileId(1), vec![sym("a", 2, 3, SyntaxKind::FnDef), sym("b", 0, 1, SyntaxKind::FnDef)]);
    let c = SymbolIndex::for_file(FileId(2), vec![sym("a", 2, 3, SyntaxKind::FnDef), sym("b", 0, 1, SyntaxKind::FnDef)]);
    assert!(a.same_symbols(&b));
    assert!(!a.same_symbols(&c));
    assert!(!a.same_symbols(&SymbolIndex::for_file(FileId(1), vec![])));
}

#[test]
fn limit_cuts_within_the_symbols_of_one_name() {
    let a = Arc::new(SymbolIndex::for_file(FileId(1), vec![sym("foo", 0, 11, SyntaxKind::FnDef)]));
    let b = Arc::new(SymbolIndex::for_file(FileId(2), vec![sym("foo", 0, 11, SyntaxKind::FnDef)]));
    let indices = vec![a, b];
    let mut query = Query::new("foo".to_string());
    query.exact();
    query.limit(1);
    let found = query.search(&indices);
    assert_eq!(found.len(), 1);
    assert_eq!(found[0].1, sym("foo", 0, 11, SyntaxKind::FnDef));

    let mut both = Query::new("foo".to_string());
    both.exact();
    both.limit(2);
    assert_eq!(both.search(&indices).len(), 2);
    let mut more = Query::new("foo".to_string());
    more.exact();
    more.limit(3);
    assert_eq!(more.search(&indices).len(), 2);
}

#[test]
fn collect_stops_in_the_middle_of_a_group() {
    let a = Arc::new(SymbolIndex::for_file(FileId(1), vec![sym("a", 0, 1, SyntaxKind::FnDef)]));
    let b = Arc::new(SymbolIndex::for_file(FileId(2), vec![sym("a", 0, 1, SyntaxKind::StructDef)]));
    let c = Arc::new(SymbolIndex::for_file(FileId(3), vec![sym("a", 0, 1, SyntaxKind::EnumDef)]));
    let indices = vec![a, b, c];
    let groups = vec![vec![(0usize, 0u64), (1, 0), (2, 0)]];
    let mut query = Query::new("a".to_string());
    query.limit(2);
    let found = query.collect(&indices, &groups);
    assert_eq!(found.len(), 2);
    assert_eq!(found[0].0, FileId(1));
    assert_eq!(found[1].0, FileId(2));
    query.only_types();
    let types = query.collect(&indices, &groups);
    assert_eq!(types.len(), 2);
    assert_eq!(types[0].0, FileId(2));
    assert_eq!(types[1].0, FileId(3));
}
