use std::sync::Arc;

use ra_analysis::base::{FileId, SourceRootId, TextRange};
use ra_analysis::module::{
    module_source_at, module_tree, modules, resolve_submodule, submodules, Problem, Submodule,
};
use ra_analysis::syntax::{FileData, ItemKind, ModuleSource, SourceFile, SourceItem, SourcePath};

fn r(start: u32, end: u32) -> TextRange {
    TextRange { start, end }
}

fn path(dir: &[&str], stem: &str) -> SourcePath {
    SourcePath { dir: dir.iter().map(|s| s.to_string()).collect(), stem: stem.to_string() }
}

fn module_item(name: Option<&str>, start: u32, end: u32, has_semi: bool, parent: Option<usize>) -> SourceItem {
    SourceItem {
        kind: ItemKind::Module { has_semi },
        name: name.map(|n| n.to_string()),
        name_range: r(start + 4, start + 7),
        range: r(start, end),
        parent,
    }
}

fn other_item(name: &str, start: u32, end: u32, parent: Option<usize>) -> SourceItem {
    SourceItem {
        kind: ItemKind::Other { syntax_kind: ra_analysis::base::SyntaxKind::StructDef },
        name: Some(name.to_string()),
        name_range: r(start, start + 1),
        range: r(start, end),
        parent,
    }
}

fn file(id: u32, dir: &[&str], stem: &str, items: Vec<SourceItem>) -> Arc<FileData> {
    Arc::new(FileData {
        file_id: FileId(id),
        source_root: SourceRootId(1),
        path: path(dir, stem),
        text: String::new(),
        syntax: SourceFile { symbols: vec![], items },
        changed_at: 0,
    })
}

fn lib_items() -> Vec<SourceItem> {
    vec![
        module_item(Some("foo"), 0, 8, true, None),
        other_item("S", 10, 20, None),
        module_item(Some("inner"), 30, 80, false, None),
        module_item(Some("deep"), 40, 49, true, Some(2)),
        module_item(None, 50, 60, false, Some(2)),
        module_item(Some("nested"), 60, 75, false, Some(2)),
    ]
}

#[test]
fn modules_are_the_named_module_items_of_the_parent() {
    let items = lib_items();
    assert_eq!(modules(&items, None), vec![0, 2]);
    assert_eq!(modules(&items, Some(2)), vec![3, 5]);
    assert!(modules(&items, Some(5)).is_empty());
}

#[test]
fn submodules_are_declarations_or_definitions() {
    let items = lib_items();
    assert_eq!(
        submodules(ModuleSource::File(FileId(1)), &items),
        vec![
            Submodule::Declaration("foo".to_string()),
            Submodule::Definition("inner".to_string(), ModuleSource::Inline(FileId(1), 2)),
        ]
    );
    assert_eq!(
        submodules(ModuleSource::Inline(FileId(1), 2), &items),
        vec![
            Submodule::Declaration("deep".to_string()),
            Submodule::Definition("nested".to_string(), ModuleSource::Inline(FileId(1), 5)),
        ]
    );
}

#[test]
fn declaration_resolves_beside_the_file_or_in_a_directory() {
    let files = vec![
        file(1, &[], "lib", vec![]),
        file(2, &[], "foo", vec![]),
        file(3, &["bar"], "mod", vec![]),
        file(4, &["foo"], "mod", vec![]),
    ];
    let lib = path(&[], "lib");
    let (found, problem) = resolve_submodule(&files, &lib, &"foo".to_string());
    assert_eq!(found, vec![1, 3]);
    assert_eq!(problem, None);
    let (found, problem) = resolve_submodule(&files, &lib, &"bar".to_string());
    assert_eq!(found, vec![2]);
    assert_eq!(problem, None);
    let (found, problem) = resolve_submodule(&files, &lib, &"baz".to_string());
    assert!(found.is_empty());
    assert_eq!(problem, Some(Problem::UnresolvedModule { candidate: path(&[], "baz") }));
    let (found, problem) = resolve_submodule(&files, &path(&["a"], "b"), &"c".to_string());
    assert!(found.is_empty());
    assert_eq!(
        problem,
        Some(Problem::NotDirOwner { move_to: path(&["a", "b"], "mod"), candidate: path(&[], "c") })
    );
    for owner in ["mod", "lib", "main"] {
        assert!(path(&["x"], owner).is_dir_owner());
    }
    assert!(!path(&["x"], "modx").is_dir_owner());
}

#[test]
fn tree_links_files_and_inline_modules() {
    let files = vec![file(1, &[], "lib", lib_items()), file(2, &[], "foo", vec![]), file(3, &[], "orphan", vec![])];
    let tree = module_tree(&files);
    let sources: Vec<ModuleSource> = tree.mods.iter().map(|m| m.source).collect();
    assert_eq!(
        sources,
        vec![
            ModuleSource::File(FileId(1)),
            ModuleSource::Inline(FileId(1), 2),
            ModuleSource::Inline(FileId(1), 5),
            ModuleSource::File(FileId(2)),
            ModuleSource::File(FileId(3)),
        ]
    );
    let parents: Vec<Option<usize>> = tree.mods.iter().map(|m| m.parent).collect();
    assert_eq!(parents, vec![None, Some(1), Some(3), Some(0), None]);
    assert_eq!(tree.links.len(), 4);
    assert_eq!((tree.links[0].owner, tree.links[0].decl, tree.links[0].name.as_str()), (0, 0, "foo"));
    assert_eq!(tree.links[0].points_to, vec![3]);
    assert_eq!(tree.links[1].points_to, vec![1]);
    assert_eq!((tree.links[2].owner, tree.links[2].name.as_str()), (1, "deep"));
    assert!(tree.links[2].points_to.is_empty());
    assert_eq!(tree.links[2].problem, Some(Problem::UnresolvedModule { candidate: path(&[], "deep") }));
    assert_eq!(tree.links[3].points_to, vec![2]);
    assert_eq!(tree.find_module(ModuleSource::File(FileId(2))), Some(3));
    assert_eq!(tree.find_module(ModuleSource::File(FileId(9))), None);
    assert_eq!(tree.crate_root(2), 0);
    assert_eq!(tree.crate_root(4), 4);
    assert_eq!(tree.find_link(1, 3), Some(2));
    assert_eq!(tree.find_link(0, 3), None);
    let problems = tree.problems(1, &files[0].syntax.items);
    assert_eq!(problems, vec![(r(44, 47), Problem::UnresolvedModule { candidate: path(&[], "deep") })]);
    assert!(tree.problems(0, &files[0].syntax.items).is_empty());
    assert!(tree.is_same(&module_tree(&files)));
    assert!(!tree.is_same(&module_tree(&files[..2].to_vec())));
}

#[test]
fn parent_chain_that_loops_is_followed_for_a_bounded_number_of_steps() {
    // a declares b, and b declares a
    let files = vec![
        file(1, &[], "mod", vec![module_item(Some("x"), 0, 6, true, None)]),
        file(2, &["x"], "mod", vec![module_item(Some("y"), 0, 6, true, None)]),
    ];
    let mut tree = module_tree(&files);
    assert_eq!(tree.mods[1].parent, Some(0));
    // close the loop by hand: the first module hangs below a link of the second
    tree.mods[0].parent = Some(1);
    let top = tree.crate_root(0);
    assert!(top < 2);
}

#[test]
fn position_lies_in_the_innermost_module() {
    let items = lib_items();
    let file_id = FileId(1);
    assert_eq!(module_source_at(file_id, &items, 25), ModuleSource::File(file_id));
    assert_eq!(module_source_at(file_id, &items, 35), ModuleSource::Inline(file_id, 2));
    assert_eq!(module_source_at(file_id, &items, 70), ModuleSource::Inline(file_id, 5));
    // on a declaration, the position lies in the file
    assert_eq!(module_source_at(file_id, &items, 45), ModuleSource::File(file_id));
    // the module without a name does not count
    assert_eq!(module_source_at(file_id, &items, 55), ModuleSource::Inline(file_id, 2));
}
