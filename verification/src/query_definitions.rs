//! The derived queries of the semantic model: what is computed from the
//! inputs of the database for a definition, a file, a module or a root.

use std::sync::Arc;
use vstd::prelude::*;
use crate::base::{Canceled, DefId, FileId, SourceRootId, SyntaxKind, TextRange};
use crate::db::RootDatabase;
use crate::model::{is_input_of, item_map_for, items_of_source, tree_of, Inputs};
use crate::intern::{DefKind, DefLoc, SourceItemId};
use crate::module::{submodules_spec, ModuleTree, Submodule};
use crate::nameres::{InputModuleItems, ItemMap};
use crate::scope::{BodyEvent, FnScopes, ScopesModel};
use crate::syntax::{FileData, ItemKind, ModuleSource, SourceItem};

verus! {

/// The walk through the body of the function at item `item` of the file.
pub open spec fn function_body(inputs: Inputs, file_id: FileId, item: usize) -> Option<Seq<BodyEvent>> {
    if inputs.files.contains_key(file_id.0) && item < inputs.files[file_id.0].items.len()
        && inputs.files[file_id.0].items[item as int].kind is Function {
        Some(inputs.files[file_id.0].items[item as int].kind->body@)
    } else {
        None
    }
}

/// The item that an identity of the given kind stands for: the file, and
/// the position of the item in it.
pub open spec fn item_of_def(defs: Seq<DefLoc>, def_id: DefId, kind: DefKind) -> Option<(FileId, usize)> {
    if def_id.0 < defs.len() && defs[def_id.0 as int].kind == kind
        && defs[def_id.0 as int].source_item_id.item_id.is_some() {
        Some(
            (
                defs[def_id.0 as int].source_item_id.file_id,
                defs[def_id.0 as int].source_item_id.item_id->Some_0 as usize,
            ),
        )
    } else {
        None
    }
}

/// The walk through the body of the function that an identity stands for.
pub open spec fn body_of_def(db: RootDatabase, def_id: DefId) -> Option<Seq<BodyEvent>> {
    match item_of_def(db.defs(), def_id, DefKind::Function) {
        Some((file_id, item)) => function_body(db@, file_id, item),
        None => None,
    }
}

/// The item that an identity of the given kind stands for.
fn item_for(db: &RootDatabase, def_id: DefId, kind: DefKind) -> (r: Option<(Arc<FileData>, usize)>)
    requires
        db.inv(),
    ensures
        match r {
            Some((file, item)) => item_of_def(db.defs(), def_id, kind) == Some((file.file_id, item))
                && db@.files.contains_key(file.file_id.0) && file@ == db@.files[file.file_id.0] && item
                < file.syntax.items@.len(),
            None => match item_of_def(db.defs(), def_id, kind) {
                Some((file_id, item)) => !db@.files.contains_key(file_id.0) || item
                    >= db@.files[file_id.0].items.len(),
                None => true,
            },
        },
{
    let loc = match db.interner().try_lookup(def_id) {
        Some(loc) => loc,
        None => {
            return None;
        },
    };
    if !(loc.kind == kind) {
        return None;
    }
    let item = match loc.source_item_id.item_id {
        Some(i) => i as usize,
        None => {
            return None;
        },
    };
    match db.file_data(loc.source_item_id.file_id) {
        Some(file) => {
            if item < file.syntax.items.len() {
                Some((file, item))
            } else {
                None
            }
        },
        None => None,
    }
}

/// The scopes of the function that an identity stands for. The identity
/// must stand for a function of a file that was added.
pub fn fn_scopes(db: &RootDatabase, def_id: DefId) -> (scopes: FnScopes)
    requires
        db.inv(),
        body_of_def(*db, def_id) is Some,
    ensures
        scopes.model() == ScopesModel::of(body_of_def(*db, def_id)->Some_0),
{
    match item_for(db, def_id, DefKind::Function) {
        Some((file, item)) => match &file.syntax.items[item].kind {
            ItemKind::Function { has_self: _, params: _, body } => FnScopes::new(body),
            _ => vstd::pervasive::unreached(),
        },
        None => vstd::pervasive::unreached(),
    }
}

/// What is known of a struct: its name.
#[derive(Debug, PartialEq, Eq)]
pub struct StructData {
    pub name: Option<String>,
}

/// What is known of an enum: its name.
#[derive(Debug, PartialEq, Eq)]
pub struct EnumData {
    pub name: Option<String>,
}

/// The item of the given syntactic kind that an identity of the given kind
/// stands for.
pub open spec fn adt_of_def(db: RootDatabase, def_id: DefId, kind: DefKind, syntax_kind: SyntaxKind) -> Option<
    SourceItem,
> {
    match item_of_def(db.defs(), def_id, kind) {
        Some((file_id, item)) => if db@.files.contains_key(file_id.0) && item
            < db@.files[file_id.0].items.len() && db@.files[file_id.0].items[item as int].kind == (
            ItemKind::Other { syntax_kind }) {
            Some(db@.files[file_id.0].items[item as int])
        } else {
            None
        },
        None => None,
    }
}

/// The name of the item of the given syntactic kind behind an identity.
fn adt_name(db: &RootDatabase, def_id: DefId, kind: DefKind, syntax_kind: SyntaxKind) -> (r: Option<
    Option<String>,
>)
    requires
        db.inv(),
    ensures
        match r {
            Some(name) => adt_of_def(*db, def_id, kind, syntax_kind) matches Some(item) && name
                == item.name,
            None => adt_of_def(*db, def_id, kind, syntax_kind).is_none(),
        },
{
    match item_for(db, def_id, kind) {
        Some((file, item)) => match &file.syntax.items[item].kind {
            ItemKind::Other { syntax_kind: found } => if *found == syntax_kind {
                match &file.syntax.items[item].name {
                    Some(name) => Some(Some(name.clone())),
                    None => Some(None),
                }
            } else {
                None
            },
            _ => None,
        },
        None => None,
    }
}

/// What is known of the struct that an identity stands for. The identity
/// must stand for a struct of a file that was added.
pub fn struct_data(db: &RootDatabase, def_id: DefId) -> (data: StructData)
    requires
        db.inv(),
        adt_of_def(*db, def_id, DefKind::Struct, SyntaxKind::StructDef) is Some,
    ensures
        data.name == adt_of_def(*db, def_id, DefKind::Struct, SyntaxKind::StructDef)->Some_0.name,
{
    match adt_name(db, def_id, DefKind::Struct, SyntaxKind::StructDef) {
        Some(name) => StructData { name },
        None => vstd::pervasive::unreached(),
    }
}

/// What is known of the enum that an identity stands for. The identity must
/// stand for an enum of a file that was added.
pub fn enum_data(db: &RootDatabase, def_id: DefId) -> (data: EnumData)
    requires
        db.inv(),
        adt_of_def(*db, def_id, DefKind::Enum, SyntaxKind::EnumDef) is Some,
    ensures
        data.name == adt_of_def(*db, def_id, DefKind::Enum, SyntaxKind::EnumDef)->Some_0.name,
{
    match adt_name(db, def_id, DefKind::Enum, SyntaxKind::EnumDef) {
        Some(name) => EnumData { name },
        None => vstd::pervasive::unreached(),
    }
}

/// The items of a file: where each of them stands, in source order.
#[derive(Debug, PartialEq, Eq)]
pub struct SourceFileItems {
    pub file_id: FileId,
    pub ranges: Vec<TextRange>,
}

/// Where each item stands.
pub open spec fn ranges_of(items: Seq<SourceItem>) -> Seq<TextRange> {
    Seq::new(items.len(), |i: int| items[i].range)
}

/// The items of a file; none for a file that was never added.
pub fn file_items(db: &RootDatabase, file_id: FileId) -> (res: SourceFileItems)
    requires
        db.inv(),
    ensures
        res.file_id == file_id,
        res.ranges@ == if db@.files.contains_key(file_id.0) {
            ranges_of(db@.files[file_id.0].items)
        } else {
            Seq::empty()
        },
{
    let mut ranges: Vec<TextRange> = Vec::new();
    match db.file_data(file_id) {
        Some(file) => {
            let items = &file.syntax.items;
            let mut i: usize = 0;
            while i < items.len()
                invariant
                    i <= items.len(),
                    ranges.len() == i,
                    forall|k: int| 0 <= k < i ==> ranges@[k] == items@[k].range,
                decreases items.len() - i,
            {
                ranges.push(items[i].range);
                i = i + 1;
            }
            assert(ranges@ =~= ranges_of(file@.items));
        },
        None => {},
    }
    SourceFileItems { file_id, ranges }
}

/// What an item identity names in its file.
#[derive(Clone, Copy, Debug, PartialEq, Eq, Structural)]
pub enum FileItem {
    /// The file as a whole.
    File(FileId),
    /// The item that stands at the range.
    Item(TextRange),
}

/// What an item identity names: the item at its position, or the file as a
/// whole where it has no position. Nothing for an item that the file does
/// not have.
pub fn file_item(db: &RootDatabase, source_item_id: SourceItemId) -> (r: Option<FileItem>)
    requires
        db.inv(),
    ensures
        r == match source_item_id.item_id {
            Some(id) => if db@.files.contains_key(source_item_id.file_id.0) && id
                < db@.files[source_item_id.file_id.0].items.len() {
                Some(FileItem::Item(db@.files[source_item_id.file_id.0].items[id as int].range))
            } else {
                None
            },
            None => Some(FileItem::File(source_item_id.file_id)),
        },
{
    match source_item_id.item_id {
        Some(id) => match db.file_data(source_item_id.file_id) {
            Some(file) => if (id as usize) < file.syntax.items.len() {
                Some(FileItem::Item(file.syntax.items[id as usize].range))
            } else {
                None
            },
            None => None,
        },
        None => Some(FileItem::File(source_item_id.file_id)),
    }
}

/// The submodules of the module at `source`, in source order; none for a
/// module of a file that was never added. They are cached with the revision
/// at which they last changed: an edit of the file that keeps them leaves
/// that revision as it is.
pub fn submodules(db: &mut RootDatabase, source: ModuleSource) -> (res: Result<Vec<Submodule>, Canceled>)
    requires
        old(db).inv(),
    ensures
        final(db).inv(),
        final(db)@ == old(db)@,
        final(db).is_canceled() == old(db).is_canceled(),
        final(db).memos() == old(db).memos(),
        match res {
            Ok(found) => {
                &&& !old(db).is_canceled()
                &&& found@ == submodules_spec(source, items_of_source(final(db)@, source))
                &&& crate::model::key_of_source(source) is Some ==> final(db).subs_stamp(source) == Some(
                    (
                        final(db)@.revision,
                        crate::engine::changed_at_after(
                            match old(db).subs_stamp(source) {
                                Some(stamp) => Some(stamp.1),
                                None => None,
                            },
                            match old(db).cached_subs(source) {
                                Some(previous) => crate::module::same_submodules(previous, found@),
                                None => false,
                            },
                            final(db)@.revision,
                        ),
                    ),
                )
            },
            Err(_) => old(db).is_canceled(),
        },
{
    db.submodules(source)
}

/// What a module holds before resolution; nothing for a module that the
/// tree of the root does not have.
pub fn input_module_items(db: &mut RootDatabase, source_root: SourceRootId, module_id: usize) -> (res:
    Result<Option<InputModuleItems>, Canceled>)
    requires
        old(db).inv(),
    ensures
        final(db).inv(),
        final(db)@ == old(db)@,
        final(db).is_canceled() == old(db).is_canceled(),
        final(db).defs() == old(db).defs(),
        match res {
            Ok(found) => !old(db).is_canceled() && exists|tree: ModuleTree|
                #![trigger tree_of(final(db)@, source_root, tree)]
                tree_of(final(db)@, source_root, tree) && match found {
                    Some(input) => module_id < tree.mods@.len() && is_input_of(
                        final(db)@,
                        tree.mods@[module_id as int].source,
                        input,
                    ),
                    None => module_id >= tree.mods@.len(),
                },
            Err(_) => old(db).is_canceled(),
        },
{
    let tree = match db.module_tree(source_root) {
        Ok(tree) => tree,
        Err(e) => {
            return Err(e);
        },
    };
    assert(tree_of(db@, source_root, *tree));
    if module_id >= tree.mods.len() {
        return Ok(None);
    }
    let input = db.module_input(tree.mods[module_id].source);
    Ok(Some(input))
}

/// The item map of a source root: for every module of its tree, what the
/// names of the module resolve to. The map is cached like every derived
/// value.
pub fn item_map(db: &mut RootDatabase, source_root: SourceRootId) -> (res: Result<Arc<ItemMap>, Canceled>)
    requires
        old(db).inv(),
    ensures
        final(db).inv(),
        final(db)@ == old(db)@,
        final(db).is_canceled() == old(db).is_canceled(),
        match res {
            Ok(map) => !old(db).is_canceled() && item_map_for(final(db)@, source_root, *map),
            Err(_) => old(db).is_canceled(),
        },
{
    db.item_map(source_root)
}

} // verus!
