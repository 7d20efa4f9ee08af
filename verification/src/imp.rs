//! The analysis: the host that owns the inputs and applies changes, and the
//! snapshots that answer queries.

use std::sync::Arc;
use vstd::prelude::*;
use crate::base::{Canceled, CrateId, FileId, FilePosition, FileSymbol, SourceRootId, SyntaxKind,
    TextRange};
use crate::cancel::CancelToken;
use crate::db::RootDatabase;
use crate::input::{crate_position, AnalysisChange};
use crate::model::{extends, item_map_for, symbols_of, tree_of, Inputs};
use crate::module::{file_problems, find_source, root_of, sources_of, ModuleTree};
use crate::nameres::ItemMap;
use crate::query_definitions::function_body;
use crate::scope::{BodyEvent, FnScopes, NameRef, ReferenceDescriptor, ScopeEntry, ScopesModel};
use crate::source_change::{are_diagnostics, file_diagnostics, is_local_change, Diagnostic, LocalEdit,
    ReferenceResolution, SourceChange, SyntaxDiagnostic};
use crate::symbol_index::{fst_union_matches, tables_of, Entry, Query, SymbolIndex};
use crate::syntax::{FileData, ItemKind, ModuleSource, SourceItem};
use crate::text::{count_byte, count_commas, lowercased, prefix_bytes, COMMA};

verus! {

/// The indices of the first `upto` library roots, as far as they have one.
pub open spec fn library_scope(inputs: Inputs, upto: int) -> Seq<Arc<SymbolIndex>>
    decreases upto,
{
    if upto <= 0 {
        Seq::empty()
    } else {
        let rest = library_scope(inputs, upto - 1);
        let root = inputs.library_roots[upto - 1];
        if inputs.library_symbols.contains_key(root.0) {
            rest.push(inputs.library_symbols[root.0])
        } else {
            rest
        }
    }
}

/// The files among the first `upto` of `ids` that were set.
pub open spec fn present_files(inputs: Inputs, ids: Seq<FileId>, upto: int) -> Seq<FileId>
    decreases upto,
{
    if upto <= 0 {
        Seq::empty()
    } else {
        let rest = present_files(inputs, ids, upto - 1);
        if inputs.files.contains_key(ids[upto - 1].0) {
            rest.push(ids[upto - 1])
        } else {
            rest
        }
    }
}

/// The files of the first `upto` local roots that were set, root after root.
pub open spec fn local_files(inputs: Inputs, upto: int) -> Seq<FileId>
    decreases upto,
{
    if upto <= 0 {
        Seq::empty()
    } else {
        let ids = crate::model::file_ids(inputs.root_entries(inputs.local_roots[upto - 1]));
        local_files(inputs, upto - 1) + present_files(inputs, ids, ids.len() as int)
    }
}

/// `indices` are what a search runs on: the indices of the libraries, or
/// the index of each file of the local roots.
pub open spec fn is_scope(inputs: Inputs, libs: bool, indices: Seq<Arc<SymbolIndex>>) -> bool {
    &&& forall|i: int| 0 <= i < indices.len() ==> (#[trigger] indices[i]).wf()
    &&& if libs {
        indices == library_scope(inputs, inputs.library_roots.len() as int)
    } else {
        let files = local_files(inputs, inputs.local_roots.len() as int);
        &&& indices.len() == files.len()
        &&& forall|i: int| 0 <= i < files.len() ==> symbols_of(inputs, files[i], *#[trigger] indices[i])
    }
}

/// `found` holds every symbol of the indices whose name is the text of the
/// query, unless it holds as many symbols as the limit of the query allows.
pub open spec fn holds_all_named(query: Query, indices: Seq<Arc<SymbolIndex>>, found: Seq<Entry>) -> bool {
    forall|i: int, v: int|
        0 <= i < indices.len() && 0 <= v < indices[i].entries().len() && (
        #[trigger] indices[i].entries()[v]).1.name@ == query.query@ ==> found.contains(
            indices[i].entries()[v],
        ) || found.len() == query.limit
}

/// `found` holds every symbol of the indices that passes the filters of the
/// query and whose lower-cased name holds the needle, unless it holds as
/// many symbols as the limit of the query allows.
pub open spec fn holds_all_matching(query: Query, indices: Seq<Arc<SymbolIndex>>, found: Seq<Entry>) -> bool {
    forall|i: int, v: int|
        0 <= i < indices.len() && 0 <= v < indices[i].entries().len() && query.accepts(
            #[trigger] indices[i].entries()[v],
        ) && crate::text::holds_needle(
            crate::symbol_index::key_of(indices[i].entries()[v]),
            query.lowercased@,
        ) ==> found.contains(indices[i].entries()[v]) || found.len() == query.limit
}

/// `found` is what the query finds in the world of `inputs`: what the search
/// collects from the indices in scope, never more than the limit, in the
/// rising order of the lower-cased names. Every symbol found holds the
/// needle in its lower-cased name, and no match is left out while the limit
/// is not reached.
pub open spec fn is_search_result(inputs: Inputs, query: Query, found: Seq<Entry>) -> bool {
    exists|indices: Seq<Arc<SymbolIndex>>|
        #![trigger is_scope(inputs, query.libs, indices)]
        {
            &&& is_scope(inputs, query.libs, indices)
            &&& found == query.collected(
                indices,
                fst_union_matches(tables_of(indices), query.lowercased@),
            )
            &&& crate::symbol_index::stream_exact(
                tables_of(indices),
                query.lowercased@,
                fst_union_matches(tables_of(indices), query.lowercased@),
            )
            &&& forall|k: int|
                0 <= k < found.len() ==> crate::text::holds_needle(
                    crate::symbol_index::key_of(#[trigger] found[k]),
                    query.lowercased@,
                )
            &&& found.len() <= query.limit
            &&& forall|k: int| 0 <= k < found.len() ==> query.accepts(#[trigger] found[k])
            &&& crate::symbol_index::rising(found)
            &&& crate::symbol_index::apart(indices) ==> crate::symbol_index::once(found)
            &&& holds_all_matching(query, indices, found)
            &&& query.finds_by_name() ==> holds_all_named(query, indices, found)
        }
}

/// `query` asks for the local symbols that are named exactly `name`, and for
/// four of them at most.
pub open spec fn is_exact_query(query: Query, name: Seq<char>) -> bool {
    &&& query.query@ == name
    &&& query.lowercased@ == lowercased(name)
    &&& query.exact
    &&& !query.only_types
    &&& !query.libs
    &&& query.limit == 4
}

/// `found` is what the index holds under the name `name`: the result of the
/// exact search for it, limited to four.
pub open spec fn is_index_resolution(inputs: Inputs, name: Seq<char>, found: Seq<Entry>) -> bool {
    exists|query: Query|
        #![trigger is_search_result(inputs, query, found)]
        is_exact_query(query, name) && is_search_result(inputs, query, found)
}

/// `found` are the diagnostics of the file: those of its syntax, and those of
/// the module declarations in it, read off the module tree of its root. A
/// file that was never added has only those of its syntax.
pub open spec fn is_file_diagnostics(
    inputs: Inputs,
    file_id: FileId,
    syntax: Seq<SyntaxDiagnostic>,
    found: Seq<Diagnostic>,
) -> bool {
    if inputs.files.contains_key(file_id.0) {
        let file = inputs.files[file_id.0];
        exists|tree: ModuleTree|
            #![trigger tree_of(inputs, file.source_root, tree)]
            tree_of(inputs, file.source_root, tree) && are_diagnostics(
                found,
                file_id,
                file.source_root,
                syntax,
                file_problems(tree, file),
            )
    } else {
        are_diagnostics(found, file_id, SourceRootId(0), syntax, Seq::empty())
    }
}

/// The module that declares the module at `m`, as a symbol of the file it
/// stands in: nothing for a module without a parent.
pub open spec fn is_parent_of(inputs: Inputs, tree: ModuleTree, m: int, found: Seq<Entry>) -> bool {
    match tree.mods@[m].parent {
        Some(l) => if l < tree.links@.len() && tree.links@[l as int].owner < tree.mods@.len() {
            let link = tree.links@[l as int];
            let owner = tree.mods@[link.owner as int].source.file_id();
            &&& found.len() == 1
            &&& found[0].0 == owner
            &&& found[0].1.name == link.name
            &&& found[0].1.kind == SyntaxKind::Module
            &&& found[0].1.node_range == if inputs.files.contains_key(owner.0) {
                crate::module::name_range_of(inputs.files[owner.0].items, link.decl)
            } else {
                TextRange { start: 0, end: 0 }
            }
        } else {
            found.len() == 0
        },
        None => found.len() == 0,
    }
}

/// `found` is the parent module of the module that the position lies in.
pub open spec fn is_parent_module(inputs: Inputs, position: FilePosition, found: Seq<Entry>) -> bool {
    if inputs.files.contains_key(position.file_id.0) {
        let file = inputs.files[position.file_id.0];
        let source = crate::module::source_at(
            position.file_id,
            file.items,
            position.offset,
            file.items.len() as int,
        );
        exists|tree: ModuleTree|
            #![trigger tree_of(inputs, file.source_root, tree)]
            tree_of(inputs, file.source_root, tree) && match find_source(
                sources_of(tree.mods@),
                source,
                0,
            ) {
                Some(m) => is_parent_of(inputs, tree, m, found),
                None => found.len() == 0,
            }
    } else {
        found.len() == 0
    }
}

/// The crate whose root is the file `root_file`, as a list of one or none.
pub open spec fn crates_rooted_at(inputs: Inputs, root_file: FileId) -> Seq<CrateId> {
    match crate_position(inputs.crate_graph, root_file, 0) {
        Some(k) => seq![inputs.crate_graph[k].0],
        None => Seq::empty(),
    }
}

/// `found` are the crates that the file belongs to: the crate rooted at the
/// file of the topmost module above the file's module.
pub open spec fn is_crate_for(inputs: Inputs, file_id: FileId, found: Seq<CrateId>) -> bool {
    if inputs.files.contains_key(file_id.0) {
        let file = inputs.files[file_id.0];
        exists|tree: ModuleTree|
            #![trigger tree_of(inputs, file.source_root, tree)]
            tree_of(inputs, file.source_root, tree) && match find_source(
                sources_of(tree.mods@),
                ModuleSource::File(file_id),
                0,
            ) {
                Some(m) => {
                    let top = root_of(tree, m as usize, tree.mods@.len());
                    if top < tree.mods@.len() {
                        found == crates_rooted_at(inputs, tree.mods@[top as int].source.file_id())
                    } else {
                        found.len() == 0
                    }
                },
                None => found.len() == 0,
            }
    } else {
        found.len() == 0
    }
}

/// What the syntax shows at a position, for the resolution of a name.
pub enum NameAt {
    /// A name reference, and the function item it stands in, if it stands
    /// in one.
    NameRef { name_ref: NameRef, function: Option<usize> },
    /// A name, and the item it names where that is a module declaration.
    Name { range: TextRange, declaration: Option<usize> },
    /// Neither.
    Nothing,
}

/// What the syntax shows at a position, for the search of references.
pub enum BindingAt {
    /// A binding pattern, and the function item it stands in.
    BindPat { range: TextRange, function: Option<usize> },
    /// A name reference, and the function item it stands in.
    NameRef { name_ref: NameRef, function: Option<usize> },
    /// Neither.
    Nothing,
}

/// The list of arguments of a call: where it stands, and its text.
pub struct ArgList {
    pub range: TextRange,
    pub text: String,
}

/// What is called.
pub enum Callee {
    /// A path; the name reference of its last segment, if it has one.
    Path { name_ref: Option<NameRef> },
    /// Any other expression.
    Other,
}

/// A call `f(..)`.
pub struct CallExpr {
    pub callee: Option<Callee>,
    pub arg_list: Option<ArgList>,
}

/// A method call `x.f(..)`: the name references directly in it, and its
/// arguments.
pub struct MethodCallExpr {
    pub name_refs: Vec<NameRef>,
    pub arg_list: Option<ArgList>,
}

/// The call that a position stands in.
pub enum FnCallNode {
    CallExpr(CallExpr),
    MethodCallExpr(MethodCallExpr),
}

impl FnCallNode {
    /// The call at a position: the call expression there, else the method
    /// call there.
    pub fn with_node(call: Option<CallExpr>, method_call: Option<MethodCallExpr>) -> (r: Option<
        FnCallNode,
    >)
        ensures
            r == match call {
                Some(expr) => Some(FnCallNode::CallExpr(expr)),
                None => match method_call {
                    Some(expr) => Some(FnCallNode::MethodCallExpr(expr)),
                    None => None,
                },
            },
    {
        match call {
            Some(expr) => Some(FnCallNode::CallExpr(expr)),
            None => match method_call {
                Some(expr) => Some(FnCallNode::MethodCallExpr(expr)),
                None => None,
            },
        }
    }

    /// The name of what is called, as a mathematical value.
    pub open spec fn spec_name_ref(&self) -> Option<NameRef> {
        match self {
            FnCallNode::CallExpr(call) => match call.callee {
                Some(Callee::Path { name_ref }) => name_ref,
                _ => None,
            },
            FnCallNode::MethodCallExpr(call) => if call.name_refs@.len() > 0 {
                Some(call.name_refs@[0])
            } else {
                None
            },
        }
    }

    /// The name of what is called: for a call, the last segment of the path
    /// that is called; for a method call, its first name reference.
    pub fn name_ref(&self) -> (r: Option<&NameRef>)
        ensures
            match r {
                Some(name_ref) => self.spec_name_ref() == Some(*name_ref),
                None => self.spec_name_ref().is_none(),
            },
    {
        match self {
            FnCallNode::CallExpr(call) => match &call.callee {
                Some(Callee::Path { name_ref }) => match name_ref {
                    Some(n) => Some(n),
                    None => None,
                },
                _ => None,
            },
            FnCallNode::MethodCallExpr(call) => if call.name_refs.len() > 0 {
                Some(&call.name_refs[0])
            } else {
                None
            },
        }
    }

    /// The arguments of the call, as a mathematical value.
    pub open spec fn spec_arg_list(&self) -> Option<ArgList> {
        match self {
            FnCallNode::CallExpr(call) => call.arg_list,
            FnCallNode::MethodCallExpr(call) => call.arg_list,
        }
    }

    /// The arguments of the call.
    pub fn arg_list(&self) -> (r: Option<&ArgList>)
        ensures
            match r {
                Some(list) => self.spec_arg_list() == Some(*list),
                None => self.spec_arg_list().is_none(),
            },
    {
        match self {
            FnCallNode::CallExpr(call) => match &call.arg_list {
                Some(list) => Some(list),
                None => None,
            },
            FnCallNode::MethodCallExpr(call) => match &call.arg_list {
                Some(list) => Some(list),
                None => None,
            },
        }
    }
}

/// The signature of a function: its name, and the texts of its parameters.
#[derive(Debug, PartialEq, Eq)]
pub struct FnSignatureInfo {
    pub name: String,
    pub params: Vec<String>,
}

/// How many commas stand in the list of arguments before `offset`.
pub open spec fn commas_before(list: ArgList, offset: u32) -> nat {
    count_byte(
        prefix_bytes(
            vstd::utf8::encode_utf8(list.text@),
            if offset >= list.range.start {
                offset - list.range.start
            } else {
                0
            },
        ),
        COMMA,
    )
}

/// The parameter that the cursor stands at. A function of one parameter
/// has the cursor at it, unless the parameter is `self`. With more
/// parameters, the commas before the cursor count, and one more for a
/// function that takes `self`: its first parameter is the receiver. Without
/// parameters, or without a list of arguments, there is none.
pub open spec fn spec_current_parameter(
    num_params: usize,
    has_self: bool,
    arg_list: Option<ArgList>,
    offset: u32,
) -> Option<usize> {
    if num_params == 1 {
        if has_self {
            None
        } else {
            Some(0)
        }
    } else if num_params > 1 {
        match arg_list {
            Some(list) => {
                let commas = commas_before(list, offset);
                if has_self && commas < usize::MAX {
                    Some((commas + 1) as usize)
                } else {
                    Some(commas as usize)
                }
            },
            None => None,
        }
    } else {
        None
    }
}

/// The parameter that the cursor stands at, counted from 0.
pub fn current_parameter(num_params: usize, has_self: bool, arg_list: Option<&ArgList>, offset: u32) -> (r:
    Option<usize>)
    ensures
        r == spec_current_parameter(
            num_params,
            has_self,
            match arg_list {
                Some(list) => Some(*list),
                None => None,
            },
            offset,
        ),
{
    if num_params == 1 {
        if has_self {
            None
        } else {
            Some(0)
        }
    } else if num_params > 1 {
        match arg_list {
            Some(list) => {
                let upto: u32 = if offset >= list.range.start {
                    offset - list.range.start
                } else {
                    0
                };
                let commas = count_commas(list.text.as_str(), upto as usize);
                if has_self && commas < usize::MAX {
                    Some(commas + 1)
                } else {
                    Some(commas)
                }
            },
            None => None,
        }
    } else {
        None
    }
}

/// The binding that the reference means inside its function, if it stands
/// in one and means one.
pub open spec fn local_resolution(
    inputs: Inputs,
    file_id: FileId,
    function: Option<usize>,
    name_ref: NameRef,
) -> Option<ScopeEntry> {
    match function {
        Some(item) => match function_body(inputs, file_id, item) {
            Some(body) => ScopesModel::of(body).resolve_local_name(name_ref),
            None => None,
        },
        None => None,
    }
}

/// The module that the declaration at item `decl` of the file resolves to:
/// the first target of the link by which the module around the declaration
/// names it.
pub open spec fn declared_child(tree: ModuleTree, file_id: FileId, items: Seq<SourceItem>, decl: usize) -> Option<
    usize,
> {
    if decl < items.len() && items[decl as int].is_module() && !items[decl as int].is_inline_module() {
        let around = match items[decl as int].parent {
            Some(p) => ModuleSource::Inline(file_id, p),
            None => ModuleSource::File(file_id),
        };
        match find_source(sources_of(tree.mods@), around, 0) {
            Some(m) => match crate::module::link_of(tree.links@, m as usize, decl, 0) {
                Some(l) => if tree.links@[l].points_to@.len() > 0 && tree.links@[l].points_to@[0]
                    < tree.mods@.len() {
                    Some(tree.links@[l].points_to@[0])
                } else {
                    None
                },
                None => None,
            },
            None => None,
        }
    } else {
        None
    }
}

/// The name of a module: that of the link through which its parent reaches
/// it; empty for a module without a parent.
pub open spec fn module_name(tree: ModuleTree, m: usize) -> Seq<char> {
    match tree.mods@[m as int].parent {
        Some(l) => if l < tree.links@.len() {
            tree.links@[l as int].name@
        } else {
            Seq::empty()
        },
        None => Seq::empty(),
    }
}

/// `res` resolves the name of a module declaration to the module's file.
pub open spec fn is_module_resolution(
    inputs: Inputs,
    file_id: FileId,
    range: TextRange,
    decl: usize,
    res: Option<ReferenceResolution>,
) -> bool {
    if inputs.files.contains_key(file_id.0) {
        let file = inputs.files[file_id.0];
        exists|tree: ModuleTree|
            #![trigger tree_of(inputs, file.source_root, tree)]
            tree_of(inputs, file.source_root, tree) && match declared_child(
                tree,
                file_id,
                file.items,
                decl,
            ) {
                Some(child) => {
                    &&& res matches Some(rr)
                    &&& rr.reference_range == range
                    &&& rr.resolves_to@.len() == 1
                    &&& rr.resolves_to@[0].0 == tree.mods@[child as int].source.file_id()
                    &&& rr.resolves_to@[0].1.name@ == module_name(tree, child)
                    &&& rr.resolves_to@[0].1.node_range == TextRange { start: 0, end: 0 }
                    &&& rr.resolves_to@[0].1.kind == SyntaxKind::Module
                },
                None => res.is_none(),
            }
    } else {
        res.is_none()
    }
}

/// `res` is the resolution of what stands at the position. A name
/// reference resolves to the binding it means in its function, else to what
/// the index holds under its name; the name of a module declaration
/// resolves to the module's file; anything else has no resolution.
pub open spec fn is_resolution(
    inputs: Inputs,
    position: FilePosition,
    at: NameAt,
    res: Option<ReferenceResolution>,
) -> bool {
    match at {
        NameAt::NameRef { name_ref, function } => {
            &&& res matches Some(rr)
            &&& rr.reference_range == name_ref.range
            &&& match local_resolution(inputs, position.file_id, function, name_ref) {
                Some(entry) => rr.resolves_to@ == seq![
                    (
                        position.file_id,
                        FileSymbol { name: entry.name, node_range: entry.ptr, kind: SyntaxKind::Name },
                    ),
                ],
                None => is_index_resolution(inputs, name_ref.name@, rr.resolves_to@),
            }
        },
        NameAt::Name { range, declaration } => match declaration {
            Some(decl) => is_module_resolution(inputs, position.file_id, range, decl, res),
            None => res.is_none(),
        },
        NameAt::Nothing => res.is_none(),
    }
}

/// The binding that the search of references starts from, with the walk
/// through the body of its function.
pub open spec fn binding_at(inputs: Inputs, file_id: FileId, at: BindingAt) -> Option<
    (TextRange, Seq<BodyEvent>),
> {
    match at {
        BindingAt::BindPat { range, function } => match function {
            Some(item) => match function_body(inputs, file_id, item) {
                Some(body) => Some((range, body)),
                None => None,
            },
            None => None,
        },
        BindingAt::NameRef { name_ref, function } => match function {
            Some(item) => match function_body(inputs, file_id, item) {
                Some(body) => match ScopesModel::of(body).resolve_local_name(name_ref) {
                    Some(entry) => Some((entry.ptr, body)),
                    None => None,
                },
                None => None,
            },
            None => None,
        },
        BindingAt::Nothing => None,
    }
}

/// The ranges of the references, each with the file.
pub open spec fn ranges_in(file_id: FileId, refs: Seq<ReferenceDescriptor>) -> Seq<(FileId, TextRange)> {
    Seq::new(refs.len(), |i: int| (file_id, refs[i].range))
}

/// The binding and its references: the range of the binding first, then
/// the ranges of the references to it in its function, in source order.
pub open spec fn refs_of(inputs: Inputs, file_id: FileId, at: BindingAt) -> Seq<(FileId, TextRange)> {
    match binding_at(inputs, file_id, at) {
        Some((pat, body)) => seq![(file_id, pat)] + ranges_in(
            file_id,
            ScopesModel::of(body).refs_to(pat, ScopesModel::of(body).refs.len() as int),
        ),
        None => Seq::empty(),
    }
}

/// The innermost function among the first `upto` items that reaches over
/// `offset`.
pub open spec fn function_at(items: Seq<SourceItem>, offset: u32, upto: int) -> Option<int>
    decreases upto,
{
    if upto <= 0 {
        None
    } else if items[upto - 1].kind is Function && items[upto - 1].range.spec_touches(offset) {
        Some(upto - 1)
    } else {
        function_at(items, offset, upto - 1)
    }
}

/// The named function that the symbol stands for, if it is one of a file
/// that was added.
pub open spec fn callable_of(inputs: Inputs, entry: Entry) -> Option<SourceItem> {
    if entry.1.kind == SyntaxKind::FnDef && inputs.files.contains_key(entry.0.0) {
        let items = inputs.files[entry.0.0].items;
        match function_at(items, entry.1.node_range.start, items.len() as int) {
            Some(i) => if items[i].name.is_some() {
                Some(items[i])
            } else {
                None
            },
            None => None,
        }
    } else {
        None
    }
}

/// The first of the symbols from `from` on that stands for a named
/// function.
pub open spec fn first_callable(inputs: Inputs, found: Seq<Entry>, from: int) -> Option<SourceItem>
    decreases found.len() - from,
{
    if from < 0 || from >= found.len() {
        None
    } else {
        match callable_of(inputs, found[from]) {
            Some(item) => Some(item),
            None => first_callable(inputs, found, from + 1),
        }
    }
}

/// `res` is the signature of the function `item`, with the parameter that
/// the cursor stands at in `call`.
pub open spec fn is_signature_of(
    item: SourceItem,
    call: FnCallNode,
    offset: u32,
    res: (FnSignatureInfo, Option<usize>),
) -> bool {
    &&& item.kind is Function
    &&& item.name.is_some()
    &&& res.0.name == item.name->Some_0
    &&& res.0.params@ == item.kind->params@
    &&& res.1 == spec_current_parameter(
        item.kind->params@.len() as usize,
        item.kind->has_self,
        call.spec_arg_list(),
        offset,
    )
}

/// `res` is the first function among the symbols `found`, with the
/// parameter that the cursor stands at in `call`.
pub open spec fn is_callable_among(
    inputs: Inputs,
    found: Seq<Entry>,
    call: FnCallNode,
    offset: u32,
    res: Option<(FnSignatureInfo, Option<usize>)>,
) -> bool {
    match first_callable(inputs, found, 0) {
        Some(item) => res matches Some(sig) && is_signature_of(item, call, offset, sig),
        None => res.is_none(),
    }
}

/// `res` is the callable at a call: the first function that the index
/// holds under the name of what is called.
pub open spec fn is_callable(
    inputs: Inputs,
    call: Option<FnCallNode>,
    offset: u32,
    res: Option<(FnSignatureInfo, Option<usize>)>,
) -> bool {
    match call {
        Some(node) => match node.spec_name_ref() {
            Some(name_ref) => exists|found: Seq<Entry>|
                #![trigger is_index_resolution(inputs, name_ref.name@, found)]
                is_index_resolution(inputs, name_ref.name@, found) && is_callable_among(
                    inputs,
                    found,
                    node,
                    offset,
                    res,
                ),
            None => res.is_none(),
        },
        None => res.is_none(),
    }
}

/// What is found among the symbols that the index holds under the name of
/// what is called is the callable at the call.
proof fn lemma_callable(
    inputs: Inputs,
    node: FnCallNode,
    name_ref: NameRef,
    found: Seq<Entry>,
    offset: u32,
    res: Option<(FnSignatureInfo, Option<usize>)>,
)
    requires
        node.spec_name_ref() == Some(name_ref),
        is_index_resolution(inputs, name_ref.name@, found),
        is_callable_among(inputs, found, node, offset, res),
    ensures
        is_callable(inputs, Some(node), offset, res),
{
    let nr = node.spec_name_ref()->Some_0;
    assert(is_index_resolution(inputs, nr.name@, found));
    assert(is_callable_among(inputs, found, node, offset, res));
    assert(exists|f: Seq<Entry>|
        #![trigger is_index_resolution(inputs, nr.name@, f)]
        is_index_resolution(inputs, nr.name@, f) && is_callable_among(inputs, f, node, offset, res));
    let call = Some(node);
    assert(is_callable(inputs, call, offset, res));
}

/// The module that the declaration at item `decl` of the file resolves to.
pub fn declared_module(tree: &ModuleTree, file_id: FileId, items: &Vec<SourceItem>, decl: usize) -> (r:
    Option<usize>)
    ensures
        r == declared_child(*tree, file_id, items@, decl),
        r matches Some(child) ==> child < tree.mods.len(),
{
    if decl >= items.len() {
        return None;
    }
    let declares = match items[decl].kind {
        ItemKind::Module { has_semi } => has_semi && items[decl].name.is_some(),
        _ => false,
    };
    if !declares {
        return None;
    }
    let around = match items[decl].parent {
        Some(p) => ModuleSource::Inline(file_id, p),
        None => ModuleSource::File(file_id),
    };
    let m = match tree.find_module(around) {
        Some(m) => m,
        None => {
            return None;
        },
    };
    let l = match tree.find_link(m, decl) {
        Some(l) => l,
        None => {
            return None;
        },
    };
    if tree.links[l].points_to.len() > 0 && tree.links[l].points_to[0] < tree.mods.len() {
        Some(tree.links[l].points_to[0])
    } else {
        None
    }
}

/// The positions among the first `upto` of the proposals that hold an edit.
pub open spec fn proposed(edits: Seq<Option<LocalEdit>>, upto: int) -> Seq<int>
    decreases upto,
{
    if upto <= 0 {
        Seq::empty()
    } else {
        let rest = proposed(edits, upto - 1);
        if edits[upto - 1].is_some() {
            rest.push(upto - 1)
        } else {
            rest
        }
    }
}

/// `changes` holds, for each proposal that holds an edit, the change that
/// applies the edit to the file, in the order of the proposals.
pub open spec fn are_assists(
    changes: Seq<SourceChange>,
    file_id: FileId,
    edits: Seq<Option<LocalEdit>>,
    upto: int,
) -> bool {
    &&& changes.len() == proposed(edits, upto).len()
    &&& forall|k: int|
        0 <= k < changes.len() ==> is_local_change(
            #[trigger] changes[k],
            file_id,
            edits[proposed(edits, upto)[k]]->Some_0,
        )
}

/// The text that documents a symbol: its description in a code block, then
/// its documentation, as far as it has them.
pub open spec fn spec_doc_text(description: Option<String>, docs: Option<String>) -> Option<Seq<char>> {
    match (description, docs) {
        (Some(desc), Some(docs)) => Some("```rust\n"@ + desc@ + "\n```\n\n"@ + docs@),
        (Some(desc), None) => Some("```rust\n"@ + desc@ + "\n```"@),
        (None, Some(docs)) => Some(docs@),
        (None, None) => None,
    }
}

/// The host of the analysis: it owns the inputs and applies changes to them.
/// With each change it signals the snapshots that it handed out since the
/// change before.
pub struct AnalysisHostImpl {
    db: RootDatabase,
    token: CancelToken,
}

/// A snapshot of the analysis: it answers queries on the inputs as they were
/// when it was taken, until it is told to give up.
pub struct AnalysisImpl {
    db: RootDatabase,
    token: CancelToken,
}

impl AnalysisHostImpl {
    /// The database of the host.
    pub closed spec fn db(&self) -> RootDatabase {
        self.db
    }

    /// A host without inputs, at revision 0.
    pub fn new() -> (host: AnalysisHostImpl)
        ensures
            host.db().inv(),
            host.db()@.revision == 0,
            host.db()@.files == Map::<u32, crate::syntax::FileModel>::empty(),
            host.db()@.local_roots == Seq::<SourceRootId>::empty(),
            host.db()@.library_roots == Seq::<SourceRootId>::empty(),
            !host.db().is_canceled(),
    {
        AnalysisHostImpl { db: RootDatabase::new(), token: CancelToken::new() }
    }

    /// A snapshot of the analysis as it stands.
    pub fn analysis(&self) -> (snapshot: AnalysisImpl)
        requires
            self.db().inv(),
        ensures
            snapshot.db().inv(),
            snapshot.db()@ == self.db()@,
            snapshot.db().memos() == self.db().memos(),
            snapshot.db().subs_memos() == self.db().subs_memos(),
            !snapshot.db().is_canceled(),
    {
        AnalysisImpl { db: self.db.snapshot(), token: self.token.share() }
    }

    /// Applies a change to the inputs, as one step: the revision advances by
    /// one. Snapshots taken before keep the inputs they saw, and are
    /// signalled to give up.
    pub fn apply_change(&mut self, change: AnalysisChange)
        requires
            old(self).db().inv(),
            old(self).db()@.revision < u64::MAX,
        ensures
            final(self).db().inv(),
            final(self).db()@ == old(self).db()@.apply(change),
            final(self).db()@.revision == old(self).db()@.revision + 1,
            final(self).db().memos() == old(self).db().memos(),
            final(self).db().kept() == old(self).db().kept(),
            final(self).db().subs_memos() == old(self).db().subs_memos(),
            final(self).db().is_canceled() == old(self).db().is_canceled(),
            extends(old(self).db().defs(), final(self).db().defs()),
    {
        self.token.set();
        self.token = CancelToken::new();
        self.db.apply_change(change);
    }

    /// Discards the cached symbol indices and item maps of the host, to free
    /// their memory, and keeps their stamps. The inputs stay as they are, so
    /// every query answers as before.
    pub fn gc_syntax_trees(&mut self)
        requires
            old(self).db().inv(),
        ensures
            final(self).db().inv(),
            final(self).db()@ == old(self).db()@,
            final(self).db().defs() == old(self).db().defs(),
            final(self).db().is_canceled() == old(self).db().is_canceled(),
            forall|file_id: FileId| final(self).db().symbols_stamp(file_id).is_none(),
            forall|root: SourceRootId| final(self).db().item_map_stamp(root).is_none(),
    {
        self.db.sweep();
    }

    /// The symbol index of a file, computed into the store of the host: the
    /// snapshots taken afterwards hold it, and the host keeps it until the
    /// file changes. The host itself never gives up, so the index is owed
    /// wherever the host was not made to.
    pub fn file_symbols(&mut self, file_id: FileId) -> (res: Result<Arc<SymbolIndex>, Canceled>)
        requires
            old(self).db().inv(),
            old(self).db()@.files.contains_key(file_id.0),
        ensures
            final(self).db().inv(),
            final(self).db()@ == old(self).db()@,
            final(self).db().is_canceled() == old(self).db().is_canceled(),
            res.is_err() == old(self).db().is_canceled(),
            res matches Ok(index) ==> {
                &&& symbols_of(final(self).db()@, file_id, *index)
                &&& final(self).db().cached_symbols(file_id) == Some(index)
                &&& final(self).db().symbols_fresh(file_id)
                &&& old(self).db().symbols_fresh(file_id) ==> Some(index) == old(
                    self,
                ).db().cached_symbols(file_id)
            },
    {
        self.db.file_symbols(file_id)
    }

    /// The module tree of a root, computed into the store of the host: the
    /// snapshots taken afterwards hold it, and the host keeps it until the
    /// root or a file of it changes.
    pub fn module_tree(&mut self, root: SourceRootId) -> (res: Result<Arc<ModuleTree>, Canceled>)
        requires
            old(self).db().inv(),
        ensures
            final(self).db().inv(),
            final(self).db()@ == old(self).db()@,
            final(self).db().is_canceled() == old(self).db().is_canceled(),
            res.is_err() == old(self).db().is_canceled(),
            res matches Ok(tree) ==> {
                &&& tree_of(final(self).db()@, root, *tree)
                &&& final(self).db().cached_tree(root) == Some(tree)
                &&& final(self).db().tree_fresh(root)
                &&& old(self).db().tree_fresh(root) ==> Some(tree) == old(self).db().cached_tree(root)
            },
    {
        self.db.module_tree(root)
    }

    /// The item map of a root, computed into the store of the host: the
    /// snapshots taken afterwards hold it, and the host keeps it through
    /// every change that leaves alone what the map and the module tree under
    /// it read.
    pub fn item_map(&mut self, root: SourceRootId) -> (res: Result<Arc<ItemMap>, Canceled>)
        requires
            old(self).db().inv(),
        ensures
            final(self).db().inv(),
            final(self).db()@ == old(self).db()@,
            final(self).db().is_canceled() == old(self).db().is_canceled(),
            res.is_err() == old(self).db().is_canceled(),
            res matches Ok(map) ==> {
                &&& item_map_for(final(self).db()@, root, *map)
                &&& final(self).db().cached_item_map(root) == Some(map)
                &&& final(self).db().item_map_valid(root)
                &&& final(self).db().item_map_reads(root)
                &&& old(self).db().item_map_valid(root) ==> Some(map) == old(
                    self,
                ).db().cached_item_map(root) && final(self).db().item_map_stamp(root) == Some(
                    (final(self).db()@.revision, old(self).db().memos().2[root.0].changed_at),
                )
            },
    {
        self.db.item_map(root)
    }

    /// The current revision.
    pub fn revision(&self) -> (r: u64)
        ensures
            r == self.db()@.revision,
    {
        self.db.revision()
    }
}

impl AnalysisImpl {
    /// The database of the snapshot.
    pub closed spec fn db(&self) -> RootDatabase {
        self.db
    }

    /// Tells the snapshot to give up: its queries return the cancellation
    /// signal from now on.
    pub fn cancel(&mut self)
        ensures
            final(self).db().is_canceled(),
            final(self).db()@ == old(self).db()@,
            old(self).db().inv() ==> final(self).db().inv(),
    {
        self.db.cancel();
    }

    /// Takes note of a signal of the host: where `signalled` holds, the
    /// snapshot gives up, as by `cancel`. Returns the cancellation signal
    /// where the snapshot has given up, now or before.
    pub fn note(&mut self, signalled: bool) -> (res: Result<(), Canceled>)
        ensures
            final(self).db().is_canceled() == (old(self).db().is_canceled() || signalled),
            res.is_err() == final(self).db().is_canceled(),
            final(self).db()@ == old(self).db()@,
            final(self).db().memos() == old(self).db().memos(),
            final(self).db().defs() == old(self).db().defs(),
            old(self).db().inv() ==> final(self).db().inv(),
    {
        if signalled {
            self.db.cancel();
        }
        self.db.check_canceled()
    }

    /// Looks whether the host has applied a change since the snapshot was
    /// taken, and gives up if it has. The host may do so at any time: the
    /// contract holds whatever was seen.
    pub fn check_canceled(&mut self) -> (res: Result<(), Canceled>)
        ensures
            old(self).db().is_canceled() ==> final(self).db().is_canceled(),
            res.is_err() == final(self).db().is_canceled(),
            final(self).db()@ == old(self).db()@,
            final(self).db().memos() == old(self).db().memos(),
            final(self).db().defs() == old(self).db().defs(),
            old(self).db().inv() ==> final(self).db().inv(),
    {
        let signalled = self.token.is_set();
        self.note(signalled)
    }

    /// The file as the snapshot holds it: its text and what its syntax gave.
    pub fn file_syntax(&self, file_id: FileId) -> (r: Option<Arc<FileData>>)
        requires
            self.db().inv(),
        ensures
            match r {
                Some(data) => self.db()@.files.contains_key(file_id.0) && data@
                    == self.db()@.files[file_id.0] && data.file_id == file_id,
                None => !self.db()@.files.contains_key(file_id.0),
            },
    {
        self.db.file_data(file_id)
    }

    /// The files of the local roots that were set, root after root.
    fn local_files(&self) -> (files: Vec<FileId>)
        requires
            self.db().inv(),
        ensures
            files@ == local_files(self.db()@, self.db()@.local_roots.len() as int),
            forall|i: int| 0 <= i < files.len() ==> self.db()@.files.contains_key((#[trigger] files@[i]).0),
    {
        let mut files: Vec<FileId> = Vec::new();
        let ghost inputs = self.db@;
        let roots = self.db.local_roots();
        let mut r: usize = 0;
        while r < roots.len()
            invariant
                r <= inputs.local_roots.len(),
                inputs == self.db@,
                roots@ == inputs.local_roots,
                files@ == local_files(inputs, r as int),
                forall|i: int| 0 <= i < files.len() ==> inputs.files.contains_key((#[trigger] files@[i]).0),
            decreases inputs.local_roots.len() - r,
        {
            let root = roots[r];
            let ids = self.db.root_file_ids(root);
            let ghost done = files@;
            let mut i: usize = 0;
            while i < ids.len()
                invariant
                    i <= ids.len(),
                    inputs == self.db@,
                    files@ == done + present_files(inputs, ids@, i as int),
                    forall|k: int|
                        0 <= k < files.len() ==> inputs.files.contains_key((#[trigger] files@[k]).0),
                decreases ids.len() - i,
            {
                if self.db.has_file(ids[i]) {
                    files.push(ids[i]);
                }
                assert(files@ =~= done + present_files(inputs, ids@, i as int + 1));
                i = i + 1;
            }
            r = r + 1;
        }
        files
    }

    /// The indices of the libraries, in the order of the library roots.
    fn library_indices(&self) -> (indices: Vec<Arc<SymbolIndex>>)
        ensures
            indices@ == library_scope(self.db()@, self.db()@.library_roots.len() as int),
            forall|i: int| 0 <= i < indices.len() ==> (#[trigger] indices@[i]).wf(),
    {
        let mut indices: Vec<Arc<SymbolIndex>> = Vec::new();
        let ghost inputs = self.db@;
        let roots = self.db.library_roots();
        let mut r: usize = 0;
        while r < roots.len()
            invariant
                r <= inputs.library_roots.len(),
                inputs == self.db@,
                roots@ == inputs.library_roots,
                indices@ == library_scope(inputs, r as int),
                forall|i: int| 0 <= i < indices.len() ==> (#[trigger] indices@[i]).wf(),
            decreases inputs.library_roots.len() - r,
        {
            match self.db.library_symbols(roots[r]) {
                Some(index) => {
                    let held: &SymbolIndex = &index;
                    proof {
                        use_type_invariant(held);
                    }
                    indices.push(index);
                },
                None => {},
            }
            r = r + 1;
        }
        indices
    }

    /// The symbol index of a file of the snapshot, unless the snapshot gives
    /// up: it does where it had given up before, or where `signalled` tells
    /// that the host was seen to have applied a change.
    pub fn file_index_noted(&mut self, signalled: bool, file_id: FileId) -> (res: Result<
        Arc<SymbolIndex>,
        Canceled,
    >)
        requires
            old(self).db().inv(),
            old(self).db()@.files.contains_key(file_id.0),
        ensures
            final(self).db().inv(),
            final(self).db()@ == old(self).db()@,
            final(self).db().is_canceled() == (old(self).db().is_canceled() || signalled),
            match res {
                Ok(index) => !final(self).db().is_canceled() && index.wf() && symbols_of(
                    final(self).db()@,
                    file_id,
                    *index,
                ),
                Err(_) => final(self).db().is_canceled(),
            },
    {
        match self.note(signalled) {
            Err(e) => {
                return Err(e);
            },
            Ok(_) => {},
        }
        match self.db.file_symbols(file_id) {
            Ok(index) => {
                let held: &SymbolIndex = &index;
                proof {
                    use_type_invariant(held);
                }
                Ok(index)
            },
            Err(e) => Err(e),
        }
    }

    /// The indices that a search runs on: those of the libraries, or the
    /// index of each file of the local roots. Where `watch` holds, the
    /// snapshot looks for the signal of the host before each file, and gives
    /// up where it sees it; where not, it gives up only if it had before.
    fn scope(&mut self, watch: bool, libs: bool) -> (res: Result<Vec<Arc<SymbolIndex>>, Canceled>)
        requires
            old(self).db().inv(),
        ensures
            final(self).db().inv(),
            final(self).db()@ == old(self).db()@,
            old(self).db().is_canceled() ==> final(self).db().is_canceled(),
            !watch ==> final(self).db().is_canceled() == old(self).db().is_canceled(),
            match res {
                Ok(indices) => !final(self).db().is_canceled() && is_scope(
                    final(self).db()@,
                    libs,
                    indices@,
                ),
                Err(_) => final(self).db().is_canceled(),
            },
    {
        match self.note(false) {
            Err(e) => {
                return Err(e);
            },
            Ok(_) => {},
        }
        if libs {
            return Ok(self.library_indices());
        }
        let ghost inputs = self.db@;
        let files = self.local_files();
        let mut buf: Vec<Arc<SymbolIndex>> = Vec::new();
        let mut i: usize = 0;
        while i < files.len()
            invariant
                i <= files.len(),
                self.db.inv(),
                self.db@ == inputs,
                inputs == old(self).db()@,
                !self.db.is_canceled(),
                !old(self).db().is_canceled(),
                files@ == local_files(inputs, inputs.local_roots.len() as int),
                forall|k: int| 0 <= k < files.len() ==> inputs.files.contains_key((#[trigger] files@[k]).0),
                buf.len() == i,
                forall|k: int| 0 <= k < i ==> symbols_of(inputs, files@[k], *#[trigger] buf@[k]),
                forall|k: int| 0 <= k < i ==> (#[trigger] buf@[k]).wf(),
            decreases files.len() - i,
        {
            assert(inputs.files.contains_key(files@[i as int].0));
            let signalled = if watch {
                self.token.is_set()
            } else {
                false
            };
            match self.file_index_noted(signalled, files[i]) {
                Ok(index) => {
                    buf.push(index);
                },
                Err(e) => {
                    return Err(e);
                },
            }
            i = i + 1;
        }
        Ok(buf)
    }

    /// Searches the world for symbols: the indices that the libraries came
    /// with where the query asks for libraries, else the index of every file
    /// of the local roots.
    ///
    /// `signalled` tells whether the host was seen to have applied a change
    /// since the snapshot was taken: where it holds, the snapshot gives up
    /// and nothing is computed.
    pub fn world_symbols_noted(&mut self, signalled: bool, query: Query) -> (res: Result<
        Vec<(FileId, FileSymbol)>,
        Canceled,
    >)
        requires
            old(self).db().inv(),
        ensures
            final(self).db().inv(),
            final(self).db()@ == old(self).db()@,
            final(self).db().is_canceled() == (old(self).db().is_canceled() || signalled),
            match res {
                Ok(found) => !final(self).db().is_canceled() && is_search_result(
                    final(self).db()@,
                    query,
                    found@,
                ),
                Err(_) => final(self).db().is_canceled(),
            },
    {
        match self.note(signalled) {
            Err(e) => {
                return Err(e);
            },
            Ok(_) => {},
        }
        match self.scope(false, query.libs) {
            Ok(indices) => Ok(query.search(&indices)),
            Err(e) => Err(e),
        }
    }

    /// Searches the world for symbols: the indices that the libraries came
    /// with where the query asks for libraries, else the index of every file
    /// of the local roots. The search looks for the signal of the host when
    /// it begins and before each file, and gives up where it sees it: it
    /// hands out no part of a result.
    pub fn world_symbols(&mut self, query: Query) -> (res: Result<Vec<(FileId, FileSymbol)>, Canceled>)
        requires
            old(self).db().inv(),
        ensures
            final(self).db().inv(),
            final(self).db()@ == old(self).db()@,
            old(self).db().is_canceled() ==> final(self).db().is_canceled(),
            match res {
                Ok(found) => !final(self).db().is_canceled() && is_search_result(
                    final(self).db()@,
                    query,
                    found@,
                ),
                Err(_) => final(self).db().is_canceled(),
            },
    {
        match self.check_canceled() {
            Err(e) => {
                return Err(e);
            },
            Ok(_) => {},
        }
        match self.scope(true, query.libs) {
            Ok(indices) => Ok(query.search(&indices)),
            Err(e) => Err(e),
        }
    }

    /// What the index holds under a name: the exact search for it among the
    /// local symbols, limited to four.
    ///
    /// `signalled` tells whether the host was seen to have applied a change
    /// since the snapshot was taken: where it holds, the snapshot gives up
    /// and nothing is computed.
    pub fn index_resolve_noted(
        &mut self,
        signalled: bool,
        name: String,
    ) -> (res: Result<Vec<(FileId, FileSymbol)>, Canceled>)
        requires
            old(self).db().inv(),
        ensures
            final(self).db().inv(),
            final(self).db()@ == old(self).db()@,
            final(self).db().is_canceled() == (old(self).db().is_canceled() || signalled),
            match res {
                Ok(found) => !final(self).db().is_canceled() && is_index_resolution(
                    final(self).db()@,
                    name@,
                    found@,
                ),
                Err(_) => final(self).db().is_canceled(),
            },
    {
        let mut query = Query::new(name);
        query.exact();
        query.limit(4);
        let res = self.world_symbols_noted(signalled, query);
        proof {
            if res is Ok {
                assert(is_exact_query(query, name@));
                assert(is_search_result(self.db@, query, res->Ok_0@));
            }
        }
        res
    }

    /// What the index holds under a name: the exact search for it among the
    /// local symbols, limited to four.
    /// The query first looks whether the host has applied a change
    /// since the snapshot was taken, and gives up if it has.
    pub fn index_resolve(&mut self, name: String) -> (res: Result<Vec<(FileId, FileSymbol)>, Canceled>)
        requires
            old(self).db().inv(),
        ensures
            final(self).db().inv(),
            final(self).db()@ == old(self).db()@,
            old(self).db().is_canceled() ==> final(self).db().is_canceled(),
            match res {
                Ok(found) => !final(self).db().is_canceled() && is_index_resolution(
                    final(self).db()@,
                    name@,
                    found@,
                ),
                Err(_) => final(self).db().is_canceled(),
            },
    {
        let signalled = self.token.is_set();
        self.index_resolve_noted(signalled, name)
    }

    /// The diagnostics of a file: those that its syntax gave, which the
    /// caller hands in, and those of the module declarations in it that
    /// resolve to no file.
    ///
    /// `signalled` tells whether the host was seen to have applied a change
    /// since the snapshot was taken: where it holds, the snapshot gives up
    /// and nothing is computed.
    pub fn diagnostics_noted(
        &mut self,
        signalled: bool,
        file_id: FileId,
        syntax_diagnostics: Vec<SyntaxDiagnostic>,
    ) -> (res:
        Result<Vec<Diagnostic>, Canceled>)
        requires
            old(self).db().inv(),
        ensures
            final(self).db().inv(),
            final(self).db()@ == old(self).db()@,
            final(self).db().is_canceled() == (old(self).db().is_canceled() || signalled),
            match res {
                Ok(found) => !final(self).db().is_canceled() && is_file_diagnostics(
                    final(self).db()@,
                    file_id,
                    syntax_diagnostics@,
                    found@,
                ),
                Err(_) => final(self).db().is_canceled(),
            },
    {
        match self.note(signalled) {
            Err(e) => {
                return Err(e);
            },
            Ok(_) => {},
        }
        match self.db.file_data(file_id) {
            Some(file) => {
                let source_root = file.source_root;
                let tree = match self.db.module_tree(source_root) {
                    Ok(tree) => tree,
                    Err(e) => {
                        return Err(e);
                    },
                };
                let problems = match tree.find_module(ModuleSource::File(file_id)) {
                    Some(m) => tree.problems(m, &file.syntax.items),
                    None => Vec::new(),
                };
                assert(crate::module::problem_models(problems@) =~= file_problems(*tree, file@));
                let found = file_diagnostics(file_id, source_root, syntax_diagnostics, problems);
                proof {
                    let model = self.db@.files[file_id.0];
                    assert(tree_of(self.db@, model.source_root, *tree) && are_diagnostics(
                        found@,
                        file_id,
                        model.source_root,
                        syntax_diagnostics@,
                        file_problems(*tree, model),
                    ));
                }
                Ok(found)
            },
            None => {
                let problems: Vec<(TextRange, crate::module::Problem)> = Vec::new();
                assert(crate::module::problem_models(problems@) =~= Seq::empty());
                Ok(file_diagnostics(file_id, SourceRootId(0), syntax_diagnostics, problems))
            },
        }
    }

    /// The diagnostics of a file: those that its syntax gave, which the
    /// caller hands in, and those of the module declarations in it that
    /// resolve to no file.
    /// The query first looks whether the host has applied a change
    /// since the snapshot was taken, and gives up if it has.
    pub fn diagnostics(&mut self, file_id: FileId, syntax_diagnostics: Vec<SyntaxDiagnostic>) -> (res:
        Result<Vec<Diagnostic>, Canceled>)
        requires
            old(self).db().inv(),
        ensures
            final(self).db().inv(),
            final(self).db()@ == old(self).db()@,
            old(self).db().is_canceled() ==> final(self).db().is_canceled(),
            match res {
                Ok(found) => !final(self).db().is_canceled() && is_file_diagnostics(
                    final(self).db()@,
                    file_id,
                    syntax_diagnostics@,
                    found@,
                ),
                Err(_) => final(self).db().is_canceled(),
            },
    {
        let signalled = self.token.is_set();
        self.diagnostics_noted(signalled, file_id, syntax_diagnostics)
    }

    /// The module that declares the module in which the position lies, as a
    /// symbol of the file that the declaration stands in. The list holds one
    /// symbol at most.
    ///
    /// `signalled` tells whether the host was seen to have applied a change
    /// since the snapshot was taken: where it holds, the snapshot gives up
    /// and nothing is computed.
    pub fn parent_module_noted(&mut self, signalled: bool, position: FilePosition) -> (res: Result<
        Vec<(FileId, FileSymbol)>,
        Canceled,
    >)
        requires
            old(self).db().inv(),
        ensures
            final(self).db().inv(),
            final(self).db()@ == old(self).db()@,
            final(self).db().is_canceled() == (old(self).db().is_canceled() || signalled),
            match res {
                Ok(found) => !final(self).db().is_canceled() && is_parent_module(
                    final(self).db()@,
                    position,
                    found@,
                ),
                Err(_) => final(self).db().is_canceled(),
            },
    {
        match self.note(signalled) {
            Err(e) => {
                return Err(e);
            },
            Ok(_) => {},
        }
        let mut found: Vec<(FileId, FileSymbol)> = Vec::new();
        let file = match self.db.file_data(position.file_id) {
            Some(file) => file,
            None => {
                return Ok(found);
            },
        };
        let tree = match self.db.module_tree(file.source_root) {
            Ok(tree) => tree,
            Err(e) => {
                return Err(e);
            },
        };
        let ghost model = self.db@.files[position.file_id.0];
        assert(tree_of(self.db@, model.source_root, *tree));
        let source = crate::module::module_source_at(position.file_id, &file.syntax.items, position.offset);
        let m = match tree.find_module(source) {
            Some(m) => m,
            None => {
                assert(tree_of(self.db@, model.source_root, *tree) && find_source(
                    sources_of(tree.mods@),
                    source,
                    0,
                ).is_none());
                return Ok(found);
            },
        };
        match tree.mods[m].parent {
            Some(l) => {
                if l < tree.links.len() && tree.links[l].owner < tree.mods.len() {
                    let link = &tree.links[l];
                    let owner = tree.mods[link.owner].source.file_id();
                    let node_range = match self.db.file_data(owner) {
                        Some(data) => if link.decl < data.syntax.items.len() {
                            data.syntax.items[link.decl].name_range
                        } else {
                            TextRange { start: 0, end: 0 }
                        },
                        None => TextRange { start: 0, end: 0 },
                    };
                    let symbol = FileSymbol {
                        name: link.name.clone(),
                        node_range,
                        kind: SyntaxKind::Module,
                    };
                    found.push((owner, symbol));
                }
            },
            None => {},
        }
        assert(tree_of(self.db@, model.source_root, *tree) && find_source(
            sources_of(tree.mods@),
            source,
            0,
        ) == Some(m as int) && is_parent_of(self.db@, *tree, m as int, found@));
        Ok(found)
    }

    /// The module that declares the module in which the position lies, as a
    /// symbol of the file that the declaration stands in. The list holds one
    /// symbol at most.
    /// The query first looks whether the host has applied a change
    /// since the snapshot was taken, and gives up if it has.
    pub fn parent_module(&mut self, position: FilePosition) -> (res: Result<
        Vec<(FileId, FileSymbol)>,
        Canceled,
    >)
        requires
            old(self).db().inv(),
        ensures
            final(self).db().inv(),
            final(self).db()@ == old(self).db()@,
            old(self).db().is_canceled() ==> final(self).db().is_canceled(),
            match res {
                Ok(found) => !final(self).db().is_canceled() && is_parent_module(
                    final(self).db()@,
                    position,
                    found@,
                ),
                Err(_) => final(self).db().is_canceled(),
            },
    {
        let signalled = self.token.is_set();
        self.parent_module_noted(signalled, position)
    }

    /// The crates that a file belongs to: the crate whose root is the file
    /// of the topmost module above the module of the file. The list holds
    /// one crate at most.
    ///
    /// `signalled` tells whether the host was seen to have applied a change
    /// since the snapshot was taken: where it holds, the snapshot gives up
    /// and nothing is computed.
    pub fn crate_for_noted(
        &mut self,
        signalled: bool,
        file_id: FileId,
    ) -> (res: Result<Vec<CrateId>, Canceled>)
        requires
            old(self).db().inv(),
        ensures
            final(self).db().inv(),
            final(self).db()@ == old(self).db()@,
            final(self).db().is_canceled() == (old(self).db().is_canceled() || signalled),
            match res {
                Ok(found) => !final(self).db().is_canceled() && is_crate_for(
                    final(self).db()@,
                    file_id,
                    found@,
                ),
                Err(_) => final(self).db().is_canceled(),
            },
    {
        match self.note(signalled) {
            Err(e) => {
                return Err(e);
            },
            Ok(_) => {},
        }
        let mut found: Vec<CrateId> = Vec::new();
        let file = match self.db.file_data(file_id) {
            Some(file) => file,
            None => {
                return Ok(found);
            },
        };
        let tree = match self.db.module_tree(file.source_root) {
            Ok(tree) => tree,
            Err(e) => {
                return Err(e);
            },
        };
        let ghost model = self.db@.files[file_id.0];
        assert(tree_of(self.db@, model.source_root, *tree));
        let m = match tree.find_module(ModuleSource::File(file_id)) {
            Some(m) => m,
            None => {
                assert(tree_of(self.db@, model.source_root, *tree) && find_source(
                    sources_of(tree.mods@),
                    ModuleSource::File(file_id),
                    0,
                ).is_none());
                return Ok(found);
            },
        };
        let top = tree.crate_root(m);
        if top < tree.mods.len() {
            let root_file = tree.mods[top].source.file_id();
            match self.db.crate_graph().crate_id_for_crate_root(root_file) {
                Some(crate_id) => {
                    found.push(crate_id);
                },
                None => {},
            }
            assert(found@ =~= crates_rooted_at(self.db@, root_file));
        }
        assert(tree_of(self.db@, model.source_root, *tree) && find_source(
            sources_of(tree.mods@),
            ModuleSource::File(file_id),
            0,
        ) == Some(m as int));
        Ok(found)
    }

    /// The crates that a file belongs to: the crate whose root is the file
    /// of the topmost module above the module of the file. The list holds
    /// one crate at most.
    /// The query first looks whether the host has applied a change
    /// since the snapshot was taken, and gives up if it has.
    pub fn crate_for(&mut self, file_id: FileId) -> (res: Result<Vec<CrateId>, Canceled>)
        requires
            old(self).db().inv(),
        ensures
            final(self).db().inv(),
            final(self).db()@ == old(self).db()@,
            old(self).db().is_canceled() ==> final(self).db().is_canceled(),
            match res {
                Ok(found) => !final(self).db().is_canceled() && is_crate_for(
                    final(self).db()@,
                    file_id,
                    found@,
                ),
                Err(_) => final(self).db().is_canceled(),
            },
    {
        let signalled = self.token.is_set();
        self.crate_for_noted(signalled, file_id)
    }

    /// The file at the root of a crate; nothing for a crate that the graph
    /// does not hold.
    pub fn crate_root(&self, crate_id: CrateId) -> (r: Option<FileId>)
        ensures
            r == match crate::input::root_position(self.db()@.crate_graph, crate_id, 0) {
                Some(k) => Some(self.db()@.crate_graph[k].1),
                None => None,
            },
    {
        self.db.crate_graph().crate_root(crate_id)
    }

    /// The scopes of the function at item `item` of the file; nothing where
    /// that item is no function.
    pub fn function_scopes(&self, file_id: FileId, item: usize) -> (r: Option<FnScopes>)
        requires
            self.db().inv(),
        ensures
            match r {
                Some(scopes) => function_body(self.db()@, file_id, item) matches Some(body)
                    && scopes.model() == ScopesModel::of(body),
                None => function_body(self.db()@, file_id, item).is_none(),
            },
    {
        match self.db.file_data(file_id) {
            Some(file) => {
                if item < file.syntax.items.len() {
                    match &file.syntax.items[item].kind {
                        ItemKind::Function { has_self: _, params: _, body } => Some(FnScopes::new(body)),
                        _ => None,
                    }
                } else {
                    None
                }
            },
            None => None,
        }
    }

    /// Resolves what stands at a position, as far as that can be done
    /// without types: a name reference to the binding it means in its
    /// function, else to the symbols that the index holds under its name;
    /// the name of a module declaration to the file of the module.
    ///
    /// `signalled` tells whether the host was seen to have applied a change
    /// since the snapshot was taken: where it holds, the snapshot gives up
    /// and nothing is computed.
    pub fn approximately_resolve_symbol_noted(
        &mut self,
        signalled: bool,
        position: FilePosition,
        at: NameAt,
    ) -> (res: Result<
        Option<ReferenceResolution>,
        Canceled,
    >)
        requires
            old(self).db().inv(),
        ensures
            final(self).db().inv(),
            final(self).db()@ == old(self).db()@,
            final(self).db().is_canceled() == (old(self).db().is_canceled() || signalled),
            match res {
                Ok(resolution) => !final(self).db().is_canceled() && is_resolution(
                    final(self).db()@,
                    position,
                    at,
                    resolution,
                ),
                Err(_) => final(self).db().is_canceled(),
            },
    {
        match self.note(signalled) {
            Err(e) => {
                return Err(e);
            },
            Ok(_) => {},
        }
        match at {
            NameAt::NameRef { name_ref, function } => {
                let mut rr = ReferenceResolution::new(name_ref.range);
                let scopes = match function {
                    Some(item) => self.function_scopes(position.file_id, item),
                    None => None,
                };
                match &scopes {
                    Some(scopes) => {
                        match scopes.resolve_local_name(&name_ref) {
                            Some(entry) => {
                                rr.add_resolution(
                                    position.file_id,
                                    FileSymbol {
                                        name: entry.name.clone(),
                                        node_range: entry.ptr,
                                        kind: SyntaxKind::Name,
                                    },
                                );
                                return Ok(Some(rr));
                            },
                            None => {},
                        }
                    },
                    None => {},
                }
                let found = match self.index_resolve_noted(false, name_ref.name.clone()) {
                    Ok(found) => found,
                    Err(e) => {
                        return Err(e);
                    },
                };
                let ghost all = found@;
                for entry in it: found
                    invariant
                        it.seq() == all,
                        rr.reference_range == name_ref.range,
                        rr.resolves_to@ == all.take(it.index() as int),
                {
                    assert(all.take(it.index() + 1) =~= all.take(it.index() as int).push(entry));
                    rr.add_resolution(entry.0, entry.1);
                }
                assert(all.take(all.len() as int) =~= all);
                Ok(Some(rr))
            },
            NameAt::Name { range, declaration } => {
                let decl = match declaration {
                    Some(decl) => decl,
                    None => {
                        return Ok(None);
                    },
                };
                let file = match self.db.file_data(position.file_id) {
                    Some(file) => file,
                    None => {
                        return Ok(None);
                    },
                };
                let tree = match self.db.module_tree(file.source_root) {
                    Ok(tree) => tree,
                    Err(e) => {
                        return Err(e);
                    },
                };
                let ghost model = self.db@.files[position.file_id.0];
                let child = declared_module(&tree, position.file_id, &file.syntax.items, decl);
                let res = match child {
                    Some(child) => {
                        let name = match tree.mods[child].parent {
                            Some(l) => if l < tree.links.len() {
                                tree.links[l].name.clone()
                            } else {
                                String::new()
                            },
                            None => String::new(),
                        };
                        let symbol = FileSymbol {
                            name,
                            node_range: TextRange { start: 0, end: 0 },
                            kind: SyntaxKind::Module,
                        };
                        let mut rr = ReferenceResolution::new(range);
                        rr.add_resolution(tree.mods[child].source.file_id(), symbol);
                        Some(rr)
                    },
                    None => None,
                };
                assert(tree_of(self.db@, model.source_root, *tree) && declared_child(
                    *tree,
                    position.file_id,
                    model.items,
                    decl,
                ) == child);
                Ok(res)
            },
            NameAt::Nothing => Ok(None),
        }
    }

    /// Resolves what stands at a position, as far as that can be done
    /// without types: a name reference to the binding it means in its
    /// function, else to the symbols that the index holds under its name;
    /// the name of a module declaration to the file of the module.
    /// The query first looks whether the host has applied a change
    /// since the snapshot was taken, and gives up if it has.
    pub fn approximately_resolve_symbol(&mut self, position: FilePosition, at: NameAt) -> (res: Result<
        Option<ReferenceResolution>,
        Canceled,
    >)
        requires
            old(self).db().inv(),
        ensures
            final(self).db().inv(),
            final(self).db()@ == old(self).db()@,
            old(self).db().is_canceled() ==> final(self).db().is_canceled(),
            match res {
                Ok(resolution) => !final(self).db().is_canceled() && is_resolution(
                    final(self).db()@,
                    position,
                    at,
                    resolution,
                ),
                Err(_) => final(self).db().is_canceled(),
            },
    {
        let signalled = self.token.is_set();
        self.approximately_resolve_symbol_noted(signalled, position, at)
    }

    /// Finds the references to a binding: the binding at the position, or
    /// the one that the name reference at the position means. The binding
    /// comes first, then its references in its function, in source order.
    /// References from other functions are not found.
    ///
    /// `signalled` tells whether the host was seen to have applied a change
    /// since the snapshot was taken: where it holds, the snapshot gives up
    /// and nothing is computed.
    pub fn find_all_refs_noted(
        &mut self,
        signalled: bool,
        position: FilePosition,
        at: BindingAt,
    ) -> (res: Result<
        Vec<(FileId, TextRange)>,
        Canceled,
    >)
        requires
            old(self).db().inv(),
        ensures
            final(self).db().inv(),
            final(self).db()@ == old(self).db()@,
            final(self).db().is_canceled() == (old(self).db().is_canceled() || signalled),
            match res {
                Ok(found) => !final(self).db().is_canceled() && found@ == refs_of(
                    final(self).db()@,
                    position.file_id,
                    at,
                ),
                Err(_) => final(self).db().is_canceled(),
            },
    {
        match self.note(signalled) {
            Err(e) => {
                return Err(e);
            },
            Ok(_) => {},
        }
        let mut ret: Vec<(FileId, TextRange)> = Vec::new();
        let (pat, scopes) = match &at {
            BindingAt::BindPat { range, function } => match function {
                Some(item) => match self.function_scopes(position.file_id, *item) {
                    Some(scopes) => (*range, scopes),
                    None => {
                        return Ok(ret);
                    },
                },
                None => {
                    return Ok(ret);
                },
            },
            BindingAt::NameRef { name_ref, function } => match function {
                Some(item) => match self.function_scopes(position.file_id, *item) {
                    Some(scopes) => {
                        let pat = match scopes.resolve_local_name(name_ref) {
                            Some(entry) => entry.ptr,
                            None => {
                                return Ok(ret);
                            },
                        };
                        (pat, scopes)
                    },
                    None => {
                        return Ok(ret);
                    },
                },
                None => {
                    return Ok(ret);
                },
            },
            BindingAt::Nothing => {
                return Ok(ret);
            },
        };
        ret.push((position.file_id, pat));
        let refs = scopes.find_all_refs(pat);
        let mut i: usize = 0;
        while i < refs.len()
            invariant
                i <= refs.len(),
                ret@ == seq![(position.file_id, pat)] + ranges_in(position.file_id, refs@).take(i as int),
            decreases refs.len() - i,
        {
            ret.push((position.file_id, refs[i].range));
            assert(ranges_in(position.file_id, refs@).take(i as int + 1) =~= ranges_in(
                position.file_id,
                refs@,
            ).take(i as int).push((position.file_id, refs@[i as int].range)));
            assert(ret@ =~= seq![(position.file_id, pat)] + ranges_in(position.file_id, refs@).take(
                i as int + 1,
            ));
            i = i + 1;
        }
        assert(ranges_in(position.file_id, refs@).take(i as int) =~= ranges_in(position.file_id, refs@));
        Ok(ret)
    }

    /// Finds the references to a binding: the binding at the position, or
    /// the one that the name reference at the position means. The binding
    /// comes first, then its references in its function, in source order.
    /// References from other functions are not found.
    /// The query first looks whether the host has applied a change
    /// since the snapshot was taken, and gives up if it has.
    pub fn find_all_refs(&mut self, position: FilePosition, at: BindingAt) -> (res: Result<
        Vec<(FileId, TextRange)>,
        Canceled,
    >)
        requires
            old(self).db().inv(),
        ensures
            final(self).db().inv(),
            final(self).db()@ == old(self).db()@,
            old(self).db().is_canceled() ==> final(self).db().is_canceled(),
            match res {
                Ok(found) => !final(self).db().is_canceled() && found@ == refs_of(
                    final(self).db()@,
                    position.file_id,
                    at,
                ),
                Err(_) => final(self).db().is_canceled(),
            },
    {
        let signalled = self.token.is_set();
        self.find_all_refs_noted(signalled, position, at)
    }

    /// The named function that a symbol of the index stands for.
    fn callable_item(&self, entry: &(FileId, FileSymbol)) -> (r: Option<(Arc<FileData>, usize)>)
        requires
            self.db().inv(),
        ensures
            match r {
                Some((file, i)) => i < file.syntax.items@.len() && callable_of(self.db()@, *entry)
                    == Some(file.syntax.items@[i as int]) && file.syntax.items@[i as int].kind
                    is Function && file.syntax.items@[i as int].name.is_some(),
                None => callable_of(self.db()@, *entry).is_none(),
            },
    {
        if !(entry.1.kind == SyntaxKind::FnDef) {
            return None;
        }
        let file = match self.db.file_data(entry.0) {
            Some(file) => file,
            None => {
                return None;
            },
        };
        let offset = entry.1.node_range.start;
        let mut i: usize = file.syntax.items.len();
        let mut hit: Option<usize> = None;
        while i > 0 && hit.is_none()
            invariant
                i <= file.syntax.items.len(),
                match hit {
                    Some(k) => k < file.syntax.items.len() && file.syntax.items@[k as int].kind
                        is Function && function_at(
                        file.syntax.items@,
                        offset,
                        file.syntax.items.len() as int,
                    ) == Some(k as int),
                    None => function_at(file.syntax.items@, offset, file.syntax.items.len() as int)
                        == function_at(file.syntax.items@, offset, i as int),
                },
            decreases i, hit.is_none() as int,
        {
            let item = &file.syntax.items[i - 1];
            let is_function = match item.kind {
                ItemKind::Function { .. } => true,
                _ => false,
            };
            if is_function && item.range.touches(offset) {
                hit = Some(i - 1);
            } else {
                i = i - 1;
            }
        }
        match hit {
            Some(k) => {
                if file.syntax.items[k].name.is_some() {
                    Some((file, k))
                } else {
                    None
                }
            },
            None => None,
        }
    }

    /// The signature of the function that is called at the position, and the
    /// parameter that the cursor stands at: the first function that the
    /// index holds under the name of what is called. The caller hands in
    /// the call that the position stands in.
    ///
    /// `signalled` tells whether the host was seen to have applied a change
    /// since the snapshot was taken: where it holds, the snapshot gives up
    /// and nothing is computed.
    pub fn resolve_callable_noted(
        &mut self,
        signalled: bool,
        position: FilePosition,
        call: Option<FnCallNode>,
    ) -> (res: Result<
        Option<(FnSignatureInfo, Option<usize>)>,
        Canceled,
    >)
        requires
            old(self).db().inv(),
        ensures
            final(self).db().inv(),
            final(self).db()@ == old(self).db()@,
            final(self).db().is_canceled() == (old(self).db().is_canceled() || signalled),
            match res {
                Ok(callable) => !final(self).db().is_canceled() && is_callable(
                    final(self).db()@,
                    call,
                    position.offset,
                    callable,
                ),
                Err(_) => final(self).db().is_canceled(),
            },
    {
        match self.note(signalled) {
            Err(e) => {
                return Err(e);
            },
            Ok(_) => {},
        }
        let calling_node = match &call {
            Some(node) => node,
            None => {
                return Ok(None);
            },
        };
        let name_ref = match calling_node.name_ref() {
            Some(name_ref) => name_ref,
            None => {
                return Ok(None);
            },
        };
        let found = match self.index_resolve_noted(false, name_ref.name.clone()) {
            Ok(found) => found,
            Err(e) => {
                return Err(e);
            },
        };
        let ghost inputs = self.db@;
        let mut i: usize = 0;
        while i < found.len()
            invariant
                i <= found.len(),
                self.db.inv(),
                self.db@ == inputs,
                inputs == old(self).db()@,
                !self.db.is_canceled(),
                !old(self).db().is_canceled(),
                !signalled,
                call == Some(*calling_node),
                calling_node.spec_name_ref() == Some(*name_ref),
                is_index_resolution(inputs, name_ref.name@, found@),
                first_callable(inputs, found@, 0) == first_callable(inputs, found@, i as int),
            decreases found.len() - i,
        {
            match self.callable_item(&found[i]) {
                Some((file, k)) => {
                    let item = &file.syntax.items[k];
                    match &item.kind {
                        ItemKind::Function { has_self, params, body: _ } => {
                            let name = match &item.name {
                                Some(n) => n.clone(),
                                None => String::new(),
                            };
                            let info = FnSignatureInfo {
                                name,
                                params: crate::syntax::copy_strings(params),
                            };
                            let current = current_parameter(
                                params.len(),
                                *has_self,
                                calling_node.arg_list(),
                                position.offset,
                            );
                            assert(is_signature_of(*item, *calling_node, position.offset, (info, current)));
                            assert(callable_of(inputs, found@[i as int]) == Some(*item));
                            assert(first_callable(inputs, found@, i as int) == Some(*item));
                            proof {
                                lemma_callable(
                                    inputs,
                                    *calling_node,
                                    *name_ref,
                                    found@,
                                    position.offset,
                                    Some((info, current)),
                                );
                            }
                            return Ok(Some((info, current)));
                        },
                        _ => {},
                    }
                },
                None => {},
            }
            i = i + 1;
        }
        proof {
            lemma_callable(inputs, *calling_node, *name_ref, found@, position.offset, None);
        }
        Ok(None)
    }

    /// The signature of the function that is called at the position, and the
    /// parameter that the cursor stands at: the first function that the
    /// index holds under the name of what is called. The caller hands in
    /// the call that the position stands in.
    /// The query first looks whether the host has applied a change
    /// since the snapshot was taken, and gives up if it has.
    pub fn resolve_callable(&mut self, position: FilePosition, call: Option<FnCallNode>) -> (res: Result<
        Option<(FnSignatureInfo, Option<usize>)>,
        Canceled,
    >)
        requires
            old(self).db().inv(),
        ensures
            final(self).db().inv(),
            final(self).db()@ == old(self).db()@,
            old(self).db().is_canceled() ==> final(self).db().is_canceled(),
            match res {
                Ok(callable) => !final(self).db().is_canceled() && is_callable(
                    final(self).db()@,
                    call,
                    position.offset,
                    callable,
                ),
                Err(_) => final(self).db().is_canceled(),
            },
    {
        let signalled = self.token.is_set();
        self.resolve_callable_noted(signalled, position, call)
    }

    /// The text that documents a symbol, from its description and its
    /// documentation as the syntax gives them.
    pub fn doc_text_for(&self, description: Option<String>, docs: Option<String>) -> (r: Option<String>)
        ensures
            match r {
                Some(text) => spec_doc_text(description, docs) == Some(text@),
                None => spec_doc_text(description, docs).is_none(),
            },
    {
        match (description, docs) {
            (Some(desc), Some(docs)) => {
                let mut text = String::from_str("```rust\n");
                text.append(desc.as_str());
                text.append("\n```\n\n");
                text.append(docs.as_str());
                Some(text)
            },
            (Some(desc), None) => {
                let mut text = String::from_str("```rust\n");
                text.append(desc.as_str());
                text.append("\n```");
                Some(text)
            },
            (None, Some(docs)) => Some(docs),
            (None, None) => None,
        }
    }

    /// The assists at a place of a file: each edit that an editor helper
    /// proposes there, as a change of the file. The caller hands in what the
    /// helpers propose, in their order.
    pub fn assists(&self, file_id: FileId, edits: Vec<Option<LocalEdit>>) -> (changes: Vec<SourceChange>)
        ensures
            are_assists(changes@, file_id, edits@, edits@.len() as int),
    {
        let mut changes: Vec<SourceChange> = Vec::new();
        for proposal in it: edits
            invariant
                it.seq() == edits@,
                are_assists(changes@, file_id, edits@, it.index() as int),
        {
            let ghost before = changes@;
            let ghost at = it.index() as int;
            match proposal {
                Some(edit) => {
                    changes.push(SourceChange::from_local_edit(file_id, edit));
                    proof {
                        assert forall|k: int| 0 <= k < changes@.len() implies is_local_change(
                            #[trigger] changes@[k],
                            file_id,
                            edits@[proposed(edits@, at + 1)[k]]->Some_0,
                        ) by {
                            if k < before.len() {
                                assert(changes@[k] == before[k]);
                                assert(proposed(edits@, at + 1)[k] == proposed(edits@, at)[k]);
                            }
                        }
                    }
                },
                None => {},
            }
        }
        changes
    }
}

impl Default for AnalysisHostImpl {
    /// A host without inputs, at revision 0.
    fn default() -> (host: AnalysisHostImpl)
        ensures
            host.db().inv(),
            host.db()@.revision == 0,
            host.db()@.files == Map::<u32, crate::syntax::FileModel>::empty(),
    {
        AnalysisHostImpl::new()
    }
}

} // verus!
