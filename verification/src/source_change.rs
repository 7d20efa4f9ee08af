//! What the analysis hands back to an editor: edits of texts and of the file
//! system, diagnostics, and the resolution of a reference.

use vstd::prelude::*;
use crate::base::{FileId, FilePosition, FileSymbol, SourceRootId, TextRange};
use crate::module::{problem_models, Problem, ProblemModel};
use crate::syntax::SourcePath;

verus! {

/// One replacement in a text: the range that goes, and what comes instead.
#[derive(Debug, PartialEq, Eq)]
pub struct AtomTextEdit {
    pub delete: TextRange,
    pub insert: String,
}

/// An edit of a text: its replacements.
#[derive(Debug, PartialEq, Eq)]
pub struct TextEdit {
    pub atoms: Vec<AtomTextEdit>,
}

/// An edit of one file as an editor helper proposes it.
#[derive(Debug, PartialEq, Eq)]
pub struct LocalEdit {
    pub label: String,
    pub edit: TextEdit,
    pub cursor_position: Option<u32>,
}

/// How grave a diagnostic is.
#[derive(Clone, Copy, Debug, PartialEq, Eq, Structural, Hash)]
pub enum Severity {
    Error,
    WeakWarning,
}

/// A diagnostic of the syntax of a file, with the fix that goes with it.
#[derive(Debug, PartialEq, Eq)]
pub struct SyntaxDiagnostic {
    pub range: TextRange,
    pub msg: String,
    pub severity: Severity,
    pub fix: Option<LocalEdit>,
}

/// An edit of the text of a file.
#[derive(Debug, PartialEq, Eq)]
pub struct SourceFileEdit {
    pub file_id: FileId,
    pub edit: TextEdit,
}

/// An edit of the file system.
#[derive(Debug, PartialEq, Eq)]
pub enum FileSystemEdit {
    CreateFile { source_root: SourceRootId, path: SourcePath },
    MoveFile { src: FileId, dst_source_root: SourceRootId, dst_path: SourcePath },
}

/// A change of the sources: edits of texts and of the file system, and where
/// the cursor goes.
#[derive(Debug, PartialEq, Eq)]
pub struct SourceChange {
    pub label: String,
    pub source_file_edits: Vec<SourceFileEdit>,
    pub file_system_edits: Vec<FileSystemEdit>,
    pub cursor_position: Option<FilePosition>,
}

/// A diagnostic as the analysis reports it.
#[derive(Debug, PartialEq, Eq)]
pub struct Diagnostic {
    pub message: String,
    pub range: TextRange,
    pub fix: Option<SourceChange>,
    pub severity: Severity,
}

/// What a reference resolves to: the range of the reference, and the symbols
/// it may mean.
#[derive(Debug, PartialEq, Eq)]
pub struct ReferenceResolution {
    pub reference_range: TextRange,
    pub resolves_to: Vec<(FileId, FileSymbol)>,
}

impl ReferenceResolution {
    /// The resolution of the reference at `reference_range`, to nothing yet.
    pub fn new(reference_range: TextRange) -> (r: ReferenceResolution)
        ensures
            r.reference_range == reference_range,
            r.resolves_to@ == Seq::<(FileId, FileSymbol)>::empty(),
    {
        ReferenceResolution { reference_range, resolves_to: Vec::new() }
    }

    /// Adds a symbol that the reference may mean.
    pub fn add_resolution(&mut self, file_id: FileId, symbol: FileSymbol)
        ensures
            final(self).reference_range == old(self).reference_range,
            final(self).resolves_to@ == old(self).resolves_to@.push((file_id, symbol)),
    {
        self.resolves_to.push((file_id, symbol));
    }
}

/// `change` is the edit `edit` of the file `file_id`, and nothing else.
pub open spec fn is_local_change(change: SourceChange, file_id: FileId, edit: LocalEdit) -> bool {
    &&& change.label == edit.label
    &&& change.source_file_edits@ == seq![SourceFileEdit { file_id, edit: edit.edit }]
    &&& change.file_system_edits@.len() == 0
    &&& change.cursor_position == match edit.cursor_position {
        Some(offset) => Some(FilePosition { file_id, offset }),
        None => None,
    }
}

impl SourceChange {
    /// The change that applies the edit to the file `file_id`.
    pub fn from_local_edit(file_id: FileId, edit: LocalEdit) -> (change: SourceChange)
        ensures
            is_local_change(change, file_id, edit),
    {
        let LocalEdit { label, edit: text_edit, cursor_position } = edit;
        let mut source_file_edits: Vec<SourceFileEdit> = Vec::new();
        source_file_edits.push(SourceFileEdit { file_id, edit: text_edit });
        let cursor_position = match cursor_position {
            Some(offset) => Some(FilePosition { file_id, offset }),
            None => None,
        };
        let change = SourceChange {
            label,
            source_file_edits,
            file_system_edits: Vec::new(),
            cursor_position,
        };
        assert(change.source_file_edits@ =~= seq![SourceFileEdit { file_id, edit: edit.edit }]);
        change
    }
}

/// `d` reports the syntax diagnostic `s` of the file `file_id`.
pub open spec fn is_syntax_diagnostic(d: Diagnostic, file_id: FileId, s: SyntaxDiagnostic) -> bool {
    &&& d.range == s.range
    &&& d.message == s.msg
    &&& d.severity == s.severity
    &&& match s.fix {
        Some(edit) => d.fix matches Some(change) && is_local_change(change, file_id, edit),
        None => d.fix.is_none(),
    }
}

/// `d` reports, at `range`, the problem of a module declaration in the file
/// `file_id` of the root `source_root`, with the fix that creates the missing
/// file, after moving the declaring file where that is needed.
pub open spec fn is_problem_diagnostic(
    d: Diagnostic,
    file_id: FileId,
    source_root: SourceRootId,
    range: TextRange,
    problem: ProblemModel,
) -> bool {
    &&& d.range == range
    &&& d.severity == Severity::Error
    &&& d.fix matches Some(fix)
    &&& fix.source_file_edits@.len() == 0
    &&& fix.cursor_position.is_none()
    &&& match problem {
        ProblemModel::UnresolvedModule { candidate } => {
            &&& d.message@ == "unresolved module"@
            &&& fix.label@ == "create module"@
            &&& fix.file_system_edits@.len() == 1
            &&& fix.file_system_edits@[0] matches FileSystemEdit::CreateFile { source_root: r, path }
            &&& r == source_root
            &&& path@ == candidate
        },
        ProblemModel::NotDirOwner { move_to, candidate } => {
            &&& d.message@ == "can't declare module at this location"@
            &&& fix.label@ == "move file and create module"@
            &&& fix.file_system_edits@.len() == 2
            &&& fix.file_system_edits@[0] matches FileSystemEdit::MoveFile {
                src,
                dst_source_root,
                dst_path,
            }
            &&& src == file_id
            &&& dst_source_root == source_root
            &&& dst_path@ == move_to
            &&& fix.file_system_edits@[1] matches FileSystemEdit::CreateFile { source_root: r, path }
            &&& r == source_root
            &&& path@ == move_to.join(candidate)
        },
    }
}

/// `res` holds one diagnostic for each syntax diagnostic, in their order,
/// then one for each problem, in their order.
pub open spec fn are_diagnostics(
    res: Seq<Diagnostic>,
    file_id: FileId,
    source_root: SourceRootId,
    syntax: Seq<SyntaxDiagnostic>,
    problems: Seq<(TextRange, ProblemModel)>,
) -> bool {
    &&& res.len() == syntax.len() + problems.len()
    &&& forall|i: int| 0 <= i < syntax.len() ==> is_syntax_diagnostic(#[trigger] res[i], file_id, syntax[i])
    &&& forall|j: int|
        0 <= j < problems.len() ==> is_problem_diagnostic(
            #[trigger] res[syntax.len() + j],
            file_id,
            source_root,
            problems[j].0,
            problems[j].1,
        )
}

/// The diagnostic of a module declaration that resolves to no file.
pub fn problem_diagnostic(file_id: FileId, source_root: SourceRootId, range: TextRange, problem: Problem) -> (d:
    Diagnostic)
    ensures
        is_problem_diagnostic(d, file_id, source_root, range, problem@),
{
    match problem {
        Problem::UnresolvedModule { candidate } => {
            let mut file_system_edits: Vec<FileSystemEdit> = Vec::new();
            file_system_edits.push(FileSystemEdit::CreateFile { source_root, path: candidate });
            let fix = SourceChange {
                label: String::from_str("create module"),
                source_file_edits: Vec::new(),
                file_system_edits,
                cursor_position: None,
            };
            Diagnostic {
                range,
                message: String::from_str("unresolved module"),
                severity: Severity::Error,
                fix: Some(fix),
            }
        },
        Problem::NotDirOwner { move_to, candidate } => {
            let path = move_to.join(&candidate);
            let mut file_system_edits: Vec<FileSystemEdit> = Vec::new();
            file_system_edits.push(
                FileSystemEdit::MoveFile { src: file_id, dst_source_root: source_root, dst_path: move_to },
            );
            file_system_edits.push(FileSystemEdit::CreateFile { source_root, path });
            let fix = SourceChange {
                label: String::from_str("move file and create module"),
                source_file_edits: Vec::new(),
                file_system_edits,
                cursor_position: None,
            };
            Diagnostic {
                range,
                message: String::from_str("can't declare module at this location"),
                severity: Severity::Error,
                fix: Some(fix),
            }
        },
    }
}

/// The diagnostics of a file: those of its syntax, each with its fix turned
/// into a change of the file, then those of the module declarations in it
/// that resolve to no file, each with a fix that creates the file.
pub fn file_diagnostics(
    file_id: FileId,
    source_root: SourceRootId,
    syntax_diagnostics: Vec<SyntaxDiagnostic>,
    problems: Vec<(TextRange, Problem)>,
) -> (res: Vec<Diagnostic>)
    ensures
        are_diagnostics(res@, file_id, source_root, syntax_diagnostics@, problem_models(problems@)),
{
    let mut res: Vec<Diagnostic> = Vec::new();
    for d in it: syntax_diagnostics
        invariant
            it.seq() == syntax_diagnostics@,
            res.len() == it.index(),
            forall|i: int|
                0 <= i < it.index() ==> is_syntax_diagnostic(
                    #[trigger] res@[i],
                    file_id,
                    syntax_diagnostics@[i],
                ),
    {
        let SyntaxDiagnostic { range, msg, severity, fix } = d;
        let fix = match fix {
            Some(edit) => Some(SourceChange::from_local_edit(file_id, edit)),
            None => None,
        };
        res.push(Diagnostic { range, message: msg, severity, fix });
    }
    let ghost n = syntax_diagnostics@.len();
    for p in it: problems
        invariant
            it.seq() == problems@,
            n == syntax_diagnostics@.len(),
            res.len() == n + it.index(),
            forall|i: int|
                0 <= i < n ==> is_syntax_diagnostic(#[trigger] res@[i], file_id, syntax_diagnostics@[i]),
            forall|j: int|
                0 <= j < it.index() ==> is_problem_diagnostic(
                    #[trigger] res@[n + j],
                    file_id,
                    source_root,
                    problems@[j].0,
                    problems@[j].1@,
                ),
    {
        let (range, problem) = p;
        let ghost old_res = res@;
        res.push(problem_diagnostic(file_id, source_root, range, problem));
        proof {
            assert forall|j: int| 0 <= j < it.index() + 1 implies is_problem_diagnostic(
                #[trigger] res@[n + j],
                file_id,
                source_root,
                problems@[j].0,
                problems@[j].1@,
            ) by {
                if j < it.index() {
                    assert(res@[n + j] == old_res[n + j]);
                }
            }
        }
    }
    res
}

} // verus!
