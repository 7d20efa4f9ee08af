//! Identities and plain syntax data shared by every other module.

use vstd::prelude::*;

verus! {

/// Identity of a source file, allocated by the caller.
#[derive(Clone, Copy, Debug, PartialEq, Eq, Structural, Hash)]
pub struct FileId(pub u32);

/// Identity of a source root, allocated by the caller.
#[derive(Clone, Copy, Debug, PartialEq, Eq, Structural, Hash)]
pub struct SourceRootId(pub u32);

/// Identity of a crate in the crate graph, allocated by the caller.
#[derive(Clone, Copy, Debug, PartialEq, Eq, Structural, Hash)]
pub struct CrateId(pub u32);

/// Interned identity of a definition location.
#[derive(Clone, Copy, Debug, PartialEq, Eq, Structural, Hash)]
pub struct DefId(pub u32);

/// The signal that the snapshot a query ran on was invalidated.
#[derive(Clone, Copy, Debug, PartialEq, Eq, Structural, Hash)]
pub struct Canceled;

/// A half-open range `[start, end)` of text offsets.
#[derive(Clone, Copy, Debug, PartialEq, Eq, Structural, Hash)]
pub struct TextRange {
    pub start: u32,
    pub end: u32,
}

impl TextRange {
    /// `start <= end`.
    pub open spec fn wf(self) -> bool {
        self.start <= self.end
    }

    /// Whether `other` lies within `self`.
    pub open spec fn spec_covers(self, other: TextRange) -> bool {
        self.start <= other.start && other.end <= self.end
    }

    /// Whether `offset` lies within `self`, both ends included.
    pub open spec fn spec_touches(self, offset: u32) -> bool {
        self.start <= offset && offset <= self.end
    }

    /// The range between two offsets.
    pub fn from_to(start: u32, end: u32) -> (r: TextRange)
        requires
            start <= end,
        ensures
            r == (TextRange { start, end }),
            r.wf(),
    {
        TextRange { start, end }
    }

    /// The range that starts at `offset` and is `len` long.
    pub fn offset_len(offset: u32, len: u32) -> (r: TextRange)
        requires
            offset + len <= u32::MAX,
        ensures
            r == (TextRange { start: offset, end: (offset + len) as u32 }),
            r.wf(),
    {
        TextRange { start: offset, end: offset + len }
    }

    #[verifier::when_used_as_spec(spec_covers)]
    pub fn covers(self, other: TextRange) -> (b: bool)
        ensures
            b == self.spec_covers(other),
    {
        self.start <= other.start && other.end <= self.end
    }

    #[verifier::when_used_as_spec(spec_touches)]
    pub fn touches(self, offset: u32) -> (b: bool)
        ensures
            b == self.spec_touches(offset),
    {
        self.start <= offset && offset <= self.end
    }
}

/// A position in a file.
#[derive(Clone, Copy, Debug, PartialEq, Eq, Structural, Hash)]
pub struct FilePosition {
    pub file_id: FileId,
    pub offset: u32,
}

/// A range in a file.
#[derive(Clone, Copy, Debug, PartialEq, Eq, Structural, Hash)]
pub struct FileRange {
    pub file_id: FileId,
    pub range: TextRange,
}

/// The syntactic kinds that the analysis tells apart.
#[derive(Clone, Copy, Debug, PartialEq, Eq, Structural, Hash)]
pub enum SyntaxKind {
    FnDef,
    StructDef,
    EnumDef,
    TraitDef,
    TypeDef,
    ConstDef,
    StaticDef,
    Module,
    Name,
    NameRef,
    BindPat,
}

/// A named item of a file: its name, the range of its node, its kind.
#[derive(Debug, PartialEq, Eq, Hash)]
pub struct FileSymbol {
    pub name: String,
    pub node_range: TextRange,
    pub kind: SyntaxKind,
}

impl FileSymbol {
    /// Equality by all fields, the name taken as its characters.
    pub open spec fn same(self, other: FileSymbol) -> bool {
        &&& self.name@ == other.name@
        &&& self.node_range == other.node_range
        &&& self.kind == other.kind
    }

    /// A copy with the same fields.
    pub fn duplicate(&self) -> (r: FileSymbol)
        ensures
            r == *self,
    {
        FileSymbol { name: self.name.clone(), node_range: self.node_range, kind: self.kind }
    }

    /// Decides `same`.
    pub fn is_same(&self, other: &FileSymbol) -> (b: bool)
        ensures
            b == self.same(*other),
    {
        self.name == other.name && self.node_range == other.node_range && self.kind == other.kind
    }
}

impl Clone for FileSymbol {
    fn clone(&self) -> (r: FileSymbol)
        ensures
            r == *self,
    {
        self.duplicate()
    }
}

} // verus!
