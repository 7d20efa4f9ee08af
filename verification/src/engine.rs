//! The bookkeeping of the query store: revisions, the stamps of a cached
//! value, and the rules by which a cached value is kept or computed anew.

use std::sync::Arc;
use vstd::prelude::*;
use crate::base::{FileId, SourceRootId};

verus! {

/// What a derived value may depend on: an input, or another derived value.
#[derive(Clone, Copy, Debug, PartialEq, Eq, Structural, Hash)]
pub enum Slot {
    /// A file: its text and what its syntax gave.
    File(FileId),
    /// A source root: the files it lists.
    Root(SourceRootId),
    /// The store of definition locations.
    Defs,
    /// The module tree of a source root: a derived value.
    Tree(SourceRootId),
}

/// A dependency of a cached value: what it read, and the revision at which
/// that had last changed then.
#[derive(Clone, Copy, Debug, PartialEq, Eq, Structural, Hash)]
pub struct Dep {
    pub slot: Slot,
    pub changed_at: u64,
}

/// A cached value with its stamps: the revision at which it was last found
/// valid, the revision at which it last changed, and what it read.
#[verifier::reject_recursive_types(V)]
pub struct Memo<V> {
    pub value: Arc<V>,
    pub verified_at: u64,
    pub changed_at: u64,
    pub deps: Vec<Dep>,
}

/// The stamps of a cached value whose value was discarded: when it was last
/// found valid, when it last changed, and what it read.
pub struct Stamps {
    pub verified_at: u64,
    pub changed_at: u64,
    pub deps: Vec<Dep>,
}

/// What a request finds in the store.
#[derive(Clone, Copy, Debug, PartialEq, Eq, Structural, Hash)]
pub enum Probe {
    /// No value is cached: compute it.
    Missing,
    /// The cached value was verified at the current revision: return it.
    Current,
    /// The cached value was verified earlier: look at its dependencies.
    Outdated,
}

/// What a request for a value finds: nothing, a value verified at the
/// current revision, or an older one.
pub fn probe(verified_at: Option<u64>, revision: u64) -> (p: Probe)
    ensures
        p == match verified_at {
            None => Probe::Missing,
            Some(v) => if v == revision {
                Probe::Current
            } else {
                Probe::Outdated
            },
        },
{
    match verified_at {
        None => Probe::Missing,
        Some(v) => if v == revision {
            Probe::Current
        } else {
            Probe::Outdated
        },
    }
}

/// Whether a dependency that last changed at `dep_changed_at` makes a value
/// stale that was verified at `verified_at`.
pub open spec fn spec_outdates(dep_changed_at: u64, verified_at: u64) -> bool {
    dep_changed_at > verified_at
}

/// Whether a dependency that last changed at `dep_changed_at` makes a value
/// stale that was verified at `verified_at`.
#[verifier::when_used_as_spec(spec_outdates)]
pub fn outdates(dep_changed_at: u64, verified_at: u64) -> (b: bool)
    ensures
        b == spec_outdates(dep_changed_at, verified_at),
{
    dep_changed_at > verified_at
}

/// The revision at which a value last changed, after it was computed at
/// `revision`: that of the value it replaces where the two are equal, else
/// `revision`.
pub open spec fn spec_changed_at_after(previous: Option<u64>, unchanged: bool, revision: u64) -> u64 {
    match previous {
        Some(c) => if unchanged {
            c
        } else {
            revision
        },
        None => revision,
    }
}

/// The revision at which a value last changed, after it was computed at
/// `revision`. A value equal to the one it replaces keeps the stamp of that
/// one, so that what depends on it is not computed anew.
#[verifier::when_used_as_spec(spec_changed_at_after)]
pub fn changed_at_after(previous: Option<u64>, unchanged: bool, revision: u64) -> (c: u64)
    ensures
        c == spec_changed_at_after(previous, unchanged, revision),
{
    match previous {
        Some(c) => if unchanged {
            c
        } else {
            revision
        },
        None => revision,
    }
}

/// A value that is computed anew and found equal to the one it replaces
/// keeps the revision at which it last changed; one that differs, or that
/// replaces nothing, is stamped with the current revision.
pub proof fn law_early_cutoff(previous: u64, revision: u64)
    ensures
        spec_changed_at_after(Some(previous), true, revision) == previous,
        spec_changed_at_after(Some(previous), false, revision) == revision,
        spec_changed_at_after(None, false, revision) == revision,
{
}

/// The value behind a shared pointer.
pub open spec fn inner<T>(a: Arc<T>) -> T {
    *a
}

/// The value of a cached entry.
pub open spec fn value_of<V>(memo: Arc<Memo<V>>) -> V {
    *memo.value
}

/// Calls `Arc::clone`: the new pointer points to the same value.
#[verifier::external_body]
pub(crate) fn share<T>(a: &Arc<T>) -> (r: Arc<T>)
    ensures
        r == a,
{
    a.clone()
}

} // verus!
