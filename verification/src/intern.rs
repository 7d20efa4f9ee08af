//! The interning store: definition locations and the small identities that
//! stand for them.

use std::collections::HashMap;
use vstd::prelude::*;
use vstd::std_specs::hash::*;
use crate::base::{DefId, FileId};

verus! {

/// What kind of definition a location names.
#[derive(Clone, Copy, Debug, PartialEq, Eq, Structural, Hash)]
pub enum DefKind {
    Module,
    Function,
    Struct,
    Enum,
    Item,
}

/// An item of a file: the file, and the item's position among the items of
/// the file; no position for the file as a whole.
#[derive(Clone, Copy, Debug, PartialEq, Eq, Structural, Hash)]
pub struct SourceItemId {
    pub file_id: FileId,
    pub item_id: Option<u32>,
}

/// The location of a definition: the item, and the kind of the definition.
#[derive(Clone, Copy, Debug, PartialEq, Eq, Structural, Hash)]
pub struct DefLoc {
    pub kind: DefKind,
    pub source_item_id: SourceItemId,
}

/// The number that stands for a kind.
pub open spec fn kind_code(kind: DefKind) -> int {
    match kind {
        DefKind::Module => 0,
        DefKind::Function => 1,
        DefKind::Struct => 2,
        DefKind::Enum => 3,
        DefKind::Item => 4,
    }
}

/// The number that stands for a location: no two locations share one.
pub open spec fn code_of(loc: DefLoc) -> int {
    loc.source_item_id.file_id.0 * 0x100_0000_0000 + match loc.source_item_id.item_id {
        Some(i) => i + 1,
        None => 0,
    } * 8 + kind_code(loc.kind)
}

/// Two locations with one code are one location.
pub proof fn lemma_code_injective(a: DefLoc, b: DefLoc)
    requires
        code_of(a) == code_of(b),
    ensures
        a == b,
{
}

/// The first position from `from` on that holds `loc`.
pub open spec fn position_of(locs: Seq<DefLoc>, loc: DefLoc, from: int) -> Option<int>
    decreases locs.len() - from,
{
    if from < 0 || from >= locs.len() {
        None
    } else if locs[from] == loc {
        Some(from)
    } else {
        position_of(locs, loc, from + 1)
    }
}

/// What the position says: a location at a position at or after `from`
/// that holds `loc`, the first such; or no such position.
pub proof fn lemma_position_of(locs: Seq<DefLoc>, loc: DefLoc, from: int)
    requires
        0 <= from,
    ensures
        match position_of(locs, loc, from) {
            Some(k) => from <= k < locs.len() && locs[k] == loc && forall|i: int|
                from <= i < k ==> locs[i] != loc,
            None => forall|i: int| from <= i < locs.len() ==> locs[i] != loc,
        },
    decreases locs.len() - from,
{
    if from < locs.len() && locs[from] != loc {
        lemma_position_of(locs, loc, from + 1);
    }
}

/// No location stands twice.
pub open spec fn distinct(locs: Seq<DefLoc>) -> bool {
    forall|i: int, j: int| 0 <= i < j < locs.len() ==> locs[i] != locs[j]
}

/// The store after `loc` was interned, and the identity of `loc`: the one it
/// had, or the next one.
pub open spec fn interned(locs: Seq<DefLoc>, loc: DefLoc) -> (Seq<DefLoc>, int) {
    match position_of(locs, loc, 0) {
        Some(k) => (locs, k),
        None => (locs.push(loc), locs.len() as int),
    }
}

/// The store with `loc` interned, as far as identities are left: a location
/// that has none gets the next one, unless all were given out.
pub open spec fn interned_within(locs: Seq<DefLoc>, loc: DefLoc) -> Seq<DefLoc> {
    if position_of(locs, loc, 0).is_none() && locs.len() < u32::MAX {
        locs.push(loc)
    } else {
        locs
    }
}

/// Looking up what was just interned gives it back, and interning keeps a
/// store without repetitions so.
pub proof fn law_lookup_after_intern(locs: Seq<DefLoc>, loc: DefLoc)
    requires
        distinct(locs),
    ensures
        0 <= interned(locs, loc).1 < interned(locs, loc).0.len(),
        interned(locs, loc).0[interned(locs, loc).1] == loc,
        distinct(interned(locs, loc).0),
        forall|i: int| 0 <= i < locs.len() ==> interned(locs, loc).0[i] == locs[i],
{
    lemma_position_of(locs, loc, 0);
}

/// Interning what an identity stands for gives the identity back, and
/// leaves the store as it is.
pub proof fn law_intern_after_lookup(locs: Seq<DefLoc>, id: int)
    requires
        distinct(locs),
        0 <= id < locs.len(),
    ensures
        interned(locs, locs[id]) == (locs, id),
{
    lemma_position_of(locs, locs[id], 0);
}

/// The interning store.
pub struct LocationInterner {
    map: HashMap<u128, u32>,
    vec: Vec<DefLoc>,
}

impl LocationInterner {
    /// The locations of the store; each stands at its identity.
    pub closed spec fn locs(&self) -> Seq<DefLoc> {
        self.vec@
    }

    /// The store is in order: no location stands twice, every identity fits
    /// in 32 bits, and the table finds every location.
    pub closed spec fn inv(&self) -> bool {
        &&& distinct(self.vec@)
        &&& self.vec@.len() <= u32::MAX
        &&& forall|i: int|
            0 <= i < self.vec@.len() ==> self.map@.contains_key(code_of(#[trigger] self.vec@[i]) as u128)
                && self.map@[code_of(self.vec@[i]) as u128] == i
        &&& forall|k: u128|
            self.map@.contains_key(k) ==> (#[trigger] self.map@[k]) < self.vec@.len() && code_of(
                self.vec@[self.map@[k] as int],
            ) == k
    }

    /// A store in order holds no location twice, so every identity of it
    /// goes round: the identity of the location that it stands for is the
    /// identity again.
    pub proof fn law_identities_go_round(&self, id: DefId)
        requires
            self.inv(),
            id.0 < self.locs().len(),
        ensures
            distinct(self.locs()),
            position_of(self.locs(), self.locs()[id.0 as int], 0) == Some(id.0 as int),
            interned(self.locs(), self.locs()[id.0 as int]) == (self.locs(), id.0 as int),
    {
        lemma_position_of(self.locs(), self.locs()[id.0 as int], 0);
    }

    /// An empty store.
    pub fn new() -> (r: LocationInterner)
        ensures
            r.inv(),
            r.locs() == Seq::<DefLoc>::empty(),
    {
        broadcast use group_hash_axioms;

        LocationInterner { map: HashMap::new(), vec: Vec::new() }
    }

    /// The number of locations.
    pub fn len(&self) -> (n: usize)
        ensures
            n == self.locs().len(),
    {
        self.vec.len()
    }

    /// The identity of a location that was interned.
    pub fn get(&self, loc: &DefLoc) -> (r: Option<DefId>)
        requires
            self.inv(),
        ensures
            match r {
                Some(id) => position_of(self.locs(), *loc, 0) == Some(id.0 as int),
                None => position_of(self.locs(), *loc, 0).is_none(),
            },
    {
        broadcast use group_hash_axioms;

        let key = encode(loc);
        proof {
            lemma_position_of(self.vec@, *loc, 0);
        }
        match self.map.get(&key) {
            Some(id) => {
                proof {
                    lemma_code_injective(self.vec@[*id as int], *loc);
                }
                Some(DefId(*id))
            },
            None => {
                assert forall|i: int| 0 <= i < self.vec@.len() implies self.vec@[i] != *loc by {
                    assert(self.map@.contains_key(code_of(self.vec@[i]) as u128));
                }
                None
            },
        }
    }

    /// The identity of a location: the one it has, or the next one. Nothing
    /// once the identities have run out.
    pub fn intern(&mut self, loc: DefLoc) -> (r: Option<DefId>)
        requires
            old(self).inv(),
        ensures
            final(self).inv(),
            final(self).locs() == interned_within(old(self).locs(), loc),
            match r {
                Some(id) => (final(self).locs(), id.0 as int) == interned(old(self).locs(), loc),
                None => final(self).locs() == old(self).locs() && position_of(
                    old(self).locs(),
                    loc,
                    0,
                ).is_none() && old(self).locs().len() == u32::MAX,
            },
    {
        broadcast use group_hash_axioms;

        match self.get(&loc) {
            Some(id) => Some(id),
            None => {
                if self.vec.len() >= u32::MAX as usize {
                    return None;
                }
                proof {
                    lemma_position_of(self.vec@, loc, 0);
                }
                let id = self.vec.len() as u32;
                let key = encode(&loc);
                let ghost before = *self;
                self.vec.push(loc);
                self.map.insert(key, id);
                proof {
                    assert forall|i: int| 0 <= i < self.vec@.len() implies self.map@.contains_key(
                        code_of(#[trigger] self.vec@[i]) as u128,
                    ) && self.map@[code_of(self.vec@[i]) as u128] == i by {
                        if i < before.vec@.len() {
                            assert(self.vec@[i] == before.vec@[i]);
                            assert(before.map@.contains_key(code_of(before.vec@[i]) as u128));
                            if code_of(before.vec@[i]) == code_of(loc) {
                                lemma_code_injective(before.vec@[i], loc);
                            }
                        }
                    }
                    assert forall|k: u128| self.map@.contains_key(k) implies (#[trigger] self.map@[k])
                        < self.vec@.len() && code_of(self.vec@[self.map@[k] as int]) == k by {
                        if k != key {
                            assert(before.map@.contains_key(k));
                            assert(self.vec@[before.map@[k] as int] == before.vec@[before.map@[k] as int]);
                        }
                    }
                }
                Some(DefId(id))
            },
        }
    }

    /// The location that an identity stands for.
    pub fn lookup(&self, id: DefId) -> (loc: DefLoc)
        requires
            id.0 < self.locs().len(),
        ensures
            loc == self.locs()[id.0 as int],
    {
        self.vec[id.0 as usize]
    }

    /// The location that an identity stands for, or nothing for an identity
    /// that was never given out.
    pub fn try_lookup(&self, id: DefId) -> (r: Option<DefLoc>)
        ensures
            r == if id.0 < self.locs().len() {
                Some(self.locs()[id.0 as int])
            } else {
                None
            },
    {
        if (id.0 as usize) < self.vec.len() {
            Some(self.vec[id.0 as usize])
        } else {
            None
        }
    }

    /// A copy of the store: the same locations under the same identities.
    pub fn duplicate(&self) -> (r: LocationInterner)
        requires
            self.inv(),
        ensures
            r.inv(),
            r.locs() == self.locs(),
    {
        let mut r = LocationInterner::new();
        let mut i: usize = 0;
        while i < self.vec.len()
            invariant
                i <= self.vec.len(),
                self.inv(),
                r.inv(),
                r.locs() == self.locs().take(i as int),
            decreases self.vec.len() - i,
        {
            proof {
                lemma_position_of(r.locs(), self.vec@[i as int], 0);
                assert forall|k: int| 0 <= k < i implies r.locs()[k] != self.vec@[i as int] by {
                    assert(r.locs()[k] == self.vec@[k]);
                }
                assert(self.locs().take(i as int + 1) =~= self.locs().take(i as int).push(
                    self.vec@[i as int],
                ));
            }
            let id = r.intern(self.vec[i]);
            i = i + 1;
        }
        assert(self.locs().take(i as int) =~= self.locs());
        r
    }
}

/// The key under which the table holds a location.
fn encode(loc: &DefLoc) -> (key: u128)
    ensures
        key == code_of(*loc),
{
    let item: u128 = match loc.source_item_id.item_id {
        Some(i) => i as u128 + 1,
        None => 0,
    };
    let kind: u128 = match loc.kind {
        DefKind::Module => 0,
        DefKind::Function => 1,
        DefKind::Struct => 2,
        DefKind::Enum => 3,
        DefKind::Item => 4,
    };
    (loc.source_item_id.file_id.0 as u128) * 0x100_0000_0000 + item * 8 + kind
}

} // verus!
