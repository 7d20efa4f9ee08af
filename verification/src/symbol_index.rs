//! The symbol index: symbols sorted by lower-cased name beside a finite-state
//! transducer from that name to the symbol's position, and the search over a
//! set of such indices.

use std::sync::Arc;
use fst::Streamer;
use rayon::slice::ParallelSliceMut;
use vstd::prelude::*;
use crate::base::{FileId, FileSymbol, SyntaxKind};
use crate::text::{holds_needle, lemma_lex_irreflexive, lemma_lex_total, lemma_lex_transitive,
    lemma_subsequence_of_itself, lex_lt, lowercased, to_lowercase};

verus! {

/// The transducer of the `fst` crate: an ordered map from byte strings to
/// `u64`. What it holds is spoken of through `fst_entries` alone.
#[verifier::external_type_specification]
#[verifier::external_body]
pub struct ExFstMap(fst::Map);

/// What a transducer holds: for each key, taken as the string it encodes, its
/// value.
pub uninterp spec fn fst_entries(m: fst::Map) -> Map<Seq<char>, u64>;

/// What the union of the subsequence searches over several transducers
/// streams: one group per matching key, each group the (transducer, value)
/// pairs under that key.
pub uninterp spec fn fst_union_matches(tables: Seq<Map<Seq<char>, u64>>, needle: Seq<char>) -> Seq<
    Seq<(usize, u64)>,
>;

/// A symbol with the file it belongs to.
pub type Entry = (FileId, FileSymbol);

/// A symbol under the key it is sorted by.
pub type Keyed = (String, (FileId, FileSymbol));

/// The key of an entry: its name in lower case.
pub open spec fn key_of(e: Entry) -> Seq<char> {
    lowercased(e.1.name@)
}

/// The keys of a sequence of entries.
pub open spec fn keys_of(entries: Seq<Entry>) -> Seq<Seq<char>> {
    Seq::new(entries.len(), |i: int| key_of(entries[i]))
}

/// Each key is strictly below the next ones.
pub open spec fn strictly_sorted(keys: Seq<Seq<char>>) -> bool {
    forall|i: int, j: int| 0 <= i < j < keys.len() ==> lex_lt(#[trigger] keys[i], #[trigger] keys[j])
}

/// The table that sends each key to its position.
pub open spec fn position_table(keys: Seq<Seq<char>>) -> Map<Seq<char>, u64> {
    Map::new(|k: Seq<char>| keys.contains(k), |k: Seq<char>| keys.index_of(k) as u64)
}

/// The symbols of all files, each with its file, in the order given.
pub open spec fn flatten(files: Seq<(FileId, Vec<FileSymbol>)>) -> Seq<Entry>
    decreases files.len(),
{
    if files.len() == 0 {
        Seq::empty()
    } else {
        flatten(files.drop_last()) + file_entries(files.last().0, files.last().1@)
    }
}

/// The symbols of one file, each with the file.
pub open spec fn file_entries(file_id: FileId, symbols: Seq<FileSymbol>) -> Seq<Entry> {
    Seq::new(symbols.len(), |i: int| (file_id, symbols[i]))
}

/// `index` holds, for every key among `all`, the first entry of `all` under
/// that key, and nothing else; its keys rise strictly.
pub open spec fn is_index_of(all: Seq<Entry>, index: Seq<Entry>) -> bool {
    &&& strictly_sorted(keys_of(index))
    &&& forall|i: int| 0 <= i < index.len() ==> is_first_in(all, #[trigger] index[i])
    &&& forall|m: int| 0 <= m < all.len() ==> has_key(index, key_of(#[trigger] all[m]))
}

/// `e` is the first entry of `all` under its key.
pub open spec fn is_first_in(all: Seq<Entry>, e: Entry) -> bool {
    exists|m: int| is_first_under_key(all, m, e)
}

/// Some entry of `index` has the key `k`.
pub open spec fn has_key(index: Seq<Entry>, k: Seq<char>) -> bool {
    exists|i: int| 0 <= i < index.len() && key_of(#[trigger] index[i]) == k
}

/// `all[m]` is `e`, and no earlier entry of `all` has its key.
pub open spec fn is_first_under_key(all: Seq<Entry>, m: int, e: Entry) -> bool {
    &&& 0 <= m < all.len()
    &&& all[m] == e
    &&& forall|k: int| 0 <= k < m ==> key_of(#[trigger] all[k]) != key_of(e)
}

/// `after` is `before` in the order `perm`, whose inverse is `inv`; keys do
/// not fall, and entries under one key keep the order they had.
pub open spec fn stable_sorted_by(
    before: Seq<Keyed>,
    after: Seq<Keyed>,
    perm: Seq<int>,
    inv: Seq<int>,
) -> bool {
    &&& after.len() == before.len()
    &&& perm.len() == before.len()
    &&& inv.len() == before.len()
    &&& forall|i: int|
        0 <= i < perm.len() ==> 0 <= #[trigger] perm[i] < before.len() && after[i] == before[perm[i]]
            && inv[perm[i]] == i
    &&& forall|m: int|
        0 <= m < inv.len() ==> 0 <= #[trigger] inv[m] < before.len() && perm[inv[m]] == m
    &&& forall|i: int, j: int|
        0 <= i < j < after.len() ==> !lex_lt(#[trigger] after[j].0@, #[trigger] after[i].0@)
    &&& forall|i: int, j: int|
        0 <= i < j < after.len() && after[i].0@ == after[j].0@ ==> #[trigger] perm[i]
            < #[trigger] perm[j]
}

/// Calls rayon's `par_sort_by` with the order of the keys. The contract says
/// what rayon documents of it: the slice is sorted by the comparison, and the
/// sort is stable.
#[verifier::external_body]
fn sort_by_key(entries: &mut Vec<Keyed>)
    ensures
        exists|perm: Seq<int>, inv: Seq<int>|
            stable_sorted_by(old(entries)@, final(entries)@, perm, inv),
{
    entries.par_sort_by(|s1, s2| s1.0.cmp(&s2.0));
}

/// Calls `fst::Map::from_iter` on the names paired with their positions.
/// The builder refuses a key that is not above the one before it; `requires`
/// leaves such input out. The map then holds each name with its position.
#[verifier::external_body]
fn build_map(names: &Vec<String>) -> (m: fst::Map)
    requires
        strictly_sorted(Seq::new(names@.len(), |i: int| names@[i]@)),
    ensures
        fst_entries(m) == position_table(Seq::new(names@.len(), |i: int| names@[i]@)),
{
    fst::Map::from_iter(names.iter().zip(0u64..)).unwrap()
}

/// The tables of the transducers of `indices`.
pub open spec fn tables_of(indices: Seq<Arc<SymbolIndex>>) -> Seq<Map<Seq<char>, u64>> {
    Seq::new(indices.len(), |i: int| indices[i].table())
}

/// Some group holds the pair.
pub open spec fn streams(groups: Seq<Seq<(usize, u64)>>, hit: (usize, u64)) -> bool {
    exists|g: int, j: int| 0 <= g < groups.len() && 0 <= j < groups[g].len() && groups[g][j] == hit
}

/// The pair names a table and the value that the table holds under a key
/// that holds the needle.
pub open spec fn hit_matches(tables: Seq<Map<Seq<char>, u64>>, needle: Seq<char>, hit: (usize, u64)) -> bool {
    &&& hit.0 < tables.len()
    &&& exists|key: Seq<char>|
        #[trigger] tables[hit.0 as int].dom().contains(key) && tables[hit.0 as int][key] == hit.1
            && holds_needle(key, needle)
}

/// The pair names a table and the value that the table holds under `key`.
pub open spec fn under_key(tables: Seq<Map<Seq<char>, u64>>, key: Seq<char>, hit: (usize, u64)) -> bool {
    hit.0 < tables.len() && tables[hit.0 as int].dom().contains(key) && tables[hit.0 as int][key]
        == hit.1
}

/// Every pair of group `g` stands under the key `keys[g]`.
pub open spec fn keyed_by(tables: Seq<Map<Seq<char>, u64>>, groups: Seq<Seq<(usize, u64)>>, keys: Seq<Seq<char>>) -> bool {
    &&& keys.len() == groups.len()
    &&& forall|g: int, j: int|
        0 <= g < groups.len() && 0 <= j < groups[g].len() ==> under_key(
            tables,
            keys[g],
            #[trigger] groups[g][j],
        )
}

/// The groups come key by key: each group stands under a key of its own,
/// the keys rise from group to group, and no table stands twice in a group.
pub open spec fn key_by_key(tables: Seq<Map<Seq<char>, u64>>, groups: Seq<Seq<(usize, u64)>>) -> bool {
    &&& exists|keys: Seq<Seq<char>>| #[trigger] keyed_by(tables, groups, keys) && strictly_sorted(keys)
    &&& forall|g: int, j: int, k: int|
        0 <= g < groups.len() && 0 <= j < k < groups[g].len() ==> (#[trigger] groups[g][j]).0 != (
        #[trigger] groups[g][k]).0
}

/// The groups hold what the search finds, and nothing else: every pair of
/// every group names a table and the value under a key that holds the
/// needle; for each key of each table that holds the needle, some group
/// holds the table with the value under the key; and the groups come key by
/// key, in the rising order of the keys.
pub open spec fn stream_exact(
    tables: Seq<Map<Seq<char>, u64>>,
    needle: Seq<char>,
    groups: Seq<Seq<(usize, u64)>>,
) -> bool {
    &&& forall|g: int, j: int|
        0 <= g < groups.len() && 0 <= j < groups[g].len() ==> hit_matches(
            tables,
            needle,
            #[trigger] groups[g][j],
        )
    &&& forall|i: int, key: Seq<char>|
        0 <= i < tables.len() && #[trigger] tables[i].dom().contains(key) && holds_needle(key, needle)
            ==> streams(groups, (i as usize, tables[i][key]))
    &&& key_by_key(tables, groups)
}

/// The groups as sequences.
pub open spec fn groups_of(groups: Seq<Vec<(usize, u64)>>) -> Seq<Seq<(usize, u64)>> {
    Seq::new(groups.len(), |g: int| groups[g]@)
}

/// Runs `fst`'s subsequence automaton for `needle` over the transducer of
/// each index, unites the streams with `OpBuilder::union`, and hands out what
/// the union streams, group by group. The contract names the groups, as a
/// function of the tables and the needle, and says of them what `fst`
/// documents of a search and of a union: the keys that are streamed are
/// those that the automaton matches, which are those that hold the bytes of
/// the needle as a subsequence; they are streamed once each, in rising
/// order; and under each key stands every transducer that holds it, once,
/// with its value.
#[verifier::external_body]
fn union_search(indices: &Vec<Arc<SymbolIndex>>, needle: &str) -> (groups: Vec<Vec<(usize, u64)>>)
    ensures
        groups_of(groups@) == fst_union_matches(tables_of(indices@), needle@),
        stream_exact(tables_of(indices@), needle@, groups_of(groups@)),
{
    let mut op = fst::map::OpBuilder::new();
    for index in indices.iter() {
        op = op.add(index.map.search(fst::automaton::Subsequence::new(needle)));
    }
    let mut stream = op.union();
    let mut groups = Vec::new();
    while let Some((_, values)) = stream.next() {
        groups.push(values.iter().map(|v| (v.index, v.value)).collect());
    }
    groups
}

/// `keyed` holds the entries of `flat`, each under its key.
pub open spec fn keyed_matches(keyed: Seq<Keyed>, flat: Seq<Entry>) -> bool {
    &&& keyed.len() == flat.len()
    &&& forall|i: int|
        0 <= i < keyed.len() ==> (#[trigger] keyed[i]).1 == flat[i] && keyed[i].0@ == key_of(flat[i])
}

/// One of `names` reads `key`.
pub open spec fn has_name(names: Seq<String>, key: Seq<char>) -> bool {
    exists|t: int| 0 <= t < names.len() && (#[trigger] names[t])@ == key
}

/// The entry at `idx` opens a run of equal keys.
pub open spec fn opens_run(sorted: Seq<Keyed>, idx: int) -> bool {
    &&& 0 <= idx < sorted.len()
    &&& idx == 0 || sorted[idx].0@ != sorted[idx - 1].0@
}

/// In a stable sort, the entry that opens a run is the first of its key in
/// the unsorted sequence.
proof fn lemma_run_opener_is_first(
    before: Seq<Keyed>,
    after: Seq<Keyed>,
    perm: Seq<int>,
    inv: Seq<int>,
    idx: int,
    k: int,
)
    requires
        stable_sorted_by(before, after, perm, inv),
        opens_run(after, idx),
        0 <= k < perm[idx],
    ensures
        before[k].0@ != after[idx].0@,
{
    if before[k].0@ == after[idx].0@ {
        let j = inv[k];
        assert(perm[j] == k);
        assert(after[j] == before[perm[j]]);
        if j < idx {
            if j < idx - 1 {
                let x = after[idx - 1].0@;
                let key = after[idx].0@;
                assert(!lex_lt(after[idx - 1].0@, after[j].0@));
                assert(!lex_lt(after[idx].0@, after[idx - 1].0@));
                lemma_lex_total(x, key);
            }
            assert(false);
        } else if j > idx {
            assert(perm[idx] < perm[j]);
            assert(false);
        } else {
            assert(false);
        }
    }
}

/// Keys that rise strictly do not repeat, and rise over any distance.
proof fn lemma_sorted_keys(keys: Seq<Seq<char>>, i: int, j: int)
    requires
        strictly_sorted(keys),
        0 <= i < keys.len(),
        0 <= j < keys.len(),
        keys[i] == keys[j],
    ensures
        i == j,
{
    if i < j {
        lemma_lex_irreflexive(keys[i]);
    } else if j < i {
        lemma_lex_irreflexive(keys[j]);
    }
}

/// Two strictly rising sequences of keys that hold the same keys agree up
/// to any position that both have.
proof fn lemma_same_keys_upto(a: Seq<Seq<char>>, b: Seq<Seq<char>>, n: int)
    requires
        strictly_sorted(a),
        strictly_sorted(b),
        forall|i: int| 0 <= i < a.len() ==> b.contains(#[trigger] a[i]),
        forall|j: int| 0 <= j < b.len() ==> a.contains(#[trigger] b[j]),
        0 <= n <= a.len(),
        n <= b.len(),
    ensures
        forall|i: int| 0 <= i < n ==> a[i] == b[i],
    decreases n,
{
    if n > 0 {
        lemma_same_keys_upto(a, b, n - 1);
        let i = n - 1;
        assert(b.contains(a[i]));
        let j = choose|j: int| 0 <= j < b.len() && b[j] == a[i];
        assert(a.contains(b[i]));
        let k = choose|k: int| 0 <= k < a.len() && a[k] == b[i];
        if j < i {
            lemma_sorted_keys(a, j, i);
        }
        if k < i {
            lemma_sorted_keys(b, k, i);
        }
        if j > i {
            // b[i] < b[j] == a[i] <= a[k] == b[i]
            assert(lex_lt(b[i], b[j]));
            if k > i {
                assert(lex_lt(a[i], a[k]));
                lemma_lex_transitive(b[i], a[i], b[i]);
            }
            lemma_lex_irreflexive(b[i]);
        }
    }
}

/// Two strictly rising sequences of keys that hold the same keys are one
/// sequence.
proof fn lemma_same_keys(a: Seq<Seq<char>>, b: Seq<Seq<char>>)
    requires
        strictly_sorted(a),
        strictly_sorted(b),
        forall|i: int| 0 <= i < a.len() ==> b.contains(#[trigger] a[i]),
        forall|j: int| 0 <= j < b.len() ==> a.contains(#[trigger] b[j]),
    ensures
        a == b,
{
    if a.len() <= b.len() {
        lemma_same_keys_upto(a, b, a.len() as int);
        if a.len() < b.len() {
            let extra = b[a.len() as int];
            assert(a.contains(extra));
            let k = choose|k: int| 0 <= k < a.len() && a[k] == extra;
            lemma_sorted_keys(b, k, a.len() as int);
        }
    } else {
        lemma_same_keys_upto(a, b, b.len() as int);
        let extra = a[b.len() as int];
        assert(b.contains(extra));
        let k = choose|k: int| 0 <= k < b.len() && b[k] == extra;
        lemma_sorted_keys(a, k, b.len() as int);
    }
    assert(a =~= b);
}

/// The index of a sequence of symbols is one: two sequences that both are
/// the index of `all` are equal. So a cached index that is the index of the
/// current symbols is the one that would be built from them anew.
pub proof fn law_index_unique(all: Seq<Entry>, a: Seq<Entry>, b: Seq<Entry>)
    requires
        is_index_of(all, a),
        is_index_of(all, b),
    ensures
        a == b,
{
    let ka = keys_of(a);
    let kb = keys_of(b);
    assert forall|i: int| 0 <= i < ka.len() implies kb.contains(#[trigger] ka[i]) by {
        assert(is_first_in(all, a[i]));
        let m = choose|m: int| is_first_under_key(all, m, a[i]);
        assert(has_key(b, key_of(all[m])));
        let j = choose|j: int| 0 <= j < b.len() && key_of(#[trigger] b[j]) == key_of(all[m]);
        assert(kb[j] == ka[i]);
    }
    assert forall|j: int| 0 <= j < kb.len() implies ka.contains(#[trigger] kb[j]) by {
        assert(is_first_in(all, b[j]));
        let m = choose|m: int| is_first_under_key(all, m, b[j]);
        assert(has_key(a, key_of(all[m])));
        let i = choose|i: int| 0 <= i < a.len() && key_of(#[trigger] a[i]) == key_of(all[m]);
        assert(ka[i] == kb[j]);
    }
    lemma_same_keys(ka, kb);
    assert(a.len() == b.len());
    assert forall|i: int| 0 <= i < a.len() implies a[i] == b[i] by {
        assert(ka[i] == kb[i]);
        assert(is_first_in(all, a[i]));
        assert(is_first_in(all, b[i]));
        let m = choose|m: int| is_first_under_key(all, m, a[i]);
        let n = choose|n: int| is_first_under_key(all, n, b[i]);
        if m < n {
            assert(key_of(all[m]) != key_of(b[i]));
        } else if n < m {
            assert(key_of(all[n]) != key_of(a[i]));
        }
    }
    assert(a =~= b);
}

/// Two sequences of entries hold the same symbols of the same files.
pub open spec fn same_entries(a: Seq<Entry>, b: Seq<Entry>) -> bool {
    &&& a.len() == b.len()
    &&& forall|i: int| 0 <= i < a.len() ==> (#[trigger] a[i]).0 == b[i].0 && a[i].1.same(b[i].1)
}

/// An index of symbols: the symbols in the strict order of their lower-cased
/// names, one per name, and the transducer from each such name to the
/// position of its symbol.
pub struct SymbolIndex {
    symbols: Vec<(FileId, FileSymbol)>,
    map: fst::Map,
}

impl SymbolIndex {
    /// The symbols, in the order of the index.
    pub closed spec fn entries(&self) -> Seq<Entry> {
        self.symbols@
    }

    #[verifier::type_invariant]
    pub open spec fn inv(&self) -> bool {
        self.wf()
    }

    /// What the transducer of the index holds.
    pub closed spec fn table(&self) -> Map<Seq<char>, u64> {
        fst_entries(self.map)
    }

    /// The index is in order: the keys of its symbols rise strictly, and its
    /// transducer sends each key to the position of its symbol. Every index
    /// that this module hands out is.
    pub closed spec fn wf(&self) -> bool {
        &&& strictly_sorted(keys_of(self.symbols@))
        &&& fst_entries(self.map) == position_table(keys_of(self.symbols@))
    }

    /// In an index in order, a key that the table holds with a value is the
    /// key of the symbol at that position.
    pub proof fn lemma_table_key(&self, key: Seq<char>, v: int)
        requires
            self.wf(),
            self.table().dom().contains(key),
            self.table()[key] == v,
        ensures
            0 <= v < self.entries().len(),
            key_of(self.entries()[v]) == key,
    {
        let keys = keys_of(self.symbols@);
        assert(keys.contains(key));
        assert(self.symbols.len() == self.symbols@.len());
    }

    /// In an index in order, the table of the transducer holds the key of
    /// each symbol, with the position of the symbol.
    pub proof fn lemma_table_holds(&self, v: int)
        requires
            self.wf(),
            0 <= v < self.entries().len(),
        ensures
            self.table().dom().contains(key_of(self.entries()[v])),
            self.table()[key_of(self.entries()[v])] == v,
            v <= u64::MAX,
    {
        let keys = keys_of(self.symbols@);
        let k = keys[v];
        assert(keys.contains(k));
        let found = keys.index_of(k);
        lemma_sorted_keys(keys, found, v);
        assert(self.symbols.len() == self.symbols@.len());
    }

    /// Builds the index of the symbols of `files`: sorted by lower-cased
    /// name, and of the symbols that share such a name the first one given.
    pub fn for_files(files: Vec<(FileId, Vec<FileSymbol>)>) -> (index: SymbolIndex)
        ensures
            is_index_of(flatten(files@), index.entries()),
            index.wf(),
    {
        let mut keyed: Vec<Keyed> = Vec::new();
        let mut f: usize = 0;
        assert(files@.take(0) =~= Seq::empty());
        while f < files.len()
            invariant
                f <= files.len(),
                keyed_matches(keyed@, flatten(files@.take(f as int))),
            decreases files.len() - f,
        {
            let file_id = files[f].0;
            let symbols = &files[f].1;
            let ghost done = flatten(files@.take(f as int));
            let mut s: usize = 0;
            while s < symbols.len()
                invariant
                    s <= symbols.len(),
                    keyed_matches(keyed@, done + file_entries(file_id, symbols@.take(s as int))),
                decreases symbols.len() - s,
            {
                let symbol = symbols[s].duplicate();
                let key = to_lowercase(symbol.name.as_str());
                proof {
                    let next = file_entries(file_id, symbols@.take(s as int + 1));
                    let now = file_entries(file_id, symbols@.take(s as int));
                    assert(done + next =~= (done + now).push((file_id, symbol)));
                }
                keyed.push((key, (file_id, symbol)));
                s = s + 1;
            }
            proof {
                assert(symbols@.take(s as int) =~= symbols@);
                assert(files@.take(f as int + 1).drop_last() =~= files@.take(f as int));
                assert(files@.take(f as int + 1).last() == files@[f as int]);
            }
            f = f + 1;
        }
        assert(files@.take(f as int) =~= files@);
        let ghost flat = flatten(files@);
        let ghost before = keyed@;
        sort_by_key(&mut keyed);
        let ghost after = keyed@;
        let ghost (perm, inv) = choose|perm: Seq<int>, inv: Seq<int>|
            stable_sorted_by(before, after, perm, inv);

        let mut names: Vec<String> = Vec::new();
        let mut symbols: Vec<(FileId, FileSymbol)> = Vec::new();
        let ghost mut src: Seq<int> = Seq::empty();
        let mut i: usize = 0;
        while i < keyed.len()
            invariant
                i <= keyed.len(),
                keyed@ == after,
                stable_sorted_by(before, after, perm, inv),
                names.len() == symbols.len(),
                src.len() == symbols.len(),
                forall|t: int|
                    0 <= t < symbols.len() ==> 0 <= #[trigger] src[t] < i && opens_run(after, src[t])
                        && symbols[t] == after[src[t]].1 && names[t]@ == after[src[t]].0@,
                forall|a: int, b: int|
                    0 <= a < b < names.len() ==> lex_lt(#[trigger] names[a]@, #[trigger] names[b]@),
                i > 0 ==> names.len() > 0 && names[names.len() - 1]@ == after[i - 1].0@,
                forall|idx: int| 0 <= idx < i ==> has_name(names@, (#[trigger] after[idx]).0@),
            decreases keyed.len() - i,
        {
            let opens = if i == 0 {
                true
            } else {
                !(keyed[i].0 == keyed[i - 1].0)
            };
            if opens {
                let name = keyed[i].0.clone();
                let entry = (keyed[i].1.0, keyed[i].1.1.duplicate());
                let ghost old_names = names@;
                proof {
                    let key = after[i as int].0@;
                    assert forall|a: int| 0 <= a < old_names.len() implies lex_lt(
                        (#[trigger] old_names[a])@,
                        key,
                    ) by {
                        assert(src[a] < i);
                        let prev = after[i as int - 1].0@;
                        assert(!lex_lt(after[i as int].0@, after[i as int - 1].0@));
                        lemma_lex_total(prev, key);
                        assert(lex_lt(prev, key));
                        if a < old_names.len() - 1 {
                            assert(lex_lt(names[a]@, names[names.len() - 1]@));
                            lemma_lex_transitive(old_names[a]@, prev, key);
                        }
                    }
                    src = src.push(i as int);
                }
                names.push(name);
                symbols.push(entry);
                proof {
                    assert forall|a: int, b: int| 0 <= a < b < names.len() implies lex_lt(
                        #[trigger] names[a]@,
                        #[trigger] names[b]@,
                    ) by {
                        assert(names[a] == old_names[a]);
                        if b < old_names.len() {
                            assert(names[b] == old_names[b]);
                        } else {
                            assert(lex_lt(old_names[a]@, after[i as int].0@));
                        }
                    }
                    assert forall|idx: int| 0 <= idx < i + 1 implies has_name(
                        names@,
                        (#[trigger] after[idx]).0@,
                    ) by {
                        if idx < i {
                            assert(has_name(old_names, after[idx].0@));
                            let t = choose|t: int|
                                0 <= t < old_names.len() && (#[trigger] old_names[t])@ == after[idx].0@;
                            assert(names[t]@ == after[idx].0@);
                        } else {
                            assert(names[names.len() - 1]@ == after[idx].0@);
                        }
                    }
                }
            } else {
                proof {
                    assert forall|idx: int| 0 <= idx < i + 1 implies has_name(
                        names@,
                        (#[trigger] after[idx]).0@,
                    ) by {
                        if idx == i {
                            assert(names[names.len() - 1]@ == after[idx].0@);
                        }
                    }
                }
            }
            i = i + 1;
        }
        proof {
            let keys = keys_of(symbols@);
            assert forall|t: int| 0 <= t < symbols.len() implies #[trigger] keys[t] == names[t]@ by {
                let idx = src[t];
                let m = perm[idx];
                assert(after[idx] == before[m]);
                assert(before[m].1 == flat[m]);
            }
            assert(strictly_sorted(keys));
            assert(Seq::new(names@.len(), |i: int| names@[i]@) =~= keys);
            assert forall|t: int| 0 <= t < symbols.len() implies is_first_in(
                flat,
                #[trigger] symbols[t],
            ) by {
                let idx = src[t];
                let m = perm[idx];
                assert(after[idx] == before[m]);
                assert(before[m].1 == flat[m]);
                assert forall|k: int| 0 <= k < m implies key_of(#[trigger] flat[k]) != key_of(
                    symbols[t],
                ) by {
                    lemma_run_opener_is_first(before, after, perm, inv, idx, k);
                    assert(before[k].0@ == key_of(flat[k]));
                }
                assert(is_first_under_key(flat, m, symbols[t]));
            }
            assert forall|m: int| 0 <= m < flat.len() implies has_key(
                symbols@,
                key_of(#[trigger] flat[m]),
            ) by {
                let idx = inv[m];
                assert(perm[idx] == m);
                assert(after[idx] == before[perm[idx]]);
                assert(has_name(names@, after[idx].0@));
                let t = choose|t: int| 0 <= t < names.len() && (#[trigger] names[t])@ == after[idx].0@;
                assert(keys[t] == names[t]@);
                assert(key_of(symbols@[t]) == key_of(flat[m]));
            }
        }
        let map = build_map(&names);
        SymbolIndex { symbols, map }
    }

    /// Builds the index of the symbols of one file.
    pub fn for_file(file_id: FileId, symbols: Vec<FileSymbol>) -> (index: SymbolIndex)
        ensures
            is_index_of(file_entries(file_id, symbols@), index.entries()),
            index.wf(),
    {
        let mut files: Vec<(FileId, Vec<FileSymbol>)> = Vec::new();
        files.push((file_id, symbols));
        proof {
            assert(files@.drop_last() =~= Seq::empty());
            assert(flatten(files@.drop_last()) =~= Seq::empty());
            assert(flatten(files@) =~= file_entries(file_id, symbols@));
        }
        SymbolIndex::for_files(files)
    }

    /// Whether two indices hold the same symbols of the same files: the
    /// equality by which a new index counts as unchanged.
    pub fn same_symbols(&self, other: &SymbolIndex) -> (b: bool)
        ensures
            b == same_entries(self.entries(), other.entries()),
    {
        if self.symbols.len() != other.symbols.len() {
            return false;
        }
        let mut i: usize = 0;
        while i < self.symbols.len()
            invariant
                i <= self.symbols.len(),
                self.symbols.len() == other.symbols.len(),
                forall|k: int|
                    0 <= k < i ==> (#[trigger] self.symbols@[k]).0 == other.symbols@[k].0
                        && self.symbols@[k].1.same(other.symbols@[k].1),
            decreases self.symbols.len() - i,
        {
            if !(self.symbols[i].0 == other.symbols[i].0 && self.symbols[i].1.is_same(
                &other.symbols[i].1,
            )) {
                return false;
            }
            i = i + 1;
        }
        true
    }

    /// The number of symbols.
    pub fn len(&self) -> (n: usize)
        ensures
            n == self.entries().len(),
    {
        self.symbols.len()
    }

    /// The symbol at position `i`, or nothing where there is none.
    pub fn get(&self, i: usize) -> (r: Option<&(FileId, FileSymbol)>)
        ensures
            r == if i < self.entries().len() {
                Some(&self.entries()[i as int])
            } else {
                None
            },
    {
        if i < self.symbols.len() {
            Some(&self.symbols[i])
        } else {
            None
        }
    }
}

/// Whether a kind defines a type.
pub open spec fn spec_is_type(kind: SyntaxKind) -> bool {
    kind == SyntaxKind::StructDef || kind == SyntaxKind::EnumDef || kind == SyntaxKind::TraitDef
        || kind == SyntaxKind::TypeDef
}

/// Whether a kind defines a type: a struct, an enum, a trait or a type alias.
#[verifier::when_used_as_spec(spec_is_type)]
pub fn is_type(kind: SyntaxKind) -> (b: bool)
    ensures
        b == spec_is_type(kind),
{
    match kind {
        SyntaxKind::StructDef | SyntaxKind::EnumDef | SyntaxKind::TraitDef | SyntaxKind::TypeDef => true,
        _ => false,
    }
}

/// A search for symbols by name.
pub struct Query {
    /// The text as it was asked for.
    pub query: String,
    /// The text in lower case: the needle of the search.
    pub lowercased: String,
    /// Keep only symbols that define a type.
    pub only_types: bool,
    /// Search the libraries, not the local roots.
    pub libs: bool,
    /// Keep only symbols whose name is exactly the text.
    pub exact: bool,
    /// Stop once this many symbols were found.
    pub limit: usize,
}

/// The entry that a (transducer, value) pair stands for, where there is one.
pub open spec fn hit_entry(indices: Seq<Arc<SymbolIndex>>, hit: (usize, u64)) -> Option<Entry> {
    if hit.0 < indices.len() && hit.1 < indices[hit.0 as int].entries().len() {
        Some(indices[hit.0 as int].entries()[hit.1 as int])
    } else {
        None
    }
}

/// The entries come in the rising order of their keys: none stands before
/// one with a lesser key.
pub open spec fn rising(entries: Seq<Entry>) -> bool {
    forall|a: int, b: int|
        0 <= a < b < entries.len() ==> !lex_lt(key_of(#[trigger] entries[b]), key_of(#[trigger] entries[a]))
}

/// No entry stands twice among the entries.
pub open spec fn once(entries: Seq<Entry>) -> bool {
    forall|a: int, b: int| 0 <= a < b < entries.len() ==> #[trigger] entries[a] != #[trigger] entries[b]
}

/// No two of the indices hold the same entry.
pub open spec fn apart(indices: Seq<Arc<SymbolIndex>>) -> bool {
    forall|i: int, j: int, v: int, w: int|
        0 <= i < indices.len() && 0 <= j < indices.len() && i != j && 0 <= v < indices[i].entries().len()
            && 0 <= w < indices[j].entries().len() ==> #[trigger] indices[i].entries()[v]
            != #[trigger] indices[j].entries()[w]
}

/// The first `limit` entries, or all of them where they are fewer.
pub open spec fn first_of(entries: Seq<Entry>, limit: int) -> Seq<Entry> {
    if entries.len() <= limit {
        entries
    } else {
        entries.take(limit)
    }
}

impl Query {
    /// Whether the filters of the query let an entry through.
    pub open spec fn accepts(&self, e: Entry) -> bool {
        &&& self.only_types ==> spec_is_type(e.1.kind)
        &&& self.exact ==> e.1.name@ == self.query@
    }

    /// The entries of one group that the query lets through, in the group's
    /// order.
    pub open spec fn accepted(&self, indices: Seq<Arc<SymbolIndex>>, group: Seq<(usize, u64)>) -> Seq<
        Entry,
    >
        decreases group.len(),
    {
        if group.len() == 0 {
            Seq::empty()
        } else {
            let rest = self.accepted(indices, group.drop_last());
            match hit_entry(indices, group.last()) {
                Some(e) => if self.accepts(e) {
                    rest.push(e)
                } else {
                    rest
                },
                None => rest,
            }
        }
    }

    /// All that the query lets through of the groups, group after group.
    pub open spec fn matches(&self, indices: Seq<Arc<SymbolIndex>>, groups: Seq<Seq<(usize, u64)>>) -> Seq<
        Entry,
    >
        decreases groups.len(),
    {
        if groups.len() == 0 {
            Seq::empty()
        } else {
            self.matches(indices, groups.drop_last()) + self.accepted(indices, groups.last())
        }
    }

    /// What the search collects from the groups: the first matches, as many
    /// as the limit allows.
    pub open spec fn collected(
        &self,
        indices: Seq<Arc<SymbolIndex>>,
        groups: Seq<Seq<(usize, u64)>>,
    ) -> Seq<Entry> {
        first_of(self.matches(indices, groups), self.limit as int)
    }

    /// A query for `text` with no filter and no limit.
    pub fn new(text: String) -> (q: Query)
        ensures
            q.query == text,
            q.lowercased@ == lowercased(text@),
            !q.only_types,
            !q.libs,
            !q.exact,
            q.limit == usize::MAX,
    {
        let lowercased = to_lowercase(text.as_str());
        Query { query: text, lowercased, only_types: false, libs: false, exact: false, limit: usize::MAX }
    }

    /// Keeps only symbols that define a type.
    pub fn only_types(&mut self)
        ensures
            *final(self) == (Query { only_types: true, ..*old(self) }),
    {
        self.only_types = true;
    }

    /// Searches the libraries.
    pub fn libs(&mut self)
        ensures
            *final(self) == (Query { libs: true, ..*old(self) }),
    {
        self.libs = true;
    }

    /// Keeps only symbols whose name is exactly the text.
    pub fn exact(&mut self)
        ensures
            *final(self) == (Query { exact: true, ..*old(self) }),
    {
        self.exact = true;
    }

    /// Stops the search once `limit` symbols were found.
    pub fn limit(&mut self, limit: usize)
        ensures
            *final(self) == (Query { limit: limit, ..*old(self) }),
    {
        self.limit = limit;
    }

    /// Collects from the groups that a union search streamed the entries
    /// that pass the filters, in the order of the stream, and stops once it
    /// holds as many as the limit allows.
    pub fn collect(&self, indices: &Vec<Arc<SymbolIndex>>, groups: &Vec<Vec<(usize, u64)>>) -> (res:
        Vec<(FileId, FileSymbol)>)
        ensures
            res@ == self.collected(indices@, groups_of(groups@)),
    {
        let mut res: Vec<(FileId, FileSymbol)> = Vec::new();
        let ghost all = groups_of(groups@);
        let mut g: usize = 0;
        assert(all.take(0) =~= Seq::empty());
        assert(all.take(groups.len() as int) =~= all);
        while g < groups.len()
            invariant
                g <= groups.len(),
                all == groups_of(groups@),
                all.take(groups.len() as int) == all,
                res@ == first_of(self.matches(indices@, all.take(g as int)), self.limit as int),
            ensures
                res@ == self.collected(indices@, all),
            decreases groups.len() - g,
        {
            if res.len() >= self.limit {
                proof {
                    self.lemma_limit_reached(indices@, all, g as int);
                }
                break ;
            }
            let group = &groups[g];
            let ghost done = self.matches(indices@, all.take(g as int));
            let mut j: usize = 0;
            assert(group@.take(0) =~= Seq::empty());
            assert(done + self.accepted(indices@, group@.take(0)) =~= done);
            while j < group.len()
                invariant
                    j <= group.len(),
                    res@ == first_of(
                        done + self.accepted(indices@, group@.take(j as int)),
                        self.limit as int,
                    ),
                decreases group.len() - j,
            {
                let hit = group[j];
                let ghost seen = done + self.accepted(indices@, group@.take(j as int));
                proof {
                    assert(group@.take(j as int + 1).drop_last() =~= group@.take(j as int));
                    assert(group@.take(j as int + 1).last() == hit);
                }
                if hit.0 < indices.len() {
                    let index = &indices[hit.0];
                    if hit.1 < index.len() as u64 {
                        match index.get(hit.1 as usize) {
                            Some(entry) => {
                                let keep = (!self.only_types || is_type(entry.1.kind)) && (!self.exact
                                    || entry.1.name == self.query);
                                if keep {
                                    proof {
                                        assert(done + self.accepted(indices@, group@.take(j as int + 1))
                                            =~= seen.push(*entry));
                                        assert(first_of(seen.push(*entry), self.limit as int)
                                            =~= if seen.len() < self.limit {
                                            seen.push(*entry)
                                        } else {
                                            first_of(seen, self.limit as int)
                                        });
                                    }
                                    if res.len() < self.limit {
                                        res.push((entry.0, entry.1.duplicate()));
                                    }
                                }
                            },
                            None => {},
                        }
                    }
                }
                j = j + 1;
                assert(res@ =~= first_of(
                    done + self.accepted(indices@, group@.take(j as int)),
                    self.limit as int,
                ));
            }
            proof {
                assert(group@.take(j as int) =~= group@);
                assert(all.take(g as int + 1).drop_last() =~= all.take(g as int));
                assert(all.take(g as int + 1).last() == group@);
            }
            g = g + 1;
        }
        res
    }

    /// The matches of the first groups open the matches of all groups.
    pub proof fn lemma_matches_grow(&self, indices: Seq<Arc<SymbolIndex>>, groups: Seq<Seq<(usize, u64)>>, g: int)
        requires
            0 <= g <= groups.len(),
        ensures
            self.matches(indices, groups.take(g)).len() <= self.matches(indices, groups).len(),
            self.matches(indices, groups).take(self.matches(indices, groups.take(g)).len() as int)
                == self.matches(indices, groups.take(g)),
        decreases groups.len() - g,
    {
        let part = self.matches(indices, groups.take(g));
        if g == groups.len() {
            assert(groups.take(g) =~= groups);
            assert(part.take(part.len() as int) =~= part);
        } else {
            assert(groups.take(g + 1).drop_last() =~= groups.take(g));
            self.lemma_matches_grow(indices, groups, g + 1);
            let next = self.matches(indices, groups.take(g + 1));
            assert(next == part + self.accepted(indices, groups.take(g + 1).last()));
            assert(self.matches(indices, groups).take(part.len() as int) =~= next.take(
                part.len() as int,
            ));
            assert(next.take(part.len() as int) =~= part);
        }
    }

    /// Once the limit is reached, the groups that follow add nothing.
    pub proof fn lemma_limit_reached(
        &self,
        indices: Seq<Arc<SymbolIndex>>,
        groups: Seq<Seq<(usize, u64)>>,
        g: int,
    )
        requires
            0 <= g <= groups.len(),
            self.collected(indices, groups.take(g)).len() >= self.limit,
        ensures
            self.collected(indices, groups) == self.collected(indices, groups.take(g)),
    {
        self.lemma_matches_grow(indices, groups, g);
        let part = self.matches(indices, groups.take(g));
        let all = self.matches(indices, groups);
        assert(all.take(part.len() as int).take(self.limit as int) =~= all.take(self.limit as int));
        assert(self.collected(indices, groups) =~= self.collected(indices, groups.take(g)));
    }

    /// Every entry of a group that passes the filters is let through by the
    /// query.
    pub proof fn law_accepted_passes(&self, indices: Seq<Arc<SymbolIndex>>, group: Seq<(usize, u64)>)
        ensures
            forall|i: int|
                0 <= i < self.accepted(indices, group).len() ==> self.accepts(
                    #[trigger] self.accepted(indices, group)[i],
                ),
        decreases group.len(),
    {
        if group.len() > 0 {
            self.law_accepted_passes(indices, group.drop_last());
            let rest = self.accepted(indices, group.drop_last());
            let all = self.accepted(indices, group);
            assert forall|i: int| 0 <= i < all.len() implies self.accepts(#[trigger] all[i]) by {
                if i < rest.len() {
                    assert(all[i] == rest[i]);
                }
            }
        }
    }

    /// Every match passes the filters of the query.
    proof fn lemma_matches_pass(&self, indices: Seq<Arc<SymbolIndex>>, groups: Seq<Seq<(usize, u64)>>)
        ensures
            forall|i: int|
                0 <= i < self.matches(indices, groups).len() ==> self.accepts(
                    #[trigger] self.matches(indices, groups)[i],
                ),
        decreases groups.len(),
    {
        if groups.len() > 0 {
            self.lemma_matches_pass(indices, groups.drop_last());
            self.law_accepted_passes(indices, groups.last());
            let done = self.matches(indices, groups.drop_last());
            let more = self.accepted(indices, groups.last());
            let all = self.matches(indices, groups);
            assert forall|i: int| 0 <= i < all.len() implies self.accepts(#[trigger] all[i]) by {
                if i < done.len() {
                    assert(all[i] == done[i]);
                } else {
                    assert(all[i] == more[i - done.len()]);
                }
            }
        }
    }

    /// What a search collects passes the filters of the query: of an exact
    /// query, every symbol found has exactly the name asked for; of a query
    /// for types, every symbol found defines a type.
    pub proof fn law_collected_passes(&self, indices: Seq<Arc<SymbolIndex>>, groups: Seq<Seq<(usize, u64)>>)
        ensures
            forall|i: int|
                0 <= i < self.collected(indices, groups).len() ==> self.accepts(
                    #[trigger] self.collected(indices, groups)[i],
                ),
    {
        self.lemma_matches_pass(indices, groups);
        let all = self.matches(indices, groups);
        let found = self.collected(indices, groups);
        assert forall|i: int| 0 <= i < found.len() implies self.accepts(#[trigger] found[i]) by {
            assert(found[i] == all[i]);
        }
    }

    /// A search never collects more than its limit: it collects as many
    /// symbols as there are matches, or as the limit allows where they are
    /// more.
    pub proof fn law_collects_up_to_the_limit(
        &self,
        indices: Seq<Arc<SymbolIndex>>,
        groups: Seq<Seq<(usize, u64)>>,
    )
        ensures
            self.collected(indices, groups).len() == if self.matches(indices, groups).len()
                <= self.limit {
                self.matches(indices, groups).len()
            } else {
                self.limit as nat
            },
            self.collected(indices, groups).len() <= self.limit,
    {
    }

    /// What a search with a limit collects is the opening of what the same
    /// search collects without one: as many symbols as the limit allows, or
    /// all of them where they are fewer.
    pub proof fn law_limit_cuts_a_prefix(
        &self,
        indices: Seq<Arc<SymbolIndex>>,
        groups: Seq<Seq<(usize, u64)>>,
        limit: usize,
    )
        requires
            self.limit == usize::MAX,
        ensures
            ({
                let limited = (Query { limit: limit, ..*self }).collected(indices, groups);
                let all = self.collected(indices, groups);
                limited == all.take(
                    if limit <= all.len() {
                        limit as int
                    } else {
                        all.len() as int
                    },
                )
            }),
    {
        let bounded = Query { limit: limit, ..*self };
        bounded.lemma_matches_same(*self, indices, groups);
        let m = self.matches(indices, groups);
        let limited = bounded.collected(indices, groups);
        let all = self.collected(indices, groups);
        let cut: int = if limit <= all.len() {
            limit as int
        } else {
            all.len() as int
        };
        assert(limited =~= all.take(cut));
    }

    /// Two queries that differ in their limit alone have the same matches.
    proof fn lemma_matches_same(&self, other: Query, indices: Seq<Arc<SymbolIndex>>, groups: Seq<Seq<(usize, u64)>>)
        requires
            other.query == self.query,
            other.only_types == self.only_types,
            other.exact == self.exact,
        ensures
            self.matches(indices, groups) == other.matches(indices, groups),
        decreases groups.len(),
    {
        if groups.len() > 0 {
            self.lemma_matches_same(other, indices, groups.drop_last());
            self.lemma_accepted_same(other, indices, groups.last());
        }
    }

    /// Two queries that differ in their limit alone let the same entries of
    /// a group through.
    proof fn lemma_accepted_same(&self, other: Query, indices: Seq<Arc<SymbolIndex>>, group: Seq<(usize, u64)>)
        requires
            other.query == self.query,
            other.only_types == self.only_types,
            other.exact == self.exact,
        ensures
            self.accepted(indices, group) == other.accepted(indices, group),
        decreases group.len(),
    {
        if group.len() > 0 {
            self.lemma_accepted_same(other, indices, group.drop_last());
        }
    }

    /// Searches the indices for symbols whose lower-cased name holds the
    /// lower-cased text as a subsequence, filters them, and stops at the
    /// limit.
    pub fn search(self, indices: &Vec<Arc<SymbolIndex>>) -> (res: Vec<(FileId, FileSymbol)>)
        ensures
            res@ == self.collected(
                indices@,
                fst_union_matches(tables_of(indices@), self.lowercased@),
            ),
            stream_exact(
                tables_of(indices@),
                self.lowercased@,
                fst_union_matches(tables_of(indices@), self.lowercased@),
            ),
            res.len() <= self.limit,
            indices.len() == 0 ==> res.len() == 0,
            rising(res@),
            apart(indices@) ==> once(res@),
            forall|k: int| 0 <= k < res.len() ==> self.accepts(#[trigger] res@[k]),
            forall|k: int| 0 <= k < res.len() ==> holds_needle(key_of(#[trigger] res@[k]), self.lowercased@),
            forall|i: int, v: int|
                0 <= i < indices.len() && 0 <= v < indices@[i].entries().len() && self.accepts(
                    #[trigger] indices@[i].entries()[v],
                ) && holds_needle(key_of(indices@[i].entries()[v]), self.lowercased@) ==> res@.contains(
                    indices@[i].entries()[v],
                ) || res.len() == self.limit,
            self.finds_by_name() ==> forall|i: int, v: int|
                0 <= i < indices.len() && 0 <= v < indices@[i].entries().len() && (
                #[trigger] indices@[i].entries()[v]).1.name@ == self.query@ ==> res@.contains(
                    indices@[i].entries()[v],
                ) || res.len() == self.limit,
    {
        let groups = union_search(indices, self.lowercased.as_str());
        let mut k: usize = 0;
        while k < indices.len()
            invariant
                k <= indices.len(),
                forall|i: int| 0 <= i < k ==> (#[trigger] indices@[i]).wf(),
            decreases indices.len() - k,
        {
            let index: &SymbolIndex = &indices[k];
            proof {
                use_type_invariant(index);
            }
            k = k + 1;
        }
        let res = self.collect(indices, &groups);
        proof {
            self.law_found_holds_needle(indices@, groups_of(groups@));
            self.law_found_in_rising_order(indices@, groups_of(groups@));
            self.law_collected_passes(indices@, groups_of(groups@));
            if apart(indices@) {
                self.law_found_once(indices@, groups_of(groups@));
            }
            if indices.len() == 0 && res.len() > 0 {
                self.lemma_collected_from_groups(indices@, groups_of(groups@));
                let all = groups_of(groups@);
                assert(Self::from_groups(indices@, all, res@[0]));
                let g = choose|g: int|
                    0 <= g < all.len() && Self::from_group(indices@, #[trigger] all[g], res@[0]);
                let j = choose|j: int|
                    0 <= j < all[g].len() && hit_entry(indices@, #[trigger] all[g][j]) == Some(res@[0]);
                assert(hit_entry(indices@, all[g][j]).is_some());
            }
            assert forall|i: int, v: int|
                0 <= i < indices.len() && 0 <= v < indices@[i].entries().len() && self.accepts(
                    #[trigger] indices@[i].entries()[v],
                ) && holds_needle(
                    key_of(indices@[i].entries()[v]),
                    self.lowercased@,
                ) implies res@.contains(indices@[i].entries()[v]) || res.len() == self.limit by {
                self.law_search_is_complete(indices@, groups_of(groups@), i, v);
            }
            if self.finds_by_name() {
                assert forall|i: int, v: int|
                    0 <= i < indices.len() && 0 <= v < indices@[i].entries().len() && (
                    #[trigger] indices@[i].entries()[v]).1.name@ == self.query@ implies res@.contains(
                    indices@[i].entries()[v],
                ) || res.len() == self.limit by {
                    self.law_exact_search_is_complete(indices@, groups_of(groups@), i, v);
                }
            }
        }
        res
    }

    /// Some pair of the group stands for the entry.
    pub open spec fn from_group(indices: Seq<Arc<SymbolIndex>>, group: Seq<(usize, u64)>, e: Entry) -> bool {
        exists|j: int| 0 <= j < group.len() && hit_entry(indices, #[trigger] group[j]) == Some(e)
    }

    /// Some pair of some group stands for the entry.
    pub open spec fn from_groups(
        indices: Seq<Arc<SymbolIndex>>,
        groups: Seq<Seq<(usize, u64)>>,
        e: Entry,
    ) -> bool {
        exists|g: int| 0 <= g < groups.len() && Self::from_group(indices, #[trigger] groups[g], e)
    }

    /// What the query lets through of a group stands for pairs of the
    /// group.
    proof fn lemma_accepted_from_group(&self, indices: Seq<Arc<SymbolIndex>>, group: Seq<(usize, u64)>)
        ensures
            forall|k: int|
                0 <= k < self.accepted(indices, group).len() ==> Self::from_group(
                    indices,
                    group,
                    #[trigger] self.accepted(indices, group)[k],
                ),
        decreases group.len(),
    {
        if group.len() > 0 {
            self.lemma_accepted_from_group(indices, group.drop_last());
            let rest = self.accepted(indices, group.drop_last());
            let all = self.accepted(indices, group);
            assert forall|k: int| 0 <= k < all.len() implies Self::from_group(
                indices,
                group,
                #[trigger] all[k],
            ) by {
                if k < rest.len() {
                    assert(all[k] == rest[k]);
                    assert(Self::from_group(indices, group.drop_last(), rest[k]));
                    let j = choose|j: int|
                        0 <= j < group.drop_last().len() && hit_entry(
                            indices,
                            #[trigger] group.drop_last()[j],
                        ) == Some(rest[k]);
                    assert(group[j] == group.drop_last()[j]);
                } else {
                    assert(hit_entry(indices, group[group.len() - 1]) == Some(all[k]));
                }
            }
        }
    }

    /// Every match stands for a pair of the groups.
    proof fn lemma_matches_from_groups(&self, indices: Seq<Arc<SymbolIndex>>, groups: Seq<Seq<(usize, u64)>>)
        ensures
            forall|k: int|
                0 <= k < self.matches(indices, groups).len() ==> Self::from_groups(
                    indices,
                    groups,
                    #[trigger] self.matches(indices, groups)[k],
                ),
        decreases groups.len(),
    {
        if groups.len() > 0 {
            self.lemma_matches_from_groups(indices, groups.drop_last());
            self.lemma_accepted_from_group(indices, groups.last());
            let done = self.matches(indices, groups.drop_last());
            let more = self.accepted(indices, groups.last());
            let all = self.matches(indices, groups);
            assert forall|k: int| 0 <= k < all.len() implies Self::from_groups(
                indices,
                groups,
                #[trigger] all[k],
            ) by {
                if k < done.len() {
                    assert(all[k] == done[k]);
                    assert(Self::from_groups(indices, groups.drop_last(), done[k]));
                    let g = choose|g: int|
                        0 <= g < groups.drop_last().len() && Self::from_group(
                            indices,
                            #[trigger] groups.drop_last()[g],
                            done[k],
                        );
                    assert(groups[g] == groups.drop_last()[g]);
                } else {
                    assert(all[k] == more[k - done.len()]);
                    assert(Self::from_group(indices, groups[groups.len() - 1], all[k]));
                }
            }
        }
    }

    /// What the query collects stands for pairs of the groups.
    proof fn lemma_collected_from_groups(
        &self,
        indices: Seq<Arc<SymbolIndex>>,
        groups: Seq<Seq<(usize, u64)>>,
    )
        ensures
            forall|k: int|
                0 <= k < self.collected(indices, groups).len() ==> Self::from_groups(
                    indices,
                    groups,
                    #[trigger] self.collected(indices, groups)[k],
                ),
    {
        self.lemma_matches_from_groups(indices, groups);
        let all = self.matches(indices, groups);
        let found = self.collected(indices, groups);
        assert forall|k: int| 0 <= k < found.len() implies Self::from_groups(
            indices,
            groups,
            #[trigger] found[k],
        ) by {
            assert(found[k] == all[k]);
        }
    }

    /// Every symbol that a search collects holds the needle: the bytes of
    /// the needle stand among the bytes of its lower-cased name, in their
    /// order.
    pub proof fn law_found_holds_needle(&self, indices: Seq<Arc<SymbolIndex>>, groups: Seq<Seq<(usize, u64)>>)
        requires
            forall|k: int| 0 <= k < indices.len() ==> (#[trigger] indices[k]).wf(),
            stream_exact(tables_of(indices), self.lowercased@, groups),
        ensures
            forall|k: int|
                0 <= k < self.collected(indices, groups).len() ==> holds_needle(
                    key_of(#[trigger] self.collected(indices, groups)[k]),
                    self.lowercased@,
                ),
    {
        self.lemma_collected_from_groups(indices, groups);
        let all = self.collected(indices, groups);
        let tables = tables_of(indices);
        assert forall|k: int| 0 <= k < all.len() implies holds_needle(
            key_of(#[trigger] all[k]),
            self.lowercased@,
        ) by {
            assert(Self::from_groups(indices, groups, all[k]));
            let g = choose|g: int|
                0 <= g < groups.len() && Self::from_group(indices, #[trigger] groups[g], all[k]);
            let j = choose|j: int|
                0 <= j < groups[g].len() && hit_entry(indices, #[trigger] groups[g][j]) == Some(all[k]);
            let hit = groups[g][j];
            assert(hit_matches(tables, self.lowercased@, hit));
            let key = choose|key: Seq<char>|
                #[trigger] tables[hit.0 as int].dom().contains(key) && tables[hit.0 as int][key] == hit.1
                    && holds_needle(key, self.lowercased@);
            indices[hit.0 as int].lemma_table_key(key, hit.1 as int);
        }
    }

    /// The query finds symbols by their name: it asks for exactly its text,
    /// for symbols of any kind, and its needle is its text in lower case.
    pub open spec fn finds_by_name(&self) -> bool {
        &&& self.exact
        &&& !self.only_types
        &&& self.lowercased@ == lowercased(self.query@)
    }

    /// An entry of a group that the query lets through is among what the
    /// query lets through of the group.
    proof fn lemma_accepted_contains(&self, indices: Seq<Arc<SymbolIndex>>, group: Seq<(usize, u64)>, j: int)
        requires
            0 <= j < group.len(),
            hit_entry(indices, group[j]).is_some(),
            self.accepts(hit_entry(indices, group[j])->Some_0),
        ensures
            self.accepted(indices, group).contains(hit_entry(indices, group[j])->Some_0),
        decreases group.len(),
    {
        let e = hit_entry(indices, group[j])->Some_0;
        let rest = self.accepted(indices, group.drop_last());
        let all = self.accepted(indices, group);
        if j == group.len() - 1 {
            assert(all == rest.push(e));
            assert(all[rest.len() as int] == e);
        } else {
            self.lemma_accepted_contains(indices, group.drop_last(), j);
            let at = choose|at: int| 0 <= at < rest.len() && rest[at] == e;
            assert(all[at] == e);
        }
    }

    /// What the query lets through of a group is among its matches.
    proof fn lemma_matches_contain(
        &self,
        indices: Seq<Arc<SymbolIndex>>,
        groups: Seq<Seq<(usize, u64)>>,
        g: int,
        e: Entry,
    )
        requires
            0 <= g < groups.len(),
            self.accepted(indices, groups[g]).contains(e),
        ensures
            self.matches(indices, groups).contains(e),
        decreases groups.len(),
    {
        let done = self.matches(indices, groups.drop_last());
        let more = self.accepted(indices, groups.last());
        let all = self.matches(indices, groups);
        if g == groups.len() - 1 {
            let at = choose|at: int| 0 <= at < more.len() && more[at] == e;
            assert(all[done.len() + at] == e);
        } else {
            self.lemma_matches_contain(indices, groups.drop_last(), g, e);
            let at = choose|at: int| 0 <= at < done.len() && done[at] == e;
            assert(all[at] == e);
        }
    }

    /// What the query lets through of a group that stands under a key has
    /// that key.
    proof fn lemma_accepted_under_key(
        &self,
        indices: Seq<Arc<SymbolIndex>>,
        group: Seq<(usize, u64)>,
        key: Seq<char>,
    )
        requires
            forall|k: int| 0 <= k < indices.len() ==> (#[trigger] indices[k]).wf(),
            forall|j: int| 0 <= j < group.len() ==> under_key(tables_of(indices), key, #[trigger] group[j]),
        ensures
            forall|a: int|
                0 <= a < self.accepted(indices, group).len() ==> key_of(
                    #[trigger] self.accepted(indices, group)[a],
                ) == key,
    {
        self.lemma_accepted_from_group(indices, group);
        let all = self.accepted(indices, group);
        assert forall|a: int| 0 <= a < all.len() implies key_of(#[trigger] all[a]) == key by {
            assert(Self::from_group(indices, group, all[a]));
            let j = choose|j: int|
                0 <= j < group.len() && hit_entry(indices, #[trigger] group[j]) == Some(all[a]);
            let hit = group[j];
            assert(under_key(tables_of(indices), key, hit));
            indices[hit.0 as int].lemma_table_key(key, hit.1 as int);
        }
    }

    /// Of a group in which no index stands twice, and of indices that hold
    /// no entry in common, the query lets no entry through twice.
    proof fn lemma_accepted_once(&self, indices: Seq<Arc<SymbolIndex>>, group: Seq<(usize, u64)>)
        requires
            apart(indices),
            forall|j: int, k: int| 0 <= j < k < group.len() ==> (#[trigger] group[j]).0 != (#[trigger] group[k]).0,
        ensures
            once(self.accepted(indices, group)),
        decreases group.len(),
    {
        if group.len() > 0 {
            let n = group.len() - 1;
            assert forall|j: int, k: int| 0 <= j < k < group.drop_last().len() implies (
            #[trigger] group.drop_last()[j]).0 != (#[trigger] group.drop_last()[k]).0 by {
                assert(group[j].0 != group[k].0);
            }
            self.lemma_accepted_once(indices, group.drop_last());
            self.lemma_accepted_from_group(indices, group.drop_last());
            let rest = self.accepted(indices, group.drop_last());
            let all = self.accepted(indices, group);
            assert forall|a: int, b: int| 0 <= a < b < all.len() implies #[trigger] all[a]
                != #[trigger] all[b] by {
                if b < rest.len() {
                    assert(all[a] == rest[a] && all[b] == rest[b]);
                } else {
                    assert(all[a] == rest[a]);
                    assert(hit_entry(indices, group[n]) == Some(all[b]));
                    assert(Self::from_group(indices, group.drop_last(), rest[a]));
                    let j = choose|j: int|
                        0 <= j < group.drop_last().len() && hit_entry(
                            indices,
                            #[trigger] group.drop_last()[j],
                        ) == Some(rest[a]);
                    assert(group[j] == group.drop_last()[j]);
                    assert(group[j].0 != group[n].0);
                    let i1 = group[j].0 as int;
                    let i2 = group[n].0 as int;
                    assert(indices[i1].entries()[group[j].1 as int] != indices[i2].entries()[group[n].1 as int]);
                }
            }
        }
    }

    /// Of groups that come key by key, and of indices that hold no entry in
    /// common, no match stands twice.
    proof fn lemma_matches_once(
        &self,
        indices: Seq<Arc<SymbolIndex>>,
        groups: Seq<Seq<(usize, u64)>>,
        keys: Seq<Seq<char>>,
    )
        requires
            forall|k: int| 0 <= k < indices.len() ==> (#[trigger] indices[k]).wf(),
            apart(indices),
            keyed_by(tables_of(indices), groups, keys),
            strictly_sorted(keys),
            forall|g: int, j: int, k: int|
                0 <= g < groups.len() && 0 <= j < k < groups[g].len() ==> (#[trigger] groups[g][j]).0 != (
                #[trigger] groups[g][k]).0,
        ensures
            once(self.matches(indices, groups)),
        decreases groups.len(),
    {
        if groups.len() > 0 {
            let n = groups.len() - 1;
            let tables = tables_of(indices);
            let front = groups.drop_last();
            assert(keyed_by(tables, front, keys.drop_last())) by {
                assert forall|g: int, j: int| 0 <= g < front.len() && 0 <= j < front[g].len() implies under_key(
                    tables,
                    keys.drop_last()[g],
                    #[trigger] front[g][j],
                ) by {
                    assert(under_key(tables, keys[g], groups[g][j]));
                }
            }
            assert(strictly_sorted(keys.drop_last())) by {
                assert forall|i: int, j: int| 0 <= i < j < keys.drop_last().len() implies lex_lt(
                    #[trigger] keys.drop_last()[i],
                    #[trigger] keys.drop_last()[j],
                ) by {
                    assert(lex_lt(keys[i], keys[j]));
                }
            }
            assert forall|g: int, j: int, k: int|
                0 <= g < front.len() && 0 <= j < k < front[g].len() implies (#[trigger] front[g][j]).0 != (
            #[trigger] front[g][k]).0 by {
                assert(groups[g][j].0 != groups[g][k].0);
            }
            self.lemma_matches_once(indices, front, keys.drop_last());
            self.lemma_matches_rise(indices, front, keys.drop_last());
            assert forall|j: int, k: int| 0 <= j < k < groups[n].len() implies (#[trigger] groups[n][j]).0 != (
            #[trigger] groups[n][k]).0 by {}
            self.lemma_accepted_once(indices, groups.last());
            assert forall|j: int| 0 <= j < groups.last().len() implies under_key(
                tables,
                keys[n],
                #[trigger] groups.last()[j],
            ) by {
                assert(under_key(tables, keys[n], groups[n][j]));
            }
            self.lemma_accepted_under_key(indices, groups.last(), keys[n]);
            let done = self.matches(indices, front);
            let more = self.accepted(indices, groups.last());
            let all = self.matches(indices, groups);
            assert forall|a: int, b: int| 0 <= a < b < all.len() implies #[trigger] all[a]
                != #[trigger] all[b] by {
                if b < done.len() {
                    assert(all[a] == done[a] && all[b] == done[b]);
                } else if a < done.len() {
                    assert(all[a] == done[a]);
                    assert(all[b] == more[b - done.len()]);
                    assert(keys.drop_last().contains(key_of(done[a])));
                    let g = choose|g: int|
                        0 <= g < keys.drop_last().len() && keys.drop_last()[g] == key_of(done[a]);
                    assert(lex_lt(keys[g], keys[n]));
                    lemma_lex_irreflexive(keys[n]);
                } else {
                    assert(all[a] == more[a - done.len()] && all[b] == more[b - done.len()]);
                }
            }
        }
    }

    /// A search of indices that hold no entry in common finds no symbol
    /// twice.
    pub proof fn law_found_once(&self, indices: Seq<Arc<SymbolIndex>>, groups: Seq<Seq<(usize, u64)>>)
        requires
            forall|k: int| 0 <= k < indices.len() ==> (#[trigger] indices[k]).wf(),
            apart(indices),
            stream_exact(tables_of(indices), self.lowercased@, groups),
        ensures
            once(self.collected(indices, groups)),
    {
        let keys = choose|keys: Seq<Seq<char>>| #[trigger]
            keyed_by(tables_of(indices), groups, keys) && strictly_sorted(keys);
        self.lemma_matches_once(indices, groups, keys);
        let all = self.matches(indices, groups);
        let found = self.collected(indices, groups);
        assert forall|a: int, b: int| 0 <= a < b < found.len() implies #[trigger] found[a]
            != #[trigger] found[b] by {
            assert(found[a] == all[a] && found[b] == all[b]);
        }
    }

    /// Every match of groups that stand under rising keys has one of the
    /// keys as its own, and the matches come in the order of the keys.
    proof fn lemma_matches_rise(
        &self,
        indices: Seq<Arc<SymbolIndex>>,
        groups: Seq<Seq<(usize, u64)>>,
        keys: Seq<Seq<char>>,
    )
        requires
            forall|k: int| 0 <= k < indices.len() ==> (#[trigger] indices[k]).wf(),
            keyed_by(tables_of(indices), groups, keys),
            strictly_sorted(keys),
        ensures
            forall|a: int|
                0 <= a < self.matches(indices, groups).len() ==> keys.contains(
                    key_of(#[trigger] self.matches(indices, groups)[a]),
                ),
            rising(self.matches(indices, groups)),
        decreases groups.len(),
    {
        if groups.len() > 0 {
            let n = groups.len() - 1;
            let tables = tables_of(indices);
            assert(keyed_by(tables, groups.drop_last(), keys.drop_last())) by {
                assert forall|g: int, j: int|
                    0 <= g < groups.drop_last().len() && 0 <= j < groups.drop_last()[g].len() implies under_key(
                    tables,
                    keys.drop_last()[g],
                    #[trigger] groups.drop_last()[g][j],
                ) by {
                    assert(under_key(tables, keys[g], groups[g][j]));
                }
            }
            assert(strictly_sorted(keys.drop_last())) by {
                assert forall|i: int, j: int| 0 <= i < j < keys.drop_last().len() implies lex_lt(
                    #[trigger] keys.drop_last()[i],
                    #[trigger] keys.drop_last()[j],
                ) by {
                    assert(lex_lt(keys[i], keys[j]));
                }
            }
            self.lemma_matches_rise(indices, groups.drop_last(), keys.drop_last());
            self.lemma_accepted_from_group(indices, groups.last());
            let done = self.matches(indices, groups.drop_last());
            let more = self.accepted(indices, groups.last());
            let all = self.matches(indices, groups);
            assert forall|a: int| done.len() <= a < all.len() implies key_of(#[trigger] all[a])
                == keys[n] by {
                let e = more[a - done.len()];
                assert(all[a] == e);
                assert(Self::from_group(indices, groups.last(), e));
                let j = choose|j: int|
                    0 <= j < groups.last().len() && hit_entry(indices, #[trigger] groups.last()[j])
                        == Some(e);
                let hit = groups[n][j];
                assert(under_key(tables, keys[n], hit));
                indices[hit.0 as int].lemma_table_key(keys[n], hit.1 as int);
            }
            assert forall|a: int| 0 <= a < done.len() implies keys.drop_last().contains(
                key_of(#[trigger] all[a]),
            ) by {
                assert(all[a] == done[a]);
            }
            assert forall|a: int| 0 <= a < all.len() implies keys.contains(key_of(#[trigger] all[a])) by {
                if a < done.len() {
                    let g = choose|g: int|
                        0 <= g < keys.drop_last().len() && keys.drop_last()[g] == key_of(all[a]);
                    assert(keys[g] == key_of(all[a]));
                } else {
                    assert(keys[n] == key_of(all[a]));
                }
            }
            assert forall|a: int, b: int| 0 <= a < b < all.len() implies !lex_lt(
                key_of(#[trigger] all[b]),
                key_of(#[trigger] all[a]),
            ) by {
                if b < done.len() {
                    assert(all[a] == done[a] && all[b] == done[b]);
                } else if a < done.len() {
                    let g = choose|g: int|
                        0 <= g < keys.drop_last().len() && keys.drop_last()[g] == key_of(all[a]);
                    assert(lex_lt(keys[g], keys[n]));
                    if lex_lt(keys[n], keys[g]) {
                        lemma_lex_transitive(keys[g], keys[n], keys[g]);
                        lemma_lex_irreflexive(keys[g]);
                    }
                } else {
                    lemma_lex_irreflexive(keys[n]);
                }
            }
        }
    }

    /// What a search collects comes in the rising order of the lower-cased
    /// names: the order in which the union streams the keys.
    pub proof fn law_found_in_rising_order(&self, indices: Seq<Arc<SymbolIndex>>, groups: Seq<Seq<(usize, u64)>>)
        requires
            forall|k: int| 0 <= k < indices.len() ==> (#[trigger] indices[k]).wf(),
            stream_exact(tables_of(indices), self.lowercased@, groups),
        ensures
            rising(self.collected(indices, groups)),
    {
        let keys = choose|keys: Seq<Seq<char>>| #[trigger]
            keyed_by(tables_of(indices), groups, keys) && strictly_sorted(keys);
        self.lemma_matches_rise(indices, groups, keys);
        let all = self.matches(indices, groups);
        let found = self.collected(indices, groups);
        assert forall|a: int, b: int| 0 <= a < b < found.len() implies !lex_lt(
            key_of(#[trigger] found[b]),
            key_of(#[trigger] found[a]),
        ) by {
            assert(found[a] == all[a] && found[b] == all[b]);
        }
    }

    /// A search drops no match while its limit is not reached: where the
    /// groups of the search leave out no key, each symbol of the indices
    /// whose lower-cased name holds the needle and that passes the filters is
    /// among what the search collects, unless the search holds as many
    /// symbols as its limit allows.
    pub proof fn law_search_is_complete(
        &self,
        indices: Seq<Arc<SymbolIndex>>,
        groups: Seq<Seq<(usize, u64)>>,
        i: int,
        v: int,
    )
        requires
            forall|k: int| 0 <= k < indices.len() ==> (#[trigger] indices[k]).wf(),
            stream_exact(tables_of(indices), self.lowercased@, groups),
            0 <= i < indices.len(),
            indices.len() <= usize::MAX,
            0 <= v < indices[i].entries().len(),
            self.accepts(indices[i].entries()[v]),
            holds_needle(key_of(indices[i].entries()[v]), self.lowercased@),
        ensures
            self.collected(indices, groups).contains(indices[i].entries()[v]) || self.collected(
                indices,
                groups,
            ).len() == self.limit,
    {
        let e = indices[i].entries()[v];
        let key = key_of(e);
        indices[i].lemma_table_holds(v);
        let tables = tables_of(indices);
        assert(tables[i].dom().contains(key));
        let hit = (i as usize, tables[i][key]);
        assert(streams(groups, hit));
        let (g, j) = choose|g: int, j: int|
            0 <= g < groups.len() && 0 <= j < groups[g].len() && groups[g][j] == hit;
        assert(hit_entry(indices, hit) == Some(e));
        self.lemma_accepted_contains(indices, groups[g], j);
        self.lemma_matches_contain(indices, groups, g, e);
    }

    /// A search by name finds every symbol of that name, up to its limit:
    /// where the groups of the search leave out no key, each symbol of the
    /// indices whose name is the text of the query is among what the search
    /// collects, unless the search holds as many symbols as its limit
    /// allows.
    pub proof fn law_exact_search_is_complete(
        &self,
        indices: Seq<Arc<SymbolIndex>>,
        groups: Seq<Seq<(usize, u64)>>,
        i: int,
        v: int,
    )
        requires
            self.finds_by_name(),
            forall|k: int| 0 <= k < indices.len() ==> (#[trigger] indices[k]).wf(),
            stream_exact(tables_of(indices), self.lowercased@, groups),
            0 <= i < indices.len(),
            indices.len() <= usize::MAX,
            0 <= v < indices[i].entries().len(),
            indices[i].entries()[v].1.name@ == self.query@,
        ensures
            self.collected(indices, groups).contains(indices[i].entries()[v]) || self.collected(
                indices,
                groups,
            ).len() == self.limit,
    {
        lemma_subsequence_of_itself(vstd::utf8::encode_utf8(key_of(indices[i].entries()[v])));
        self.law_search_is_complete(indices, groups, i, v);
    }
}

} // verus!
