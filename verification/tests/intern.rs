use ra_analysis::base::{DefId, FileId};
use ra_analysis::intern::{DefKind, DefLoc, LocationInterner, SourceItemId};

fn loc(file: u32, item: Option<u32>, kind: DefKind) -> DefLoc {
    DefLoc { kind, source_item_id: SourceItemId { file_id: FileId(file), item_id: item } }
}

#[test]
fn interning_round_trip() {
    let mut store = LocationInterner::new();
    let locs = vec![
        loc(1, None, DefKind::Module),
        loc(1, Some(0), DefKind::Function),
        loc(1, Some(0), DefKind::Struct),
        loc(2, Some(0), DefKind::Function),
        loc(u32::MAX, Some(u32::MAX), DefKind::Item),
        loc(0, Some(u32::MAX), DefKind::Enum),
    ];
    let mut ids = Vec::new();
    for l in &locs {
        ids.push(store.intern(*l).unwrap());
    }
    assert_eq!(ids, vec![DefId(0), DefId(1), DefId(2), DefId(3), DefId(4), DefId(5)]);
    assert_eq!(store.len(), 6);
    for (l, id) in locs.iter().zip(ids.iter()) {
        assert_eq!(store.lookup(*id), *l);
        assert_eq!(store.intern(store.lookup(*id)), Some(*id));
        assert_eq!(store.get(l), Some(*id));
    }
    assert_eq!(store.len(), 6);
    assert_eq!(store.get(&loc(9, None, DefKind::Module)), None);
    assert_eq!(store.try_lookup(DefId(6)), None);
    assert_eq!(store.try_lookup(DefId(2)), Some(loc(1, Some(0), DefKind::Struct)));
}

#[test]
fn copy_of_the_store_gives_the_same_identities() {
    let mut store = LocationInterner::new();
    store.intern(loc(3, Some(7), DefKind::Function));
    store.intern(loc(3, None, DefKind::Module));
    let mut copy = store.duplicate();
    assert_eq!(copy.len(), 2);
    assert_eq!(copy.lookup(DefId(1)), loc(3, None, DefKind::Module));
    assert_eq!(copy.intern(loc(3, Some(7), DefKind::Function)), Some(DefId(0)));
    assert_eq!(copy.intern(loc(4, None, DefKind::Module)), Some(DefId(2)));
    assert_eq!(store.len(), 2);
}
