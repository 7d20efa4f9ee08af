use ra_analysis::base::TextRange;
use ra_analysis::scope::{BodyEvent, FnScopes, NameRef, ReferenceDescriptor, ScopeEntry};

fn r(start: u32, end: u32) -> TextRange {
    TextRange { start, end }
}

fn bind(name: &str, start: u32, end: u32) -> BodyEvent {
    BodyEvent::Bind(ScopeEntry { name: name.to_string(), ptr: r(start, end) })
}

fn name_ref(name: &str, start: u32, end: u32) -> NameRef {
    NameRef { name: name.to_string(), range: r(start, end) }
}

fn refer(name: &str, start: u32, end: u32) -> BodyEvent {
    BodyEvent::Ref(name_ref(name, start, end))
}

// fn f(x: i32) { let y = x; { let x = y; x; } x; z; }
fn sample() -> FnScopes {
    FnScopes::new(&vec![
        bind("x", 5, 6),
        BodyEvent::Enter,
        refer("x", 23, 24),
        BodyEvent::Scope,
        bind("y", 19, 20),
        BodyEvent::Enter,
        refer("y", 36, 37),
        BodyEvent::Scope,
        bind("x", 32, 33),
        refer("x", 39, 40),
        BodyEvent::Leave,
        refer("x", 45, 46),
        refer("z", 48, 49),
        BodyEvent::Leave,
    ])
}

#[test]
fn scopes_are_built_in_source_order() {
    let scopes = sample();
    assert_eq!(scopes.len(), 3);
    assert_eq!(scopes.entries(0).unwrap().len(), 1);
    assert_eq!(scopes.entries(1).unwrap()[0].name, "y");
    assert_eq!(scopes.entries(2).unwrap()[0].ptr, r(32, 33));
    assert!(scopes.entries(3).is_none());
    assert_eq!(scopes.scope_for(r(23, 24)), Some(0));
    assert_eq!(scopes.scope_for(r(36, 37)), Some(1));
    assert_eq!(scopes.scope_for(r(39, 40)), Some(2));
    assert_eq!(scopes.scope_for(r(45, 46)), Some(1));
    assert_eq!(scopes.scope_for(r(0, 1)), None);
}

#[test]
fn inner_binding_shadows_outer() {
    let scopes = sample();
    let inner = scopes.resolve_local_name(&name_ref("x", 39, 40)).unwrap();
    assert_eq!(inner.ptr, r(32, 33));
    let outer = scopes.resolve_local_name(&name_ref("x", 45, 46)).unwrap();
    assert_eq!(outer.ptr, r(5, 6));
    let first = scopes.resolve_local_name(&name_ref("x", 23, 24)).unwrap();
    assert_eq!(first.ptr, r(5, 6));
    assert!(scopes.resolve_local_name(&name_ref("z", 48, 49)).is_none());
    assert!(scopes.resolve_local_name(&name_ref("x", 100, 101)).is_none());
}

#[test]
fn a_binding_is_not_seen_before_its_scope() {
    let scopes = FnScopes::new(&vec![refer("a", 1, 2), BodyEvent::Scope, bind("a", 5, 6), refer("a", 8, 9)]);
    assert!(scopes.resolve_local_name(&name_ref("a", 1, 2)).is_none());
    assert_eq!(scopes.resolve_local_name(&name_ref("a", 8, 9)).unwrap().ptr, r(5, 6));
}

#[test]
fn first_binding_of_a_name_in_a_scope_counts() {
    let scopes = FnScopes::new(&vec![bind("a", 1, 2), bind("a", 3, 4), refer("a", 8, 9)]);
    assert_eq!(scopes.resolve(0, &"a".to_string()).unwrap().ptr, r(1, 2));
    assert!(scopes.resolve(0, &"b".to_string()).is_none());
    assert!(scopes.resolve(7, &"a".to_string()).is_none());
}

#[test]
fn unmatched_leave_is_ignored() {
    let scopes = FnScopes::new(&vec![BodyEvent::Leave, bind("a", 1, 2), refer("a", 3, 4)]);
    assert_eq!(scopes.len(), 1);
    assert_eq!(scopes.resolve_local_name(&name_ref("a", 3, 4)).unwrap().ptr, r(1, 2));
}

#[test]
fn find_all_refs_lists_references_to_the_binding() {
    let scopes = sample();
    let outer = scopes.find_all_refs(r(5, 6));
    assert_eq!(
        outer,
        vec![
            ReferenceDescriptor { range: r(23, 24), name: "x".to_string() },
            ReferenceDescriptor { range: r(45, 46), name: "x".to_string() },
        ]
    );
    let inner = scopes.find_all_refs(r(32, 33));
    assert_eq!(inner, vec![ReferenceDescriptor { range: r(39, 40), name: "x".to_string() }]);
    assert!(scopes.find_all_refs(r(48, 49)).is_empty());
}
