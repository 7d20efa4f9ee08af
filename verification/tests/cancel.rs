use ra_analysis::cancel::CancelToken;

#[test]
fn token_is_set_for_every_holder() {
    let token = CancelToken::new();
    let shared = token.share();
    assert!(!token.is_set());
    assert!(!shared.is_set());
    shared.set();
    assert!(token.is_set());
    assert!(shared.is_set());
    assert!(token.share().is_set());
}

#[test]
fn tokens_of_their_own_do_not_meet() {
    let a = CancelToken::new();
    let b = CancelToken::new();
    a.set();
    assert!(a.is_set());
    assert!(!b.is_set());
}
