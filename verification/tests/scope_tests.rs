use srgn::scope::{ROScope, ROScopes, RWScope, Scope};

fn chars(s: &str) -> Vec<char> {
    s.chars().collect()
}

fn payload(s: &ROScope) -> Vec<char> {
    match &s.0 {
        Scope::In(p) => p.clone(),
        Scope::Out(p) => p.clone(),
    }
}

fn is_in(s: &ROScope) -> bool {
    matches!(s.0, Scope::In(_))
}

#[test]
fn from_raw_ranges_basic() {
    let text = chars("hello world");
    let scopes = ROScopes::from_raw_ranges(&text, vec![(0, 5)]);
    assert_eq!(scopes.0.len(), 2);
    assert!(is_in(&scopes.0[0]));
    assert_eq!(payload(&scopes.0[0]), chars("hello"));
    assert!(!is_in(&scopes.0[1]));
    assert_eq!(payload(&scopes.0[1]), chars(" world"));
}

#[test]
fn from_raw_ranges_unsorted_reconstructs() {
    let text = chars("abcdefgh");
    let scopes = ROScopes::from_raw_ranges(&text, vec![(5, 7), (1, 3)]);
    let mut rebuilt: Vec<char> = Vec::new();
    for s in &scopes.0 {
        rebuilt.extend(payload(s));
    }
    assert_eq!(rebuilt, text);
    let kinds: Vec<bool> = scopes.0.iter().map(is_in).collect();
    assert_eq!(kinds, vec![false, true, false, true, false]);
}

#[test]
fn from_raw_ranges_drops_empty_scopes() {
    let text = chars("hello");
    let scopes = ROScopes::from_raw_ranges(&text, vec![(0, 0), (0, 5), (5, 5)]);
    assert_eq!(scopes.0.len(), 1);
    assert!(is_in(&scopes.0[0]));
    assert_eq!(payload(&scopes.0[0]), chars("hello"));
    for s in &scopes.0 {
        assert!(!s.is_empty());
    }
}

#[test]
fn from_raw_ranges_empty_text() {
    let text = chars("");
    let scopes = ROScopes::from_raw_ranges(&text, vec![]);
    assert_eq!(scopes.0.len(), 0);
}

#[test]
fn is_empty_follows_payload_length() {
    assert!(ROScope(Scope::In(vec![])).is_empty());
    assert!(ROScope(Scope::Out(vec![])).is_empty());
    assert!(!ROScope(Scope::In(chars("a"))).is_empty());
    assert!(!ROScope(Scope::Out(chars("xy"))).is_empty());
}

#[test]
fn invert_flips_classification_keeps_payload() {
    let scopes = ROScopes(vec![
        ROScope(Scope::In(chars("ab"))),
        ROScope(Scope::Out(chars("cd"))),
    ]);
    let inverted = scopes.invert();
    assert_eq!(inverted.0.len(), 2);
    assert!(!is_in(&inverted.0[0]));
    assert_eq!(payload(&inverted.0[0]), chars("ab"));
    assert!(is_in(&inverted.0[1]));
    assert_eq!(payload(&inverted.0[1]), chars("cd"));
}

#[test]
fn invert_twice_is_identity() {
    let scopes = ROScopes(vec![
        ROScope(Scope::In(chars("one"))),
        ROScope(Scope::Out(chars(" "))),
        ROScope(Scope::In(chars("two"))),
    ]);
    let back = scopes.clone().invert().invert();
    assert_eq!(back, scopes);
}

#[test]
fn sort_ranges_is_stable_on_ties() {
    let sorted = srgn::scope::sort_ranges(vec![(5, 6), (0, 1), (5, 7)]);
    assert_eq!(sorted, vec![(0, 1), (5, 6), (5, 7)]);
}

#[test]
fn materialize_keeps_classification() {
    let rw: RWScope = RWScope::from(ROScope(Scope::In(chars("ab"))));
    assert_eq!(rw, RWScope(Scope::In(chars("ab"))));
    let rw2: RWScope = RWScope::from(ROScope(Scope::Out(chars("cd"))));
    assert_eq!(rw2, RWScope(Scope::Out(chars("cd"))));
    assert_eq!(rw.as_chars(), &chars("ab"));
}
