use prose::binding::{finish, Binding, DeferredRead, UnpackGroup, UnpackKind};
use prose::scope::{Scope, ScopeKind};

fn scope(bindings: &[(&str, u32)], kind: ScopeKind, parent: Option<u32>) -> Scope {
    Scope { bindings: bindings.iter().map(|(n, b)| (n.to_string(), *b)).collect(), kind, parent }
}

fn binding(name: &str, scope: u32, reads: &[u32]) -> Binding {
    Binding {
        name: name.to_string(),
        scope,
        write_offsets: vec![0],
        read_offsets: reads.to_vec(),
        attributes: Vec::new(),
        bare_read: false,
    }
}

fn read(name: &str, scope: u32, offset: u32, attribute: Option<&str>) -> DeferredRead {
    DeferredRead { attribute: attribute.map(|a| a.to_string()), name: name.to_string(), offset, scope }
}

#[test]
fn finish_records_a_deferred_read_on_the_enclosing_binding() {
    let scopes = vec![
        scope(&[("helper", 0)], ScopeKind::Module, None),
        scope(&[("x", 1)], ScopeKind::Function, Some(0)),
    ];
    let mut bindings = vec![binding("helper", 0, &[5]), binding("x", 1, &[])];
    let deferred = vec![
        read("helper", 1, 2, None),
        read("helper", 1, 9, Some("environ")),
        read("helper", 1, 12, Some("environ")),
        read("missing", 1, 4, None),
    ];
    let kinds = finish(&scopes, &mut bindings, &deferred, &[]);
    assert!(kinds.is_empty());
    assert_eq!(bindings[0].read_offsets, vec![2, 5, 9, 12]);
    assert_eq!(bindings[0].attributes, vec!["environ".to_string()]);
    assert!(bindings[0].bare_read);
    assert!(bindings[1].read_offsets.is_empty());
    assert!(!bindings[1].bare_read);
    assert_eq!(bindings[0].write_offsets, vec![0]);
}

#[test]
fn finish_skips_an_enclosing_class_scope() {
    let scopes = vec![
        scope(&[("value", 0)], ScopeKind::Module, None),
        scope(&[("value", 1)], ScopeKind::Class, Some(0)),
        scope(&[], ScopeKind::Function, Some(1)),
    ];
    let mut bindings = vec![binding("value", 0, &[]), binding("value", 1, &[])];
    let deferred = vec![read("value", 2, 30, None), read("value", 1, 20, None)];
    finish(&scopes, &mut bindings, &deferred, &[]);
    assert_eq!(bindings[0].read_offsets, vec![30]);
    assert_eq!(bindings[1].read_offsets, vec![20]);
}

#[test]
fn finish_offers_subscripts_for_single_use_targets() {
    let scopes = vec![scope(&[("first", 0), ("second", 1)], ScopeKind::Module, None)];
    let mut bindings = vec![binding("first", 0, &[40]), binding("second", 0, &[50])];
    let groups = vec![UnpackGroup { members: vec![0, 1], suggestible: true, value: (16, 21) }];
    let kinds = finish(&scopes, &mut bindings, &[], &groups);
    assert_eq!(kinds, vec![(0, UnpackKind::Suggested(16, 21, 0)), (1, UnpackKind::Suggested(16, 21, 1))]);
}

#[test]
fn finish_exempts_a_group_once_a_deferred_read_reuses_a_member() {
    let scopes = vec![
        scope(&[("a", 0), ("b", 1), ("c", 2), ("d", 3)], ScopeKind::Module, None),
    ];
    let mut bindings =
        vec![binding("a", 0, &[40]), binding("b", 0, &[50]), binding("c", 0, &[]), binding("d", 0, &[])];
    let groups = vec![
        UnpackGroup { members: vec![0, 1], suggestible: true, value: (1, 2) },
        UnpackGroup { members: vec![2, 3], suggestible: false, value: (3, 4) },
    ];
    let deferred = vec![read("b", 0, 7, None)];
    let kinds = finish(&scopes, &mut bindings, &deferred, &groups);
    assert_eq!(
        kinds,
        vec![(0, UnpackKind::Exempt), (1, UnpackKind::Exempt), (2, UnpackKind::Bare), (3, UnpackKind::Bare)]
    );
    assert_eq!(bindings[1].read_offsets, vec![7, 50]);
}

#[test]
fn resolve_in_chain_finds_a_name_anywhere_in_its_scope_table() {
    let scopes = vec![scope(&[("a", 0), ("b", 1), ("c", 2)], ScopeKind::Module, None)];
    assert_eq!(prose::scope::resolve_in_chain(&scopes, 0, "c"), Some(2));
    assert_eq!(prose::scope::resolve_in_chain(&scopes, 0, "a"), Some(0));
    assert_eq!(prose::scope::resolve_in_chain(&scopes, 0, "d"), None);
}
