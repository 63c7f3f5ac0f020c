use coi_core::{inject_derive, Data, DbData, Declaration, InvalidBinding, ServiceKey};

fn s(x: &str) -> String {
    x.to_string()
}

fn decl(implements: &[&str], fields: &[&str], uses: &[&str]) -> Declaration<u8> {
    Declaration {
        key: ServiceKey::new(s("IRepository"), s("repository")),
        implements: implements.iter().map(|x| s(x)).collect(),
        fields: fields
            .iter()
            .map(|f| (s(f), ServiceKey::new(s("Pool"), s(f))))
            .collect(),
        uses: uses.iter().map(|x| s(x)).collect(),
        constructor: 7,
    }
}

#[test]
fn valid_declaration_becomes_binding() {
    let b = inject_derive(decl(&["IRepository"], &["pool", "cache"], &["pool"])).unwrap();
    assert_eq!(b.key.capability, "IRepository");
    assert_eq!(b.key.name, "repository");
    let names: Vec<&str> = b.deps.iter().map(|k| k.name.as_str()).collect();
    assert_eq!(names, vec!["pool", "cache"]);
    assert_eq!(b.provider, 7);
}

#[test]
fn unit_declaration_has_no_dependencies() {
    let b = inject_derive(decl(&["IRepository"], &[], &[])).unwrap();
    assert!(b.deps.is_empty());
}

#[test]
fn constructor_with_unknown_field_rejected() {
    match inject_derive(decl(&["IRepository"], &["pool"], &["pool", "conn"])) {
        Err(InvalidBinding::UnknownField(f)) => assert_eq!(f, "conn"),
        other => panic!("expected an unknown field, got {:?}", other.err()),
    }
}

#[test]
fn unimplemented_capability_rejected() {
    match inject_derive(decl(&["Other"], &["pool"], &["nope"])) {
        Err(InvalidBinding::CapabilityNotImplemented(c)) => assert_eq!(c, "IRepository"),
        other => panic!("expected an unimplemented capability, got {:?}", other.err()),
    }
}

#[test]
fn keys_compare_by_capability_and_name() {
    let a = ServiceKey::new(s("A"), s("x"));
    assert!(a.same_as(&ServiceKey::new(s("A"), s("x"))));
    assert!(!a.same_as(&ServiceKey::new(s("B"), s("x"))));
    assert!(!a.same_as(&ServiceKey::new(s("A"), s("y"))));
    assert_eq!(a.clone_key().name, "x");
}

#[test]
fn db_data_converts_to_data() {
    let d: Data = DbData::new(42, s("answer")).into();
    assert_eq!(d.id, 42);
    assert_eq!(d.name, "answer");
}
