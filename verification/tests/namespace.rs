use hellodb::crypto::identity::KeyPair;
use hellodb::namespace::Namespace;

#[test]
fn create_namespace() {
    let kp = KeyPair::generate();
    let ns = Namespace::new(
        "ainp.commerce".into(),
        "AINP Commerce".into(),
        kp.verifying.clone(),
        true,
    );
    assert_eq!(ns.id, "ainp.commerce");
    assert_eq!(ns.name, "AINP Commerce");
    assert!(ns.encrypted);
    assert!(ns.schemas.is_empty());
}

#[test]
fn ownership_check() {
    let kp1 = KeyPair::generate();
    let kp2 = KeyPair::generate();
    let ns = Namespace::new("test".into(), "Test".into(), kp1.verifying.clone(), false);
    assert!(ns.is_owner(&kp1.verifying));
    assert!(!ns.is_owner(&kp2.verifying));
}

#[test]
fn register_schema() {
    let kp = KeyPair::generate();
    let mut ns = Namespace::new(
        "ainp.commerce".into(),
        "Commerce".into(),
        kp.verifying.clone(),
        true,
    );
    ns.register_schema("ainp.commerce.listing".into());
    ns.register_schema("ainp.commerce.order".into());
    ns.register_schema("ainp.commerce.listing".into());
    assert_eq!(ns.schemas.len(), 2);
}

#[test]
fn registered_schemas_keep_first_order() {
    let kp = KeyPair::generate();
    let mut ns = Namespace::new("n".into(), "N".into(), kp.verifying.clone(), false);
    ns.register_schema("b".into());
    ns.register_schema("a".into());
    ns.register_schema("b".into());
    assert_eq!(ns.schemas, vec!["b".to_string(), "a".to_string()]);
    assert!(ns.description.is_none());
    assert_eq!(ns.owner, kp.verifying);
}
