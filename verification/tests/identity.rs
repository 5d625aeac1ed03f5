use identity_ledger::error::Error;
use identity_ledger::identity::{AttributeStore, IdentityModule, IdentityRegistry};

#[test]
fn should_not_throw_errors() {
    let mut module = IdentityModule::new();
    // create identity "marco" for account 1
    let identity = "marco".as_bytes().to_vec();
    assert_eq!(module.create_identity(1, "marco".as_bytes().to_vec()), Ok(()));
    assert_eq!(module.get_identity(&identity), Some(1));

    let attribute_key = "name".as_bytes().to_vec();
    let attribute_value = "marco comotti".as_bytes().to_vec();

    // add attribute name => marco comotti
    assert_eq!(
        module.add_attribute(
            1,
            "marco".as_bytes().to_vec(),
            "name".as_bytes().to_vec(),
            "marco comotti".as_bytes().to_vec()
        ),
        Ok(())
    );
    assert_eq!(module.get_attribute((&identity, &attribute_key)), attribute_value);

    // remove attribute
    assert_eq!(
        module.remove_attribute(1, "marco".as_bytes().to_vec(), "name".as_bytes().to_vec()),
        Ok(())
    );
    // after removing, the attribute value is blank
    assert_eq!(module.get_attribute((&identity, &attribute_key)), "".as_bytes().to_vec());
}

#[test]
fn check_for_errors() {
    let mut module = IdentityModule::new();
    let identity = "marco".as_bytes().to_vec();
    assert_eq!(module.create_identity(1, "marco".as_bytes().to_vec()), Ok(()));
    assert_eq!(module.get_identity(&identity), Some(1));

    // identity "marco" is already claimed
    let identity = "marco".as_bytes().to_vec();
    assert_eq!(
        module.create_identity(2, "marco".as_bytes().to_vec()),
        Err(Error::IdentityAlreadyClaimed)
    );
    assert_eq!(module.get_identity(&identity), Some(1));

    // add_attribute by a different account (2) is not authorized
    assert_eq!(
        module.add_attribute(
            2,
            "marco".as_bytes().to_vec(),
            "name".as_bytes().to_vec(),
            "marco comotti".as_bytes().to_vec()
        ),
        Err(Error::NotAuthorized)
    );

    // the attribute value is blank
    assert_eq!(
        module.get_attribute((&identity, &"name".as_bytes().to_vec())),
        "".as_bytes().to_vec()
    );
}

fn bytes(text: &str) -> Vec<u8> {
    text.as_bytes().to_vec()
}

#[test]
fn unclaimed_name_has_no_owner() {
    let mut module = IdentityModule::new();
    assert_eq!(module.get_identity(b"marco"), None);
    assert_eq!(module.get_identity(b""), None);
    assert_eq!(module.create_identity(7, bytes("anna")), Ok(()));
    assert_eq!(module.get_identity(b"marco"), None);
    assert_eq!(module.get_identity(b"anna"), Some(7));
}

#[test]
fn owner_never_changes() {
    let mut module = IdentityModule::new();
    assert_eq!(module.create_identity(1, bytes("marco")), Ok(()));
    assert_eq!(module.create_identity(2, bytes("anna")), Ok(()));
    assert_eq!(module.create_identity(2, bytes("marco")), Err(Error::IdentityAlreadyClaimed));
    assert_eq!(module.add_attribute(1, bytes("marco"), bytes("k"), bytes("v")), Ok(()));
    assert_eq!(module.remove_attribute(1, bytes("marco"), bytes("k")), Ok(()));
    assert_eq!(
        module.add_attribute(2, bytes("marco"), bytes("k"), bytes("w")),
        Err(Error::NotAuthorized)
    );
    assert_eq!(module.get_identity(b"marco"), Some(1));
    assert_eq!(module.get_identity(b"anna"), Some(2));
}

#[test]
fn reclaiming_is_refused_for_the_owner_too() {
    let mut module = IdentityModule::new();
    assert_eq!(module.create_identity(1, bytes("marco")), Ok(()));
    assert_eq!(module.create_identity(1, bytes("marco")), Err(Error::IdentityAlreadyClaimed));
    assert_eq!(module.get_identity(b"marco"), Some(1));
}

#[test]
fn attribute_of_unclaimed_name_is_refused() {
    let mut module = IdentityModule::new();
    assert_eq!(
        module.add_attribute(1, bytes("marco"), bytes("name"), bytes("x")),
        Err(Error::IdentityNotFound)
    );
    assert_eq!(
        module.remove_attribute(1, bytes("marco"), bytes("name")),
        Err(Error::IdentityNotFound)
    );
    assert_eq!(module.get_attribute((b"marco", b"name")), Vec::<u8>::new());
}

#[test]
fn refused_write_leaves_the_value() {
    let mut module = IdentityModule::new();
    assert_eq!(module.create_identity(1, bytes("marco")), Ok(()));
    assert_eq!(
        module.add_attribute(1, bytes("marco"), bytes("name"), bytes("marco comotti")),
        Ok(())
    );
    assert_eq!(
        module.add_attribute(2, bytes("marco"), bytes("name"), bytes("x")),
        Err(Error::NotAuthorized)
    );
    assert_eq!(module.get_attribute((b"marco", b"name")), bytes("marco comotti"));
    assert_eq!(
        module.remove_attribute(2, bytes("marco"), bytes("name")),
        Err(Error::NotAuthorized)
    );
    assert_eq!(module.get_attribute((b"marco", b"name")), bytes("marco comotti"));
}

#[test]
fn attribute_is_read_back_byte_for_byte() {
    let mut module = IdentityModule::new();
    assert_eq!(module.create_identity(9, vec![0, 255, 0]), Ok(()));
    let value: Vec<u8> = (0..=255u8).collect();
    assert_eq!(module.add_attribute(9, vec![0, 255, 0], vec![], value.clone()), Ok(()));
    assert_eq!(module.get_attribute((&[0, 255, 0], &[])), value);
    // a later write replaces the value
    assert_eq!(module.add_attribute(9, vec![0, 255, 0], vec![], vec![1]), Ok(()));
    assert_eq!(module.get_attribute((&[0, 255, 0], &[])), vec![1]);
    // other keys and other names are untouched
    assert_eq!(module.get_attribute((&[0, 255, 0], &[0])), Vec::<u8>::new());
    assert_eq!(module.get_attribute((&[0, 255], &[])), Vec::<u8>::new());
}

#[test]
fn removed_attribute_reads_empty() {
    let mut module = IdentityModule::new();
    assert_eq!(module.create_identity(1, bytes("marco")), Ok(()));
    // clearing a key that was never written
    assert_eq!(module.remove_attribute(1, bytes("marco"), bytes("age")), Ok(()));
    assert_eq!(module.get_attribute((b"marco", b"age")), Vec::<u8>::new());
    // clearing a key that holds a value, then writing it again
    assert_eq!(module.add_attribute(1, bytes("marco"), bytes("name"), bytes("m")), Ok(()));
    assert_eq!(module.remove_attribute(1, bytes("marco"), bytes("name")), Ok(()));
    assert_eq!(module.get_attribute((b"marco", b"name")), Vec::<u8>::new());
    assert_eq!(module.add_attribute(1, bytes("marco"), bytes("name"), bytes("n")), Ok(()));
    assert_eq!(module.get_attribute((b"marco", b"name")), bytes("n"));
}

#[test]
fn names_with_a_common_prefix_are_distinct() {
    let mut module = IdentityModule::new();
    assert_eq!(module.create_identity(1, bytes("ab")), Ok(()));
    assert_eq!(module.create_identity(2, bytes("a")), Ok(()));
    assert_eq!(module.create_identity(3, bytes("abc")), Ok(()));
    assert_eq!(module.get_identity(b"a"), Some(2));
    assert_eq!(module.get_identity(b"ab"), Some(1));
    assert_eq!(module.get_identity(b"abc"), Some(3));
    // (name, key) pairs do not run together
    assert_eq!(module.add_attribute(2, bytes("a"), bytes("bc"), bytes("x")), Ok(()));
    assert_eq!(module.get_attribute((b"ab", b"c")), Vec::<u8>::new());
    assert_eq!(module.get_attribute((b"a", b"bc")), bytes("x"));
}

#[test]
fn registry_and_store_work_alone() {
    let mut registry = IdentityRegistry::new();
    let mut store = AttributeStore::new();
    assert_eq!(registry.authorize(1, b"marco"), Err(Error::IdentityNotFound));
    assert_eq!(registry.create_identity(1, bytes("marco")), Ok(()));
    assert_eq!(registry.authorize(1, b"marco"), Ok(()));
    assert_eq!(registry.authorize(2, b"marco"), Err(Error::NotAuthorized));
    assert_eq!(
        store.add_attribute(&registry, 1, bytes("marco"), bytes("k"), bytes("v")),
        Ok(())
    );
    assert_eq!(store.get_attribute((b"marco", b"k")), bytes("v"));
    assert_eq!(
        store.remove_attribute(&registry, 2, bytes("marco"), bytes("k")),
        Err(Error::NotAuthorized)
    );
    assert_eq!(store.get_attribute((b"marco", b"k")), bytes("v"));
}
