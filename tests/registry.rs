use kernel_schemes::error::SchemeError;
use kernel_schemes::registry::{init_schemes, SchemeList};

#[test]
fn inserted_names_resolve_to_their_schemes() {
    let mut list: SchemeList<&str> = SchemeList::new();
    assert_eq!(list.insert(b"alpha".to_vec(), "first"), Ok(1));
    assert_eq!(list.insert(b"beta".to_vec(), "second"), Ok(2));
    assert_eq!(list.get(1), Some(&"first"));
    assert_eq!(list.get(2), Some(&"second"));
    assert_eq!(list.get(3), None);
    assert_eq!(list.get_name(b"alpha"), Some((1, &"first")));
    assert_eq!(list.get_name(b"beta"), Some((2, &"second")));
    assert_eq!(list.get_name(b"gamma"), None);
}

#[test]
fn duplicate_name_fails_and_changes_nothing() {
    let mut list: SchemeList<u32> = SchemeList::new();
    assert_eq!(list.insert(b"net".to_vec(), 7), Ok(1));
    assert_eq!(list.insert(b"net".to_vec(), 8), Err(SchemeError::AlreadyExists));
    assert_eq!(list.get_name(b"net"), Some((1, &7)));
    assert_eq!(list.get(2), None);
    assert_eq!(list.insert(b"disk".to_vec(), 9), Ok(2));
}

#[test]
fn probing_continues_from_the_counter() {
    let mut list: SchemeList<u32> = SchemeList::new();
    assert_eq!(list.insert(b"a".to_vec(), 1), Ok(1));
    assert_eq!(list.insert(b"b".to_vec(), 2), Ok(2));
    assert_eq!(list.remove(1), Some(1));
    assert_eq!(list.get_name(b"a"), None);
    assert_eq!(list.insert(b"c".to_vec(), 3), Ok(3));
    assert_eq!(list.insert(b"a".to_vec(), 4), Ok(4));
    assert_eq!(list.get_name(b"b"), Some((2, &2)));
}

#[test]
fn remove_of_unknown_id_changes_nothing() {
    let mut list: SchemeList<u32> = SchemeList::new();
    assert_eq!(list.insert(b"a".to_vec(), 1), Ok(1));
    assert_eq!(list.remove(5), None);
    assert_eq!(list.get_name(b"a"), Some((1, &1)));
}

#[test]
fn boot_registry_has_the_built_in_schemes() {
    let list = init_schemes("root", "debug", "event", "env", "initfs", "irq");
    assert_eq!(list.get_name(b""), Some((1, &"root")));
    assert_eq!(list.get_name(b"debug"), Some((2, &"debug")));
    assert_eq!(list.get_name(b"event"), Some((3, &"event")));
    assert_eq!(list.get_name(b"env"), Some((4, &"env")));
    assert_eq!(list.get_name(b"initfs"), Some((5, &"initfs")));
    assert_eq!(list.get_name(b"irq"), Some((6, &"irq")));
    assert_eq!(list.get(7), None);
}

#[test]
fn error_numbers() {
    assert_eq!(SchemeError::NotFound.errno(), 2);
    assert_eq!(SchemeError::AlreadyExists.errno(), 17);
    assert_eq!(SchemeError::AccessDenied.errno(), 13);
    assert_eq!(SchemeError::BadDescriptor.errno(), 9);
    assert_eq!(SchemeError::InvalidArgument.errno(), 22);
    assert_eq!(SchemeError::ResourceExhausted.errno(), 11);
}

#[test]
fn first_insert_after_boot_takes_seven() {
    let mut list = init_schemes(0u32, 1, 2, 3, 4, 5);
    assert_eq!(list.insert(b"disk".to_vec(), 6), Ok(7));
    assert_eq!(list.insert(b"irq".to_vec(), 7), Err(SchemeError::AlreadyExists));
    assert_eq!(list.get_name(b"disk"), Some((7, &6)));
}
