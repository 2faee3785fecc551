use kernel_schemes::error::SchemeError;
use kernel_schemes::registry::SchemeList;
use kernel_schemes::root::{RootScheme, UserInner};

#[test]
fn open_registers_a_provided_scheme() {
    let mut list: SchemeList<u32> = SchemeList::new();
    let mut root = RootScheme::new();
    assert_eq!(root.open(&mut list, b"disk", Some(42), 100), Ok(0));
    assert_eq!(list.get_name(b"disk"), Some((1, &100)));
    assert_eq!(root.bridge(0), Ok(UserInner { context: 42, scheme_id: 1 }));
}

#[test]
fn second_open_of_a_name_fails() {
    let mut list: SchemeList<u32> = SchemeList::new();
    let mut root = RootScheme::new();
    assert_eq!(root.open(&mut list, b"disk", Some(42), 100), Ok(0));
    assert_eq!(root.open(&mut list, b"disk", Some(43), 101), Err(SchemeError::AlreadyExists));
    assert_eq!(list.get_name(b"disk"), Some((1, &100)));
    assert_eq!(root.bridge(1), Err(SchemeError::BadDescriptor));
}

#[test]
fn name_is_freed_only_after_every_duplicate_closes() {
    let mut list: SchemeList<u32> = SchemeList::new();
    let mut root = RootScheme::new();
    let first = root.open(&mut list, b"disk", Some(42), 100).unwrap();
    let second = root.dup(first).unwrap();
    assert_eq!(second, 1);
    assert_eq!(root.bridge(second), root.bridge(first));
    assert_eq!(root.close(&mut list, first), Ok(0));
    assert_eq!(list.get_name(b"disk"), Some((1, &100)));
    assert_eq!(root.open(&mut list, b"disk", Some(43), 101), Err(SchemeError::AlreadyExists));
    assert_eq!(root.close(&mut list, second), Ok(0));
    assert_eq!(list.get_name(b"disk"), None);
    assert_eq!(list.get(1), None);
    assert_eq!(root.open(&mut list, b"disk", Some(43), 101), Ok(2));
    assert_eq!(list.get_name(b"disk"), Some((2, &101)));
}

#[test]
fn open_without_a_caller_is_denied() {
    let mut list: SchemeList<u32> = SchemeList::new();
    let mut root = RootScheme::new();
    assert_eq!(root.open(&mut list, b"disk", None, 100), Err(SchemeError::AccessDenied));
    assert_eq!(list.get_name(b"disk"), None);
}

#[test]
fn unknown_root_handles_are_bad_descriptors() {
    let mut list: SchemeList<u32> = SchemeList::new();
    let mut root = RootScheme::new();
    assert_eq!(root.dup(3), Err(SchemeError::BadDescriptor));
    assert_eq!(root.bridge(3), Err(SchemeError::BadDescriptor));
    assert_eq!(root.close(&mut list, 3), Err(SchemeError::BadDescriptor));
    assert_eq!(root.fsync(3), Ok(0));
}

#[test]
fn closing_one_scheme_keeps_another() {
    let mut list: SchemeList<u32> = SchemeList::new();
    let mut root = RootScheme::new();
    let a = root.open(&mut list, b"a", Some(1), 10).unwrap();
    let b = root.open(&mut list, b"b", Some(2), 20).unwrap();
    assert_eq!(root.close(&mut list, a), Ok(0));
    assert_eq!(list.get_name(b"a"), None);
    assert_eq!(list.get_name(b"b"), Some((2, &20)));
    assert_eq!(root.bridge(b), Ok(UserInner { context: 2, scheme_id: 2 }));
}
