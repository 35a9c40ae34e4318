//! End-to-end behavior of the cache through its public API.

use cachedb::{CacheDb, LockingMethod};

#[test]
fn create() {
    let mut cdb = CacheDb::<String, String, 16>::new();

    println!("Debug {:?}", &cdb);
    assert!(cdb.get(&LockingMethod::Blocking, &"foo".to_string()).is_err());
}

#[test]
fn insert_foobar_onebucket() {
    let mut cdb = CacheDb::<String, String, 1>::new();

    assert!(cdb
        .get_or_insert(&LockingMethod::Blocking, &"foo".to_string(), "bar".to_string())
        .map(|g| cdb.release_read(g))
        .is_ok());
    let g = cdb.get(&LockingMethod::Blocking, &"foo".to_string()).unwrap();
    assert_eq!(*cdb.read_value(&g), "bar".to_string());
    cdb.release_read(g);
    assert!(cdb
        .get_or_insert(&LockingMethod::Blocking, &"bar".to_string(), "foo".to_string())
        .map(|g| cdb.release_read(g))
        .is_ok());
    let g = cdb.get(&LockingMethod::Blocking, &"bar".to_string()).unwrap();
    assert_eq!(*cdb.read_value(&g), "foo".to_string());
    cdb.release_read(g);
    assert!(cdb
        .get_or_insert(&LockingMethod::Blocking, &"foo2".to_string(), "bar2".to_string())
        .map(|g| cdb.release_read(g))
        .is_ok());
    let g = cdb.get(&LockingMethod::Blocking, &"foo2".to_string()).unwrap();
    assert_eq!(*cdb.read_value(&g), "bar2".to_string());
    cdb.release_read(g);
    assert!(cdb
        .get_or_insert(&LockingMethod::Blocking, &"bar2".to_string(), "foo2".to_string())
        .map(|g| cdb.release_read(g))
        .is_ok());
    let g = cdb.get(&LockingMethod::Blocking, &"bar2".to_string()).unwrap();
    assert_eq!(*cdb.read_value(&g), "foo2".to_string());
    cdb.release_read(g);
    assert!(cdb.check_invariants());
}

#[test]
fn insert_foobar() {
    let mut cdb = CacheDb::<String, String, 16>::new();

    assert!(cdb
        .get_or_insert(&LockingMethod::Blocking, &"foo".to_string(), "bar".to_string())
        .map(|g| cdb.release_read(g))
        .is_ok());
    let g = cdb.get(&LockingMethod::Blocking, &"foo".to_string()).unwrap();
    assert_eq!(*cdb.read_value(&g), "bar".to_string());
    cdb.release_read(g);
    assert!(cdb
        .get_or_insert(&LockingMethod::Blocking, &"bar".to_string(), "foo".to_string())
        .map(|g| cdb.release_read(g))
        .is_ok());
    let g = cdb.get(&LockingMethod::Blocking, &"bar".to_string()).unwrap();
    assert_eq!(*cdb.read_value(&g), "foo".to_string());
    cdb.release_read(g);
    assert!(cdb
        .get_or_insert(&LockingMethod::Blocking, &"foo2".to_string(), "bar2".to_string())
        .map(|g| cdb.release_read(g))
        .is_ok());
    let g = cdb.get(&LockingMethod::Blocking, &"foo2".to_string()).unwrap();
    assert_eq!(*cdb.read_value(&g), "bar2".to_string());
    cdb.release_read(g);
    assert!(cdb
        .get_or_insert(&LockingMethod::Blocking, &"bar2".to_string(), "foo2".to_string())
        .map(|g| cdb.release_read(g))
        .is_ok());
    let g = cdb.get(&LockingMethod::Blocking, &"bar2".to_string()).unwrap();
    assert_eq!(*cdb.read_value(&g), "foo2".to_string());
    cdb.release_read(g);
    assert!(cdb.check_invariants());
}

#[test]
fn insert_unit() {
    let mut cdb = CacheDb::<String, (), 16>::new();

    assert!(cdb.insert(&"foo".to_string(), ()));
    let g = cdb.get(&LockingMethod::Blocking, &"foo".to_string()).unwrap();
    assert_eq!(*cdb.read_value(&g), ());
    cdb.release_read(g);

    assert!(cdb.insert(&"bar".to_string(), ()));
    let g = cdb.get(&LockingMethod::Blocking, &"bar".to_string()).unwrap();
    assert_eq!(*cdb.read_value(&g), ());
    cdb.release_read(g);

    assert_eq!(cdb.contains_key(&"foo".to_string()), true);
    assert_eq!(cdb.contains_key(&"bar".to_string()), true);
    assert_eq!(cdb.contains_key(&"baz".to_string()), false);
}

#[test]
fn trylocks() {
    let mut cdb = CacheDb::<String, String, 16>::new();

    assert!(cdb
        .get_or_insert(&LockingMethod::Blocking, &"foo".to_string(), "bar".to_string())
        .map(|g| cdb.release_read(g))
        .is_ok());
    let g = cdb.get(&LockingMethod::TryLock, &"foo".to_string()).unwrap();
    assert_eq!(*cdb.read_value(&g), "bar".to_string());
    cdb.release_read(g);
    let g = cdb.get(&LockingMethod::Duration(100), &"foo".to_string()).unwrap();
    assert_eq!(*cdb.read_value(&g), "bar".to_string());
    cdb.release_read(g);
    let g = cdb.get(&LockingMethod::Deadline(100), &"foo".to_string()).unwrap();
    assert_eq!(*cdb.read_value(&g), "bar".to_string());
    cdb.release_read(g);
}

#[test]
fn recursivelocks() {
    let mut cdb = CacheDb::<String, String, 16>::new();

    assert!(cdb
        .get_or_insert(&LockingMethod::Blocking, &"foo".to_string(), "bar".to_string())
        .map(|g| cdb.release_read(g))
        .is_ok());

    let l1 = cdb
        .get(&LockingMethod::Recursive(Box::new(LockingMethod::Blocking)), &"foo".to_string())
        .unwrap();
    assert_eq!(*cdb.read_value(&l1), "bar".to_string());

    let l2 = cdb
        .get(&LockingMethod::Recursive(Box::new(LockingMethod::TryLock)), &"foo".to_string())
        .unwrap();
    assert_eq!(*cdb.read_value(&l2), "bar".to_string());

    let l3 = cdb
        .get(&LockingMethod::Recursive(Box::new(LockingMethod::Duration(100))), &"foo".to_string())
        .unwrap();
    assert_eq!(*cdb.read_value(&l3), "bar".to_string());

    let l4 = cdb
        .get(&LockingMethod::Recursive(Box::new(LockingMethod::Deadline(100))), &"foo".to_string())
        .unwrap();
    assert_eq!(*cdb.read_value(&l4), "bar".to_string());

    cdb.release_read(l1);
    cdb.release_read(l2);
    cdb.release_read(l3);
    cdb.release_read(l4);
    assert!(cdb.check_invariants());
}

#[test]
fn mutate() {
    let mut cdb = CacheDb::<String, String, 16>::new();

    let g = cdb
        .get_or_insert(&LockingMethod::Blocking, &"foo".to_string(), "bar".to_string())
        .unwrap();
    cdb.release_read(g);

    let g = cdb.get_mut(&LockingMethod::Blocking, &"foo".to_string()).unwrap();
    cdb.write_value(&g, "baz".to_string());
    cdb.release_write(g);
    let g = cdb.get(&LockingMethod::Blocking, &"foo".to_string()).unwrap();
    assert_eq!(*cdb.read_value(&g), "baz".to_string());
    cdb.release_read(g);
}

#[test]
fn insert_mutate() {
    let mut cdb = CacheDb::<String, String, 16>::new();

    let foo = cdb
        .get_or_insert_mut(&LockingMethod::Blocking, &"foo".to_string(), "bar".to_string())
        .unwrap();
    assert_eq!(*cdb.peek_value(&foo), "bar".to_string());
    cdb.write_value(&foo, "baz".to_string());
    assert_eq!(*cdb.peek_value(&foo), "baz".to_string());
    cdb.release_write(foo);
    let g = cdb.get(&LockingMethod::Blocking, &"foo".to_string()).unwrap();
    assert_eq!(*cdb.read_value(&g), "baz".to_string());
    cdb.release_read(g);
}
