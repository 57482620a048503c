use dozer_pipeline::errors::StorageError;
use dozer_pipeline::prefix_transaction::PrefixTransaction;
use dozer_pipeline::storage::{Database, Environment, Table, Transaction};

#[test]
fn what_is_put_is_read_back() {
    let mut txn = Transaction::new();
    let db = txn.open_database("a", false);
    assert_eq!(txn.get(db, b"k"), Ok(None));
    txn.put(db, b"k", b"v1").unwrap();
    txn.put(db, b"other", b"w").unwrap();
    assert_eq!(txn.get(db, b"k"), Ok(Some(b"v1".to_vec())));
    txn.put(db, b"k", b"v2").unwrap();
    assert_eq!(txn.get(db, b"k"), Ok(Some(b"v2".to_vec())));
    assert_eq!(txn.get_all(db, b"k"), Ok(vec![b"v2".to_vec()]));
    assert_eq!(txn.del(db, b"k", None), Ok(true));
    assert_eq!(txn.del(db, b"k", None), Ok(false));
    assert_eq!(txn.get(db, b"k"), Ok(None));
    assert_eq!(txn.get(db, b"other"), Ok(Some(b"w".to_vec())));
    assert_eq!(txn.del(db, b"other", Some(b"not w")), Ok(true));
    assert_eq!(txn.get(db, b"other"), Ok(None));
}

#[test]
fn duplicates_are_sorted_and_kept_once() {
    let mut txn = Transaction::new();
    let db = txn.open_database("dup", true);
    for v in [&b"m"[..], b"c", b"x", b"c", b"ca", b""] {
        txn.put(db, b"k", v).unwrap();
    }
    assert_eq!(
        txn.get_all(db, b"k"),
        Ok(vec![b"".to_vec(), b"c".to_vec(), b"ca".to_vec(), b"m".to_vec(), b"x".to_vec()])
    );
    assert_eq!(txn.get(db, b"k"), Ok(Some(b"".to_vec())));
    assert_eq!(txn.del(db, b"k", Some(b"c")), Ok(true));
    assert_eq!(txn.del(db, b"k", Some(b"c")), Ok(false));
    assert_eq!(txn.del(db, b"k", Some(b"")), Ok(true));
    assert_eq!(txn.get_all(db, b"k"), Ok(vec![b"ca".to_vec(), b"m".to_vec(), b"x".to_vec()]));
    assert_eq!(txn.del(db, b"k", None), Ok(true));
    assert_eq!(txn.get_all(db, b"k"), Ok(vec![]));
    txn.put(db, b"k", b"one").unwrap();
    assert_eq!(txn.del(db, b"k", Some(b"one")), Ok(true));
    assert_eq!(txn.get(db, b"k"), Ok(None));
    assert_eq!(txn.del(db, b"k", Some(b"one")), Ok(false));
}

#[test]
fn opening_a_database_again_gives_the_same_handle() {
    let mut env = Environment::new();
    let a = env.open_database("a", false);
    let b = env.open_database("b", true);
    assert_eq!(a, Database { id: 0 });
    assert_eq!(b, Database { id: 1 });
    assert_eq!(env.open_database("a", true), a);
    assert_eq!(env.open_database("b", false), b);
    assert_eq!(env.tables.len(), 2);
    assert!(!env.tables[0].dup_sort);
    assert!(env.tables[1].dup_sort);
}

#[test]
fn a_handle_that_names_no_database_is_refused() {
    let mut txn = Transaction::new();
    let nowhere = Database { id: 3 };
    assert_eq!(txn.get(nowhere, b"k"), Err(StorageError::InvalidDatabase));
    assert_eq!(txn.get_all(nowhere, b"k"), Err(StorageError::InvalidDatabase));
    assert_eq!(txn.put(nowhere, b"k", b"v"), Err(StorageError::InvalidDatabase));
    assert_eq!(txn.del(nowhere, b"k", None), Err(StorageError::InvalidDatabase));
}

#[test]
fn writes_are_seen_by_others_only_after_the_commit() {
    let mut env = Environment::new();
    let db = env.open_database("a", false);
    let mut txn = env.begin();
    txn.put(db, b"k", b"v").unwrap();
    assert_eq!(txn.get(db, b"k"), Ok(Some(b"v".to_vec())));
    assert_eq!(env.begin().get(db, b"k"), Ok(None));
    env.commit(txn);
    assert_eq!(env.begin().get(db, b"k"), Ok(Some(b"v".to_vec())));
    let mut aborted = env.begin();
    aborted.put(db, b"k", b"w").unwrap();
    aborted.del(db, b"k", None).unwrap();
    drop(aborted);
    assert_eq!(env.begin().get(db, b"k"), Ok(Some(b"v".to_vec())));
}

#[test]
fn a_prefix_keeps_its_user_apart() {
    let mut txn = Transaction::new();
    let db = txn.open_database("shared", false);
    let one = PrefixTransaction::new(1);
    let two = PrefixTransaction::new(0x01020304);
    one.put(&mut txn, db, b"k", b"of one").unwrap();
    two.put(&mut txn, db, b"k", b"of two").unwrap();
    assert_eq!(one.get(&txn, db, b"k"), Ok(Some(b"of one".to_vec())));
    assert_eq!(two.get(&txn, db, b"k"), Ok(Some(b"of two".to_vec())));
    assert_eq!(two.key(b"k"), vec![1, 2, 3, 4, b'k']);
    assert_eq!(txn.get(db, &[0, 0, 0, 1, b'k']), Ok(Some(b"of one".to_vec())));
    assert_eq!(txn.get(db, b"k"), Ok(None));
    assert_eq!(one.del(&mut txn, db, b"k"), Ok(true));
    assert_eq!(one.del(&mut txn, db, b"k"), Ok(false));
    assert_eq!(one.get(&txn, db, b"k"), Ok(None));
    assert_eq!(two.get(&txn, db, b"k"), Ok(Some(b"of two".to_vec())));
    assert_eq!(one.get(&txn, Database { id: 5 }, b"k"), Err(StorageError::InvalidDatabase));
}

#[test]
fn a_table_is_copied_whole() {
    let mut table = Table::new("t".to_string(), true);
    table.put(b"a", b"2");
    table.put(b"a", b"1");
    table.put(b"b", b"3");
    let copy = table.clone();
    table.del(b"a", None);
    assert_eq!(copy.get_all(b"a"), vec![b"1".to_vec(), b"2".to_vec()]);
    assert_eq!(copy.get(b"b"), Some(b"3".to_vec()));
    assert_eq!(table.get(b"a"), None);
    assert_eq!(copy.name, "t");
}

#[test]
fn the_first_and_the_last_key_behind_a_prefix_are_found() {
    let mut txn = Transaction::new();
    let db = txn.open_database("a", false);
    assert_eq!(txn.extreme_key(db, b"p", true), Ok(None));
    for key in [&b"pb"[..], b"q", b"pa", b"pc", b"o", b"p", b"pab"] {
        txn.put(db, key, b"v").unwrap();
    }
    assert_eq!(txn.extreme_key(db, b"p", true), Ok(Some(b"p".to_vec())));
    assert_eq!(txn.extreme_key(db, b"p", false), Ok(Some(b"pc".to_vec())));
    assert_eq!(txn.extreme_key(db, b"pa", true), Ok(Some(b"pa".to_vec())));
    assert_eq!(txn.extreme_key(db, b"pa", false), Ok(Some(b"pab".to_vec())));
    assert_eq!(txn.extreme_key(db, b"", true), Ok(Some(b"o".to_vec())));
    assert_eq!(txn.extreme_key(db, b"", false), Ok(Some(b"q".to_vec())));
    assert_eq!(txn.extreme_key(db, b"x", false), Ok(None));
    assert_eq!(
        txn.extreme_key(Database { id: 2 }, b"p", true),
        Err(StorageError::InvalidDatabase)
    );
}
