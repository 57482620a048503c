use dozer_pipeline::errors::{ExecutionError, JoinError, StorageError, TypeError};
use dozer_pipeline::product::join::{JoinAction, JoinSource, JoinTable};
use dozer_pipeline::product::processor::FromProcessor;
use dozer_pipeline::storage::{Database, Environment, Transaction};
use dozer_pipeline::types::{Field, Operation, Record};

const LEFT: u16 = 0;
const RIGHT: u16 = 1;

fn record(values: Vec<Field>) -> Record {
    Record::new(None, values, None)
}

fn text(s: &str) -> Field {
    Field::String(s.to_string())
}

fn join_on_a() -> (FromProcessor, Environment, Transaction) {
    let left = JoinTable::new(LEFT, vec![0], vec![0, 1]);
    let right = JoinTable::new(RIGHT, vec![0], vec![1]);
    let mut processor = FromProcessor::new(JoinSource::new(left, right));
    let mut env = Environment::new();
    processor.init(&mut env).unwrap();
    let txn = env.begin();
    (processor, env, txn)
}

#[test]
fn equi_join_insertion() {
    let (mut processor, _env, mut txn) = join_on_a();
    assert_eq!(
        processor
            .process(RIGHT, Operation::Insert { new: record(vec![Field::Int(1), text("x")]) }, &mut txn)
            .unwrap(),
        vec![]
    );
    assert_eq!(
        processor
            .process(RIGHT, Operation::Insert { new: record(vec![Field::Int(1), text("y")]) }, &mut txn)
            .unwrap(),
        vec![]
    );
    let out = processor
        .process(LEFT, Operation::Insert { new: record(vec![Field::Int(1), Field::Int(10)]) }, &mut txn)
        .unwrap();
    assert_eq!(
        out,
        vec![
            Operation::Insert { new: record(vec![Field::Int(1), Field::Int(10), text("x")]) },
            Operation::Insert { new: record(vec![Field::Int(1), Field::Int(10), text("y")]) },
        ]
    );
}

#[test]
fn joined_rows_come_in_the_order_of_the_primary_keys() {
    let (mut processor, _env, mut txn) = join_on_a();
    for c in ["y", "z", "x"] {
        processor
            .process(RIGHT, Operation::Insert { new: record(vec![Field::Int(1), text(c)]) }, &mut txn)
            .unwrap();
    }
    processor
        .process(RIGHT, Operation::Insert { new: record(vec![Field::Int(2), text("w")]) }, &mut txn)
        .unwrap();
    let out = processor
        .process(LEFT, Operation::Insert { new: record(vec![Field::Int(1), Field::Int(10)]) }, &mut txn)
        .unwrap();
    assert_eq!(
        out,
        vec![
            Operation::Insert { new: record(vec![Field::Int(1), Field::Int(10), text("x")]) },
            Operation::Insert { new: record(vec![Field::Int(1), Field::Int(10), text("y")]) },
            Operation::Insert { new: record(vec![Field::Int(1), Field::Int(10), text("z")]) },
        ]
    );
}

#[test]
fn a_record_joins_what_came_before_it_on_the_other_side() {
    let (mut processor, _env, mut txn) = join_on_a();
    processor
        .process(LEFT, Operation::Insert { new: record(vec![Field::Int(1), Field::Int(10)]) }, &mut txn)
        .unwrap();
    processor
        .process(LEFT, Operation::Insert { new: record(vec![Field::Int(2), Field::Int(20)]) }, &mut txn)
        .unwrap();
    let out = processor
        .process(RIGHT, Operation::Insert { new: record(vec![Field::Int(2), text("x")]) }, &mut txn)
        .unwrap();
    assert_eq!(
        out,
        vec![Operation::Insert { new: record(vec![Field::Int(2), Field::Int(20), text("x")]) }]
    );
    let out = processor
        .process(RIGHT, Operation::Delete { old: record(vec![Field::Int(2), text("x")]) }, &mut txn)
        .unwrap();
    assert_eq!(
        out,
        vec![Operation::Delete { old: record(vec![Field::Int(2), Field::Int(20), text("x")]) }]
    );
    let out = processor
        .process(LEFT, Operation::Delete { old: record(vec![Field::Int(2), Field::Int(20)]) }, &mut txn)
        .unwrap();
    assert_eq!(out, vec![]);
}

#[test]
fn an_update_deletes_the_old_rows_and_inserts_the_new() {
    let (mut processor, _env, mut txn) = join_on_a();
    processor
        .process(RIGHT, Operation::Insert { new: record(vec![Field::Int(1), text("x")]) }, &mut txn)
        .unwrap();
    processor
        .process(RIGHT, Operation::Insert { new: record(vec![Field::Int(2), text("y")]) }, &mut txn)
        .unwrap();
    processor
        .process(LEFT, Operation::Insert { new: record(vec![Field::Int(1), Field::Int(10)]) }, &mut txn)
        .unwrap();
    let out = processor
        .process(
            LEFT,
            Operation::Update {
                old: record(vec![Field::Int(1), Field::Int(10)]),
                new: record(vec![Field::Int(1), Field::Int(11)]),
            },
            &mut txn,
        )
        .unwrap();
    assert_eq!(
        out,
        vec![
            Operation::Delete { old: record(vec![Field::Int(1), Field::Int(10), text("x")]) },
            Operation::Insert { new: record(vec![Field::Int(1), Field::Int(11), text("x")]) },
        ]
    );
    let out = processor
        .process(
            LEFT,
            Operation::Update {
                old: record(vec![Field::Int(1), Field::Int(11)]),
                new: record(vec![Field::Int(2), Field::Int(11)]),
            },
            &mut txn,
        )
        .unwrap();
    assert_eq!(
        out,
        vec![
            Operation::Delete { old: record(vec![Field::Int(1), Field::Int(11), text("x")]) },
            Operation::Insert { new: record(vec![Field::Int(2), Field::Int(11), text("y")]) },
        ]
    );
}

#[test]
fn without_join_columns_the_product_is_cartesian() {
    let left = JoinTable::new(LEFT, vec![], vec![0]);
    let right = JoinTable::new(RIGHT, vec![], vec![0]);
    let mut processor = FromProcessor::new(JoinSource::new(left, right));
    let mut env = Environment::new();
    processor.init(&mut env).unwrap();
    let mut txn = env.begin();
    processor.process(LEFT, Operation::Insert { new: record(vec![Field::Int(1)]) }, &mut txn).unwrap();
    processor.process(LEFT, Operation::Insert { new: record(vec![Field::Int(2)]) }, &mut txn).unwrap();
    let out = processor
        .process(RIGHT, Operation::Insert { new: record(vec![text("x")]) }, &mut txn)
        .unwrap();
    assert_eq!(
        out,
        vec![
            Operation::Insert { new: record(vec![Field::Int(1), text("x")]) },
            Operation::Insert { new: record(vec![Field::Int(2), text("x")]) },
        ]
    );
}

#[test]
fn the_join_gives_the_action_the_record_and_the_join_key() {
    let (processor, _env, mut txn) = join_on_a();
    processor.insert(RIGHT, &record(vec![Field::Int(1), text("x")]), &mut txn).unwrap();
    let joined = processor.insert(LEFT, &record(vec![Field::Int(1), Field::Int(10)]), &mut txn).unwrap();
    assert_eq!(
        joined,
        vec![(
            JoinAction::Insert,
            record(vec![Field::Int(1), Field::Int(10), text("x")]),
            Field::Int(1).encode()
        )]
    );
    let joined = processor.delete(LEFT, &record(vec![Field::Int(1), Field::Int(10)]), &mut txn).unwrap();
    assert_eq!(
        joined,
        vec![(
            JoinAction::Delete,
            record(vec![Field::Int(1), Field::Int(10), text("x")]),
            Field::Int(1).encode()
        )]
    );
    let (old, new) = processor
        .update(
            RIGHT,
            &record(vec![Field::Int(1), text("x")]),
            &record(vec![Field::Int(1), text("y")]),
            &mut txn,
        )
        .unwrap();
    assert_eq!(old, vec![]);
    assert_eq!(new, vec![]);
}

#[test]
fn the_join_refuses_what_it_cannot_place() {
    let (mut processor, _env, mut txn) = join_on_a();
    assert_eq!(
        processor.process(7, Operation::Insert { new: record(vec![Field::Int(1)]) }, &mut txn),
        Err(ExecutionError::JoinError(JoinError::InsertPortError(7)))
    );
    assert_eq!(
        processor.process(7, Operation::Delete { old: record(vec![Field::Int(1)]) }, &mut txn),
        Err(ExecutionError::JoinError(JoinError::DeletePortError(7)))
    );
    assert_eq!(
        processor.process(LEFT, Operation::Insert { new: record(vec![Field::Int(1)]) }, &mut txn),
        Err(ExecutionError::InternalTypeError(TypeError::InvalidFieldIndex(1)))
    );
    let mut fresh = FromProcessor::new(JoinSource::new(
        JoinTable::new(LEFT, vec![0], vec![0]),
        JoinTable::new(RIGHT, vec![0], vec![0]),
    ));
    assert_eq!(
        fresh.process(LEFT, Operation::Insert { new: record(vec![Field::Int(1)]) }, &mut txn),
        Err(ExecutionError::InvalidDatabase)
    );
    fresh.db = Some(Database { id: 9 });
    assert_eq!(
        fresh.process(LEFT, Operation::Insert { new: record(vec![Field::Int(1)]) }, &mut txn),
        Err(ExecutionError::InternalDatabaseError(StorageError::InvalidDatabase))
    );
    assert!(fresh.commit(1, &txn).is_ok());
}

#[test]
fn an_index_without_its_record_is_a_failure() {
    let (mut processor, _env, mut txn) = join_on_a();
    let db = processor.db.unwrap();
    let mut index = vec![0, RIGHT as u8, 0];
    index.extend(Field::Int(1).encode());
    txn.put(db, &index, b"gone").unwrap();
    assert_eq!(
        processor.process(
            LEFT,
            Operation::Insert { new: record(vec![Field::Int(1), Field::Int(10)]) },
            &mut txn
        ),
        Err(ExecutionError::RecordNotFound)
    );
    let mut store = vec![0, RIGHT as u8, 1];
    store.extend(b"gone");
    txn.put(db, &store, &[0, 0, 0]).unwrap();
    assert_eq!(
        processor.process(
            LEFT,
            Operation::Insert { new: record(vec![Field::Int(1), Field::Int(10)]) },
            &mut txn
        ),
        Err(ExecutionError::InternalTypeError(TypeError::DeserializationError(
            dozer_pipeline::errors::DeserializationError::BadDataLength
        )))
    );
}

#[test]
fn the_index_and_the_store_are_kept_under_the_port() {
    let (mut processor, _env, mut txn) = join_on_a();
    let db = processor.db.unwrap();
    processor
        .process(RIGHT, Operation::Insert { new: record(vec![Field::Int(1), text("x")]) }, &mut txn)
        .unwrap();
    let mut index = vec![0, RIGHT as u8, 0];
    index.extend(Field::Int(1).encode());
    let mut store = vec![0, RIGHT as u8, 1];
    store.extend(text("x").encode());
    assert_eq!(txn.get_all(db, &index), Ok(vec![text("x").encode()]));
    assert_eq!(
        txn.get(db, &store),
        Ok(Some(dozer_pipeline::codec::encode_record_values(&vec![Field::Int(1), text("x")])))
    );
    processor
        .process(RIGHT, Operation::Delete { old: record(vec![Field::Int(1), text("x")]) }, &mut txn)
        .unwrap();
    assert_eq!(txn.get_all(db, &index), Ok(vec![]));
    assert_eq!(txn.get(db, &store), Ok(None));
}

#[test]
fn the_rows_built_from_the_changes_are_the_join_of_the_inputs() {
    let (mut processor, _env, mut txn) = join_on_a();
    let mut left: Vec<Record> = Vec::new();
    let mut right: Vec<Record> = Vec::new();
    let mut joined: Vec<Record> = Vec::new();
    let mut seed: u64 = 11;
    let mut next = |bound: u64| {
        seed = seed.wrapping_mul(6364136223846793005).wrapping_add(1442695040888963407);
        (seed >> 33) % bound
    };
    let apply = |rows: &mut Vec<Record>, op: &Operation| match op {
        Operation::Insert { new } => rows.push(new.clone()),
        Operation::Delete { old } => {
            let at = rows.iter().position(|r| r == old).unwrap();
            rows.remove(at);
        }
        Operation::Update { old, new } => {
            let at = rows.iter().position(|r| r == old).unwrap();
            rows.remove(at);
            rows.push(new.clone());
        }
    };
    let names = ["x", "y", "z", "w"];
    let mut steps = 0;
    let mut most = 0;
    while steps < 300 {
        let on_left = next(2) == 0;
        let choice = next(3);
        let op = if on_left {
            // The primary key of the left input is the whole row.
            let candidate = record(vec![Field::Int(next(3) as i64), Field::Int(next(4) as i64)]);
            if left.is_empty() || choice == 0 {
                if left.contains(&candidate) {
                    continue;
                }
                Operation::Insert { new: candidate }
            } else {
                Operation::Delete { old: left[next(left.len() as u64) as usize].clone() }
            }
        } else {
            // The primary key of the right input is its second column.
            let name = text(names[next(4) as usize]);
            let held = right.iter().position(|r| r.values[1] == name);
            match (held, choice) {
                (None, _) => {
                    Operation::Insert { new: record(vec![Field::Int(next(3) as i64), name]) }
                }
                (Some(at), 1) => Operation::Delete { old: right[at].clone() },
                (Some(at), _) => Operation::Update {
                    old: right[at].clone(),
                    new: record(vec![Field::Int(next(3) as i64), name]),
                },
            }
        };
        steps += 1;
        let (rows, port) = if on_left { (&mut left, LEFT) } else { (&mut right, RIGHT) };
        apply(rows, &op);
        for out in processor.process(port, op, &mut txn).unwrap() {
            apply(&mut joined, &out);
        }
        let mut expected: Vec<Record> = Vec::new();
        for l in &left {
            for r in &right {
                if l.values[0] == r.values[0] {
                    expected.push(record(vec![
                        l.values[0].clone(),
                        l.values[1].clone(),
                        r.values[1].clone(),
                    ]));
                }
            }
        }
        expected.sort_by_key(|r| format!("{:?}", r));
        joined.sort_by_key(|r| format!("{:?}", r));
        assert_eq!(joined, expected);
        most = most.max(joined.len());
    }
    assert!(most > 3);
}

#[test]
fn a_join_that_fails_writes_nothing() {
    let left = JoinTable::new(LEFT, vec![0], vec![0, 1]);
    let right = JoinTable::new(RIGHT, vec![0], vec![1]);
    let mut processor = FromProcessor::new(JoinSource::new(left, right));
    let mut env = Environment::new();
    let other = env.open_database("other", false);
    let mut txn = env.begin();
    txn.put(other, &[1], &[2]).unwrap();
    let row = || record(vec![Field::Int(1), Field::Int(10)]);
    assert_eq!(
        processor.process(LEFT, Operation::Insert { new: row() }, &mut txn),
        Err(ExecutionError::InvalidDatabase)
    );
    assert_eq!(
        processor.process(LEFT, Operation::Update { old: row(), new: row() }, &mut txn),
        Err(ExecutionError::InvalidDatabase)
    );
    assert_eq!(txn.tables.len(), 1);
    assert_eq!(txn.tables[0].entries.len(), 1);

    let (mut processor, _env, mut txn) = join_on_a();
    assert!(processor.process(7, Operation::Insert { new: row() }, &mut txn).is_err());
    assert!(processor
        .process(LEFT, Operation::Insert { new: record(vec![Field::Int(1)]) }, &mut txn)
        .is_err());
    assert!(txn.tables.iter().all(|t| t.entries.is_empty()));
}
