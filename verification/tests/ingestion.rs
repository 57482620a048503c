use crossbeam::channel::unbounded;
use dozer_pipeline::errors::IngestorError;
use dozer_pipeline::ingestion::{
    event_to_forward, forward_outcome, received, received_in_time, ChannelForwarder, Commit, IngestionConfig, IngestionEvent, IngestionMessage,
    IngestionOperation, Ingestor, IngestorForwarder, OperationEvent,
};
use dozer_pipeline::types::{Operation, Record};
use std::sync::Arc;

#[test]
fn test_message_handle() {
    let config = IngestionConfig::default();
    let (tx, rx) = unbounded::<IngestionEvent>();
    let forwarder: Arc<Box<dyn IngestorForwarder>> =
        Arc::new(Box::new(ChannelForwarder { sender: tx }));
    let mut ingestor = Ingestor::new(config, forwarder);

    let operation_event_message = OperationEvent {
        seq_no: 0,
        operation: Operation::Insert {
            new: Record::new(None, vec![], None),
        },
    };

    let operation_event_message2 = OperationEvent {
        seq_no: 0,
        operation: Operation::Insert {
            new: Record::new(None, vec![], None),
        },
    };

    let commit_message = Commit {
        seq_no: 0,
        lsn: 412142432,
    };

    ingestor.handle_message(((1, 1), IngestionMessage::Begin())).unwrap();
    ingestor
        .handle_message(((1, 2), IngestionMessage::OperationEvent(operation_event_message.clone())))
        .unwrap();
    ingestor
        .handle_message(((1, 3), IngestionMessage::OperationEvent(operation_event_message2.clone())))
        .unwrap();
    ingestor
        .handle_message(((1, 4), IngestionMessage::Commit(commit_message)))
        .unwrap();

    let expected_op_event_message = vec![
        IngestionOperation::OperationEvent(operation_event_message),
        IngestionOperation::OperationEvent(operation_event_message2),
    ]
    .into_iter();

    for x in expected_op_event_message {
        let msg = rx.recv().unwrap();
        assert_eq!(x, msg.1);
    }
}

#[test]
fn events_keep_their_position_and_the_channel_its_order() {
    let (mut ingestor, mut iterator) =
        Ingestor::initialize_channel(IngestionConfig { forwarder_channel_cap: 4 });
    let event = OperationEvent {
        seq_no: 9,
        operation: Operation::Delete { old: Record::new(None, vec![], Some(3)) },
    };
    ingestor.handle_message(((7, 1), IngestionMessage::OperationEvent(event.clone()))).unwrap();
    ingestor.handle_message(((7, 2), IngestionMessage::OperationEvent(event.clone()))).unwrap();
    assert_eq!(iterator.next(), Some(((7, 1), IngestionOperation::OperationEvent(event.clone()))));
    assert_eq!(
        iterator.next_timeout(1000),
        Some(((7, 2), IngestionOperation::OperationEvent(event)))
    );
    assert_eq!(iterator.next_timeout(10), None);
    drop(ingestor);
    assert_eq!(iterator.next(), None);
}

#[test]
fn a_channel_without_receiver_fails() {
    let (mut ingestor, iterator) =
        Ingestor::initialize_channel(IngestionConfig { forwarder_channel_cap: 1 });
    drop(iterator);
    let event = OperationEvent {
        seq_no: 0,
        operation: Operation::Insert { new: Record::new(None, vec![], None) },
    };
    let kept = OperationEvent {
        seq_no: 0,
        operation: Operation::Insert { new: Record::new(None, vec![], None) },
    };
    match ingestor.handle_message(((1, 1), IngestionMessage::OperationEvent(event))) {
        Err(IngestorError::ChannelError(cause)) => {
            assert_eq!(cause.into_inner(), ((1, 1), IngestionOperation::OperationEvent(kept)));
        }
        other => panic!("the channel took the event: {:?}", other),
    }
    assert_eq!(ingestor.handle_message(((1, 2), IngestionMessage::Begin())), Ok(()));
    assert_eq!(
        ingestor.handle_message(((1, 3), IngestionMessage::Commit(Commit { seq_no: 1, lsn: 1 }))),
        Ok(())
    );
}

#[test]
fn only_changes_are_forwarded() {
    assert_eq!(event_to_forward(1, 2, IngestionMessage::Begin()), None);
    assert_eq!(
        event_to_forward(1, 2, IngestionMessage::Commit(Commit { seq_no: 0, lsn: 5 })),
        None
    );
    let event = OperationEvent {
        seq_no: 4,
        operation: Operation::Insert { new: Record::new(None, vec![], None) },
    };
    assert_eq!(
        event_to_forward(1, 2, IngestionMessage::OperationEvent(event.clone())),
        Some(((1, 2), IngestionOperation::OperationEvent(event)))
    );
}

#[test]
fn a_failed_receive_gives_nothing() {
    let event = ((1u64, 2u64), IngestionOperation::OperationEvent(OperationEvent {
        seq_no: 0,
        operation: Operation::Insert { new: Record::new(None, vec![], None) },
    }));
    let (tx, rx) = unbounded::<IngestionEvent>();
    tx.send(event).unwrap();
    let taken = rx.recv();
    assert!(received(taken).is_some());
    drop(tx);
    assert_eq!(received(rx.recv()), None);
    assert_eq!(received_in_time(rx.recv_timeout(std::time::Duration::from_millis(1))), None);
    assert_eq!(forward_outcome(Ok(())), Ok(()));
    let (tx, rx) = unbounded::<IngestionEvent>();
    drop(rx);
    let event = ((1u64, 2u64), IngestionOperation::OperationEvent(OperationEvent {
        seq_no: 0,
        operation: Operation::Insert { new: Record::new(None, vec![], None) },
    }));
    assert!(matches!(
        forward_outcome(tx.send(event)),
        Err(IngestorError::ChannelError(cause)) if (cause.0).0 == (1, 2)
    ));
}

#[test]
fn the_channel_holds_as_many_events_as_the_settings_say() {
    for cap in [0usize, 1, 4, 1000] {
        let (_ingestor, iterator) =
            Ingestor::initialize_channel(IngestionConfig { forwarder_channel_cap: cap });
        assert_eq!(iterator.rx.capacity(), Some(cap));
    }
    let (mut ingestor, mut iterator) =
        Ingestor::initialize_channel(IngestionConfig { forwarder_channel_cap: 2 });
    let event = |seq_no: u64| {
        IngestionMessage::OperationEvent(OperationEvent {
            seq_no,
            operation: Operation::Insert { new: Record::new(None, vec![], None) },
        })
    };
    ingestor.handle_message(((1, 1), event(1))).unwrap();
    ingestor.handle_message(((1, 2), event(2))).unwrap();
    assert_eq!(iterator.rx.len(), 2);
    assert!(iterator.rx.is_full());
    assert_eq!(iterator.next().map(|e| e.0), Some((1, 1)));
    assert_eq!(iterator.next_timeout(10).map(|e| e.0), Some((1, 2)));
    assert_eq!(iterator.next_timeout(10).map(|e| e.0), None);
}

#[test]
fn an_event_fits_the_slot_of_a_channel() {
    // A slot holds a stamp of one machine word beside the event.
    assert!(std::mem::size_of::<IngestionEvent>() + 2 * std::mem::size_of::<usize>() <= 256);
}

struct Kept(std::sync::Mutex<Vec<IngestionEvent>>);

impl IngestorForwarder for Kept {
    fn forward(&self, event: IngestionEvent) -> Result<(), IngestorError> {
        self.0.lock().unwrap().push(event);
        Ok(())
    }
}

#[test]
fn every_change_is_forwarded_once_with_its_position() {
    let kept = Arc::new(Kept(std::sync::Mutex::new(Vec::new())));
    struct Shared(Arc<Kept>);
    impl IngestorForwarder for Shared {
        fn forward(&self, event: IngestionEvent) -> Result<(), IngestorError> {
            self.0.forward(event)
        }
    }
    let forwarder: Arc<Box<dyn IngestorForwarder>> = Arc::new(Box::new(Shared(kept.clone())));
    let mut ingestor = Ingestor::new(IngestionConfig::default(), forwarder);
    let event = |seq_no: u64| {
        IngestionMessage::OperationEvent(OperationEvent {
            seq_no,
            operation: Operation::Insert { new: Record::new(None, vec![], None) },
        })
    };
    ingestor.handle_message(((7, 0), IngestionMessage::Begin())).unwrap();
    ingestor.handle_message(((7, 1), event(1))).unwrap();
    ingestor.handle_message(((7, 2), event(2))).unwrap();
    ingestor
        .handle_message(((7, 3), IngestionMessage::Commit(Commit { seq_no: 3, lsn: 7 })))
        .unwrap();
    let positions: Vec<(u64, u64)> = kept.0.lock().unwrap().iter().map(|e| e.0).collect();
    assert_eq!(positions, vec![(7, 1), (7, 2)]);
}
