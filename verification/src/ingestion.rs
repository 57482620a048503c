//! Ingestion: what a connector hands over is put on a bounded channel, from
//! which the sources of the pipeline take it.

use std::sync::Arc;
use vstd::prelude::*;
use crate::errors::IngestorError;
use crate::types::{Operation, OperationValue};

verus! {

/// A change with its place in the source's transaction.
#[derive(Debug, PartialEq, Eq)]
pub struct OperationEvent {
    pub seq_no: u64,
    pub operation: Operation,
}

/// The mathematical value of an [`OperationEvent`].
pub struct OperationEventValue {
    pub seq_no: u64,
    pub operation: OperationValue,
}

impl View for OperationEvent {
    type V = OperationEventValue;

    open spec fn view(&self) -> OperationEventValue {
        OperationEventValue { seq_no: self.seq_no, operation: self.operation@ }
    }
}

impl Clone for OperationEvent {
    fn clone(&self) -> (res: Self)
        ensures
            res@ == self@,
    {
        OperationEvent { seq_no: self.seq_no, operation: self.operation.clone() }
    }
}

/// The end of a transaction of the source.
#[derive(Clone, Copy, Debug, PartialEq, Eq, Structural)]
pub struct Commit {
    pub seq_no: u64,
    pub lsn: u64,
}

/// What a connector hands over.
#[derive(Debug, PartialEq, Eq)]
pub enum IngestionMessage {
    Begin(),
    OperationEvent(OperationEvent),
    Commit(Commit),
}

/// What goes on the channel.
#[derive(Debug, PartialEq, Eq)]
pub enum IngestionOperation {
    OperationEvent(OperationEvent),
}

/// The mathematical value of an [`IngestionOperation`].
pub enum IngestionOperationValue {
    OperationEvent(OperationEventValue),
}

impl View for IngestionOperation {
    type V = IngestionOperationValue;

    open spec fn view(&self) -> IngestionOperationValue {
        match self {
            IngestionOperation::OperationEvent(e) => IngestionOperationValue::OperationEvent(e@),
        }
    }
}

/// What goes on the channel, with the log position and the place in the
/// transaction that it came with.
pub type IngestionEvent = ((u64, u64), IngestionOperation);

/// How the channel is set up.
#[derive(Clone, Copy, Debug, PartialEq, Eq, Structural)]
pub struct IngestionConfig {
    pub forwarder_channel_cap: usize,
}

impl Default for IngestionConfig {
    fn default() -> (res: Self)
        ensures
            res.forwarder_channel_cap == 100000,
    {
        IngestionConfig { forwarder_channel_cap: 100000 }
    }
}

/// `crossbeam::channel::Sender`: the sending end of a channel.
#[verifier::external_type_specification]
#[verifier::external_body]
#[verifier::reject_recursive_types(T)]
pub struct ExSender<T>(crossbeam::channel::Sender<T>);

/// `crossbeam::channel::Receiver`: the receiving end of a channel.
#[verifier::external_type_specification]
#[verifier::external_body]
#[verifier::reject_recursive_types(T)]
pub struct ExReceiver<T>(crossbeam::channel::Receiver<T>);

/// `crossbeam::channel::SendError`: a message that could not be sent
/// because every receiver is gone.
#[verifier::external_type_specification]
#[verifier::external_body]
#[verifier::reject_recursive_types(T)]
pub struct ExSendError<T>(crossbeam::channel::SendError<T>);

/// `crossbeam::channel::RecvError`: the channel is empty and every sender
/// is gone.
#[verifier::external_type_specification]
#[verifier::external_body]
pub struct ExRecvError(crossbeam::channel::RecvError);

/// `crossbeam::channel::RecvTimeoutError`: no message came in time, or
/// the channel is empty and every sender is gone.
#[verifier::external_type_specification]
#[verifier::external_body]
pub struct ExRecvTimeoutError(crossbeam::channel::RecvTimeoutError);

/// The most messages that the channel of a receiving end holds at a time,
/// as `crossbeam::channel::Receiver::capacity` gives it: the limit that the
/// channel was made with.
pub uninterp spec fn receiver_capacity(
    rx: crossbeam::channel::Receiver<IngestionEvent>,
) -> Option<usize>;

/// The channel that a sending end belongs to. Ends that were made
/// together, and their clones, belong to one channel.
pub uninterp spec fn sender_channel(sender: crossbeam::channel::Sender<IngestionEvent>) -> int;

/// The channel that a receiving end belongs to.
pub uninterp spec fn receiver_channel(rx: crossbeam::channel::Receiver<IngestionEvent>) -> int;

/// The most events that a channel can be made for. A channel keeps a slot
/// of at most 256 bytes for every event that it can hold, and all slots
/// together must not take more bytes than the machine can address.
pub open spec fn max_channel_capacity() -> usize {
    (usize::MAX / 512) as usize
}

/// `crossbeam::channel::bounded`: the two ends of one new channel that
/// holds at most `cap` messages, which is what `capacity` then gives for
/// the receiving end. It panics on a capacity that is too large for the
/// channel to be laid out, which the limit leaves out.
#[verifier::external_body]
fn channel_bounded(cap: usize) -> (res: (
    crossbeam::channel::Sender<IngestionEvent>,
    crossbeam::channel::Receiver<IngestionEvent>,
))
    requires
        cap <= max_channel_capacity(),
    ensures
        receiver_capacity(res.1) == Some(cap),
        sender_channel(res.0) == receiver_channel(res.1),
{
    crossbeam::channel::bounded(cap)
}

/// `crossbeam::channel::Sender::send`: waits while the channel is full, and
/// fails once every receiver is gone. Which of the two happens depends on
/// the other end, so nothing is claimed of the result.
#[verifier::external_body]
fn channel_send(sender: &crossbeam::channel::Sender<IngestionEvent>, event: IngestionEvent) -> (res:
    Result<(), crossbeam::channel::SendError<IngestionEvent>>) {
    sender.send(event)
}

/// `crossbeam::channel::Receiver::recv`: waits for a message, and fails
/// once the channel is empty and every sender is gone. Nothing is claimed
/// of the result.
#[verifier::external_body]
fn channel_recv(rx: &crossbeam::channel::Receiver<IngestionEvent>) -> (res: Result<
    IngestionEvent,
    crossbeam::channel::RecvError,
>) {
    rx.recv()
}

/// `crossbeam::channel::Receiver::recv_timeout`: waits for a message for at
/// most the given number of milliseconds. Nothing is claimed of the result.
#[verifier::external_body]
fn channel_recv_timeout(rx: &crossbeam::channel::Receiver<IngestionEvent>, millis: u64) -> (res:
    Result<IngestionEvent, crossbeam::channel::RecvTimeoutError>) {
    rx.recv_timeout(std::time::Duration::from_millis(millis))
}

/// Takes events further.
pub trait IngestorForwarder {
    /// The channel that the forwarder puts its events on, where it puts
    /// them on one: none, unless a forwarder says otherwise.
    open spec fn channel(&self) -> Option<int> {
        None
    }

    /// Takes an event further, or says why it could not.
    fn forward(&self, event: IngestionEvent) -> Result<(), IngestorError>;
}

/// What the forwarder says of a send: a failure of the channel where the
/// send failed, with the error of the channel as its cause.
pub fn forward_outcome(sent: Result<(), crossbeam::channel::SendError<IngestionEvent>>) -> (res:
    Result<(), IngestorError>)
    ensures
        sent is Ok ==> res is Ok,
        sent matches Err(e) ==> res matches Err(IngestorError::ChannelError(cause)) && *cause == e,
{
    match sent {
        Ok(_) => Ok(()),
        Err(e) => Err(IngestorError::ChannelError(Box::new(e))),
    }
}

/// The forwarder that puts events on a channel.
pub struct ChannelForwarder {
    pub sender: crossbeam::channel::Sender<IngestionEvent>,
}

impl IngestorForwarder for ChannelForwarder {
    open spec fn channel(&self) -> Option<int> {
        Some(sender_channel(self.sender))
    }

    fn forward(&self, event: IngestionEvent) -> (res: Result<(), IngestorError>) {
        forward_outcome(channel_send(&self.sender, event))
    }
}

/// What the iterator gives for what the channel gave: the event, and
/// nothing where the channel failed.
pub fn received(taken: Result<IngestionEvent, crossbeam::channel::RecvError>) -> (res: Option<
    IngestionEvent,
>)
    ensures
        taken matches Ok(event) ==> res == Some(event),
        taken is Err ==> res is None,
{
    match taken {
        Ok(msg) => Some(msg),
        Err(_) => None,
    }
}

/// What the iterator gives for what the channel gave in time: the event,
/// and nothing where the channel failed or the time ran out.
pub fn received_in_time(
    taken: Result<IngestionEvent, crossbeam::channel::RecvTimeoutError>,
) -> (res: Option<IngestionEvent>)
    ensures
        taken matches Ok(event) ==> res == Some(event),
        taken is Err ==> res is None,
{
    match taken {
        Ok(msg) => Some(msg),
        Err(_) => None,
    }
}

/// The receiving end of the channel.
pub struct IngestionIterator {
    pub rx: crossbeam::channel::Receiver<IngestionEvent>,
}

impl IngestionIterator {
    /// The next event, waiting for it. Nothing once the channel is empty
    /// and has no sender left. Whatever comes, the iterator keeps its end
    /// of the channel.
    pub fn next(&mut self) -> (res: Option<IngestionEvent>)
        ensures
            final(self).rx == old(self).rx,
    {
        received(channel_recv(&self.rx))
    }

    /// The next event, waiting for it for at most `timeout_millis`
    /// milliseconds. Whatever comes, the iterator keeps its end of the
    /// channel.
    pub fn next_timeout(&mut self, timeout_millis: u64) -> (res: Option<IngestionEvent>)
        ensures
            final(self).rx == old(self).rx,
    {
        received_in_time(channel_recv_timeout(&self.rx, timeout_millis))
    }
}

/// What is forwarded for a message: a change with the position that it
/// came with. The begin and the end of a transaction are not forwarded.
pub open spec fn forwarded(lsn: u64, seq_no: u64, message: IngestionMessage) -> Option<
    ((u64, u64), IngestionOperationValue),
> {
    match message {
        IngestionMessage::OperationEvent(event) => Some(
            ((lsn, seq_no), IngestionOperationValue::OperationEvent(event@)),
        ),
        IngestionMessage::Commit(_) => None,
        IngestionMessage::Begin() => None,
    }
}

/// Of the messages of a transaction, the changes are forwarded, each with
/// the position that it came with and as it came; its begin and its end
/// are not.
pub proof fn lemma_only_changes_are_forwarded(lsn: u64, seq_no: u64, message: IngestionMessage)
    ensures
        forwarded(lsn, seq_no, message) is Some <==> message is OperationEvent,
        message is OperationEvent ==> forwarded(lsn, seq_no, message) == Some(
            (
                (lsn, seq_no),
                IngestionOperationValue::OperationEvent(message->OperationEvent_0@),
            ),
        ),
{
}

/// Computes [`forwarded`].
pub fn event_to_forward(lsn: u64, seq_no: u64, message: IngestionMessage) -> (res: Option<
    IngestionEvent,
>)
    ensures
        match forwarded(lsn, seq_no, message) {
            Some((position, operation)) => res is Some && res->Some_0.0 == position
                && res->Some_0.1@ == operation,
            None => res is None,
        },
{
    match message {
        IngestionMessage::OperationEvent(event) => Some(
            ((lsn, seq_no), IngestionOperation::OperationEvent(event)),
        ),
        IngestionMessage::Commit(_event) => None,
        IngestionMessage::Begin() => None,
    }
}

/// Takes what a connector hands over and forwards the changes among it.
pub struct Ingestor {
    pub sender: Arc<Box<dyn IngestorForwarder>>,
}

impl Ingestor {
    /// An ingestor and the receiving end of its channel: a new channel that
    /// holds at most as many events as the settings say. The forwarder of
    /// the ingestor puts its events on the channel that the iterator reads
    /// from. The capacity must be one that a channel can be made for.
    pub fn initialize_channel(config: IngestionConfig) -> (res: (Ingestor, IngestionIterator))
        requires
            config.forwarder_channel_cap <= max_channel_capacity(),
        ensures
            receiver_capacity(res.1.rx) == Some(config.forwarder_channel_cap),
            res.0.sender.channel() == Some(receiver_channel(res.1.rx)),
    {
        let (tx, rx) = channel_bounded(config.forwarder_channel_cap);
        let forwarder: Box<dyn IngestorForwarder> = Box::new(ChannelForwarder { sender: tx });
        let shared = Arc::new(forwarder);
        assert(shared.channel() == Some(receiver_channel(rx)));
        let ingestor = Ingestor::new(config, shared);
        let iterator = IngestionIterator { rx };
        (ingestor, iterator)
    }

    /// An ingestor that forwards through `sender`.
    pub fn new(_config: IngestionConfig, sender: Arc<Box<dyn IngestorForwarder>>) -> (res: Self)
        ensures
            res.sender == sender,
    {
        Ingestor { sender }
    }

    /// Forwards the change of a message with the position that it came
    /// with. A message that holds no change is done at once. Whatever the
    /// forwarder says, the ingestor keeps it.
    pub fn handle_message(&mut self, positioned: ((u64, u64), IngestionMessage)) -> (res: Result<
        (),
        IngestorError,
    >)
        ensures
            forwarded(positioned.0.0, positioned.0.1, positioned.1) is None ==> res is Ok,
            final(self).sender == old(self).sender,
    {
        let ((lsn, seq_no), message) = positioned;
        match event_to_forward(lsn, seq_no, message) {
            Some(event) => self.sender.forward(event),
            None => Ok(()),
        }
    }
}

} // verus!
