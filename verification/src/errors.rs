//! Error values of the dataflow runtime and its operators.

use vstd::prelude::*;

verus! {

/// Identifies a node of the graph.
pub type NodeHandle = String;

/// Identifies a port of a node.
pub type PortHandle = u16;

/// Why a byte string is not the encoding of a field.
#[derive(Clone, Copy, Debug, PartialEq, Eq, Structural)]
pub enum DeserializationError {
    /// There are no bytes at all.
    EmptyInput,
    /// The first byte names no field type.
    UnrecognisedFieldType(u8),
    /// The payload has not the length its type or its length prefix asks for.
    BadDataLength,
    /// The payload has the right length but holds no value of its type.
    BadValue,
    /// The payload of a string is not UTF-8.
    Utf8,
}

/// Errors about typed values.
#[derive(Clone, Debug, PartialEq, Eq)]
pub enum TypeError {
    InvalidFieldIndex(usize),
    InvalidFieldName(String),
    InvalidFieldType,
    DeserializationError(DeserializationError),
}

/// Errors about data types.
#[derive(Clone, Debug, PartialEq, Eq)]
pub enum DataTypeError {
    DataTypeMismatch(String),
}

/// Errors of the key-value storage.
#[derive(Clone, Copy, Debug, PartialEq, Eq, Structural)]
pub enum StorageError {
    /// A handle names no database of the environment.
    InvalidDatabase,
    /// A stored value has not the layout that its reader expects.
    DeserializationError,
    /// A value is too long for the layout that it is to be stored in.
    SerializationError,
    /// A counter has no value left to hand out.
    CounterExhausted,
    /// A count would fall below zero or outgrow its eight bytes.
    CountOutOfRange,
}

/// Errors of the relational operators.
#[derive(Clone, Debug, PartialEq, Eq)]
pub enum PipelineError {
    InvalidOperandType(String),
    InvalidInputType(String),
    InvalidReturnType(String),
    InvalidExpression(String),
    InvalidOperator(String),
    InternalTypeError(TypeError),
    InternalStorageError(StorageError),
}

/// Errors of a sink.
#[derive(Clone, Debug, PartialEq, Eq)]
pub enum SinkError {
    SchemaUpdateFailed(String),
    CacheBeginTransactionFailed(String),
    CacheInsertFailed(String),
    CacheDeleteFailed(String),
    CacheUpdateFailed(String),
    CacheCommitTransactionFailed(String),
    CacheCountFailed(String),
}

/// Errors of a join.
#[derive(Clone, Copy, Debug, PartialEq, Eq, Structural)]
pub enum JoinError {
    InsertPortError(PortHandle),
    DeletePortError(PortHandle),
    UpdatePortError(PortHandle),
    PortNotConnected(PortHandle),
}

/// Errors of a source.
#[derive(Clone, Debug, PartialEq, Eq)]
pub enum SourceError {
    PortError(String),
}

/// Errors of ingestion.
#[derive(Debug, PartialEq, Eq)]
pub enum IngestorError {
    /// The receiving side of the channel is gone. The error of the channel
    /// is kept: it holds the event that could not be sent.
    ChannelError(Box<crossbeam::channel::SendError<crate::ingestion::IngestionEvent>>),
}

/// Errors of the graph and of the execution of its nodes.
#[derive(Clone, Debug, PartialEq, Eq)]
pub enum ExecutionError {
    WouldCycle,
    InvalidPortHandle(PortHandle),
    InvalidNodeHandle(NodeHandle),
    MissingInput { node: NodeHandle, port: PortHandle },
    DuplicateInput { node: NodeHandle, port: PortHandle },
    InvalidOperation(String),
    SchemaNotInitialized,
    MissingNodeInput(NodeHandle),
    MissingNodeOutput(NodeHandle),
    InvalidDatabase,
    FieldNotFound(String),
    PortNotFound(String),
    ReplicationTypeNotFound,
    RecordNotFound,
    MetadataAlreadyExists(NodeHandle),
    IncompatibleSchemas(String),
    ChannelDisconnected,
    CannotSpawnWorkerThread(String),
    InternalThreadPanic,
    InvalidSourceIdentifier(String),
    AmbiguousSourceIdentifier(String),
    InconsistentCheckpointMetadata,
    PortNotFoundInSource(PortHandle),
    FailedToGetOutputSchema(String),
    UnsupportedUpdateOperation(String),
    UnsupportedDeleteOperation(String),
    AppSourceConnectionAlreadyExists(String),
    FailedToGetPrimaryKey(String),
    MismatchPrimaryKey { endpoint_name: String, expected: Vec<String>, actual: Vec<String> },
    InternalTypeError(TypeError),
    InternalDatabaseError(StorageError),
    InternalError(PipelineError),
    SinkError(SinkError),
    ConnectorError(String),
    InternalStringError(String),
    SinkReceiverError(usize, String),
    ProcessorReceiverError(usize, String),
    JoinError(JoinError),
    SourceError(SourceError),
}

/// The mathematical value of a [`TypeError`].
pub enum TypeErrorValue {
    InvalidFieldIndex(usize),
    InvalidFieldName(Seq<char>),
    InvalidFieldType,
    DeserializationError(DeserializationError),
}

impl View for TypeError {
    type V = TypeErrorValue;

    open spec fn view(&self) -> TypeErrorValue {
        match self {
            TypeError::InvalidFieldIndex(i) => TypeErrorValue::InvalidFieldIndex(*i),
            TypeError::InvalidFieldName(s) => TypeErrorValue::InvalidFieldName(s@),
            TypeError::InvalidFieldType => TypeErrorValue::InvalidFieldType,
            TypeError::DeserializationError(e) => TypeErrorValue::DeserializationError(*e),
        }
    }
}

/// The mathematical value of a [`PipelineError`].
pub enum PipelineErrorValue {
    InvalidOperandType(Seq<char>),
    InvalidInputType(Seq<char>),
    InvalidReturnType(Seq<char>),
    InvalidExpression(Seq<char>),
    InvalidOperator(Seq<char>),
    InternalTypeError(TypeErrorValue),
    InternalStorageError(StorageError),
}

impl View for PipelineError {
    type V = PipelineErrorValue;

    open spec fn view(&self) -> PipelineErrorValue {
        match self {
            PipelineError::InvalidOperandType(s) => PipelineErrorValue::InvalidOperandType(s@),
            PipelineError::InvalidInputType(s) => PipelineErrorValue::InvalidInputType(s@),
            PipelineError::InvalidReturnType(s) => PipelineErrorValue::InvalidReturnType(s@),
            PipelineError::InvalidExpression(s) => PipelineErrorValue::InvalidExpression(s@),
            PipelineError::InvalidOperator(s) => PipelineErrorValue::InvalidOperator(s@),
            PipelineError::InternalTypeError(e) => PipelineErrorValue::InternalTypeError(e@),
            PipelineError::InternalStorageError(e) => PipelineErrorValue::InternalStorageError(*e),
        }
    }
}

} // verus!
