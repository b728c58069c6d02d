//! The values that travel between the consensus driver, the log and the state
//! machine, each with the mathematical value that contracts speak of.

use vstd::prelude::*;

verus! {

/// The position of an entry in the replicated log: the term in which it was
/// proposed and its index.
#[derive(Clone, Copy, Debug, PartialEq, Eq, Structural)]
pub struct LogId {
    pub term: u64,
    pub index: u64,
}

/// The node's vote: the term it speaks of and the node voted for, if any.
#[derive(Debug, PartialEq, Eq)]
pub struct Vote {
    pub term: u64,
    pub voted_for: Option<String>,
}

/// What a [`Vote`] holds.
pub struct VoteView {
    pub term: u64,
    pub voted_for: Option<Seq<char>>,
}

impl View for Vote {
    type V = VoteView;

    open spec fn view(&self) -> VoteView {
        VoteView {
            term: self.term,
            voted_for: match self.voted_for {
                Some(node) => Some(node@),
                None => None,
            },
        }
    }
}

impl Clone for Vote {
    fn clone(&self) -> (r: Self)
        ensures
            r@ == self@,
    {
        let voted_for = match &self.voted_for {
            Some(node) => Some(node.clone()),
            None => None,
        };
        Vote { term: self.term, voted_for }
    }
}

/// The vote as the log storage keeps it: one record, replaced by each save.
#[derive(Debug, PartialEq, Eq)]
pub struct StoredVote(pub Vote);

impl View for StoredVote {
    type V = VoteView;

    open spec fn view(&self) -> VoteView {
        self.0@
    }
}

impl Clone for StoredVote {
    fn clone(&self) -> (r: Self)
        ensures
            r@ == self@,
    {
        StoredVote(self.0.clone())
    }
}

/// One entry of the replicated log. The payload is a serialized command.
#[derive(Debug, PartialEq, Eq)]
pub struct LogEntry {
    pub index: u64,
    pub term: u64,
    pub payload: Vec<u8>,
}

/// What a [`LogEntry`] holds.
pub struct LogEntryView {
    pub index: u64,
    pub term: u64,
    pub payload: Seq<u8>,
}

impl View for LogEntry {
    type V = LogEntryView;

    open spec fn view(&self) -> LogEntryView {
        LogEntryView { index: self.index, term: self.term, payload: self.payload@ }
    }
}

impl LogEntry {
    /// The entry's position.
    pub fn log_id(&self) -> (r: LogId)
        ensures
            r == (LogId { term: self.term, index: self.index }),
    {
        LogId { term: self.term, index: self.index }
    }
}

impl Clone for LogEntry {
    fn clone(&self) -> (r: Self)
        ensures
            r@ == self@,
    {
        let payload = self.payload.clone();
        assert(payload@ =~= self.payload@);
        LogEntry { index: self.index, term: self.term, payload }
    }
}

/// The views of the entries of `entries`, in order.
pub open spec fn entry_views(entries: Seq<LogEntry>) -> Seq<LogEntryView> {
    entries.map_values(|e: LogEntry| e@)
}

/// What a command asks of the key it names.
#[derive(Debug, PartialEq, Eq)]
pub enum Operation {
    /// Bind the key to `value`, whatever it held.
    Put { value: String },
    /// Unbind the key; a key that is not bound stays so.
    Delete,
    /// Read the key and change nothing.
    Get,
}

/// What an [`Operation`] holds.
pub enum OperationView {
    Put { value: Seq<char> },
    Delete,
    Get,
}

impl View for Operation {
    type V = OperationView;

    open spec fn view(&self) -> OperationView {
        match self {
            Operation::Put { value } => OperationView::Put { value: value@ },
            Operation::Delete => OperationView::Delete,
            Operation::Get => OperationView::Get,
        }
    }
}

impl Clone for Operation {
    fn clone(&self) -> (r: Self)
        ensures
            r@ == self@,
    {
        match self {
            Operation::Put { value } => Operation::Put { value: value.clone() },
            Operation::Delete => Operation::Delete,
            Operation::Get => Operation::Get,
        }
    }
}

/// A client's command: who sent it, its place in that client's sequence of
/// commands, the key and the operation.
#[derive(Debug, PartialEq, Eq)]
pub struct ClientRequest {
    pub client: String,
    pub serial: u64,
    pub key: String,
    pub operation: Operation,
}

/// What a [`ClientRequest`] holds.
pub struct ClientRequestView {
    pub client: Seq<char>,
    pub serial: u64,
    pub key: Seq<char>,
    pub operation: OperationView,
}

impl View for ClientRequest {
    type V = ClientRequestView;

    open spec fn view(&self) -> ClientRequestView {
        ClientRequestView {
            client: self.client@,
            serial: self.serial,
            key: self.key@,
            operation: self.operation@,
        }
    }
}

impl Clone for ClientRequest {
    fn clone(&self) -> (r: Self)
        ensures
            r@ == self@,
    {
        ClientRequest {
            client: self.client.clone(),
            serial: self.serial,
            key: self.key.clone(),
            operation: self.operation.clone(),
        }
    }
}

/// The answer to a command: the value read by a `Get`, nothing otherwise.
#[derive(Debug, PartialEq, Eq)]
pub struct ClientResponse {
    pub value: Option<String>,
}

impl View for ClientResponse {
    type V = Option<Seq<char>>;

    open spec fn view(&self) -> Option<Seq<char>> {
        match self.value {
            Some(v) => Some(v@),
            None => None,
        }
    }
}

impl Clone for ClientResponse {
    fn clone(&self) -> (r: Self)
        ensures
            r@ == self@,
    {
        let value = match &self.value {
            Some(v) => Some(v.clone()),
            None => None,
        };
        ClientResponse { value }
    }
}

/// Why a payload is no command.
#[derive(Clone, Copy, Debug, PartialEq, Eq, Structural)]
pub enum DecodeError {
    /// The payload is not a JSON document.
    Syntax,
    /// `client` is missing or is no string.
    Client,
    /// `serial` is missing or is no unsigned 64-bit integer.
    Serial,
    /// `key` is missing or is no string.
    Key,
    /// `op` is present and is none of `"set"`, `"delete"`, `"get"`.
    Operation,
    /// `value` is not what the operation takes.
    Value,
}

/// Why the log or the state machine refused a call.
#[derive(Clone, Copy, Debug, PartialEq, Eq, Structural)]
pub enum StoreError {
    /// The payload of a committed entry is malformed: the log is corrupt.
    Decode(DecodeError),
    /// The call would break an ordering invariant: an entry out of order, a
    /// gap, a watermark moving backwards, or the loss of a committed entry.
    InvariantViolation,
}

} // verus!
