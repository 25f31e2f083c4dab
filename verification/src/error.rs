//! Error types of the store.
use vstd::prelude::*;
use crate::text::{append_text, decimal, decimal_text};

verus! {

/// The outside I/O error type, carried through opaquely.
#[verifier::external_type_specification]
#[verifier::external_body]
pub struct ExIoError(std::io::Error);

pub type LsmResult<T> = Result<T, LsmError>;

/// Comprehensive error type of the store.
#[derive(Debug)]
pub enum LsmError {
    /// I/O related errors
    Io(std::io::Error),
    /// Serialization/Deserialization errors
    Serialization(String),
    /// WAL (Write-Ahead Log) related errors
    Wal(WalError),
    /// SSTable related errors
    SsTable(SsTableError),
    /// Memory table related errors
    MemTable(MemTableError),
    /// Compaction related errors
    Compaction(CompactionError),
    /// MVCC/Transaction related errors
    Mvcc(MvccError),
    /// Iterator related errors
    Iterator(IteratorError),
    /// Block related errors
    Block(BlockError),
    /// Configuration/Options errors
    Config(String),
    /// Internal consistency errors
    Internal(String),
    /// Network related errors
    Network(NetworkError),
}

#[derive(Debug)]
pub enum WalError {
    /// WAL file corruption detected
    Corruption(String),
    /// Incomplete WAL entry
    IncompleteEntry,
    /// Checksum mismatch
    ChecksumMismatch { expected: u32, actual: u32 },
    /// Invalid key type in WAL
    InvalidKeyType(u8),
    /// WAL file not found during recovery
    FileNotFound(String),
}

#[derive(Debug)]
pub enum SsTableError {
    /// SSTable file corruption
    Corruption(String),
    /// Block not found in SSTable
    BlockNotFound(usize),
    /// Invalid SSTable format
    InvalidFormat(String),
    /// SSTable metadata corruption
    MetadataCorruption,
    /// Bloom filter error
    BloomFilter(String),
    /// Empty SSTable when content expected
    EmptyTable,
}

#[derive(Debug)]
pub enum MemTableError {
    /// Empty memtable when content expected
    Empty,
    /// Memtable size limit exceeded
    SizeExceeded { current: usize, limit: usize },
    /// Invalid key format
    InvalidKey(String),
}

#[derive(Debug)]
pub enum CompactionError {
    /// No SSTs available for compaction
    NoSstsAvailable,
    /// Invalid compaction task configuration
    InvalidTask(String),
    /// Compaction cancelled due to shutdown
    Cancelled,
    /// Resource exhaustion during compaction
    ResourceExhausted(String),
}

#[derive(Debug)]
pub enum MvccError {
    /// Transaction not found
    TransactionNotFound(u64),
    /// Transaction already committed
    AlreadyCommitted(u64),
    /// Serialization conflict
    SerializationConflict,
    /// Transaction timeout
    Timeout(u64),
    /// Read timestamp is too old
    ReadTimestampTooOld { read_ts: u64, min_ts: u64 },
}

#[derive(Debug)]
pub enum IteratorError {
    /// Iterator is not valid/positioned
    NotValid,
    /// Iterator has reached end
    EndOfIteration,
    /// Iterator internal state corruption
    StateCorruption(String),
}

#[derive(Debug)]
pub enum BlockError {
    /// Empty block when content expected
    Empty,
    /// Block index out of bounds
    IndexOutOfBounds { index: usize, max: usize },
    /// Invalid block format
    InvalidFormat(String),
    /// Block checksum mismatch
    ChecksumMismatch,
}

#[derive(Debug)]
pub enum NetworkError {
    /// Connection related errors
    Connection(String),
    /// Protocol buffer serialization errors
    Protobuf(String),
    /// Client rate limit exceeded
    RateLimitExceeded,
    /// Request timeout
    Timeout,
    /// Invalid request format
    InvalidRequest(String),
}

impl From<std::io::Error> for LsmError {
    fn from(err: std::io::Error) -> (r: LsmError) {
        LsmError::Io(err)
    }
}

impl vstd::std_specs::convert::FromSpecImpl<std::io::Error> for LsmError {
    open spec fn obeys_from_spec() -> bool {
        true
    }

    open spec fn from_spec(v: std::io::Error) -> LsmError {
        LsmError::Io(v)
    }
}

/// Joins two pieces of text: the first followed by the second.
pub(crate) fn join_text(prefix: &str, detail: &str) -> (r: String)
    ensures
        r@ == prefix@ + detail@,
{
    let mut s = String::new();
    append_text(&mut s, prefix);
    append_text(&mut s, detail);
    s
}

impl LsmError {
    pub fn wal_corruption<M: Into<String>>(msg: M) -> (r: LsmError)
        ensures
            r matches LsmError::Wal(WalError::Corruption(s)) && call_ensures(M::into, (msg,), s),
    {
        LsmError::Wal(WalError::Corruption(msg.into()))
    }

    pub fn sstable_corruption<M: Into<String>>(msg: M) -> (r: LsmError)
        ensures
            r matches LsmError::SsTable(SsTableError::Corruption(s)) && call_ensures(
                M::into,
                (msg,),
                s,
            ),
    {
        LsmError::SsTable(SsTableError::Corruption(msg.into()))
    }

    pub fn internal<M: Into<String>>(msg: M) -> (r: LsmError)
        ensures
            r matches LsmError::Internal(s) && call_ensures(M::into, (msg,), s),
    {
        LsmError::Internal(msg.into())
    }

    pub fn config<M: Into<String>>(msg: M) -> (r: LsmError)
        ensures
            r matches LsmError::Config(s) && call_ensures(M::into, (msg,), s),
    {
        LsmError::Config(msg.into())
    }

    /// Creates an error from `Option::None` with context.
    pub fn from_none<T>(context: &str) -> (r: LsmResult<T>)
        ensures
            r matches Err(LsmError::Internal(s)) && s@ == "Expected value but got None: "@
                + context@,
    {
        Err(LsmError::Internal(join_text("Expected value but got None: ", context)))
    }

    /// Unwraps a value that must be present, or returns a descriptive error.
    pub fn require<T>(option: Option<T>, context: &str) -> (r: LsmResult<T>)
        ensures
            match option {
                Some(v) => r == Ok::<T, LsmError>(v),
                None => r matches Err(LsmError::Internal(s)) && s@ == "Required value missing: "@
                    + context@,
            },
    {
        match option {
            Some(v) => Ok(v),
            None => Err(LsmError::Internal(join_text("Required value missing: ", context))),
        }
    }
}

/// Calls `<std::io::Error as ToString>::to_string`; nothing is claimed of
/// the text, which the operating system's error decides.
#[verifier::external_body]
pub(crate) fn io_error_text(e: &std::io::Error) -> (r: String) {
    e.to_string()
}

fn text_of(parts: &str) -> (r: String)
    ensures
        r@ == parts@,
{
    let mut s = String::new();
    append_text(&mut s, parts);
    s
}

fn text_with(prefix: &str, detail: &str) -> (r: String)
    ensures
        r@ == prefix@ + detail@,
{
    let mut s = String::new();
    append_text(&mut s, prefix);
    append_text(&mut s, detail);
    s
}

fn text_with_number(prefix: &str, n: u64) -> (r: String)
    ensures
        r@ == prefix@ + decimal(n as nat),
{
    let d = decimal_text(n);
    text_with(prefix, d.as_str())
}

fn text_with_two_numbers(prefix: &str, a: u64, middle: &str, b: u64) -> (r: String)
    ensures
        r@ == prefix@ + decimal(a as nat) + middle@ + decimal(b as nat),
{
    let mut s = text_with_number(prefix, a);
    append_text(&mut s, middle);
    let d = decimal_text(b);
    append_text(&mut s, d.as_str());
    s
}

impl WalError {
    pub open spec fn spec_text(&self) -> Seq<char> {
        match self {
            WalError::Corruption(msg) => "WAL corruption: "@ + msg@,
            WalError::IncompleteEntry => "Incomplete WAL entry"@,
            WalError::ChecksumMismatch { expected, actual } => "WAL checksum mismatch: expected "@
                + decimal(*expected as nat) + ", got "@ + decimal(*actual as nat),
            WalError::InvalidKeyType(t) => "Invalid key type in WAL: "@ + decimal(*t as nat),
            WalError::FileNotFound(path) => "WAL file not found: "@ + path@,
        }
    }

    /// The error's message.
    pub fn to_text(&self) -> (r: String)
        ensures
            r@ == self.spec_text(),
    {
        match self {
            WalError::Corruption(msg) => text_with("WAL corruption: ", msg.as_str()),
            WalError::IncompleteEntry => text_of("Incomplete WAL entry"),
            WalError::ChecksumMismatch { expected, actual } => text_with_two_numbers(
                "WAL checksum mismatch: expected ",
                *expected as u64,
                ", got ",
                *actual as u64,
            ),
            WalError::InvalidKeyType(t) => text_with_number("Invalid key type in WAL: ", *t as u64),
            WalError::FileNotFound(path) => text_with("WAL file not found: ", path.as_str()),
        }
    }
}

impl SsTableError {
    pub open spec fn spec_text(&self) -> Seq<char> {
        match self {
            SsTableError::Corruption(msg) => "SSTable corruption: "@ + msg@,
            SsTableError::BlockNotFound(id) => "Block not found: "@ + decimal(*id as nat),
            SsTableError::InvalidFormat(msg) => "Invalid SSTable format: "@ + msg@,
            SsTableError::MetadataCorruption => "SSTable metadata corruption"@,
            SsTableError::BloomFilter(msg) => "Bloom filter error: "@ + msg@,
            SsTableError::EmptyTable => "Empty SSTable when content expected"@,
        }
    }

    /// The error's message.
    pub fn to_text(&self) -> (r: String)
        ensures
            r@ == self.spec_text(),
    {
        match self {
            SsTableError::Corruption(msg) => text_with("SSTable corruption: ", msg.as_str()),
            SsTableError::BlockNotFound(id) => text_with_number("Block not found: ", *id as u64),
            SsTableError::InvalidFormat(msg) => text_with("Invalid SSTable format: ", msg.as_str()),
            SsTableError::MetadataCorruption => text_of("SSTable metadata corruption"),
            SsTableError::BloomFilter(msg) => text_with("Bloom filter error: ", msg.as_str()),
            SsTableError::EmptyTable => text_of("Empty SSTable when content expected"),
        }
    }
}

impl MemTableError {
    pub open spec fn spec_text(&self) -> Seq<char> {
        match self {
            MemTableError::Empty => "Empty memtable when content expected"@,
            MemTableError::SizeExceeded { current, limit } => "Memtable size exceeded: "@ + decimal(
                *current as nat,
            ) + " > "@ + decimal(*limit as nat),
            MemTableError::InvalidKey(msg) => "Invalid key: "@ + msg@,
        }
    }

    /// The error's message.
    pub fn to_text(&self) -> (r: String)
        ensures
            r@ == self.spec_text(),
    {
        match self {
            MemTableError::Empty => text_of("Empty memtable when content expected"),
            MemTableError::SizeExceeded { current, limit } => text_with_two_numbers(
                "Memtable size exceeded: ",
                *current as u64,
                " > ",
                *limit as u64,
            ),
            MemTableError::InvalidKey(msg) => text_with("Invalid key: ", msg.as_str()),
        }
    }
}

impl CompactionError {
    pub open spec fn spec_text(&self) -> Seq<char> {
        match self {
            CompactionError::NoSstsAvailable => "No SSTs available for compaction"@,
            CompactionError::InvalidTask(msg) => "Invalid compaction task: "@ + msg@,
            CompactionError::Cancelled => "Compaction cancelled"@,
            CompactionError::ResourceExhausted(msg) => "Resource exhausted: "@ + msg@,
        }
    }

    /// The error's message.
    pub fn to_text(&self) -> (r: String)
        ensures
            r@ == self.spec_text(),
    {
        match self {
            CompactionError::NoSstsAvailable => text_of("No SSTs available for compaction"),
            CompactionError::InvalidTask(msg) => text_with("Invalid compaction task: ", msg.as_str()),
            CompactionError::Cancelled => text_of("Compaction cancelled"),
            CompactionError::ResourceExhausted(msg) => text_with("Resource exhausted: ", msg.as_str()),
        }
    }
}

impl MvccError {
    pub open spec fn spec_text(&self) -> Seq<char> {
        match self {
            MvccError::TransactionNotFound(id) => "Transaction not found: "@ + decimal(*id as nat),
            MvccError::AlreadyCommitted(id) => "Transaction already committed: "@ + decimal(*id as nat),
            MvccError::SerializationConflict => "Serialization conflict"@,
            MvccError::Timeout(id) => "Transaction timeout: "@ + decimal(*id as nat),
            MvccError::ReadTimestampTooOld { read_ts, min_ts } => "Read timestamp "@ + decimal(
                *read_ts as nat,
            ) + " too old, minimum: "@ + decimal(*min_ts as nat),
        }
    }

    /// The error's message.
    pub fn to_text(&self) -> (r: String)
        ensures
            r@ == self.spec_text(),
    {
        match self {
            MvccError::TransactionNotFound(id) => text_with_number("Transaction not found: ", *id),
            MvccError::AlreadyCommitted(id) => text_with_number("Transaction already committed: ", *id),
            MvccError::SerializationConflict => text_of("Serialization conflict"),
            MvccError::Timeout(id) => text_with_number("Transaction timeout: ", *id),
            MvccError::ReadTimestampTooOld { read_ts, min_ts } => text_with_two_numbers(
                "Read timestamp ",
                *read_ts,
                " too old, minimum: ",
                *min_ts,
            ),
        }
    }
}

impl IteratorError {
    pub open spec fn spec_text(&self) -> Seq<char> {
        match self {
            IteratorError::NotValid => "Iterator not valid"@,
            IteratorError::EndOfIteration => "End of iteration"@,
            IteratorError::StateCorruption(msg) => "Iterator state corruption: "@ + msg@,
        }
    }

    /// The error's message.
    pub fn to_text(&self) -> (r: String)
        ensures
            r@ == self.spec_text(),
    {
        match self {
            IteratorError::NotValid => text_of("Iterator not valid"),
            IteratorError::EndOfIteration => text_of("End of iteration"),
            IteratorError::StateCorruption(msg) => text_with("Iterator state corruption: ", msg.as_str()),
        }
    }
}

impl BlockError {
    pub open spec fn spec_text(&self) -> Seq<char> {
        match self {
            BlockError::Empty => "Empty block when content expected"@,
            BlockError::IndexOutOfBounds { index, max } => "Block index out of bounds: "@ + decimal(
                *index as nat,
            ) + " >= "@ + decimal(*max as nat),
            BlockError::InvalidFormat(msg) => "Invalid block format: "@ + msg@,
            BlockError::ChecksumMismatch => "Block checksum mismatch"@,
        }
    }

    /// The error's message.
    pub fn to_text(&self) -> (r: String)
        ensures
            r@ == self.spec_text(),
    {
        match self {
            BlockError::Empty => text_of("Empty block when content expected"),
            BlockError::IndexOutOfBounds { index, max } => text_with_two_numbers(
                "Block index out of bounds: ",
                *index as u64,
                " >= ",
                *max as u64,
            ),
            BlockError::InvalidFormat(msg) => text_with("Invalid block format: ", msg.as_str()),
            BlockError::ChecksumMismatch => text_of("Block checksum mismatch"),
        }
    }
}

impl NetworkError {
    pub open spec fn spec_text(&self) -> Seq<char> {
        match self {
            NetworkError::Connection(msg) => "Connection error: "@ + msg@,
            NetworkError::Protobuf(msg) => "Protobuf error: "@ + msg@,
            NetworkError::RateLimitExceeded => "Rate limit exceeded"@,
            NetworkError::Timeout => "Request timeout"@,
            NetworkError::InvalidRequest(msg) => "Invalid request: "@ + msg@,
        }
    }

    /// The error's message.
    pub fn to_text(&self) -> (r: String)
        ensures
            r@ == self.spec_text(),
    {
        match self {
            NetworkError::Connection(msg) => text_with("Connection error: ", msg.as_str()),
            NetworkError::Protobuf(msg) => text_with("Protobuf error: ", msg.as_str()),
            NetworkError::RateLimitExceeded => text_of("Rate limit exceeded"),
            NetworkError::Timeout => text_of("Request timeout"),
            NetworkError::InvalidRequest(msg) => text_with("Invalid request: ", msg.as_str()),
        }
    }
}

impl LsmError {
    /// The message of every error but an I/O error, whose text the operating
    /// system decides.
    pub open spec fn spec_text(&self) -> Option<Seq<char>> {
        match self {
            LsmError::Io(_) => None,
            LsmError::Serialization(msg) => Some("Serialization error: "@ + msg@),
            LsmError::Wal(e) => Some("WAL error: "@ + e.spec_text()),
            LsmError::SsTable(e) => Some("SSTable error: "@ + e.spec_text()),
            LsmError::MemTable(e) => Some("MemTable error: "@ + e.spec_text()),
            LsmError::Compaction(e) => Some("Compaction error: "@ + e.spec_text()),
            LsmError::Mvcc(e) => Some("MVCC error: "@ + e.spec_text()),
            LsmError::Iterator(e) => Some("Iterator error: "@ + e.spec_text()),
            LsmError::Block(e) => Some("Block error: "@ + e.spec_text()),
            LsmError::Config(msg) => Some("Configuration error: "@ + msg@),
            LsmError::Internal(msg) => Some("Internal error: "@ + msg@),
            LsmError::Network(e) => Some("Network error: "@ + e.spec_text()),
        }
    }

    /// The error's message; an I/O error's starts with "I/O error: ".
    pub fn to_text(&self) -> (r: String)
        ensures
            match self.spec_text() {
                Some(t) => r@ == t,
                None => r@.len() >= "I/O error: "@.len() && r@.take("I/O error: "@.len() as int)
                    == "I/O error: "@,
            },
    {
        match self {
            LsmError::Io(e) => {
                let detail = io_error_text(e);
                let r = text_with("I/O error: ", detail.as_str());
                proof {
                    assert(r@.take("I/O error: "@.len() as int) =~= "I/O error: "@);
                }
                r
            },
            LsmError::Serialization(msg) => text_with("Serialization error: ", msg.as_str()),
            LsmError::Wal(e) => text_with("WAL error: ", e.to_text().as_str()),
            LsmError::SsTable(e) => text_with("SSTable error: ", e.to_text().as_str()),
            LsmError::MemTable(e) => text_with("MemTable error: ", e.to_text().as_str()),
            LsmError::Compaction(e) => text_with("Compaction error: ", e.to_text().as_str()),
            LsmError::Mvcc(e) => text_with("MVCC error: ", e.to_text().as_str()),
            LsmError::Iterator(e) => text_with("Iterator error: ", e.to_text().as_str()),
            LsmError::Block(e) => text_with("Block error: ", e.to_text().as_str()),
            LsmError::Config(msg) => text_with("Configuration error: ", msg.as_str()),
            LsmError::Internal(msg) => text_with("Internal error: ", msg.as_str()),
            LsmError::Network(e) => text_with("Network error: ", e.to_text().as_str()),
        }
    }
}

} // verus!
