//! The interactive shell's session: what each command asks of the store,
//! the shell's own answers, and the texts it prints. The caller runs the
//! store operations and reports back.
use vstd::prelude::*;
use crate::command::{Command, CommandView};
use crate::text::{append_text, decimal, decimal_text};

verus! {

/// Whether the shell drives the store directly or through the asynchronous
/// interface, which alone offers transactions.
#[derive(Debug, Clone, Copy, PartialEq, Eq, Structural)]
pub enum ReplMode {
    Sync,
    Hybrid,
}

/// The shell's state: the epoch that `fill` writes into values, and whether
/// a transaction is open.
#[derive(Debug, Clone, Copy, PartialEq, Eq, Structural)]
pub struct ReplSession {
    pub epoch: u64,
    pub txn_active: bool,
}

/// What the shell does for a command.
#[derive(Debug)]
pub enum ReplStep {
    /// Put the keys `begin..=end`, each with its value for the epoch.
    Fill { begin: u64, end: u64, epoch: u64 },
    Delete { key: String },
    Get { key: String },
    /// Scan everything.
    ScanAll,
    /// Scan from `begin` to `end`, both included.
    ScanRange { begin: String, end: String },
    /// Open a transaction (there is none).
    BeginTxn,
    TxnGet { key: String },
    TxnPut { key: String, value: String },
    TxnDelete { key: String },
    /// Commit the open transaction, which the session no longer holds.
    CommitTxn,
    Dump,
    Flush,
    FullCompaction,
    /// Close the store and leave.
    Close,
    /// Print a message; the store is not asked.
    Say { message: String },
}

fn say(text: &str) -> (r: ReplStep)
    ensures
        step_view(r) == (StepView::Say { message: text@ }),
{
    let mut m = String::new();
    append_text(&mut m, text);
    ReplStep::Say { message: m }
}

/// A step as plain values.
pub enum StepView {
    Fill { begin: u64, end: u64, epoch: u64 },
    Delete { key: Seq<char> },
    Get { key: Seq<char> },
    ScanAll,
    ScanRange { begin: Seq<char>, end: Seq<char> },
    BeginTxn,
    TxnGet { key: Seq<char> },
    TxnPut { key: Seq<char>, value: Seq<char> },
    TxnDelete { key: Seq<char> },
    CommitTxn,
    Dump,
    Flush,
    FullCompaction,
    Close,
    Say { message: Seq<char> },
}

pub open spec fn step_view(r: ReplStep) -> StepView {
    match r {
        ReplStep::Fill { begin, end, epoch } => StepView::Fill { begin, end, epoch },
        ReplStep::Delete { key } => StepView::Delete { key: key@ },
        ReplStep::Get { key } => StepView::Get { key: key@ },
        ReplStep::ScanAll => StepView::ScanAll,
        ReplStep::ScanRange { begin, end } => StepView::ScanRange { begin: begin@, end: end@ },
        ReplStep::BeginTxn => StepView::BeginTxn,
        ReplStep::TxnGet { key } => StepView::TxnGet { key: key@ },
        ReplStep::TxnPut { key, value } => StepView::TxnPut { key: key@, value: value@ },
        ReplStep::TxnDelete { key } => StepView::TxnDelete { key: key@ },
        ReplStep::CommitTxn => StepView::CommitTxn,
        ReplStep::Dump => StepView::Dump,
        ReplStep::Flush => StepView::Flush,
        ReplStep::FullCompaction => StepView::FullCompaction,
        ReplStep::Close => StepView::Close,
        ReplStep::Say { message } => StepView::Say { message: message@ },
    }
}

/// A transaction command, with the step it takes when a transaction is
/// open.
pub open spec fn txn_step(c: CommandView) -> Option<StepView> {
    match c {
        CommandView::TxnGet { key } => Some(StepView::TxnGet { key }),
        CommandView::TxnPut { key, value } => Some(StepView::TxnPut { key, value }),
        CommandView::TxnDelete { key } => Some(StepView::TxnDelete { key }),
        CommandView::TxnCommit => Some(StepView::CommitTxn),
        _ => None,
    }
}

/// What a command does in a session, and whether a transaction is open
/// afterwards.
pub open spec fn spec_plan(mode: ReplMode, s: ReplSession, c: CommandView) -> (StepView, bool) {
    match c {
        CommandView::Fill { begin, end } => (StepView::Fill { begin, end, epoch: s.epoch }, s.txn_active),
        CommandView::Del { key } => (StepView::Delete { key }, s.txn_active),
        CommandView::Get { key } => (StepView::Get { key }, s.txn_active),
        CommandView::Scan { begin: None, end: None } => (StepView::ScanAll, s.txn_active),
        CommandView::Scan { begin: Some(b), end: Some(e) } => (StepView::ScanRange { begin: b, end: e }, s.txn_active),
        CommandView::Scan { .. } => (StepView::Say { message: "invalid command"@ }, s.txn_active),
        CommandView::Dump => (StepView::Dump, s.txn_active),
        CommandView::Flush => (StepView::Flush, s.txn_active),
        CommandView::FullCompaction => (StepView::FullCompaction, s.txn_active),
        CommandView::Quit | CommandView::Close => (StepView::Close, s.txn_active),
        CommandView::TxnBegin => if mode == ReplMode::Sync {
            (StepView::Say { message: "Transaction commands not supported in sync mode"@ }, s.txn_active)
        } else if s.txn_active {
            (StepView::Say { message: "Transaction already active. Commit or abort first."@ }, s.txn_active)
        } else {
            (StepView::BeginTxn, s.txn_active)
        },
        _ => if mode == ReplMode::Sync {
            (StepView::Say { message: "Transaction commands not supported in sync mode"@ }, s.txn_active)
        } else if !s.txn_active {
            (StepView::Say { message: "No active transaction"@ }, s.txn_active)
        } else {
            (txn_step(c)->0, !(c is TxnCommit))
        },
    }
}

/// A transaction is committed at most once: a commit closes the session's
/// transaction, and a second commit finds none open.
pub proof fn lemma_commit_once(s: ReplSession)
    requires
        s.txn_active,
    ensures
        spec_plan(ReplMode::Hybrid, s, CommandView::TxnCommit) == (StepView::CommitTxn, false),
        spec_plan(ReplMode::Hybrid, ReplSession { txn_active: false, ..s }, CommandView::TxnCommit).0 == (
        StepView::Say { message: "No active transaction"@ }),
{
}

impl ReplSession {
    /// A new session at epoch zero, with no transaction.
    pub fn new() -> (r: Self)
        ensures
            r.epoch == 0,
            !r.txn_active,
    {
        ReplSession { epoch: 0, txn_active: false }
    }

    /// Decides what a command does. Scans take both bounds or none; the
    /// direct mode offers no transactions; a transaction is begun only when
    /// none is open, and used only when one is. A commit closes the
    /// session's transaction before the store commits it.
    pub fn plan(&mut self, mode: ReplMode, command: Command) -> (r: ReplStep)
        ensures
            final(self).epoch == old(self).epoch,
            (step_view(r), final(self).txn_active) == spec_plan(mode, *old(self), command@),
    {
        match command {
            Command::Fill { begin, end } => ReplStep::Fill { begin, end, epoch: self.epoch },
            Command::Del { key } => ReplStep::Delete { key },
            Command::Get { key } => ReplStep::Get { key },
            Command::Scan { begin, end } => match (begin, end) {
                (None, None) => ReplStep::ScanAll,
                (Some(b), Some(e)) => ReplStep::ScanRange { begin: b, end: e },
                _ => say("invalid command"),
            },
            Command::Dump => ReplStep::Dump,
            Command::Flush => ReplStep::Flush,
            Command::FullCompaction => ReplStep::FullCompaction,
            Command::Quit | Command::Close => ReplStep::Close,
            Command::TxnBegin => match mode {
                ReplMode::Sync => say("Transaction commands not supported in sync mode"),
                ReplMode::Hybrid => if self.txn_active {
                    say("Transaction already active. Commit or abort first.")
                } else {
                    ReplStep::BeginTxn
                },
            },
            Command::TxnGet { key } => match mode {
                ReplMode::Sync => say("Transaction commands not supported in sync mode"),
                ReplMode::Hybrid => if self.txn_active {
                    ReplStep::TxnGet { key }
                } else {
                    say("No active transaction")
                },
            },
            Command::TxnPut { key, value } => match mode {
                ReplMode::Sync => say("Transaction commands not supported in sync mode"),
                ReplMode::Hybrid => if self.txn_active {
                    ReplStep::TxnPut { key, value }
                } else {
                    say("No active transaction")
                },
            },
            Command::TxnDelete { key } => match mode {
                ReplMode::Sync => say("Transaction commands not supported in sync mode"),
                ReplMode::Hybrid => if self.txn_active {
                    ReplStep::TxnDelete { key }
                } else {
                    say("No active transaction")
                },
            },
            Command::TxnCommit => match mode {
                ReplMode::Sync => say("Transaction commands not supported in sync mode"),
                ReplMode::Hybrid => if self.txn_active {
                    self.txn_active = false;
                    ReplStep::CommitTxn
                } else {
                    say("No active transaction")
                },
            },
        }
    }

    /// Records that the store opened the transaction.
    pub fn txn_started(&mut self)
        ensures
            final(self).txn_active,
            final(self).epoch == old(self).epoch,
    {
        self.txn_active = true;
    }

    /// Moves to the next epoch once a command went through.
    pub fn finish(&mut self)
        requires
            old(self).epoch < u64::MAX,
        ensures
            final(self).epoch == old(self).epoch + 1,
            final(self).txn_active == old(self).txn_active,
    {
        self.epoch = self.epoch + 1;
    }
}

/// The key `fill` writes for `i`.
pub fn fill_key(i: u64) -> (r: String)
    ensures
        r@ == decimal(i as nat),
{
    decimal_text(i)
}

/// The value `fill` writes for `i` in an epoch: `value<i>@<epoch>`.
pub fn fill_value(i: u64, epoch: u64) -> (r: String)
    ensures
        r@ == "value"@ + decimal(i as nat) + "@"@ + decimal(epoch as nat),
{
    let mut s = String::new();
    append_text(&mut s, "value");
    let d = decimal_text(i);
    append_text(&mut s, d.as_str());
    append_text(&mut s, "@");
    let e = decimal_text(epoch);
    append_text(&mut s, e.as_str());
    s
}

/// The report of a `fill` of `begin..=end` in an epoch.
pub fn fill_report(begin: u64, end: u64, epoch: u64) -> (r: String)
    requires
        begin <= end,
        end - begin < u64::MAX,
    ensures
        r@ == decimal((end - begin + 1) as nat) + " values filled with epoch "@ + decimal(epoch as nat),
{
    let n = end - begin + 1;
    let mut s = decimal_text(n);
    append_text(&mut s, " values filled with epoch ");
    let e = decimal_text(epoch);
    append_text(&mut s, e.as_str());
    s
}

/// `<text><suffix>`, as the shell's one-line reports read.
pub fn report(text: &str, suffix: &str) -> (r: String)
    ensures
        r@ == text@ + suffix@,
{
    let mut s = String::new();
    append_text(&mut s, text);
    append_text(&mut s, suffix);
    s
}

/// The report of a scan that gave `count` keys.
pub fn scan_report(count: u64) -> (r: String)
    ensures
        r@ == decimal(count as nat) + " keys scanned"@,
{
    let mut s = decimal_text(count);
    append_text(&mut s, " keys scanned");
    s
}

} // verus!
