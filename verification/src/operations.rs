//! What a network of nodes reports while it runs, and the check of such a
//! report against what was expected of the network.
//!
//! The parts of a network log what they do, one entry at a time, and close
//! the log with an end entry. A run passes if every entry was expected and
//! every expected entry was logged exactly as often as expected.
use crate::keyed::{
    distinct_links, lemma_position_unique, lemma_push_keeps_distinct,
    lemma_with_state_keeps_links, position_of, registered, state_of, with_state,
};
use vstd::prelude::*;

verus! {

/// One entry of the log of a network.
#[derive(Debug, PartialEq, Eq, Hash)]
pub enum LogEntry {
    Register { label: String },
    Message { label: String },
    FoundResponseUpstream { label: String },
    ResponseArrivedDownstream { label: String },
    ForwardResponseDownstream { label: String },
    ForwardRequestUpstream { label: String },
    End,
}

/// What a [`LogEntry`] holds, as a mathematical value.
pub enum Entry {
    Register { label: Seq<char> },
    Message { label: Seq<char> },
    FoundResponseUpstream { label: Seq<char> },
    ResponseArrivedDownstream { label: Seq<char> },
    ForwardResponseDownstream { label: Seq<char> },
    ForwardRequestUpstream { label: Seq<char> },
    End,
}

impl Entry {
    /// The label of the entry; the end entry has none.
    pub open spec fn label(self) -> Option<Seq<char>> {
        match self {
            Entry::Register { label } => Some(label),
            Entry::Message { label } => Some(label),
            Entry::FoundResponseUpstream { label } => Some(label),
            Entry::ResponseArrivedDownstream { label } => Some(label),
            Entry::ForwardResponseDownstream { label } => Some(label),
            Entry::ForwardRequestUpstream { label } => Some(label),
            Entry::End => None,
        }
    }
}

impl View for LogEntry {
    type V = Entry;

    open spec fn view(&self) -> Entry {
        match *self {
            LogEntry::Register { label } => Entry::Register { label: label@ },
            LogEntry::Message { label } => Entry::Message { label: label@ },
            LogEntry::FoundResponseUpstream { label } => Entry::FoundResponseUpstream {
                label: label@,
            },
            LogEntry::ResponseArrivedDownstream { label } => Entry::ResponseArrivedDownstream {
                label: label@,
            },
            LogEntry::ForwardResponseDownstream { label } => Entry::ForwardResponseDownstream {
                label: label@,
            },
            LogEntry::ForwardRequestUpstream { label } => Entry::ForwardRequestUpstream {
                label: label@,
            },
            LogEntry::End => Entry::End,
        }
    }
}

impl Clone for LogEntry {
    fn clone(&self) -> (copy: Self)
        ensures
            copy@ == self@,
    {
        match self {
            LogEntry::Register { label } => LogEntry::Register { label: label.clone() },
            LogEntry::Message { label } => LogEntry::Message { label: label.clone() },
            LogEntry::FoundResponseUpstream { label } => LogEntry::FoundResponseUpstream {
                label: label.clone(),
            },
            LogEntry::ResponseArrivedDownstream { label } => LogEntry::ResponseArrivedDownstream {
                label: label.clone(),
            },
            LogEntry::ForwardResponseDownstream { label } => LogEntry::ForwardResponseDownstream {
                label: label.clone(),
            },
            LogEntry::ForwardRequestUpstream { label } => LogEntry::ForwardRequestUpstream {
                label: label.clone(),
            },
            LogEntry::End => LogEntry::End,
        }
    }
}

impl LogEntry {
    /// Whether two entries are of the same kind and carry the same label.
    pub fn same(&self, other: &LogEntry) -> (same: bool)
        ensures
            same == (self@ == other@),
    {
        match (self, other) {
            (LogEntry::Register { label: a }, LogEntry::Register { label: b }) => *a == *b,
            (LogEntry::Message { label: a }, LogEntry::Message { label: b }) => *a == *b,
            (
                LogEntry::FoundResponseUpstream { label: a },
                LogEntry::FoundResponseUpstream { label: b },
            ) => *a == *b,
            (
                LogEntry::ResponseArrivedDownstream { label: a },
                LogEntry::ResponseArrivedDownstream { label: b },
            ) => *a == *b,
            (
                LogEntry::ForwardResponseDownstream { label: a },
                LogEntry::ForwardResponseDownstream { label: b },
            ) => *a == *b,
            (
                LogEntry::ForwardRequestUpstream { label: a },
                LogEntry::ForwardRequestUpstream { label: b },
            ) => *a == *b,
            (LogEntry::End, LogEntry::End) => true,
            _ => false,
        }
    }

    /// The label of the entry; the end entry has none.
    pub fn label(&self) -> (label: Option<String>)
        ensures
            label is Some <==> self@.label() is Some,
            label matches Some(text) ==> self@.label() == Some(text@),
    {
        match self {
            LogEntry::Register { label } => Some(label.clone()),
            LogEntry::Message { label } => Some(label.clone()),
            LogEntry::FoundResponseUpstream { label } => Some(label.clone()),
            LogEntry::ResponseArrivedDownstream { label } => Some(label.clone()),
            LogEntry::ForwardResponseDownstream { label } => Some(label.clone()),
            LogEntry::ForwardRequestUpstream { label } => Some(label.clone()),
            LogEntry::End => None,
        }
    }
}

/// How often an entry is expected, and how often it was logged.
pub struct Tally {
    pub expected: int,
    pub logged: nat,
}

/// The account of a run, as a mathematical value: the expected entries in
/// the order in which they were first named, each with its tally.
pub type Account = Seq<(Entry, Tally)>;

/// An entry that was not logged as often as expected, and how often it was
/// logged.
#[derive(Debug, PartialEq, Eq)]
pub struct Correction {
    pub entry: LogEntry,
    pub expected: i32,
    pub logged: u64,
}

/// What the check makes of one entry of the log.
#[derive(Debug, PartialEq, Eq)]
pub enum Verdict {
    /// The entry was expected; the run goes on.
    Continue,
    /// The log is closed, and everything was logged as often as expected.
    Passed,
    /// The entry was not expected at all.
    Unexpected { label: String },
    /// The log is closed, and these entries were not logged as often as
    /// expected.
    Failed { corrections: Vec<Correction> },
}

/// Why a run did not pass.
#[derive(Debug, PartialEq, Eq)]
pub enum NetworkError {
    /// The log ended without an end entry.
    Disconnected,
    /// An entry with this label was logged that was not expected at all.
    NotExpected { label: String },
    /// These entries were not logged as often as expected.
    Corrections { corrections: Vec<Correction> },
}

/// What the check makes of one entry of the log, as a mathematical value.
pub enum Ruling {
    /// The run goes on with this account.
    Continue(Account),
    Passed,
    Unexpected(Seq<char>),
    Failed(Account),
}

/// How a run ends, as a mathematical value.
pub enum RunEnd {
    Passed,
    Disconnected,
    NotExpected(Seq<char>),
    Corrections(Account),
}

/// The tally of an entry that was logged once more. A count that has
/// reached `u64::MAX` stays there.
pub open spec fn counted(tally: Tally) -> Tally {
    Tally {
        logged: if tally.logged < u64::MAX {
            tally.logged + 1
        } else {
            tally.logged
        },
        ..tally
    }
}

/// The lines of an account that are not settled: the entries that were not
/// logged as often as expected, in the order of the account.
pub open spec fn unsettled(account: Account) -> Account {
    account.filter(|line: (Entry, Tally)| line.1.expected != line.1.logged)
}

/// The account with which a run begins: a line for every expected entry, in
/// the order in which the entries are first named; where an entry is named
/// more than once, the last count holds. Nothing is logged yet.
pub open spec fn opened(expected: Seq<(Entry, int)>) -> Account
    decreases expected.len(),
{
    if expected.len() == 0 {
        Seq::empty()
    } else {
        let front = opened(expected.drop_last());
        let (entry, count) = expected.last();
        let tally = Tally { expected: count, logged: 0 };
        if registered(front, entry) {
            with_state(front, entry, tally)
        } else {
            front.push((entry, tally))
        }
    }
}

/// What the check makes of one entry. A labelled entry that is expected is
/// counted, and the run goes on; one that is not expected ends the run. The
/// end entry ends the run: it passes if every line is settled.
pub open spec fn ruling(account: Account, entry: Entry) -> Ruling {
    match entry.label() {
        Some(label) => {
            if registered(account, entry) {
                Ruling::Continue(with_state(account, entry, counted(state_of(account, entry))))
            } else {
                Ruling::Unexpected(label)
            }
        },
        None => {
            if unsettled(account).len() == 0 {
                Ruling::Passed
            } else {
                Ruling::Failed(unsettled(account))
            }
        },
    }
}

/// How a run ends that begins with an account and logs the entries of a
/// list in order: at the first entry that is not expected, or at the end
/// entry, or as disconnected if the list holds neither.
pub open spec fn run(account: Account, log: Seq<Entry>) -> RunEnd
    decreases log.len(),
{
    if log.len() == 0 {
        RunEnd::Disconnected
    } else {
        match ruling(account, log[0]) {
            Ruling::Continue(next) => run(next, log.drop_first()),
            Ruling::Passed => RunEnd::Passed,
            Ruling::Unexpected(label) => RunEnd::NotExpected(label),
            Ruling::Failed(lines) => RunEnd::Corrections(lines),
        }
    }
}

/// The corrections of a list, as mathematical values.
pub open spec fn lines(corrections: Seq<Correction>) -> Account {
    corrections.map_values(
        |c: Correction| (c.entry@, Tally { expected: c.expected as int, logged: c.logged as nat }),
    )
}

/// What was expected of a run, as mathematical values.
pub open spec fn expectations(expected: Seq<(LogEntry, i32)>) -> Seq<(Entry, int)> {
    expected.map_values(|pair: (LogEntry, i32)| (pair.0@, pair.1 as int))
}

/// The entries of a log, as mathematical values.
pub open spec fn entries(log: Seq<LogEntry>) -> Seq<Entry> {
    log.map_values(|entry: LogEntry| entry@)
}

/// One line of the account of a run.
struct Row {
    entry: LogEntry,
    expected: i32,
    logged: u64,
}

/// The account of a run: what is expected of it, and what was logged so
/// far.
pub struct Ledger {
    rows: Vec<Row>,
}

impl View for Ledger {
    type V = Account;

    closed spec fn view(&self) -> Account {
        self.rows@.map_values(
            |row: Row|
                (row.entry@, Tally { expected: row.expected as int, logged: row.logged as nat }),
        )
    }
}

impl Ledger {
    /// The invariant of the account: no entry has two lines.
    pub open spec fn wf(&self) -> bool {
        distinct_links(self@)
    }

    /// The place of the line of an entry, if the account has one.
    fn find(&self, entry: &LogEntry) -> (place: Option<usize>)
        ensures
            place is Some <==> registered(self@, entry@),
            place matches Some(at) ==> at < self@.len() && self@[at as int].0 == entry@,
            place matches Some(at) ==> self.wf() ==> at == position_of(self@, entry@),
    {
        let mut i: usize = 0;
        while i < self.rows.len()
            invariant
                i <= self.rows.len(),
                self@.len() == self.rows.len(),
                forall|k: int| 0 <= k < i ==> (#[trigger] self@[k]).0 != entry@,
            decreases self.rows.len() - i,
        {
            if self.rows[i].entry.same(entry) {
                proof {
                    assert(self@[i as int].0 == entry@);
                    if self.wf() {
                        lemma_position_unique(self@, i as int);
                    }
                }
                return Some(i);
            }
            i = i + 1;
        }
        None
    }

    /// Opens the account of a run of which `expected_behaviour` is
    /// expected.
    pub fn new(expected_behaviour: Vec<(LogEntry, i32)>) -> (ledger: Ledger)
        ensures
            ledger.wf(),
            ledger@ == opened(expectations(expected_behaviour@)),
    {
        let mut ledger = Ledger { rows: Vec::new() };
        let ghost all = expectations(expected_behaviour@);
        let mut i: usize = 0;
        proof {
            assert(ledger@ =~= opened(all.take(0)));
        }
        while i < expected_behaviour.len()
            invariant
                i <= expected_behaviour.len(),
                all == expectations(expected_behaviour@),
                ledger.wf(),
                ledger@ == opened(all.take(i as int)),
            decreases expected_behaviour.len() - i,
        {
            let entry: LogEntry = expected_behaviour[i].0.clone();
            let expected: i32 = expected_behaviour[i].1;
            let ghost before = ledger@;
            let ghost tally = Tally { expected: expected as int, logged: 0 };
            proof {
                assert(all.take(i + 1).drop_last() =~= all.take(i as int));
                assert(all.take(i + 1).last() == (entry@, expected as int));
            }
            match ledger.find(&entry) {
                Some(at) => {
                    ledger.rows[at].expected = expected;
                    ledger.rows[at].logged = 0;
                    proof {
                        assert(ledger@ =~= with_state(before, entry@, tally));
                        lemma_with_state_keeps_links(before, entry@, tally);
                    }
                },
                None => {
                    ledger.rows.push(Row { entry, expected, logged: 0 });
                    proof {
                        assert(ledger@ =~= before.push((entry@, tally)));
                        lemma_push_keeps_distinct(before, entry@, tally);
                    }
                },
            }
            i = i + 1;
        }
        proof {
            assert(all.take(i as int) =~= all);
        }
        ledger
    }

    /// The lines that are not settled.
    fn corrections(&self) -> (corrections: Vec<Correction>)
        ensures
            lines(corrections@) == unsettled(self@),
    {
        let mut corrections: Vec<Correction> = Vec::new();
        let mut i: usize = 0;
        proof {
            reveal(Seq::filter);
            assert(self@.take(0) =~= Seq::<(Entry, Tally)>::empty());
            assert(lines(corrections@) =~= unsettled(self@.take(0)));
        }
        while i < self.rows.len()
            invariant
                i <= self.rows.len(),
                self@.len() == self.rows.len(),
                lines(corrections@) == unsettled(self@.take(i as int)),
            decreases self.rows.len() - i,
        {
            let row = &self.rows[i];
            let ghost front = corrections@;
            proof {
                reveal(Seq::filter);
                assert(self@.take(i + 1).drop_last() =~= self@.take(i as int));
                assert(self@.take(i + 1).last() == self@[i as int]);
            }
            let settled: bool = row.expected >= 0 && row.expected as u64 == row.logged;
            if !settled {
                let correction = Correction {
                    entry: row.entry.clone(),
                    expected: row.expected,
                    logged: row.logged,
                };
                corrections.push(correction);
                proof {
                    assert(lines(corrections@) =~= lines(front).push(self@[i as int]));
                }
            }
            i = i + 1;
        }
        proof {
            assert(self@.take(i as int) =~= self@);
        }
        corrections
    }

    /// Takes one entry of the log into the account and says how the run
    /// stands.
    pub fn observe(&mut self, entry: &LogEntry) -> (verdict: Verdict)
        requires
            old(self).wf(),
        ensures
            final(self).wf(),
            match ruling(old(self)@, entry@) {
                Ruling::Continue(next) => verdict == Verdict::Continue && final(self)@ == next,
                Ruling::Passed => verdict == Verdict::Passed && final(self)@ == old(self)@,
                Ruling::Unexpected(label) => (verdict matches Verdict::Unexpected { label: text }
                    && text@ == label) && final(self)@ == old(self)@,
                Ruling::Failed(unsettled) => (verdict matches Verdict::Failed { corrections }
                    && lines(corrections@) == unsettled) && final(self)@ == old(self)@,
            },
    {
        match entry.label() {
            Some(label) => {
                match self.find(entry) {
                    Some(at) => {
                        let logged: u64 = self.rows[at].logged;
                        if logged < u64::MAX {
                            self.rows[at].logged = logged + 1;
                        }
                        proof {
                            let tally = counted(state_of(old(self)@, entry@));
                            assert(self@ =~= with_state(old(self)@, entry@, tally));
                            lemma_with_state_keeps_links(old(self)@, entry@, tally);
                        }
                        Verdict::Continue
                    },
                    None => Verdict::Unexpected { label },
                }
            },
            None => {
                let corrections: Vec<Correction> = self.corrections();
                if corrections.len() == 0 {
                    Verdict::Passed
                } else {
                    Verdict::Failed { corrections }
                }
            },
        }
    }
}

/// Checks the log of a run against what is expected of the run. The run
/// passes if the log names only expected entries before its end entry and
/// every expected entry as often as expected.
pub fn process_network(expected_behaviour: Vec<(LogEntry, i32)>, log: &Vec<LogEntry>) -> (result:
    Result<(), NetworkError>)
    ensures
        match run(opened(expectations(expected_behaviour@)), entries(log@)) {
            RunEnd::Passed => result is Ok,
            RunEnd::Disconnected => result == Err::<(), NetworkError>(NetworkError::Disconnected),
            RunEnd::NotExpected(label) => result matches Err(NetworkError::NotExpected {
                label: text,
            }) && text@ == label,
            RunEnd::Corrections(unsettled) => result matches Err(
                NetworkError::Corrections { corrections },
            ) && lines(corrections@) == unsettled,
        },
{
    let mut ledger = Ledger::new(expected_behaviour);
    let ghost all = entries(log@);
    let ghost begin = ledger@;
    let mut i: usize = 0;
    proof {
        assert(all.skip(0) =~= all);
    }
    while i < log.len()
        invariant
            i <= log.len(),
            all == entries(log@),
            begin == opened(expectations(expected_behaviour@)),
            ledger.wf(),
            run(begin, all) == run(ledger@, all.skip(i as int)),
        decreases log.len() - i,
    {
        proof {
            assert(all.skip(i as int)[0] == log@[i as int]@);
            assert(all.skip(i as int).drop_first() =~= all.skip(i + 1));
        }
        match ledger.observe(&log[i]) {
            Verdict::Continue => {},
            Verdict::Passed => {
                return Ok(());
            },
            Verdict::Unexpected { label } => {
                return Err(NetworkError::NotExpected { label });
            },
            Verdict::Failed { corrections } => {
                return Err(NetworkError::Corrections { corrections });
            },
        }
        i = i + 1;
    }
    Err(NetworkError::Disconnected)
}

} // verus!
