use copernica::operations::{
    process_network, Correction, Ledger, LogEntry, NetworkError, Verdict,
};

fn message(label: &str) -> LogEntry {
    LogEntry::Message { label: label.to_string() }
}

fn register(label: &str) -> LogEntry {
    LogEntry::Register { label: label.to_string() }
}

fn forward(label: &str) -> LogEntry {
    LogEntry::ForwardRequestUpstream { label: label.to_string() }
}

#[test]
fn run_that_logs_what_is_expected_passes() {
    let expected = vec![(register("broker"), 1), (message("echo"), 2), (forward("broker"), 0)];
    let log = vec![message("echo"), register("broker"), message("echo"), LogEntry::End];
    assert_eq!(process_network(expected, &log), Ok(()));
}

#[test]
fn run_of_which_nothing_is_expected_passes_at_the_end_entry() {
    assert_eq!(process_network(Vec::new(), &vec![LogEntry::End]), Ok(()));
}

#[test]
fn entry_that_is_not_expected_ends_the_run() {
    let expected = vec![(message("echo"), 1)];
    let log = vec![message("echo"), message("ohce"), LogEntry::End];
    assert_eq!(
        process_network(expected, &log),
        Err(NetworkError::NotExpected { label: "ohce".to_string() })
    );
}

#[test]
fn entry_of_another_kind_is_not_expected() {
    let expected = vec![(message("echo"), 1)];
    let log = vec![register("echo"), LogEntry::End];
    assert_eq!(
        process_network(expected, &log),
        Err(NetworkError::NotExpected { label: "echo".to_string() })
    );
}

#[test]
fn log_without_an_end_entry_is_disconnected() {
    let expected = vec![(message("echo"), 1)];
    assert_eq!(process_network(expected, &vec![message("echo")]), Err(NetworkError::Disconnected));
    assert_eq!(process_network(Vec::new(), &Vec::new()), Err(NetworkError::Disconnected));
}

#[test]
fn corrections_name_what_was_logged() {
    let expected = vec![
        (register("broker"), 1),
        (message("echo"), 2),
        (forward("broker"), 3),
        (LogEntry::FoundResponseUpstream { label: "broker".to_string() }, 0),
    ];
    let log = vec![
        message("echo"),
        message("echo"),
        message("echo"),
        register("broker"),
        forward("broker"),
        LogEntry::End,
    ];
    assert_eq!(
        process_network(expected, &log),
        Err(NetworkError::Corrections {
            corrections: vec![
                Correction { entry: message("echo"), expected: 2, logged: 3 },
                Correction { entry: forward("broker"), expected: 3, logged: 1 },
            ]
        })
    );
}

#[test]
fn what_follows_the_end_entry_is_not_looked_at() {
    let expected = vec![(message("echo"), 1)];
    let log = vec![message("echo"), LogEntry::End, message("late"), message("echo")];
    assert_eq!(process_network(expected, &log), Ok(()));
}

#[test]
fn last_count_holds_where_an_entry_is_expected_twice() {
    let expected = vec![(message("echo"), 5), (register("broker"), 1), (message("echo"), 1)];
    let log = vec![register("broker"), message("echo"), LogEntry::End];
    assert_eq!(process_network(expected, &log), Ok(()));
}

#[test]
fn end_entry_is_never_counted() {
    let log = vec![LogEntry::End];
    assert_eq!(process_network(vec![(LogEntry::End, 0)], &log), Ok(()));
    assert_eq!(
        process_network(vec![(LogEntry::End, 1)], &log),
        Err(NetworkError::Corrections {
            corrections: vec![Correction { entry: LogEntry::End, expected: 1, logged: 0 }]
        })
    );
}

#[test]
fn negative_count_is_never_met() {
    let expected = vec![(message("echo"), -1)];
    assert_eq!(
        process_network(expected, &vec![LogEntry::End]),
        Err(NetworkError::Corrections {
            corrections: vec![Correction { entry: message("echo"), expected: -1, logged: 0 }]
        })
    );
}

#[test]
fn ledger_counts_entry_by_entry() {
    let mut ledger = Ledger::new(vec![(message("echo"), 1), (register("broker"), 1)]);
    assert_eq!(ledger.observe(&message("echo")), Verdict::Continue);
    assert_eq!(
        ledger.observe(&LogEntry::End),
        Verdict::Failed {
            corrections: vec![Correction { entry: register("broker"), expected: 1, logged: 0 }]
        }
    );
    assert_eq!(
        ledger.observe(&message("other")),
        Verdict::Unexpected { label: "other".to_string() }
    );
    assert_eq!(ledger.observe(&register("broker")), Verdict::Continue);
    assert_eq!(ledger.observe(&LogEntry::End), Verdict::Passed);
    assert_eq!(ledger.observe(&register("broker")), Verdict::Continue);
    assert_eq!(
        ledger.observe(&LogEntry::End),
        Verdict::Failed {
            corrections: vec![Correction { entry: register("broker"), expected: 1, logged: 2 }]
        }
    );
}

#[test]
fn entries_are_the_same_by_kind_and_label() {
    assert!(message("a").same(&message("a")));
    assert!(!message("a").same(&message("b")));
    assert!(!message("a").same(&register("a")));
    assert!(LogEntry::End.same(&LogEntry::End));
    assert!(!LogEntry::End.same(&message("")));
    assert_eq!(message("a").label(), Some("a".to_string()));
    assert_eq!(LogEntry::End.label(), None);
    assert_eq!(message("a").clone(), message("a"));
    let kinds = vec![
        LogEntry::Register { label: "x".to_string() },
        LogEntry::Message { label: "x".to_string() },
        LogEntry::FoundResponseUpstream { label: "x".to_string() },
        LogEntry::ResponseArrivedDownstream { label: "x".to_string() },
        LogEntry::ForwardResponseDownstream { label: "x".to_string() },
        LogEntry::ForwardRequestUpstream { label: "x".to_string() },
        LogEntry::End,
    ];
    for (i, a) in kinds.iter().enumerate() {
        for (j, b) in kinds.iter().enumerate() {
            assert_eq!(a.same(b), i == j);
        }
    }
}
