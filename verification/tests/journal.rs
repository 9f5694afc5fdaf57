use alice_settlement::journal::{JournalEvent, SettlementJournal};

#[test]
fn test_journal_record() {
    let mut journal = SettlementJournal::new();
    assert!(journal.is_empty());
    assert_eq!(journal.len(), 0);
    assert!(journal.last_entry().is_none());

    journal.record(1_000, JournalEvent::TradeReceived { trade_id: 42 });
    assert_eq!(journal.len(), 1);

    let entry = &journal.entries()[0];
    assert_eq!(entry.sequence, 1);
    assert_eq!(entry.timestamp_ns, 1_000);
    matches!(entry.event, JournalEvent::TradeReceived { trade_id: 42 });

    journal.record(
        2_000,
        JournalEvent::NettingCompleted {
            obligation_count: 3,
        },
    );
    assert_eq!(journal.len(), 2);
}

#[test]
fn test_journal_sequence_increments() {
    let mut journal = SettlementJournal::new();

    for i in 0..10u64 {
        journal.record(
            i * 1_000,
            JournalEvent::TradeReceived { trade_id: i },
        );
    }

    assert_eq!(journal.len(), 10);

    for (idx, entry) in journal.entries().iter().enumerate() {
        // Sequences are 1-based and monotonically increasing
        assert_eq!(entry.sequence, (idx as u64) + 1);
    }

    // Confirm first and last
    assert_eq!(journal.entries()[0].sequence, 1);
    assert_eq!(journal.entries()[9].sequence, 10);
}

#[test]
fn test_journal_last_entry() {
    let mut journal = SettlementJournal::new();
    assert!(journal.last_entry().is_none());

    journal.record(100, JournalEvent::TradeReceived { trade_id: 1 });
    let last = journal.last_entry().unwrap();
    assert_eq!(last.sequence, 1);

    journal.record(
        200,
        JournalEvent::ClearingAttempted {
            obligation_count: 5,
            success_count: 4,
            fail_count: 1,
        },
    );
    let last = journal.last_entry().unwrap();
    assert_eq!(last.sequence, 2);
    assert_eq!(last.timestamp_ns, 200);
    matches!(
        last.event,
        JournalEvent::ClearingAttempted {
            obligation_count: 5,
            success_count: 4,
            fail_count: 1,
        }
    );

    journal.record(
        300,
        JournalEvent::SettlementFailed {
            trade_id: 99,
            reason: "insufficient funds".to_string(),
        },
    );
    let last = journal.last_entry().unwrap();
    assert_eq!(last.sequence, 3);
    assert_eq!(last.timestamp_ns, 300);
}
