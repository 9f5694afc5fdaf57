use vstd::prelude::*;
use vstd::bytes::{lemma_auto_spec_u64_to_from_le_bytes, spec_u64_from_le_bytes, spec_u64_to_le_bytes};

use crate::hash::{fnv1a, hash_pair, pair_bytes, push_u64_le, spec_fnv1a, FNV_OFFSET_BASIS};
use crate::journal::{JournalEntry, JournalEvent, SettlementJournal};

verus! {

// ── Types ──────────────────────────────────────────────────────────────

/// A single step in a replay log, capturing the deterministic fingerprint
/// of a journal entry.
#[derive(Debug, Clone, Copy, PartialEq, Eq, Structural)]
pub struct ReplayStep {
    /// Journal sequence number.
    pub sequence: u64,
    /// Timestamp from the journal entry.
    pub timestamp_ns: u64,
    /// Event kind discriminant.
    pub event_kind: u8,
    /// Deterministic content hash of this step.
    pub content_hash: u64,
}

/// A discrepancy found during replay verification.
#[derive(Debug, Clone, Copy, PartialEq, Eq, Structural)]
pub struct ReplayDiscrepancy {
    /// Sequence number where the mismatch occurred.
    pub sequence: u64,
    /// Hash from the expected log.
    pub expected_hash: u64,
    /// Hash from the actual log.
    pub actual_hash: u64,
}

/// Result of verifying two replay logs against each other.
#[derive(Debug, Clone)]
pub struct ReplayResult {
    /// Number of step pairs, within the shorter log's length, whose hashes match.
    pub steps_verified: usize,
    /// All discrepancies found (empty if logs match).
    pub discrepancies: Vec<ReplayDiscrepancy>,
    /// True if all steps match and lengths are equal.
    pub success: bool,
    /// Deterministic content hash of the entire result.
    pub content_hash: u64,
}

/// Deterministic journal replay and verification engine.
///
/// Builds content-hashed replay logs from settlement journals and
/// verifies that two logs are identical, enabling replay-based
/// auditing and disaster recovery validation.
pub struct ReplayVerifier;

// ── Specification ──────────────────────────────────────────────────────

/// Discriminant byte of an event variant, 0 to 4 in declaration order.
pub open spec fn event_kind(e: JournalEvent) -> u8 {
    match e {
        JournalEvent::TradeReceived { .. } => 0,
        JournalEvent::NettingCompleted { .. } => 1,
        JournalEvent::ClearingAttempted { .. } => 2,
        JournalEvent::SettlementCompleted { .. } => 3,
        JournalEvent::SettlementFailed { .. } => 4,
    }
}

/// Numeric payload of an event: its id or count; for a clearing attempt the
/// three counts packed at bit 32, bit 16 and bit 0; for a failure the trade id
/// xor the FNV-1a hash of the UTF-8 bytes of the reason.
pub open spec fn event_payload(e: JournalEvent) -> u64 {
    match e {
        JournalEvent::TradeReceived { trade_id } => trade_id,
        JournalEvent::NettingCompleted { obligation_count } => obligation_count as u64,
        JournalEvent::ClearingAttempted { obligation_count, success_count, fail_count } => (
        obligation_count as u64) << 32u64 | (success_count as u64) << 16u64 | (fail_count as u64),
        JournalEvent::SettlementCompleted { trade_count } => trade_count as u64,
        JournalEvent::SettlementFailed { trade_id, reason } => trade_id ^ spec_fnv1a(
            vstd::utf8::encode_utf8(reason@),
        ),
    }
}

/// The 25 bytes hashed for a step: sequence, timestamp, kind, payload, the
/// words little-endian.
pub open spec fn step_bytes(sequence: u64, timestamp_ns: u64, kind: u8, payload: u64) -> Seq<u8> {
    spec_u64_to_le_bytes(sequence) + spec_u64_to_le_bytes(timestamp_ns) + seq![kind]
        + spec_u64_to_le_bytes(payload)
}

/// Content hash of a journal entry.
pub open spec fn entry_hash(e: JournalEntry) -> u64 {
    spec_fnv1a(step_bytes(e.sequence, e.timestamp_ns, event_kind(e.event), event_payload(e.event)))
}

/// Replay step of a journal entry.
pub open spec fn step_of(e: JournalEntry) -> ReplayStep {
    ReplayStep {
        sequence: e.sequence,
        timestamp_ns: e.timestamp_ns,
        event_kind: event_kind(e.event),
        content_hash: entry_hash(e),
    }
}

/// Replay log of a list of journal entries, one step per entry in order.
pub open spec fn replay_log(entries: Seq<JournalEntry>) -> Seq<ReplayStep> {
    entries.map_values(|e: JournalEntry| step_of(e))
}

/// Discrepancies among the first `n` step pairs: one per position whose
/// hashes differ, in order.
pub open spec fn mismatches(expected: Seq<ReplayStep>, actual: Seq<ReplayStep>, n: nat) -> Seq<ReplayDiscrepancy>
    decreases n,
{
    if n == 0 {
        Seq::empty()
    } else {
        let prev = mismatches(expected, actual, (n - 1) as nat);
        let i = n - 1;
        if expected[i].content_hash != actual[i].content_hash {
            prev.push(
                ReplayDiscrepancy {
                    sequence: expected[i].sequence,
                    expected_hash: expected[i].content_hash,
                    actual_hash: actual[i].content_hash,
                },
            )
        } else {
            prev
        }
    }
}

/// Number of matching step pairs among the first `n`.
pub open spec fn matched(expected: Seq<ReplayStep>, actual: Seq<ReplayStep>, n: nat) -> nat
    decreases n,
{
    if n == 0 {
        0
    } else {
        matched(expected, actual, (n - 1) as nat) + if expected[n - 1].content_hash == actual[n
            - 1].content_hash {
            1nat
        } else {
            0nat
        }
    }
}

/// Length of the shorter log.
pub open spec fn common_len(expected: Seq<ReplayStep>, actual: Seq<ReplayStep>) -> nat {
    if expected.len() <= actual.len() {
        expected.len()
    } else {
        actual.len()
    }
}

/// Discrepancy recording a length mismatch: placed one past the last common
/// step's sequence (1 when there is none), carrying the two lengths.
pub open spec fn length_discrepancy(expected: Seq<ReplayStep>, actual: Seq<ReplayStep>) -> ReplayDiscrepancy {
    let m = common_len(expected, actual);
    ReplayDiscrepancy {
        sequence: if m > 0 {
            (expected[m - 1].sequence + 1) as u64
        } else {
            1
        },
        expected_hash: expected.len() as u64,
        actual_hash: actual.len() as u64,
    }
}

/// All discrepancies between two logs: hash mismatches over the common
/// length, then a length discrepancy when the lengths differ.
pub open spec fn all_discrepancies(expected: Seq<ReplayStep>, actual: Seq<ReplayStep>) -> Seq<ReplayDiscrepancy> {
    mismatches(expected, actual, common_len(expected, actual)) + if expected.len() != actual.len() {
        seq![length_discrepancy(expected, actual)]
    } else {
        Seq::empty()
    }
}

/// Whether computing the length discrepancy's sequence does not overflow.
pub open spec fn verify_fits(expected: Seq<ReplayStep>, actual: Seq<ReplayStep>) -> bool {
    let m = common_len(expected, actual);
    expected.len() != actual.len() && m > 0 ==> expected[m - 1].sequence < u64::MAX
}

/// Cumulative journal fingerprint: starting from the FNV offset basis, each
/// entry's hash is folded in by hashing the running value with it.
pub open spec fn journal_hash(entries: Seq<JournalEntry>) -> u64
    decreases entries.len(),
{
    if entries.len() == 0 {
        FNV_OFFSET_BASIS
    } else {
        spec_fnv1a(pair_bytes(journal_hash(entries.drop_last()), entry_hash(entries.last())))
    }
}

// ── Replay Verifier ────────────────────────────────────────────────────

impl ReplayVerifier {
    /// Build a replay log from a settlement journal.
    ///
    /// Each journal entry is mapped to a `ReplayStep` with a deterministic
    /// content hash derived from the entry's sequence, timestamp, and event
    /// kind/payload.
    pub fn build_replay_log(journal: &SettlementJournal) -> (log: Vec<ReplayStep>)
        ensures
            log@ == replay_log(journal@),
    {
        let entries = journal.entries();
        let n = entries.len();
        let mut log: Vec<ReplayStep> = Vec::with_capacity(n);
        let mut i: usize = 0;
        while i < n
            invariant
                n == entries@.len(),
                entries@ == journal@,
                i <= n,
                log@ == replay_log(journal@).take(i as int),
            decreases n - i,
        {
            let entry = &entries[i];
            let event_kind = Self::event_kind_byte(&entry.event);
            let event_payload = Self::event_payload(&entry.event);
            let hash = Self::step_hash(entry.sequence, entry.timestamp_ns, event_kind, event_payload);
            log.push(ReplayStep { sequence: entry.sequence, timestamp_ns: entry.timestamp_ns, event_kind, content_hash: hash });
            assert(log@ =~= replay_log(journal@).take(i + 1));
            i = i + 1;
        }
        assert(replay_log(journal@).take(n as int) =~= replay_log(journal@));
        log
    }

    /// Verify that two replay logs are identical.
    ///
    /// Compares step-by-step, recording all discrepancies.  A length
    /// mismatch is reported as a discrepancy at the shorter log's length.
    pub fn verify(expected: &[ReplayStep], actual: &[ReplayStep]) -> (r: ReplayResult)
        requires
            verify_fits(expected@, actual@),
        ensures
            r.discrepancies@ == all_discrepancies(expected@, actual@),
            r.steps_verified == matched(expected@, actual@, common_len(expected@, actual@)),
            r.success == (all_discrepancies(expected@, actual@).len() == 0),
            r.content_hash == spec_fnv1a(
                pair_bytes(r.steps_verified as u64, all_discrepancies(expected@, actual@).len() as u64),
            ),
    {
        let ghost e = expected@;
        let ghost a = actual@;
        let mut discrepancies: Vec<ReplayDiscrepancy> = Vec::new();
        let min_len = if expected.len() <= actual.len() {
            expected.len()
        } else {
            actual.len()
        };
        let mut verified: usize = 0;
        let mut i: usize = 0;
        while i < min_len
            invariant
                min_len == common_len(e, a),
                e == expected@,
                a == actual@,
                i <= min_len,
                discrepancies@ == mismatches(e, a, i as nat),
                verified == matched(e, a, i as nat),
                verified <= i,
            decreases min_len - i,
        {
            if expected[i].content_hash != actual[i].content_hash {
                discrepancies.push(
                    ReplayDiscrepancy {
                        sequence: expected[i].sequence,
                        expected_hash: expected[i].content_hash,
                        actual_hash: actual[i].content_hash,
                    },
                );
            } else {
                verified = verified + 1;
            }
            i = i + 1;
        }
        // Length mismatch
        if expected.len() != actual.len() {
            let seq = if min_len > 0 {
                expected[min_len - 1].sequence + 1
            } else {
                1
            };
            discrepancies.push(
                ReplayDiscrepancy {
                    sequence: seq,
                    expected_hash: expected.len() as u64,
                    actual_hash: actual.len() as u64,
                },
            );
        }
        assert(discrepancies@ =~= all_discrepancies(e, a));
        let success = discrepancies.len() == 0;
        let result_hash = Self::result_hash(verified, discrepancies.len());
        ReplayResult { steps_verified: verified, discrepancies, success, content_hash: result_hash }
    }

    /// Compute a single deterministic hash for an entire journal.
    ///
    /// Chains all entry hashes together, producing a cumulative fingerprint
    /// suitable for integrity verification.
    pub fn compute_journal_hash(journal: &SettlementJournal) -> (h: u64)
        ensures
            h == journal_hash(journal@),
    {
        let entries = journal.entries();
        let n = entries.len();
        let mut cumulative: u64 = FNV_OFFSET_BASIS;
        let mut i: usize = 0;
        while i < n
            invariant
                n == entries@.len(),
                entries@ == journal@,
                i <= n,
                cumulative == journal_hash(journal@.take(i as int)),
            decreases n - i,
        {
            assert(journal@.take(i + 1).drop_last() =~= journal@.take(i as int));
            let entry = &entries[i];
            let kind = Self::event_kind_byte(&entry.event);
            let payload = Self::event_payload(&entry.event);
            let step_h = Self::step_hash(entry.sequence, entry.timestamp_ns, kind, payload);
            // Chain: fold step hash into cumulative
            cumulative = hash_pair(cumulative, step_h);
            i = i + 1;
        }
        assert(journal@.take(n as int) =~= journal@);
        cumulative
    }

    /// Map event variants to a discriminant byte.
    pub fn event_kind_byte(event: &JournalEvent) -> (k: u8)
        ensures
            k == event_kind(*event),
    {
        match event {
            JournalEvent::TradeReceived { .. } => 0,
            JournalEvent::NettingCompleted { .. } => 1,
            JournalEvent::ClearingAttempted { .. } => 2,
            JournalEvent::SettlementCompleted { .. } => 3,
            JournalEvent::SettlementFailed { .. } => 4,
        }
    }

    /// Extract a numeric payload from an event for hashing.
    fn event_payload(event: &JournalEvent) -> (p: u64)
        ensures
            p == event_payload(*event),
    {
        match event {
            JournalEvent::TradeReceived { trade_id } => *trade_id,
            JournalEvent::NettingCompleted { obligation_count } => *obligation_count as u64,
            JournalEvent::ClearingAttempted { obligation_count, success_count, fail_count } => {
                (*obligation_count as u64) << 32u64 | (*success_count as u64) << 16u64 | (
                *fail_count as u64)
            },
            JournalEvent::SettlementCompleted { trade_count } => *trade_count as u64,
            JournalEvent::SettlementFailed { trade_id, reason } => {
                let reason_hash = fnv1a(reason.as_str().as_bytes());
                *trade_id ^ reason_hash
            },
        }
    }

    fn step_hash(sequence: u64, timestamp_ns: u64, kind: u8, payload: u64) -> (h: u64)
        ensures
            h == spec_fnv1a(step_bytes(sequence, timestamp_ns, kind, payload)),
    {
        let mut data: Vec<u8> = Vec::with_capacity(25);
        push_u64_le(&mut data, sequence);
        push_u64_le(&mut data, timestamp_ns);
        data.push(kind);
        push_u64_le(&mut data, payload);
        assert(data@ =~= step_bytes(sequence, timestamp_ns, kind, payload));
        fnv1a(data.as_slice())
    }

    fn result_hash(verified: usize, discrepancy_count: usize) -> (h: u64)
        ensures
            h == spec_fnv1a(pair_bytes(verified as u64, discrepancy_count as u64)),
    {
        hash_pair(verified as u64, discrepancy_count as u64)
    }
}


/// Content hash of a journal entry, as a replay step records it.
pub(crate) fn entry_content_hash(entry: &JournalEntry) -> (h: u64)
    ensures
        h == entry_hash(*entry),
{
    let kind = ReplayVerifier::event_kind_byte(&entry.event);
    let payload = ReplayVerifier::event_payload(&entry.event);
    ReplayVerifier::step_hash(entry.sequence, entry.timestamp_ns, kind, payload)
}

// ── Laws ──────────────────────────────────────────────────────────────

proof fn lemma_mismatches(expected: Seq<ReplayStep>, actual: Seq<ReplayStep>, n: nat)
    requires
        n <= expected.len(),
        n <= actual.len(),
    ensures
        matched(expected, actual, n) + mismatches(expected, actual, n).len() == n,
        mismatches(expected, actual, n).len() == 0 <==> forall|i: int|
            0 <= i < n ==> #[trigger] expected[i].content_hash == actual[i].content_hash,
    decreases n,
{
    if n > 0 {
        lemma_mismatches(expected, actual, (n - 1) as nat);
        if mismatches(expected, actual, n).len() == 0 {
            assert forall|i: int| 0 <= i < n implies #[trigger] expected[i].content_hash == actual[i].content_hash by {
                if i == n - 1 {
                } else {
                    assert(mismatches(expected, actual, (n - 1) as nat).len() == 0);
                }
            }
        }
    }
}

/// Every step pair within the common length is either verified or reported:
/// verified steps plus hash discrepancies make up the common length.
pub proof fn law_replay_counts(expected: Seq<ReplayStep>, actual: Seq<ReplayStep>)
    ensures
        matched(expected, actual, common_len(expected, actual)) + mismatches(
            expected,
            actual,
            common_len(expected, actual),
        ).len() == common_len(expected, actual),
{
    lemma_mismatches(expected, actual, common_len(expected, actual));
}

/// Verification succeeds exactly when both logs have the same length and the
/// same content hash at every position.
pub proof fn law_replay_success_iff_identical(expected: Seq<ReplayStep>, actual: Seq<ReplayStep>)
    ensures
        all_discrepancies(expected, actual).len() == 0 <==> (expected.len() == actual.len() && forall|i: int|
            0 <= i < expected.len() ==> #[trigger] expected[i].content_hash == actual[i].content_hash),
{
    lemma_mismatches(expected, actual, common_len(expected, actual));
}

/// A log verified against itself succeeds with every step verified; in
/// particular replaying one journal twice yields logs that verify.
pub proof fn law_replay_self_verifies(log: Seq<ReplayStep>)
    ensures
        all_discrepancies(log, log).len() == 0,
        matched(log, log, common_len(log, log)) == log.len(),
{
    lemma_mismatches(log, log, log.len());
}


proof fn lemma_mismatch_contents(expected: Seq<ReplayStep>, actual: Seq<ReplayStep>, n: nat)
    requires
        n <= expected.len(),
        n <= actual.len(),
    ensures
        forall|j: int|
            0 <= j < mismatches(expected, actual, n).len() ==> exists|i: int|
                0 <= i < n && expected[i].content_hash != actual[i].content_hash && #[trigger] mismatches(
                    expected,
                    actual,
                    n,
                )[j] == (ReplayDiscrepancy {
                    sequence: expected[i].sequence,
                    expected_hash: expected[i].content_hash,
                    actual_hash: actual[i].content_hash,
                }),
        forall|i: int|
            0 <= i < n && #[trigger] expected[i].content_hash != actual[i].content_hash ==> mismatches(
                expected,
                actual,
                n,
            ).contains(
                ReplayDiscrepancy {
                    sequence: expected[i].sequence,
                    expected_hash: expected[i].content_hash,
                    actual_hash: actual[i].content_hash,
                },
            ),
    decreases n,
{
    if n > 0 {
        let m = (n - 1) as nat;
        lemma_mismatch_contents(expected, actual, m);
        let prev = mismatches(expected, actual, m);
        let cur = mismatches(expected, actual, n);
        assert forall|j: int| 0 <= j < cur.len() implies exists|i: int|
            0 <= i < n && expected[i].content_hash != actual[i].content_hash && #[trigger] cur[j] == (
            ReplayDiscrepancy {
                sequence: expected[i].sequence,
                expected_hash: expected[i].content_hash,
                actual_hash: actual[i].content_hash,
            }) by {
            if j < prev.len() {
                assert(cur[j] == prev[j]);
            }
        }
        assert forall|i: int|
            0 <= i < n && #[trigger] expected[i].content_hash != actual[i].content_hash implies cur.contains(
                ReplayDiscrepancy {
                    sequence: expected[i].sequence,
                    expected_hash: expected[i].content_hash,
                    actual_hash: actual[i].content_hash,
                },
            ) by {
            if i < m {
                let j = choose|j: int| 0 <= j < prev.len() && prev[j] == (ReplayDiscrepancy {
                    sequence: expected[i].sequence,
                    expected_hash: expected[i].content_hash,
                    actual_hash: actual[i].content_hash,
                });
                assert(cur[j] == prev[j]);
            } else {
                assert(cur[prev.len() as int] == (ReplayDiscrepancy {
                    sequence: expected[i].sequence,
                    expected_hash: expected[i].content_hash,
                    actual_hash: actual[i].content_hash,
                }));
            }
        }
    }
}

/// Every position where the two logs' hashes differ is reported, with the
/// expected log's sequence and hash and the actual log's hash; and every
/// reported discrepancy is such a position or, last, the length mismatch
/// carrying the two lengths.
pub proof fn law_replay_discrepancies_report_both_hashes(expected: Seq<ReplayStep>, actual: Seq<ReplayStep>)
    ensures
        forall|i: int|
            0 <= i < expected.len() && i < actual.len() && #[trigger] expected[i].content_hash
                != actual[i].content_hash ==> all_discrepancies(expected, actual).contains(
                ReplayDiscrepancy {
                    sequence: expected[i].sequence,
                    expected_hash: expected[i].content_hash,
                    actual_hash: actual[i].content_hash,
                },
            ),
        forall|j: int|
            0 <= j < all_discrepancies(expected, actual).len() ==> (exists|i: int|
                0 <= i < expected.len() && i < actual.len() && expected[i].content_hash
                    != actual[i].content_hash && #[trigger] all_discrepancies(expected, actual)[j] == (
                ReplayDiscrepancy {
                    sequence: expected[i].sequence,
                    expected_hash: expected[i].content_hash,
                    actual_hash: actual[i].content_hash,
                })) || (expected.len() != actual.len() && j == all_discrepancies(expected, actual).len() - 1
                && all_discrepancies(expected, actual)[j].expected_hash == expected.len() as u64
                && all_discrepancies(expected, actual)[j].actual_hash == actual.len() as u64),
{
    let n = common_len(expected, actual);
    lemma_mismatch_contents(expected, actual, n);
    let m = mismatches(expected, actual, n);
    let all = all_discrepancies(expected, actual);
    assert forall|i: int|
        0 <= i < expected.len() && i < actual.len() && #[trigger] expected[i].content_hash
            != actual[i].content_hash implies all.contains(
            ReplayDiscrepancy {
                sequence: expected[i].sequence,
                expected_hash: expected[i].content_hash,
                actual_hash: actual[i].content_hash,
            },
        ) by {
        let d = ReplayDiscrepancy {
            sequence: expected[i].sequence,
            expected_hash: expected[i].content_hash,
            actual_hash: actual[i].content_hash,
        };
        assert(m.contains(d));
        let j = choose|j: int| 0 <= j < m.len() && m[j] == d;
        assert(all[j] == m[j]);
    }
    assert forall|j: int| 0 <= j < all.len() implies (exists|i: int|
        0 <= i < expected.len() && i < actual.len() && expected[i].content_hash != actual[i].content_hash
            && #[trigger] all[j] == (ReplayDiscrepancy {
            sequence: expected[i].sequence,
            expected_hash: expected[i].content_hash,
            actual_hash: actual[i].content_hash,
        })) || (expected.len() != actual.len() && j == all.len() - 1 && all[j].expected_hash
        == expected.len() as u64 && all[j].actual_hash == actual.len() as u64) by {
        if j < m.len() {
            assert(all[j] == m[j]);
            let i = choose|i: int|
                0 <= i < n && expected[i].content_hash != actual[i].content_hash && #[trigger] m[j] == (
                ReplayDiscrepancy {
                    sequence: expected[i].sequence,
                    expected_hash: expected[i].content_hash,
                    actual_hash: actual[i].content_hash,
                });
            assert(all[j] == (ReplayDiscrepancy {
                sequence: expected[i].sequence,
                expected_hash: expected[i].content_hash,
                actual_hash: actual[i].content_hash,
            }));
        } else {
            assert(all[j] == length_discrepancy(expected, actual));
        }
    }
}

/// The bytes hashed for a replay step determine the entry's sequence number,
/// timestamp and event kind, and the data its event carries: ids and counts
/// exactly, the three counts of a clearing attempt whenever they fit their
/// packed fields, and a failure's trade id given its reason. So two entries
/// that differ in any of these are hashed from different bytes.
pub proof fn law_step_bytes_carry_event_data(e1: JournalEntry, e2: JournalEntry)
    requires
        step_bytes(e1.sequence, e1.timestamp_ns, event_kind(e1.event), event_payload(e1.event)) == step_bytes(
            e2.sequence,
            e2.timestamp_ns,
            event_kind(e2.event),
            event_payload(e2.event),
        ),
    ensures
        e1.sequence == e2.sequence,
        e1.timestamp_ns == e2.timestamp_ns,
        event_kind(e1.event) == event_kind(e2.event),
        match (e1.event, e2.event) {
            (JournalEvent::TradeReceived { trade_id: a }, JournalEvent::TradeReceived { trade_id: b }) => a
                == b,
            (
                JournalEvent::NettingCompleted { obligation_count: a },
                JournalEvent::NettingCompleted { obligation_count: b },
            ) => a == b,
            (
                JournalEvent::SettlementCompleted { trade_count: a },
                JournalEvent::SettlementCompleted { trade_count: b },
            ) => a == b,
            (
                JournalEvent::ClearingAttempted {
                    obligation_count: o1,
                    success_count: s1,
                    fail_count: f1,
                },
                JournalEvent::ClearingAttempted {
                    obligation_count: o2,
                    success_count: s2,
                    fail_count: f2,
                },
            ) => (o1 < 0x1_0000_0000 && s1 < 0x1_0000 && f1 < 0x1_0000 && o2 < 0x1_0000_0000 && s2
                < 0x1_0000 && f2 < 0x1_0000) ==> (o1 == o2 && s1 == s2 && f1 == f2),
            (
                JournalEvent::SettlementFailed { trade_id: a, reason: r1 },
                JournalEvent::SettlementFailed { trade_id: b, reason: r2 },
            ) => r1@ == r2@ ==> a == b,
            _ => true,
        },
{
    lemma_auto_spec_u64_to_from_le_bytes();
    let b = step_bytes(e1.sequence, e1.timestamp_ns, event_kind(e1.event), event_payload(e1.event));
    let b2 = step_bytes(e2.sequence, e2.timestamp_ns, event_kind(e2.event), event_payload(e2.event));
    assert(b.subrange(0, 8) =~= spec_u64_to_le_bytes(e1.sequence));
    assert(b2.subrange(0, 8) =~= spec_u64_to_le_bytes(e2.sequence));
    assert(e1.sequence == spec_u64_from_le_bytes(spec_u64_to_le_bytes(e1.sequence)));
    assert(b.subrange(8, 16) =~= spec_u64_to_le_bytes(e1.timestamp_ns));
    assert(b2.subrange(8, 16) =~= spec_u64_to_le_bytes(e2.timestamp_ns));
    assert(e1.timestamp_ns == spec_u64_from_le_bytes(spec_u64_to_le_bytes(e1.timestamp_ns)));
    assert(b[16] == event_kind(e1.event));
    assert(b2[16] == event_kind(e2.event));
    let p1 = event_payload(e1.event);
    let p2 = event_payload(e2.event);
    assert(b.subrange(17, 25) =~= spec_u64_to_le_bytes(p1));
    assert(b2.subrange(17, 25) =~= spec_u64_to_le_bytes(p2));
    assert(p1 == spec_u64_from_le_bytes(spec_u64_to_le_bytes(p1)));
    assert(p1 == p2);
    match (e1.event, e2.event) {
        (
            JournalEvent::ClearingAttempted { obligation_count: o1, success_count: s1, fail_count: f1 },
            JournalEvent::ClearingAttempted { obligation_count: o2, success_count: s2, fail_count: f2 },
        ) => {
            let (a1, c1, d1) = (o1 as u64, s1 as u64, f1 as u64);
            let (a2, c2, d2) = (o2 as u64, s2 as u64, f2 as u64);
            if o1 < 0x1_0000_0000 && s1 < 0x1_0000 && f1 < 0x1_0000 && o2 < 0x1_0000_0000 && s2 < 0x1_0000
                && f2 < 0x1_0000 {
                assert(a1 == a2 && c1 == c2 && d1 == d2) by (bit_vector)
                    requires
                        a1 << 32u64 | c1 << 16u64 | d1 == a2 << 32u64 | c2 << 16u64 | d2,
                        a1 < 0x1_0000_0000,
                        c1 < 0x1_0000,
                        d1 < 0x1_0000,
                        a2 < 0x1_0000_0000,
                        c2 < 0x1_0000,
                        d2 < 0x1_0000,
                ;
            }
        },
        (
            JournalEvent::SettlementFailed { trade_id: a, reason: r1 },
            JournalEvent::SettlementFailed { trade_id: c, reason: r2 },
        ) => {
            if r1@ == r2@ {
                let h = spec_fnv1a(vstd::utf8::encode_utf8(r1@));
                assert(a == c) by (bit_vector)
                    requires
                        a ^ h == c ^ h,
                ;
            }
        },
        _ => {},
    }
}

} // verus!
