use vstd::prelude::*;

use crate::hash::{hash_pair, pair_bytes, spec_fnv1a, FNV_OFFSET_BASIS};
use crate::replay::{entry_content_hash, entry_hash, journal_hash};

verus! {

/// A settlement journal entry for audit purposes.
#[derive(Debug, Clone)]
pub struct JournalEntry {
    /// Sequential entry number.
    pub sequence: u64,
    /// Timestamp of the journal entry.
    pub timestamp_ns: u64,
    /// Type of event.
    pub event: JournalEvent,
    /// Hash of the journal before this entry: the FNV offset basis for the
    /// first entry, then the previous entry's `prev_hash` chained with that
    /// entry's content hash, so that altering any earlier entry breaks the
    /// chain.
    pub prev_hash: u64,
}

/// Events that can be recorded in the settlement journal.
#[derive(Debug, Clone)]
pub enum JournalEvent {
    TradeReceived { trade_id: u64 },
    NettingCompleted { obligation_count: usize },
    ClearingAttempted { obligation_count: usize, success_count: usize, fail_count: usize },
    SettlementCompleted { trade_count: usize },
    SettlementFailed { trade_id: u64, reason: String },
}

/// Append-only, hash-chained settlement journal for audit trail.
///
/// Sequence numbers start at 1 and increment monotonically with each recorded
/// event. Each entry carries a hash of the journal before it. The journal
/// never removes entries.
pub struct SettlementJournal {
    entries: Vec<JournalEntry>,
    next_seq: u64,
    chain: u64,
}

impl View for SettlementJournal {
    type V = Seq<JournalEntry>;

    closed spec fn view(&self) -> Seq<JournalEntry> {
        self.entries@
    }
}

/// Entry `i` carries sequence number `i + 1`.
pub open spec fn sequences_consecutive(entries: Seq<JournalEntry>) -> bool {
    forall|i: int| 0 <= i < entries.len() ==> #[trigger] entries[i].sequence == i + 1
}

/// Entry `i` carries the hash of the first `i` entries.
pub open spec fn hashes_chained(entries: Seq<JournalEntry>) -> bool {
    forall|i: int| 0 <= i < entries.len() ==> #[trigger] entries[i].prev_hash == journal_hash(entries.take(i))
}

impl SettlementJournal {
    /// Internal invariant: entries are numbered 1, 2, 3, ..., each carries the
    /// hash of the entries before it, the next sequence number follows the
    /// last one, and the running hash covers all entries.
    pub closed spec fn wf(&self) -> bool {
        &&& sequences_consecutive(self.entries@)
        &&& hashes_chained(self.entries@)
        &&& self.next_seq == self.entries@.len() + 1
        &&& self.chain == journal_hash(self.entries@)
    }

    /// Create a new, empty journal. The first recorded entry will have sequence 1.
    pub fn new() -> (j: Self)
        ensures
            j.wf(),
            j@ == Seq::<JournalEntry>::empty(),
    {
        let j = Self { entries: Vec::new(), next_seq: 1, chain: FNV_OFFSET_BASIS };
        assert(j.entries@ =~= Seq::<JournalEntry>::empty());
        j
    }

    /// Append an event to the journal.
    pub fn record(&mut self, timestamp_ns: u64, event: JournalEvent)
        requires
            old(self).wf(),
            old(self)@.len() + 1 < u64::MAX,
        ensures
            final(self).wf(),
            final(self)@ == old(self)@.push(
                JournalEntry {
                    sequence: (old(self)@.len() + 1) as u64,
                    timestamp_ns,
                    event,
                    prev_hash: journal_hash(old(self)@),
                },
            ),
    {
        let ghost before = self.entries@;
        let sequence = self.next_seq;
        let prev_hash = self.chain;
        let entry = JournalEntry { sequence, timestamp_ns, event, prev_hash };
        let h = entry_content_hash(&entry);
        self.chain = hash_pair(prev_hash, h);
        self.next_seq = self.next_seq + 1;
        self.entries.push(entry);
        proof {
            let after = self.entries@;
            assert(after.drop_last() =~= before);
            assert(after.take(before.len() as int) =~= before);
            assert forall|i: int| 0 <= i < after.len() implies #[trigger] after[i].prev_hash == journal_hash(
                after.take(i),
            ) by {
                if i < before.len() {
                    assert(after.take(i) =~= before.take(i));
                    assert(after[i] == before[i]);
                }
            }
        }
    }

    /// Return a slice of all journal entries in order.
    pub fn entries(&self) -> (r: &[JournalEntry])
        ensures
            r@ == self@,
    {
        self.entries.as_slice()
    }

    /// Return the number of entries in the journal.
    pub fn len(&self) -> (n: usize)
        ensures
            n == self@.len(),
    {
        self.entries.len()
    }

    /// Return true when the journal contains no entries.
    pub fn is_empty(&self) -> (b: bool)
        ensures
            b == (self@.len() == 0),
    {
        self.entries.len() == 0
    }

    /// Return a reference to the most recent entry, or `None` if the journal
    /// is empty.
    pub fn last_entry(&self) -> (r: Option<&JournalEntry>)
        ensures
            match r {
                Some(e) => self@.len() > 0 && *e == self@.last(),
                None => self@.len() == 0,
            },
    {
        let n = self.entries.len();
        if n == 0 {
            None
        } else {
            Some(&self.entries[n - 1])
        }
    }
}

impl Default for SettlementJournal {
    fn default() -> (j: Self)
        ensures
            j.wf(),
            j@ == Seq::<JournalEntry>::empty(),
    {
        Self::new()
    }
}

/// Every well-formed journal numbers its entries 1, 2, 3, ... in order.
pub proof fn law_journal_sequences(j: &SettlementJournal)
    requires
        j.wf(),
    ensures
        sequences_consecutive(j@),
{
}

/// The journal is hash-chained: the first entry carries the FNV offset
/// basis, and every later entry carries the hash of its predecessor's
/// `prev_hash` together with its predecessor's content hash.
pub proof fn law_journal_hash_chained(j: &SettlementJournal)
    requires
        j.wf(),
    ensures
        j@.len() > 0 ==> j@[0].prev_hash == FNV_OFFSET_BASIS,
        forall|i: int|
            0 < i < j@.len() ==> #[trigger] j@[i].prev_hash == spec_fnv1a(
                pair_bytes(j@[i - 1].prev_hash, entry_hash(j@[i - 1])),
            ),
{
    let e = j@;
    if e.len() > 0 {
        assert(e.take(0) =~= Seq::<JournalEntry>::empty());
        assert(e[0].prev_hash == journal_hash(e.take(0)));
    }
    assert forall|i: int| 0 < i < e.len() implies #[trigger] e[i].prev_hash == spec_fnv1a(
        pair_bytes(e[i - 1].prev_hash, entry_hash(e[i - 1])),
    ) by {
        assert(e[i].prev_hash == journal_hash(e.take(i)));
        assert(e[i - 1].prev_hash == journal_hash(e.take(i - 1)));
        assert(e.take(i).drop_last() =~= e.take(i - 1));
        assert(e.take(i).last() == e[i - 1]);
    }
}

} // verus!
