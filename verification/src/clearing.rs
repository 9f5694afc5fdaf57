use vstd::prelude::*;

use std::collections::HashMap;

use crate::netting::NetObligation;

verus! {

broadcast use vstd::std_specs::hash::group_hash_axioms;

/// Account balance for clearing.
#[derive(Debug, Clone, Copy, PartialEq, Eq, Structural)]
pub struct ClearingAccount {
    pub account_id: u64,
    /// Available balance in ticks (cash equivalent).
    pub balance: i64,
    /// Margin held.
    pub margin_held: i64,
}

/// Error returned when clearing an obligation fails.
#[derive(Debug, Clone, Copy, PartialEq, Eq, Structural)]
pub enum ClearingError {
    /// The specified account was not found in the clearing house.
    AccountNotFound(u64),
    /// The account has insufficient balance to meet the obligation.
    InsufficientBalance { account_id: u64, required: i64, available: i64 },
}

/// Per-obligation clearing outcome.
#[derive(Debug, Clone, Copy)]
pub struct ClearingResult {
    pub obligation: NetObligation,
    pub success: bool,
    pub error: Option<ClearingError>,
}

// ── Specification ──────────────────────────────────────────────────────

/// Outcome of clearing `ob` against the accounts `m`: the deliverer must be
/// registered, then the receiver, then the deliverer's balance must cover the
/// payment.
pub open spec fn clear_outcome(m: Map<u64, ClearingAccount>, ob: NetObligation) -> Result<(), ClearingError> {
    if !m.contains_key(ob.deliverer_id) {
        Err(ClearingError::AccountNotFound(ob.deliverer_id))
    } else if !m.contains_key(ob.receiver_id) {
        Err(ClearingError::AccountNotFound(ob.receiver_id))
    } else if m[ob.deliverer_id].balance < ob.net_payment {
        Err(
            ClearingError::InsufficientBalance {
                account_id: ob.deliverer_id,
                required: ob.net_payment,
                available: m[ob.deliverer_id].balance,
            },
        )
    } else {
        Ok(())
    }
}

/// `acc` with its balance changed to `balance`.
pub open spec fn with_balance(acc: ClearingAccount, balance: int) -> ClearingAccount {
    ClearingAccount { balance: balance as i64, ..acc }
}

/// Accounts after debiting the deliverer by the payment.
pub open spec fn after_debit(m: Map<u64, ClearingAccount>, ob: NetObligation) -> Map<u64, ClearingAccount> {
    m.insert(ob.deliverer_id, with_balance(m[ob.deliverer_id], m[ob.deliverer_id].balance - ob.net_payment))
}

/// Accounts after clearing `ob`: on success the payment moves from the
/// deliverer to the receiver (debit first, then credit); on failure nothing
/// changes.
pub open spec fn clear_state(m: Map<u64, ClearingAccount>, ob: NetObligation) -> Map<u64, ClearingAccount> {
    if clear_outcome(m, ob) is Ok {
        let m1 = after_debit(m, ob);
        m1.insert(ob.receiver_id, with_balance(m1[ob.receiver_id], m1[ob.receiver_id].balance + ob.net_payment))
    } else {
        m
    }
}

/// Whether a successful transfer keeps both balances within `i64`.
pub open spec fn clear_fits(m: Map<u64, ClearingAccount>, ob: NetObligation) -> bool {
    clear_outcome(m, ob) is Ok ==> {
        &&& i64::MIN <= m[ob.deliverer_id].balance - ob.net_payment <= i64::MAX
        &&& i64::MIN <= after_debit(m, ob)[ob.receiver_id].balance + ob.net_payment <= i64::MAX
    }
}

/// Per-obligation report for an outcome.
pub open spec fn result_of(ob: NetObligation, outcome: Result<(), ClearingError>) -> ClearingResult {
    match outcome {
        Ok(()) => ClearingResult { obligation: ob, success: true, error: None },
        Err(e) => ClearingResult { obligation: ob, success: false, error: Some(e) },
    }
}

/// Accounts after clearing `obs` one after another.
pub open spec fn clear_all_state(m: Map<u64, ClearingAccount>, obs: Seq<NetObligation>) -> Map<
    u64,
    ClearingAccount,
>
    decreases obs.len(),
{
    if obs.len() == 0 {
        m
    } else {
        clear_state(clear_all_state(m, obs.drop_last()), obs.last())
    }
}

/// Reports of clearing `obs` one after another; each obligation is cleared
/// against the accounts left by the ones before it.
pub open spec fn clear_all_results(m: Map<u64, ClearingAccount>, obs: Seq<NetObligation>) -> Seq<
    ClearingResult,
>
    decreases obs.len(),
{
    if obs.len() == 0 {
        Seq::empty()
    } else {
        clear_all_results(m, obs.drop_last()).push(
            result_of(obs.last(), clear_outcome(clear_all_state(m, obs.drop_last()), obs.last())),
        )
    }
}

/// Whether every transfer of the sequence keeps balances within `i64`.
pub open spec fn clear_all_fits(m: Map<u64, ClearingAccount>, obs: Seq<NetObligation>) -> bool
    decreases obs.len(),
{
    if obs.len() == 0 {
        true
    } else {
        clear_all_fits(m, obs.drop_last()) && clear_fits(clear_all_state(m, obs.drop_last()), obs.last())
    }
}

/// Central clearing house.
///
/// Maintains account balances and processes net obligations from the netting
/// engine. On success, debits the deliverer and credits the receiver.
pub struct ClearingHouse {
    accounts: HashMap<u64, ClearingAccount>,
}

impl View for ClearingHouse {
    type V = Map<u64, ClearingAccount>;

    closed spec fn view(&self) -> Map<u64, ClearingAccount> {
        self.accounts@
    }
}

impl ClearingHouse {
    /// Create an empty clearing house.
    pub fn new() -> (ch: Self)
        ensures
            ch@ == Map::<u64, ClearingAccount>::empty(),
    {
        ClearingHouse { accounts: HashMap::new() }
    }

    /// Register an account with an initial balance.
    ///
    /// If the account already exists, the balance is replaced.
    pub fn register_account(&mut self, id: u64, initial_balance: i64)
        ensures
            final(self)@ == old(self)@.insert(
                id,
                ClearingAccount { account_id: id, balance: initial_balance, margin_held: 0 },
            ),
    {
        self.accounts.insert(id, ClearingAccount { account_id: id, balance: initial_balance, margin_held: 0 });
    }

    /// Look up an account by identifier.
    pub fn get_account(&self, id: u64) -> (r: Option<&ClearingAccount>)
        ensures
            match r {
                Some(acc) => self@.contains_key(id) && *acc == self@[id],
                None => !self@.contains_key(id),
            },
    {
        self.accounts.get(&id)
    }

    /// Attempt to clear a single net obligation.
    ///
    /// Checks that the deliverer has a balance of at least `net_payment`, then
    /// transfers `net_payment` from deliverer to receiver.
    pub fn clear_obligation(&mut self, obligation: &NetObligation) -> (r: Result<(), ClearingError>)
        requires
            clear_fits(old(self)@, *obligation),
        ensures
            r == clear_outcome(old(self)@, *obligation),
            final(self)@ == clear_state(old(self)@, *obligation),
    {
        let ghost m = self@;
        let d = obligation.deliverer_id;
        let rcv = obligation.receiver_id;
        let p = obligation.net_payment;
        // Verify both accounts exist before mutating anything.
        if !self.accounts.contains_key(&d) {
            return Err(ClearingError::AccountNotFound(d));
        }
        if !self.accounts.contains_key(&rcv) {
            return Err(ClearingError::AccountNotFound(rcv));
        }
        let deliverer = *self.accounts.get(&d).unwrap();
        if deliverer.balance < p {
            return Err(
                ClearingError::InsufficientBalance {
                    account_id: d,
                    required: p,
                    available: deliverer.balance,
                },
            );
        }
        // Perform the transfer; both accounts were verified above.
        self.accounts.insert(d, ClearingAccount { balance: deliverer.balance - p, ..deliverer });
        assert(self@ == after_debit(m, *obligation));
        let receiver = *self.accounts.get(&rcv).unwrap();
        self.accounts.insert(rcv, ClearingAccount { balance: receiver.balance + p, ..receiver });
        Ok(())
    }

    /// Whether clearing `obligation` would keep both balances within `i64`.
    pub fn can_clear(&self, obligation: &NetObligation) -> (ok: bool)
        ensures
            ok == clear_fits(self@, *obligation),
    {
        let d = obligation.deliverer_id;
        let rcv = obligation.receiver_id;
        let p = obligation.net_payment;
        if !self.accounts.contains_key(&d) || !self.accounts.contains_key(&rcv) {
            return true;
        }
        let deliverer = *self.accounts.get(&d).unwrap();
        if deliverer.balance < p {
            return true;
        }
        let debited = (deliverer.balance as i128) - (p as i128);
        if debited < i64::MIN as i128 || debited > i64::MAX as i128 {
            return false;
        }
        let receiver_before: i128 = if rcv == d {
            debited
        } else {
            self.accounts.get(&rcv).unwrap().balance as i128
        };
        let credited = receiver_before + (p as i128);
        credited >= i64::MIN as i128 && credited <= i64::MAX as i128
    }

    /// Attempt to clear all obligations, returning per-obligation results.
    ///
    /// Obligations that fail do not roll back previously cleared obligations.
    pub fn clear_all(&mut self, obligations: &[NetObligation]) -> (results: Vec<ClearingResult>)
        requires
            clear_all_fits(old(self)@, obligations@),
        ensures
            results@ == clear_all_results(old(self)@, obligations@),
            final(self)@ == clear_all_state(old(self)@, obligations@),
    {
        let ghost m = self@;
        let n = obligations.len();
        let mut results: Vec<ClearingResult> = Vec::with_capacity(n);
        let mut i: usize = 0;
        while i < n
            invariant
                n == obligations@.len(),
                i <= n,
                m == old(self)@,
                clear_all_fits(m, obligations@),
                self@ == clear_all_state(m, obligations@.take(i as int)),
                results@ == clear_all_results(m, obligations@.take(i as int)),
            decreases n - i,
        {
            let ghost pre = obligations@.take(i as int);
            assert(obligations@.take(i + 1).drop_last() =~= pre);
            proof {
                lemma_fits_prefix(m, obligations@, i as int + 1);
            }
            let ob = obligations[i];
            let r = match self.clear_obligation(&ob) {
                Ok(()) => ClearingResult { obligation: ob, success: true, error: None },
                Err(e) => ClearingResult { obligation: ob, success: false, error: Some(e) },
            };
            results.push(r);
            i = i + 1;
        }
        assert(obligations@.take(n as int) =~= obligations@);
        results
    }
}

impl Default for ClearingHouse {
    fn default() -> (ch: Self)
        ensures
            ch@ == Map::<u64, ClearingAccount>::empty(),
    {
        Self::new()
    }
}

proof fn lemma_fits_prefix(m: Map<u64, ClearingAccount>, obs: Seq<NetObligation>, k: int)
    requires
        0 <= k <= obs.len(),
        clear_all_fits(m, obs),
    ensures
        clear_all_fits(m, obs.take(k)),
    decreases obs.len(),
{
    if k < obs.len() {
        assert(obs.drop_last().take(k) =~= obs.take(k));
        lemma_fits_prefix(m, obs.drop_last(), k);
    } else {
        assert(obs.take(k) =~= obs);
    }
}

// ── Laws ──────────────────────────────────────────────────────────────

/// Sum of the balances of the listed accounts (unregistered ones count 0).
pub open spec fn total_balance(m: Map<u64, ClearingAccount>, ids: Seq<u64>) -> int
    decreases ids.len(),
{
    if ids.len() == 0 {
        0
    } else {
        total_balance(m, ids.drop_last()) + if m.contains_key(ids.last()) {
            m[ids.last()].balance as int
        } else {
            0
        }
    }
}

proof fn lemma_total_balance_frame(
    m: Map<u64, ClearingAccount>,
    m2: Map<u64, ClearingAccount>,
    ids: Seq<u64>,
    d: u64,
    r: u64,
    delta: int,
)
    requires
        ids.no_duplicates(),
        ids.contains(d) == ids.contains(r),
        m2.dom() == m.dom(),
        m.contains_key(d) && m.contains_key(r),
        forall|id: u64| m.contains_key(id) && id != d && id != r ==> #[trigger] m2[id].balance == m[id].balance,
        d == r ==> m2[d].balance == m[d].balance,
        d != r ==> m2[d].balance == m[d].balance - delta && m2[r].balance == m[r].balance + delta,
    ensures
        total_balance(m2, ids) == total_balance(m, ids),
    decreases ids.len(),
{
    if ids.len() > 0 {
        let last = ids.last();
        let dl = ids.drop_last();
        assert(dl.no_duplicates()) by {
            assert forall|a: int, b: int| 0 <= a < dl.len() && 0 <= b < dl.len() && a != b implies dl[a]
                != dl[b] by {
                assert(dl[a] == ids[a] && dl[b] == ids[b]);
            }
        }
        if d != r && (last == d || last == r) {
            // the other endpoint is still in the prefix
            let other = if last == d {
                r
            } else {
                d
            };
            assert(ids.contains(other));
            let w = choose|w: int| 0 <= w < ids.len() && ids[w] == other;
            assert(w != ids.len() - 1);
            assert(dl[w] == other);
            lemma_total_balance_partial(m, m2, dl, d, r, delta, last);
        } else {
            if dl.contains(d) {
                let w = choose|w: int| 0 <= w < dl.len() && dl[w] == d;
                assert(ids[w] == d);
            }
            if dl.contains(r) {
                let w = choose|w: int| 0 <= w < dl.len() && dl[w] == r;
                assert(ids[w] == r);
            }
            if ids.contains(d) && last != d {
                let w = choose|w: int| 0 <= w < ids.len() && ids[w] == d;
                assert(dl[w] == d);
            }
            if ids.contains(r) && last != r {
                let w = choose|w: int| 0 <= w < ids.len() && ids[w] == r;
                assert(dl[w] == r);
            }
            lemma_total_balance_frame(m, m2, dl, d, r, delta);
        }
    }
}

proof fn lemma_total_balance_partial(
    m: Map<u64, ClearingAccount>,
    m2: Map<u64, ClearingAccount>,
    ids: Seq<u64>,
    d: u64,
    r: u64,
    delta: int,
    missing: u64,
)
    requires
        ids.no_duplicates(),
        d != r,
        missing == d || missing == r,
        !ids.contains(missing),
        ids.contains(if missing == d {
            r
        } else {
            d
        }),
        m2.dom() == m.dom(),
        m.contains_key(d) && m.contains_key(r),
        forall|id: u64| m.contains_key(id) && id != d && id != r ==> #[trigger] m2[id].balance == m[id].balance,
        m2[d].balance == m[d].balance - delta && m2[r].balance == m[r].balance + delta,
    ensures
        total_balance(m2, ids) == total_balance(m, ids) + if missing == d {
            delta
        } else {
            -delta
        },
    decreases ids.len(),
{
    let other = if missing == d {
        r
    } else {
        d
    };
    if ids.len() > 0 {
        let dl = ids.drop_last();
        assert(dl.no_duplicates()) by {
            assert forall|a: int, b: int| 0 <= a < dl.len() && 0 <= b < dl.len() && a != b implies dl[a]
                != dl[b] by {
                assert(dl[a] == ids[a] && dl[b] == ids[b]);
            }
        }
        if ids.last() == other {
            if dl.contains(other) {
                let w = choose|w: int| 0 <= w < dl.len() && dl[w] == other;
                assert(ids[w] == ids[ids.len() - 1]);
            }
            lemma_total_balance_unchanged(m, m2, dl, d, r);
        } else {
            assert(ids.last() != missing) by {
                assert(ids[ids.len() - 1] == ids.last());
            }
            assert(!dl.contains(missing)) by {
                if dl.contains(missing) {
                    let w = choose|w: int| 0 <= w < dl.len() && dl[w] == missing;
                    assert(ids[w] == missing);
                }
            }
            assert(dl.contains(other)) by {
                let w = choose|w: int| 0 <= w < ids.len() && ids[w] == other;
                assert(w != ids.len() - 1);
                assert(dl[w] == other);
            }
            lemma_total_balance_partial(m, m2, dl, d, r, delta, missing);
        }
    } else {
        assert(ids.contains(other) == false);
    }
}

proof fn lemma_total_balance_unchanged(
    m: Map<u64, ClearingAccount>,
    m2: Map<u64, ClearingAccount>,
    ids: Seq<u64>,
    d: u64,
    r: u64,
)
    requires
        !ids.contains(d),
        !ids.contains(r),
        m2.dom() == m.dom(),
        forall|id: u64| m.contains_key(id) && id != d && id != r ==> #[trigger] m2[id].balance == m[id].balance,
    ensures
        total_balance(m2, ids) == total_balance(m, ids),
    decreases ids.len(),
{
    if ids.len() > 0 {
        let dl = ids.drop_last();
        assert(!dl.contains(d)) by {
            if dl.contains(d) {
                let w = choose|w: int| 0 <= w < dl.len() && dl[w] == d;
                assert(ids[w] == d);
            }
        }
        assert(!dl.contains(r)) by {
            if dl.contains(r) {
                let w = choose|w: int| 0 <= w < dl.len() && dl[w] == r;
                assert(ids[w] == r);
            }
        }
        assert(ids[ids.len() - 1] != d && ids[ids.len() - 1] != r);
        lemma_total_balance_unchanged(m, m2, dl, d, r);
    }
}

/// Clearing moves money and never creates or destroys it: over any list of
/// distinct accounts that holds both parties of the obligation or neither,
/// the total balance is the same before and after clearing.
pub proof fn law_clearing_conserves_balances(
    m: Map<u64, ClearingAccount>,
    ob: NetObligation,
    ids: Seq<u64>,
)
    requires
        clear_fits(m, ob),
        ids.no_duplicates(),
        ids.contains(ob.deliverer_id) == ids.contains(ob.receiver_id),
    ensures
        total_balance(clear_state(m, ob), ids) == total_balance(m, ids),
{
    if clear_outcome(m, ob) is Ok {
        let m2 = clear_state(m, ob);
        assert(m2.dom() =~= m.dom());
        lemma_total_balance_frame(m, m2, ids, ob.deliverer_id, ob.receiver_id, ob.net_payment as int);
    }
}

/// Clearing a whole list conserves the total balance too: over any list of
/// distinct accounts that, for every obligation, holds both parties or
/// neither, the total is the same before and after `clear_all`.
pub proof fn law_clear_all_conserves_balances(
    m: Map<u64, ClearingAccount>,
    obs: Seq<NetObligation>,
    ids: Seq<u64>,
)
    requires
        clear_all_fits(m, obs),
        ids.no_duplicates(),
        forall|i: int|
            0 <= i < obs.len() ==> ids.contains(#[trigger] obs[i].deliverer_id) == ids.contains(
                obs[i].receiver_id,
            ),
    ensures
        total_balance(clear_all_state(m, obs), ids) == total_balance(m, ids),
    decreases obs.len(),
{
    if obs.len() > 0 {
        let d = obs.drop_last();
        assert forall|i: int| 0 <= i < d.len() implies ids.contains(#[trigger] d[i].deliverer_id)
            == ids.contains(d[i].receiver_id) by {
            assert(d[i] == obs[i]);
        }
        law_clear_all_conserves_balances(m, d, ids);
        assert(obs[obs.len() - 1] == obs.last());
        law_clearing_conserves_balances(clear_all_state(m, d), obs.last(), ids);
    }
}

/// A refused obligation changes no balance, and is refused exactly when a
/// party is unregistered or the deliverer's balance is below the payment.
pub proof fn law_clearing_refusal_changes_nothing(m: Map<u64, ClearingAccount>, ob: NetObligation)
    ensures
        clear_outcome(m, ob) is Err ==> clear_state(m, ob) == m,
        clear_outcome(m, ob) is Err <==> (!m.contains_key(ob.deliverer_id) || !m.contains_key(
            ob.receiver_id,
        ) || m[ob.deliverer_id].balance < ob.net_payment),
{
}

} // verus!
