use crate::errors::Error;
use crate::store::BalanceStore;
use vstd::prelude::*;

verus! {

/// Whether the external ledger at state `m` accepts a transfer of `amount`
/// from `from` to `to`: the amount is non-negative, the sender covers it,
/// and the credited balance still fits in the 128-bit balance type.
pub open spec fn transfer_ok(m: Map<u64, int>, from: u64, to: u64, amount: i128) -> bool {
    &&& 0 <= amount
    &&& amount <= m[from]
    &&& (from != to ==> m[to] + amount <= i128::MAX)
}

/// The ledger state after a transfer: the debit write followed by the
/// credit write, in that order (so a self-transfer touches its key twice
/// and nets to zero).
pub open spec fn apply_transfer(m: Map<u64, int>, from: u64, to: u64, amount: i128) -> Map<
    u64,
    int,
> {
    let debited = m.insert(from, m[from] - amount);
    debited.insert(to, debited[to] + amount)
}

/// The positionally-paired batch entries that are actually paid: entries
/// with a non-positive amount are skipped, the rest keep their order.
pub open spec fn positive_pairs(cs: Seq<u64>, amts: Seq<i128>) -> Seq<(u64, i128)>
    decreases cs.len(),
{
    if cs.len() == 0 || cs.len() != amts.len() {
        Seq::empty()
    } else {
        let rest = positive_pairs(cs.drop_last(), amts.drop_last());
        if amts.last() > 0 {
            rest.push((cs.last(), amts.last()))
        } else {
            rest
        }
    }
}

/// Whether the external ledger at state `m` accepts every transfer of the
/// batch `pairs` (paid from `treasury`), each judged at the state the
/// earlier transfers produce.
pub open spec fn batch_ok(m: Map<u64, int>, treasury: u64, pairs: Seq<(u64, i128)>) -> bool
    decreases pairs.len(),
{
    pairs.len() == 0 || {
        &&& batch_ok(m, treasury, pairs.drop_last())
        &&& transfer_ok(
            apply_batch(m, treasury, pairs.drop_last()),
            treasury,
            pairs.last().0,
            pairs.last().1,
        )
    }
}

/// The external ledger state after performing the batch `pairs` in order.
pub open spec fn apply_batch(m: Map<u64, int>, treasury: u64, pairs: Seq<(u64, i128)>) -> Map<
    u64,
    int,
>
    decreases pairs.len(),
{
    if pairs.len() == 0 {
        m
    } else {
        apply_transfer(
            apply_batch(m, treasury, pairs.drop_last()),
            treasury,
            pairs.last().0,
            pairs.last().1,
        )
    }
}

/// One payment event per paid entry, in payment order.
pub open spec fn payment_events(pairs: Seq<(u64, i128)>) -> Seq<PaymentEvent> {
    pairs.map_values(|p: (u64, i128)| PaymentEvent { contributor: p.0, amount: p.1 })
}

/// Splitting a batch splits its paid entries at the same point.
proof fn lemma_positive_pairs_concat(cs1: Seq<u64>, as1: Seq<i128>, cs2: Seq<u64>, as2: Seq<i128>)
    requires
        cs1.len() == as1.len(),
        cs2.len() == as2.len(),
    ensures
        positive_pairs(cs1 + cs2, as1 + as2) == positive_pairs(cs1, as1) + positive_pairs(
            cs2,
            as2,
        ),
    decreases cs2.len(),
{
    if cs2.len() == 0 {
        assert(cs1 + cs2 =~= cs1);
        assert(as1 + as2 =~= as1);
        assert(positive_pairs(cs1, as1) + positive_pairs(cs2, as2) =~= positive_pairs(cs1, as1));
    } else {
        lemma_positive_pairs_concat(cs1, as1, cs2.drop_last(), as2.drop_last());
        assert((cs1 + cs2).drop_last() =~= cs1 + cs2.drop_last());
        assert((as1 + as2).drop_last() =~= as1 + as2.drop_last());
        assert((cs1 + cs2).last() == cs2.last());
        assert((as1 + as2).last() == as2.last());
        if as2.last() > 0 {
            assert(positive_pairs(cs1, as1) + positive_pairs(
                cs2.drop_last(),
                as2.drop_last(),
            ).push((cs2.last(), as2.last())) =~= (positive_pairs(cs1, as1) + positive_pairs(
                cs2.drop_last(),
                as2.drop_last(),
            )).push((cs2.last(), as2.last())));
        }
    }
}

/// A batch concatenation is accepted exactly when its first part is and its
/// second part is from the state the first part produces; the final state
/// composes the same way.
proof fn lemma_batch_concat(m: Map<u64, int>, treasury: u64, q1: Seq<(u64, i128)>, q2: Seq<
    (u64, i128),
>)
    ensures
        apply_batch(m, treasury, q1 + q2) == apply_batch(
            apply_batch(m, treasury, q1),
            treasury,
            q2,
        ),
        batch_ok(m, treasury, q1 + q2) <==> (batch_ok(m, treasury, q1) && batch_ok(
            apply_batch(m, treasury, q1),
            treasury,
            q2,
        )),
    decreases q2.len(),
{
    if q2.len() == 0 {
        assert(q1 + q2 =~= q1);
    } else {
        lemma_batch_concat(m, treasury, q1, q2.drop_last());
        assert((q1 + q2).drop_last() =~= q1 + q2.drop_last());
        assert((q1 + q2).last() == q2.last());
    }
}

/// Law: a batch whose amounts are all non-positive pays nobody — it has no
/// paid entry, so it performs no transfer and reports no event.
pub proof fn lemma_skipped_entries(cs: Seq<u64>, amts: Seq<i128>)
    requires
        cs.len() == amts.len(),
        forall|i: int| 0 <= i < amts.len() ==> amts[i] <= 0,
    ensures
        positive_pairs(cs, amts) == Seq::<(u64, i128)>::empty(),
    decreases cs.len(),
{
    if cs.len() > 0 {
        assert(forall|i: int|
            0 <= i < amts.drop_last().len() ==> amts.drop_last()[i] == amts[i]);
        lemma_skipped_entries(cs.drop_last(), amts.drop_last());
    }
}

/// The in-scope model of the external token ledger service, specified at
/// its interface boundary: per-account balances, a `transfer` that fails on
/// an invalid or uncovered amount, and a `balance` query.
pub struct ExternalLedger {
    store: BalanceStore,
}

impl ExternalLedger {
    /// The store behind the ledger keeps one balance per account.
    pub closed spec fn wf(self) -> bool {
        self.store.wf()
    }

    /// The current balance of every account.
    pub closed spec fn balances_map(self) -> Map<u64, int> {
        self.store@
    }

    /// The current balance of one account.
    pub open spec fn balance_of(self, a: u64) -> int {
        self.balances_map()[a]
    }

    /// A fresh ledger where every account holds 0.
    pub fn new() -> (r: ExternalLedger)
        ensures
            r.wf(),
            forall|a: u64| #[trigger] r.balances_map()[a] == 0,
    {
        ExternalLedger { store: BalanceStore::new() }
    }

    /// Adds `amount` to the balance of `to`; a harness operation that stands
    /// for funding an account on the external ledger.
    pub fn credit(&mut self, to: u64, amount: i128)
        requires
            old(self).wf(),
            i128::MIN <= old(self).balance_of(to) + amount <= i128::MAX,
        ensures
            final(self).wf(),
            final(self).balances_map() == old(self).balances_map().insert(
                to,
                old(self).balance_of(to) + amount,
            ),
    {
        let current = self.store.balance_of(to);
        self.store.set_balance(to, current + amount);
    }

    /// The balance of `address`; 0 if the account was never written.
    pub fn balance(&self, address: u64) -> (r: i128)
        ensures
            r as int == self.balance_of(address),
    {
        self.store.balance_of(address)
    }

    /// An independent copy holding exactly the same balances.
    pub fn duplicate(&self) -> (r: ExternalLedger)
        ensures
            r.balances_map() == self.balances_map(),
            r.wf() == self.wf(),
    {
        ExternalLedger { store: self.store.duplicate() }
    }

    /// Moves `amount` from `from` to `to`: the debit write, then the credit
    /// write on a freshly re-read balance.
    ///
    /// Fails, changing nothing, exactly when the ledger does not accept the
    /// transfer ([`transfer_ok`]): a negative amount, a sender balance below
    /// the amount, or a credit that would overflow the balance type.
    pub fn transfer(&mut self, from: u64, to: u64, amount: i128) -> (r: Result<(), Error>)
        requires
            old(self).wf(),
        ensures
            final(self).wf(),
            r is Ok <==> transfer_ok(old(self).balances_map(), from, to, amount),
            r is Ok ==> final(self).balances_map() == apply_transfer(
                old(self).balances_map(),
                from,
                to,
                amount,
            ),
            r is Err ==> r == Err::<(), Error>(Error::ExternalTransferFailed) && *final(self)
                == *old(self),
    {
        let from_balance = self.store.balance_of(from);
        if amount < 0 || from_balance < amount {
            return Err(Error::ExternalTransferFailed);
        }
        if from != to {
            let to_balance = self.store.balance_of(to);
            proof {
                self.store.lemma_balance_in_range(to);
            }
            if to_balance > i128::MAX - amount {
                return Err(Error::ExternalTransferFailed);
            }
        }
        let debited = from_balance - amount;
        self.store.set_balance(from, debited);
        let to_balance_now = self.store.balance_of(to);
        let credited = to_balance_now + amount;
        self.store.set_balance(to, credited);
        proof {
            assert(self.store@ =~= apply_transfer(old(self).balances_map(), from, to, amount));
        }
        Ok(())
    }
}

/// One reported payment: a contributor and the amount transferred to them.
#[derive(Clone, Copy, Debug, PartialEq, Eq, Structural)]
pub struct PaymentEvent {
    pub contributor: u64,
    pub amount: i128,
}

/// The outcome of a fully successful distribution: the report tag the batch
/// was filed under and one event per payment made, in payment order.
#[derive(Debug)]
pub struct PaymentReceipt {
    pub report_id: String,
    pub payments: Vec<PaymentEvent>,
}

/// The batch-payment distributor. It holds no state of its own; it drives
/// the external token ledger it is handed.
pub struct PaymentContract;

impl PaymentContract {
    /// Pays each contributor its positionally-paired amount from `treasury`
    /// on the external ledger, in index order, skipping (silently and by
    /// design) every entry with a non-positive amount.
    ///
    /// Fails with [`Error::LengthMismatch`], before any transfer, when the
    /// two lists differ in length. Fails with
    /// [`Error::ExternalTransferFailed`] when the ledger refuses a transfer,
    /// and then no balance changes: payments already made are rolled back,
    /// reproducing the all-or-nothing invocation semantics. On success the
    /// receipt reports exactly the paid entries, in order.
    pub fn pay_contributors(
        ledger: &mut ExternalLedger,
        contributors: &Vec<u64>,
        amounts: &Vec<i128>,
        treasury: u64,
        report_id: String,
    ) -> (r: Result<PaymentReceipt, Error>)
        requires
            old(ledger).wf(),
        ensures
            final(ledger).wf(),
            contributors@.len() != amounts@.len() ==> r == Err::<PaymentReceipt, Error>(
                Error::LengthMismatch,
            ) && final(ledger).balances_map() == old(ledger).balances_map(),
            contributors@.len() == amounts@.len() ==> {
                let pairs = positive_pairs(contributors@, amounts@);
                let start = old(ledger).balances_map();
                &&& (r is Ok <==> batch_ok(start, treasury, pairs))
                &&& (r is Ok ==> final(ledger).balances_map() == apply_batch(
                    start,
                    treasury,
                    pairs,
                ) && r->Ok_0.payments@ == payment_events(pairs) && r->Ok_0.report_id@
                    == report_id@)
                &&& (r is Err ==> r == Err::<PaymentReceipt, Error>(Error::ExternalTransferFailed)
                    && final(ledger).balances_map() == start)
            },
    {
        let n = contributors.len();
        if n != amounts.len() {
            return Err(Error::LengthMismatch);
        }
        let ghost start = ledger.balances_map();
        let backup = ledger.duplicate();
        let mut payments: Vec<PaymentEvent> = Vec::new();
        let mut i: usize = 0;
        proof {
            assert(contributors@.take(0) =~= Seq::<u64>::empty());
            assert(amounts@.take(0) =~= Seq::<i128>::empty());
        }
        while i < n
            invariant
                i <= n,
                n == contributors@.len(),
                n == amounts@.len(),
                ledger.wf(),
                backup.wf(),
                start == old(ledger).balances_map(),
                backup.balances_map() == start,
                batch_ok(
                    start,
                    treasury,
                    positive_pairs(contributors@.take(i as int), amounts@.take(i as int)),
                ),
                ledger.balances_map() == apply_batch(
                    start,
                    treasury,
                    positive_pairs(contributors@.take(i as int), amounts@.take(i as int)),
                ),
                payments@ == payment_events(
                    positive_pairs(contributors@.take(i as int), amounts@.take(i as int)),
                ),
            decreases n - i,
        {
            let ghost done = positive_pairs(contributors@.take(i as int), amounts@.take(i as int));
            let contributor = contributors[i];
            let amount = amounts[i];
            proof {
                assert(contributors@.take(i as int + 1).drop_last() =~= contributors@.take(
                    i as int,
                ));
                assert(amounts@.take(i as int + 1).drop_last() =~= amounts@.take(i as int));
                assert(contributors@.take(i as int + 1).last() == contributor);
                assert(amounts@.take(i as int + 1).last() == amount);
            }
            if amount > 0 {
                let ghost p = (contributor, amount);
                let ghost here = ledger.balances_map();
                match ledger.transfer(treasury, contributor, amount) {
                    Ok(_) => {
                        payments.push(PaymentEvent { contributor, amount });
                        proof {
                            assert(positive_pairs(
                                contributors@.take(i as int + 1),
                                amounts@.take(i as int + 1),
                            ) == done.push(p));
                            assert(done.push(p).drop_last() =~= done);
                            assert(done.push(p).last() == p);
                            assert(batch_ok(start, treasury, done.push(p)));
                            assert(ledger.balances_map() == apply_batch(
                                start,
                                treasury,
                                done.push(p),
                            ));
                            assert(payments@ =~= payment_events(done.push(p)));
                        }
                    },
                    Err(_) => {
                        proof {
                            assert(!transfer_ok(here, treasury, contributor, amount));
                            let cs_head = contributors@.take(i as int + 1);
                            let as_head = amounts@.take(i as int + 1);
                            let cs_tail = contributors@.skip(i as int + 1);
                            let as_tail = amounts@.skip(i as int + 1);
                            assert(contributors@ =~= cs_head + cs_tail);
                            assert(amounts@ =~= as_head + as_tail);
                            lemma_positive_pairs_concat(cs_head, as_head, cs_tail, as_tail);
                            assert(positive_pairs(cs_head, as_head) == done.push(p));
                            assert(done.push(p).drop_last() =~= done);
                            assert(done.push(p).last() == p);
                            assert(!batch_ok(start, treasury, done.push(p)));
                            lemma_batch_concat(
                                start,
                                treasury,
                                done.push(p),
                                positive_pairs(cs_tail, as_tail),
                            );
                            assert(!batch_ok(
                                start,
                                treasury,
                                positive_pairs(contributors@, amounts@),
                            ));
                        }
                        *ledger = backup;
                        return Err(Error::ExternalTransferFailed);
                    },
                }
            } else {
                proof {
                    assert(positive_pairs(
                        contributors@.take(i as int + 1),
                        amounts@.take(i as int + 1),
                    ) == done);
                }
            }
            i = i + 1;
        }
        proof {
            assert(contributors@.take(n as int) =~= contributors@);
            assert(amounts@.take(n as int) =~= amounts@);
        }
        Ok(PaymentReceipt { report_id, payments })
    }

    /// The balance of `address` on the external ledger: a pure pass-through
    /// query with no local state.
    pub fn get_balance(ledger: &ExternalLedger, address: u64) -> (r: i128)
        ensures
            r as int == ledger.balance_of(address),
    {
        ledger.balance(address)
    }
}

} // verus!
