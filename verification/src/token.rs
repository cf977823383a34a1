use crate::errors::Error;
use crate::store::BalanceStore;
use vstd::prelude::*;

verus! {

/// The balance map after minting each amount of `amounts` to `a` in order,
/// starting from the balances `m`.
pub open spec fn apply_mints(m: Map<u64, int>, a: u64, amounts: Seq<i128>) -> Map<u64, int>
    decreases amounts.len(),
{
    if amounts.len() == 0 {
        m
    } else {
        let prev = apply_mints(m, a, amounts.drop_last());
        prev.insert(a, prev[a] + amounts.last())
    }
}

/// The sum of a sequence of amounts.
pub open spec fn sum_of(amounts: Seq<i128>) -> int
    decreases amounts.len(),
{
    if amounts.len() == 0 {
        0
    } else {
        sum_of(amounts.drop_last()) + amounts.last()
    }
}

/// The per-account ledger of the internal credit type.
///
/// Abstractly a total map from account id to balance, available as
/// [`Self::balances`]; an account that was never minted to holds 0. Mutated
/// only by [`Self::mint`] and [`Self::transfer`].
pub struct BioCreditToken {
    balances: BalanceStore,
}

impl BioCreditToken {
    /// The store behind the ledger keeps one balance per account.
    pub closed spec fn wf(self) -> bool {
        self.balances.wf()
    }

    /// The current balance of every account.
    pub closed spec fn balances(self) -> Map<u64, int> {
        self.balances@
    }

    /// The current balance of one account.
    pub open spec fn balance_of(self, a: u64) -> int {
        self.balances()[a]
    }

    /// A fresh ledger: no account was ever minted to, so every balance is 0.
    pub fn new() -> (r: BioCreditToken)
        ensures
            r.wf(),
            forall|a: u64| #[trigger] r.balances()[a] == 0,
    {
        BioCreditToken { balances: BalanceStore::new() }
    }

    /// Every balance of the ledger fits in a signed 128-bit integer.
    pub proof fn lemma_balance_in_range(self, a: u64)
        ensures
            i128::MIN <= self.balance_of(a) <= i128::MAX,
    {
        self.balances.lemma_balance_in_range(a);
    }

    /// Adds `amount` to the balance of `to` (0 before the first mint) and
    /// returns the new balance of `to`. No other account changes.
    ///
    /// Any amount the type accepts is allowed, including 0 and negative
    /// values; only a sum that leaves the 128-bit range is excluded, since
    /// the ledger refuses to store an overflowed balance.
    pub fn mint(&mut self, to: u64, amount: i128) -> (r: i128)
        requires
            old(self).wf(),
            i128::MIN <= old(self).balance_of(to) + amount <= i128::MAX,
        ensures
            final(self).wf(),
            r as int == old(self).balance_of(to) + amount,
            final(self).balances() == old(self).balances().insert(
                to,
                old(self).balance_of(to) + amount,
            ),
            final(self).balances() == apply_mints(old(self).balances(), to, seq![amount]),
            forall|k: u64| k != to ==> final(self).balance_of(k) == old(self).balance_of(k),
    {
        let current_balance = self.balances.balance_of(to);
        let new_balance = current_balance + amount;
        self.balances.set_balance(to, new_balance);
        proof {
            let s1 = seq![amount];
            assert(s1.drop_last() =~= Seq::<i128>::empty());
            assert(apply_mints(old(self).balances(), to, Seq::<i128>::empty()) == old(
                self,
            ).balances());
            assert(apply_mints(old(self).balances(), to, s1) == old(self).balances().insert(
                to,
                old(self).balances()[to] + amount,
            ));
        }
        new_balance
    }

    /// The balance of `address`; 0 if no entry exists. No side effects.
    pub fn balance(&self, address: u64) -> (r: i128)
        ensures
            r as int == self.balance_of(address),
    {
        self.balances.balance_of(address)
    }

    /// Moves `amount` from `from` to `to` and returns the sender's balance
    /// as it stands after the debit.
    ///
    /// Fails with [`Error::InsufficientBalance`], changing nothing, exactly
    /// when the sender's balance is strictly below `amount`. Otherwise the
    /// debit and the credit are both written, in that order, even when
    /// `from == to` (where their net effect is zero). Amounts whose debit or
    /// credit would leave the 128-bit range are excluded up front.
    pub fn transfer(&mut self, from: u64, to: u64, amount: i128) -> (r: Result<i128, Error>)
        requires
            old(self).wf(),
            old(self).balance_of(from) >= amount ==> i128::MIN <= old(self).balance_of(from)
                - amount <= i128::MAX,
            old(self).balance_of(from) >= amount && from != to ==> i128::MIN <= old(
                self,
            ).balance_of(to) + amount <= i128::MAX,
        ensures
            final(self).wf(),
            r is Err <==> old(self).balance_of(from) < amount,
            r is Err ==> r == Err::<i128, Error>(Error::InsufficientBalance) && *final(self)
                == *old(self),
            r is Ok ==> r->Ok_0 as int == old(self).balance_of(from) - amount,
            r is Ok ==> final(self).balances() == old(self).balances().insert(
                from,
                old(self).balance_of(from) - amount,
            ).insert(
                to,
                if from == to {
                    old(self).balance_of(from)
                } else {
                    old(self).balance_of(to) + amount
                },
            ),
            r is Ok && from != to ==> final(self).balance_of(from) == old(self).balance_of(from)
                - amount && final(self).balance_of(to) == old(self).balance_of(to) + amount,
            r is Ok && from == to ==> final(self).balance_of(from) == old(self).balance_of(from),
            forall|k: u64|
                k != from && k != to ==> final(self).balance_of(k) == old(self).balance_of(k),
    {
        let from_balance = self.balances.balance_of(from);
        if from_balance < amount {
            return Err(Error::InsufficientBalance);
        }
        let new_from_balance = from_balance - amount;
        self.balances.set_balance(from, new_from_balance);
        let to_balance = self.balances.balance_of(to);
        let new_to_balance = to_balance + amount;
        self.balances.set_balance(to, new_to_balance);
        Ok(new_from_balance)
    }

    /// Law: starting from balances `m`, minting the amounts of `amounts` to
    /// `a` one after the other leaves `a` with its starting balance plus the
    /// sum of all amounts minted, and every other account unchanged.
    pub proof fn lemma_mint_accumulates(m: Map<u64, int>, a: u64, amounts: Seq<i128>)
        ensures
            apply_mints(m, a, amounts)[a] == m[a] + sum_of(amounts),
            forall|k: u64| k != a ==> apply_mints(m, a, amounts)[k] == m[k],
        decreases amounts.len(),
    {
        if amounts.len() > 0 {
            Self::lemma_mint_accumulates(m, a, amounts.drop_last());
        }
    }
}

} // verus!
