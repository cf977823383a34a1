use vstd::pervasive::VecAdditionalExecFns;
use vstd::prelude::*;

verus! {

/// The balance that the entry list `s` assigns to account `id`: the value of
/// the entry carrying key `id`, or 0 when no entry carries that key.
pub open spec fn stored_balance(s: Seq<(u64, i128)>, id: u64) -> i128
    decreases s.len(),
{
    if s.len() == 0 {
        0
    } else if s.last().0 == id {
        s.last().1
    } else {
        stored_balance(s.drop_last(), id)
    }
}

/// No two entries carry the same account id.
pub open spec fn distinct_keys(s: Seq<(u64, i128)>) -> bool {
    forall|i: int, j: int| 0 <= i < j < s.len() ==> s[i].0 != s[j].0
}

/// A per-account balance repository: each account id maps to a signed 128-bit
/// balance, and an account that has never been written holds 0.
///
/// Abstractly the store is a total map from account id to balance, available
/// as its view; every stored balance fits in `i128`.
pub struct BalanceStore {
    entries: Vec<(u64, i128)>,
}

impl View for BalanceStore {
    type V = Map<u64, int>;

    closed spec fn view(&self) -> Map<u64, int> {
        Map::new(|k: u64| true, |k: u64| stored_balance(self.entries@, k) as int)
    }
}

proof fn lemma_distinct_drop_last(s: Seq<(u64, i128)>)
    requires
        distinct_keys(s),
        s.len() > 0,
    ensures
        distinct_keys(s.drop_last()),
{
    assert forall|i: int, j: int| 0 <= i < j < s.drop_last().len() implies s.drop_last()[i].0
        != s.drop_last()[j].0 by {
        assert(s.drop_last()[i] == s[i]);
        assert(s.drop_last()[j] == s[j]);
    }
}

/// With distinct keys, rewriting the entry at position `i` (keeping its key
/// `id`) moves the stored balance of `id` to the new value and leaves every
/// other account untouched.
proof fn lemma_stored_balance_update(s: Seq<(u64, i128)>, i: int, id: u64, v: i128, k: u64)
    requires
        distinct_keys(s),
        0 <= i < s.len(),
        s[i].0 == id,
    ensures
        stored_balance(s.update(i, (id, v)), k) == if k == id {
            v
        } else {
            stored_balance(s, k)
        },
    decreases s.len(),
{
    let t = s.update(i, (id, v));
    if i == s.len() - 1 {
        assert(t.last() == (id, v));
        if k != id {
            assert(t.drop_last() =~= s.drop_last());
        }
    } else {
        assert(t.last() == s.last());
        assert(t.drop_last() =~= s.drop_last().update(i, (id, v)));
        lemma_distinct_drop_last(s);
        assert(s.drop_last()[i] == s[i]);
        if s.last().0 == k {
            assert(s[i].0 != s[s.len() - 1].0);
        } else {
            lemma_stored_balance_update(s.drop_last(), i, id, v, k);
        }
    }
}

/// Appending an entry for `id` sets the stored balance of `id` and leaves
/// every other account untouched.
proof fn lemma_stored_balance_push(s: Seq<(u64, i128)>, id: u64, v: i128, k: u64)
    ensures
        stored_balance(s.push((id, v)), k) == if k == id {
            v
        } else {
            stored_balance(s, k)
        },
{
    let t = s.push((id, v));
    assert(t.last() == (id, v));
    assert(t.drop_last() =~= s);
}

impl BalanceStore {
    /// Every entry key is distinct, so one account has one balance.
    pub closed spec fn wf(self) -> bool {
        distinct_keys(self.entries@)
    }

    /// An empty store: every account holds 0.
    pub fn new() -> (r: BalanceStore)
        ensures
            r.wf(),
            forall|k: u64| r@[k] == 0,
    {
        let r = BalanceStore { entries: Vec::new() };
        proof {
            assert(forall|k: u64| stored_balance(r.entries@, k) == 0);
        }
        r
    }

    /// Every balance held by the store fits in a signed 128-bit integer.
    pub proof fn lemma_balance_in_range(self, k: u64)
        ensures
            i128::MIN <= self@[k] <= i128::MAX,
    {
    }

    /// The balance of `id`, 0 when no entry exists for it.
    pub fn balance_of(&self, id: u64) -> (r: i128)
        ensures
            r as int == self@[id],
    {
        let n = self.entries.len();
        let mut j: usize = n;
        proof {
            assert(self.entries@.take(n as int) =~= self.entries@);
        }
        while j > 0
            invariant
                j <= n,
                n == self.entries@.len(),
                stored_balance(self.entries@, id) == stored_balance(
                    self.entries@.take(j as int),
                    id,
                ),
            decreases j,
        {
            let e = self.entries[j - 1];
            proof {
                assert(self.entries@.take(j as int).last() == e);
                assert(self.entries@.take(j as int).drop_last() =~= self.entries@.take(
                    j as int - 1,
                ));
            }
            if e.0 == id {
                return e.1;
            }
            j = j - 1;
        }
        0
    }

    /// Writes `value` as the balance of `id`, replacing an existing entry or
    /// appending a fresh one; no other account changes.
    pub fn set_balance(&mut self, id: u64, value: i128)
        requires
            old(self).wf(),
        ensures
            final(self).wf(),
            final(self)@ == old(self)@.insert(id, value as int),
    {
        let n = self.entries.len();
        let mut i: usize = 0;
        while i < n
            invariant
                i <= n,
                n == self.entries@.len(),
                self.entries@ == old(self).entries@,
                distinct_keys(old(self).entries@),
                forall|m: int| 0 <= m < i ==> self.entries@[m].0 != id,
            decreases n - i,
        {
            if self.entries[i].0 == id {
                self.entries.set(i, (id, value));
                proof {
                    assert forall|k: u64|
                        stored_balance(self.entries@, k) == if k == id {
                            value
                        } else {
                            stored_balance(old(self).entries@, k)
                        } by {
                        lemma_stored_balance_update(old(self).entries@, i as int, id, value, k);
                    }
                    assert forall|a: int, b: int|
                        0 <= a < b < self.entries@.len() implies self.entries@[a].0
                        != self.entries@[b].0 by {
                        assert(self.entries@[a].0 == old(self).entries@[a].0);
                        assert(self.entries@[b].0 == old(self).entries@[b].0);
                    }
                    assert(self@ =~= old(self)@.insert(id, value as int));
                }
                return ;
            }
            i = i + 1;
        }
        self.entries.push((id, value));
        proof {
            assert forall|k: u64|
                stored_balance(self.entries@, k) == if k == id {
                    value
                } else {
                    stored_balance(old(self).entries@, k)
                } by {
                lemma_stored_balance_push(old(self).entries@, id, value, k);
            }
            assert forall|a: int, b: int|
                0 <= a < b < self.entries@.len() implies self.entries@[a].0
                != self.entries@[b].0 by {
                if b < self.entries@.len() - 1 {
                    assert(self.entries@[a] == old(self).entries@[a]);
                    assert(self.entries@[b] == old(self).entries@[b]);
                } else {
                    assert(self.entries@[a] == old(self).entries@[a]);
                    assert(self.entries@[b].0 == id);
                }
            }
            assert(self@ =~= old(self)@.insert(id, value as int));
        }
    }

    /// An independent copy holding exactly the same balances.
    pub fn duplicate(&self) -> (r: BalanceStore)
        ensures
            r@ == self@,
            r.wf() == self.wf(),
    {
        let n = self.entries.len();
        let mut v: Vec<(u64, i128)> = Vec::new();
        let mut i: usize = 0;
        while i < n
            invariant
                i <= n,
                n == self.entries@.len(),
                v@ == self.entries@.take(i as int),
            decreases n - i,
        {
            v.push(self.entries[i]);
            proof {
                assert(self.entries@.take(i as int + 1) =~= self.entries@.take(i as int).push(
                    self.entries@[i as int],
                ));
            }
            i = i + 1;
        }
        proof {
            assert(v@ =~= self.entries@);
        }
        let r = BalanceStore { entries: v };
        proof {
            assert(r@ =~= self@);
        }
        r
    }
}

} // verus!
