//! The escrow ledger, which holds what each depositor has staked of each
//! token and not yet spent, and the pool of commission that the platform has
//! accrued of each token.

use vstd::prelude::*;
use crate::types::Error;

verus! {

/// What one depositor holds in escrow of one token.
#[derive(Debug)]
pub struct StakeEntry {
    pub depositor: String,
    pub token: String,
    pub balance: u128,
}

/// The pair of depositor and token that the entry at `i` is filed under.
pub open spec fn stake_key(entries: Seq<StakeEntry>, i: int) -> (Seq<char>, Seq<char>) {
    (entries[i].depositor@, entries[i].token@)
}

/// The escrow ledger. Its view maps a pair of depositor and token to the
/// balance in escrow; a pair that never received a deposit is not in the map.
#[derive(Debug)]
pub struct EscrowLedger {
    pub entries: Vec<StakeEntry>,
}

impl View for EscrowLedger {
    type V = Map<(Seq<char>, Seq<char>), u128>;

    open spec fn view(&self) -> Map<(Seq<char>, Seq<char>), u128> {
        let entries = self.entries@;
        Map::new(
            |k: (Seq<char>, Seq<char>)|
                exists|i: int| 0 <= i < entries.len() && stake_key(entries, i) == k,
            |k: (Seq<char>, Seq<char>)|
                entries[choose|i: int| 0 <= i < entries.len() && stake_key(entries, i) == k].balance,
        )
    }
}

impl EscrowLedger {
    /// No pair of depositor and token is filed twice.
    pub open spec fn wf(&self) -> bool {
        forall|i: int, j: int|
            0 <= i < j < self.entries@.len() ==> stake_key(self.entries@, i) != stake_key(
                self.entries@,
                j,
            )
    }

    /// The balance of a pair, zero where it never received a deposit.
    pub open spec fn balance_or_zero(&self, depositor: Seq<char>, token: Seq<char>) -> u128 {
        if self@.contains_key((depositor, token)) {
            self@[(depositor, token)]
        } else {
            0
        }
    }

    /// The ledger in which nobody holds anything.
    pub fn new() -> (r: EscrowLedger)
        ensures
            r.wf(),
            r@ == Map::<(Seq<char>, Seq<char>), u128>::empty(),
    {
        let r = EscrowLedger { entries: Vec::new() };
        assert(r@ =~= Map::<(Seq<char>, Seq<char>), u128>::empty());
        r
    }

    /// Decides `wf`.
    pub fn check_wf(&self) -> (r: bool)
        ensures
            r == self.wf(),
    {
        let n: usize = self.entries.len();
        let mut j: usize = 0;
        while j < n
            invariant
                j <= n,
                n == self.entries@.len(),
                forall|a: int, b: int|
                    0 <= a < b < j ==> stake_key(self.entries@, a) != stake_key(self.entries@, b),
            decreases n - j,
        {
            let mut i: usize = 0;
            while i < j
                invariant
                    i <= j < n,
                    n == self.entries@.len(),
                    forall|a: int|
                        0 <= a < i ==> stake_key(self.entries@, a) != stake_key(
                            self.entries@,
                            j as int,
                        ),
                decreases j - i,
            {
                if self.entries[i].depositor == self.entries[j].depositor && self.entries[i].token
                    == self.entries[j].token {
                    assert(stake_key(self.entries@, i as int) == stake_key(
                        self.entries@,
                        j as int,
                    ));
                    return false;
                }
                i = i + 1;
            }
            j = j + 1;
        }
        true
    }

    fn find(&self, depositor: &String, token: &String) -> (r: Option<usize>)
        ensures
            match r {
                Some(i) => i < self.entries@.len() && stake_key(self.entries@, i as int) == (
                    depositor@,
                    token@,
                ),
                None => forall|i: int|
                    0 <= i < self.entries@.len() ==> stake_key(self.entries@, i) != (
                        depositor@,
                        token@,
                    ),
            },
    {
        let mut i: usize = 0;
        while i < self.entries.len()
            invariant
                i <= self.entries@.len(),
                forall|j: int|
                    0 <= j < i ==> stake_key(self.entries@, j) != (depositor@, token@),
            decreases self.entries@.len() - i,
        {
            if self.entries[i].depositor == *depositor && self.entries[i].token == *token {
                return Some(i);
            }
            i = i + 1;
        }
        None
    }

    /// The balance that `depositor` holds of `token`, if a deposit was ever made.
    pub fn balance(&self, depositor: &String, token: &String) -> (r: Option<u128>)
        requires
            self.wf(),
        ensures
            r == (if self@.contains_key((depositor@, token@)) {
                Some(self@[(depositor@, token@)])
            } else {
                None
            }),
    {
        match self.find(depositor, token) {
            Some(i) => {
                assert(stake_key(self.entries@, i as int) == (depositor@, token@));
                Some(self.entries[i].balance)
            },
            None => None,
        }
    }

    /// Credits `amount` of `token` to `depositor`. Refused, with nothing
    /// changed, only where the new balance would not fit.
    pub fn deposit(&mut self, depositor: &String, token: &String, amount: u128) -> (r: Result<
        (),
        Error,
    >)
        requires
            old(self).wf(),
        ensures
            final(self).wf(),
            match r {
                Ok(_) => {
                    &&& old(self).balance_or_zero(depositor@, token@) + amount <= u128::MAX
                    &&& final(self)@ == old(self)@.insert(
                        (depositor@, token@),
                        (old(self).balance_or_zero(depositor@, token@) + amount) as u128,
                    )
                },
                Err(e) => {
                    &&& e == Error::Overflow
                    &&& old(self).balance_or_zero(depositor@, token@) + amount > u128::MAX
                    &&& *final(self) == *old(self)
                },
            },
    {
        let ghost k = (depositor@, token@);
        match self.find(depositor, token) {
            Some(i) => {
                assert(stake_key(self.entries@, i as int) == k);
                let current: u128 = self.entries[i].balance;
                if current > u128::MAX - amount {
                    return Err(Error::Overflow);
                }
                let ghost before = self.entries@;
                self.entries[i].balance = current + amount;
                proof {
                    let after = self.entries@;
                    assert(forall|j: int|
                        0 <= j < after.len() ==> stake_key(after, j) == stake_key(before, j));
                    assert(stake_key(after, i as int) == k);
                    assert(final(self)@ =~= old(self)@.insert(k, (current + amount) as u128));
                }
                Ok(())
            },
            None => {
                let ghost before = self.entries@;
                self.entries.push(
                    StakeEntry {
                        depositor: depositor.clone(),
                        token: token.clone(),
                        balance: amount,
                    },
                );
                proof {
                    let after = self.entries@;
                    let n = before.len() as int;
                    assert(forall|j: int|
                        0 <= j < n ==> stake_key(after, j) == stake_key(before, j));
                    assert(stake_key(after, n) == k);
                    assert(!old(self)@.contains_key(k));
                    assert(final(self)@ =~= old(self)@.insert(k, amount));
                }
                Ok(())
            },
        }
    }

    /// Sweeps what `depositor` holds of `token`: where a deposit was made and
    /// the balance is at least `required_minimum`, the whole balance is
    /// returned and the balance left is zero. Otherwise nothing changes.
    pub fn consume(&mut self, depositor: &String, token: &String, required_minimum: u128) -> (r:
        Result<u128, Error>)
        requires
            old(self).wf(),
        ensures
            final(self).wf(),
            match r {
                Ok(swept) => {
                    &&& old(self)@.contains_key((depositor@, token@))
                    &&& swept == old(self)@[(depositor@, token@)]
                    &&& swept >= required_minimum
                    &&& final(self)@ == old(self)@.insert((depositor@, token@), 0)
                },
                Err(e) => {
                    &&& e == Error::InsufficientStake
                    &&& (!old(self)@.contains_key((depositor@, token@)) || old(self)@[(
                        depositor@,
                        token@,
                    )] < required_minimum)
                    &&& *final(self) == *old(self)
                },
            },
    {
        let ghost k = (depositor@, token@);
        match self.find(depositor, token) {
            Some(i) => {
                assert(stake_key(self.entries@, i as int) == k);
                let current: u128 = self.entries[i].balance;
                if current < required_minimum {
                    return Err(Error::InsufficientStake);
                }
                let ghost before = self.entries@;
                self.entries[i].balance = 0;
                proof {
                    let after = self.entries@;
                    assert(forall|j: int|
                        0 <= j < after.len() ==> stake_key(after, j) == stake_key(before, j));
                    assert(stake_key(after, i as int) == k);
                    assert(final(self)@ =~= old(self)@.insert(k, 0));
                }
                Ok(current)
            },
            None => Err(Error::InsufficientStake),
        }
    }
}

/// What the platform has accrued of one token.
#[derive(Debug)]
pub struct PoolEntry {
    pub token: String,
    pub amount: u128,
}

/// The token that the entry at `i` is filed under.
pub open spec fn pool_key(entries: Seq<PoolEntry>, i: int) -> Seq<char> {
    entries[i].token@
}

/// The commission pool. Its view maps a token to the amount accrued of it; a
/// token of which nothing was ever accrued is not in the map.
#[derive(Debug)]
pub struct CommissionPool {
    pub entries: Vec<PoolEntry>,
}

impl View for CommissionPool {
    type V = Map<Seq<char>, u128>;

    open spec fn view(&self) -> Map<Seq<char>, u128> {
        let entries = self.entries@;
        Map::new(
            |k: Seq<char>| exists|i: int| 0 <= i < entries.len() && pool_key(entries, i) == k,
            |k: Seq<char>|
                entries[choose|i: int| 0 <= i < entries.len() && pool_key(entries, i) == k].amount,
        )
    }
}

/// The amount that a pool map holds of a token, zero where it has none.
pub open spec fn accrued_in(pool: Map<Seq<char>, u128>, token: Seq<char>) -> u128 {
    if pool.contains_key(token) {
        pool[token]
    } else {
        0
    }
}

impl CommissionPool {
    /// No token is filed twice.
    pub open spec fn wf(&self) -> bool {
        forall|i: int, j: int|
            0 <= i < j < self.entries@.len() ==> pool_key(self.entries@, i) != pool_key(
                self.entries@,
                j,
            )
    }

    /// The pool that holds nothing.
    pub fn new() -> (r: CommissionPool)
        ensures
            r.wf(),
            r@ == Map::<Seq<char>, u128>::empty(),
    {
        let r = CommissionPool { entries: Vec::new() };
        assert(r@ =~= Map::<Seq<char>, u128>::empty());
        r
    }

    /// Decides `wf`.
    pub fn check_wf(&self) -> (r: bool)
        ensures
            r == self.wf(),
    {
        let n: usize = self.entries.len();
        let mut j: usize = 0;
        while j < n
            invariant
                j <= n,
                n == self.entries@.len(),
                forall|a: int, b: int|
                    0 <= a < b < j ==> pool_key(self.entries@, a) != pool_key(self.entries@, b),
            decreases n - j,
        {
            let mut i: usize = 0;
            while i < j
                invariant
                    i <= j < n,
                    n == self.entries@.len(),
                    forall|a: int|
                        0 <= a < i ==> pool_key(self.entries@, a) != pool_key(
                            self.entries@,
                            j as int,
                        ),
                decreases j - i,
            {
                if self.entries[i].token == self.entries[j].token {
                    assert(pool_key(self.entries@, i as int) == pool_key(self.entries@, j as int));
                    return false;
                }
                i = i + 1;
            }
            j = j + 1;
        }
        true
    }

    fn find(&self, token: &String) -> (r: Option<usize>)
        ensures
            match r {
                Some(i) => i < self.entries@.len() && pool_key(self.entries@, i as int) == token@,
                None => forall|i: int|
                    0 <= i < self.entries@.len() ==> pool_key(self.entries@, i) != token@,
            },
    {
        let mut i: usize = 0;
        while i < self.entries.len()
            invariant
                i <= self.entries@.len(),
                forall|j: int| 0 <= j < i ==> pool_key(self.entries@, j) != token@,
            decreases self.entries@.len() - i,
        {
            if self.entries[i].token == *token {
                return Some(i);
            }
            i = i + 1;
        }
        None
    }

    /// The amount accrued of `token`, zero where nothing ever was.
    pub fn accrued(&self, token: &String) -> (r: u128)
        requires
            self.wf(),
        ensures
            r == accrued_in(self@, token@),
    {
        match self.find(token) {
            Some(i) => {
                assert(pool_key(self.entries@, i as int) == token@);
                self.entries[i].amount
            },
            None => 0,
        }
    }

    /// Adds `amount` to what is accrued of `token`. Refused, with nothing
    /// changed, only where the sum would not fit.
    pub fn accrue(&mut self, token: &String, amount: u128) -> (r: Result<(), Error>)
        requires
            old(self).wf(),
        ensures
            final(self).wf(),
            match r {
                Ok(_) => {
                    &&& accrued_in(old(self)@, token@) + amount <= u128::MAX
                    &&& final(self)@ == old(self)@.insert(
                        token@,
                        (accrued_in(old(self)@, token@) + amount) as u128,
                    )
                },
                Err(e) => {
                    &&& e == Error::Overflow
                    &&& accrued_in(old(self)@, token@) + amount > u128::MAX
                    &&& *final(self) == *old(self)
                },
            },
    {
        let ghost k = token@;
        match self.find(token) {
            Some(i) => {
                assert(pool_key(self.entries@, i as int) == k);
                let current: u128 = self.entries[i].amount;
                if current > u128::MAX - amount {
                    return Err(Error::Overflow);
                }
                let ghost before = self.entries@;
                self.entries[i].amount = current + amount;
                proof {
                    let after = self.entries@;
                    assert(forall|j: int|
                        0 <= j < after.len() ==> pool_key(after, j) == pool_key(before, j));
                    assert(pool_key(after, i as int) == k);
                    assert(final(self)@ =~= old(self)@.insert(k, (current + amount) as u128));
                }
                Ok(())
            },
            None => {
                let ghost before = self.entries@;
                self.entries.push(PoolEntry { token: token.clone(), amount });
                proof {
                    let after = self.entries@;
                    let n = before.len() as int;
                    assert(forall|j: int|
                        0 <= j < n ==> pool_key(after, j) == pool_key(before, j));
                    assert(pool_key(after, n) == k);
                    assert(!old(self)@.contains_key(k));
                    assert(final(self)@ =~= old(self)@.insert(k, amount));
                }
                Ok(())
            },
        }
    }
}

} // verus!
