use vstd::prelude::*;

use crate::ledger::{
    amount_of,
    assign,
    consolidate,
    credited,
    debited,
    holdings_of,
    lemma_amount_le_total,
    lemma_assign,
    lemma_consolidate,
    total_of,
    Ledger,
};

verus! {

/// A yield-bearing vault: its id and its annual rate in basis points.
pub struct Vault {
    pub id: String,
    pub apy: u64,
}

#[derive(Debug, Clone, Copy, PartialEq, Eq)]
pub enum GatewayError {
    /// A token debit exceeds the account's balance of that token.
    InsufficientBalance,
    /// A vault debit exceeds the account's allocation in that vault.
    InsufficientVaultAllocation,
    /// A credit would take an amount past `u128::MAX`.
    Overflow,
}

/// The audit record of one successful operation, for outside observers.
#[derive(Debug, Clone, PartialEq, Eq)]
pub enum Event {
    ImportToken { account: String, chain: String, token: String, amount: u128 },
    Deposit { account: String, vault: String, token: String, amount: u128 },
    Optimize { account: String, vault: String, amount: u128 },
    Withdraw { account: String, vault: String, amount: u128 },
    Swap { account: String, from_token: String, to_token: String, amount: u128 },
}

pub open spec fn vault_a() -> Seq<char> {
    "VAULT_A"@
}

pub open spec fn vault_b() -> Seq<char> {
    "VAULT_B"@
}

/// The home-chain asset that withdrawals pay out in.
pub open spec fn native_token() -> Seq<char> {
    "XLM"@
}

/// The wrapped stable asset that manual deposits route to vault A.
pub open spec fn primary_stable() -> Seq<char> {
    "wUSDC"@
}

/// The symbol under which an imported token is held.
pub open spec fn wrapped(token: Seq<char>) -> Seq<char> {
    "w"@ + token
}

/// Vault `i` has a positive rate, no vault has a higher one, and every vault
/// registered before it has a lower one.
pub open spec fn is_best_index(rates: Seq<(Seq<char>, u64)>, i: int) -> bool {
    &&& 0 <= i < rates.len()
    &&& rates[i].1 > 0
    &&& forall|j: int| 0 <= j < rates.len() ==> #[trigger] rates[j].1 <= rates[i].1
    &&& forall|j: int| 0 <= j < i ==> #[trigger] rates[j].1 < rates[i].1
}

/// The first registered vault with the highest rate; vault A when no vault
/// has a positive rate.
pub open spec fn best_vault_of(rates: Seq<(Seq<char>, u64)>) -> Seq<char> {
    if exists|i: int| is_best_index(rates, i) {
        rates[choose|i: int| is_best_index(rates, i)].0
    } else {
        vault_a()
    }
}

/// Where a manual deposit of `token` goes.
pub open spec fn manual_vault(token: Seq<char>) -> Seq<char> {
    if token == primary_stable() {
        vault_a()
    } else {
        vault_b()
    }
}

/// The gateway's whole state: the vault registry in registration order, the
/// token balances and the vault allocations of every account.
pub struct CrossChainYieldGateway {
    pub vaults: Vec<Vault>,
    pub balances: Ledger,
    pub allocations: Ledger,
}

impl CrossChainYieldGateway {
    pub open spec fn wf(&self) -> bool {
        self.balances.wf() && self.allocations.wf()
    }

    /// The registry as (vault id, rate) pairs.
    pub open spec fn rates(&self) -> Seq<(Seq<char>, u64)> {
        self.vaults@.map_values(|v: Vault| (v.id@, v.apy))
    }

    pub open spec fn best_vault(&self) -> Seq<char> {
        best_vault_of(self.rates())
    }

    pub open spec fn deposit_target(&self, token: Seq<char>, auto_optimize: bool) -> Seq<char> {
        if auto_optimize {
            self.best_vault()
        } else {
            manual_vault(token)
        }
    }

    /// What an account holds in tokens and in vaults together.
    pub open spec fn holdings_total(&self, account: Seq<char>) -> nat {
        total_of(self.balances@, account) + total_of(self.allocations@, account)
    }

    /// A gateway whose registry holds vault A at 500 and vault B at 700 basis
    /// points, with no balances or allocations.
    pub fn initialize() -> (r: Self)
        ensures
            r.wf(),
            r.rates() == seq![(vault_a(), 500u64), (vault_b(), 700u64)],
            r.balances@.len() == 0,
            r.allocations@.len() == 0,
    {
        let mut vaults: Vec<Vault> = Vec::new();
        vaults.push(Vault { id: String::from_str("VAULT_A"), apy: 500 });
        vaults.push(Vault { id: String::from_str("VAULT_B"), apy: 700 });
        let r = CrossChainYieldGateway { vaults, balances: Ledger::new(), allocations: Ledger::new() };
        assert(r.rates() =~= seq![(vault_a(), 500u64), (vault_b(), 700u64)]);
        r
    }

    /// Replaces the registry; the ledgers are kept.
    pub fn seed(&mut self, vaults: Vec<Vault>)
        ensures
            final(self).vaults == vaults,
            final(self).balances == old(self).balances,
            final(self).allocations == old(self).allocations,
    {
        self.vaults = vaults;
    }

    /// The vault with the highest rate, the first registered among equals;
    /// vault A when no vault has a positive rate.
    pub fn get_best_vault(&self) -> (r: String)
        ensures
            r@ == self.best_vault(),
    {
        let ghost rates = self.rates();
        let mut best: usize = 0;
        let mut max: u64 = 0;
        let mut found = false;
        let mut i: usize = 0;
        while i < self.vaults.len()
            invariant
                rates == self.rates(),
                rates.len() == self.vaults@.len(),
                i <= rates.len(),
                found ==> best < i && rates[best as int].1 == max && max > 0 && forall|j: int|
                    0 <= j < best ==> #[trigger] rates[j].1 < max,
                !found ==> max == 0,
                forall|j: int| 0 <= j < i ==> #[trigger] rates[j].1 <= max,
            decreases self.vaults.len() - i,
        {
            assert(rates[i as int] == (self.vaults@[i as int].id@, self.vaults@[i as int].apy));
            if self.vaults[i].apy > max {
                max = self.vaults[i].apy;
                best = i;
                found = true;
            }
            i += 1;
        }
        if found {
            assert(is_best_index(rates, best as int));
            assert forall|k: int| is_best_index(rates, k) implies k == best by {
                if k < best {
                    assert(rates[k].1 < rates[best as int].1);
                } else if k > best {
                    assert(rates[best as int].1 < rates[k].1);
                }
            }
            assert(rates[best as int].0 == self.vaults@[best as int].id@);
            self.vaults[best].id.clone()
        } else {
            assert forall|k: int| !is_best_index(rates, k) by {
                if 0 <= k < rates.len() {
                    assert(rates[k].1 <= max);
                }
            }
            String::from_str("VAULT_A")
        }
    }

    /// Sets `user`'s balance of the wrapped form of `token` to `amount`,
    /// overwriting what was there.
    pub fn import_token(&mut self, user: &String, chain: &String, token: &String, amount: u128) -> (r:
        Event)
        requires
            old(self).wf(),
        ensures
            final(self).wf(),
            final(self).vaults == old(self).vaults,
            final(self).allocations == old(self).allocations,
            final(self).balances@ == assign(old(self).balances@, user@, wrapped(token@), amount as nat),
            final(self).holdings_total(user@) == old(self).holdings_total(user@) - amount_of(
                old(self).balances@,
                user@,
                wrapped(token@),
            ) + amount,
            match r {
                Event::ImportToken { account, chain: c, token: t, amount: a } => account@ == user@
                    && c@ == chain@ && t@ == token@ && a == amount,
                _ => false,
            },
    {
        let w = String::from_str("w").concat(token.as_str());
        proof {
            lemma_assign(self.balances@, user@, w@, amount as nat);
        }
        self.balances.set(user, &w, amount);
        Event::ImportToken { account: user.clone(), chain: chain.clone(), token: token.clone(), amount }
    }

    /// Moves `amount` of `token` from `user`'s balance into a vault: the best
    /// one when `auto_optimize` is set, else the one the token routes to.
    pub fn deposit(&mut self, user: &String, token: &String, amount: u128, auto_optimize: bool) -> (r:
        Result<Event, GatewayError>)
        requires
            old(self).wf(),
        ensures
            final(self).wf(),
            final(self).vaults == old(self).vaults,
            (r == Err::<Event, GatewayError>(GatewayError::InsufficientBalance)) <==> amount_of(
                old(self).balances@,
                user@,
                token@,
            ) < amount,
            (r == Err::<Event, GatewayError>(GatewayError::Overflow)) <==> (amount_of(
                old(self).balances@,
                user@,
                token@,
            ) >= amount && amount_of(
                old(self).allocations@,
                user@,
                old(self).deposit_target(token@, auto_optimize),
            ) + amount > u128::MAX),
            r is Err ==> *final(self) == *old(self),
            r is Ok ==> final(self).balances@ == debited(
                old(self).balances@,
                user@,
                token@,
                amount as nat,
            ) && final(self).allocations@ == credited(
                old(self).allocations@,
                user@,
                old(self).deposit_target(token@, auto_optimize),
                amount as nat,
            ),
            final(self).holdings_total(user@) == old(self).holdings_total(user@),
            match r {
                Ok(Event::Deposit { account, vault, token: t, amount: a }) => account@ == user@
                    && vault@ == old(self).deposit_target(token@, auto_optimize) && t@ == token@ && a
                    == amount,
                Ok(_) => false,
                Err(e) => e != GatewayError::InsufficientVaultAllocation,
            },
    {
        let bal = self.balances.get(user, token);
        if bal < amount {
            return Err(GatewayError::InsufficientBalance);
        }
        let vault = if auto_optimize {
            self.get_best_vault()
        } else if *token == String::from_str("wUSDC") {
            String::from_str("VAULT_A")
        } else {
            String::from_str("VAULT_B")
        };
        let cur = self.allocations.get(user, &vault);
        if cur > u128::MAX - amount {
            return Err(GatewayError::Overflow);
        }
        proof {
            lemma_assign(self.balances@, user@, token@, (bal - amount) as nat);
            lemma_assign(self.allocations@, user@, vault@, (cur + amount) as nat);
        }
        self.balances.set(user, token, bal - amount);
        self.allocations.set(user, &vault, cur + amount);
        Ok(Event::Deposit { account: user.clone(), vault, token: token.clone(), amount })
    }

    /// Gathers all of `user`'s allocations into the best vault; the event
    /// carries the amount that came from the other vaults.
    pub fn optimize(&mut self, user: &String) -> (r: Result<Event, GatewayError>)
        requires
            old(self).wf(),
        ensures
            final(self).wf(),
            final(self).vaults == old(self).vaults,
            final(self).balances == old(self).balances,
            (r == Err::<Event, GatewayError>(GatewayError::Overflow)) <==> total_of(
                old(self).allocations@,
                user@,
            ) > u128::MAX,
            r is Err ==> *final(self) == *old(self),
            r is Ok ==> final(self).allocations@ == consolidate(
                old(self).allocations@,
                user@,
                old(self).best_vault(),
            ),
            total_of(final(self).allocations@, user@) == total_of(old(self).allocations@, user@),
            match r {
                Ok(Event::Optimize { account, vault, amount }) => account@ == user@ && vault@ == old(
                    self,
                ).best_vault() && amount == total_of(old(self).allocations@, user@) - amount_of(
                    old(self).allocations@,
                    user@,
                    old(self).best_vault(),
                ),
                Ok(_) => false,
                Err(e) => e == GatewayError::Overflow,
            },
    {
        let best = self.get_best_vault();
        let base = self.allocations.get(user, &best);
        proof {
            lemma_amount_le_total(self.allocations@, user@, best@);
            lemma_consolidate(self.allocations@, user@, best@);
        }
        match self.allocations.consolidate(user, &best) {
            Some(total) => Ok(Event::Optimize { account: user.clone(), vault: best, amount: total - base }),
            None => Err(GatewayError::Overflow),
        }
    }

    /// Moves `amount` out of `user`'s allocation in `vault` into the user's
    /// balance of the native token.
    pub fn withdraw(&mut self, user: &String, vault: &String, amount: u128) -> (r: Result<
        Event,
        GatewayError,
    >)
        requires
            old(self).wf(),
        ensures
            final(self).wf(),
            final(self).vaults == old(self).vaults,
            (r == Err::<Event, GatewayError>(GatewayError::InsufficientVaultAllocation))
                <==> amount_of(old(self).allocations@, user@, vault@) < amount,
            (r == Err::<Event, GatewayError>(GatewayError::Overflow)) <==> (amount_of(
                old(self).allocations@,
                user@,
                vault@,
            ) >= amount && amount_of(old(self).balances@, user@, native_token()) + amount
                > u128::MAX),
            r is Err ==> *final(self) == *old(self),
            r is Ok ==> final(self).allocations@ == debited(
                old(self).allocations@,
                user@,
                vault@,
                amount as nat,
            ) && final(self).balances@ == credited(
                old(self).balances@,
                user@,
                native_token(),
                amount as nat,
            ),
            final(self).holdings_total(user@) == old(self).holdings_total(user@),
            match r {
                Ok(Event::Withdraw { account, vault: v, amount: a }) => account@ == user@ && v@
                    == vault@ && a == amount,
                Ok(_) => false,
                Err(e) => e != GatewayError::InsufficientBalance,
            },
    {
        let cur = self.allocations.get(user, vault);
        if cur < amount {
            return Err(GatewayError::InsufficientVaultAllocation);
        }
        let native = String::from_str("XLM");
        let bal = self.balances.get(user, &native);
        if bal > u128::MAX - amount {
            return Err(GatewayError::Overflow);
        }
        proof {
            lemma_assign(self.allocations@, user@, vault@, (cur - amount) as nat);
            lemma_assign(self.balances@, user@, native@, (bal + amount) as nat);
        }
        self.allocations.set(user, vault, cur - amount);
        self.balances.set(user, &native, bal + amount);
        Ok(Event::Withdraw { account: user.clone(), vault: vault.clone(), amount })
    }

    /// Exchanges `amount` of `from_token` for the same amount of `to_token`.
    pub fn swap(&mut self, user: &String, from_token: &String, to_token: &String, amount: u128) -> (r:
        Result<Event, GatewayError>)
        requires
            old(self).wf(),
        ensures
            final(self).wf(),
            final(self).vaults == old(self).vaults,
            final(self).allocations == old(self).allocations,
            (r == Err::<Event, GatewayError>(GatewayError::InsufficientBalance)) <==> amount_of(
                old(self).balances@,
                user@,
                from_token@,
            ) < amount,
            (r == Err::<Event, GatewayError>(GatewayError::Overflow)) <==> (amount_of(
                old(self).balances@,
                user@,
                from_token@,
            ) >= amount && amount_of(
                debited(old(self).balances@, user@, from_token@, amount as nat),
                user@,
                to_token@,
            ) + amount > u128::MAX),
            r is Err ==> *final(self) == *old(self),
            r is Ok ==> final(self).balances@ == credited(
                debited(old(self).balances@, user@, from_token@, amount as nat),
                user@,
                to_token@,
                amount as nat,
            ),
            final(self).holdings_total(user@) == old(self).holdings_total(user@),
            match r {
                Ok(Event::Swap { account, from_token: f, to_token: t, amount: a }) => account@
                    == user@ && f@ == from_token@ && t@ == to_token@ && a == amount,
                Ok(_) => false,
                Err(e) => e != GatewayError::InsufficientVaultAllocation,
            },
    {
        let bal = self.balances.get(user, from_token);
        if bal < amount {
            return Err(GatewayError::InsufficientBalance);
        }
        let ghost mid = debited(self.balances@, user@, from_token@, amount as nat);
        proof {
            lemma_assign(self.balances@, user@, from_token@, (bal - amount) as nat);
        }
        let to_bal = if *from_token == *to_token {
            bal - amount
        } else {
            self.balances.get(user, to_token)
        };
        if to_bal > u128::MAX - amount {
            return Err(GatewayError::Overflow);
        }
        self.balances.set(user, from_token, bal - amount);
        proof {
            lemma_assign(mid, user@, to_token@, (to_bal + amount) as nat);
        }
        self.balances.set(user, to_token, to_bal + amount);
        Ok(
            Event::Swap {
                account: user.clone(),
                from_token: from_token.clone(),
                to_token: to_token.clone(),
                amount,
            },
        )
    }

    /// `user`'s vault allocations as (vault id, amount) pairs; empty when
    /// the account has none.
    pub fn get_portfolio(&self, user: &String) -> (r: Vec<(String, u128)>)
        ensures
            r@.map_values(|p: (String, u128)| (p.0@, p.1 as nat)) == holdings_of(
                self.allocations@,
                user@,
            ),
    {
        self.allocations.holdings(user)
    }
}

} // verus!
