use vstd::prelude::*;

use crate::gateway::native_token;
use crate::ledger::{
    amount_of,
    consolidate,
    credited,
    debited,
    lemma_assign,
    lemma_consolidate,
    total_of,
    unique_keys,
};

verus! {

/// A deposit of `x` of `token` followed by a withdrawal of `x` from the vault
/// it was routed to leaves every allocation amount as it was, takes `x` from
/// the user's balance of `token` and adds `x` to the user's native balance;
/// no other balance changes.
pub proof fn lemma_deposit_then_withdraw(
    balances: Seq<(Seq<char>, Seq<char>, nat)>,
    allocations: Seq<(Seq<char>, Seq<char>, nat)>,
    user: Seq<char>,
    token: Seq<char>,
    vault: Seq<char>,
    x: nat,
)
    requires
        unique_keys(balances),
        unique_keys(allocations),
        amount_of(balances, user, token) >= x,
    ensures
        forall|o: Seq<char>, k: Seq<char>|
            #[trigger] amount_of(debited(credited(allocations, user, vault, x), user, vault, x), o, k)
                == amount_of(allocations, o, k),
        forall|o: Seq<char>, k: Seq<char>|
            #[trigger] amount_of(
                credited(debited(balances, user, token, x), user, native_token(), x),
                o,
                k,
            ) == amount_of(balances, o, k) - (if o == user && k == token {
                x
            } else {
                0
            }) + (if o == user && k == native_token() {
                x
            } else {
                0
            }),
{
    let a1 = credited(allocations, user, vault, x);
    lemma_assign(allocations, user, vault, amount_of(allocations, user, vault) + x);
    lemma_assign(a1, user, vault, (amount_of(a1, user, vault) - x) as nat);
    let b1 = debited(balances, user, token, x);
    lemma_assign(balances, user, token, (amount_of(balances, user, token) - x) as nat);
    lemma_assign(b1, user, native_token(), amount_of(b1, user, native_token()) + x);
}

/// Optimizing twice in a row leaves the allocations exactly as the first
/// call left them.
pub proof fn lemma_optimize_idempotent(
    allocations: Seq<(Seq<char>, Seq<char>, nat)>,
    user: Seq<char>,
    best: Seq<char>,
)
    requires
        unique_keys(allocations),
    ensures
        consolidate(consolidate(allocations, user, best), user, best) == consolidate(
            allocations,
            user,
            best,
        ),
{
    lemma_consolidate(allocations, user, best);
}

/// Optimizing keeps the sum of the user's allocations, and leaves the user
/// nothing outside the best vault.
pub proof fn lemma_optimize_conserves(
    allocations: Seq<(Seq<char>, Seq<char>, nat)>,
    user: Seq<char>,
    best: Seq<char>,
)
    requires
        unique_keys(allocations),
    ensures
        total_of(consolidate(allocations, user, best), user) == total_of(allocations, user),
        amount_of(consolidate(allocations, user, best), user, best) == total_of(allocations, user),
        forall|k: Seq<char>|
            k != best ==> #[trigger] amount_of(consolidate(allocations, user, best), user, k) == 0,
{
    lemma_consolidate(allocations, user, best);
}

} // verus!
