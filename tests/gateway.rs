use yield_gateway::gateway::{CrossChainYieldGateway, Event, GatewayError, Vault};

fn s(x: &str) -> String {
    x.to_string()
}

fn balance(g: &CrossChainYieldGateway, user: &str, token: &str) -> u128 {
    g.balances.get(&s(user), &s(token))
}

fn allocation(g: &CrossChainYieldGateway, user: &str, vault: &str) -> u128 {
    g.allocations.get(&s(user), &s(vault))
}

fn holdings_total(g: &CrossChainYieldGateway, user: &str, tokens: &[&str], vaults: &[&str]) -> u128 {
    let b: u128 = tokens.iter().map(|t| balance(g, user, t)).sum();
    let a: u128 = vaults.iter().map(|v| allocation(g, user, v)).sum();
    b + a
}

#[test]
fn best_vault_is_highest_rate() {
    let g = CrossChainYieldGateway::initialize();
    assert_eq!(g.get_best_vault(), "VAULT_B");
    assert_eq!(g.get_best_vault(), "VAULT_B");
}

#[test]
fn best_vault_tie_takes_first_registered() {
    let mut g = CrossChainYieldGateway::initialize();
    g.seed(vec![
        Vault { id: s("VAULT_C"), apy: 300 },
        Vault { id: s("VAULT_D"), apy: 900 },
        Vault { id: s("VAULT_E"), apy: 900 },
    ]);
    assert_eq!(g.get_best_vault(), "VAULT_D");
}

#[test]
fn best_vault_of_empty_registry_is_vault_a() {
    let mut g = CrossChainYieldGateway::initialize();
    g.seed(Vec::new());
    assert_eq!(g.get_best_vault(), "VAULT_A");
    g.seed(vec![Vault { id: s("VAULT_Z"), apy: 0 }]);
    assert_eq!(g.get_best_vault(), "VAULT_A");
}

#[test]
fn scenario_import_deposit_optimize_withdraw_swap() {
    let mut g = CrossChainYieldGateway::initialize();
    let alice = s("alice");
    let ev = g.import_token(&alice, &s("ETH"), &s("ETH"), 1000);
    assert_eq!(
        ev,
        Event::ImportToken { account: s("alice"), chain: s("ETH"), token: s("ETH"), amount: 1000 }
    );
    assert_eq!(balance(&g, "alice", "wETH"), 1000);

    let ev = g.deposit(&alice, &s("wETH"), 400, true).unwrap();
    assert_eq!(
        ev,
        Event::Deposit { account: s("alice"), vault: s("VAULT_B"), token: s("wETH"), amount: 400 }
    );
    assert_eq!(balance(&g, "alice", "wETH"), 600);
    assert_eq!(allocation(&g, "alice", "VAULT_B"), 400);

    let before = g.get_portfolio(&alice);
    let ev = g.optimize(&alice).unwrap();
    assert_eq!(ev, Event::Optimize { account: s("alice"), vault: s("VAULT_B"), amount: 0 });
    assert_eq!(g.get_portfolio(&alice), before);
    assert_eq!(allocation(&g, "alice", "VAULT_B"), 400);

    let ev = g.withdraw(&alice, &s("VAULT_B"), 150).unwrap();
    assert_eq!(ev, Event::Withdraw { account: s("alice"), vault: s("VAULT_B"), amount: 150 });
    assert_eq!(allocation(&g, "alice", "VAULT_B"), 250);
    assert_eq!(balance(&g, "alice", "XLM"), 150);

    let ev = g.swap(&alice, &s("wETH"), &s("wXLM"), 200).unwrap();
    assert_eq!(
        ev,
        Event::Swap { account: s("alice"), from_token: s("wETH"), to_token: s("wXLM"), amount: 200 }
    );
    assert_eq!(balance(&g, "alice", "wETH"), 400);
    assert_eq!(balance(&g, "alice", "wXLM"), 200);
}

#[test]
fn insufficient_funds_rejection() {
    let mut g = CrossChainYieldGateway::initialize();
    let alice = s("alice");
    g.import_token(&alice, &s("ETH"), &s("ETH"), 400);
    g.deposit(&alice, &s("wETH"), 100, false).unwrap();
    g.deposit(&alice, &s("wETH"), 100, false).unwrap();
    let portfolio = g.get_portfolio(&alice);
    assert_eq!(balance(&g, "alice", "wETH"), 200);
    g.import_token(&alice, &s("ETH"), &s("ETH"), 400);
    assert_eq!(
        g.deposit(&alice, &s("wETH"), 10_000, false),
        Err(GatewayError::InsufficientBalance)
    );
    assert_eq!(balance(&g, "alice", "wETH"), 400);
    assert_eq!(g.get_portfolio(&alice), portfolio);
}

#[test]
fn withdraw_more_than_allocated_is_rejected() {
    let mut g = CrossChainYieldGateway::initialize();
    let bob = s("bob");
    g.import_token(&bob, &s("Stellar"), &s("USDC"), 50);
    g.deposit(&bob, &s("wUSDC"), 50, false).unwrap();
    assert_eq!(
        g.withdraw(&bob, &s("VAULT_A"), 51),
        Err(GatewayError::InsufficientVaultAllocation)
    );
    assert_eq!(
        g.withdraw(&bob, &s("VAULT_B"), 1),
        Err(GatewayError::InsufficientVaultAllocation)
    );
    assert_eq!(allocation(&g, "bob", "VAULT_A"), 50);
    assert_eq!(balance(&g, "bob", "XLM"), 0);
}

#[test]
fn swap_more_than_held_is_rejected() {
    let mut g = CrossChainYieldGateway::initialize();
    let bob = s("bob");
    g.import_token(&bob, &s("ETH"), &s("ETH"), 5);
    assert_eq!(g.swap(&bob, &s("wETH"), &s("XLM"), 6), Err(GatewayError::InsufficientBalance));
    assert_eq!(balance(&g, "bob", "wETH"), 5);
    assert_eq!(balance(&g, "bob", "XLM"), 0);
}

#[test]
fn manual_deposit_routes_by_token() {
    let mut g = CrossChainYieldGateway::initialize();
    let carol = s("carol");
    g.import_token(&carol, &s("Ethereum"), &s("USDC"), 300);
    g.import_token(&carol, &s("Ethereum"), &s("ETH"), 200);
    let ev = g.deposit(&carol, &s("wUSDC"), 300, false).unwrap();
    assert_eq!(
        ev,
        Event::Deposit { account: s("carol"), vault: s("VAULT_A"), token: s("wUSDC"), amount: 300 }
    );
    g.deposit(&carol, &s("wETH"), 200, false).unwrap();
    assert_eq!(allocation(&g, "carol", "VAULT_A"), 300);
    assert_eq!(allocation(&g, "carol", "VAULT_B"), 200);
}

#[test]
fn import_overwrites_rather_than_adds() {
    let mut g = CrossChainYieldGateway::initialize();
    let dan = s("dan");
    g.import_token(&dan, &s("ETH"), &s("ETH"), 1000);
    g.import_token(&dan, &s("ETH"), &s("ETH"), 30);
    assert_eq!(balance(&g, "dan", "wETH"), 30);
    assert_eq!(balance(&g, "dan", "ETH"), 0);
}

#[test]
fn conservation_over_deposit_withdraw_swap() {
    let mut g = CrossChainYieldGateway::initialize();
    let erin = s("erin");
    let tokens = ["wETH", "wUSDC", "XLM", "wXLM"];
    let vaults = ["VAULT_A", "VAULT_B"];
    g.import_token(&erin, &s("ETH"), &s("ETH"), 700);
    g.import_token(&erin, &s("ETH"), &s("USDC"), 300);
    assert_eq!(holdings_total(&g, "erin", &tokens, &vaults), 1000);
    g.deposit(&erin, &s("wUSDC"), 120, false).unwrap();
    g.deposit(&erin, &s("wETH"), 500, true).unwrap();
    assert_eq!(holdings_total(&g, "erin", &tokens, &vaults), 1000);
    g.withdraw(&erin, &s("VAULT_A"), 20).unwrap();
    g.swap(&erin, &s("XLM"), &s("wXLM"), 20).unwrap();
    g.swap(&erin, &s("wETH"), &s("wETH"), 200).unwrap();
    assert_eq!(balance(&g, "erin", "wETH"), 200);
    assert_eq!(holdings_total(&g, "erin", &tokens, &vaults), 1000);
    assert_eq!(g.deposit(&erin, &s("wETH"), 201, false), Err(GatewayError::InsufficientBalance));
    assert_eq!(holdings_total(&g, "erin", &tokens, &vaults), 1000);
}

#[test]
fn deposit_then_withdraw_moves_value_to_native() {
    let mut g = CrossChainYieldGateway::initialize();
    let fay = s("fay");
    g.import_token(&fay, &s("ETH"), &s("ETH"), 900);
    g.import_token(&fay, &s("Stellar"), &s("XLM"), 0);
    let ev = g.deposit(&fay, &s("wETH"), 250, false).unwrap();
    let vault = match ev {
        Event::Deposit { vault, .. } => vault,
        other => panic!("unexpected event {:?}", other),
    };
    assert_eq!(vault, "VAULT_B");
    g.withdraw(&fay, &vault, 250).unwrap();
    assert_eq!(balance(&g, "fay", "wETH"), 650);
    assert_eq!(balance(&g, "fay", "XLM"), 250);
    assert_eq!(allocation(&g, "fay", "VAULT_B"), 0);
}

#[test]
fn optimize_gathers_into_best_vault_and_is_idempotent() {
    let mut g = CrossChainYieldGateway::initialize();
    let gus = s("gus");
    g.import_token(&gus, &s("ETH"), &s("USDC"), 300);
    g.import_token(&gus, &s("ETH"), &s("ETH"), 200);
    g.deposit(&gus, &s("wUSDC"), 300, false).unwrap();
    g.deposit(&gus, &s("wETH"), 200, false).unwrap();
    let ev = g.optimize(&gus).unwrap();
    assert_eq!(ev, Event::Optimize { account: s("gus"), vault: s("VAULT_B"), amount: 300 });
    let once = g.get_portfolio(&gus);
    assert_eq!(once, vec![(s("VAULT_B"), 500)]);
    assert_eq!(allocation(&g, "gus", "VAULT_A"), 0);
    let ev = g.optimize(&gus).unwrap();
    assert_eq!(ev, Event::Optimize { account: s("gus"), vault: s("VAULT_B"), amount: 0 });
    assert_eq!(g.get_portfolio(&gus), once);
}

#[test]
fn optimize_leaves_other_accounts_alone() {
    let mut g = CrossChainYieldGateway::initialize();
    let hal = s("hal");
    let ivy = s("ivy");
    g.import_token(&hal, &s("ETH"), &s("USDC"), 10);
    g.import_token(&ivy, &s("ETH"), &s("USDC"), 20);
    g.deposit(&hal, &s("wUSDC"), 10, false).unwrap();
    g.deposit(&ivy, &s("wUSDC"), 20, false).unwrap();
    g.optimize(&hal).unwrap();
    assert_eq!(g.get_portfolio(&hal), vec![(s("VAULT_B"), 10)]);
    assert_eq!(g.get_portfolio(&ivy), vec![(s("VAULT_A"), 20)]);
}

#[test]
fn optimize_of_empty_account_records_zero() {
    let mut g = CrossChainYieldGateway::initialize();
    let jo = s("jo");
    assert!(g.get_portfolio(&jo).is_empty());
    g.optimize(&jo).unwrap();
    assert_eq!(g.get_portfolio(&jo), vec![(s("VAULT_B"), 0)]);
}

#[test]
fn overflow_is_rejected_without_change() {
    let mut g = CrossChainYieldGateway::initialize();
    let kim = s("kim");
    g.import_token(&kim, &s("ETH"), &s("USDC"), u128::MAX);
    g.import_token(&kim, &s("ETH"), &s("ETH"), u128::MAX);
    g.deposit(&kim, &s("wUSDC"), u128::MAX, false).unwrap();
    g.deposit(&kim, &s("wETH"), 1, false).unwrap();
    g.import_token(&kim, &s("ETH"), &s("USDC"), 2);
    assert_eq!(g.deposit(&kim, &s("wUSDC"), 1, false), Err(GatewayError::Overflow));
    assert_eq!(balance(&g, "kim", "wUSDC"), 2);
    let portfolio = g.get_portfolio(&kim);
    assert_eq!(g.optimize(&kim), Err(GatewayError::Overflow));
    assert_eq!(g.get_portfolio(&kim), portfolio);
    assert_eq!(g.swap(&kim, &s("wETH"), &s("wUSDC"), u128::MAX - 1), Err(GatewayError::Overflow));
    assert_eq!(balance(&g, "kim", "wETH"), u128::MAX - 1);
    assert_eq!(g.swap(&kim, &s("wETH"), &s("wETH"), u128::MAX - 1), Ok(Event::Swap {
        account: s("kim"),
        from_token: s("wETH"),
        to_token: s("wETH"),
        amount: u128::MAX - 1,
    }));
    g.import_token(&kim, &s("Stellar"), &s("XLM"), 0);
    g.swap(&kim, &s("wXLM"), &s("XLM"), 0).unwrap();
    g.withdraw(&kim, &s("VAULT_B"), 1).unwrap();
    g.swap(&kim, &s("wETH"), &s("XLM"), u128::MAX - 2).unwrap();
    assert_eq!(balance(&g, "kim", "XLM"), u128::MAX - 1);
    assert_eq!(g.withdraw(&kim, &s("VAULT_A"), 2), Err(GatewayError::Overflow));
    assert_eq!(allocation(&g, "kim", "VAULT_A"), u128::MAX);
    assert_eq!(balance(&g, "kim", "XLM"), u128::MAX - 1);
}
