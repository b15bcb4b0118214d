use rx_dex::pool::{
    calculate_dynamic_fee, execute, execute_provide_liquidity, execute_swap_x_for_y,
    execute_swap_y_for_x, find_funds, instantiate, query, Action, Coin, ExecuteMsg,
    InstantiateMsg, Pool, PoolError, QueryMsg, Transfer,
};

fn coin(denom: &str, amount: u128) -> Coin {
    Coin { denom: denom.to_string(), amount }
}

fn funded_pool(x: u128, y: u128, fee_bps: u16) -> Pool {
    let mut pool = instantiate(InstantiateMsg {
        token_x: "ux".to_string(),
        token_y: "uy".to_string(),
        fee_bps,
    });
    pool.x_reserve = x;
    pool.y_reserve = y;
    pool
}

#[test]
fn instantiate_and_provide() {
    let mut pool = instantiate(InstantiateMsg {
        token_x: "ux".into(),
        token_y: "uy".into(),
        fee_bps: 30,
    });

    execute(
        &mut pool,
        "lp1".to_string(),
        &vec![coin("ux", 1_000_000), coin("uy", 2_000_000)],
        ExecuteMsg::ProvideLiquidity { x: 1_000_000, y: 2_000_000 },
    )
    .unwrap();

    let pool: Pool = query(&pool, QueryMsg::Pool {});
    assert_eq!(pool.x_reserve, 1_000_000);
    assert_eq!(pool.y_reserve, 2_000_000);
}

#[test]
fn instantiate_gives_an_empty_pool() {
    let pool = instantiate(InstantiateMsg {
        token_x: "ux".into(),
        token_y: "uy".into(),
        fee_bps: 30,
    });
    assert_eq!(
        pool,
        Pool {
            token_x: "ux".to_string(),
            token_y: "uy".to_string(),
            fee_bps: 30,
            x_reserve: 0,
            y_reserve: 0,
            total_volume: 0,
        }
    );
}

#[test]
fn provide_without_funds_is_rejected() {
    let mut pool = funded_pool(5, 6, 30);
    let r = execute(
        &mut pool,
        "lp1".to_string(),
        &vec![],
        ExecuteMsg::ProvideLiquidity { x: 1_000_000, y: 2_000_000 },
    );
    assert_eq!(r, Err(PoolError::InsufficientFunds));
    assert_eq!(pool, funded_pool(5, 6, 30));
}

#[test]
fn provide_with_too_little_of_one_asset_is_rejected() {
    let mut pool = funded_pool(0, 0, 30);
    let funds = vec![coin("ux", 100), coin("uy", 99)];
    let r = execute_provide_liquidity(&mut pool, &funds, 100, 100);
    assert_eq!(r, Err(PoolError::InsufficientFunds));
    assert_eq!(pool, funded_pool(0, 0, 30));
    let r = execute_provide_liquidity(&mut pool, &vec![coin("uy", 100), coin("ux", 99)], 100, 100);
    assert_eq!(r, Err(PoolError::InsufficientFunds));
}

#[test]
fn provide_adds_exactly_what_is_asked() {
    let mut pool = funded_pool(10, 20, 30);
    let funds = vec![coin("other", 5), coin("uy", 500), coin("ux", 400)];
    let r = execute_provide_liquidity(&mut pool, &funds, 100, 200).unwrap();
    assert_eq!(r.action, Action::Provide { x: 100, y: 200 });
    assert_eq!(r.transfer, None);
    assert_eq!(pool.x_reserve, 110);
    assert_eq!(pool.y_reserve, 220);
    assert_eq!(pool.total_volume, 0);
}

#[test]
fn provide_of_nothing_needs_no_funds() {
    let mut pool = funded_pool(10, 20, 30);
    let r = execute_provide_liquidity(&mut pool, &vec![], 0, 0);
    assert!(r.is_ok());
    assert_eq!(pool, funded_pool(10, 20, 30));
}

#[test]
fn provide_overflow_changes_nothing() {
    let mut pool = funded_pool(u128::MAX, 20, 30);
    let funds = vec![coin("ux", 1), coin("uy", 1)];
    assert_eq!(execute_provide_liquidity(&mut pool, &funds, 1, 1), Err(PoolError::Overflow));
    assert_eq!(pool, funded_pool(u128::MAX, 20, 30));
    let mut pool = funded_pool(20, u128::MAX, 30);
    assert_eq!(execute_provide_liquidity(&mut pool, &funds, 1, 1), Err(PoolError::Overflow));
    assert_eq!(pool, funded_pool(20, u128::MAX, 30));
}

#[test]
fn funds_are_those_of_the_first_coin_of_a_denom() {
    let funds = vec![coin("ux", 7), coin("uy", 9), coin("ux", 100)];
    assert_eq!(find_funds(&funds, &"ux".to_string()), 7);
    assert_eq!(find_funds(&funds, &"uy".to_string()), 9);
    assert_eq!(find_funds(&funds, &"uz".to_string()), 0);
    assert_eq!(find_funds(&vec![], &"ux".to_string()), 0);
}

#[test]
fn dynamic_fee_grows_with_the_trade_ratio_up_to_ten() {
    let pool = funded_pool(1_000_000, 800_000, 30);
    // 1% of the larger reserve: no surcharge
    assert_eq!(calculate_dynamic_fee(&pool, 10_000), 30);
    assert_eq!(calculate_dynamic_fee(&pool, 19_999), 30);
    // 2%: two basis points
    assert_eq!(calculate_dynamic_fee(&pool, 20_000), 32);
    // 5%: five basis points
    assert_eq!(calculate_dynamic_fee(&pool, 50_000), 35);
    assert_eq!(calculate_dynamic_fee(&pool, 99_999), 39);
    // 10% and more: ten basis points
    assert_eq!(calculate_dynamic_fee(&pool, 100_000), 40);
    assert_eq!(calculate_dynamic_fee(&pool, 1_000_000), 40);
    assert_eq!(calculate_dynamic_fee(&pool, u128::MAX), 40);
}

#[test]
fn dynamic_fee_is_the_base_fee_without_reserves_or_trade() {
    assert_eq!(calculate_dynamic_fee(&funded_pool(0, 0, 30), 50_000), 30);
    assert_eq!(calculate_dynamic_fee(&funded_pool(1_000_000, 800_000, 30), 0), 30);
}

#[test]
fn dynamic_fee_takes_the_larger_reserve() {
    assert_eq!(calculate_dynamic_fee(&funded_pool(100, 1_000_000, 30), 50_000), 35);
    assert_eq!(calculate_dynamic_fee(&funded_pool(1_000_000, 100, 30), 50_000), 35);
}

#[test]
fn dynamic_fee_stops_at_the_largest_fee() {
    assert_eq!(calculate_dynamic_fee(&funded_pool(100, 100, u16::MAX - 3), 100), u16::MAX);
    assert_eq!(calculate_dynamic_fee(&funded_pool(100, 100, u16::MAX - 3), 2), u16::MAX - 1);
}

#[test]
fn dynamic_fee_is_exact_for_the_largest_trades() {
    // trade * 100 does not fit in 128 bits; the ratio is 10 exactly
    let pool = funded_pool(u128::MAX / 5, 7, 30);
    assert_eq!(calculate_dynamic_fee(&pool, u128::MAX / 50 + 1), 40);
    assert_eq!(calculate_dynamic_fee(&pool, u128::MAX / 50), 39);
}

#[test]
fn swap_scenario_with_shifting_reserves() {
    let mut pool = funded_pool(1_000_000, 800_000, 30);
    let first = execute_swap_x_for_y(&mut pool, "trader".to_string(), 10_000, 0).unwrap();
    assert_eq!(first.action, Action::SwapXForY { amount_out: 7897 });
    assert_eq!(
        first.transfer,
        Some(Transfer { to_address: "trader".to_string(), denom: "uy".to_string(), amount: 7897 })
    );
    assert_eq!(pool.x_reserve, 1_010_000);
    assert_eq!(pool.y_reserve, 792_103);
    assert_eq!(pool.total_volume, 10_000);

    let second = execute_swap_x_for_y(&mut pool, "trader".to_string(), 10_000, 0).unwrap();
    assert_eq!(second.action, Action::SwapXForY { amount_out: 7742 });
    assert!(7742 < 7897);
    assert_eq!(pool.x_reserve, 1_020_000);
    assert_eq!(pool.y_reserve, 784_361);
    assert_eq!(pool.total_volume, 20_000);
}

#[test]
fn swap_uses_the_dynamic_fee() {
    // 5% of the larger reserve: 35 basis points
    let mut pool = funded_pool(1_000_000, 800_000, 30);
    let r = execute_swap_x_for_y(&mut pool, "t".to_string(), 50_000, 0).unwrap();
    assert_eq!(r.action, Action::SwapXForY { amount_out: 37_968 });
    // 20%: 40 basis points
    let mut pool = funded_pool(1_000_000, 800_000, 30);
    let r = execute_swap_x_for_y(&mut pool, "t".to_string(), 200_000, 0).unwrap();
    assert_eq!(r.action, Action::SwapXForY { amount_out: 132_888 });
}

#[test]
fn swap_y_for_x_mirrors_the_reserves() {
    let mut pool = funded_pool(1_000_000, 800_000, 30);
    let r = execute_swap_y_for_x(&mut pool, "trader".to_string(), 10_000, 0).unwrap();
    assert_eq!(r.action, Action::SwapYForX { amount_out: 12_309 });
    assert_eq!(
        r.transfer,
        Some(Transfer { to_address: "trader".to_string(), denom: "ux".to_string(), amount: 12_309 })
    );
    assert_eq!(pool.x_reserve, 1_000_000 - 12_309);
    assert_eq!(pool.y_reserve, 810_000);
    assert_eq!(pool.total_volume, 10_000);
}

#[test]
fn swap_keeps_the_product_of_the_reserves() {
    let mut pool = funded_pool(1_000_000, 800_000, 30);
    let mut k = pool.x_reserve * pool.y_reserve;
    for amount in [1u128, 7, 10_000, 333_333, 5_000_000] {
        execute_swap_x_for_y(&mut pool, "t".to_string(), amount, 0).unwrap();
        let next = pool.x_reserve * pool.y_reserve;
        assert!(next >= k);
        k = next;
        execute_swap_y_for_x(&mut pool, "t".to_string(), amount, 0).unwrap();
        let next = pool.x_reserve * pool.y_reserve;
        assert!(next >= k);
        k = next;
    }
    let mut free = funded_pool(1_000, 1_000, 0);
    execute_swap_x_for_y(&mut free, "t".to_string(), 10, 0).unwrap();
    assert!(free.x_reserve * free.y_reserve >= 1_000_000);
}

#[test]
fn swap_there_and_back_gains_nothing() {
    for (x, y, dx, fee) in [
        (1_000_000u128, 800_000u128, 10_000u128, 30u16),
        (1_000, 1_000, 500, 0),
        (7, 1_000_000_000, 3, 0),
        (1_000_000_000, 7, 999_999_999, 1),
    ] {
        let mut pool = funded_pool(x, y, fee);
        let there = execute_swap_x_for_y(&mut pool, "t".to_string(), dx, 0).unwrap();
        let dy = match there.action {
            Action::SwapXForY { amount_out } => amount_out,
            _ => unreachable!(),
        };
        if dy == 0 {
            continue;
        }
        let back = execute_swap_y_for_x(&mut pool, "t".to_string(), dy, 0).unwrap();
        let returned = match back.action {
            Action::SwapYForX { amount_out } => amount_out,
            _ => unreachable!(),
        };
        assert!(returned <= dx);
    }
}

#[test]
fn swap_rejects_zero_input_and_empty_reserves() {
    let mut pool = funded_pool(1_000_000, 800_000, 30);
    assert_eq!(
        execute_swap_x_for_y(&mut pool, "t".to_string(), 0, 0),
        Err(PoolError::InvalidInput)
    );
    let mut empty = funded_pool(0, 800_000, 30);
    assert_eq!(
        execute_swap_x_for_y(&mut empty, "t".to_string(), 10, 0),
        Err(PoolError::InvalidInput)
    );
    assert_eq!(
        execute_swap_y_for_x(&mut empty, "t".to_string(), 10, 0),
        Err(PoolError::InvalidInput)
    );
    assert_eq!(empty, funded_pool(0, 800_000, 30));
}

#[test]
fn swap_with_a_fee_of_everything_has_no_liquidity() {
    let mut pool = funded_pool(1_000_000, 800_000, 10_000);
    assert_eq!(
        execute_swap_x_for_y(&mut pool, "t".to_string(), 10, 0),
        Err(PoolError::InsufficientLiquidity)
    );
    // 9_995 + 10 basis points of surcharge
    let mut pool = funded_pool(1_000_000, 800_000, 9_995);
    assert_eq!(
        execute_swap_x_for_y(&mut pool, "t".to_string(), 500_000, 0),
        Err(PoolError::InsufficientLiquidity)
    );
    assert_eq!(pool, funded_pool(1_000_000, 800_000, 9_995));
}

#[test]
fn swap_below_the_minimum_is_slippage() {
    let mut pool = funded_pool(1_000_000, 800_000, 30);
    assert_eq!(
        execute_swap_x_for_y(&mut pool, "t".to_string(), 10_000, 7898),
        Err(PoolError::SlippageExceeded)
    );
    assert_eq!(pool, funded_pool(1_000_000, 800_000, 30));
    assert!(execute_swap_x_for_y(&mut pool, "t".to_string(), 10_000, 7897).is_ok());
}

#[test]
fn swap_overflow_changes_nothing() {
    let mut pool = funded_pool(u128::MAX - 5, 800_000, 30);
    assert_eq!(
        execute_swap_x_for_y(&mut pool, "t".to_string(), 6, 0),
        Err(PoolError::Overflow)
    );
    assert_eq!(pool, funded_pool(u128::MAX - 5, 800_000, 30));
    let mut pool = funded_pool(1_000_000, 800_000, 30);
    pool.total_volume = u128::MAX;
    assert_eq!(
        execute_swap_x_for_y(&mut pool, "t".to_string(), 6, 0),
        Err(PoolError::Overflow)
    );
    assert_eq!(pool.x_reserve, 1_000_000);
    assert_eq!(pool.y_reserve, 800_000);
}

#[test]
fn swap_of_a_crumb_succeeds_with_nothing_out() {
    let mut pool = funded_pool(1_000_000, 10, 30);
    let r = execute_swap_x_for_y(&mut pool, "t".to_string(), 1, 0).unwrap();
    assert_eq!(r.action, Action::SwapXForY { amount_out: 0 });
    assert_eq!(pool.x_reserve, 1_000_001);
    assert_eq!(pool.y_reserve, 10);
}

#[test]
fn execute_dispatches_swaps() {
    let mut pool = funded_pool(1_000_000, 800_000, 30);
    let r = execute(
        &mut pool,
        "trader".to_string(),
        &vec![],
        ExecuteMsg::SwapXForY { dx: 10_000, min_dy: 0 },
    )
    .unwrap();
    assert_eq!(r.action, Action::SwapXForY { amount_out: 7897 });
    let r = execute(
        &mut pool,
        "trader".to_string(),
        &vec![],
        ExecuteMsg::SwapYForX { dy: 7897, min_dx: 20_000 },
    );
    assert_eq!(r, Err(PoolError::SlippageExceeded));
}

#[test]
fn pool_error_messages() {
    assert_eq!(PoolError::InvalidInput.message(), "invalid input");
    assert_eq!(PoolError::InsufficientLiquidity.message(), "insufficient liquidity");
    assert_eq!(PoolError::SlippageExceeded.message(), "slippage");
    assert_eq!(PoolError::InsufficientFunds.message(), "insufficient funds sent");
    assert_eq!(PoolError::Overflow.message(), "overflow");
    assert_eq!(PoolError::Underflow.message(), "underflow");
}
