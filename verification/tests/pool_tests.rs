// Order pool lifecycle: creation, cancellation, catch-up execution,
// bookkeeping and statistics.

use twamm::{
    Address, Order, OrderDirection, OrderManager, OrderPool, OrderType, TwammError,
    VirtualOrderState,
};

fn addr(n: u128) -> Address {
    Address { hi: 0, lo: n }
}

#[test]
fn test_defaults() {
    let pool = OrderPool::default();
    assert_eq!(pool.get_active_orders_count(), 0);
    assert_eq!(pool.next_order_id, 1);
    assert_eq!(pool.get_current_sell_rates(), (0, 0));

    let vos = VirtualOrderState::default();
    assert_eq!(vos.order_block_interval, 100);
    assert_eq!(vos.last_virtual_order_block, 0);

    let order = Order::default();
    assert_eq!(order.id, 0);
    assert_eq!(order.owner, Address::zero());
    assert_eq!(order.order_type, OrderType::Instant);
    assert_eq!(order.direction, OrderDirection::SellToken0);
    assert_eq!(order.remaining_amount, 0);
}

#[test]
fn test_create_overflow_is_atomic() {
    let mut pool = OrderPool::default();
    let a = addr(1);
    // The end block would pass the 128-bit range; nothing is mutated.
    assert_eq!(
        pool.create_long_term_order(a, OrderDirection::SellToken0, 1000, 10, u128::MAX),
        Err(TwammError::MathOverflow)
    );
    assert_eq!(pool.get_active_orders_count(), 0);
    assert_eq!(pool.get_current_sell_rates(), (0, 0));
    assert_eq!(pool.next_order_id, 1);
}

#[test]
fn test_rate_bookkeeping() {
    let mut pool = OrderPool::default();
    let a = addr(1);

    let id1 = pool
        .create_long_term_order(a, OrderDirection::SellToken0, 1000, 10, 0)
        .unwrap();
    let id2 = pool
        .create_long_term_order(a, OrderDirection::SellToken0, 2000, 10, 0)
        .unwrap();
    let _id3 = pool
        .create_long_term_order(a, OrderDirection::SellToken0, 3000, 10, 0)
        .unwrap();

    // Aggregate rate equals the sum of the created rates 100 + 200 + 300.
    assert_eq!(pool.get_current_sell_rates(), (600, 0));
    assert_eq!(id1, 1);
    assert_eq!(id2, 2);

    // Cancelling one order removes exactly its rate.
    let cancelled = pool.cancel_order(id2, a).unwrap();
    assert_eq!(cancelled.sell_rate, 200);
    assert_eq!(pool.get_current_sell_rates(), (400, 0));
    assert_eq!(pool.get_active_orders_count(), 2);
}

#[test]
fn test_create_rejects_zero_params() {
    let mut pool = OrderPool::default();
    let a = addr(7);
    assert_eq!(
        pool.create_long_term_order(a, OrderDirection::SellToken0, 0, 10, 0),
        Err(TwammError::InvalidInput)
    );
    assert_eq!(
        pool.create_long_term_order(a, OrderDirection::SellToken1, 1000, 0, 0),
        Err(TwammError::InvalidInput)
    );
    assert_eq!(pool.get_active_orders_count(), 0);
}

#[test]
fn test_cancel_errors() {
    let mut pool = OrderPool::default();
    let owner = addr(1);
    let stranger = addr(2);

    assert_eq!(
        pool.cancel_order(99, owner),
        Err(TwammError::OrderNotFound)
    );

    let id = pool
        .create_long_term_order(owner, OrderDirection::SellToken0, 1000, 10, 0)
        .unwrap();
    assert_eq!(
        pool.cancel_order(id, stranger),
        Err(TwammError::NotOrderOwner)
    );
    // The failed cancellation left the order in place.
    assert_eq!(pool.get_active_orders_count(), 1);
}

#[test]
fn test_remaining_amount_decay() {
    let mut pool = OrderPool::default();
    let a = addr(3);

    // Bring the pool's catch-up clock to block 1000, then create the order
    // there: sellAmount 100000 over 100 blocks gives rate 1000 and end
    // block 1100.
    pool.execute_virtual_orders(1000, 100_000_000, 100_000_000)
        .unwrap();
    let id = pool
        .create_long_term_order(a, OrderDirection::SellToken0, 100000, 100, 1000)
        .unwrap();
    let order = pool.get_order(id).unwrap();
    assert_eq!(order.sell_rate, 1000);
    assert_eq!(order.end_block, 1100);
    assert_eq!(order.remaining_amount, 100000);

    // A catch-up at block 1050 drains exactly 50 blocks' worth.
    let result = pool
        .execute_virtual_orders(1050, 100_000_000, 100_000_000)
        .unwrap();
    assert_eq!(result.blocks_executed, 50);
    let order = pool.get_order(id).unwrap();
    assert_eq!(order.remaining_amount, 50000);
    assert_eq!(order.last_virtual_order_block, 1050);
}

#[test]
fn test_catch_up_idempotence() {
    let mut pool = OrderPool::default();
    let a = addr(4);
    pool.create_long_term_order(a, OrderDirection::SellToken0, 10000, 100, 0)
        .unwrap();

    let first = pool.execute_virtual_orders(50, 1_000_000, 1_000_000).unwrap();
    assert_eq!(first.blocks_executed, 50);
    let snapshot = pool.clone();

    // A second catch-up at the same block is a no-op with a zero result.
    let second = pool.execute_virtual_orders(50, 1_000_000, 1_000_000).unwrap();
    assert_eq!(second.blocks_executed, 0);
    assert_eq!(second.amount_0_sold, 0);
    assert_eq!(second.amount_1_sold, 0);
    assert_eq!(second.amount_0_received, 0);
    assert_eq!(second.amount_1_received, 0);
    assert_eq!(second.new_reserve_0, 1_000_000);
    assert_eq!(second.new_reserve_1, 1_000_000);
    assert_eq!(pool, snapshot);
}

#[test]
fn test_settlement_conservation_three_orders() {
    let mut pool = OrderPool::default();
    let a = addr(5);
    let id1 = pool
        .create_long_term_order(a, OrderDirection::SellToken0, 10000, 100, 0)
        .unwrap();
    let id2 = pool
        .create_long_term_order(a, OrderDirection::SellToken0, 20000, 100, 0)
        .unwrap();
    let id3 = pool
        .create_long_term_order(a, OrderDirection::SellToken0, 30000, 100, 0)
        .unwrap();

    let result = pool.execute_virtual_orders(10, 1_000_000, 1_000_000).unwrap();
    // Aggregate rate 600 over 10 blocks sells 6000 of token 0; the linear
    // branch yields reserves (1003000, 997008), so the pool received 2992
    // of token 1.
    assert_eq!(result.amount_0_sold, 6000);
    assert_eq!(result.new_reserve_0, 1_003_000);
    assert_eq!(result.new_reserve_1, 997_008);
    assert_eq!(result.amount_1_received, 2992);

    // Proportional distribution: 2992 * rate / 600, truncated per order.
    let o1 = pool.get_order(id1).unwrap();
    let o2 = pool.get_order(id2).unwrap();
    let o3 = pool.get_order(id3).unwrap();
    assert_eq!(o1.accumulated_out, 498);
    assert_eq!(o2.accumulated_out, 997);
    assert_eq!(o3.accumulated_out, 1496);

    // The summed payout reaches the received amount within one unit per
    // contributing order.
    let distributed = o1.accumulated_out + o2.accumulated_out + o3.accumulated_out;
    assert!(distributed <= result.amount_1_received);
    assert!(distributed + 3 >= result.amount_1_received);
}

#[test]
fn test_distribution_skips_orders_outside_window() {
    let mut pool = OrderPool::default();
    let a = addr(10);
    let b = addr(11);
    // Order A sells through the whole window [0, 50); order B is created
    // at the catch-up block itself and sold nothing in that window.
    let id_a = pool
        .create_long_term_order(a, OrderDirection::SellToken0, 100_000, 100, 0)
        .unwrap();
    let id_b = pool
        .create_long_term_order(b, OrderDirection::SellToken0, 50_000, 100, 50)
        .unwrap();

    let result = pool
        .execute_virtual_orders(50, 100_000_000, 100_000_000)
        .unwrap();
    assert_eq!(result.amount_0_sold, 50_000);
    assert_eq!(result.amount_1_received, 24_994);

    // A carried the whole window-active aggregate, so it receives the
    // whole proceeds; B is untouched.
    let oa = pool.get_order(id_a).unwrap();
    let ob = pool.get_order(id_b).unwrap();
    assert_eq!(oa.accumulated_out, result.amount_1_received);
    assert_eq!(oa.remaining_amount, 50_000);
    assert_eq!(ob.accumulated_out, 0);
    assert_eq!(ob.remaining_amount, 50_000);
    assert_eq!(ob.last_virtual_order_block, 50);
}

#[test]
fn test_order_completion_removes_order() {
    let mut pool = OrderPool::default();
    let a = addr(6);
    let id = pool
        .create_long_term_order(a, OrderDirection::SellToken0, 1000, 10, 0)
        .unwrap();
    assert_eq!(pool.get_active_orders_count(), 1);

    // Past the end block the order expires and its rate leaves the total.
    pool.execute_virtual_orders(20, 1_000_000, 1_000_000).unwrap();
    assert_eq!(pool.get_active_orders_count(), 0);
    assert_eq!(pool.get_current_sell_rates(), (0, 0));
    assert!(pool.get_order(id).is_none());
}

#[test]
fn test_needs_execution_and_interval() {
    let mut pool = OrderPool::default();
    let a = addr(8);

    // No orders: never due.
    assert!(!pool.needs_virtual_order_execution(1000));

    pool.create_long_term_order(a, OrderDirection::SellToken1, 5000, 50, 0)
        .unwrap();
    // Default interval is 100 blocks.
    assert!(!pool.needs_virtual_order_execution(99));
    assert!(pool.needs_virtual_order_execution(100));

    assert_eq!(
        pool.set_order_block_interval(0),
        Err(TwammError::InvalidInput)
    );
    pool.set_order_block_interval(10).unwrap();
    assert!(pool.needs_virtual_order_execution(10));
}

#[test]
fn test_orders_by_owner() {
    let mut pool = OrderPool::default();
    let a = addr(1);
    let b = addr(2);
    pool.create_long_term_order(a, OrderDirection::SellToken0, 1000, 10, 0)
        .unwrap();
    pool.create_long_term_order(b, OrderDirection::SellToken0, 2000, 10, 0)
        .unwrap();
    pool.create_long_term_order(a, OrderDirection::SellToken1, 3000, 10, 0)
        .unwrap();

    let mine = pool.get_orders_by_owner(a);
    assert_eq!(mine.len(), 2);
    assert_eq!(mine[0].id, 1);
    assert_eq!(mine[1].id, 3);
    assert_eq!(pool.get_orders_by_owner(addr(9)).len(), 0);
}

#[test]
fn test_execution_statistics() {
    let mut pool = OrderPool::default();
    let a = addr(1);
    pool.create_long_term_order(a, OrderDirection::SellToken0, 1000, 10, 0)
        .unwrap();
    pool.create_long_term_order(a, OrderDirection::SellToken1, 4000, 20, 0)
        .unwrap();

    let stats = pool.get_execution_statistics(15);
    // The first order's window [0, 10) has passed; the second is live.
    assert_eq!(stats.active_orders, 1);
    assert_eq!(stats.completed_orders, 1);
    // Executed volumes: min(100 * 15, 1000) and min(200 * 15, 4000).
    assert_eq!(stats.total_volume_0, 1000);
    assert_eq!(stats.total_volume_1, 3000);
    assert_eq!(stats.current_sell_rate_0, 100);
    assert_eq!(stats.current_sell_rate_1, 200);
    assert_eq!(stats.last_virtual_execution_block, 0);
}

#[test]
fn test_virtual_execution_gas_estimate() {
    let mut pool = OrderPool::default();
    let a = addr(1);
    pool.create_long_term_order(a, OrderDirection::SellToken0, 1000, 10, 0)
        .unwrap();
    pool.create_long_term_order(a, OrderDirection::SellToken1, 1000, 10, 0)
        .unwrap();
    // 50000 base + 10 blocks * 1000 + 2 orders * 5000.
    assert_eq!(pool.estimate_virtual_execution_gas(10), 70000);
}

#[test]
fn test_rejected_order_short_duration() {
    // A duration below the minimum of 10 blocks is rejected as invalid
    // input, regardless of amount or reserves.
    assert_eq!(
        OrderManager::validate_order_params(1000, 5, 1_000_000),
        Err(TwammError::InvalidInput)
    );
    assert_eq!(
        OrderManager::validate_order_params(1, 5, 0),
        Err(TwammError::InvalidInput)
    );
    assert_eq!(
        OrderManager::validate_order_params(u128::MAX, 5, u128::MAX),
        Err(TwammError::InvalidInput)
    );
}

#[test]
fn test_validate_order_params_bounds() {
    assert_eq!(
        OrderManager::validate_order_params(0, 100, 1_000_000),
        Err(TwammError::InvalidInput)
    );
    assert_eq!(
        OrderManager::validate_order_params(1000, 2_000_000, 1_000_000),
        Err(TwammError::InvalidInput)
    );
    // More than a tenth of the reserve is rejected.
    assert_eq!(
        OrderManager::validate_order_params(100_001, 100, 1_000_000),
        Err(TwammError::InvalidInput)
    );
    assert_eq!(OrderManager::validate_order_params(100_000, 100, 1_000_000), Ok(()));
    // With a zero reserve the size cap does not apply.
    assert_eq!(OrderManager::validate_order_params(100_000, 100, 0), Ok(()));
}

#[test]
fn test_optimal_interval_clamps() {
    // 6000 blocks per day divided by the target, clamped to [10, 1000].
    assert_eq!(OrderManager::calculate_optimal_interval(0, 60), 100);
    assert_eq!(OrderManager::calculate_optimal_interval(5, 6000), 10);
    assert_eq!(OrderManager::calculate_optimal_interval(5, 1), 1000);
    assert_eq!(OrderManager::calculate_optimal_interval(5, 0), 100);
    assert_eq!(OrderManager::calculate_optimal_interval(5, 4), 1000);
}

#[test]
fn test_twap_impact() {
    // Dripping 100000 over 100 blocks against even million reserves: the
    // closed form gives 47620 out, the linear estimate is 100000, so the
    // impact is (100000 - 47620) * 10000 / 100000 basis points.
    assert_eq!(
        OrderManager::calculate_twap_impact(100000, 100, 1_000_000, 1_000_000),
        Ok(5238)
    );
    assert_eq!(
        OrderManager::calculate_twap_impact(1000, 0, 1_000_000, 1_000_000),
        Err(TwammError::InvalidInput)
    );
}
