// Basic tests for the core functionality of the TWAMM calculator.

use std::time::Instant;
use twamm::TWAMMCalculator;

#[test]
fn test_twamm_calculator_creation() {
    let _calculator = TWAMMCalculator::new();
    // Just verify it can be created
    assert!(true);
}

#[test]
fn test_basic_calculation() {
    let mut calculator = TWAMMCalculator::new();

    // Test basic calculation with simple values
    let result = calculator.calculate_virtual_trades(
        1000,    // sell_rate_0
        0,       // sell_rate_1
        100,     // blocks_elapsed
        1000000, // reserve_0
        1000000, // reserve_1
    );

    assert!(result.is_ok());
    let (amount_0, amount_1) = result.unwrap();
    assert!(amount_0 > 0);
    assert!(amount_1 > 0);
}

#[test]
fn test_price_impact_calculation() {
    // Test the basic price impact calculation
    let impact = TWAMMCalculator::calculate_price_impact(
        1000,   // trade_size
        100000, // reserve_in
        100000, // reserve_out
    );

    assert!(impact.is_ok());
    let impact_value = impact.unwrap();
    assert!(impact_value < 10000); // Less than 100% impact
}

#[test]
fn test_edge_cases() {
    let mut calculator = TWAMMCalculator::new();

    // Test with zero sell rate
    let result = calculator.calculate_virtual_trades(
        0,       // sell_rate_0
        0,       // sell_rate_1
        100,     // blocks_elapsed
        1000000, // reserve_0
        1000000, // reserve_1
    );
    assert!(result.is_ok());

    // Test with very small values
    let result = calculator.calculate_virtual_trades(
        1,    // sell_rate_0
        0,    // sell_rate_1
        1,    // blocks_elapsed
        1000, // reserve_0
        1000, // reserve_1
    );
    assert!(result.is_ok());
}

#[test]
fn test_large_values() {
    let mut calculator = TWAMMCalculator::new();

    // Test with larger values
    let result = calculator.calculate_virtual_trades(
        100000,   // sell_rate_0
        50000,    // sell_rate_1
        1000,     // blocks_elapsed
        10000000, // reserve_0
        20000000, // reserve_1
    );

    assert!(result.is_ok());
    let (amount_0, amount_1) = result.unwrap();
    assert!(amount_0 > 0);
    assert!(amount_1 > 0);
}

#[test]
fn test_bidirectional_trading() {
    let mut calculator = TWAMMCalculator::new();

    // Test bidirectional trading
    let result = calculator.calculate_virtual_trades(
        1000,    // sell_rate_0
        500,     // sell_rate_1
        100,     // blocks_elapsed
        1000000, // reserve_0
        2000000, // reserve_1
    );

    assert!(result.is_ok());
    let (amount_0, amount_1) = result.unwrap();
    assert!(amount_0 > 0);
    assert!(amount_1 > 0);
}

#[test]
fn test_calculator_stats() {
    let mut calculator = TWAMMCalculator::new();

    // Perform some calculations
    let _ = calculator.calculate_virtual_trades(1000, 0, 100, 1000000, 1000000);
    let _ = calculator.calculate_virtual_trades(500, 0, 50, 1000000, 1000000);

    // Check that stats are updated
    assert!(calculator.total_calculations > 0);
    assert!(calculator.total_volume_processed > 0);

    // Test reset
    calculator.reset_statistics();
    assert_eq!(calculator.total_calculations, 0);
    assert_eq!(calculator.total_volume_processed, 0);
}

#[test]
fn test_deterministic_behavior() {
    let mut calculator1 = TWAMMCalculator::new();
    let mut calculator2 = TWAMMCalculator::new();

    // Same inputs should produce same outputs
    let result1 = calculator1.calculate_virtual_trades(1000, 0, 100, 1000000, 1000000);
    let result2 = calculator2.calculate_virtual_trades(1000, 0, 100, 1000000, 1000000);

    assert!(result1.is_ok());
    assert!(result2.is_ok());

    let (amount_0_1, amount_1_1) = result1.unwrap();
    let (amount_0_2, amount_1_2) = result2.unwrap();

    assert_eq!(amount_0_1, amount_0_2);
    assert_eq!(amount_1_1, amount_1_2);
}

#[test]
fn test_performance_basic() {
    let mut calculator = TWAMMCalculator::new();
    let start = Instant::now();

    // Perform 100 calculations
    for i in 0..100 {
        let _ = calculator.calculate_virtual_trades(1000 + i, 0, 100, 1000000, 1000000);
    }

    let duration = start.elapsed();

    // Should complete in reasonable time
    assert!(duration.as_millis() < 1000);
    println!("100 calculations took: {:?}", duration);
}
