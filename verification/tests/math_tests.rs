// Fixed-point numerics and the closed-form engine.

use twamm::twamm_math::{mul_div, sqrt_wide};
use twamm::{FixedPoint, TWAMMath, TwammError};

const ONE: u128 = 1_000_000_000_000_000_000;

#[test]
fn test_sqrt_exact_values() {
    assert_eq!(TWAMMath::sqrt(0), 0);
    assert_eq!(TWAMMath::sqrt(1), 1);
    assert_eq!(TWAMMath::sqrt(2), 1);
    assert_eq!(TWAMMath::sqrt(3), 1);
    assert_eq!(TWAMMath::sqrt(4), 2);
    assert_eq!(TWAMMath::sqrt(15), 3);
    assert_eq!(TWAMMath::sqrt(16), 4);
    assert_eq!(TWAMMath::sqrt(999_999), 999);
    assert_eq!(TWAMMath::sqrt(1_000_000_000_000), 1_000_000);
    assert_eq!(TWAMMath::sqrt(2_000_000_000_000), 1_414_213);
    // The square root of the full 128-bit range is the full 64-bit range.
    assert_eq!(TWAMMath::sqrt(u128::MAX), u64::MAX as u128);
}

#[test]
fn test_fixed_point_round_trip() {
    let fp = FixedPoint::from_integer(5);
    assert_eq!(fp.value, 5 * ONE);
    assert_eq!(fp.precision, 18);
    assert_eq!(fp.to_integer(), 5);

    let custom = FixedPoint::new(2_500_000, 6);
    assert_eq!(custom.to_integer(), 2);
}

#[test]
fn test_exp_taylor() {
    // e^0 is exactly one scale unit.
    assert_eq!(TWAMMath::exp_taylor(0, 18), Ok(ONE));
    // The divergence guard rejects arguments of fifty scale units.
    assert_eq!(TWAMMath::exp_taylor(50 * ONE, 18), Err(TwammError::MathOverflow));
    // e^1 lands close to 2.71828...
    let e = TWAMMath::exp_taylor(ONE, 18).unwrap();
    assert!(e > 2_718_281_828_000_000_000 - 1_000_000_000);
    assert!(e < 2_718_281_829_000_000_000);
    // Twenty scale units stay within the working domain
    // (the twenty-term truncation carries just over half of e^20).
    let e20 = TWAMMath::exp_taylor(20 * ONE, 18).unwrap();
    assert!(e20 > 260_000_000 * ONE);
    assert!(e20 < 280_000_000 * ONE);
}

#[test]
fn test_ln_newton() {
    assert_eq!(TWAMMath::ln_newton(0, 18), Err(TwammError::InvalidInput));
    // ln(1) is exactly zero.
    assert_eq!(TWAMMath::ln_newton(ONE, 18), Ok(0));
}

#[test]
fn test_power_and_compound_interest() {
    // x^0 == 1 at scale.
    assert_eq!(TWAMMath::power(123 * ONE, 0, 18), Ok(ONE));
    // 2^3 == 8 at scale, exactly.
    assert_eq!(TWAMMath::power(2 * ONE, 3, 18), Ok(8 * ONE));
    // 1^e == 1 even at the largest precision, where the scale factor
    // squared passes 128 bits.
    let one38: u128 = 100_000_000_000_000_000_000_000_000_000_000_000_000;
    assert_eq!(TWAMMath::power(one38, 5, 38), Ok(one38));
    // 1000 * (1 + 0.1)^2 == 1210, exactly.
    assert_eq!(
        TWAMMath::compound_interest(1000, ONE / 10, 2, 18),
        Ok(1210)
    );
}

#[test]
fn test_twap() {
    assert_eq!(
        TWAMMath::calculate_twap(vec![100, 200], vec![1, 3], 18),
        Ok(175)
    );
    assert_eq!(
        TWAMMath::calculate_twap(vec![], vec![], 18),
        Err(TwammError::InvalidInput)
    );
    assert_eq!(
        TWAMMath::calculate_twap(vec![100], vec![1, 2], 18),
        Err(TwammError::InvalidInput)
    );
    assert_eq!(
        TWAMMath::calculate_twap(vec![100, 200], vec![0, 0], 18),
        Err(TwammError::DivisionByZero)
    );
}

#[test]
fn test_price_impact() {
    assert_eq!(
        TWAMMath::calculate_price_impact(1000, 0, 1_000_000, 18),
        Err(TwammError::InvalidReserves)
    );
    // A tiny trade suffers no measurable impact.
    assert_eq!(
        TWAMMath::calculate_price_impact(1000, 1_000_000, 1_000_000, 18),
        Ok(0)
    );
    // Trading 1% of the reserve: output 9901 against the estimate 10000,
    // a shortfall of 99 basis points.
    assert_eq!(
        TWAMMath::calculate_price_impact(10000, 1_000_000, 1_000_000, 18),
        Ok(99)
    );
    // Trading 10% of the reserve: output 90910 against the estimate
    // 100000, a shortfall of 909 basis points.
    assert_eq!(
        TWAMMath::calculate_price_impact(100_000, 1_000_000, 1_000_000, 18),
        Ok(909)
    );
    // Reserves of a full 64-bit word each stay within the working domain.
    assert!(
        TWAMMath::calculate_price_impact(1 << 32, 1 << 64, 1 << 64, 18).is_ok()
    );
}

#[test]
fn test_mul_div_and_sqrt_wide() {
    assert_eq!(mul_div(10, 10, 3), Ok(33));
    // The full 256-bit intermediate product is handled exactly.
    assert_eq!(mul_div(u128::MAX, u128::MAX, u128::MAX), Ok(u128::MAX));
    // A quotient beyond 128 bits is an overflow.
    assert_eq!(mul_div(1 << 127, 4, 2), Err(TwammError::MathOverflow));

    assert_eq!(sqrt_wide(0, 5), 0);
    assert_eq!(sqrt_wide(1 << 64, 1 << 64), 1 << 64);
    assert_eq!(sqrt_wide(u128::MAX, u128::MAX), u128::MAX);
    assert_eq!(sqrt_wide(2, 1_000_000_000_000), 1_414_213);
}

#[test]
fn test_virtual_amm_state_no_op() {
    // With both rates zero the reserves come back unchanged, whatever the
    // window length.
    assert_eq!(
        TWAMMath::calculate_virtual_amm_state(123, 456, 0, 0, 100000, 18),
        Ok((123, 456))
    );
    assert_eq!(
        TWAMMath::calculate_virtual_amm_state(1, 1, 0, 0, 0, 18),
        Ok((1, 1))
    );
    assert_eq!(
        TWAMMath::calculate_virtual_amm_state(u128::MAX, 1, 0, 0, 7, 18),
        Ok((u128::MAX, 1))
    );
}

#[test]
fn test_unidirectional_trade_scenario() {
    // Even million reserves, 1000 of token 0 sold per block for 100
    // blocks: a tenth of the reserve moves in.
    let (new_0, new_1) =
        TWAMMath::calculate_virtual_amm_state(1_000_000, 1_000_000, 1000, 0, 100, 18).unwrap();
    assert_eq!(new_0, 1_050_000);
    assert_eq!(new_1, 952_380);

    let out = 1_000_000 - new_1;
    // The output is positive but strictly below the no-slippage estimate
    // of 100000.
    assert!(out > 0);
    assert!(out < 100_000);
    assert_eq!(out, 47_620);

    // Constant product never increases.
    assert!(new_0 * new_1 <= 1_000_000u128 * 1_000_000u128);
}

#[test]
fn test_constant_product_non_increase() {
    let cases: Vec<(u128, u128, u128, u128, u128)> = vec![
        (1_000_000, 1_000_000, 1000, 0, 100),
        (1_000_000, 2_000_000, 1000, 500, 100),
        (10_000_000, 20_000_000, 100_000, 50_000, 1000),
        (1000, 1000, 1, 0, 1),
    ];
    for (r0, r1, s0, s1, blocks) in cases {
        let (n0, n1) = TWAMMath::calculate_virtual_amm_state(r0, r1, s0, s1, blocks, 18).unwrap();
        assert!(n0 * n1 <= r0 * r1);
    }
}

#[test]
fn test_engine_error_cases() {
    // Zero reserves under a nonzero rate leave no liquidity to trade.
    assert_eq!(
        TWAMMath::calculate_virtual_amm_state(0, 0, 1, 0, 10, 18),
        Err(TwammError::InsufficientLiquidity)
    );
    // A bidirectional window cannot price token 0 out of a zero reserve.
    assert_eq!(
        TWAMMath::calculate_virtual_amm_state(0, 1000, 1, 1, 10, 18),
        Err(TwammError::DivisionByZero)
    );
    assert_eq!(
        TWAMMath::execute_virtual_orders_closed_form(1, 0, 10, 0, 1000),
        Err(TwammError::InvalidReserves)
    );
}

#[test]
fn test_validate_twamm_constraints() {
    assert_eq!(
        TWAMMath::validate_twamm_constraints(0, 1_000_000, 10, 10, 100),
        Err(TwammError::InvalidReserves)
    );
    assert_eq!(
        TWAMMath::validate_twamm_constraints(1_000_000, 1_000_000, 10, 10, 0),
        Err(TwammError::InvalidInput)
    );
    assert_eq!(
        TWAMMath::validate_twamm_constraints(1_000_000, 1_000_000, 10, 10, 100_001),
        Err(TwammError::InvalidInput)
    );
    // Rates above a thousandth of the reserve per block are too high.
    assert_eq!(
        TWAMMath::validate_twamm_constraints(1_000_000, 1_000_000, 1001, 0, 100),
        Err(TwammError::InvalidInput)
    );
    // A total sell volume reaching the reserve drains it.
    assert_eq!(
        TWAMMath::validate_twamm_constraints(1_000_000, 1_000_000, 1000, 0, 100_000),
        Err(TwammError::InsufficientLiquidity)
    );
    assert_eq!(
        TWAMMath::validate_twamm_constraints(1_000_000, 1_000_000, 1000, 1000, 100),
        Ok(())
    );
}

#[test]
fn test_execution_quality() {
    // Full delivery, no impact: a perfect 100.
    assert_eq!(TWAMMath::calculate_execution_quality(1000, 1000, 0, 18), 100);
    // Half delivery and a 6% impact: 25 + 49.
    assert_eq!(TWAMMath::calculate_execution_quality(1000, 500, 600, 18), 74);
    // Zero expectation scores the full ratio component.
    assert_eq!(TWAMMath::calculate_execution_quality(0, 5, 10000, 18), 50);
    // Overdelivery clamps at the 50-point component cap.
    assert_eq!(TWAMMath::calculate_execution_quality(10, 1000, 0, 18), 100);
}

#[test]
fn test_time_decay_factor() {
    assert_eq!(
        TWAMMath::calculate_time_decay_factor(50, 100, 18),
        Ok(ONE / 2)
    );
    assert_eq!(TWAMMath::calculate_time_decay_factor(200, 100, 18), Ok(ONE));
    assert_eq!(
        TWAMMath::calculate_time_decay_factor(1, 0, 18),
        Err(TwammError::InvalidInput)
    );
}

#[test]
fn test_gas_cost_estimates() {
    assert_eq!(TWAMMath::estimate_gas_cost(0, 5), 85000);
    assert_eq!(TWAMMath::estimate_gas_cost(1, 0), 150000);
    assert_eq!(TWAMMath::estimate_gas_cost(2, 1), 51000);
    assert_eq!(TWAMMath::estimate_gas_cost(9, 0), 100000);
    // The complexity surcharge saturates instead of overflowing.
    assert_eq!(TWAMMath::estimate_gas_cost(0, u128::MAX), u128::MAX);
}

#[test]
fn test_mev_protection_score() {
    assert_eq!(TWAMMath::calculate_mev_protection_score(200, 0, 18), 50);
    assert_eq!(TWAMMath::calculate_mev_protection_score(50, ONE, 18), 75);
    assert_eq!(TWAMMath::calculate_mev_protection_score(200, 2 * ONE, 18), 100);
}

#[test]
fn test_optimal_rate() {
    // The uniform rate already meets a 100-bps target.
    assert_eq!(
        TWAMMath::calculate_optimal_rate(1000, 100, 1_000_000, 1_000_000, 100, 18),
        Ok(10)
    );
    // When it does not, the bisection returns a rate below the uniform
    // one whose impact meets the target.
    let rate = TWAMMath::calculate_optimal_rate(100_000, 10, 1_000_000, 1_000_000, 50, 18)
        .unwrap();
    assert!(rate < 10000);
    let impact = TWAMMath::calculate_price_impact(rate, 1_000_000, 1_000_000, 18).unwrap();
    assert!(impact <= 50);
    // When no positive rate meets the target, the search falls back to
    // the idle rate zero, whose impact is zero.
    assert_eq!(
        TWAMMath::calculate_optimal_rate(2, 1, 1, 100, 0, 18),
        Ok(0)
    );
    assert_eq!(TWAMMath::calculate_price_impact(0, 1, 100, 18), Ok(0));
    assert_eq!(
        TWAMMath::calculate_optimal_rate(1000, 0, 1_000_000, 1_000_000, 100, 18),
        Err(TwammError::InvalidInput)
    );
}

#[test]
fn test_unidirectional_twamm_output() {
    assert_eq!(
        TWAMMath::calculate_unidirectional_twamm(100_000, 100, 1_000_000, 1_000_000),
        Ok(47_620)
    );
    assert_eq!(
        TWAMMath::calculate_unidirectional_twamm(100_000, 0, 1_000_000, 1_000_000),
        Err(TwammError::InvalidInput)
    );
}

#[test]
fn test_error_reason_codes() {
    assert_eq!(TwammError::InvalidInput.reason(), "invalid input");
    assert_eq!(TwammError::MathOverflow.reason(), "math overflow");
    assert_eq!(TwammError::DivisionByZero.reason(), "division by zero");
    assert_eq!(
        TwammError::InsufficientLiquidity.reason(),
        "insufficient liquidity"
    );
    assert_eq!(TwammError::InvalidReserves.reason(), "invalid reserves");
    assert_eq!(TwammError::OrderNotFound.reason(), "order not found");
    assert_eq!(TwammError::NotOrderOwner.reason(), "not order owner");
}
