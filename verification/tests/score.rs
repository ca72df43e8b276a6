use rankforum::score::calculate_vote_score;
use rankforum::score::calculate_vote_impact;
use rankforum::score::level;
use rankforum::score::minimal_score_of_level;
use rankforum::score::textual_integer_add;
use rankforum::score::textual_integer_add_positive;
use rankforum::score::textual_integer_is_positive;
use rankforum::score::textual_integer_is_smaller;
use rankforum::score::textual_integer_mul;
use rankforum::score::textual_integer_mul_positive;
use rankforum::score::textual_integer_pow;
use rankforum::score::textual_integer_sub;
use rankforum::score::textual_integer_sub_positive;

#[test]
fn test_calculate_vote_score() {
    // respect from people who are at the same level as you
    assert_eq!(calculate_vote_score(0, 0), "1");
    assert_eq!(calculate_vote_score(1, 1), "100");
    assert_eq!(calculate_vote_score(2, 2), "10000");

    // respect from people who are at a lower level than you
    assert_eq!(calculate_vote_score(1, 0), "1");
    assert_eq!(calculate_vote_score(2, 0), "1");
    assert_eq!(calculate_vote_score(2, 1), "100");

    // respect from people who are at a higher level than you
    // no matter how high the voter level is, the score will not exceed 10 * target_minimal_score
    assert_eq!(calculate_vote_score(0, 1), "10");
    assert_eq!(calculate_vote_score(0, 5), "10");
    assert_eq!(calculate_vote_score(1, 5), "1000");
}

#[test]
fn test_textual_integer_add() {
    assert_eq!(textual_integer_add("0", "0"), "0");
    assert_eq!(textual_integer_add("1", "1"), "2");
    assert_eq!(textual_integer_add("9", "1"), "10");
    assert_eq!(textual_integer_add("99", "1"), "100");
    assert_eq!(textual_integer_add("999", "1"), "1000");
    assert_eq!(textual_integer_add("999", "2"), "1001");
    assert_eq!(textual_integer_add("999", "99"), "1098");
    assert_eq!(textual_integer_add("999", "999"), "1998");
    assert_eq!(textual_integer_add("999", "9999"), "10998");
    assert_eq!(
        textual_integer_add("1167167131617671654171616571", "5716516716714657161671671641"),
        "6883683848332328815843288212"
    );
    assert_eq!(textual_integer_add("-1", "1"), "0");
    assert_eq!(textual_integer_add("-1", "-1"), "-2");
}

#[test]
fn test_textual_integer_sub() {
    assert_eq!(textual_integer_sub("0", "0"), "0");
    assert_eq!(textual_integer_sub("1", "1"), "0");
    assert_eq!(textual_integer_sub("10", "1"), "9");
    assert_eq!(textual_integer_sub("100", "1"), "99");
    assert_eq!(textual_integer_sub("1000", "1"), "999");
    assert_eq!(textual_integer_sub("1001", "2"), "999");
    assert_eq!(textual_integer_sub("1098", "99"), "999");
    assert_eq!(textual_integer_sub("1998", "999"), "999");
    assert_eq!(textual_integer_sub("10998", "9999"), "999");
    assert_eq!(
        textual_integer_sub("6883683848332328815843288212", "5716516716714657161671671641"),
        "1167167131617671654171616571"
    );

    assert_eq!(textual_integer_sub("0", "1"), "-1");
    assert_eq!(textual_integer_sub("-100", "-100"), "0");
    assert_eq!(textual_integer_sub("100", "-100"), "200");
    assert_eq!(textual_integer_sub("-100", "100"), "-200");
}

#[test]
fn test_textual_integer_pow() {
    assert_eq!(textual_integer_pow("2", 0), "1");
    assert_eq!(textual_integer_pow("2", 1), "2");
    assert_eq!(textual_integer_pow("2", 2), "4");
    assert_eq!(textual_integer_pow("2", 3), "8");
    assert_eq!(textual_integer_pow("2", 10), "1024");
    assert_eq!(textual_integer_pow("10", 0), "1");
    assert_eq!(textual_integer_pow("10", 1), "10");
    assert_eq!(textual_integer_pow("10", 2), "100");
    assert_eq!(textual_integer_pow("10", 3), "1000");
    assert_eq!(textual_integer_pow("123", 2), "15129");
    assert_eq!(textual_integer_pow("0", 3), "0");
    assert_eq!(textual_integer_pow("1", 5), "1");
    assert_eq!(textual_integer_pow("99", 2), "9801");
}

#[test]
fn test_textual_integer_mul() {
    assert_eq!(textual_integer_mul("0", "0"), "0");
    assert_eq!(textual_integer_mul("1", "0"), "0");
    assert_eq!(textual_integer_mul("0", "1"), "0");
    assert_eq!(textual_integer_mul("1", "1"), "1");
    assert_eq!(textual_integer_mul("2", "3"), "6");
    assert_eq!(textual_integer_mul("10", "10"), "100");
    assert_eq!(textual_integer_mul("12", "10"), "120");
    assert_eq!(textual_integer_mul("123", "456"), "56088");
    assert_eq!(textual_integer_mul("999", "999"), "998001");
    assert_eq!(textual_integer_mul("123456789", "987654321"), "121932631112635269");
    assert_eq!(textual_integer_mul("-2", "3"), "-6");
    assert_eq!(textual_integer_mul("2", "-3"), "-6");
    assert_eq!(textual_integer_mul("-2", "-3"), "6");
    assert_eq!(textual_integer_mul("-100", "10"), "-1000");
    assert_eq!(textual_integer_mul("100", "-10"), "-1000");
    assert_eq!(textual_integer_mul("-100", "-10"), "1000");
    assert_eq!(textual_integer_mul("123", "-456"), "-56088");
    assert_eq!(textual_integer_mul("-123", "456"), "-56088");
    assert_eq!(textual_integer_mul("-123", "-456"), "56088");
}

#[test]
fn test_level() {
    assert_eq!(level("0"), 0);
    assert_eq!(level("1"), 0);
    assert_eq!(level("99"), 0);
    assert_eq!(level("100"), 1);
    assert_eq!(level("101"), 1);
    assert_eq!(level("200"), 1);
    assert_eq!(level("9999"), 1);
    assert_eq!(level("10000"), 2);
    assert_eq!(level("10001"), 2);
    assert_eq!(level("12345"), 2);
    assert_eq!(level("999999"), 2);
    assert_eq!(level("1000000"), 3);
    assert_eq!(level("1000001"), 3);
    assert_eq!(level("1234567"), 3);
    assert_eq!(level("99999999"), 3);
    assert_eq!(level("100000000"), 4);
    assert_eq!(level("100000001"), 4);
    assert_eq!(level("123456789"), 4);
    assert_eq!(level("10000000000"), 5);
    assert_eq!(level("999999999999"), 5);
    assert_eq!(level("1000000000000"), 6);
    assert_eq!(level("123456789012345"), 7);

    assert_eq!(level("-1"), 1);
    assert_eq!(level("-99"), 1);
    assert_eq!(level("-100"), 1);
    assert_eq!(level("-1000000"), 1);
}

#[test]
fn test_add_matches_native_arithmetic() {
    // Addition, subtraction and multiplication agree with native integers
    // over a sweep of values.
    let samples: Vec<i64> = vec![
        0, 1, 2, 9, 10, 11, 99, 100, 101, 999, 12345, 99999, 123456789, -1, -2, -10, -99, -100,
        -12345, -99999, -123456789,
    ];
    for &a in &samples {
        for &b in &samples {
            let sa = a.to_string();
            let sb = b.to_string();
            assert_eq!(textual_integer_add(&sa, &sb), (a + b).to_string());
            assert_eq!(textual_integer_sub(&sa, &sb), (a - b).to_string());
            assert_eq!(textual_integer_mul(&sa, &sb), (a * b).to_string());
        }
    }
}

#[test]
fn test_pow_of_zero_exponent_is_one() {
    // pow(base, 0) == 1 for every base, including 0.
    for base in ["0", "1", "2", "9", "10", "99", "100", "123456789"] {
        assert_eq!(textual_integer_pow(base, 0), "1");
    }
}

#[test]
fn test_level_of_minimal_score() {
    // level(100^n) == n, and level never decreases with the score.
    for n in 0u8..=10 {
        let floor = minimal_score_of_level(n);
        assert_eq!(level(&floor), n);
    }
    let increasing = ["0", "1", "5", "99", "100", "5000", "9999", "10000", "999999", "1000000"];
    let mut prev = 0u8;
    for s in increasing {
        let l = level(s);
        assert!(l >= prev);
        prev = l;
    }
}

#[test]
fn test_minimal_score_of_level_values() {
    assert_eq!(minimal_score_of_level(0), "1");
    assert_eq!(minimal_score_of_level(1), "100");
    assert_eq!(minimal_score_of_level(2), "10000");
    assert_eq!(minimal_score_of_level(5), "10000000000");
}

#[test]
fn test_vote_weight_never_zero() {
    for t in 0u8..6 {
        for v in 0u8..6 {
            let w = calculate_vote_score(t, v);
            assert_ne!(w, "0");
            if v > t {
                assert_eq!(w, textual_integer_mul(&minimal_score_of_level(t), "10"));
            } else {
                assert_eq!(w, minimal_score_of_level(v));
            }
        }
    }
}

#[test]
fn test_calculate_vote_impact_values() {
    assert_eq!(calculate_vote_impact(0, 0), 1);
    assert_eq!(calculate_vote_impact(1, 1), 100);
    assert_eq!(calculate_vote_impact(2, 2), 10000);
    assert_eq!(calculate_vote_impact(1, 0), 1);
    assert_eq!(calculate_vote_impact(2, 1), 100);
    assert_eq!(calculate_vote_impact(0, 1), 10);
    assert_eq!(calculate_vote_impact(0, 5), 10);
    assert_eq!(calculate_vote_impact(1, 5), 1000);
}

#[test]
fn test_textual_integer_helpers() {
    assert!(textual_integer_is_positive("0"));
    assert!(textual_integer_is_positive("42"));
    assert!(!textual_integer_is_positive("-42"));

    assert!(textual_integer_is_smaller("9", "10"));
    assert!(!textual_integer_is_smaller("10", "9"));
    assert!(!textual_integer_is_smaller("10", "10"));
    assert!(textual_integer_is_smaller("99", "100"));
    assert!(textual_integer_is_smaller("123", "124"));

    assert_eq!(textual_integer_add_positive("999", "1"), "1000");
    assert_eq!(textual_integer_add_positive("0", "0"), "0");
    assert_eq!(textual_integer_sub_positive("1000", "1"), "999");
    assert_eq!(textual_integer_sub_positive("5", "5"), "0");
    assert_eq!(textual_integer_mul_positive("25", "4"), "100");
    assert_eq!(textual_integer_mul_positive("0", "7"), "0");
}
