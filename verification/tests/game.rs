use guessing_game::game::{evaluate, parse_guess, play, run_round, GuessError, Outcome};

#[test]
fn evaluate_orders_guess_against_secret() {
    assert_eq!(evaluate(50, 75), Outcome::TooLow);
    assert_eq!(evaluate(90, 75), Outcome::TooHigh);
    assert_eq!(evaluate(75, 75), Outcome::Correct);
}

#[test]
fn evaluate_trichotomy_over_whole_range() {
    for g in 1u32..=100 {
        for s in 1u32..=100 {
            let r = evaluate(g, s);
            assert_eq!(r == Outcome::TooLow, g < s);
            assert_eq!(r == Outcome::TooHigh, g > s);
            assert_eq!(r == Outcome::Correct, g == s);
        }
    }
}

#[test]
fn round_fifty_against_seventy_five_is_too_low() {
    assert_eq!(run_round(Some(b"50".as_slice()), 75), Ok(Outcome::TooLow));
}

#[test]
fn round_ninety_against_seventy_five_is_too_high() {
    assert_eq!(run_round(Some(b"90".as_slice()), 75), Ok(Outcome::TooHigh));
}

#[test]
fn round_seventy_five_against_seventy_five_is_correct() {
    assert_eq!(run_round(Some(b"75".as_slice()), 75), Ok(Outcome::Correct));
}

#[test]
fn boundary_one_against_one_is_correct() {
    assert_eq!(run_round(Some(b"1".as_slice()), 1), Ok(Outcome::Correct));
}

#[test]
fn boundary_hundred_against_one_is_too_high() {
    assert_eq!(run_round(Some(b"100".as_slice()), 1), Ok(Outcome::TooHigh));
}

#[test]
fn malformed_input_is_a_parse_error() {
    assert_eq!(parse_guess(b"abc"), Err(GuessError::ParseError));
    assert_eq!(
        run_round(Some(b"abc".as_slice()), 75),
        Err(GuessError::ParseError)
    );
}

#[test]
fn missing_line_is_an_input_read_error() {
    assert_eq!(run_round(None, 50), Err(GuessError::InputReadError));
    assert_eq!(play(None), Err(GuessError::InputReadError));
}

#[test]
fn parse_accepts_plain_digits() {
    assert_eq!(parse_guess(b"50"), Ok(50));
    assert_eq!(parse_guess(b"1"), Ok(1));
    assert_eq!(parse_guess(b"100"), Ok(100));
}

#[test]
fn parse_trims_surrounding_whitespace() {
    assert_eq!(parse_guess(b" 42 "), Ok(42));
    assert_eq!(parse_guess(b"\t7\r\n"), Ok(7));
    assert_eq!(parse_guess(b"64\n"), Ok(64));
}

#[test]
fn parse_keeps_leading_zeros_out_of_the_value() {
    assert_eq!(parse_guess(b"007"), Ok(7));
    assert_eq!(parse_guess(b"00000000000000000042"), Ok(42));
}

#[test]
fn parse_rejects_empty_and_blank_lines() {
    assert_eq!(parse_guess(b""), Err(GuessError::ParseError));
    assert_eq!(parse_guess(b"   "), Err(GuessError::ParseError));
    assert_eq!(parse_guess(b"\n"), Err(GuessError::ParseError));
}

#[test]
fn parse_rejects_interior_junk() {
    assert_eq!(parse_guess(b"12 34"), Err(GuessError::ParseError));
    assert_eq!(parse_guess(b"4x2"), Err(GuessError::ParseError));
    assert_eq!(parse_guess(b"-5"), Err(GuessError::ParseError));
    assert_eq!(parse_guess(b"+5"), Err(GuessError::ParseError));
}

#[test]
fn parse_handles_the_u32_boundary() {
    assert_eq!(parse_guess(b"4294967295"), Ok(u32::MAX));
    assert_eq!(parse_guess(b"4294967296"), Err(GuessError::ParseError));
    assert_eq!(
        parse_guess(b"99999999999999999999"),
        Err(GuessError::ParseError)
    );
}

#[test]
fn play_reports_the_secret_it_compared_against() {
    for _ in 0..100 {
        let (secret, outcome) = play(Some(b"50".as_slice())).unwrap();
        assert!((1..=100).contains(&secret));
        assert_eq!(outcome == Outcome::TooLow, 50 < secret);
        assert_eq!(outcome == Outcome::TooHigh, 50 > secret);
        assert_eq!(outcome == Outcome::Correct, 50 == secret);
    }
}

#[test]
fn play_on_a_guess_below_the_range_is_too_low() {
    let (_, outcome) = play(Some(b"0".as_slice())).unwrap();
    assert_eq!(outcome, Outcome::TooLow);
}

#[test]
fn play_on_a_guess_above_the_range_is_too_high() {
    let (_, outcome) = play(Some(b"101".as_slice())).unwrap();
    assert_eq!(outcome, Outcome::TooHigh);
}

#[test]
fn play_on_a_malformed_line_is_a_parse_error() {
    assert_eq!(play(Some(b"abc".as_slice())), Err(GuessError::ParseError));
}

#[test]
fn secret_draws_are_roughly_uniform() {
    let trials: usize = 100_000;
    let mut counts = [0u32; 101];
    for _ in 0..trials {
        let (secret, _) = play(Some(b"50".as_slice())).unwrap();
        assert!((1..=100).contains(&secret));
        counts[secret as usize] += 1;
    }
    let expected: f64 = trials as f64 / 100.0;
    let mut chi2: f64 = 0.0;
    for bin in 1..=100usize {
        let diff: f64 = counts[bin] as f64 - expected;
        chi2 += diff * diff / expected;
    }
    // 99 degrees of freedom: a uniform source stays far below this bound
    assert!(chi2 < 200.0, "chi-square statistic too large: {chi2}");
}
