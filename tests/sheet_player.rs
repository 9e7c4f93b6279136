use sheet_player::{
    average_token_time, calculate_token_durations, delay_micros, parse_sheet, playback_actions,
    token_actions, Action, Delay, DistributionError, Key, ParseError, PauseDistribution, Token,
    TokenDurations, UNIT,
};

fn tokens_of(text: &str) -> Vec<Token> {
    parse_sheet(text).unwrap().tokens
}

fn example_distribution() -> PauseDistribution {
    PauseDistribution {
        short: 200_000,
        standard: 300_000,
        long: 500_000,
        pause_ratio: 20_000_000,
        many_fast_proportion: 150_000,
    }
}

#[test]
fn group_without_space_is_a_chord() {
    let tokens = tokens_of("#length 0:10\n[AB]");
    assert_eq!(tokens, vec![Token::Many(vec![Key('A'), Key('B')])]);
}

#[test]
fn group_with_space_is_an_arpeggio() {
    let tokens = tokens_of("#length 0:10\n[A B]");
    assert_eq!(tokens, vec![Token::ManyFast(vec![Key('A'), Key('B')])]);
}

#[test]
fn bar_is_a_pause_between_keys() {
    let tokens = tokens_of("#length 0:10\nA|B");
    assert_eq!(
        tokens,
        vec![Token::Single(Key('A')), Token::Pause, Token::Single(Key('B'))]
    );
}

#[test]
fn length_define_gives_seconds() {
    let sheet = parse_sheet("#length 1:30").unwrap();
    assert_eq!(sheet.header.length, 90 * UNIT);
    assert!(sheet.tokens.is_empty());
}

#[test]
fn example_distribution_durations() {
    let d = calculate_token_durations(2 * UNIT, &example_distribution()).unwrap();
    assert!((d.single as i64 - 1_619_000).abs() <= 1_000);
    assert_eq!(d.single, 1_619_047);
    assert_eq!(d.many_fast, 300_000);
    assert!((d.short_pause as i64 - 8_100).abs() <= 1_000);
    assert!((d.pause as i64 - 12_140).abs() <= 1_000);
    assert!((d.long_pause as i64 - 20_240).abs() <= 1_000);
    assert_eq!(d.short_pause, 8_095);
    assert_eq!(d.pause, 12_142);
    assert_eq!(d.long_pause, 20_238);
}

#[test]
fn close_without_open_fails() {
    assert_eq!(
        parse_sheet("#length 1:00\nA]").unwrap_err(),
        ParseError::GroupCloseWithoutOpen
    );
}

#[test]
fn blank_run_is_one_long_pause() {
    let expected = vec![Token::Single(Key('A')), Token::LongPause, Token::Single(Key('B'))];
    assert_eq!(tokens_of("#length 1:00\nA\n\nB"), expected);
    assert_eq!(tokens_of("#length 1:00\nA\n\n\n\n\nB"), expected);
    assert_eq!(tokens_of("#length 1:00\r\nA\r\n\r\n\r\nB\r\n"), expected);
}

#[test]
fn parsing_twice_gives_the_same_sheet() {
    let text = "#title Song\n#writer Someone\n#length 2:05.5\n\n[AB] [C D]|E\n\nF G";
    let a = parse_sheet(text).unwrap();
    let b = parse_sheet(text).unwrap();
    assert_eq!(a, b);
}

#[test]
fn header_defines_are_read() {
    let sheet = parse_sheet("#title A Song\n#writer Someone\n#length 2:05.5\n#title Later").unwrap();
    assert_eq!(sheet.header.title, Some("Later".to_string()));
    assert_eq!(sheet.header.writer, Some("Someone".to_string()));
    assert_eq!(sheet.header.length, 125_500_000);
}

#[test]
fn missing_optional_defines_are_absent() {
    let sheet = parse_sheet("#length 0:.25\n#other value").unwrap();
    assert_eq!(sheet.header.title, None);
    assert_eq!(sheet.header.writer, None);
    assert_eq!(sheet.header.length, 250_000);
}

#[test]
fn space_outside_group_is_short_pause() {
    assert_eq!(
        tokens_of("#length 1:00\nA B"),
        vec![Token::Single(Key('A')), Token::ShortPause, Token::Single(Key('B'))]
    );
}

#[test]
fn bar_inside_group_is_a_pause() {
    assert_eq!(
        tokens_of("#length 1:00\n[A|B]"),
        vec![Token::Pause, Token::Many(vec![Key('A'), Key('B')])]
    );
}

#[test]
fn unclosed_group_is_dropped_at_end_of_line() {
    assert_eq!(
        tokens_of("#length 1:00\n[AB\nC"),
        vec![Token::Single(Key('C'))]
    );
}

#[test]
fn reopening_a_group_starts_afresh() {
    assert_eq!(
        tokens_of("#length 1:00\n[A B[CD]"),
        vec![Token::Many(vec![Key('C'), Key('D')])]
    );
}

#[test]
fn empty_group_is_rejected() {
    assert_eq!(
        parse_sheet("#length 1:00\n[]").unwrap_err(),
        ParseError::GroupCloseMissingPayload
    );
    assert_eq!(
        parse_sheet("#length 1:00\n[ ]").unwrap_err(),
        ParseError::GroupCloseMissingPayload
    );
}

#[test]
fn long_fractions_round_down_to_microseconds() {
    let sheet = parse_sheet("#length 0:30.1234567").unwrap();
    assert_eq!(sheet.header.length, 30_123_456);
    let sheet = parse_sheet("#length +1:+2.5").unwrap();
    assert_eq!(sheet.header.length, 62_500_000);
}

#[test]
fn unterminated_last_line_keeps_its_carriage_return() {
    assert_eq!(
        tokens_of("#length 1:00\r\nA\r"),
        vec![Token::Single(Key('A')), Token::Single(Key('\r'))]
    );
}

#[test]
fn define_without_space_fails() {
    assert_eq!(
        parse_sheet("#length").unwrap_err(),
        ParseError::MalformedDefineLine
    );
}

#[test]
fn missing_length_fails() {
    assert_eq!(parse_sheet("ABC").unwrap_err(), ParseError::MissingLengthDefine);
    assert_eq!(parse_sheet("").unwrap_err(), ParseError::MissingLengthDefine);
}

#[test]
fn length_without_colon_fails() {
    assert_eq!(
        parse_sheet("#length 90").unwrap_err(),
        ParseError::MalformedLengthFormat
    );
}

#[test]
fn bad_minutes_fail() {
    assert_eq!(
        parse_sheet("#length x:30").unwrap_err(),
        ParseError::MalformedLengthMinutes
    );
    assert_eq!(
        parse_sheet("#length :30").unwrap_err(),
        ParseError::MalformedLengthMinutes
    );
}

#[test]
fn bad_seconds_fail() {
    assert_eq!(
        parse_sheet("#length 1:3x").unwrap_err(),
        ParseError::MalformedLengthSeconds
    );
    assert_eq!(
        parse_sheet("#length 1:3e1").unwrap_err(),
        ParseError::MalformedLengthSeconds
    );
    assert_eq!(
        parse_sheet("#length 1:2:3").unwrap_err(),
        ParseError::MalformedLengthSeconds
    );
}

#[test]
fn huge_length_is_out_of_range() {
    assert_eq!(
        parse_sheet("#length 99999999999999999:00").unwrap_err(),
        ParseError::LengthOutOfRange
    );
    assert_eq!(
        parse_sheet("#length 0:99999999999999999999999").unwrap_err(),
        ParseError::LengthOutOfRange
    );
}

#[test]
fn zero_pause_ratio_is_rejected() {
    let mut d = example_distribution();
    d.pause_ratio = 0;
    assert_eq!(
        calculate_token_durations(UNIT, &d).unwrap_err(),
        DistributionError::InvalidDistributionRatio
    );
}

#[test]
fn proportions_not_summing_to_one_are_rejected() {
    let mut d = example_distribution();
    d.long = 499_999;
    assert_eq!(
        calculate_token_durations(UNIT, &d).unwrap_err(),
        DistributionError::InvalidDistributionSum
    );
    d.long = 500_001;
    assert_eq!(
        calculate_token_durations(UNIT, &d).unwrap_err(),
        DistributionError::InvalidDistributionSum
    );
}

#[test]
fn fast_proportion_above_one_is_rejected() {
    let mut d = example_distribution();
    d.many_fast_proportion = 1_000_001;
    assert_eq!(
        calculate_token_durations(UNIT, &d).unwrap_err(),
        DistributionError::InvalidFastProportion
    );
    d.many_fast_proportion = 1_000_000;
    assert!(calculate_token_durations(UNIT, &d).is_ok());
}

#[test]
fn pause_durations_add_up_to_the_pause_block() {
    let d = example_distribution();
    let t = calculate_token_durations(UNIT, &d).unwrap();
    let sum = t.short_pause + t.pause + t.long_pause;
    // (1 - 0.15) x (1 / 21) of a second
    let block = 850_000u64 * UNIT / 21_000_000;
    assert!(sum <= block && block <= sum + 2);
}

#[test]
fn largest_multiplier_does_not_overflow() {
    let mut d = example_distribution();
    d.pause_ratio = u32::MAX;
    d.many_fast_proportion = 0;
    let t = calculate_token_durations(u64::MAX, &d).unwrap();
    assert!(t.single < u64::MAX);
    assert_eq!(t.many_fast, 0);
}

#[test]
fn playback_of_each_token_kind() {
    let a = Key('a');
    let b = Key('b');
    assert_eq!(token_actions(&Token::Pause), vec![Action::Wait(Delay::Pause)]);
    assert_eq!(
        token_actions(&Token::Single(a)),
        vec![Action::Press(a), Action::Wait(Delay::Single), Action::Release(a)]
    );
    assert_eq!(
        token_actions(&Token::Many(vec![a, b])),
        vec![
            Action::Press(a),
            Action::Press(b),
            Action::Wait(Delay::Single),
            Action::Release(a),
            Action::Release(b)
        ]
    );
    assert_eq!(
        token_actions(&Token::ManyFast(vec![a, b])),
        vec![
            Action::Press(a),
            Action::Wait(Delay::ManyFast),
            Action::Release(a),
            Action::Press(b),
            Action::Wait(Delay::ManyFast),
            Action::Release(b)
        ]
    );
}

#[test]
fn playback_of_a_sheet_follows_its_tokens() {
    let sheet = parse_sheet("#length 0:03\nx y\n\n").unwrap();
    assert_eq!(
        playback_actions(&sheet),
        vec![
            Action::Press(Key('x')),
            Action::Wait(Delay::Single),
            Action::Release(Key('x')),
            Action::Wait(Delay::ShortPause),
            Action::Press(Key('y')),
            Action::Wait(Delay::Single),
            Action::Release(Key('y')),
            Action::Wait(Delay::LongPause)
        ]
    );
    assert_eq!(average_token_time(&sheet), Some(750_000));
}

#[test]
fn sheet_without_tokens_has_no_average() {
    let sheet = parse_sheet("#length 1:00").unwrap();
    assert_eq!(average_token_time(&sheet), None);
}

#[test]
fn delays_pick_their_duration() {
    let d = TokenDurations {
        short_pause: 1,
        pause: 2,
        long_pause: 3,
        single: 4,
        many_fast: 5,
    };
    assert_eq!(delay_micros(&d, Delay::ShortPause), 1);
    assert_eq!(delay_micros(&d, Delay::Pause), 2);
    assert_eq!(delay_micros(&d, Delay::LongPause), 3);
    assert_eq!(delay_micros(&d, Delay::Single), 4);
    assert_eq!(delay_micros(&d, Delay::ManyFast), 5);
}

#[test]
fn blank_run_length_does_not_matter_anywhere() {
    let cases = [("#length 1:00\nA", ""), ("", "#length 1:00\nB"), ("#length 1:00\r", "\rC")];
    for (s1, s2) in cases {
        let short = parse_sheet(&format!("{}\n\n{}", s1, s2));
        for k in 1..5 {
            let long = parse_sheet(&(s1.to_string() + &"\n".repeat(k + 1) + s2));
            assert_eq!(long, short);
        }
    }
}
