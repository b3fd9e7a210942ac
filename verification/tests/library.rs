use flagset_cli::clock::{epoch_day, today_days};
use flagset_cli::date::{days_fit, days_from_civil};
use flagset_cli::{bucket, json_escape, parse, EvalError, FlagInfo, ParseError};

fn parse_err(input: &str) -> ParseError {
    match parse(input) {
        Ok(_) => panic!("expected a parse error for {input:?}"),
        Err(e) => e,
    }
}

#[test]
fn bucket_is_fnv1a_of_flag_nul_key_mod_100() {
    assert_eq!(bucket("half", "u1"), 42);
    assert_eq!(bucket("half", "u2"), 31);
    assert_eq!(bucket("half", "u4"), 97);
    assert_eq!(bucket("half", ""), 40);
    assert_eq!(bucket("checkout_v2", "user-482"), 78);
    // multi-byte characters are hashed as their UTF-8 bytes
    assert_eq!(bucket("é", "k"), 4);
}

#[test]
fn nul_separator_keeps_pairs_apart() {
    assert_eq!(bucket("ab", "c"), 35);
    assert_eq!(bucket("a", "bc"), 99);
}

#[test]
fn partial_rollout_follows_the_bucket() {
    let flags = parse("flag half rollout=50\nflag third rollout=30\n").unwrap();
    assert_eq!(flags.is_enabled("half", "u1"), Ok(true));
    assert_eq!(flags.is_enabled("half", "u4"), Ok(false));
    assert_eq!(bucket("third", "u2"), 13);
    assert_eq!(bucket("third", "u4"), 47);
    assert_eq!(flags.is_enabled("third", "u2"), Ok(true));
    assert_eq!(flags.is_enabled("third", "u4"), Ok(false));
}

#[test]
fn zero_rollout_is_off_for_everyone() {
    let flags = parse("flag nobody rollout=0\n").unwrap();
    for key in ["", "a", "u1", "user-482"] {
        assert_eq!(flags.is_enabled("nobody", key), Ok(false));
    }
}

#[test]
fn override_wins_over_zero_rollout_and_expiry() {
    let flags = parse("flag f rollout=0 expires=2000-01-01\noverride f vip=true\n").unwrap();
    assert_eq!(flags.is_enabled("f", "vip"), Ok(true));
    assert_eq!(flags.is_enabled("f", "other"), Ok(false));
}

#[test]
fn expiry_is_inclusive() {
    let flags = parse("flag old expires=2026-01-01\n").unwrap();
    assert_eq!(flags.is_enabled_at("old", "k", 20453), Ok(true));
    assert_eq!(flags.is_enabled_at("old", "k", 20454), Ok(false));
    assert_eq!(flags.is_enabled_at("old", "k", 30000), Ok(false));
    assert_eq!(flags.is_expired_at("old", 20453), Some(false));
    assert_eq!(flags.is_expired_at("old", 20454), Some(true));
}

#[test]
fn is_expired_reads_the_clock() {
    let flags = parse("flag past expires=2000-01-01\nflag future expires=9999-12-31\nflag forever\n").unwrap();
    assert_eq!(flags.is_expired("past"), Some(true));
    assert_eq!(flags.is_expired("future"), Some(false));
    assert_eq!(flags.is_expired("forever"), None);
    assert_eq!(flags.is_expired("missing"), None);
    assert_eq!(flags.is_enabled("past", "k"), Ok(false));
    assert_eq!(flags.is_enabled("future", "k"), Ok(true));
}

#[test]
fn describe_shows_static_config() {
    let flags = parse("flag a\nflag b enabled=false rollout=25 expires=2026-01-01\noverride b x=true\noverride b y=false\n").unwrap();
    assert_eq!(
        flags.describe("a"),
        Some("enabled=true rollout=100 overrides=0".to_string())
    );
    assert_eq!(
        flags.describe("b"),
        Some("enabled=false rollout=25 expires=2026-01-01 overrides=2".to_string())
    );
    assert_eq!(flags.describe("c"), None);
}

#[test]
fn describe_gives_back_the_parsed_date() {
    let flags = parse(
        "flag leap expires=2024-02-29\nflag padded expires=5-3-7\nflag plus expires=+2030-12-31\nflag zero expires=0000-01-01\nflag dawn expires=1970-01-01\nflag before expires=1969-12-31\n",
    )
    .unwrap();
    let expiry = |name: &str| flags.info(name).unwrap().expires.unwrap();
    assert_eq!(expiry("leap"), "2024-02-29");
    assert_eq!(expiry("padded"), "0005-03-07");
    assert_eq!(expiry("plus"), "2030-12-31");
    assert_eq!(expiry("zero"), "0000-01-01");
    assert_eq!(expiry("dawn"), "1970-01-01");
    assert_eq!(expiry("before"), "1969-12-31");
    assert_eq!(flags.is_expired_at("dawn", -1), Some(false));
    assert_eq!(flags.is_expired_at("dawn", 0), Some(true));
    assert_eq!(flags.is_expired_at("leap", 19781), Some(false));
    assert_eq!(flags.is_expired_at("leap", 19782), Some(true));
}

#[test]
fn info_reports_plain_fields() {
    let flags = parse("flag a rollout=7\noverride a k=true\noverride a k=false\n").unwrap();
    assert_eq!(
        flags.info("a"),
        Some(FlagInfo { enabled: true, rollout: 7, expires: None, overrides: 1 })
    );
    assert_eq!(flags.info("b"), None);
    // the later override for the same key replaces the earlier one
    assert_eq!(flags.is_enabled("a", "k"), Ok(false));
}

#[test]
fn names_lists_each_flag_once() {
    let flags = parse("flag b\nflag a\nflag c\n").unwrap();
    let mut names = flags.names();
    names.sort();
    assert_eq!(names, vec!["a".to_string(), "b".to_string(), "c".to_string()]);
    assert_eq!(parse("").unwrap().names().len(), 0);
}

#[test]
fn later_attributes_win() {
    let flags = parse("flag a enabled=false enabled=true rollout=0 rollout=100\n").unwrap();
    assert_eq!(flags.is_enabled("a", "k"), Ok(true));
}

#[test]
fn numbers_accept_plus_and_leading_zeros() {
    let flags = parse("flag a rollout=+050\n").unwrap();
    assert_eq!(flags.info("a").unwrap().rollout, 50);
    assert_eq!(parse_err("flag a rollout=-1\n"), ParseError::InvalidRollout(1, "-1".to_string()));
    assert_eq!(parse_err("flag a rollout=\n"), ParseError::InvalidRollout(1, "".to_string()));
    assert_eq!(parse_err("flag a rollout=+\n"), ParseError::InvalidRollout(1, "+".to_string()));
    assert_eq!(
        parse_err("flag a rollout=99999999999999999999999\n"),
        ParseError::InvalidRollout(1, "99999999999999999999999".to_string())
    );
}

#[test]
fn crlf_and_unicode_whitespace() {
    let flags = parse("flag a\r\n\u{3000}flag\u{3000}b rollout=0\r\n  # note\r\n").unwrap();
    assert_eq!(flags.is_enabled("a", "k"), Ok(true));
    assert_eq!(flags.is_enabled("b", "k"), Ok(false));
    assert_eq!(parse_err("flag a\n\nflga b\n"), ParseError::UnknownDirective(3, "flga".to_string()));
}

#[test]
fn more_parse_errors() {
    assert_eq!(parse_err("flag a expires=2023-02-29\n"), ParseError::InvalidExpiry(1, "2023-02-29".to_string()));
    assert_eq!(parse_err("flag a expires=2024-13-01\n"), ParseError::InvalidExpiry(1, "2024-13-01".to_string()));
    assert_eq!(parse_err("flag a expires=2024-1-1-1\n"), ParseError::InvalidExpiry(1, "2024-1-1-1".to_string()));
    assert_eq!(parse_err("flag a expires=-5-01-01\n"), ParseError::InvalidExpiry(1, "-5-01-01".to_string()));
    assert_eq!(parse_err("flag a =5\n"), ParseError::UnknownAttribute(1, "".to_string()));
    assert_eq!(parse_err("flag a\noverride a\n"), ParseError::Malformed(2));
    assert_eq!(parse_err("flag a\noverride\n"), ParseError::Malformed(2));
    assert_eq!(parse_err("flag a\noverride a k\n"), ParseError::Malformed(2));
    assert_eq!(parse_err("flag a\noverride a k=yes\n"), ParseError::InvalidBool(2, "yes".to_string()));
    assert_eq!(parse_err("override b k=yes\n"), ParseError::InvalidBool(1, "yes".to_string()));
    // the first error in the text is the one reported
    assert_eq!(parse_err("flag a color=red rollout=500\n"), ParseError::UnknownAttribute(1, "color".to_string()));
    assert_eq!(parse_err("flag a rollout=500 color=red\n"), ParseError::InvalidRollout(1, "500".to_string()));
}

#[test]
fn expiry_beyond_day_numbers_is_reported() {
    assert_eq!(
        parse_err("flag a expires=99999999999999999-01-01\n"),
        ParseError::InvalidExpiry(1, "99999999999999999-01-01".to_string())
    );
    assert!(parse("flag a expires=9999-12-31\n").is_ok());
    assert_eq!(
        parse_err("flag a rollout=500\nflag b expires=99999999999999999-01-01\n"),
        ParseError::InvalidRollout(1, "500".to_string())
    );
}

#[test]
fn day_numbers_cover_negative_years() {
    assert_eq!(days_from_civil(1970, 1, 1), 0);
    assert_eq!(days_from_civil(0, 3, 1), -719468);
    assert_eq!(days_from_civil(-1, 3, 1), -719834);
    assert_eq!(days_from_civil(-1, 2, 28), -719835);
    assert_eq!(days_from_civil(-400, 3, 1), -719468 - 146097);
    assert!(days_fit(-1_000_000_000_000_000, 1, 1));
    assert!(days_fit(1_000_000_000_000_000, 12, 31));
    assert!(!days_fit(99_999_999_999_999_999, 1, 1));
    assert!(!days_fit(-99_999_999_999_999_999, 1, 1));
}

#[test]
fn error_messages() {
    assert_eq!(
        ParseError::InvalidRollout(3, "150".to_string()).message(),
        "line 3: rollout must be 0..=100, got \"150\""
    );
    assert_eq!(ParseError::Malformed(12).message(), "line 12: malformed directive");
    assert_eq!(
        ParseError::DuplicateFlag(2, "a".to_string()).message(),
        "line 2: flag \"a\" already declared"
    );
    assert_eq!(
        ParseError::UnknownFlagInOverride(1, "x\"y".to_string()).message(),
        "line 1: override for undeclared flag \"x\\\"y\""
    );
    assert_eq!(
        EvalError::UnknownFlag("beta".to_string()).message(),
        "unknown flag \"beta\""
    );
}

#[test]
fn json_escape_quotes_and_escapes() {
    assert_eq!(json_escape("plain"), "\"plain\"");
    assert_eq!(json_escape(""), "\"\"");
    assert_eq!(json_escape("a\"b\\c\nd\re\tf"), "\"a\\\"b\\\\c\\nd\\re\\tf\"");
    assert_eq!(json_escape("\u{1}\u{1f}"), "\"\\u0001\\u001f\"");
    assert_eq!(json_escape("é✓"), "\"é✓\"");
}

#[test]
fn clock_readings_become_days() {
    assert_eq!(epoch_day(Some(20454 * 86_400)), 20454);
    assert_eq!(epoch_day(Some(20454 * 86_400 + 86_399)), 20454);
    assert_eq!(epoch_day(Some(0)), 0);
    assert_eq!(epoch_day(None), 0);
    assert!(today_days() > 20000);
}
