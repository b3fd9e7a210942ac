use flagset_cli::render::{check_report, error_report, validate_report};
use flagset_cli::parse;

const SAMPLE: &str = "flag dark_mode\nflag checkout_v2 rollout=25\nflag legacy_export enabled=false\noverride legacy_export acct-9001=true\n";

#[test]
fn readme_list_lines_leave_out_a_missing_expiry() {
    let flags = parse("flag checkout_v2 rollout=25\nflag dark_mode\n").unwrap();
    assert_eq!(
        flags.describe("checkout_v2"),
        Some("enabled=true rollout=25 overrides=0".to_string())
    );
    assert_eq!(
        flags.describe("dark_mode"),
        Some("enabled=true rollout=100 overrides=0".to_string())
    );
    assert_eq!(
        flags.list_report(false),
        "checkout_v2 enabled=true rollout=25 overrides=0\ndark_mode enabled=true rollout=100 overrides=0\n"
    );
}

#[test]
fn list_shows_an_expiry_when_there_is_one() {
    let flags = parse("flag old_banner expires=2026-01-01\n").unwrap();
    assert_eq!(
        flags.list_report(false),
        "old_banner enabled=true rollout=100 expires=2026-01-01 overrides=0\n"
    );
}

#[test]
fn sorted_names_follow_code_point_order() {
    let flags = parse("flag b\nflag a_long\nflag a\nflag B\nflag é\nflag ab\n").unwrap();
    assert_eq!(flags.sorted_names(), vec!["B", "a", "a_long", "ab", "b", "é"]);
    let empty = parse("# nothing here\n").unwrap();
    assert!(empty.sorted_names().is_empty());
    assert_eq!(empty.list_report(false), "");
    assert_eq!(empty.list_report(true), "[]\n");
}

#[test]
fn list_json_has_one_object_per_flag_in_name_order() {
    let flags = parse(SAMPLE).unwrap();
    assert_eq!(
        flags.list_report(true),
        [
            r#"[{"name":"checkout_v2","enabled":true,"rollout":25,"expires":null,"overrides":0},"#,
            r#"{"name":"dark_mode","enabled":true,"rollout":100,"expires":null,"overrides":0},"#,
            r#"{"name":"legacy_export","enabled":false,"rollout":100,"expires":null,"overrides":1}]"#,
            "\n",
        ]
        .concat()
    );
    let dated = parse("flag x\"y expires=2030-12-31\n").unwrap();
    assert_eq!(
        dated.list_report(true),
        "[{\"name\":\"x\\\"y\",\"enabled\":true,\"rollout\":100,\"expires\":\"2030-12-31\",\"overrides\":0}]\n"
    );
}

#[test]
fn validate_reports_the_flag_count() {
    let flags = parse(SAMPLE).unwrap();
    let count = flags.names().len();
    assert_eq!(validate_report(count, false), "ok: 3 flag(s)\n");
    assert_eq!(validate_report(count, true), "{\"ok\":true,\"flags\":3}\n");
    assert_eq!(validate_report(0, false), "ok: 0 flag(s)\n");
}

#[test]
fn check_reports_on_off_or_json() {
    let flags = parse(SAMPLE).unwrap();
    let enabled = flags.is_enabled("dark_mode", "user-482").unwrap();
    assert_eq!(check_report("dark_mode", "user-482", enabled, false), "on\n");
    assert_eq!(
        check_report("dark_mode", "user-482", enabled, true),
        "{\"flag\":\"dark_mode\",\"key\":\"user-482\",\"enabled\":true}\n"
    );
    assert_eq!(check_report("legacy_export", "k", false, false), "off\n");
    assert_eq!(
        check_report("a\tb", "line\nbreak", false, true),
        "{\"flag\":\"a\\tb\",\"key\":\"line\\nbreak\",\"enabled\":false}\n"
    );
}

#[test]
fn errors_are_reported_as_text_or_json() {
    let err = parse("flag x rollout=150\n").unwrap_err();
    let message = err.message();
    assert_eq!(message, "line 1: rollout must be 0..=100, got \"150\"");
    assert_eq!(
        error_report(&message, false),
        "error: line 1: rollout must be 0..=100, got \"150\"\n"
    );
    assert_eq!(
        error_report(&message, true),
        "{\"ok\":false,\"error\":\"line 1: rollout must be 0..=100, got \\\"150\\\"\"}\n"
    );
}
