use rage::clock::{civil_from_days, days_from_civil, iso_text_in_range, parse_i32, parse_iso_unix, parse_u32, unix_to_iso};
use rage::env::{merge_envs, merge_into, Env};
use rage::render::{
    escape_json, quote_dotenv, quote_shell, remote_script, render_dotenv, render_exports,
    render_json, render_shell_unset,
};
use rage::text::{blank, compare_text, has_substring, text_eq, trim, trim_slashes, Order};
use rage::validate::{
    auth_secret_key, is_reserved_remote_key, validate_bundle_key, validate_env_key,
    validate_secret_prefix, KeyError, PrefixError,
};

fn env_of(pairs: &[(&str, &str)]) -> Env {
    let mut env = Env::new();
    for (k, v) in pairs {
        env.insert(k.to_string(), v.to_string());
    }
    env
}

fn pairs(env: &Env) -> Vec<(String, String)> {
    (0..env.len()).map(|i| (env.key_at(i).clone(), env.value_at(i).clone())).collect()
}

#[test]
fn unix_iso_round_trips_current_format() {
    let timestamp = 1_797_420_096;
    let iso = unix_to_iso(timestamp);
    assert_eq!(parse_iso_unix(&iso), Some(timestamp));
}

#[test]
fn shell_quotes_single_quotes() {
    assert_eq!(quote_shell("a'b"), "'a'\\''b'");
}

#[test]
fn rejects_bad_env_keys() {
    assert!(validate_env_key("OK_1").is_ok());
    assert!(validate_env_key("1_BAD").is_err());
    assert!(validate_env_key("BAD-DASH").is_err());
}

#[test]
fn merge_later_bundle_wins() {
    let a = env_of(&[("KEY", "a")]);
    let b = env_of(&[("KEY", "b")]);
    let merged = merge_envs(&vec![a, b]);
    assert_eq!(merged.get("KEY").unwrap(), "b");
}

#[test]
fn json_escapes_control_chars() {
    assert_eq!(escape_json("a\n\"b\""), "a\\n\\\"b\\\"");
}

#[test]
fn remote_script_uses_stdin_safe_shape() {
    let env = env_of(&[("TOKEN", "a b'c")]);
    let script = remote_script(&env, &vec!["printf".to_string(), "$TOKEN".to_string()]);
    assert!(script.contains("export TOKEN='a b'\\''c'"));
    assert!(script.contains("exec 'printf' '$TOKEN'"));
}

#[test]
fn remote_script_without_command_starts_login_shell() {
    let env = env_of(&[("A", "1")]);
    let script = remote_script(&env, &vec![]);
    assert_eq!(script, "set -eu\nexport A='1'\nexec \"${SHELL:-/bin/sh}\" -l\n");
}

#[test]
fn iso_round_trip_at_chosen_instants() {
    for t in [0u64, 86_399, 86_400, 951_782_400, 4_070_908_800, 253_402_300_799] {
        let iso = unix_to_iso(t);
        assert!(iso_text_in_range(&iso));
        assert_eq!(parse_iso_unix(&iso), Some(t), "{iso}");
    }
}

#[test]
fn unix_to_iso_formats_exactly() {
    assert_eq!(unix_to_iso(0), "1970-01-01T00:00:00.000Z");
    assert_eq!(unix_to_iso(951_782_400), "2000-02-29T00:00:00.000Z");
    assert_eq!(unix_to_iso(1_797_420_096), "2026-12-16T11:21:36.000Z");
}

#[test]
fn parse_iso_reads_fractions_and_rejects_bad_fields() {
    assert_eq!(parse_iso_unix("2099-01-01T00:00:00.000Z"), Some(4_070_908_800));
    assert_eq!(parse_iso_unix("2099-01-01T00:00:00Z"), Some(4_070_908_800));
    assert_eq!(parse_iso_unix("2099-01-01"), None);
    assert_eq!(parse_iso_unix("2099-13-01T00:00:00Z"), None);
    assert_eq!(parse_iso_unix("2099-01-01T00:xx:00Z"), None);
    assert!(!iso_text_in_range("1969-12-31T00:00:00.000Z"));
}

#[test]
fn civil_dates_round_trip() {
    assert_eq!(days_from_civil(1970, 1, 1), Some(0));
    assert_eq!(days_from_civil(2000, 3, 1), Some(11_017));
    assert_eq!(days_from_civil(2000, 13, 1), None);
    assert_eq!(days_from_civil(2000, 1, 0), None);
    assert_eq!(civil_from_days(11_016), (2000, 2, 29));
    assert_eq!(civil_from_days(-1), (1969, 12, 31));
}

#[test]
fn number_parsing_follows_std() {
    assert_eq!(parse_u32("0042"), Some(42));
    assert_eq!(parse_u32("+7"), Some(7));
    assert_eq!(parse_u32("4294967296"), None);
    assert_eq!(parse_u32(""), None);
    assert_eq!(parse_i32("-12"), Some(-12));
    assert_eq!(parse_i32("-2147483648"), Some(i32::MIN));
    assert_eq!(parse_i32("2147483648"), None);
}

#[test]
fn dotenv_values_are_quoted_only_when_needed() {
    assert_eq!(quote_dotenv("abc-123_/.:@"), "abc-123_/.:@");
    assert_eq!(quote_dotenv("hello world \"x\""), "\"hello world \\\"x\\\"\"");
    assert_eq!(quote_dotenv("back\\slash"), "\"back\\\\slash\"");
    assert_eq!(quote_dotenv(""), "");
}

#[test]
fn dotenv_rendering_is_sorted_by_name() {
    let env = env_of(&[("B", "two words"), ("A", "one")]);
    assert_eq!(render_dotenv(&env), "A=one\nB=\"two words\"\n");
}

#[test]
fn json_rendering_is_stable() {
    let env = env_of(&[("B", "two words"), ("A", "one")]);
    assert_eq!(render_json(&env), "{\n  \"A\": \"one\",\n  \"B\": \"two words\"\n}\n");
    assert_eq!(render_json(&Env::new()), "{\n}\n");
    assert_eq!(escape_json("\u{1}"), "\\u0001");
}

#[test]
fn exports_with_and_without_hook() {
    let env = env_of(&[("A", "one"), ("B", "two words")]);
    assert_eq!(render_exports(&env, None), "export A='one'\nexport B='two words'\n");
    let with_hook = render_exports(&env, Some("/usr/bin/rage"));
    assert!(with_hook.starts_with("export A='one'\nexport B='two words'\n__rage_bin='/usr/bin/rage'\nrage() {\n"));
    assert!(with_hook.ends_with("  \"$__rage_bin\" \"$@\"\n}\n"));
}

#[test]
fn shell_unset_script() {
    assert_eq!(render_shell_unset("global", "A"), "unset A\nprintf '%s\\n' 'updated global'\n");
}

#[test]
fn empty_value_quotes_as_empty_string() {
    assert_eq!(quote_shell(""), "''");
}

#[test]
fn env_insert_remove_and_order() {
    let mut env = env_of(&[("Z", "1"), ("A", "2"), ("M", "3")]);
    assert_eq!(env.keys(), vec!["A", "M", "Z"]);
    env.insert("A".to_string(), "9".to_string());
    assert_eq!(env.get("A").unwrap(), "9");
    assert_eq!(env.len(), 3);
    assert_eq!(env.remove("M"), Some("3".to_string()));
    assert_eq!(env.remove("M"), None);
    assert!(!env.contains_key("M"));
    assert_eq!(pairs(&env), vec![("A".to_string(), "9".to_string()), ("Z".to_string(), "1".to_string())]);
}

#[test]
fn merge_into_keeps_other_keys() {
    let mut into = env_of(&[("A", "1"), ("B", "2")]);
    let from = env_of(&[("B", "3"), ("C", "4")]);
    merge_into(&mut into, &from);
    assert_eq!(into.keys(), vec!["A", "B", "C"]);
    assert_eq!(into.get("B").unwrap(), "3");
}

#[test]
fn env_key_errors_name_the_first_broken_rule() {
    assert_eq!(validate_env_key(""), Err(KeyError::Empty));
    assert_eq!(validate_env_key("9A"), Err(KeyError::BadStart));
    assert_eq!(validate_env_key("A-B"), Err(KeyError::BadChar));
    assert_eq!(validate_env_key("_A9"), Ok(()));
    assert_eq!(KeyError::BadChar.message(), "environment key may contain only letters, numbers, and underscores");
}

#[test]
fn reserved_agent_keys_are_refused_for_bundles() {
    assert!(is_reserved_remote_key("AUTHLESS_GROK_JSON"));
    assert!(!is_reserved_remote_key("AUTHLESS_GROK"));
    assert_eq!(validate_bundle_key("AUTHLESS_GROK_JSON"), Err(KeyError::Reserved));
    assert_eq!(KeyError::Reserved.message(), "environment key name is reserved for rage agent auth");
    assert_eq!(validate_bundle_key("GROK_JSON"), Ok(()));
    assert_eq!(auth_secret_key("codex"), "AUTHLESS_CODEX_JSON");
}

#[test]
fn secret_prefix_rules() {
    assert_eq!(validate_secret_prefix(""), Err(PrefixError::Empty));
    assert_eq!(validate_secret_prefix("a/b"), Err(PrefixError::BadChar));
    assert_eq!(validate_secret_prefix("rage-01_x"), Ok(()));
}

#[test]
fn text_helpers() {
    assert_eq!(trim("  a b \n"), "a b");
    assert_eq!(trim_slashes("//a/b//"), "a/b");
    assert!(blank(" \t\n"));
    assert!(!blank(" x "));
    assert!(text_eq("abc", "abc"));
    assert_eq!(compare_text("abc", "abd"), Order::Less);
    assert_eq!(compare_text("b", "abc"), Order::Greater);
    assert!(has_substring("xx invalid_grant yy", "invalid_grant"));
    assert!(!has_substring("invalid", "invalid_grant"));
}

#[test]
fn merged_bundle_holds_every_name() {
    let mut a = Env::new();
    a.insert("ONLY_A".to_string(), "a".to_string());
    a.insert("BOTH".to_string(), "a".to_string());
    let mut b = Env::new();
    b.insert("ONLY_B".to_string(), "b".to_string());
    b.insert("BOTH".to_string(), "b".to_string());
    let merged = merge_envs(&vec![a, b]);
    assert_eq!(merged.len(), 3);
    assert_eq!(merged.get("ONLY_A").map(String::as_str), Some("a"));
    assert_eq!(merged.get("ONLY_B").map(String::as_str), Some("b"));
    assert_eq!(merged.get("BOTH").map(String::as_str), Some("b"));
}
