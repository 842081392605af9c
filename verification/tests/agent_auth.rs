use base64::Engine;
use rage::agent::{
    apply_refresh, auth_not_imported_message, backup_file_name, check_auth_record,
    codex_auth_json, codex_backup_wanted, codex_cleanup, expiry_from_claim, grok_entry_key,
    import_codex_auth, import_grok_auth, is_fresh, is_fresh_checked, jwt_expiry_iso, jwt_payload,
    leading_dashdash, redact_secret_like, refresh_failure_message, refresh_request_fields, reread_usable,
    required_text,
    safe_error_body, safe_error_body_checked, AuthRecord, CodexCleanup, CodexFileError,
    ImportError, JwtError, Provider, RecordError, RefreshBodyFormat, RefreshError,
    RefreshResponse, CODEX_CLIENT_ID, CODEX_ISSUER, GROK_CLIENT_ID, GROK_ISSUER,
};
use rage::outside::JsonText;

const NOW: u64 = 1_700_000_000;

fn jwt_with(payload: &str) -> String {
    let body = base64::engine::general_purpose::URL_SAFE_NO_PAD.encode(payload.as_bytes());
    format!("eyJhbGciOiJub25lIn0.{body}.sig")
}

fn grok_record(expires_at: &str) -> AuthRecord {
    AuthRecord {
        client_id: GROK_CLIENT_ID.to_string(),
        issuer: GROK_ISSUER.to_string(),
        id_token: None,
        access_token: "access-old".to_string(),
        refresh_token: "refresh-old".to_string(),
        account_id: None,
        expires_at: expires_at.to_string(),
        last_refresh: None,
        scope: None,
        token_type: Some("Bearer".to_string()),
        updated_at: None,
    }
}

fn codex_record(expires_at: &str, last_refresh: Option<&str>) -> AuthRecord {
    AuthRecord {
        client_id: CODEX_CLIENT_ID.to_string(),
        issuer: CODEX_ISSUER.to_string(),
        id_token: Some("id-token".to_string()),
        access_token: "access-old".to_string(),
        refresh_token: "refresh-old".to_string(),
        account_id: Some("acct".to_string()),
        expires_at: expires_at.to_string(),
        last_refresh: last_refresh.map(str::to_string),
        scope: None,
        token_type: Some("Bearer".to_string()),
        updated_at: None,
    }
}

#[test]
fn redacts_token_like_refresh_errors() {
    let safe = safe_error_body(
        r#"{"error":"invalid_grant","error_description":"refresh-invalid should not print eyJabc.def.ghi"}"#,
    );
    assert!(!safe.contains("refresh-invalid"));
    assert!(!safe.contains("eyJabc.def.ghi"));
}

#[test]
fn safe_error_body_keeps_known_fields_redacted() {
    let safe = safe_error_body(
        r#"{"error":"invalid_grant","error_description":"refresh-invalid should not print eyJabc.def.ghi","other":"x"}"#,
    );
    assert_eq!(
        safe,
        r#"{"error":"invalid_grant","error_description":"[redacted] should not print [redacted-jwt]"}"#
    );
}

#[test]
fn safe_error_body_redacts_plain_text_and_json_without_fields() {
    assert_eq!(safe_error_body("access-token   expired\nnow"), "[redacted] expired now");
    assert_eq!(safe_error_body(r#"{"code": 7}"#), r#"{"code": 7}"#);
    assert_eq!(safe_error_body("[1, 2]"), "[1, 2]");
}

#[test]
fn safe_error_body_cuts_at_the_byte_limit() {
    let long = "a".repeat(600);
    assert_eq!(safe_error_body(&long).len(), 500);
    let split = format!("a{}", "é".repeat(300));
    assert_eq!(safe_error_body_checked(&split), None);
    let even = "é".repeat(300);
    let cut = safe_error_body_checked(&even).unwrap();
    assert_eq!(cut.len(), 500);
    assert_eq!(cut.chars().count(), 250);
}

#[test]
fn redaction_replaces_each_secret_like_word() {
    assert_eq!(
        redact_secret_like("  refresh-x\teyJa.b.c eyJa.b ok access\n"),
        "[redacted] [redacted-jwt] eyJa.b ok [redacted]"
    );
    assert_eq!(redact_secret_like(""), "");
    assert_eq!(redact_secret_like("   "), "");
}

#[test]
fn refresh_failure_messages() {
    let msg = refresh_failure_message(Provider::Grok, 400, r#"{"error":"invalid_grant"}"#).unwrap();
    assert_eq!(
        msg,
        "grok auth refresh failed: HTTP 400 {\"error\":\"invalid_grant\"}\nThe stored refresh token is no longer valid. Re-run `rage import grok <auth-file>` from a logged-in machine."
    );
    let plain = refresh_failure_message(Provider::Codex, 503, "busy").unwrap();
    assert_eq!(plain, "codex auth refresh failed: HTTP 503 busy");
}

#[test]
fn jwt_expiry_reads_exp_claim() {
    let jwt = jwt_with(r#"{"exp":4070908800,"sub":"x"}"#);
    assert_eq!(jwt_expiry_iso(&jwt).unwrap(), "2099-01-01T00:00:00.000Z");
    assert_eq!(jwt_payload("a.b.c"), Some("b".to_string()));
    assert_eq!(jwt_payload("a.b"), Some("b".to_string()));
    assert_eq!(jwt_payload("abc"), None);
}

#[test]
fn jwt_expiry_errors() {
    assert_eq!(jwt_expiry_iso("abc"), Err(JwtError::NoPayload));
    assert_eq!(jwt_expiry_iso("a.!!!.c"), Err(JwtError::BadBase64));
    assert_eq!(jwt_expiry_iso(&jwt_with("nope")), Err(JwtError::BadJson));
    assert_eq!(jwt_expiry_iso(&jwt_with(r#"{"exp":"soon"}"#)), Err(JwtError::NoExp));
    assert_eq!(expiry_from_claim(Some(Some(0))).unwrap(), "1970-01-01T00:00:00.000Z");
    assert_eq!(expiry_from_claim(None), Err(JwtError::BadJson));
    assert_eq!(expiry_from_claim(Some(None)), Err(JwtError::NoExp));
}

#[test]
fn grok_import_builds_record() {
    let raw = format!(
        r#"{{"{}": {{"key": "access-imported", "refresh_token": "refresh-imported", "expires_at": "2099-01-01T00:00:00.000Z"}}}}"#,
        grok_entry_key()
    );
    let auth = import_grok_auth(&raw, NOW).unwrap();
    assert_eq!(auth.client_id, GROK_CLIENT_ID);
    assert_eq!(auth.issuer, GROK_ISSUER);
    assert_eq!(auth.access_token, "access-imported");
    assert_eq!(auth.refresh_token, "refresh-imported");
    assert_eq!(auth.expires_at, "2099-01-01T00:00:00.000Z");
    assert_eq!(auth.token_type.as_deref(), Some("Bearer"));
    assert_eq!(auth.updated_at.as_deref(), Some("2023-11-14T22:13:20.000Z"));
    assert_eq!(auth.id_token, None);
    assert_eq!(auth.last_refresh, None);
}

#[test]
fn grok_import_errors() {
    assert_eq!(grok_entry_key(), "https://auth.x.ai::b1a00492-073a-47ea-816f-4c329264a828");
    assert_eq!(import_grok_auth("not json", NOW).unwrap_err(), ImportError::NotJson);
    assert_eq!(import_grok_auth("{}", NOW).unwrap_err(), ImportError::NoEntry);
    let no_key = format!(r#"{{"{}": {{"refresh_token": "r"}}}}"#, grok_entry_key());
    assert_eq!(import_grok_auth(&no_key, NOW).unwrap_err(), ImportError::NoKey);
    let no_exp = format!(r#"{{"{}": {{"key": "a", "refresh_token": "r"}}}}"#, grok_entry_key());
    assert_eq!(import_grok_auth(&no_exp, NOW).unwrap_err(), ImportError::NoExpiresAt);
    assert_eq!(
        ImportError::NoEntry.message(Provider::Grok),
        "No Grok OIDC auth entry found for https://auth.x.ai::b1a00492-073a-47ea-816f-4c329264a828."
    );
}

#[test]
fn codex_import_builds_record() {
    let access = jwt_with(r#"{"exp":4070908800}"#);
    let raw = format!(
        r#"{{"tokens": {{"id_token": "id-token", "access_token": "{access}", "refresh_token": "refresh-old", "account_id": "acct"}}, "last_refresh": "2024-01-01T00:00:00Z"}}"#
    );
    let auth = import_codex_auth(&raw, NOW).unwrap();
    assert_eq!(auth.client_id, CODEX_CLIENT_ID);
    assert_eq!(auth.id_token.as_deref(), Some("id-token"));
    assert_eq!(auth.access_token, access);
    assert_eq!(auth.account_id.as_deref(), Some("acct"));
    assert_eq!(auth.expires_at, "2099-01-01T00:00:00.000Z");
    assert_eq!(auth.last_refresh.as_deref(), Some("2024-01-01T00:00:00Z"));

    let without_last = format!(
        r#"{{"tokens": {{"id_token": "i", "access_token": "{access}", "refresh_token": "r"}}}}"#
    );
    let auth = import_codex_auth(&without_last, NOW).unwrap();
    assert_eq!(auth.last_refresh.as_deref(), Some("2023-11-14T22:13:20.000Z"));
    assert_eq!(auth.account_id, None);
}

#[test]
fn codex_import_errors() {
    assert_eq!(import_codex_auth("{}", NOW).unwrap_err(), ImportError::NoTokens);
    assert_eq!(
        import_codex_auth(r#"{"tokens": {"access_token": "a"}}"#, NOW).unwrap_err(),
        ImportError::NoIdToken
    );
    assert_eq!(
        import_codex_auth(r#"{"tokens": {"id_token": "i", "access_token": "a", "refresh_token": "r"}}"#, NOW)
            .unwrap_err(),
        ImportError::Jwt(JwtError::NoPayload)
    );
    assert_eq!(
        ImportError::Jwt(JwtError::NoExp).message(Provider::Codex),
        "derive Codex access token expiry: JWT payload is missing numeric exp"
    );
    assert_eq!(
        required_text(JsonText::NotText, ImportError::NoTokens, ImportError::NoAccessToken),
        Err(ImportError::NoAccessToken)
    );
}

#[test]
fn stored_records_are_checked() {
    assert_eq!(check_auth_record(Provider::Grok, &grok_record("2099-01-01T00:00:00.000Z")), Ok(()));
    assert_eq!(
        check_auth_record(Provider::Codex, &grok_record("2099-01-01T00:00:00.000Z")),
        Err(RecordError::WrongClient)
    );
    let mut blank = grok_record("  ");
    assert_eq!(check_auth_record(Provider::Grok, &blank), Err(RecordError::WrongClient));
    blank.expires_at = "2099-01-01T00:00:00.000Z".to_string();
    blank.access_token = " ".to_string();
    assert_eq!(check_auth_record(Provider::Grok, &blank), Err(RecordError::WrongClient));
    let mut codex = codex_record("2099-01-01T00:00:00.000Z", None);
    codex.id_token = Some(String::new());
    assert_eq!(check_auth_record(Provider::Codex, &codex), Err(RecordError::NoIdToken));
    assert_eq!(
        RecordError::WrongClient.message(Provider::Grok),
        "stored auth JSON for grok is missing required fields or has the wrong client"
    );
}

#[test]
fn freshness_follows_expiry_margin_and_codex_age() {
    let grok = grok_record("2099-01-01T00:00:00.000Z");
    assert!(is_fresh(Provider::Grok, &grok, 300, NOW));
    let expired = grok_record("2000-01-01T00:00:00.000Z");
    assert!(!is_fresh(Provider::Grok, &expired, 300, NOW));
    let soon = grok_record(&rage::clock::unix_to_iso(NOW + 200));
    assert!(!is_fresh(Provider::Grok, &soon, 300, NOW));
    assert!(is_fresh(Provider::Grok, &soon, 100, NOW));
    let unreadable = grok_record("tomorrow");
    assert!(!is_fresh(Provider::Grok, &unreadable, 300, NOW));

    let recent = rage::clock::unix_to_iso(NOW - 86_400);
    let codex = codex_record("2099-01-01T00:00:00.000Z", Some(&recent));
    assert!(is_fresh(Provider::Codex, &codex, 300, NOW));
    let old = rage::clock::unix_to_iso(NOW - 9 * 86_400);
    let stale = codex_record("2099-01-01T00:00:00.000Z", Some(&old));
    assert!(!is_fresh(Provider::Codex, &stale, 300, NOW));
    let never = codex_record("2099-01-01T00:00:00.000Z", None);
    assert!(!is_fresh(Provider::Codex, &never, 300, NOW));
}

#[test]
fn freshness_check_refuses_pre_epoch_times() {
    let grok = grok_record("1969-12-31T00:00:00.000Z");
    assert_eq!(is_fresh_checked(Provider::Grok, &grok, 300, NOW), None);
    let ok = grok_record("2099-01-01T00:00:00.000Z");
    assert_eq!(is_fresh_checked(Provider::Grok, &ok, 300, NOW), Some(true));
}

#[test]
fn grok_refresh_needs_all_fields() {
    let auth = grok_record("2000-01-01T00:00:00.000Z");
    let partial = RefreshResponse {
        access_token: Some("access-new".to_string()),
        refresh_token: None,
        id_token: None,
        expires_in: Some(3600),
        scope: None,
        token_type: None,
    };
    assert_eq!(
        apply_refresh(Provider::Grok, &auth, partial, NOW).unwrap_err(),
        RefreshError::MissingFields
    );
    assert_eq!(
        RefreshError::MissingFields.message(Provider::Grok),
        "grok refresh response is missing access_token, refresh_token, or expires_in"
    );
    let full = RefreshResponse {
        access_token: Some("access-new".to_string()),
        refresh_token: Some("refresh-new".to_string()),
        id_token: None,
        expires_in: Some(3600),
        scope: Some("s".to_string()),
        token_type: Some("Bearer".to_string()),
    };
    let next = apply_refresh(Provider::Grok, &auth, full, NOW).unwrap();
    assert_eq!(next.access_token, "access-new");
    assert_eq!(next.refresh_token, "refresh-new");
    assert_eq!(next.expires_at, rage::clock::unix_to_iso(NOW + 3600));
    assert_eq!(next.last_refresh, None);
    assert_eq!(next.scope.as_deref(), Some("s"));
    assert_eq!(next.updated_at, Some(rage::clock::unix_to_iso(NOW)));
}

#[test]
fn codex_refresh_keeps_old_tokens_and_reads_jwt_expiry() {
    let auth = codex_record("2000-01-01T00:00:00.000Z", Some("2000-01-01T00:00:00.000Z"));
    let access = jwt_with(r#"{"exp":4070908800}"#);
    let answer = RefreshResponse {
        access_token: Some(access.clone()),
        refresh_token: None,
        id_token: None,
        expires_in: None,
        scope: None,
        token_type: None,
    };
    let next = apply_refresh(Provider::Codex, &auth, answer, NOW).unwrap();
    assert_eq!(next.access_token, access);
    assert_eq!(next.refresh_token, "refresh-old");
    assert_eq!(next.id_token.as_deref(), Some("id-token"));
    assert_eq!(next.account_id.as_deref(), Some("acct"));
    assert_eq!(next.expires_at, "2099-01-01T00:00:00.000Z");
    assert_eq!(next.last_refresh, Some(rage::clock::unix_to_iso(NOW)));

    let bad = RefreshResponse {
        access_token: None,
        refresh_token: None,
        id_token: None,
        expires_in: None,
        scope: None,
        token_type: None,
    };
    assert_eq!(
        apply_refresh(Provider::Codex, &auth, bad, NOW).unwrap_err(),
        RefreshError::Jwt(JwtError::NoPayload)
    );
}

#[test]
fn codex_auth_file_text() {
    let auth = codex_record("2099-01-01T00:00:00.000Z", None);
    let text = codex_auth_json(&auth, NOW).unwrap();
    assert!(text.ends_with("}\n"));
    let value: serde_json::Value = serde_json::from_str(&text).unwrap();
    assert_eq!(value["auth_mode"], "chatgpt");
    assert!(value["OPENAI_API_KEY"].is_null());
    assert_eq!(value["tokens"]["id_token"], "id-token");
    assert_eq!(value["tokens"]["access_token"], "access-old");
    assert_eq!(value["tokens"]["refresh_token"], "refresh-old");
    assert_eq!(value["tokens"]["account_id"], "acct");
    assert_eq!(value["last_refresh"], "2023-11-14T22:13:20.000Z");
    let mut no_id = auth.clone();
    no_id.id_token = None;
    assert_eq!(codex_auth_json(&no_id, NOW), Err(CodexFileError::NoIdToken));
}

#[test]
fn codex_home_decisions() {
    assert_eq!(backup_file_name(12, 34), ".rage-auth.json.backup-12-34");
    assert!(codex_backup_wanted(true, true));
    assert!(!codex_backup_wanted(true, false));
    assert_eq!(codex_cleanup(true, true, true), CodexCleanup::RestoreBackup);
    assert_eq!(codex_cleanup(true, false, false), CodexCleanup::RemoveAuth);
    assert_eq!(codex_cleanup(false, false, false), CodexCleanup::RemoveAuth);
    assert_eq!(codex_cleanup(false, true, false), CodexCleanup::Keep);
}

#[test]
fn tool_arguments_and_messages() {
    assert_eq!(leading_dashdash(Some("--")), 1);
    assert_eq!(leading_dashdash(Some("-p")), 0);
    assert_eq!(leading_dashdash(None), 0);
    assert_eq!(
        auth_not_imported_message("grok"),
        "grok auth is not imported; run `rage import grok <auth-file>`"
    );
}

#[test]
fn providers_describe_themselves() {
    assert_eq!(Provider::Grok.name(), "grok");
    assert_eq!(Provider::Codex.client_id(), CODEX_CLIENT_ID);
    assert_eq!(Provider::Codex.issuer(), "https://auth.openai.com");
    assert_eq!(Provider::Grok.refresh_body_format(), RefreshBodyFormat::Form);
    assert_eq!(Provider::Codex.refresh_body_format(), RefreshBodyFormat::Json);
    assert_eq!(Provider::Grok.endpoint(None), "https://auth.x.ai/oauth2/token");
    assert_eq!(Provider::Codex.endpoint(Some("http://x".to_string())), "http://x");
    assert_eq!(Provider::Codex.endpoint_variable(), "CODEX_AUTH_ENDPOINT_URL");
}

fn field_pairs(fields: &[(&str, &str)]) -> Vec<(String, String)> {
    fields.iter().map(|(k, v)| (k.to_string(), v.to_string())).collect()
}

#[test]
fn refresh_request_fields_follow_the_body_format() {
    let grok = grok_record("2023-11-14T22:13:20Z");
    assert_eq!(
        refresh_request_fields(Provider::Grok, &grok),
        field_pairs(&[
            ("grant_type", "refresh_token"),
            ("refresh_token", "refresh-old"),
            ("client_id", GROK_CLIENT_ID),
        ])
    );
    let codex = codex_record("2023-11-14T22:13:20Z", None);
    assert_eq!(
        refresh_request_fields(Provider::Codex, &codex),
        field_pairs(&[
            ("client_id", CODEX_CLIENT_ID),
            ("grant_type", "refresh_token"),
            ("refresh_token", codex.refresh_token.as_str()),
        ])
    );
}

#[test]
fn reread_record_replaces_a_failed_refresh_only_when_changed_and_fresh() {
    let fresh = grok_record("2023-11-15T00:00:00Z");
    let stale = grok_record("2023-11-14T00:00:00Z");
    assert_eq!(reread_usable(Provider::Grok, "same", "same", &fresh, 0, NOW), Some(false));
    assert_eq!(reread_usable(Provider::Grok, "old", "new", &fresh, 0, NOW), Some(true));
    assert_eq!(reread_usable(Provider::Grok, "old", "new", &stale, 0, NOW), Some(false));
}
