use rage::cache::{
    cache_file_name, encode_bundle, env_from_items, identity_line, new_identity_file_text,
    open_cache, parse_dotenv, read_cache_env, recipient_from_identity_text, recipient_is_low_order,
    seal_cache, secret_id, CacheError, DotenvError, IdentityError,
};
use rage::config::{
    auth_status_line, check_config, check_load_bundles, config_needs_rewrite, endpoint_from,
    env_choice, init_recipient, keychain_lookup, non_blank, pick_service_token, project_from_list,
    resolve_sync_bundles, setting_or, stored_project_id, universal_auth_fields, usable_bearer, validate_identity_config,
    BundleArgsError, Config, ConfigError, IdentitySource, InitError, KeychainError, ProjectEntry,
    ProjectError, RawConfig, ServiceToken, SyncPlan,
};
use rage::env::Env;
use rage::remote::{
    bundle_from_listing, bundle_path, folder_requests, list_bundles, list_query,
    listed_plain_keys, missing_bundle_message, normalize_endpoint, normalize_secret_path,
    projects_url, read_query, secret_url, secrets_url, service_token_url, url_component,
    write_plan, RemoteSecret, WriteOp,
};
use rage::render::render_dotenv;
use rage::validate::KeyError;

fn env_of(pairs: &[(&str, &str)]) -> Env {
    let mut env = Env::new();
    for (k, v) in pairs {
        env.insert(k.to_string(), v.to_string());
    }
    env
}

fn pairs(env: &Env) -> Vec<(String, String)> {
    (0..env.len()).map(|i| (env.key_at(i).clone(), env.value_at(i).clone())).collect()
}

fn secret(key: &str, value: Option<&str>, path: &str) -> RemoteSecret {
    RemoteSecret { key: key.to_string(), value: value.map(str::to_string), path: path.to_string() }
}

#[test]
fn cache_id_encodes_bundle_slashes() {
    let bundle = "project/foo/dev";
    assert_eq!(encode_bundle(bundle), "cHJvamVjdC9mb28vZGV2");
}

#[test]
fn dotenv_render_parse_round_trip() {
    let env = env_of(&[("PLAIN", "abc-123"), ("QUOTED", "hello world \"x\""), ("MULTI", "line1\nline2")]);
    assert_eq!(pairs(&parse_dotenv(&render_dotenv(&env)).unwrap()), pairs(&env));
}

#[test]
fn cache_file_names_stay_flat() {
    assert_eq!(cache_file_name("rage", "project/foo/dev"), "rage-cHJvamVjdC9mb28vZGV2.env.age");
    assert_eq!(secret_id("p", "global"), "p-Z2xvYmFs");
    assert!(!cache_file_name("x", "a/b/c/d/e/f/g?").contains('/'));
}

#[test]
fn identity_line_skips_blanks_and_comments() {
    assert_eq!(
        identity_line("# created: today\n\n   AGE-SECRET-KEY-1ABC  \r\nmore\n"),
        Some("AGE-SECRET-KEY-1ABC".to_string())
    );
    assert_eq!(identity_line("# only a comment\n  \n"), None);
    assert_eq!(identity_line(""), None);
    assert_eq!(identity_line("last-line"), Some("last-line".to_string()));
}

#[test]
fn generated_identity_yields_recipient() {
    let text = new_identity_file_text();
    assert!(text.starts_with("AGE-SECRET-KEY-1"));
    assert!(text.ends_with('\n'));
    let recipient = recipient_from_identity_text(&text).unwrap();
    assert!(recipient.starts_with("age1"));
    assert_eq!(recipient_from_identity_text("# nothing\n"), Err(IdentityError::Empty));
    assert_eq!(recipient_from_identity_text("not-a-key\n"), Err(IdentityError::Invalid));
}

#[test]
fn sealed_cache_reads_back_the_written_bundle() {
    let identity = new_identity_file_text();
    let recipient = recipient_from_identity_text(&identity).unwrap();
    let env = env_of(&[("A", "one"), ("B", "two words"), ("C", "q\"uote")]);
    let sealed = seal_cache(&recipient, &env).unwrap();
    assert_eq!(open_cache(&identity, &sealed).unwrap(), render_dotenv(&env));
    let back = read_cache_env(&identity, &sealed).unwrap();
    assert_eq!(pairs(&back), pairs(&env));
}

#[test]
fn cache_errors() {
    let identity = new_identity_file_text();
    let other = new_identity_file_text();
    let recipient = recipient_from_identity_text(&identity).unwrap();
    let sealed = seal_cache(&recipient, &env_of(&[("A", "1")])).unwrap();
    assert_eq!(open_cache(&other, &sealed), Err(CacheError::Undecryptable));
    assert_eq!(open_cache("# none\n", &sealed), Err(CacheError::EmptyIdentity));
    assert_eq!(open_cache(&identity, b"not an age file"), Err(CacheError::Undecryptable));
    assert_eq!(seal_cache("age1nope", &Env::new()).unwrap_err(), CacheError::Encrypt);
}

#[test]
fn dotenv_entries_become_a_bundle() {
    let items = vec![
        Some(("B".to_string(), "1".to_string())),
        Some(("A".to_string(), "2".to_string())),
        Some(("B".to_string(), "3".to_string())),
    ];
    let env = env_from_items(items).unwrap();
    assert_eq!(pairs(&env), vec![("A".to_string(), "2".to_string()), ("B".to_string(), "3".to_string())]);
    let bad = vec![Some(("A".to_string(), "1".to_string())), None, Some(("1X".to_string(), "1".to_string()))];
    assert_eq!(env_from_items(bad).unwrap_err(), DotenvError::Unreadable);
    let bad_key = vec![Some(("1X".to_string(), "1".to_string())), None];
    assert_eq!(env_from_items(bad_key).unwrap_err(), DotenvError::Key(KeyError::BadStart));
    assert_eq!(parse_dotenv("OK=1\nBAD-KEY=2\n").unwrap_err(), DotenvError::Unreadable);
}

fn raw_config(project: Option<&str>, gcp: Option<&str>) -> RawConfig {
    RawConfig {
        infisical_project_id: project.map(str::to_string),
        gcp_project: gcp.map(str::to_string),
        infisical_environment: "prod".to_string(),
        infisical_endpoint: "https://us.infisical.com/".to_string(),
        age_recipient: "age1x".to_string(),
        age_identity: "~/.config/rage/key.txt".to_string(),
        age_identity_source: IdentitySource::File,
        keychain_service: None,
        keychain_account: None,
        secret_prefix: "rage".to_string(),
        cache_dir: "/tmp/c".to_string(),
    }
}

#[test]
fn legacy_config_is_migrated() {
    assert!(config_needs_rewrite(&raw_config(None, Some("old"))));
    assert!(config_needs_rewrite(&raw_config(Some("  "), None)));
    assert!(!config_needs_rewrite(&raw_config(Some("p"), None)));
    assert_eq!(stored_project_id(&raw_config(Some(" "), None)), None);
    assert_eq!(stored_project_id(&raw_config(Some("p1"), None)), Some("p1".to_string()));
    let endpoint = endpoint_from(None, "https://us.infisical.com/");
    let cfg = Config::from_raw(raw_config(Some(""), Some("old")), endpoint, "test-project".to_string());
    assert_eq!(cfg.infisical_project_id, "test-project");
    assert_eq!(cfg.infisical_endpoint, "https://us.infisical.com");
    let cfg = Config::from_raw(raw_config(Some("kept"), None), "e".to_string(), "unused".to_string());
    assert_eq!(cfg.infisical_project_id, "kept");
    assert_eq!(check_config(&cfg), Ok(()));
}

#[test]
fn config_checks_in_order() {
    let mut cfg = Config::from_raw(raw_config(Some("p"), None), "e".to_string(), String::new());
    cfg.secret_prefix = "a/b".to_string();
    assert_eq!(check_config(&cfg), Err(ConfigError::Prefix(rage::validate::PrefixError::BadChar)));
    cfg.infisical_environment = " ".to_string();
    assert_eq!(check_config(&cfg), Err(ConfigError::NoEnvironment));
    cfg.infisical_project_id = String::new();
    assert_eq!(check_config(&cfg), Err(ConfigError::NoProjectId));
    let mut kc = Config::from_raw(raw_config(Some("p"), None), "e".to_string(), String::new());
    kc.age_identity_source = IdentitySource::Keychain;
    assert_eq!(validate_identity_config(&kc), Err(ConfigError::NoKeychainService));
    assert_eq!(
        ConfigError::NoKeychainService.message(),
        "--keychain-service is required when --age-identity-source keychain is used"
    );
    kc.keychain_service = Some("svc".to_string());
    assert_eq!(check_config(&kc), Ok(()));
}

#[test]
fn settings_from_environment() {
    assert_eq!(non_blank(Some(" ".to_string())), None);
    assert_eq!(non_blank(Some("x".to_string())), Some("x".to_string()));
    assert_eq!(env_choice(Some("".to_string()), Some("b".to_string())), None);
    assert_eq!(env_choice(None, Some("b".to_string())), Some("b".to_string()));
    assert_eq!(setting_or(None, Some("b".to_string()), "c"), "b");
    assert_eq!(setting_or(None, None, "c"), "c");
    assert_eq!(endpoint_from(Some("http://local///".to_string()), "x"), "http://local");
}

#[test]
fn init_recipient_decisions() {
    let identity = new_identity_file_text();
    let derived = recipient_from_identity_text(&identity).unwrap();
    assert_eq!(init_recipient(IdentitySource::File, &identity, None).unwrap(), derived);
    assert_eq!(init_recipient(IdentitySource::File, &identity, Some(&derived)).unwrap(), derived);
    assert_eq!(
        init_recipient(IdentitySource::File, &identity, Some("age1other")),
        Err(InitError::RecipientMismatch)
    );
    assert_eq!(
        init_recipient(IdentitySource::File, "", None),
        Err(InitError::Identity(IdentityError::Empty))
    );
    assert_eq!(init_recipient(IdentitySource::Keychain, "", None), Err(InitError::RecipientRequired));
    assert_eq!(init_recipient(IdentitySource::Keychain, "", Some("age1k")).unwrap(), "age1k");
}

#[test]
fn keychain_lookup_rules() {
    let mut cfg = Config::from_raw(raw_config(Some("p"), None), "e".to_string(), String::new());
    cfg.age_identity_source = IdentitySource::Keychain;
    assert_eq!(keychain_lookup(&cfg, true, false), Err(KeychainError::SshRefused));
    assert_eq!(keychain_lookup(&cfg, true, true), Err(KeychainError::NoService));
    cfg.keychain_service = Some("svc".to_string());
    assert_eq!(
        keychain_lookup(&cfg, false, false),
        Ok(("svc".to_string(), "~/.config/rage/key.txt".to_string()))
    );
    cfg.keychain_account = Some("acct".to_string());
    assert_eq!(keychain_lookup(&cfg, true, true), Ok(("svc".to_string(), "acct".to_string())));
    assert!(KeychainError::SshRefused.message().contains("--allow-ssh-keychain"));
}

#[test]
fn bundle_arguments() {
    assert!(matches!(resolve_sync_bundles(true, vec![]), Ok(SyncPlan::All)));
    match resolve_sync_bundles(false, vec!["a".to_string()]) {
        Ok(SyncPlan::These(v)) => assert_eq!(v, vec!["a"]),
        _ => panic!("expected explicit bundles"),
    }
    assert!(matches!(resolve_sync_bundles(true, vec!["a".to_string()]), Err(BundleArgsError::BothGiven)));
    assert!(matches!(resolve_sync_bundles(false, vec![]), Err(BundleArgsError::NoneGiven)));
    assert_eq!(check_load_bundles(&vec![]), Err(BundleArgsError::NoBundle));
    assert_eq!(BundleArgsError::NoBundle.message(), "pass at least one bundle");
}

#[test]
fn project_inference() {
    let nested = ServiceToken { project_id: None, workspace_id: Some("ws".to_string()), workspace: None };
    let top = ServiceToken { project_id: Some("top".to_string()), workspace_id: None, workspace: None };
    assert_eq!(pick_service_token(Some(nested.clone()), top.clone()).project(), Some("ws".to_string()));
    assert_eq!(pick_service_token(None, top).project(), Some("top".to_string()));
    let blank_first = ServiceToken { project_id: Some(" ".to_string()), workspace_id: Some("w".to_string()), workspace: None };
    assert_eq!(blank_first.project(), None);

    let projects = vec![
        ProjectEntry { id: "p1".to_string(), slug: Some("one".to_string()) },
        ProjectEntry { id: "p2".to_string(), slug: Some("two".to_string()) },
    ];
    assert_eq!(project_from_list(projects.clone(), Some("two".to_string())), Ok("p2".to_string()));
    assert_eq!(project_from_list(projects.clone(), Some("three".to_string())), Err(ProjectError::SlugNotFound));
    assert_eq!(project_from_list(projects, None), Err(ProjectError::Ambiguous));
    let single = vec![ProjectEntry { id: "only".to_string(), slug: None }];
    assert_eq!(project_from_list(single, None), Ok("only".to_string()));
    assert_eq!(project_from_list(vec![], None), Err(ProjectError::Ambiguous));
    assert!(usable_bearer("Bearer", "tok"));
    assert!(!usable_bearer("bearer", "tok"));
    assert!(!usable_bearer("Bearer", "  "));
    assert_eq!(auth_status_line(true), "auth: infisical-token-env");
    assert_eq!(auth_status_line(false), "auth: not-configured");
}

#[test]
fn remote_paths_and_urls() {
    assert_eq!(normalize_endpoint("https://x.y//"), "https://x.y");
    assert_eq!(normalize_secret_path("  /a/b/ "), "/a/b");
    assert_eq!(normalize_secret_path(" / "), "/");
    assert_eq!(bundle_path("global"), "/");
    assert_eq!(bundle_path("/project/foo/"), "/project/foo");
    assert_eq!(url_component("A b/é"), "A%20b%2F%C3%A9");
    assert_eq!(secrets_url("https://h"), "https://h/api/v4/secrets");
    assert_eq!(secret_url("https://h", "K Y"), "https://h/api/v4/secrets/K%20Y");
    assert_eq!(service_token_url("https://h/"), "https://h/api/v2/service-token");
    assert_eq!(projects_url("https://h"), "https://h/api/v1/projects");
    assert_eq!(missing_bundle_message("x"), "remote bundle 'x' does not exist");
}

#[test]
fn request_queries() {
    let q = list_query("p", "prod", "a/b", false, true);
    assert_eq!(
        q,
        vec![
            ("projectId".to_string(), "p".to_string()),
            ("environment".to_string(), "prod".to_string()),
            ("secretPath".to_string(), "/a/b".to_string()),
            ("viewSecretValue".to_string(), "false".to_string()),
            ("recursive".to_string(), "true".to_string()),
            ("includeImports".to_string(), "false".to_string()),
            ("expandSecretReferences".to_string(), "false".to_string()),
        ]
    );
    let r = read_query("p", "prod", "/");
    assert_eq!(r[2], ("secretPath".to_string(), "/".to_string()));
    assert_eq!(r[3], ("type".to_string(), "shared".to_string()));
}

#[test]
fn listing_becomes_bundle() {
    let listed = vec![
        secret("B", Some("2"), "/x"),
        secret("A", None, "/x"),
        secret("AUTHLESS_GROK_JSON", Some("{}"), "/x"),
    ];
    let env = bundle_from_listing(&listed, false, false).unwrap().unwrap();
    assert_eq!(pairs(&env), vec![("A".to_string(), String::new()), ("B".to_string(), "2".to_string())]);
    let shown = bundle_from_listing(&listed, false, true).unwrap().unwrap();
    assert_eq!(shown.get("AUTHLESS_GROK_JSON").unwrap(), rage::remote::AGENT_AUTH_DISPLAY_VALUE);
    assert!(bundle_from_listing(&vec![], false, false).unwrap().is_none());
    assert_eq!(bundle_from_listing(&vec![], true, false).unwrap().unwrap().len(), 0);
    let bad = vec![secret("1BAD", Some("x"), "/x")];
    assert_eq!(bundle_from_listing(&bad, false, false).unwrap_err(), KeyError::BadStart);
}

#[test]
fn write_plan_deletes_then_upserts() {
    let existing = vec!["A".to_string(), "OLD".to_string()];
    let env = env_of(&[("A", "1"), ("NEW", "2")]);
    let plan = write_plan(&existing, &env);
    let shown: Vec<String> = plan
        .iter()
        .map(|op| match op {
            WriteOp::Delete(k) => format!("delete {k}"),
            WriteOp::Update(k, v) => format!("update {k}={v}"),
            WriteOp::Create(k, v) => format!("create {k}={v}"),
        })
        .collect();
    assert_eq!(shown, vec!["delete OLD", "update A=1", "create NEW=2"]);
    let listed = vec![secret("A", None, "/"), secret("AUTHLESS_X_JSON", None, "/")];
    assert_eq!(listed_plain_keys(&listed), vec!["A"]);
}

#[test]
fn bundle_names_from_recursive_listing() {
    let listed = vec![
        secret("A", None, "/"),
        secret("B", None, "/project/foo/dev"),
        secret("AUTHLESS_GROK_JSON", None, "/"),
        secret("C", None, "/authless/x"),
        secret("AUTHLESS_CODEX_JSON", None, "/elsewhere"),
        secret("D", None, "/project/foo/dev/"),
    ];
    assert_eq!(list_bundles(&listed), vec!["agents", "global", "project/foo/dev"]);
}

#[test]
fn folders_created_outermost_first() {
    assert_eq!(
        folder_requests("/a/b"),
        vec![("a".to_string(), "/".to_string()), ("b".to_string(), "/a".to_string())]
    );
    assert!(folder_requests("/").is_empty());
}

fn sealed_text(recipient: &str, plaintext: &[u8]) -> Vec<u8> {
    let recipient: age::x25519::Recipient = recipient.parse().unwrap();
    age::encrypt(&recipient, plaintext).unwrap()
}

#[test]
fn cache_contents_that_are_no_bundle() {
    let identity = new_identity_file_text();
    let recipient = recipient_from_identity_text(&identity).unwrap();
    let bytes = sealed_text(&recipient, &[0xff, 0xfe]);
    assert_eq!(read_cache_env(&identity, &bytes).unwrap_err(), CacheError::NotUtf8);
    let unterminated = sealed_text(&recipient, b"A=\"open\n");
    assert_eq!(read_cache_env(&identity, &unterminated).unwrap_err(), CacheError::Unreadable);
    let dotted_key = sealed_text(&recipient, b"A.B=c\n");
    assert_eq!(read_cache_env(&identity, &dotted_key).unwrap_err(), CacheError::Key(KeyError::BadChar));
}

#[test]
fn dotenv_text_edges() {
    assert_eq!(parse_dotenv("").unwrap().len(), 0);
    let plain = parse_dotenv("# note\nA=1\nB='two words'\n").unwrap();
    assert_eq!(pairs(&plain), vec![("A".to_string(), "1".to_string()), ("B".to_string(), "two words".to_string())]);
}

#[test]
fn low_order_recipient_is_refused() {
    let zero = "age1qqqqqqqqqqqqqqqqqqqqqqqqqqqqqqqqqqqqqqqqqqqqqqqqqqqq5cu47z";
    let one = "age1qyqqqqqqqqqqqqqqqqqqqqqqqqqqqqqqqqqqqqqqqqqqqqqqqqqqj7vrya";
    assert!(recipient_is_low_order(zero));
    assert!(recipient_is_low_order(one));
    assert_eq!(seal_cache(one, &Env::new()).unwrap_err(), CacheError::WeakRecipient);
    assert_eq!(seal_cache(zero, &env_of(&[("A", "1")])).unwrap_err(), CacheError::WeakRecipient);
    let identity = new_identity_file_text();
    let recipient = recipient_from_identity_text(&identity).unwrap();
    assert!(!recipient_is_low_order(&recipient));
    assert!(!recipient_is_low_order("age1nope"));
    assert!(seal_cache(&recipient, &env_of(&[("A", "1")])).is_ok());
}

#[test]
fn awkward_values_read_back_from_the_cache() {
    let identity = new_identity_file_text();
    let recipient = recipient_from_identity_text(&identity).unwrap();
    let env = env_of(&[
        ("EMPTY", ""),
        ("HASH", "#not a comment"),
        ("LINES", "first\nsecond\n"),
        ("MIXED", "back\\slash \"quoted\" 'single' tab\there"),
        ("URL", "https://user@host:8080/a-b_c.d"),
        ("UNICODE", "caf\u{e9} \u{2603}"),
        ("export", "kept"),
    ]);
    let sealed = seal_cache(&recipient, &env).unwrap();
    let back = read_cache_env(&identity, &sealed).unwrap();
    assert_eq!(pairs(&back), pairs(&env));
    assert_eq!(pairs(&parse_dotenv(&render_dotenv(&env)).unwrap()), pairs(&env));
}

#[test]
fn universal_auth_login_body() {
    let id = Some("id".to_string());
    let secret = Some("secret".to_string());
    let pairs = |v: &[(&str, &str)]| -> Vec<(String, String)> {
        v.iter().map(|(k, x)| (k.to_string(), x.to_string())).collect()
    };
    assert_eq!(
        universal_auth_fields(id.clone(), secret.clone(), None),
        Some(pairs(&[("clientId", "id"), ("clientSecret", "secret")]))
    );
    assert_eq!(
        universal_auth_fields(id.clone(), secret.clone(), Some("org".to_string())),
        Some(pairs(&[("clientId", "id"), ("clientSecret", "secret"), ("organizationSlug", "org")]))
    );
    assert_eq!(universal_auth_fields(None, secret, None), None);
    assert_eq!(universal_auth_fields(id, None, Some("org".to_string())), None);
}

#[test]
fn distinct_bundles_get_distinct_cache_files() {
    let names = ["a/b", "a_b", "a-b", "ab", "a/b/", "project/foo/dev"];
    for (i, x) in names.iter().enumerate() {
        for y in names.iter().skip(i + 1) {
            assert_ne!(cache_file_name("rage", x), cache_file_name("rage", y));
            assert_ne!(secret_id("rage", x), secret_id("rage", y));
        }
    }
}
