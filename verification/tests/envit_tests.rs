use envit::config::{default_create_if_missing, default_env_file, resolve_env_path, validate,
    Config, ConfigError, OutputConfig, ProviderConfig};
use envit::envfile::{merge, parse_document, parse_line, is_valid_env_key, Change, ChangeKind,
    Line};
use envit::provider::{fetch_all, FixtureProvider, SecretProvider};
use envit::resolve::{build_reverse_map, dry_run_lines, resolve, to_env_key,
    validate_no_duplicate_env_keys, ConflictError};

fn updates_of(pairs: &[(&str, &str)]) -> Vec<(String, String)> {
    pairs.iter().map(|(k, v)| (k.to_string(), v.to_string())).collect()
}

#[test]
fn merge_preserves_order_and_updates_targeted_keys() {
    let lines = vec![
        parse_line("# header"),
        parse_line("A=1"),
        parse_line("B=2"),
        parse_line(""),
        parse_line("LOCAL_ONLY=x"),
    ];
    let updates = updates_of(&[("A", "10"), ("C", "3")]);

    let (merged, changes) = merge(lines, &updates);

    assert!(merged.contains("# header\nA=10\nB=2\n\nLOCAL_ONLY=x"));
    assert!(merged.contains("C=3"));
    assert_eq!(changes.len(), 2);
}

#[test]
fn secret_name_to_env_key_rule() {
    assert_eq!(to_env_key("database-url"), "DATABASE_URL");
    assert_eq!(to_env_key("azure-client-id"), "AZURE_CLIENT_ID");
    assert_eq!(to_env_key("redis"), "REDIS");
}

#[test]
fn validate_rejects_wrong_version() {
    let cfg = Config {
        version: 2,
        output: OutputConfig::default(),
        provider: ProviderConfig {
            kind: "azure_key_vault".to_string(),
            vault_url: "https://example.vault.azure.net".to_string(),
        },
        map: Vec::new(),
    };

    assert!(validate(&cfg).is_err());
}

#[test]
fn merge_scenario_update_in_place() {
    let lines = parse_document("# header\nDATABASE_URL=old\nLOCAL_ONLY=keep");
    let updates = updates_of(&[("DATABASE_URL", "new")]);
    let (merged, changes) = merge(lines, &updates);
    assert!(merged.starts_with("# header\nDATABASE_URL=new\nLOCAL_ONLY=keep"));
    assert_eq!(changes.len(), 1);
    assert_eq!(changes[0].key, "DATABASE_URL");
    assert_eq!(changes[0].kind, ChangeKind::Update);
}

#[test]
fn merge_scenario_adds_sorted() {
    let lines = parse_document("A=1");
    let updates = updates_of(&[("A", "1"), ("C", "3"), ("B", "2")]);
    let (merged, changes) = merge(lines, &updates);
    assert_eq!(merged, "A=1\nB=2\nC=3");
    assert_eq!(changes.len(), 2);
    assert_eq!(changes[0].key, "B");
    assert_eq!(changes[0].kind, ChangeKind::Add);
    assert_eq!(changes[1].key, "C");
    assert_eq!(changes[1].kind, ChangeKind::Add);
}

#[test]
fn merge_is_idempotent_through_persisted_text() {
    let lines = parse_document("# header\nDATABASE_URL=old\n\nLOCAL_ONLY=keep");
    let updates = updates_of(&[("DATABASE_URL", "new"), ("EXTRA", "v")]);
    let (first, first_changes) = merge(lines, &updates);
    assert!(!first_changes.is_empty());

    // The persister appends exactly one newline; a later run re-reads that.
    let mut persisted = first.clone();
    persisted.push('\n');
    let relines = parse_document(&persisted);
    let (second, second_changes) = merge(relines, &updates);
    assert_eq!(second, first);
    assert!(second_changes.is_empty());
}

#[test]
fn merge_does_not_touch_unrelated_lines() {
    let doc = "key with spaces = kept as raw?\nfoo-bar=baz\n1x=2\n  SPACED_KEY  =value\n# note";
    let lines = parse_document(doc);
    let (merged, changes) = merge(lines, &updates_of(&[]));
    assert_eq!(merged, doc);
    assert!(changes.is_empty());
}

#[test]
fn classifier_is_conservative() {
    assert!(matches!(parse_line("foo-bar=baz"), Line::Raw(_)));
    assert!(matches!(parse_line("1x=2"), Line::Raw(_)));
    assert!(matches!(parse_line("# comment"), Line::Raw(_)));
    assert!(matches!(parse_line("   "), Line::Raw(_)));
    assert!(matches!(parse_line("no equals sign"), Line::Raw(_)));
    match parse_line("  KEY =va=lue") {
        Line::Entry(e) => {
            assert_eq!(e.key, "KEY");
            assert_eq!(e.prefix, "  KEY =");
            assert_eq!(e.value, "va=lue");
        }
        Line::Raw(_) => panic!("expected an entry"),
    }
    assert!(is_valid_env_key("_UNDER_9"));
    assert!(!is_valid_env_key("9LEAD"));
    assert!(!is_valid_env_key(""));
    assert!(!is_valid_env_key("A-B"));
}

#[test]
fn classifier_trims_unicode_whitespace() {
    match parse_line("\u{a0}KEY\u{a0}=v") {
        Line::Entry(e) => {
            assert_eq!(e.key, "KEY");
            assert_eq!(e.prefix, "\u{a0}KEY\u{a0}=");
            assert_eq!(e.value, "v");
        }
        Line::Raw(_) => panic!("expected an entry"),
    }

    // A value consisting only of non-ASCII whitespace is blank.
    let ok = Config {
        version: 1,
        output: OutputConfig { env_file: ".env".to_string(), create_if_missing: true },
        provider: ProviderConfig {
            kind: "azure_key_vault".to_string(),
            vault_url: "\u{a0}\u{2003}".to_string(),
        },
        map: Vec::new(),
    };
    assert!(matches!(validate(&ok), Err(ConfigError::EmptyVaultUrl)));
}

#[test]
fn duplicate_override_secret_is_a_conflict() {
    let overrides = updates_of(&[("KEY_ONE", "shared-secret"), ("KEY_TWO", "shared-secret")]);
    match build_reverse_map(&overrides) {
        Err(ConflictError::DuplicateSecret { secret, first_key, second_key }) => {
            assert_eq!(secret, "shared-secret");
            assert_eq!(first_key, "KEY_ONE");
            assert_eq!(second_key, "KEY_TWO");
        }
        _ => panic!("expected a duplicate-secret conflict"),
    }
}

#[test]
fn colliding_derived_names_are_a_conflict() {
    let fixture = FixtureProvider::from_content("a-b=1\na_b=2\n").unwrap();
    let listed = fixture.fixture_list();
    match resolve(&listed, &Vec::new()) {
        Err(ConflictError::DuplicateEnvKey { env_key, .. }) => {
            assert_eq!(env_key, "A_B");
        }
        _ => panic!("expected a duplicate-target conflict"),
    }
}

#[test]
fn override_collides_with_derived_name() {
    let pairs = updates_of(&[("database-url", "DATABASE_URL"), ("other", "DATABASE_URL")]);
    assert!(validate_no_duplicate_env_keys(&pairs).is_err());
}

#[test]
fn resolve_prefers_overrides_and_derives_the_rest() {
    let fixture = FixtureProvider::from_content("database-url=x\nredis=y\n").unwrap();
    let listed = fixture.fixture_list();
    let overrides = updates_of(&[("DB", "database-url")]);
    let mapping = resolve(&listed, &overrides).unwrap();
    assert_eq!(mapping.len(), 2);
    assert!(mapping.contains(&("database-url".to_string(), "DB".to_string())));
    assert!(mapping.contains(&("redis".to_string(), "REDIS".to_string())));
}

#[test]
fn dry_run_output_is_redacted() {
    let changes = vec![
        Change { key: "DATABASE_URL".to_string(), kind: ChangeKind::Update },
        Change { key: "REDIS".to_string(), kind: ChangeKind::Add },
    ];
    let lines = dry_run_lines(&changes);
    assert_eq!(lines, vec!["UPDATE DATABASE_URL=********", "ADD REDIS=********"]);
    for line in &lines {
        assert!(!line.contains("super-secret"));
        assert!(!line.contains("redis://localhost"));
    }
}

#[test]
fn fixture_parses_pairs_directives_and_comments() {
    let content = "# comment\n\ndatabase-url=new\n!error:broken-secret\n!missing:gone\n";
    let fixture = FixtureProvider::from_content(content).unwrap();
    let names: Vec<String> =
        fixture.fixture_list().into_iter().map(|m| m.name).collect();
    // The listing is sorted and duplicate-free.
    assert_eq!(names, vec!["broken-secret", "database-url", "gone"]);
    assert_eq!(
        fixture.get_secret(&"database-url".to_string()).unwrap(),
        Some("new".to_string())
    );
    assert_eq!(fixture.get_secret(&"gone".to_string()).unwrap(), None);
    assert_eq!(fixture.get_secret(&"absent".to_string()).unwrap(), None);
    assert!(fixture.get_secret(&"broken-secret".to_string()).is_err());
}

#[test]
fn fixture_rejects_invalid_lines() {
    assert!(FixtureProvider::from_content("not an entry\n").is_err());
    assert!(FixtureProvider::from_content("=value\n").is_err());
}

#[test]
fn any_failing_fetch_aborts_the_whole_pull() {
    let fixture =
        FixtureProvider::from_content("database-url=new\n!error:broken-secret\n").unwrap();
    let listed = fixture.fixture_list();
    let mapping = resolve(&listed, &Vec::new()).unwrap();
    let fetched = fetch_all(&fixture, &mapping);
    match fetched {
        Err(e) => assert_eq!(e.secret, "broken-secret"),
        Ok(_) => panic!("expected the fetch to abort"),
    }
}

#[test]
fn successful_fetch_omits_missing_secrets() {
    let fixture =
        FixtureProvider::from_content("database-url=new\n!missing:gone\n").unwrap();
    let listed = fixture.fixture_list();
    let mapping = resolve(&listed, &Vec::new()).unwrap();
    let updates = fetch_all(&fixture, &mapping).unwrap();
    assert_eq!(updates, vec![("DATABASE_URL".to_string(), "new".to_string())]);
}

#[test]
fn validate_names_the_failing_check() {
    let ok = Config {
        version: 1,
        output: OutputConfig { env_file: ".env".to_string(), create_if_missing: true },
        provider: ProviderConfig {
            kind: "azure_key_vault".to_string(),
            vault_url: "https://example.vault.azure.net".to_string(),
        },
        map: updates_of(&[("DB", "database-url")]),
    };
    assert!(validate(&ok).is_ok());

    let mut bad_kind = ok.clone();
    bad_kind.provider.kind = "vault".to_string();
    assert!(matches!(
        validate(&bad_kind),
        Err(ConfigError::UnsupportedProviderKind { .. })
    ));

    let mut bad_url = ok.clone();
    bad_url.provider.vault_url = "   ".to_string();
    assert!(matches!(validate(&bad_url), Err(ConfigError::EmptyVaultUrl)));

    let mut bad_file = ok.clone();
    bad_file.output.env_file = "".to_string();
    assert!(matches!(validate(&bad_file), Err(ConfigError::EmptyEnvFile)));

    let mut bad_map = ok.clone();
    bad_map.map = updates_of(&[("", "secret")]);
    assert!(matches!(validate(&bad_map), Err(ConfigError::EmptyMapEntry)));
}

#[test]
fn env_path_resolution_follows_the_config_directory() {
    let cfg = Config {
        version: 1,
        output: OutputConfig { env_file: ".env".to_string(), create_if_missing: true },
        provider: ProviderConfig {
            kind: "azure_key_vault".to_string(),
            vault_url: "https://example.vault.azure.net".to_string(),
        },
        map: Vec::new(),
    };
    assert_eq!(resolve_env_path("/work/envit.toml", &cfg), "/work/.env");
    assert_eq!(resolve_env_path("envit.toml", &cfg), ".env");

    let mut abs = cfg.clone();
    abs.output.env_file = "/tmp/target.env".to_string();
    assert_eq!(resolve_env_path("/work/envit.toml", &abs), "/tmp/target.env");
}

#[test]
fn defaults_match_the_documented_output() {
    assert_eq!(default_env_file(), ".env");
    assert!(default_create_if_missing());
    let out = OutputConfig::default();
    assert_eq!(out.env_file, ".env");
    assert!(out.create_if_missing);
}

#[test]
fn conflict_messages_name_the_identifiers() {
    let e = ConflictError::DuplicateSecret {
        secret: "s".to_string(),
        first_key: "A".to_string(),
        second_key: "B".to_string(),
    };
    let m = e.message();
    assert!(m.contains("s") && m.contains("A") && m.contains("B"));
}
