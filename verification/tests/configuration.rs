//! Configurations and their overrides.

use undr9::auth::{Action, ApiKeyAuthenticator, Authorizer, Principal, Role};
use undr9::config::{generate_bootstrap_api_key, AppConfig, Variables};
use undr9::operate::runtime_server_config;
use undr9::ordered::OrderedMap;
use undr9::vectors::VectorIndexBackendConfig;

/// The number of the process that made up the keys.
const PROCESS_ID: u32 = 4_242;

fn variables(pairs: &[(&str, &str)]) -> Variables {
    let mut variables: Variables = OrderedMap::new();
    for (name, value) in pairs {
        variables.insert((*name).to_owned(), (*value).to_owned());
    }
    variables
}

#[test]
fn default_configuration_is_valid() {
    let config = AppConfig::for_process(PROCESS_ID);
    assert!(config.validate().is_ok());
}

#[test]
fn rejects_invalid_wal_settings() {
    let mut config = AppConfig::for_process(PROCESS_ID);
    config.wal.segment_size_bytes = 1024;

    let error = config.validate().expect_err("invalid config should fail");
    assert!(error.to_string().contains("segment_size_bytes"));
}

#[test]
fn rejects_legacy_development_keys() {
    let mut config = AppConfig::for_process(PROCESS_ID);
    config.auth.admin_api_key = "undr9-dev-admin-key".to_owned();

    let error = config.validate().expect_err("legacy dev key should fail validation");
    assert!(error.to_string().contains("legacy development API keys"));
}

#[test]
fn applies_observability_env_overrides() {
    let mut config = AppConfig::for_process(PROCESS_ID);
    config.apply_env_overrides(&variables(&[
        ("UNDR9_LOG_LEVEL", "debug"),
        ("UNDR9_TRACING_ENABLED", "false"),
        ("UNDR9_TRACING_JSON", "false"),
        ("UNDR9_OTLP_ENABLED", "true"),
        ("UNDR9_OTLP_PROTOCOL", "http/protobuf"),
        ("UNDR9_OTLP_ENDPOINT", "http://127.0.0.1:4318/v1/traces"),
        ("UNDR9_OTLP_HEADERS", "authorization=Bearer token,x-scope-orgid=tenant"),
        ("UNDR9_OTLP_TIMEOUT_MS", "2500"),
    ]));

    assert_eq!(config.observability.log_level, "debug");
    assert!(!config.observability.tracing_enabled);
    assert!(!config.observability.tracing_json);
    assert!(config.observability.otlp_enabled);
    assert_eq!(config.observability.otlp_protocol, "http/protobuf");
    assert_eq!(config.observability.otlp_endpoint, "http://127.0.0.1:4318/v1/traces");
    assert_eq!(
        config.observability.otlp_headers,
        "authorization=Bearer token,x-scope-orgid=tenant"
    );
    assert_eq!(config.observability.otlp_timeout_ms, 2500);
}

#[test]
fn rejects_duplicate_or_short_api_keys() {
    let mut config = AppConfig::for_process(PROCESS_ID);
    config.auth.admin_api_key = "short".to_owned();
    config.auth.writer_api_key = "short".to_owned();
    config.auth.reader_api_key = "distinct-reader-key".to_owned();

    let error = config.validate().expect_err("weak auth keys should fail validation");
    assert!(error.to_string().contains("at least"));

    config.auth.admin_api_key = "distinct-admin-key".to_owned();
    config.auth.writer_api_key = "distinct-admin-key".to_owned();
    config.auth.reader_api_key = "distinct-reader-key".to_owned();

    let error = config.validate().expect_err("duplicate auth keys should fail validation");
    assert!(error.to_string().contains("must be distinct"));
}

#[test]
fn applies_runtime_env_overrides() {
    let mut config = AppConfig::for_process(PROCESS_ID);
    config.apply_env_overrides(&variables(&[
        ("UNDR9_BIND_ADDRESS", "0.0.0.0:9090"),
        ("UNDR9_REQUEST_TIMEOUT_MS", "9000"),
        ("UNDR9_MAX_REQUEST_BODY_BYTES", "2048"),
        ("UNDR9_STORAGE_ROOT", "/tmp/undr9-data"),
        ("UNDR9_STORAGE_CREATE_IF_MISSING", "false"),
        ("UNDR9_WAL_SEGMENT_SIZE_BYTES", "8192"),
        ("UNDR9_WAL_MAX_REPLAY_BYTES", "16384"),
        ("UNDR9_WAL_FSYNC_ON_WRITE", "false"),
        ("UNDR9_MAINTENANCE_MAX_NODES", "123"),
        ("UNDR9_MAINTENANCE_MAX_EDGES", "456"),
    ]));

    assert_eq!(config.server.bind_address, "0.0.0.0:9090");
    assert_eq!(config.server.request_timeout_ms, 9000);
    assert_eq!(config.server.max_request_body_bytes, 2048);
    assert_eq!(config.storage.root_dir, "/tmp/undr9-data");
    assert!(!config.storage.create_if_missing);
    assert_eq!(config.wal.segment_size_bytes, 8192);
    assert_eq!(config.wal.max_replay_bytes, 16384);
    assert!(!config.wal.fsync_on_write);
    assert_eq!(config.maintenance.max_node_count, 123);
    assert_eq!(config.maintenance.max_edge_count, 456);
}

#[test]
fn overrides_that_do_not_parse_are_ignored() {
    let mut config = AppConfig::for_process(7);
    let before = config.server.request_timeout_ms;
    config.apply_env_overrides(&variables(&[
        ("UNDR9_REQUEST_TIMEOUT_MS", "soon"),
        ("UNDR9_AUTH_ENABLED", "maybe"),
    ]));
    assert_eq!(config.server.request_timeout_ms, before);
    assert!(config.auth.enabled);
}

#[test]
fn no_variables_change_nothing_and_overrides_settle() {
    let mut config = AppConfig::with_keys_of(1, 2, 3, 4);
    config.apply_env_overrides(&variables(&[]));
    assert_eq!(config, AppConfig::with_keys_of(1, 2, 3, 4));
    let set = variables(&[("UNDR9_LOG_LEVEL", "debug"), ("UNDR9_TRACING_JSON", "true")]);
    config.apply_env_overrides(&set);
    let mut again = AppConfig::with_keys_of(1, 2, 3, 4);
    again.apply_env_overrides(&set);
    again.apply_env_overrides(&set);
    assert_eq!(config, again);
}

#[test]
fn bootstrap_keys_carry_process_and_time() {
    assert_eq!(
        generate_bootstrap_api_key("admin", 0x1f, 0xabc),
        "undr9-admin-0000001f-00000000000000000000000000000abc"
    );
    let config = AppConfig::for_process(3);
    assert!(config.auth.admin_api_key.starts_with("undr9-admin-00000003-"));
    assert!(config.auth.writer_api_key.starts_with("undr9-writer-00000003-"));
    assert!(config.auth.reader_api_key.starts_with("undr9-reader-00000003-"));
    assert!(config.validate().is_ok());
}

#[test]
fn validation_names_what_is_wrong() {
    let refusal = |change: &dyn Fn(&mut AppConfig)| {
        let mut config = AppConfig::for_process(PROCESS_ID);
        change(&mut config);
        config.validate().expect_err("invalid config should fail").to_string()
    };
    assert!(refusal(&|config| config.server.bind_address = " ".to_owned())
        .contains("bind_address"));
    assert!(refusal(&|config| config.server.request_timeout_ms = 0)
        .contains("request_timeout_ms"));
    assert!(refusal(&|config| config.server.max_request_body_bytes = 0)
        .contains("max_request_body_bytes"));
    assert!(refusal(&|config| config.storage.storage_version = String::new())
        .contains("storage_version"));
    assert!(refusal(&|config| config.wal.max_replay_bytes = 4096).contains("max_replay_bytes"));
    assert!(refusal(&|config| config.auth.bootstrap_admin_username = String::new())
        .contains("bootstrap_admin_username"));
    assert!(refusal(&|config| config.auth.admin_api_key = " ".to_owned())
        .contains("admin_api_key cannot be empty"));
    assert!(refusal(&|config| config.auth.writer_api_key = String::new())
        .contains("writer_api_key cannot be empty"));
    assert!(refusal(&|config| config.auth.reader_api_key = String::new())
        .contains("reader_api_key cannot be empty"));
    assert!(refusal(&|config| config.maintenance.max_node_count = 0).contains("max_node_count"));
    assert!(refusal(&|config| config.maintenance.max_edge_count = 0).contains("max_edge_count"));
    assert!(refusal(&|config| config.observability.log_level = String::new())
        .contains("log_level"));
    assert!(refusal(&|config| config.observability.otlp_protocol = "carrier-pigeon".to_owned())
        .contains("otlp_protocol"));
    assert!(refusal(&|config| config.observability.otlp_timeout_ms = 0)
        .contains("otlp_timeout_ms"));
    let mut exact = AppConfig::for_process(PROCESS_ID);
    exact.vector_index.backend = VectorIndexBackendConfig::Exact;
    assert!(exact.validate().is_ok());
}

#[test]
fn admin_can_perform_maintenance() {
    assert!(Authorizer::is_allowed(
        Principal { name: "admin".to_owned(), role: Role::Admin },
        Action::Maintain
    ));
}

#[test]
fn readers_cannot_write() {
    assert!(!Authorizer::is_allowed(
        Principal { name: "reader".to_owned(), role: Role::Reader },
        Action::Write
    ));
}

#[test]
fn roles_nest() {
    let allowed = |role: Role, action: Action| {
        Authorizer::is_allowed(Principal { name: "someone".to_owned(), role }, action)
    };
    for action in [Action::Read, Action::Write, Action::Administer, Action::Maintain] {
        assert!(!allowed(Role::Reader, action) || allowed(Role::Writer, action));
        assert!(!allowed(Role::Writer, action) || allowed(Role::Admin, action));
    }
    assert!(!allowed(Role::Writer, Action::Administer));
    assert!(!allowed(Role::Writer, Action::Maintain));
}

#[test]
fn authenticates_admin_api_key() {
    let config = AppConfig::for_process(PROCESS_ID);
    let principal = ApiKeyAuthenticator::authenticate(&config.auth, &config.auth.admin_api_key)
        .expect("admin key should authenticate");

    assert_eq!(principal.role, Role::Admin);
    assert_eq!(principal.name, "admin");
}

#[test]
fn every_key_stands_for_its_role() {
    let config = AppConfig::with_keys_of(1, 2, 3, 4);
    let role = |key: &str| {
        ApiKeyAuthenticator::authenticate(&config.auth, key).map(|principal| principal.role)
    };
    assert_eq!(role(&config.auth.writer_api_key), Ok(Role::Writer));
    assert_eq!(role(&config.auth.reader_api_key), Ok(Role::Reader));
    assert!(role("").is_err());
}

#[test]
fn rejects_similar_but_invalid_api_key() {
    let config = AppConfig::for_process(PROCESS_ID);
    let mut invalid = config.auth.admin_api_key.clone();
    invalid.push('x');

    let error = ApiKeyAuthenticator::authenticate(&config.auth, &invalid)
        .expect_err("similar but invalid key should fail");
    assert!(error.to_string().contains("invalid API key"));
}

#[test]
fn started_services_need_their_keys() {
    let base = AppConfig::with_keys_of(1, 2, 3, 4);
    let missing = runtime_server_config(base, "/data", "0.0.0.0:8080", &variables(&[]));
    assert!(missing.is_err());
    let set = variables(&[
        ("UNDR9_ADMIN_API_KEY", "an-admin-key-0123456789"),
        ("UNDR9_WRITER_API_KEY", "a-writer-key-0123456789"),
        ("UNDR9_READER_API_KEY", "a-reader-key-0123456789"),
    ]);
    let config = runtime_server_config(
        AppConfig::with_keys_of(1, 2, 3, 4),
        "/data",
        "0.0.0.0:8080",
        &set,
    )
    .expect("the service should start");
    assert!(config.auth.enabled);
    assert_eq!(config.storage.root_dir, "/data");
    assert_eq!(config.server.bind_address, "0.0.0.0:8080");
    assert_eq!(config.auth.admin_api_key, "an-admin-key-0123456789");
    assert_eq!(config.auth.writer_api_key, "a-writer-key-0123456789");
    assert_eq!(config.auth.reader_api_key, "a-reader-key-0123456789");
}
