//! The configuration of the database.
use vstd::prelude::*;
use vstd::string::*;
use vstd::utf8::*;

use crate::clock::now_epoch_nanos;
use crate::common::{ErrorModel, Result, Undr9Error};
use crate::ordered::OrderedMap;
use crate::text;
use crate::vectors::{default_vector_index, VectorIndexBackendConfig, VectorIndexConfig};

verus! {

/// The least length of an API key, in bytes.
pub const MIN_API_KEY_LENGTH: usize = 16;

/// Where and how requests are taken.
#[derive(Debug, PartialEq, Eq)]
pub struct ServerConfig {
    pub bind_address: String,
    pub request_timeout_ms: u64,
    pub max_request_body_bytes: usize,
}

/// Where the data lies.
#[derive(Debug, PartialEq, Eq)]
pub struct StorageConfig {
    pub root_dir: String,
    pub create_if_missing: bool,
    pub storage_version: String,
}

/// How the log is written.
#[derive(Debug, Clone, Copy, PartialEq, Eq, Structural)]
pub struct WalConfig {
    pub segment_size_bytes: u64,
    pub fsync_on_write: bool,
    pub max_replay_bytes: u64,
}

/// Who may do what.
#[derive(Debug, PartialEq, Eq)]
pub struct AuthConfig {
    pub enabled: bool,
    pub bootstrap_admin_username: String,
    pub admin_api_key: String,
    pub writer_api_key: String,
    pub reader_api_key: String,
}

/// How much maintenance takes on.
#[derive(Debug, Clone, Copy, PartialEq, Eq, Structural)]
pub struct MaintenanceConfig {
    pub max_node_count: usize,
    pub max_edge_count: usize,
}

/// What is reported, and where to.
#[derive(Debug, PartialEq, Eq)]
pub struct ObservabilityConfig {
    pub log_level: String,
    pub metrics_enabled: bool,
    pub tracing_enabled: bool,
    pub tracing_json: bool,
    pub otlp_enabled: bool,
    pub otlp_protocol: String,
    pub otlp_endpoint: String,
    pub otlp_headers: String,
    pub otlp_timeout_ms: u64,
    pub audit_log_retention_entries: usize,
    pub audit_log_export_limit: usize,
}

/// The configuration of the database.
#[derive(Debug, PartialEq, Eq)]
pub struct AppConfig {
    pub server: ServerConfig,
    pub storage: StorageConfig,
    pub wal: WalConfig,
    pub auth: AuthConfig,
    pub maintenance: MaintenanceConfig,
    pub observability: ObservabilityConfig,
    pub vector_index: VectorIndexConfig,
}

// ---------------------------------------------------------------------------------------------
// Models
// ---------------------------------------------------------------------------------------------

/// The model of where and how requests are taken.
pub struct ServerModel {
    pub bind_address: Seq<char>,
    pub request_timeout_ms: u64,
    pub max_request_body_bytes: usize,
}

/// The model of where the data lies.
pub struct StorageModel {
    pub root_dir: Seq<char>,
    pub create_if_missing: bool,
    pub storage_version: Seq<char>,
}

/// The model of who may do what.
pub struct AuthModel {
    pub enabled: bool,
    pub bootstrap_admin_username: Seq<char>,
    pub admin_api_key: Seq<char>,
    pub writer_api_key: Seq<char>,
    pub reader_api_key: Seq<char>,
}

/// The model of what is reported.
pub struct ObservabilityModel {
    pub log_level: Seq<char>,
    pub metrics_enabled: bool,
    pub tracing_enabled: bool,
    pub tracing_json: bool,
    pub otlp_enabled: bool,
    pub otlp_protocol: Seq<char>,
    pub otlp_endpoint: Seq<char>,
    pub otlp_headers: Seq<char>,
    pub otlp_timeout_ms: u64,
    pub audit_log_retention_entries: usize,
    pub audit_log_export_limit: usize,
}

/// The model of a configuration.
pub struct ConfigModel {
    pub server: ServerModel,
    pub storage: StorageModel,
    pub wal: WalConfig,
    pub auth: AuthModel,
    pub maintenance: MaintenanceConfig,
    pub observability: ObservabilityModel,
    pub vector_index: VectorIndexConfig,
}

impl View for ServerConfig {
    type V = ServerModel;

    open spec fn view(&self) -> ServerModel {
        ServerModel {
            bind_address: self.bind_address@,
            request_timeout_ms: self.request_timeout_ms,
            max_request_body_bytes: self.max_request_body_bytes,
        }
    }
}

impl View for StorageConfig {
    type V = StorageModel;

    open spec fn view(&self) -> StorageModel {
        StorageModel {
            root_dir: self.root_dir@,
            create_if_missing: self.create_if_missing,
            storage_version: self.storage_version@,
        }
    }
}

impl View for AuthConfig {
    type V = AuthModel;

    open spec fn view(&self) -> AuthModel {
        AuthModel {
            enabled: self.enabled,
            bootstrap_admin_username: self.bootstrap_admin_username@,
            admin_api_key: self.admin_api_key@,
            writer_api_key: self.writer_api_key@,
            reader_api_key: self.reader_api_key@,
        }
    }
}

impl View for ObservabilityConfig {
    type V = ObservabilityModel;

    open spec fn view(&self) -> ObservabilityModel {
        ObservabilityModel {
            log_level: self.log_level@,
            metrics_enabled: self.metrics_enabled,
            tracing_enabled: self.tracing_enabled,
            tracing_json: self.tracing_json,
            otlp_enabled: self.otlp_enabled,
            otlp_protocol: self.otlp_protocol@,
            otlp_endpoint: self.otlp_endpoint@,
            otlp_headers: self.otlp_headers@,
            otlp_timeout_ms: self.otlp_timeout_ms,
            audit_log_retention_entries: self.audit_log_retention_entries,
            audit_log_export_limit: self.audit_log_export_limit,
        }
    }
}

impl View for AppConfig {
    type V = ConfigModel;

    open spec fn view(&self) -> ConfigModel {
        ConfigModel {
            server: self.server@,
            storage: self.storage@,
            wal: self.wal,
            auth: self.auth@,
            maintenance: self.maintenance,
            observability: self.observability@,
            vector_index: self.vector_index,
        }
    }
}

// ---------------------------------------------------------------------------------------------
// Where nothing is set
// ---------------------------------------------------------------------------------------------

/// The API key of a role that a process makes up at a moment.
pub open spec fn bootstrap_key(role: Seq<char>, process_id: u32, nanos: u128) -> Seq<char> {
    "undr9-"@ + role + "-"@ + text::hexadecimal(process_id as nat, 8) + "-"@ + text::hexadecimal(
        nanos as nat,
        32,
    )
}

/// The API key of a role that a process makes up at a moment.
pub fn generate_bootstrap_api_key(role: &str, process_id: u32, nanos: u128) -> (r: String)
    ensures
        r@ == bootstrap_key(role@, process_id, nanos),
{
    let process: String = text::hexadecimal_text(process_id as u128, 8);
    let moment: String = text::hexadecimal_text(nanos, 32);
    let mut key: String = "undr9-".to_owned();
    key.append(role);
    key.append("-");
    key.append(process.as_str());
    key.append("-");
    key.append(moment.as_str());
    key
}

/// The configuration where nothing is set, with keys that a process made up at three moments.
pub open spec fn default_config(
    process_id: u32,
    admin_nanos: u128,
    writer_nanos: u128,
    reader_nanos: u128,
) -> ConfigModel {
    ConfigModel {
        server: ServerModel {
            bind_address: "127.0.0.1:8080"@,
            request_timeout_ms: 5_000,
            max_request_body_bytes: 1_048_576,
        },
        storage: StorageModel {
            root_dir: "./data"@,
            create_if_missing: true,
            storage_version: "1"@,
        },
        wal: WalConfig {
            segment_size_bytes: 67_108_864,
            fsync_on_write: true,
            max_replay_bytes: 536_870_912,
        },
        auth: AuthModel {
            enabled: true,
            bootstrap_admin_username: "admin"@,
            admin_api_key: bootstrap_key("admin"@, process_id, admin_nanos),
            writer_api_key: bootstrap_key("writer"@, process_id, writer_nanos),
            reader_api_key: bootstrap_key("reader"@, process_id, reader_nanos),
        },
        maintenance: MaintenanceConfig { max_node_count: 5_000_000, max_edge_count: 10_000_000 },
        observability: ObservabilityModel {
            log_level: "info"@,
            metrics_enabled: true,
            tracing_enabled: true,
            tracing_json: true,
            otlp_enabled: false,
            otlp_protocol: "grpc"@,
            otlp_endpoint: "http://127.0.0.1:4317"@,
            otlp_headers: ""@,
            otlp_timeout_ms: 10_000,
            audit_log_retention_entries: 10_000,
            audit_log_export_limit: 1_000,
        },
        vector_index: default_vector_index(),
    }
}

impl AppConfig {
    /// The configuration where nothing is set, with keys that a process made up at three moments.
    pub fn with_keys_of(
        process_id: u32,
        admin_nanos: u128,
        writer_nanos: u128,
        reader_nanos: u128,
    ) -> (r: Self)
        ensures
            r@ == default_config(process_id, admin_nanos, writer_nanos, reader_nanos),
    {
        AppConfig {
            server: ServerConfig {
                bind_address: "127.0.0.1:8080".to_owned(),
                request_timeout_ms: 5_000,
                max_request_body_bytes: 1_048_576,
            },
            storage: StorageConfig {
                root_dir: "./data".to_owned(),
                create_if_missing: true,
                storage_version: "1".to_owned(),
            },
            wal: WalConfig {
                segment_size_bytes: 67_108_864,
                fsync_on_write: true,
                max_replay_bytes: 536_870_912,
            },
            auth: AuthConfig {
                enabled: true,
                bootstrap_admin_username: "admin".to_owned(),
                admin_api_key: generate_bootstrap_api_key("admin", process_id, admin_nanos),
                writer_api_key: generate_bootstrap_api_key("writer", process_id, writer_nanos),
                reader_api_key: generate_bootstrap_api_key("reader", process_id, reader_nanos),
            },
            maintenance: MaintenanceConfig {
                max_node_count: 5_000_000,
                max_edge_count: 10_000_000,
            },
            observability: ObservabilityConfig {
                log_level: "info".to_owned(),
                metrics_enabled: true,
                tracing_enabled: true,
                tracing_json: true,
                otlp_enabled: false,
                otlp_protocol: "grpc".to_owned(),
                otlp_endpoint: "http://127.0.0.1:4317".to_owned(),
                otlp_headers: "".to_owned(),
                otlp_timeout_ms: 10_000,
                audit_log_retention_entries: 10_000,
                audit_log_export_limit: 1_000,
            },
            vector_index: VectorIndexConfig::default(),
        }
    }

    /// The configuration where nothing is set, with keys that the given process makes up now.
    pub fn for_process(process_id: u32) -> (r: Self)
        ensures
            exists|a: u128, w: u128, n: u128| r@ == #[trigger] default_config(process_id, a, w, n),
            config_error(r@) is None,
    {
        let admin: u128 = now_epoch_nanos();
        let writer: u128 = now_epoch_nanos();
        let reader: u128 = now_epoch_nanos();
        proof {
            law_default_config_is_valid(process_id, admin, writer, reader);
        }
        AppConfig::with_keys_of(process_id, admin, writer, reader)
    }
}

// ---------------------------------------------------------------------------------------------
// What the environment sets
// ---------------------------------------------------------------------------------------------

/// The variables of an environment.
pub type Variables = OrderedMap<String, String>;

/// A text that a variable may set.
pub open spec fn set_text(
    variables: Map<Seq<char>, Seq<char>>,
    name: Seq<char>,
    value: Seq<char>,
) -> Seq<char> {
    if variables.contains_key(name) {
        variables[name]
    } else {
        value
    }
}

/// A number that a variable may set: what is no number, or too great a one, sets nothing.
pub open spec fn set_number(
    variables: Map<Seq<char>, Seq<char>>,
    name: Seq<char>,
    value: nat,
    max: nat,
) -> nat {
    if variables.contains_key(name) {
        match text::parsed_unsigned(text::trimmed(variables[name]), max) {
            Some(parsed) => parsed,
            None => value,
        }
    } else {
        value
    }
}

/// Whether a word, in lower case, says yes.
pub open spec fn says_yes(word: Seq<char>) -> bool {
    word == "1"@ || word == "true"@ || word == "yes"@ || word == "on"@
}

/// Whether a word, in lower case, says no.
pub open spec fn says_no(word: Seq<char>) -> bool {
    word == "0"@ || word == "false"@ || word == "no"@ || word == "off"@
}

/// A switch that a variable may set: what says neither yes nor no sets nothing.
pub open spec fn set_flag(
    variables: Map<Seq<char>, Seq<char>>,
    name: Seq<char>,
    value: bool,
) -> bool {
    if variables.contains_key(name) {
        let word = text::lowercased(text::trimmed(variables[name]));
        if says_yes(word) {
            true
        } else if says_no(word) {
            false
        } else {
            value
        }
    } else {
        value
    }
}

/// A backend that a variable may set: what names none sets nothing.
pub open spec fn set_backend(
    variables: Map<Seq<char>, Seq<char>>,
    name: Seq<char>,
    value: VectorIndexBackendConfig,
) -> VectorIndexBackendConfig {
    if variables.contains_key(name) {
        let word = text::lowercased(text::trimmed(variables[name]));
        if word == "exact"@ {
            VectorIndexBackendConfig::Exact
        } else if word == "hnsw"@ {
            VectorIndexBackendConfig::Hnsw
        } else {
            value
        }
    } else {
        value
    }
}

impl ConfigModel {
    /// The configuration after the variables of an environment have been heeded.
    pub open spec fn overridden(self, variables: Map<Seq<char>, Seq<char>>) -> ConfigModel {
        ConfigModel {
            server: ServerModel {
                bind_address: set_text(
                    variables,
                    "UNDR9_BIND_ADDRESS"@,
                    self.server.bind_address,
                ),
                request_timeout_ms: set_number(
                    variables,
                    "UNDR9_REQUEST_TIMEOUT_MS"@,
                    self.server.request_timeout_ms as nat,
                    u64::MAX as nat,
                ) as u64,
                max_request_body_bytes: set_number(
                    variables,
                    "UNDR9_MAX_REQUEST_BODY_BYTES"@,
                    self.server.max_request_body_bytes as nat,
                    usize::MAX as nat,
                ) as usize,
            },
            storage: StorageModel {
                root_dir: set_text(variables, "UNDR9_STORAGE_ROOT"@, self.storage.root_dir),
                create_if_missing: set_flag(
                    variables,
                    "UNDR9_STORAGE_CREATE_IF_MISSING"@,
                    self.storage.create_if_missing,
                ),
                storage_version: self.storage.storage_version,
            },
            wal: WalConfig {
                segment_size_bytes: set_number(
                    variables,
                    "UNDR9_WAL_SEGMENT_SIZE_BYTES"@,
                    self.wal.segment_size_bytes as nat,
                    u64::MAX as nat,
                ) as u64,
                fsync_on_write: set_flag(
                    variables,
                    "UNDR9_WAL_FSYNC_ON_WRITE"@,
                    self.wal.fsync_on_write,
                ),
                max_replay_bytes: set_number(
                    variables,
                    "UNDR9_WAL_MAX_REPLAY_BYTES"@,
                    self.wal.max_replay_bytes as nat,
                    u64::MAX as nat,
                ) as u64,
            },
            auth: AuthModel {
                enabled: set_flag(variables, "UNDR9_AUTH_ENABLED"@, self.auth.enabled),
                bootstrap_admin_username: set_text(
                    variables,
                    "UNDR9_BOOTSTRAP_ADMIN_USERNAME"@,
                    self.auth.bootstrap_admin_username,
                ),
                admin_api_key: set_text(
                    variables,
                    "UNDR9_ADMIN_API_KEY"@,
                    self.auth.admin_api_key,
                ),
                writer_api_key: set_text(
                    variables,
                    "UNDR9_WRITER_API_KEY"@,
                    self.auth.writer_api_key,
                ),
                reader_api_key: set_text(
                    variables,
                    "UNDR9_READER_API_KEY"@,
                    self.auth.reader_api_key,
                ),
            },
            maintenance: MaintenanceConfig {
                max_node_count: set_number(
                    variables,
                    "UNDR9_MAINTENANCE_MAX_NODES"@,
                    self.maintenance.max_node_count as nat,
                    usize::MAX as nat,
                ) as usize,
                max_edge_count: set_number(
                    variables,
                    "UNDR9_MAINTENANCE_MAX_EDGES"@,
                    self.maintenance.max_edge_count as nat,
                    usize::MAX as nat,
                ) as usize,
            },
            observability: ObservabilityModel {
                log_level: set_text(variables, "UNDR9_LOG_LEVEL"@, self.observability.log_level),
                metrics_enabled: set_flag(
                    variables,
                    "UNDR9_METRICS_ENABLED"@,
                    self.observability.metrics_enabled,
                ),
                tracing_enabled: set_flag(
                    variables,
                    "UNDR9_TRACING_ENABLED"@,
                    self.observability.tracing_enabled,
                ),
                tracing_json: set_flag(
                    variables,
                    "UNDR9_TRACING_JSON"@,
                    self.observability.tracing_json,
                ),
                otlp_enabled: set_flag(
                    variables,
                    "UNDR9_OTLP_ENABLED"@,
                    self.observability.otlp_enabled,
                ),
                otlp_protocol: set_text(
                    variables,
                    "UNDR9_OTLP_PROTOCOL"@,
                    self.observability.otlp_protocol,
                ),
                otlp_endpoint: set_text(
                    variables,
                    "UNDR9_OTLP_ENDPOINT"@,
                    self.observability.otlp_endpoint,
                ),
                otlp_headers: set_text(
                    variables,
                    "UNDR9_OTLP_HEADERS"@,
                    self.observability.otlp_headers,
                ),
                otlp_timeout_ms: set_number(
                    variables,
                    "UNDR9_OTLP_TIMEOUT_MS"@,
                    self.observability.otlp_timeout_ms as nat,
                    u64::MAX as nat,
                ) as u64,
                audit_log_retention_entries: set_number(
                    variables,
                    "UNDR9_AUDIT_LOG_RETENTION_ENTRIES"@,
                    self.observability.audit_log_retention_entries as nat,
                    usize::MAX as nat,
                ) as usize,
                audit_log_export_limit: set_number(
                    variables,
                    "UNDR9_AUDIT_LOG_EXPORT_LIMIT"@,
                    self.observability.audit_log_export_limit as nat,
                    usize::MAX as nat,
                ) as usize,
            },
            vector_index: VectorIndexConfig {
                backend: set_backend(
                    variables,
                    "UNDR9_VECTOR_INDEX_BACKEND"@,
                    self.vector_index.backend,
                ),
                semantic_top_k: set_number(
                    variables,
                    "UNDR9_VECTOR_INDEX_SEMANTIC_TOP_K"@,
                    self.vector_index.semantic_top_k as nat,
                    usize::MAX as nat,
                ) as usize,
                hnsw_ef_search: set_number(
                    variables,
                    "UNDR9_HNSW_EF_SEARCH"@,
                    self.vector_index.hnsw_ef_search as nat,
                    usize::MAX as nat,
                ) as usize,
                ..self.vector_index
            },
        }
    }
}

/// Sets a text from a variable.
fn override_text(variables: &Variables, name: &str, value: &mut String)
    ensures
        final(value)@ == set_text(variables@, name@, old(value)@),
{
    match variables.get_text(name) {
        Some(found) => {
            *value = found.clone();
        },
        None => {},
    }
}

/// The number that a variable sets, or the one that is set.
fn overriding_number(variables: &Variables, name: &str, value: u64, max: u64) -> (r: u64)
    ensures
        r == set_number(variables@, name@, value as nat, max as nat),
        value <= max ==> r <= max,
{
    match variables.get_text(name) {
        Some(found) => {
            let digits: String = text::trim(found.as_str());
            match text::parse_unsigned(digits.as_str(), max) {
                Some(parsed) => parsed,
                None => value,
            }
        },
        None => value,
    }
}

/// Sets a number from a variable.
fn override_u64(variables: &Variables, name: &str, value: &mut u64)
    ensures
        *final(value) == set_number(
            variables@,
            name@,
            *old(value) as nat,
            u64::MAX as nat,
        ) as u64,
{
    *value = overriding_number(variables, name, *value, u64::MAX);
}

/// Sets a number from a variable.
fn override_usize(variables: &Variables, name: &str, value: &mut usize)
    ensures
        *final(value) == set_number(
            variables@,
            name@,
            *old(value) as nat,
            usize::MAX as nat,
        ) as usize,
{
    *value = overriding_number(variables, name, *value as u64, usize::MAX as u64) as usize;
}

/// The word of a variable, in lower case.
fn word_of(value: &String) -> (r: String)
    ensures
        r@ == text::lowercased(text::trimmed(value@)),
{
    let trimmed: String = text::trim(value.as_str());
    text::to_lower(trimmed.as_str())
}

/// Sets a switch from a variable.
fn override_flag(variables: &Variables, name: &str, value: &mut bool)
    ensures
        *final(value) == set_flag(variables@, name@, *old(value)),
{
    match variables.get_text(name) {
        Some(found) => {
            let word: String = word_of(found);
            let w: &str = word.as_str();
            if text::same_text(w, "1") || text::same_text(w, "true") || text::same_text(w, "yes")
                || text::same_text(w, "on") {
                *value = true;
            } else if text::same_text(w, "0") || text::same_text(w, "false") || text::same_text(
                w,
                "no",
            ) || text::same_text(w, "off") {
                *value = false;
            }
        },
        None => {},
    }
}

/// Sets a backend from a variable.
fn override_backend(variables: &Variables, name: &str, value: &mut VectorIndexBackendConfig)
    ensures
        *final(value) == set_backend(variables@, name@, *old(value)),
{
    match variables.get_text(name) {
        Some(found) => {
            let word: String = word_of(found);
            if text::same_text(word.as_str(), "exact") {
                *value = VectorIndexBackendConfig::Exact;
            } else if text::same_text(word.as_str(), "hnsw") {
                *value = VectorIndexBackendConfig::Hnsw;
            }
        },
        None => {},
    }
}

impl AppConfig {
    /// Heeds the variables of an environment: see [`ConfigModel::overridden`].
    pub fn apply_env_overrides(&mut self, variables: &Variables)
        ensures
            final(self)@ == old(self)@.overridden(variables@),
    {
        override_text(variables, "UNDR9_BIND_ADDRESS", &mut self.server.bind_address);
        override_u64(variables, "UNDR9_REQUEST_TIMEOUT_MS", &mut self.server.request_timeout_ms);
        override_usize(
            variables,
            "UNDR9_MAX_REQUEST_BODY_BYTES",
            &mut self.server.max_request_body_bytes,
        );
        override_text(variables, "UNDR9_STORAGE_ROOT", &mut self.storage.root_dir);
        override_flag(
            variables,
            "UNDR9_STORAGE_CREATE_IF_MISSING",
            &mut self.storage.create_if_missing,
        );
        override_u64(
            variables,
            "UNDR9_WAL_SEGMENT_SIZE_BYTES",
            &mut self.wal.segment_size_bytes,
        );
        override_u64(variables, "UNDR9_WAL_MAX_REPLAY_BYTES", &mut self.wal.max_replay_bytes);
        override_flag(variables, "UNDR9_WAL_FSYNC_ON_WRITE", &mut self.wal.fsync_on_write);
        override_flag(variables, "UNDR9_AUTH_ENABLED", &mut self.auth.enabled);
        override_text(
            variables,
            "UNDR9_BOOTSTRAP_ADMIN_USERNAME",
            &mut self.auth.bootstrap_admin_username,
        );
        override_text(variables, "UNDR9_ADMIN_API_KEY", &mut self.auth.admin_api_key);
        override_text(variables, "UNDR9_WRITER_API_KEY", &mut self.auth.writer_api_key);
        override_text(variables, "UNDR9_READER_API_KEY", &mut self.auth.reader_api_key);
        override_usize(
            variables,
            "UNDR9_MAINTENANCE_MAX_NODES",
            &mut self.maintenance.max_node_count,
        );
        override_usize(
            variables,
            "UNDR9_MAINTENANCE_MAX_EDGES",
            &mut self.maintenance.max_edge_count,
        );
        override_text(variables, "UNDR9_LOG_LEVEL", &mut self.observability.log_level);
        override_flag(
            variables,
            "UNDR9_METRICS_ENABLED",
            &mut self.observability.metrics_enabled,
        );
        override_flag(
            variables,
            "UNDR9_TRACING_ENABLED",
            &mut self.observability.tracing_enabled,
        );
        override_flag(variables, "UNDR9_TRACING_JSON", &mut self.observability.tracing_json);
        override_flag(variables, "UNDR9_OTLP_ENABLED", &mut self.observability.otlp_enabled);
        override_text(variables, "UNDR9_OTLP_PROTOCOL", &mut self.observability.otlp_protocol);
        override_text(variables, "UNDR9_OTLP_ENDPOINT", &mut self.observability.otlp_endpoint);
        override_text(variables, "UNDR9_OTLP_HEADERS", &mut self.observability.otlp_headers);
        override_u64(variables, "UNDR9_OTLP_TIMEOUT_MS", &mut self.observability.otlp_timeout_ms);
        override_usize(
            variables,
            "UNDR9_AUDIT_LOG_RETENTION_ENTRIES",
            &mut self.observability.audit_log_retention_entries,
        );
        override_usize(
            variables,
            "UNDR9_AUDIT_LOG_EXPORT_LIMIT",
            &mut self.observability.audit_log_export_limit,
        );
        override_backend(
            variables,
            "UNDR9_VECTOR_INDEX_BACKEND",
            &mut self.vector_index.backend,
        );
        override_usize(
            variables,
            "UNDR9_VECTOR_INDEX_SEMANTIC_TOP_K",
            &mut self.vector_index.semantic_top_k,
        );
        override_usize(variables, "UNDR9_HNSW_EF_SEARCH", &mut self.vector_index.hnsw_ef_search);
    }
}

/// An environment without variables changes nothing.
pub proof fn law_no_variables_change_nothing(config: ConfigModel)
    ensures
        config.overridden(Map::empty()) == config,
{
}

/// Heeding the same variables twice is heeding them once.
pub proof fn law_overriding_twice(config: ConfigModel, variables: Map<Seq<char>, Seq<char>>)
    ensures
        config.overridden(variables).overridden(variables) == config.overridden(variables),
{
}

// ---------------------------------------------------------------------------------------------
// Validity
// ---------------------------------------------------------------------------------------------

/// The length of a text in bytes.
pub open spec fn byte_length(s: Seq<char>) -> nat {
    encode_utf8(s).len()
}

/// The length of a text in bytes, without the white space around it.
fn trimmed_byte_length(value: &str) -> (r: usize)
    ensures
        r == byte_length(text::trimmed(value@)),
{
    let trimmed: String = text::trim(value);
    let t: &str = trimmed.as_str();
    let bytes: &[u8] = t.as_bytes();
    bytes.len()
}

/// Whether an API key, without the white space around it, is too short.
pub open spec fn key_is_short(key: Seq<char>) -> bool {
    byte_length(text::trimmed(key)) < MIN_API_KEY_LENGTH
}

/// Whether a word, in lower case, names a protocol.
pub open spec fn names_protocol(word: Seq<char>) -> bool {
    word == "grpc"@ || word == "http"@ || word == "http/protobuf"@ || word == "http_binary"@
        || word == "http-binary"@
}

/// What is wrong with a configuration, if anything is.
pub open spec fn config_error(config: ConfigModel) -> Option<ErrorModel> {
    let protocol = text::lowercased(text::trimmed(config.observability.otlp_protocol));
    if text::is_blank(config.server.bind_address) {
        Some(ErrorModel::Validation("server.bind_address cannot be empty"@))
    } else if config.server.request_timeout_ms == 0 {
        Some(ErrorModel::Validation("server.request_timeout_ms must be greater than zero"@))
    } else if config.server.max_request_body_bytes == 0 {
        Some(ErrorModel::Validation("server.max_request_body_bytes must be greater than zero"@))
    } else if text::is_blank(config.storage.storage_version) {
        Some(ErrorModel::Validation("storage.storage_version cannot be empty"@))
    } else if config.wal.segment_size_bytes < 4096 {
        Some(ErrorModel::Validation("wal.segment_size_bytes must be at least 4096"@))
    } else if config.wal.max_replay_bytes < config.wal.segment_size_bytes {
        Some(
            ErrorModel::Validation(
                "wal.max_replay_bytes must be greater than or equal to wal.segment_size_bytes"@,
            ),
        )
    } else if config.auth.enabled && text::is_blank(config.auth.bootstrap_admin_username) {
        Some(
            ErrorModel::Validation(
                "auth.bootstrap_admin_username cannot be empty when auth is enabled"@,
            ),
        )
    } else if config.auth.enabled && text::is_blank(config.auth.admin_api_key) {
        Some(
            ErrorModel::Validation("auth.admin_api_key cannot be empty when auth is enabled"@),
        )
    } else if config.auth.enabled && text::is_blank(config.auth.writer_api_key) {
        Some(
            ErrorModel::Validation("auth.writer_api_key cannot be empty when auth is enabled"@),
        )
    } else if config.auth.enabled && text::is_blank(config.auth.reader_api_key) {
        Some(
            ErrorModel::Validation("auth.reader_api_key cannot be empty when auth is enabled"@),
        )
    } else if config.auth.enabled && (key_is_short(config.auth.admin_api_key) || key_is_short(
        config.auth.writer_api_key,
    ) || key_is_short(config.auth.reader_api_key)) {
        Some(
            ErrorModel::Validation(
                "auth API keys must each be at least 16 characters when auth is enabled"@,
            ),
        )
    } else if config.auth.enabled && (config.auth.admin_api_key == config.auth.writer_api_key
        || config.auth.admin_api_key == config.auth.reader_api_key || config.auth.writer_api_key
        == config.auth.reader_api_key) {
        Some(
            ErrorModel::Validation("auth admin, writer, and reader API keys must be distinct"@),
        )
    } else if config.auth.admin_api_key == "undr9-dev-admin-key"@ || config.auth.writer_api_key
        == "undr9-dev-writer-key"@ || config.auth.reader_api_key == "undr9-dev-reader-key"@ {
        Some(
            ErrorModel::Validation(
                "legacy development API keys are forbidden in runtime configuration"@,
            ),
        )
    } else if config.maintenance.max_node_count == 0 {
        Some(ErrorModel::Validation("maintenance.max_node_count must be greater than zero"@))
    } else if config.maintenance.max_edge_count == 0 {
        Some(ErrorModel::Validation("maintenance.max_edge_count must be greater than zero"@))
    } else if text::is_blank(config.observability.log_level) {
        Some(ErrorModel::Validation("observability.log_level cannot be empty"@))
    } else if protocol.len() > 0 && !names_protocol(protocol) {
        Some(
            ErrorModel::Validation(
                "observability.otlp_protocol must be one of grpc, http, or http/protobuf"@,
            ),
        )
    } else if config.observability.otlp_timeout_ms == 0 {
        Some(ErrorModel::Validation("observability.otlp_timeout_ms must be greater than zero"@))
    } else if config.observability.otlp_enabled && text::is_blank(
        config.observability.otlp_endpoint,
    ) {
        Some(
            ErrorModel::Validation(
                "observability.otlp_endpoint cannot be empty when otlp export is enabled"@,
            ),
        )
    } else if config.observability.audit_log_retention_entries == 0 {
        Some(
            ErrorModel::Validation(
                "observability.audit_log_retention_entries must be greater than zero"@,
            ),
        )
    } else if config.observability.audit_log_export_limit == 0 {
        Some(
            ErrorModel::Validation(
                "observability.audit_log_export_limit must be greater than zero"@,
            ),
        )
    } else {
        None
    }
}

/// A complaint about a value.
fn invalid(message: &str) -> (r: Result<()>)
    ensures
        r matches Err(e) && e@ == ErrorModel::Validation(message@),
{
    Err(Undr9Error::Validation(message.to_owned()))
}

impl AppConfig {
    /// Accepts a configuration that is in order.
    #[verifier::rlimit(30)]
    pub fn validate(&self) -> (r: Result<()>)
        ensures
            r is Ok <==> config_error(self@) is None,
            r matches Err(e) ==> config_error(self@) == Some(e@),
    {
        if text::blank(self.server.bind_address.as_str()) {
            return invalid("server.bind_address cannot be empty");
        }
        if self.server.request_timeout_ms == 0 {
            return invalid("server.request_timeout_ms must be greater than zero");
        }
        if self.server.max_request_body_bytes == 0 {
            return invalid("server.max_request_body_bytes must be greater than zero");
        }
        if text::blank(self.storage.storage_version.as_str()) {
            return invalid("storage.storage_version cannot be empty");
        }
        if self.wal.segment_size_bytes < 4096 {
            return invalid("wal.segment_size_bytes must be at least 4096");
        }
        if self.wal.max_replay_bytes < self.wal.segment_size_bytes {
            return invalid(
                "wal.max_replay_bytes must be greater than or equal to wal.segment_size_bytes",
            );
        }
        let admin: &str = self.auth.admin_api_key.as_str();
        let writer: &str = self.auth.writer_api_key.as_str();
        let reader: &str = self.auth.reader_api_key.as_str();
        if self.auth.enabled {
            if text::blank(self.auth.bootstrap_admin_username.as_str()) {
                return invalid(
                    "auth.bootstrap_admin_username cannot be empty when auth is enabled",
                );
            }
            if text::blank(admin) {
                return invalid("auth.admin_api_key cannot be empty when auth is enabled");
            }
            if text::blank(writer) {
                return invalid("auth.writer_api_key cannot be empty when auth is enabled");
            }
            if text::blank(reader) {
                return invalid("auth.reader_api_key cannot be empty when auth is enabled");
            }
            if trimmed_byte_length(admin) < MIN_API_KEY_LENGTH || trimmed_byte_length(writer)
                < MIN_API_KEY_LENGTH || trimmed_byte_length(reader) < MIN_API_KEY_LENGTH {
                return invalid(
                    "auth API keys must each be at least 16 characters when auth is enabled",
                );
            }
            if text::same_text(admin, writer) || text::same_text(admin, reader) || text::same_text(
                writer,
                reader,
            ) {
                return invalid("auth admin, writer, and reader API keys must be distinct");
            }
        }
        if text::same_text(admin, "undr9-dev-admin-key") || text::same_text(
            writer,
            "undr9-dev-writer-key",
        ) || text::same_text(reader, "undr9-dev-reader-key") {
            return invalid("legacy development API keys are forbidden in runtime configuration");
        }
        if self.maintenance.max_node_count == 0 {
            return invalid("maintenance.max_node_count must be greater than zero");
        }
        if self.maintenance.max_edge_count == 0 {
            return invalid("maintenance.max_edge_count must be greater than zero");
        }
        if text::blank(self.observability.log_level.as_str()) {
            return invalid("observability.log_level cannot be empty");
        }
        let word: String = word_of(&self.observability.otlp_protocol);
        let protocol: &str = word.as_str();
        proof {
            reveal_strlit("");
            if protocol@.len() == 0 {
                assert(protocol@ =~= ""@);
            }
        }
        if !text::same_text(protocol, "") && !(text::same_text(protocol, "grpc") || text::same_text(
            protocol,
            "http",
        ) || text::same_text(protocol, "http/protobuf") || text::same_text(protocol, "http_binary")
            || text::same_text(protocol, "http-binary")) {
            return invalid(
                "observability.otlp_protocol must be one of grpc, http, or http/protobuf",
            );
        }
        if self.observability.otlp_timeout_ms == 0 {
            return invalid("observability.otlp_timeout_ms must be greater than zero");
        }
        if self.observability.otlp_enabled && text::blank(
            self.observability.otlp_endpoint.as_str(),
        ) {
            return invalid(
                "observability.otlp_endpoint cannot be empty when otlp export is enabled",
            );
        }
        if self.observability.audit_log_retention_entries == 0 {
            return invalid("observability.audit_log_retention_entries must be greater than zero");
        }
        if self.observability.audit_log_export_limit == 0 {
            return invalid("observability.audit_log_export_limit must be greater than zero");
        }
        Ok(())
    }
}

proof fn lemma_bytes_of_chars(s: Seq<char>)
    ensures
        encode_utf8(s).len() >= s.len(),
    decreases s.len(),
{
    if s.len() > 0 {
        lemma_bytes_of_chars(s.drop_first());
    }
}

proof fn lemma_hexadecimal(n: nat, width: nat)
    ensures
        text::hexadecimal(n, width).len() >= 1,
        text::hexadecimal(n, width).len() >= width,
        !text::is_white_space(text::hexadecimal(n, width).last()),
    decreases n, width,
{
    if !(n < 16 && width <= 1) {
        lemma_hexadecimal(
            n / 16,
            if width == 0 {
                0
            } else {
                (width - 1) as nat
            },
        );
    }
}

/// A text whose first and last characters are visible is its own trimmed text.
proof fn lemma_trimmed_is_itself(s: Seq<char>)
    requires
        s.len() > 0,
        !text::is_white_space(s[0]),
        !text::is_white_space(s.last()),
    ensures
        text::trimmed(s) == s,
        !text::is_blank(s),
{
}

proof fn lemma_bootstrap_key(role: Seq<char>, process_id: u32, nanos: u128)
    requires
        role.len() > 0,
    ensures
        ({
            let key = bootstrap_key(role, process_id, nanos);
            &&& key.len() >= 32
            &&& key[6] == role[0]
            &&& text::trimmed(key) == key
            &&& !text::is_blank(key)
            &&& !key_is_short(key)
        }),
{
    let key = bootstrap_key(role, process_id, nanos);
    reveal_strlit("undr9-");
    reveal_strlit("-");
    lemma_hexadecimal(process_id as nat, 8);
    lemma_hexadecimal(nanos as nat, 32);
    let moment = text::hexadecimal(nanos as nat, 32);
    assert(key.last() == moment.last());
    assert(key[0] == 'u');
    lemma_trimmed_is_itself(key);
    lemma_bytes_of_chars(key);
}

/// The configuration where nothing is set is in order.
pub proof fn law_default_config_is_valid(
    process_id: u32,
    admin_nanos: u128,
    writer_nanos: u128,
    reader_nanos: u128,
)
    ensures
        config_error(default_config(process_id, admin_nanos, writer_nanos, reader_nanos)) is None,
{
    let config = default_config(process_id, admin_nanos, writer_nanos, reader_nanos);
    reveal_strlit("admin");
    reveal_strlit("writer");
    reveal_strlit("reader");
    lemma_bootstrap_key("admin"@, process_id, admin_nanos);
    lemma_bootstrap_key("writer"@, process_id, writer_nanos);
    lemma_bootstrap_key("reader"@, process_id, reader_nanos);
    reveal_strlit("127.0.0.1:8080");
    lemma_trimmed_is_itself("127.0.0.1:8080"@);
    reveal_strlit("1");
    lemma_trimmed_is_itself("1"@);
    lemma_trimmed_is_itself("admin"@);
    reveal_strlit("info");
    lemma_trimmed_is_itself("info"@);
    reveal_strlit("grpc");
    lemma_trimmed_is_itself("grpc"@);
    assert(text::lowercased("grpc"@) =~= "grpc"@);
    reveal_strlit("undr9-dev-admin-key");
    reveal_strlit("undr9-dev-writer-key");
    reveal_strlit("undr9-dev-reader-key");
    assert(config.auth.admin_api_key[6] == 'a');
    assert(config.auth.writer_api_key[6] == 'w');
    assert(config.auth.reader_api_key[6] == 'r');
    assert("undr9-dev-admin-key"@[6] == 'd');
    assert("undr9-dev-writer-key"@[6] == 'd');
    assert("undr9-dev-reader-key"@[6] == 'd');
}

} // verus!
