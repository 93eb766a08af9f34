//! The per-invocation configuration: the output file, the provider, and the
//! operator's override table, with the validation that runs before any
//! remote interaction.

use vstd::prelude::*;

use crate::chars::{is_blank, str_eq, trim_seq};

verus! {

/// Where the materialized file goes and whether a missing one is an error.
#[derive(Debug, Clone)]
pub struct OutputConfig {
    pub env_file: String,
    pub create_if_missing: bool,
}

/// Which secret store to pull from.
#[derive(Debug, Clone)]
pub struct ProviderConfig {
    pub kind: String,
    pub vault_url: String,
}

/// One invocation's configuration. `map` is the override table: pairs of
/// (target variable name, secret name), read-only for the whole run.
#[derive(Debug, Clone)]
pub struct Config {
    pub version: u32,
    pub output: OutputConfig,
    pub provider: ProviderConfig,
    pub map: Vec<(String, String)>,
}

/// The default name of the materialized file.
pub fn default_env_file() -> (r: String)
    ensures
        r@ == default_env_file_text(),
{
    proof {
        reveal_strlit(".env");
    }
    String::from_str(".env")
}

pub open spec fn default_env_file_text() -> Seq<char> {
    seq!['.', 'e', 'n', 'v']
}

/// By default a missing target file starts an empty document.
pub fn default_create_if_missing() -> (r: bool)
    ensures
        r,
{
    true
}

impl Default for OutputConfig {
    /// The default output: `.env` beside the configuration, created when
    /// missing.
    fn default() -> (r: OutputConfig)
        ensures
            r.env_file@ == default_env_file_text(),
            r.create_if_missing,
    {
        OutputConfig { env_file: default_env_file(), create_if_missing: default_create_if_missing() }
    }
}

/// The one supported provider kind.
pub open spec fn azure_kind_text() -> Seq<char> {
    seq!['a', 'z', 'u', 'r', 'e', '_', 'k', 'e', 'y', '_', 'v', 'a', 'u', 'l', 't']
}

/// A configuration the pipeline refuses, named for diagnosis.
#[derive(Debug, Clone, PartialEq, Eq)]
pub enum ConfigError {
    UnsupportedVersion { version: u32 },
    UnsupportedProviderKind { kind: String },
    EmptyVaultUrl,
    EmptyEnvFile,
    EmptyMapEntry,
}

/// Whether every override entry is non-blank on both sides.
pub open spec fn map_entries_ok(map: Seq<(String, String)>) -> bool {
    forall|i: int| 0 <= i < map.len() ==> trim_seq((#[trigger] map[i]).0@).len() > 0 && trim_seq(
        map[i].1@,
    ).len() > 0
}

/// Everything `validate` accepts.
pub open spec fn config_ok(cfg: Config) -> bool {
    &&& cfg.version == 1
    &&& cfg.provider.kind@ == azure_kind_text()
    &&& trim_seq(cfg.provider.vault_url@).len() > 0
    &&& trim_seq(cfg.output.env_file@).len() > 0
    &&& map_entries_ok(cfg.map@)
}

/// Checks a configuration before any remote interaction: the version must
/// be 1, the provider kind supported, the vault URL and output path
/// non-blank, and every override entry non-blank on both sides. The error
/// names the first check that failed, in that order.
pub fn validate(cfg: &Config) -> (r: Result<(), ConfigError>)
    ensures
        r is Ok <==> config_ok(*cfg),
        match r {
            Ok(_) => true,
            Err(e) => match e {
                ConfigError::UnsupportedVersion { version } => version == cfg.version
                    && cfg.version != 1,
                ConfigError::UnsupportedProviderKind { kind } => cfg.version == 1 && kind@
                    == cfg.provider.kind@ && cfg.provider.kind@ != azure_kind_text(),
                ConfigError::EmptyVaultUrl => cfg.version == 1 && cfg.provider.kind@
                    == azure_kind_text() && trim_seq(cfg.provider.vault_url@).len() == 0,
                ConfigError::EmptyEnvFile => cfg.version == 1 && cfg.provider.kind@
                    == azure_kind_text() && trim_seq(cfg.provider.vault_url@).len() > 0
                    && trim_seq(cfg.output.env_file@).len() == 0,
                ConfigError::EmptyMapEntry => cfg.version == 1 && cfg.provider.kind@
                    == azure_kind_text() && trim_seq(cfg.provider.vault_url@).len() > 0
                    && trim_seq(cfg.output.env_file@).len() > 0 && !map_entries_ok(cfg.map@),
            },
        },
{
    if cfg.version != 1 {
        return Err(ConfigError::UnsupportedVersion { version: cfg.version });
    }
    proof {
        reveal_strlit("azure_key_vault");
        assert("azure_key_vault"@ =~= azure_kind_text());
    }
    if !str_eq(cfg.provider.kind.as_str(), "azure_key_vault") {
        return Err(ConfigError::UnsupportedProviderKind { kind: cfg.provider.kind.clone() });
    }
    if is_blank(cfg.provider.vault_url.as_str()) {
        return Err(ConfigError::EmptyVaultUrl);
    }
    if is_blank(cfg.output.env_file.as_str()) {
        return Err(ConfigError::EmptyEnvFile);
    }
    let n = cfg.map.len();
    let mut i: usize = 0;
    while i < n
        invariant
            0 <= i <= n == cfg.map@.len(),
            cfg.version == 1,
            cfg.provider.kind@ == azure_kind_text(),
            trim_seq(cfg.provider.vault_url@).len() > 0,
            trim_seq(cfg.output.env_file@).len() > 0,
            forall|j: int| 0 <= j < i ==> trim_seq((#[trigger] cfg.map@[j]).0@).len() > 0
                && trim_seq(cfg.map@[j].1@).len() > 0,
        decreases n - i,
    {
        if is_blank(cfg.map[i].0.as_str()) || is_blank(cfg.map[i].1.as_str()) {
            proof {
                assert(!(trim_seq((cfg.map@[i as int]).0@).len() > 0 && trim_seq(
                    cfg.map@[i as int].1@,
                ).len() > 0));
            }
            return Err(ConfigError::EmptyMapEntry);
        }
        i = i + 1;
    }
    Ok(())
}

/// Index of the last `/` in `s`, or -1 when there is none.
pub open spec fn last_slash(s: Seq<char>) -> int
    decreases s.len(),
{
    if s.len() == 0 {
        -1
    } else if s.last() == '/' {
        s.len() - 1
    } else {
        last_slash(s.drop_last())
    }
}

/// Where the materialized file goes: the configured path itself when it is
/// absolute (opens with `/`), otherwise the configured path resolved
/// against the configuration file's own directory.
pub open spec fn resolved_path(config_path: Seq<char>, env_file: Seq<char>) -> Seq<char> {
    if env_file.len() > 0 && env_file[0] == '/' {
        env_file
    } else if last_slash(config_path) >= 0 {
        config_path.subrange(0, last_slash(config_path) + 1) + env_file
    } else {
        env_file
    }
}

pub proof fn lemma_last_slash(s: Seq<char>)
    ensures
        last_slash(s) >= 0 ==> last_slash(s) < s.len() && s[last_slash(s)] == '/'
            && forall|j: int| last_slash(s) < j < s.len() ==> s[j] != '/',
        last_slash(s) < 0 ==> forall|j: int| 0 <= j < s.len() ==> s[j] != '/',
    decreases s.len(),
{
    if s.len() == 0 {
    } else if s.last() == '/' {
        assert(s[s.len() - 1] == '/');
    } else {
        let t = s.drop_last();
        assert(forall|j: int| 0 <= j < t.len() ==> #[trigger] t[j] == s[j]);
        lemma_last_slash(t);
        assert(s[s.len() - 1] != '/');
        if last_slash(s) >= 0 {
            assert(s[last_slash(s)] == t[last_slash(t)]);
            assert forall|j: int| last_slash(s) < j < s.len() implies s[j] != '/' by {
                if j < s.len() - 1 {
                    assert(t[j] == s[j]);
                }
            }
        } else {
            assert forall|j: int| 0 <= j < s.len() implies s[j] != '/' by {
                if j < s.len() - 1 {
                    assert(t[j] == s[j]);
                }
            }
        }
    }
}

/// The path of the materialized file for this run.
pub fn resolve_env_path(config_path: &str, cfg: &Config) -> (r: String)
    ensures
        r@ == resolved_path(config_path@, cfg.output.env_file@),
{
    let ef = &cfg.output.env_file;
    let efn: usize = ef.as_str().unicode_len();
    if efn > 0 && ef.as_str().get_char(0) == '/' {
        return ef.clone();
    }
    let n: usize = config_path.unicode_len();
    let mut b: usize = n;
    while b > 0 && config_path.get_char(b - 1) != '/'
        invariant
            0 <= b <= n == config_path@.len(),
            forall|j: int| b <= j < n ==> config_path@[j] != '/',
        decreases b,
    {
        b = b - 1;
    }
    proof {
        lemma_last_slash(config_path@);
        if b == 0 {
            if last_slash(config_path@) >= 0 {
                assert(false);
            }
        } else {
            assert(config_path@[b - 1] == '/');
            if last_slash(config_path@) != b - 1 {
                assert(false);
            }
        }
    }
    if b == 0 {
        return ef.clone();
    }
    let mut out = config_path.substring_char(0, b).to_owned();
    out.append(ef.as_str());
    out
}

} // verus!
