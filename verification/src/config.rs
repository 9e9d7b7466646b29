//! The proxy's configuration, its defaults, and the choice of where it is
//! read from.
use vstd::prelude::*;

verus! {

#[derive(Debug, Clone)]
pub struct ServerConfig {
    pub bind_addr: String,
    pub request_timeout_secs: u64,
    pub max_connections: usize,
}

#[derive(Debug, Clone)]
pub struct BackendConfig {
    pub name: String,
    pub url: String,
    pub weight: u32,
    pub max_retries: u32,
}

#[derive(Debug, Clone)]
pub struct LoadBalancerConfig {
    pub algorithm: String,
    pub sticky_sessions: bool,
}

#[derive(Debug, Clone)]
pub struct HealthCheckConfig {
    pub enabled: bool,
    pub interval_secs: u64,
    pub timeout_secs: u64,
    pub healthy_threshold: u32,
    pub unhealthy_threshold: u32,
}

#[derive(Debug, Clone)]
pub struct RateLimitConfig {
    pub enabled: bool,
    pub max_requests: u64,
    pub window_secs: u64,
}

/// Header handling. `add_request_headers` holds the configured name/value
/// pairs of the `[proxy.add_request_headers]` table, a table keyed by name:
/// no name occurs twice (`wf`).
#[derive(Debug, Clone)]
pub struct ProxyConfig {
    pub add_x_forwarded_for: bool,
    pub add_x_real_ip: bool,
    pub add_via_header: bool,
    pub via_value: String,
    pub strip_request_headers: Vec<String>,
    pub add_request_headers: Vec<(String, String)>,
    pub websocket_enabled: bool,
}

impl ProxyConfig {
    /// The added headers are a table keyed by name: no name occurs twice.
    pub open spec fn wf(&self) -> bool {
        forall|i: int, j: int|
            0 <= i < j < self.add_request_headers@.len() ==> (#[trigger] self.add_request_headers@[i]).0@
                != (#[trigger] self.add_request_headers@[j]).0@
    }
}

#[derive(Debug, Clone)]
pub struct AppConfig {
    pub server: ServerConfig,
    pub backends: Vec<BackendConfig>,
    pub load_balancer: LoadBalancerConfig,
    pub health_check: HealthCheckConfig,
    pub rate_limit: RateLimitConfig,
    pub proxy: ProxyConfig,
}

pub fn default_bind_addr() -> (r: String)
    ensures
        r@ == "0.0.0.0:8080"@,
{
    "0.0.0.0:8080".to_owned()
}

pub fn default_request_timeout_secs() -> (r: u64)
    ensures
        r == 30,
{
    30
}

pub fn default_max_connections() -> (r: usize)
    ensures
        r == 1024,
{
    1024
}

pub fn default_weight() -> (r: u32)
    ensures
        r == 1,
{
    1
}

pub fn default_max_retries() -> (r: u32)
    ensures
        r == 3,
{
    3
}

pub fn default_algorithm() -> (r: String)
    ensures
        r@ == "round_robin"@,
{
    "round_robin".to_owned()
}

pub fn default_sticky_sessions() -> (r: bool)
    ensures
        r == false,
{
    false
}

pub fn default_true() -> (r: bool)
    ensures
        r == true,
{
    true
}

pub fn default_interval_secs() -> (r: u64)
    ensures
        r == 10,
{
    10
}

pub fn default_timeout_secs() -> (r: u64)
    ensures
        r == 5,
{
    5
}

pub fn default_healthy_threshold() -> (r: u32)
    ensures
        r == 2,
{
    2
}

pub fn default_unhealthy_threshold() -> (r: u32)
    ensures
        r == 3,
{
    3
}

pub fn default_rate_limit_requests() -> (r: u64)
    ensures
        r == 1000,
{
    1000
}

pub fn default_rate_limit_window_secs() -> (r: u64)
    ensures
        r == 60,
{
    60
}

pub fn default_x_forwarded_for() -> (r: bool)
    ensures
        r == true,
{
    true
}

pub fn default_x_real_ip() -> (r: bool)
    ensures
        r == true,
{
    true
}

pub fn default_via_header() -> (r: bool)
    ensures
        r == true,
{
    true
}

pub fn default_via_value() -> (r: String)
    ensures
        r@ == "axum-proxy"@,
{
    "axum-proxy".to_owned()
}

pub fn default_strip_headers() -> (r: Vec<String>)
    ensures
        r@.len() == 1,
        r@[0]@ == "proxy-connection"@,
{
    let mut v: Vec<String> = Vec::new();
    v.push("proxy-connection".to_owned());
    v
}

pub fn default_websocket() -> (r: bool)
    ensures
        r == true,
{
    true
}

impl Default for HealthCheckConfig {
    /// Every flag off and every number zero: health checks are disabled.
    fn default() -> (r: Self)
        ensures
            r.enabled == false,
            r.interval_secs == 0,
            r.timeout_secs == 0,
            r.healthy_threshold == 0,
            r.unhealthy_threshold == 0,
    {
        HealthCheckConfig {
            enabled: false,
            interval_secs: 0,
            timeout_secs: 0,
            healthy_threshold: 0,
            unhealthy_threshold: 0,
        }
    }
}

impl Default for AppConfig {
    /// One backend, `backend-1` at `http://127.0.0.1:3000`, round robin,
    /// health checks off, rate limiting on (1000 requests per 60 s), and the
    /// default header handling.
    fn default() -> (r: Self)
        ensures
            r.server.bind_addr@ == "0.0.0.0:8080"@,
            r.server.request_timeout_secs == 30,
            r.server.max_connections == 1024,
            r.backends@.len() == 1,
            r.backends@[0].name@ == "backend-1"@,
            r.backends@[0].url@ == "http://127.0.0.1:3000"@,
            r.backends@[0].weight == 1,
            r.backends@[0].max_retries == 3,
            r.load_balancer.algorithm@ == "round_robin"@,
            r.load_balancer.sticky_sessions == false,
            r.health_check.enabled == false,
            r.health_check.interval_secs == 0,
            r.health_check.timeout_secs == 0,
            r.health_check.healthy_threshold == 0,
            r.health_check.unhealthy_threshold == 0,
            r.rate_limit.enabled == true,
            r.rate_limit.max_requests == 1000,
            r.rate_limit.window_secs == 60,
            r.proxy.add_x_forwarded_for == true,
            r.proxy.add_x_real_ip == true,
            r.proxy.add_via_header == true,
            r.proxy.via_value@ == "axum-proxy"@,
            r.proxy.strip_request_headers@.len() == 1,
            r.proxy.strip_request_headers@[0]@ == "proxy-connection"@,
            r.proxy.add_request_headers@.len() == 0,
            r.proxy.websocket_enabled == true,
            r.proxy.wf(),
    {
        let mut backends: Vec<BackendConfig> = Vec::new();
        backends.push(
            BackendConfig {
                name: "backend-1".to_owned(),
                url: "http://127.0.0.1:3000".to_owned(),
                weight: default_weight(),
                max_retries: default_max_retries(),
            },
        );
        AppConfig {
            server: ServerConfig {
                bind_addr: default_bind_addr(),
                request_timeout_secs: default_request_timeout_secs(),
                max_connections: default_max_connections(),
            },
            backends,
            load_balancer: LoadBalancerConfig {
                algorithm: default_algorithm(),
                sticky_sessions: default_sticky_sessions(),
            },
            health_check: HealthCheckConfig::default(),
            rate_limit: RateLimitConfig {
                enabled: default_true(),
                max_requests: default_rate_limit_requests(),
                window_secs: default_rate_limit_window_secs(),
            },
            proxy: ProxyConfig {
                add_x_forwarded_for: default_x_forwarded_for(),
                add_x_real_ip: default_x_real_ip(),
                add_via_header: default_via_header(),
                via_value: default_via_value(),
                strip_request_headers: default_strip_headers(),
                add_request_headers: Vec::new(),
                websocket_enabled: default_websocket(),
            },
        }
    }
}

/// Where the configuration is read from.
#[derive(Debug, PartialEq, Eq)]
pub enum ConfigSource {
    /// A TOML file at this path.
    TomlFile(String),
    /// This JSON text.
    Json(String),
    /// No source: the built-in defaults.
    Defaults,
}

/// The files looked for, in order, when no path is given.
pub open spec fn candidate_files() -> Seq<Seq<char>> {
    seq!["config.toml"@, "proxy.toml"@]
}

/// Index of the first `true` in `exists` (its length when there is none).
pub open spec fn first_present(exists: Seq<bool>) -> int
    decreases exists.len(),
{
    if exists.len() == 0 {
        0
    } else if exists[0] {
        0
    } else {
        1 + first_present(exists.drop_first())
    }
}

/// The source that `AppConfig::load` reads, given the `PROXY_CONFIG`
/// variable, which candidate files exist, and the `PROXY_CONFIG_JSON`
/// variable: the named file first, then the first candidate that exists,
/// then the JSON text, then the defaults.
pub open spec fn source_for(path_var: Option<Seq<char>>, exists: Seq<bool>, json_var: Option<Seq<char>>) -> Option<(bool, Seq<char>)> {
    if path_var is Some {
        Some((true, path_var.unwrap()))
    } else if first_present(exists) < exists.len() {
        Some((true, candidate_files()[first_present(exists)]))
    } else if json_var is Some {
        Some((false, json_var.unwrap()))
    } else {
        None
    }
}

/// The view of a source: `Some((true, path))` for a TOML file,
/// `Some((false, text))` for JSON text, `None` for the defaults.
pub open spec fn source_view(s: ConfigSource) -> Option<(bool, Seq<char>)> {
    match s {
        ConfigSource::TomlFile(p) => Some((true, p@)),
        ConfigSource::Json(j) => Some((false, j@)),
        ConfigSource::Defaults => None,
    }
}

proof fn lemma_first_present(exists: Seq<bool>, i: int)
    requires
        0 <= i <= exists.len(),
        forall|j: int| 0 <= j < i ==> !#[trigger] exists[j],
        i == exists.len() || exists[i],
    ensures
        first_present(exists) == i,
    decreases i,
{
    if i > 0 {
        assert forall|j: int| 0 <= j < i - 1 implies !#[trigger] exists.drop_first()[j] by {
            assert(exists.drop_first()[j] == exists[j + 1]);
        }
        if i < exists.len() {
            assert(exists.drop_first()[i - 1] == exists[i]);
        }
        lemma_first_present(exists.drop_first(), i - 1);
    }
}

impl AppConfig {
    /// The candidate files, in the order in which they are looked for.
    pub fn candidate_files() -> (r: Vec<String>)
        ensures
            r@.len() == 2,
            forall|i: int| 0 <= i < 2 ==> #[trigger] r@[i]@ == candidate_files()[i],
    {
        let mut v: Vec<String> = Vec::new();
        v.push("config.toml".to_owned());
        v.push("proxy.toml".to_owned());
        v
    }

    /// The decision that `load` makes: which source to read.
    pub fn choose_source(path_var: Option<String>, exists: &Vec<bool>, json_var: Option<String>) -> (r: ConfigSource)
        requires
            exists@.len() == 2,
        ensures
            source_view(r) == source_for(
                match path_var { Some(p) => Some(p@), None => None },
                exists@,
                match json_var { Some(j) => Some(j@), None => None },
            ),
    {
        if let Some(p) = path_var {
            return ConfigSource::TomlFile(p);
        }
        let names = AppConfig::candidate_files();
        let mut i: usize = 0;
        while i < 2
            invariant
                exists@.len() == 2,
                i <= 2,
                path_var is None,
                names@.len() == 2,
                forall|k: int| 0 <= k < 2 ==> #[trigger] names@[k]@ == candidate_files()[k],
                forall|j: int| 0 <= j < i ==> !#[trigger] exists@[j],
            decreases 2 - i,
        {
            if exists[i] {
                proof {
                    lemma_first_present(exists@, i as int);
                }
                let mut names = names;
                let chosen = names.swap_remove(i);
                return ConfigSource::TomlFile(chosen);
            }
            i = i + 1;
        }
        proof {
            lemma_first_present(exists@, 2);
        }
        match json_var {
            Some(j) => ConfigSource::Json(j),
            None => ConfigSource::Defaults,
        }
    }
}

} // verus!
