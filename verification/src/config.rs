use vstd::prelude::*;

verus! {

/// Upstream relay pool settings.
pub struct RelayConfig {
    pub bootstrap_relays: Vec<String>,
    pub max_connections: usize,
    pub health_check_interval: u64,
}

/// Sizing of the deduplication layers and the store's location.
pub struct DeduplicationConfig {
    pub hotset_size: usize,
    pub bloom_capacity: usize,
    pub lru_size: usize,
    pub rocksdb_path: String,
}

/// Egress settings: transports, batch size, and the latency bound.
pub struct OutputConfig {
    pub websocket_enabled: bool,
    pub websocket_port: u16,
    pub downstream_tcp: Vec<String>,
    pub downstream_rest: Vec<String>,
    pub batch_size: usize,
    pub max_latency_ms: u64,
}

/// The kind allowlist.
pub struct FilterConfig {
    pub allowed_kinds: Vec<u16>,
}

/// Observability settings.
pub struct MonitoringConfig {
    pub prometheus_port: u16,
    pub log_level: String,
}

/// The optional subscription database.
pub struct PostgresConfig {
    pub dsn: String,
    pub max_connections: usize,
}

/// The whole configuration.
pub struct AppConfig {
    pub relay: RelayConfig,
    pub deduplication: DeduplicationConfig,
    pub output: OutputConfig,
    pub filters: FilterConfig,
    pub postgres: Option<PostgresConfig>,
    pub monitoring: MonitoringConfig,
}

/// The default allowlist of event kinds.
pub fn default_allowed_kinds() -> (r: Vec<u16>)
    ensures
        r@ == seq![30931u16, 30932u16, 30933u16, 30934u16],
{
    let mut v: Vec<u16> = Vec::new();
    v.push(30931);
    v.push(30932);
    v.push(30933);
    v.push(30934);
    proof {
        assert(v@ =~= seq![30931u16, 30932u16, 30933u16, 30934u16]);
    }
    v
}

/// The default size of the subscription database pool.
pub fn default_pg_pool_size() -> (r: usize)
    ensures
        r == 5,
{
    5
}

} // verus!
