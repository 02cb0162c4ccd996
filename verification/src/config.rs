//! Client configuration: plain values the surrounding program fills
//! from its configuration file.

use vstd::prelude::*;

verus! {

/// One known index provider.
#[derive(Debug, Clone)]
pub struct IndexProviderConfig {
    pub name: String,
    pub nym_address: String,
}

/// Parameters of the reserved peer-discovery layer.
#[derive(Debug, Clone)]
pub struct DhtConfig {
    pub bootstrap_nodes: Vec<String>,
    pub k: usize,
    pub alpha: usize,
}

/// Transfer tuning: how many chunk requests may be in flight, and how
/// long to wait for each.
#[derive(Debug, Clone)]
pub struct TransferConfig {
    pub max_concurrent_requests: usize,
    pub request_timeout_secs: u64,
}

/// The client's configuration.
#[derive(Debug, Clone)]
pub struct Config {
    pub data_dir: String,
    pub index_providers: Vec<IndexProviderConfig>,
    pub dht: DhtConfig,
    pub transfer: TransferConfig,
}

impl Default for Config {
    /// The defaults: a home data directory, one unnamed provider slot,
    /// twenty nodes per bucket with three-way lookups, fifty requests in
    /// flight and a thirty-second timeout.
    fn default() -> (r: Config)
        ensures
            r.data_dir@ == "~/.brisby"@,
            r.index_providers@.len() == 1,
            r.dht.k == 20,
            r.dht.alpha == 3,
            r.transfer.max_concurrent_requests == 50,
            r.transfer.request_timeout_secs == 30,
    {
        let mut providers: Vec<IndexProviderConfig> = Vec::new();
        providers.push(IndexProviderConfig {
            name: "default".to_owned(),
            nym_address: String::new(),
        });
        Config {
            data_dir: "~/.brisby".to_owned(),
            index_providers: providers,
            dht: DhtConfig { bootstrap_nodes: Vec::new(), k: 20, alpha: 3 },
            transfer: TransferConfig { max_concurrent_requests: 50, request_timeout_secs: 30 },
        }
    }
}

} // verus!
