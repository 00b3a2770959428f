//! Application configuration
use vstd::prelude::*;
use vstd::string::*;

verus! {

/// Application configuration
#[derive(Debug)]
pub struct Config {
    /// Directory to store downloaded files
    pub download_dir: String,
    /// Maximum concurrent downloads
    pub max_concurrent_downloads: usize,
    /// Connection timeout in seconds
    pub connection_timeout: u64,
    /// Whether to use DHT for peer discovery
    pub use_dht: bool,
}

impl Config {
    /// The configuration where nothing is configured.
    pub open spec fn is_default(self) -> bool {
        &&& self.download_dir@ == "./downloads"@
        &&& self.max_concurrent_downloads == 3
        &&& self.connection_timeout == 30
        &&& self.use_dht
    }
}

impl Default for Config {
    fn default() -> (c: Self)
        ensures
            c.is_default(),
    {
        Config {
            download_dir: "./downloads".to_string(),
            max_concurrent_downloads: 3,
            connection_timeout: 30,
            use_dht: true,
        }
    }
}

/// Where nothing is configured, three downloads go on at once, into the
/// directory for downloads, peers have half a minute to answer, and the DHT is
/// used.
pub proof fn law_default_configuration(config: Config)
    requires
        config.is_default(),
    ensures
        config.download_dir@ == "./downloads"@,
        config.max_concurrent_downloads == 3,
        config.connection_timeout == 30,
        config.use_dht,
{
}

} // verus!
