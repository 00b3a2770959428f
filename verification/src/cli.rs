//! Command line
use crate::config::Config;
use vstd::prelude::*;
use vstd::string::*;

verus! {

/// Command line arguments
#[derive(Debug)]
pub struct Args {
    /// Magnet link to download
    pub magnet: String,
    /// Output directory for downloaded content
    pub output_dir: Option<String>,
    /// Configuration file path
    pub config: String,
    /// Verbose output
    pub verbose: bool,
}

/// CLI handler for the application
#[derive(Debug)]
pub struct Cli {
    pub args: Args,
    pub config: Config,
}

impl Cli {
    /// Initialize the CLI handler. Without a configuration the default one is
    /// used; the output directory of the command line comes before the one
    /// that is configured.
    pub fn new(args: Args, loaded: Option<Config>) -> (cli: Self)
        ensures
            cli.args == args,
            match args.output_dir {
                Some(dir) => cli.config.download_dir@ == dir@,
                None => match loaded {
                    Some(config) => cli.config.download_dir@ == config.download_dir@,
                    None => cli.config.is_default(),
                },
            },
            match loaded {
                Some(config) => {
                    &&& cli.config.max_concurrent_downloads == config.max_concurrent_downloads
                    &&& cli.config.connection_timeout == config.connection_timeout
                    &&& cli.config.use_dht == config.use_dht
                },
                None => {
                    &&& cli.config.max_concurrent_downloads == 3
                    &&& cli.config.connection_timeout == 30
                    &&& cli.config.use_dht
                },
            },
    {
        let mut config = match loaded {
            Some(config) => config,
            None => Config::default(),
        };
        if let Some(dir) = &args.output_dir {
            config.download_dir = dir.clone();
        }
        Cli { args, config }
    }

    /// How much is logged by default
    pub fn log_filter(&self) -> (s: &'static str)
        ensures
            s@ == if self.args.verbose {
                "debug"@
            } else {
                "info"@
            },
    {
        if self.args.verbose {
            "debug"
        } else {
            "info"
        }
    }
}

} // verus!
