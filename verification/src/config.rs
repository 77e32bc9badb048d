//! The command line's settings: the values of the configuration file, and
//! how the command line's flags take precedence over them.

use vstd::prelude::*;

verus! {

/// The configuration file's values; a missing file or key means the default.
pub struct TexpandConfig {
    /// Local header search paths, searched in order.
    pub include_paths: Vec<String>,
    /// Whether compression is on when the command line does not say.
    pub default_compress: bool,
}

impl Default for TexpandConfig {
    fn default() -> (r: Self)
        ensures
            r.include_paths@.len() == 0,
            !r.default_compress,
    {
        TexpandConfig { include_paths: Vec::new(), default_compress: false }
    }
}

/// The settings an expansion from the command line runs with.
pub struct Settings {
    /// Local header search paths, searched in order.
    pub include_paths: Vec<String>,
    /// Whether to compress the output.
    pub compress: bool,
}

/// The settings from the command line's choices and the configuration: any
/// `-i` path replaces the configured paths; `-c` turns compression on,
/// `--no-compress` off, and without either the configuration decides.
pub fn choose_settings(cli_paths: Vec<String>, compress: bool, no_compress: bool, config: TexpandConfig) -> (r:
    Settings)
    ensures
        r.include_paths@ == (if cli_paths@.len() == 0 {
            config.include_paths@
        } else {
            cli_paths@
        }),
        r.compress == (if compress {
            true
        } else if no_compress {
            false
        } else {
            config.default_compress
        }),
{
    let include_paths = if cli_paths.len() == 0 {
        config.include_paths
    } else {
        cli_paths
    };
    let compress = if compress {
        true
    } else if no_compress {
        false
    } else {
        config.default_compress
    };
    Settings { include_paths, compress }
}

} // verus!
