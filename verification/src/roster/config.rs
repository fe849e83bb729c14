//! The roster plugin's dials.

use vstd::prelude::*;
use crate::seam::PluginError;

verus! {

/// How often the reconciler re-reads the transport's endpoints when no event
/// woke it.
pub const ENDPOINT_POLL_SECS_DEFAULT: u32 = 30;

#[derive(Debug, Clone, Copy, PartialEq, Eq)]
pub struct RosterConfig {
    /// Seconds between timer-driven reconciler passes; each republishes the
    /// node record when the transport's endpoints changed.
    pub endpoint_poll_secs: u32,
}

impl Default for RosterConfig {
    fn default() -> (r: RosterConfig)
        ensures
            r.endpoint_poll_secs == ENDPOINT_POLL_SECS_DEFAULT,
    {
        RosterConfig { endpoint_poll_secs: ENDPOINT_POLL_SECS_DEFAULT }
    }
}

#[derive(Debug, PartialEq, Eq)]
pub struct RosterPlugin {
    pub config: RosterConfig,
}

impl RosterPlugin {
    /// The plugin of a config, or why it cannot be run.
    pub fn from_config(config: RosterConfig) -> (r: Result<RosterPlugin, PluginError>)
        ensures
            r is Ok <==> config.endpoint_poll_secs > 0,
            r matches Ok(plugin) ==> plugin.config == config,
            r matches Err(e) ==> e.message@
                == "config: endpoint_poll_secs must be at least 1; zero would spin"@,
    {
        if config.endpoint_poll_secs == 0 {
            return Err(
                PluginError {
                    message: "config: endpoint_poll_secs must be at least 1; zero would spin".to_owned(),
                },
            );
        }
        Ok(RosterPlugin { config })
    }
}

#[derive(Debug, PartialEq, Eq)]
pub struct RosterFactory;

impl RosterFactory {
    /// The entry kind a composition names the plugin by.
    pub fn name(&self) -> (r: &'static str)
        ensures
            r@ == "roster"@,
    {
        "roster"
    }
}

} // verus!
