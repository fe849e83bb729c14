//! The sync plugin's dials.

use vstd::prelude::*;
use crate::seam::PluginError;

verus! {

/// Exchanges one round runs at once; the rest wait their turn.
pub const CONCURRENT_PEERS_MAX: usize = 8;

pub const INTERVAL_SECS_DEFAULT: u32 = 60;

pub const INITIAL_DELAY_SECS_DEFAULT: u32 = 2;

pub const REQUEST_TIMEOUT_SECS_DEFAULT: u32 = 30;

#[derive(Debug, Clone, Copy, PartialEq, Eq)]
pub struct SyncConfig {
    /// Seconds between timer rounds.
    pub interval_secs: u32,
    /// Seconds after mount before the first timer round, so the transport
    /// and the roster settle first.
    pub initial_delay_secs: u32,
    /// Most peers one timer round exchanges with.
    pub peers_per_round_max: u32,
    /// How long one request may take before the peer is given up on.
    pub request_timeout_secs: u32,
}

/// What a config the service cannot run is told.
pub open spec fn config_refusal(config: SyncConfig) -> Option<Seq<char>> {
    if config.interval_secs == 0 {
        Some("config: interval_secs must be at least 1; zero would spin"@)
    } else if config.request_timeout_secs == 0 {
        Some("config: request_timeout_secs must be at least 1; zero refuses every request"@)
    } else if config.peers_per_round_max == 0 {
        Some("config: peers_per_round_max must be at least 1; zero syncs with nobody"@)
    } else {
        None
    }
}

impl SyncConfig {
    /// The dials a composition that says nothing gets, where a round may take
    /// `peers_max` peers.
    pub fn standard(peers_max: u32) -> (r: SyncConfig)
        ensures
            r == (SyncConfig {
                interval_secs: INTERVAL_SECS_DEFAULT,
                initial_delay_secs: INITIAL_DELAY_SECS_DEFAULT,
                peers_per_round_max: peers_max,
                request_timeout_secs: REQUEST_TIMEOUT_SECS_DEFAULT,
            }),
    {
        SyncConfig {
            interval_secs: INTERVAL_SECS_DEFAULT,
            initial_delay_secs: INITIAL_DELAY_SECS_DEFAULT,
            peers_per_round_max: peers_max,
            request_timeout_secs: REQUEST_TIMEOUT_SECS_DEFAULT,
        }
    }

    /// The configured per-round bound, held to `peers_max`.
    pub fn peers_per_round(&self, peers_max: usize) -> (r: usize)
        requires
            peers_max >= 1,
        ensures
            r == (if self.peers_per_round_max < 1 {
                1
            } else if self.peers_per_round_max > peers_max {
                peers_max
            } else {
                self.peers_per_round_max as usize
            }),
            1 <= r <= peers_max,
    {
        let configured: usize = self.peers_per_round_max as usize;
        if configured < 1 {
            1
        } else if configured > peers_max {
            peers_max
        } else {
            configured
        }
    }
}

#[derive(Debug, PartialEq, Eq)]
pub struct SyncPlugin {
    pub config: SyncConfig,
}

impl SyncPlugin {
    /// The plugin of a config, or why it cannot be run.
    pub fn from_config(config: SyncConfig) -> (r: Result<SyncPlugin, PluginError>)
        ensures
            r is Ok <==> config_refusal(config) is None,
            r matches Ok(plugin) ==> plugin.config == config,
            r matches Err(e) ==> e.message@ == config_refusal(config)->0,
    {
        if config.interval_secs == 0 {
            return Err(
                PluginError {
                    message: "config: interval_secs must be at least 1; zero would spin".to_owned(),
                },
            );
        }
        if config.request_timeout_secs == 0 {
            return Err(
                PluginError {
                    message:
                        "config: request_timeout_secs must be at least 1; zero refuses every request".to_owned(),
                },
            );
        }
        if config.peers_per_round_max == 0 {
            return Err(
                PluginError {
                    message:
                        "config: peers_per_round_max must be at least 1; zero syncs with nobody".to_owned(),
                },
            );
        }
        Ok(SyncPlugin { config })
    }
}

#[derive(Debug, PartialEq, Eq)]
pub struct SyncFactory;

impl SyncFactory {
    /// The entry kind a composition names the plugin by.
    pub fn name(&self) -> (r: &'static str)
        ensures
            r@ == "sync"@,
    {
        "sync"
    }
}

} // verus!
