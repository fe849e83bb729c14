//! The routing plugin's dials.

use vstd::prelude::*;
use crate::operations::merge::FAN_OUT_NODES_MAX;
use crate::seam::PluginError;

verus! {

/// How long one routed read may take, unless the composition says otherwise.
pub const REQUEST_TIMEOUT_SECS_DEFAULT: u32 = 30;

/// How long a fan-out waits for each node, unless the composition says
/// otherwise.
pub const FAN_OUT_TIMEOUT_MS_DEFAULT: u32 = 3_000;

#[derive(Debug, Clone, Copy, PartialEq, Eq)]
pub struct RoutingConfig {
    /// How long one routed read may take end to end before the requester
    /// gives up on the candidate and tries the next.
    pub request_timeout_secs: u32,
    /// Whether queries fan out at all; `false` keeps every query local.
    pub fan_out: bool,
    /// How long a fan-out waits for each node before reporting it as a
    /// straggler and answering with what it has.
    pub fan_out_timeout_ms: u32,
    /// Most nodes one query fans out to, held to [`FAN_OUT_NODES_MAX`].
    pub fan_out_nodes_max: u32,
}

impl Default for RoutingConfig {
    fn default() -> (r: RoutingConfig)
        ensures
            r == (RoutingConfig {
                request_timeout_secs: REQUEST_TIMEOUT_SECS_DEFAULT,
                fan_out: true,
                fan_out_timeout_ms: FAN_OUT_TIMEOUT_MS_DEFAULT,
                fan_out_nodes_max: FAN_OUT_NODES_MAX as u32,
            }),
    {
        RoutingConfig {
            request_timeout_secs: REQUEST_TIMEOUT_SECS_DEFAULT,
            fan_out: true,
            fan_out_timeout_ms: FAN_OUT_TIMEOUT_MS_DEFAULT,
            fan_out_nodes_max: FAN_OUT_NODES_MAX as u32,
        }
    }
}

/// The config as the service runs it: the fan-out count held to its bound.
#[derive(Debug, Clone, Copy, PartialEq, Eq)]
pub struct Limits {
    pub request_timeout_secs: u64,
    pub fan_out: bool,
    pub fan_out_timeout_ms: u64,
    pub fan_out_nodes_max: usize,
}

/// What a config the service cannot run is told.
pub open spec fn config_refusal(config: RoutingConfig) -> Option<Seq<char>> {
    if config.request_timeout_secs == 0 {
        Some("routing.request_timeout_secs must be greater than zero"@)
    } else if config.fan_out_timeout_ms == 0 {
        Some("routing.fan_out_timeout_ms must be greater than zero"@)
    } else if config.fan_out_nodes_max == 0 {
        Some(
            "routing.fan_out_nodes_max must be greater than zero; set fan_out = false to keep queries local"@,
        )
    } else {
        None
    }
}

impl Limits {
    /// The limits of a config, or why it cannot be run.
    pub fn from_config(config: &RoutingConfig) -> (r: Result<Limits, PluginError>)
        ensures
            r is Ok <==> config_refusal(*config) is None,
            r matches Ok(limits) ==> limits == (Limits {
                request_timeout_secs: config.request_timeout_secs as u64,
                fan_out: config.fan_out,
                fan_out_timeout_ms: config.fan_out_timeout_ms as u64,
                fan_out_nodes_max: (if config.fan_out_nodes_max <= FAN_OUT_NODES_MAX {
                    config.fan_out_nodes_max as usize
                } else {
                    FAN_OUT_NODES_MAX
                }),
            }) && 1 <= limits.fan_out_nodes_max <= FAN_OUT_NODES_MAX,
            r matches Err(e) ==> e.message@ == config_refusal(*config)->0,
    {
        if config.request_timeout_secs == 0 {
            return Err(
                PluginError {
                    message: "routing.request_timeout_secs must be greater than zero".to_owned(),
                },
            );
        }
        if config.fan_out_timeout_ms == 0 {
            return Err(
                PluginError {
                    message: "routing.fan_out_timeout_ms must be greater than zero".to_owned(),
                },
            );
        }
        if config.fan_out_nodes_max == 0 {
            return Err(
                PluginError {
                    message:
                        "routing.fan_out_nodes_max must be greater than zero; set fan_out = false to keep queries local".to_owned(),
                },
            );
        }
        let nodes: usize = if config.fan_out_nodes_max as usize <= FAN_OUT_NODES_MAX {
            config.fan_out_nodes_max as usize
        } else {
            FAN_OUT_NODES_MAX
        };
        Ok(
            Limits {
                request_timeout_secs: config.request_timeout_secs as u64,
                fan_out: config.fan_out,
                fan_out_timeout_ms: config.fan_out_timeout_ms as u64,
                fan_out_nodes_max: nodes,
            },
        )
    }
}

#[derive(Debug, PartialEq, Eq)]
pub struct RoutingPlugin {
    pub limits: Limits,
}

impl RoutingPlugin {
    /// The plugin of a config, or why it cannot be run.
    pub fn from_config(config: &RoutingConfig) -> (r: Result<RoutingPlugin, PluginError>)
        ensures
            r is Ok <==> config_refusal(*config) is None,
            r matches Ok(plugin) ==> plugin.limits.fan_out == config.fan_out
                && plugin.limits.request_timeout_secs == config.request_timeout_secs
                && plugin.limits.fan_out_timeout_ms == config.fan_out_timeout_ms
                && plugin.limits.fan_out_nodes_max == (if config.fan_out_nodes_max
                <= FAN_OUT_NODES_MAX {
                config.fan_out_nodes_max as usize
            } else {
                FAN_OUT_NODES_MAX
            }),
            r matches Err(e) ==> e.message@ == config_refusal(*config)->0,
    {
        match Limits::from_config(config) {
            Ok(limits) => Ok(RoutingPlugin { limits }),
            Err(e) => Err(e),
        }
    }
}

#[derive(Debug, PartialEq, Eq)]
pub struct RoutingFactory;

impl RoutingFactory {
    /// The entry kind a composition names the plugin by.
    pub fn name(&self) -> (r: &'static str)
        ensures
            r@ == "routing"@,
    {
        "routing"
    }
}

} // verus!
