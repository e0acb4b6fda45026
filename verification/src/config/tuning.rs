//! Tuning knobs and their defaults.
use vstd::prelude::*;

use crate::endpoint::KcpConfig;
use crate::routing::{RouteConfig, RouteGraph};

verus! {

/// Default transport packet MTU for UDP over standard Ethernet without IP
/// fragmentation: 1500 (Ethernet) - 40 (IPv6) - 8 (UDP) = 1452. IPv4 allows
/// 1472; 1400 leaves headroom for PPPoE and common tunnel overhead.
pub const DEFAULT_TRANSPORT_MTU: u32 = 1400;

pub const DEFAULT_PADDING_RESERVE: u8 = 128;

pub const DEFAULT_FEEDBACK_INTERVAL_MS: u32 = 1_000;

pub const DEFAULT_FEEDBACK_TIMEOUT_MS: u32 = 5_000;

/// The knobs of a core that a configuration file can set. Keys, `random_seed`,
/// `boot_time_ms`, `local_channels`, and `route.graph` are filled in at startup.
#[derive(Debug, Clone, Copy, PartialEq, Eq, Structural)]
pub struct CoreFileConfig {
    /// `RelayConfig.local_min_mtu`
    pub local_min_mtu: Option<u32>,
    /// `EndpointConfig.padding_reserve`
    pub padding_reserve: Option<u8>,
    /// `EndpointConfig.keepalive_interval_ms`
    pub keepalive_interval_ms: Option<u32>,
    pub kcp: KcpFileConfig,
    pub route: RouteFileConfig,
}

#[derive(Debug, Clone, Copy, PartialEq, Eq, Structural)]
pub struct KcpFileConfig {
    pub send_window: Option<u16>,
    pub receive_window: Option<u16>,
    pub time_scale: Option<u8>,
    pub fast_resend: Option<u32>,
}

#[derive(Debug, Clone, Copy, PartialEq, Eq, Structural)]
pub struct RouteFileConfig {
    /// `RouteConfig.min_mtu`
    pub min_mtu: Option<u32>,
    pub feedback_interval_ms: Option<u32>,
    pub feedback_timeout_ms: Option<u32>,
}

impl Default for KcpFileConfig {
    fn default() -> (config: Self)
        ensures
            config == (KcpFileConfig {
                send_window: None,
                receive_window: None,
                time_scale: None,
                fast_resend: None,
            }),
    {
        Self { send_window: None, receive_window: None, time_scale: None, fast_resend: None }
    }
}

impl Default for RouteFileConfig {
    fn default() -> (config: Self)
        ensures
            config == (RouteFileConfig {
                min_mtu: None,
                feedback_interval_ms: None,
                feedback_timeout_ms: None,
            }),
    {
        Self { min_mtu: None, feedback_interval_ms: None, feedback_timeout_ms: None }
    }
}

impl Default for CoreFileConfig {
    fn default() -> (config: Self)
        ensures
            config.local_min_mtu is None,
            config.padding_reserve is None,
            config.keepalive_interval_ms is None,
            config.kcp == (KcpFileConfig {
                send_window: None,
                receive_window: None,
                time_scale: None,
                fast_resend: None,
            }),
            config.route == (RouteFileConfig {
                min_mtu: None,
                feedback_interval_ms: None,
                feedback_timeout_ms: None,
            }),
    {
        Self {
            local_min_mtu: None,
            padding_reserve: None,
            keepalive_interval_ms: None,
            kcp: KcpFileConfig::default(),
            route: RouteFileConfig::default(),
        }
    }
}

#[derive(Debug, Clone, Copy, PartialEq, Eq, Structural)]
pub struct RelayCoreTuning {
    pub local_min_mtu: u32,
}

#[derive(Debug, Clone, Copy, PartialEq, Eq, Structural)]
pub struct EndpointCoreTuning {
    pub kcp: KcpConfig,
    pub route: RouteTiming,
    pub padding_reserve: u8,
    pub keepalive_interval_ms: u32,
}

#[derive(Debug, Clone, Copy, PartialEq, Eq, Structural)]
pub struct RouteTiming {
    pub min_mtu: u32,
    pub feedback_interval_ms: u32,
    pub feedback_timeout_ms: u32,
}

/// The value of an option, or the default.
pub open spec fn or_default<T>(value: Option<T>, default: T) -> T {
    match value {
        Some(value) => value,
        None => default,
    }
}

impl CoreFileConfig {
    pub fn relay_tuning(&self) -> (tuning: RelayCoreTuning)
        ensures
            tuning.local_min_mtu == or_default(self.local_min_mtu, DEFAULT_TRANSPORT_MTU),
    {
        RelayCoreTuning { local_min_mtu: self.local_min_mtu.unwrap_or(DEFAULT_TRANSPORT_MTU) }
    }

    pub fn endpoint_tuning(&self) -> (tuning: EndpointCoreTuning)
        ensures
            tuning.kcp == self.kcp.kcp_config(),
            tuning.route == self.route.route_timing(),
            tuning.padding_reserve == or_default(self.padding_reserve, DEFAULT_PADDING_RESERVE),
            tuning.keepalive_interval_ms == or_default(self.keepalive_interval_ms, 0),
    {
        EndpointCoreTuning {
            kcp: self.kcp.to_kcp_config(),
            route: self.route.to_route_timing(),
            padding_reserve: self.padding_reserve.unwrap_or(DEFAULT_PADDING_RESERVE),
            keepalive_interval_ms: self.keepalive_interval_ms.unwrap_or(0),
        }
    }
}

impl KcpFileConfig {
    /// The settings, and the defaults of the core for what is not set.
    pub open spec fn kcp_config(self) -> KcpConfig {
        KcpConfig {
            send_window: or_default(self.send_window, 128),
            receive_window: or_default(self.receive_window, 128),
            time_scale: or_default(self.time_scale, 10),
            fast_resend: or_default(self.fast_resend, 32),
        }
    }

    pub fn to_kcp_config(self) -> (config: KcpConfig)
        ensures
            config == self.kcp_config(),
    {
        let defaults = KcpConfig::default();
        KcpConfig {
            send_window: self.send_window.unwrap_or(defaults.send_window),
            receive_window: self.receive_window.unwrap_or(defaults.receive_window),
            time_scale: self.time_scale.unwrap_or(defaults.time_scale),
            fast_resend: self.fast_resend.unwrap_or(defaults.fast_resend),
        }
    }
}

impl RouteFileConfig {
    /// The settings, and the defaults for what is not set.
    pub open spec fn route_timing(self) -> RouteTiming {
        RouteTiming {
            min_mtu: or_default(self.min_mtu, DEFAULT_TRANSPORT_MTU),
            feedback_interval_ms: or_default(
                self.feedback_interval_ms,
                DEFAULT_FEEDBACK_INTERVAL_MS,
            ),
            feedback_timeout_ms: or_default(
                self.feedback_timeout_ms,
                DEFAULT_FEEDBACK_TIMEOUT_MS,
            ),
        }
    }

    pub fn to_route_timing(self) -> (timing: RouteTiming)
        ensures
            timing == self.route_timing(),
    {
        RouteTiming {
            min_mtu: self.min_mtu.unwrap_or(DEFAULT_TRANSPORT_MTU),
            feedback_interval_ms: self.feedback_interval_ms.unwrap_or(
                DEFAULT_FEEDBACK_INTERVAL_MS,
            ),
            feedback_timeout_ms: self.feedback_timeout_ms.unwrap_or(DEFAULT_FEEDBACK_TIMEOUT_MS),
        }
    }
}

impl EndpointCoreTuning {
    pub fn route_config(&self, graph: RouteGraph) -> (config: RouteConfig)
        ensures
            config == (RouteConfig {
                graph,
                min_mtu: self.route.min_mtu,
                feedback_interval_ms: self.route.feedback_interval_ms,
                feedback_timeout_ms: self.route.feedback_timeout_ms,
            }),
    {
        RouteConfig {
            graph,
            min_mtu: self.route.min_mtu,
            feedback_interval_ms: self.route.feedback_interval_ms,
            feedback_timeout_ms: self.route.feedback_timeout_ms,
        }
    }
}

} // verus!
