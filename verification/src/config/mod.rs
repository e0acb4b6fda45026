//! What a node is configured with.
pub mod promises;
pub mod route;
pub mod settings;
pub mod sorting;
pub mod tuning;

pub use route::{build_route, checked_route, RouteEdgeConfig};
pub use settings::{
    ChannelConfig, CliConfig, FileConfig, HostPorts, NodeRole, SettingsError,
};
pub use tuning::{
    CoreFileConfig, EndpointCoreTuning, KcpFileConfig, RelayCoreTuning, RouteFileConfig,
    RouteTiming, DEFAULT_TRANSPORT_MTU,
};
