//! Server directory engine: fetch a master list of game-server addresses,
//! interrogate each server over an unreliable datagram protocol under an
//! explicit concurrency cap, and expose stable, composable sorted/filtered
//! views over the resulting server list without copying the underlying
//! records.

pub mod client;
pub mod config;
pub mod containers;
pub mod favorites;
pub mod model;
pub mod net;
pub mod ops;

pub use client::{QueryConfig, SendCommand, ServerQueryClient};
pub use config::{
    BattlEyeUsage, Config, ConfigEntry, ConfigError, ConfigPersister, ServerBrowserConfig,
    TransientConfig,
};
pub use containers::{ServerIter, ServerList, ServerListView, Servers};
pub use favorites::{merge_favorites, FavoriteServer, FavoriteServers};
pub use model::{Kind, Mode, Ownership, PlayerCounts, Region, Server, ServerAddress, Validity};
pub use net::{FetchError, MasterEntry, ServerQueryRequest, ServerQueryResponse};
pub use ops::{Filter, SortCriteria, SortKey, TypeFilter};
