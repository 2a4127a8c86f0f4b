//! The cluster description: cluster identity, hardware profiles and nodes.
use vstd::prelude::*;

verus! {

/// The whole cluster description.
#[derive(Debug, Clone)]
pub struct UnyeongConfig {
    pub cluster: ClusterConfig,
    pub profiles: Vec<HardwareProfile>,
    pub nodes: Vec<NodeConfig>,
}

/// Cluster identity.
#[derive(Debug, Clone)]
pub struct ClusterConfig {
    pub name: String,
    pub endpoint: String,
    pub global_sans: Vec<String>,
}

/// A class of machines, recognised by the MAC addresses of their links.
#[derive(Debug, Clone)]
pub struct HardwareProfile {
    pub name: String,
    pub matching_macs: Vec<String>,
    pub network: NetworkConfig,
    pub storage: StorageConfig,
}

/// Network layout of a profile; `endpoint_interface` names the interface
/// that carries the node's endpoint.
#[derive(Debug, Clone)]
pub struct NetworkConfig {
    pub endpoint_interface: String,
    pub listen_interfaces: Vec<String>,
    pub ignore_offline: bool,
}

/// Storage layout of a profile.
#[derive(Debug, Clone)]
pub struct StorageConfig {
    pub os_disk: StorageRule,
    pub data_disks: Vec<StorageRule>,
    pub ignore_disks: Vec<String>,
}

/// How to pick a disk: an explicit `path` wins; otherwise the disks are
/// filtered by `disk_type` ("nvme", "ssd" or "hdd") and the one at `index`
/// (or the first) is taken.
#[derive(Debug, Clone)]
pub struct StorageRule {
    pub disk_type: Option<String>,
    pub min_size: Option<String>,
    pub index: Option<usize>,
    pub path: Option<String>,
}

/// A named machine of the cluster and the profile it follows.
#[derive(Debug, Clone)]
pub struct NodeConfig {
    pub fqdn: String,
    pub profile: String,
    pub network_mode: Option<String>,
    pub network_override: Option<NetworkConfig>,
    pub storage_override: Option<StorageConfig>,
}

} // verus!
