//! Resource records reported by Talos nodes, as the library reads them.
use vstd::prelude::*;

verus! {

/// Lifecycle state of a node.
#[derive(Debug, Clone, Copy, PartialEq, Eq, Structural)]
pub enum NodeState {
    Discovered,
    Maintenance,
    ManagedPending,
    Healthy,
    Unhealthy,
    Failed,
}

/// A network link as reported by the node (`LinkStatus` resource).
#[derive(Debug, Clone)]
pub struct LinkStatus {
    pub metadata: LinkMetadata,
    pub spec: LinkSpec,
}

/// Identity of a link: its interface name.
#[derive(Debug, Clone)]
pub struct LinkMetadata {
    pub id: String,
}

/// Hardware description of a link.
#[derive(Debug, Clone)]
pub struct LinkSpec {
    pub hardware_addr: String,
}

/// A block device as reported by the node (`DeviceStatus` resource).
#[derive(Debug, Clone)]
pub struct DeviceStatus {
    pub metadata: DeviceMetadata,
    pub spec: DeviceSpec,
}

/// Identity of a block device: its kernel name.
#[derive(Debug, Clone)]
pub struct DeviceMetadata {
    pub id: String,
}

/// Hardware description of a block device.
#[derive(Debug, Clone)]
pub struct DeviceSpec {
    pub model: String,
}

} // verus!
