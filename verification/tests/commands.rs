use unyeong::commands::clean::{CleanAction, CleanCommand, CleanError};
use unyeong::commands::dhcp::{DhcpCommand, HostGroup};
use unyeong::config::{ClusterConfig, HardwareProfile, NetworkConfig, NodeConfig, StorageConfig, StorageRule, UnyeongConfig};
use unyeong::models::{LinkMetadata, LinkSpec, LinkStatus};

fn config() -> UnyeongConfig {
    UnyeongConfig {
        cluster: ClusterConfig { name: "test".into(), endpoint: "https://test".into(), global_sans: vec![] },
        profiles: vec![HardwareProfile {
            name: "p1".into(),
            matching_macs: vec!["mac1".into()],
            network: NetworkConfig { endpoint_interface: "eno1".into(), listen_interfaces: vec![], ignore_offline: true },
            storage: StorageConfig { os_disk: StorageRule { path: None, disk_type: None, min_size: None, index: None }, data_disks: vec![], ignore_disks: vec![] },
        }],
        nodes: vec![NodeConfig { fqdn: "node1".into(), profile: "p1".into(), network_mode: None, network_override: None, storage_override: None }],
    }
}

fn link(id: &str, mac: &str) -> LinkStatus {
    LinkStatus { metadata: LinkMetadata { id: id.into() }, spec: LinkSpec { hardware_addr: mac.into() } }
}

fn groups_of(gs: &[HostGroup]) -> Vec<(String, Vec<String>)> {
    gs.iter().map(|g| (g.fqdn.clone(), g.ips.clone())).collect()
}

#[test]
fn clean_plans() {
    assert_eq!(CleanCommand::plan(true, Some("127.0.0.1".into())), Ok(CleanAction::ResetNode("127.0.0.1".into())));
    assert_eq!(CleanCommand::plan(true, None), Ok(CleanAction::ResetAll));
    assert_eq!(CleanCommand::plan(false, None), Err(CleanError::PurgeRequired));
    assert_eq!(CleanCommand::plan(false, Some("127.0.0.1".into())), Err(CleanError::PurgeRequired));
}

#[test]
fn dhcp_mapping_single_host() {
    let cfg = config();
    let obs = vec![("<TEST_IP>".to_string(), vec![link("eth0", "mac1")])];
    let groups = DhcpCommand::group_hosts(&cfg, &obs);
    assert_eq!(groups_of(&groups), vec![("node1".to_string(), vec!["<TEST_IP>".to_string()])]);
    let lines = DhcpCommand::render(&groups);
    assert_eq!(
        lines,
        vec![
            "# --- talos.local ---".to_string(),
            "<TEST_IP>    node1 kube.jero-mu.talos.local".to_string(),
            "# --- end talos.local ---".to_string(),
        ]
    );
}

#[test]
fn dhcp_groups_sorted_and_deduplicated() {
    let mut cfg = config();
    cfg.profiles[0].matching_macs = vec!["MAC1".into(), "mac3".into()];
    let mut p2 = cfg.profiles[0].clone();
    p2.name = "p2".into();
    p2.matching_macs = vec!["mac2".into()];
    cfg.profiles.push(p2);
    cfg.nodes.push(NodeConfig { fqdn: "node2".into(), profile: "p2".into(), network_mode: None, network_override: None, storage_override: None });
    let obs = vec![
        ("10.0.0.9".to_string(), vec![link("eth0", "mac1")]),
        ("10.0.0.2".to_string(), vec![link("eth0", "zz"), link("eth1", "Mac2")]),
        ("10.0.0.10".to_string(), vec![link("eth0", "mac3")]),
        ("10.0.0.9".to_string(), vec![link("eth0", "mac1")]),
        ("10.0.0.5".to_string(), vec![]),
        ("10.0.0.6".to_string(), vec![link("eth0", "nobody")]),
    ];
    let groups = DhcpCommand::group_hosts(&cfg, &obs);
    assert_eq!(
        groups_of(&groups),
        vec![
            ("node1".to_string(), vec!["10.0.0.10".to_string(), "10.0.0.9".to_string()]),
            ("node2".to_string(), vec!["10.0.0.2".to_string()]),
        ]
    );
    let lines = DhcpCommand::render(&groups);
    assert_eq!(
        lines,
        vec![
            "# --- talos.local ---",
            "10.0.0.10    node1 kube.jero-mu.talos.local",
            "10.0.0.9    node1",
            "10.0.0.2    node2 kube.jero-mu.talos.local",
            "# --- end talos.local ---",
        ]
    );
}

#[test]
fn dhcp_node_lookup_uses_first_profile_of_that_name() {
    let mut cfg = config();
    let mut dup = cfg.profiles[0].clone();
    dup.matching_macs = vec!["mac9".into()];
    cfg.profiles.push(dup);
    assert!(DhcpCommand::claiming_node(&cfg, &[link("eth0", "mac9")]).is_none());
    assert_eq!(DhcpCommand::claiming_node(&cfg, &[link("eth0", "mac1")]).unwrap().fqdn, "node1");
}

#[test]
fn dhcp_empty() {
    let groups = DhcpCommand::group_hosts(&config(), &[]);
    assert!(groups.is_empty());
    assert_eq!(DhcpCommand::render(&groups), vec!["# --- talos.local ---", "# --- end talos.local ---"]);
}
