use unyeong::config::{ClusterConfig, HardwareProfile, NetworkConfig, NodeConfig, StorageConfig, StorageRule, UnyeongConfig};
use unyeong::models::{DeviceMetadata, DeviceSpec, DeviceStatus, LinkMetadata, LinkSpec, LinkStatus};
use unyeong::resolver::ResolveError;
use unyeong::{artifact_paths, CliTalosClient, UnyeongApp};

struct MockTalosClient;

impl MockTalosClient {
    fn new() -> Self {
        MockTalosClient
    }
}

fn create_test_config() -> UnyeongConfig {
    UnyeongConfig {
        cluster: ClusterConfig {
            name: "test".into(),
            endpoint: "https://test".into(),
            global_sans: vec![],
        },
        profiles: vec![HardwareProfile {
            name: "p1".into(),
            matching_macs: vec!["mac1".into()],
            network: NetworkConfig {
                endpoint_interface: "eno1".into(),
                listen_interfaces: vec![],
                ignore_offline: true,
            },
            storage: StorageConfig {
                os_disk: StorageRule {
                    path: Some("/dev/sda".into()),
                    disk_type: None,
                    min_size: None,
                    index: None,
                },
                data_disks: vec![],
                ignore_disks: vec![],
            },
        }],
        nodes: vec![NodeConfig {
            fqdn: "node1".into(),
            profile: "p1".into(),
            network_mode: None,
            network_override: None,
            storage_override: None,
        }],
    }
}

fn link(id: &str, mac: &str) -> LinkStatus {
    LinkStatus { metadata: LinkMetadata { id: id.into() }, spec: LinkSpec { hardware_addr: mac.into() } }
}

fn profile(name: &str, macs: &[&str]) -> HardwareProfile {
    let mut p = create_test_config().profiles[0].clone();
    p.name = name.into();
    p.matching_macs = macs.iter().map(|m| m.to_string()).collect();
    p
}

fn node(fqdn: &str, profile: &str) -> NodeConfig {
    NodeConfig { fqdn: fqdn.into(), profile: profile.into(), network_mode: None, network_override: None, storage_override: None }
}

#[test]
fn test_match_profile_and_node() {
    let config = create_test_config();
    let client = MockTalosClient::new();
    let app = UnyeongApp::new(config, client);
    let (p, n) = app.match_profile_and_node("mac1").unwrap();
    assert_eq!(p.name, "p1");
    assert_eq!(n.fqdn, "node1");
}

#[test]
fn match_lowercases_configured_macs_only() {
    let mut config = create_test_config();
    config.profiles[0].matching_macs = vec!["AA:BB:CC".into()];
    let app = UnyeongApp::new(config, MockTalosClient::new());
    assert!(app.match_profile_and_node("aa:bb:cc").is_some());
    assert!(app.match_profile_and_node("AA:BB:CC").is_none());
}

#[test]
fn match_takes_first_profile_even_without_node() {
    let mut config = create_test_config();
    config.profiles = vec![profile("p0", &["mac1"]), profile("p1", &["mac1"])];
    let app = UnyeongApp::new(config, MockTalosClient::new());
    // The first profile that lists the MAC has no node, so there is no match.
    assert!(app.match_profile_and_node("mac1").is_none());
}

#[test]
fn match_takes_first_node_of_profile() {
    let mut config = create_test_config();
    config.nodes = vec![node("a", "p2"), node("b", "p1"), node("c", "p1")];
    let app = UnyeongApp::new(config, MockTalosClient::new());
    let (_, n) = app.match_profile_and_node("mac1").unwrap();
    assert_eq!(n.fqdn, "b");
    assert!(app.match_profile_and_node("mac2").is_none());
}

#[test]
fn match_links_uses_first_matching_link() {
    let mut config = create_test_config();
    config.profiles = vec![profile("p1", &["mac1"]), profile("p2", &["mac2"])];
    config.nodes = vec![node("n1", "p1"), node("n2", "p2")];
    let app = UnyeongApp::new(config, MockTalosClient::new());
    let links = vec![link("eth0", "zz"), link("eth1", "MAC2"), link("eth2", "mac1")];
    let (p, n) = app.match_links(&links).unwrap();
    assert_eq!(p.name, "p2");
    assert_eq!(n.fqdn, "n2");
    assert!(app.match_links(&[link("eth0", "zz")]).is_none());
}

const EXPECTED_PATCH: &str = "
machine:
  type: init
  hostname: node1
  install:
    disk: /dev/sda
  network:
    interfaces:
      - interface: eno1
        dhcp: true
    extraHostEntries:
      - ip: 127.0.0.1
        aliases:
          - node1
      - ip: 127.0.0.1
        aliases:
          - kube.jero-mu.talos.local
";

#[test]
fn generate_patch_for_surgical_deploy() {
    let config = create_test_config();
    let app = UnyeongApp::new(config, MockTalosClient::new());
    let links = vec![link("eno1", "mac1")];
    let devices: Vec<DeviceStatus> = vec![];
    let (p, n) = app.match_links(&links).unwrap();
    let all = vec![("127.0.0.1".to_string(), n.fqdn.clone())];
    let patch = app.generate_patch(&links, &devices, p, n, &all, None).unwrap();
    assert_eq!(patch, EXPECTED_PATCH);
}

#[test]
fn generate_patch_dedups_hosts_and_adds_ca() {
    let config = create_test_config();
    let app = UnyeongApp::new(config.clone(), MockTalosClient::new());
    let links = vec![link("eno1", "mac1")];
    let p = &config.profiles[0];
    let n = &config.nodes[0];
    let all = vec![
        ("10.0.0.1".to_string(), "a".to_string()),
        ("10.0.0.2".to_string(), "b".to_string()),
        ("10.0.0.1".to_string(), "c".to_string()),
    ];
    let patch = app.generate_patch(&links, &[], p, n, &all, Some("CERT")).unwrap();
    let expected_tail = "    extraHostEntries:
      - ip: 10.0.0.1
        aliases:
          - a
      - ip: 10.0.0.2
        aliases:
          - b
      - ip: 10.0.0.1
        aliases:
          - kube.jero-mu.talos.local
  ca:
    crt: |
      CERT
";
    assert!(patch.ends_with(expected_tail), "{}", patch);
    assert_eq!(patch.matches("aliases").count(), 3);
}

#[test]
fn generate_patch_errors() {
    let mut config = create_test_config();
    let app = UnyeongApp::new(config.clone(), MockTalosClient::new());
    let p = &config.profiles[0];
    let n = &config.nodes[0];
    let r = app.generate_patch(&[link("eth9", "mac1")], &[], p, n, &[], None);
    assert_eq!(r, Err(ResolveError::NicNotFound));
    config.profiles[0].storage.os_disk.path = None;
    config.profiles[0].storage.os_disk.disk_type = Some("nvme".into());
    let p = &config.profiles[0];
    let devices = vec![DeviceStatus { metadata: DeviceMetadata { id: "sda".into() }, spec: DeviceSpec { model: "SSD".into() } }];
    // the disk is resolved before the interface
    let r = app.generate_patch(&[link("eth9", "mac1")], &devices, p, n, &[], None);
    assert_eq!(r, Err(ResolveError::NoMatchingDisk));
}

#[test]
fn artifact_file_names() {
    let (p, f) = artifact_paths("node1.talos.local", false);
    assert_eq!(p, "talos/node1.talos.local-patch.yaml");
    assert_eq!(f, "talos/node1.talos.local-final.yaml");
    let (p, f) = artifact_paths("n", true);
    assert_eq!(p, "talos/n-validate-patch.yaml");
    assert_eq!(f, "talos/n-validate-final.yaml");
}

#[test]
fn patch_config_arguments() {
    let args = CliTalosClient::patch_config_args("talos/controlplane.yaml", "talos/n-patch.yaml", "talos/n-final.yaml");
    assert_eq!(
        args,
        vec!["machineconfig", "patch", "talos/controlplane.yaml", "--patch", "@talos/n-patch.yaml", "-o", "talos/n-final.yaml"]
    );
}
