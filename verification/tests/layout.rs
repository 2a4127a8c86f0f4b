use unyeong::deploy::{render_node_patch, select_node1_disks, select_node2_disks, DiscoveryError, DiskSpec, DiskStatus, Metadata};
use unyeong::nuke::{keeps_in_workspace, reset_args};
use unyeong::pki::PkiHydrator;

fn disk(id: &str, size: u64, modalias: Option<&str>) -> DiskStatus {
    DiskStatus { metadata: Metadata { id: id.into() }, spec: DiskSpec { size, modalias: modalias.map(|m| m.to_string()) } }
}

#[test]
fn node1_smallest_for_os_largest_for_data() {
    let disks = vec![
        disk("sda", 500, None),
        disk("loop0", 10, None),
        disk("sdb", 4000, None),
        disk("sdc", 0, None),
        disk("nvme0n1", 250, None),
        disk("sdd", 4000, None),
    ];
    let (os, d1, d2) = select_node1_disks(disks).unwrap();
    assert_eq!(os, "nvme0n1");
    assert_eq!(d1, "sdd");
    assert_eq!(d2, "sdb");
}

#[test]
fn node1_needs_three_disks() {
    let disks = vec![disk("sda", 500, None), disk("loop1", 10, None), disk("sdb", 0, None), disk("sdc", 4, None)];
    assert_eq!(select_node1_disks(disks), Err(DiscoveryError::TooFewDisks));
}

#[test]
fn node1_equal_sizes_keep_order() {
    let disks = vec![disk("a", 7, None), disk("b", 7, None), disk("c", 7, None)];
    assert_eq!(select_node1_disks(disks).unwrap(), ("a".to_string(), "c".to_string(), "b".to_string()));
}

#[test]
fn node2_os_and_usb() {
    let disks = vec![
        disk("sdu", 64, Some("usb:v1234")),
        disk("sda", 256, Some("scsi:t-0x00")),
        disk("sdb", 512, None),
    ];
    assert_eq!(select_node2_disks(disks).unwrap(), ("sda".to_string(), "sdu".to_string()));
}

#[test]
fn node2_falls_back_to_last_other_disk() {
    let disks = vec![disk("sda", 256, None), disk("sdb", 512, None), disk("sdc", 512, None)];
    assert_eq!(select_node2_disks(disks).unwrap(), ("sda".to_string(), "sdc".to_string()));
    let single = vec![disk("sda", 256, None)];
    assert_eq!(select_node2_disks(single).unwrap(), ("sda".to_string(), "".to_string()));
}

#[test]
fn node2_without_os_disk() {
    let disks = vec![disk("sdu", 64, Some("usb")), disk("loop0", 64, None)];
    assert_eq!(select_node2_disks(disks), Err(DiscoveryError::NoOsDisk));
}

#[test]
fn node_patches_fill_templates() {
    let t = "os: DISK_OS\nd1: DISK_DATA_1\nd2: DISK_DATA_2\nusb: DISK_DATA_USB\n";
    assert_eq!(
        render_node_patch(1, t, "nvme0n1", "sdb", "sdc", "sdu"),
        "os: /dev/nvme0n1\nd1: /dev/sdb\nd2: /dev/sdc\nusb: DISK_DATA_USB\n"
    );
    assert_eq!(
        render_node_patch(2, t, "sda", "", "", "sdu"),
        "os: /dev/sda\nd1: DISK_DATA_1\nd2: DISK_DATA_2\nusb: /dev/sdu\n"
    );
    assert_eq!(render_node_patch(2, "DISK_OSDISK_OS DISK_O", "x", "", "", ""), "/dev/x/dev/x DISK_O");
}

#[test]
fn nuke_arguments_and_survivors() {
    assert_eq!(reset_args(false), vec!["reset", "--nodes", "<CLUSTER_IP_LIST>", "--reboot", "--insecure", "--wait=false"]);
    assert_eq!(reset_args(true).last().unwrap(), "--wipe");
    assert!(keeps_in_workspace("node-1.yaml"));
    assert!(keeps_in_workspace("node-2.yaml"));
    assert!(!keeps_in_workspace("node-3.yaml"));
    assert!(!keeps_in_workspace("secrets.yaml"));
}

#[test]
fn root_ca_locations() {
    assert_eq!(PkiHydrator::root_ca_paths(), vec!["infra/pki/mu-root-ca.crt", "infra/pki/mu-root-ca-secret/tls.crt"]);
}

#[test]
fn node2_without_distinct_data_disk() {
    let disks = vec![disk("sda", 256, None), disk("sda", 512, None)];
    assert_eq!(select_node2_disks(disks), Err(DiscoveryError::NoDataDisk));
    let unnamed_usb = vec![disk("", 8, Some("usb")), disk("sda", 256, None), disk("sdb", 512, None)];
    assert_eq!(select_node2_disks(unnamed_usb).unwrap(), ("sda".to_string(), "sdb".to_string()));
}
