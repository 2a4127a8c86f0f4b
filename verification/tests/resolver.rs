use unyeong::config::StorageRule;
use unyeong::models::{DeviceMetadata, DeviceSpec, DeviceStatus, LinkMetadata, LinkSpec, LinkStatus};
use unyeong::resolver::{HardwareResolver, ResolveError};

fn device(id: &str, model: &str) -> DeviceStatus {
    DeviceStatus {
        metadata: DeviceMetadata { id: id.into() },
        spec: DeviceSpec { model: model.into() },
    }
}

fn rule(path: Option<&str>, disk_type: Option<&str>, index: Option<usize>) -> StorageRule {
    StorageRule {
        path: path.map(|p| p.to_string()),
        disk_type: disk_type.map(|t| t.to_string()),
        min_size: None,
        index,
    }
}

#[test]
fn test_resolve_nic_success() {
    let links = vec![LinkStatus {
        metadata: LinkMetadata { id: "eno1".into() },
        spec: LinkSpec { hardware_addr: "aa:bb:cc".into() },
    }];
    let res = HardwareResolver::resolve_nic(&links, "eno1").unwrap();
    assert_eq!(res, "eno1");
}

#[test]
fn test_resolve_nic_fail() {
    let links = vec![];
    let res = HardwareResolver::resolve_nic(&links, "eno1");
    assert!(res.is_err());
}

#[test]
fn test_resolve_storage_by_path() {
    let devices = vec![];
    let rule = StorageRule { path: Some("/dev/sda".into()), disk_type: None, min_size: None, index: None };
    let res = HardwareResolver::resolve_storage(&devices, &rule).unwrap();
    assert_eq!(res, "/dev/sda");
}

#[test]
fn test_resolve_storage_by_type_and_index() {
    let devices = vec![
        DeviceStatus {
            metadata: DeviceMetadata { id: "nvme0n1".into() },
            spec: DeviceSpec { model: "Samsung NVMe".into() },
        },
        DeviceStatus {
            metadata: DeviceMetadata { id: "sda".into() },
            spec: DeviceSpec { model: "SATA SSD".into() },
        },
    ];

    let rule_nvme = StorageRule { path: None, disk_type: Some("nvme".into()), min_size: None, index: Some(0) };
    let res_nvme = HardwareResolver::resolve_storage(&devices, &rule_nvme).unwrap();
    assert_eq!(res_nvme, "/dev/nvme0n1");

    let rule_ssd = StorageRule { path: None, disk_type: Some("ssd".into()), min_size: None, index: Some(0) };
    let res_ssd = HardwareResolver::resolve_storage(&devices, &rule_ssd).unwrap();
    assert_eq!(res_ssd, "/dev/sda");
}

#[test]
fn nic_not_found_error() {
    let links = vec![LinkStatus {
        metadata: LinkMetadata { id: "eth0".into() },
        spec: LinkSpec { hardware_addr: "aa".into() },
    }];
    assert_eq!(HardwareResolver::resolve_nic(&links, "eno1"), Err(ResolveError::NicNotFound));
    assert_eq!(HardwareResolver::resolve_nic(&links, "eth0"), Ok("eth0".to_string()));
}

#[test]
fn explicit_path_wins_over_devices() {
    let devices = vec![device("nvme0n1", "Samsung NVMe")];
    let r = rule(Some("/dev/disk/by-id/x"), Some("nvme"), Some(3));
    assert_eq!(HardwareResolver::resolve_storage(&devices, &r).unwrap(), "/dev/disk/by-id/x");
}

#[test]
fn storage_without_type_takes_first_disk() {
    let devices = vec![device("sdb", "WD Red"), device("sdc", "Seagate")];
    let r = rule(None, None, None);
    assert_eq!(HardwareResolver::resolve_storage(&devices, &r).unwrap(), "/dev/sdb");
    let r1 = rule(None, None, Some(1));
    assert_eq!(HardwareResolver::resolve_storage(&devices, &r1).unwrap(), "/dev/sdc");
}

#[test]
fn storage_errors() {
    let devices = vec![device("sda", "SATA SSD")];
    assert_eq!(
        HardwareResolver::resolve_storage(&devices, &rule(None, Some("nvme"), None)),
        Err(ResolveError::NoMatchingDisk)
    );
    assert_eq!(
        HardwareResolver::resolve_storage(&devices, &rule(None, Some("ssd"), Some(1))),
        Err(ResolveError::DiskIndexOutOfRange { index: 1 })
    );
    assert_eq!(
        HardwareResolver::resolve_storage(&[], &rule(None, None, None)),
        Err(ResolveError::NoMatchingDisk)
    );
}

#[test]
fn disk_types() {
    let devices = vec![
        device("nvme0n1", "Samsung NVMe 980"),
        device("sda", "Kingston FLASH drive"),
        device("sdb", "WDC HDD"),
        device("sdc", "Crucial SSD"),
    ];
    assert_eq!(HardwareResolver::resolve_storage(&devices, &rule(None, Some("ssd"), Some(0))).unwrap(), "/dev/sda");
    assert_eq!(HardwareResolver::resolve_storage(&devices, &rule(None, Some("ssd"), Some(1))).unwrap(), "/dev/sdc");
    assert_eq!(HardwareResolver::resolve_storage(&devices, &rule(None, Some("hdd"), None)).unwrap(), "/dev/sda");
    assert_eq!(HardwareResolver::resolve_storage(&devices, &rule(None, Some("hdd"), Some(1))).unwrap(), "/dev/sdb");
    assert_eq!(HardwareResolver::resolve_storage(&devices, &rule(None, Some("tape"), Some(2))).unwrap(), "/dev/sdb");
}

#[test]
fn disk_type_matching_is_on_lowercased_models() {
    assert!(HardwareResolver::disk_type_matches("samsung nvme", "nvme"));
    assert!(!HardwareResolver::disk_type_matches("Samsung NVMe", "nvme"));
    assert!(HardwareResolver::disk_type_matches("usb flash", "ssd"));
    assert!(!HardwareResolver::disk_type_matches("sata ssd", "hdd"));
    assert!(HardwareResolver::disk_type_matches("anything", "other"));
}
