//! Resolution of a profile's abstract hardware rules against what a node reports.
use vstd::prelude::*;
use vstd::string::*;
use crate::config::StorageRule;
use crate::find::none_satisfy;
use crate::models::{DeviceStatus, LinkStatus};
use crate::text::{has_infix, lowercase, str_contains, str_eq, to_lowercase};

verus! {

broadcast use vstd::string::group_string_axioms;

/// Why a hardware rule could not be resolved.
#[derive(Debug, Clone, Copy, PartialEq, Eq, Structural)]
pub enum ResolveError {
    /// No link carries the interface name that the rule asks for.
    NicNotFound,
    /// Fewer disks than `index + 1` pass the rule's type filter.
    DiskIndexOutOfRange { index: usize },
    /// No disk passes the rule's type filter.
    NoMatchingDisk,
}

/// Resolver of NIC and disk rules.
pub struct HardwareResolver;

/// Whether a disk whose lowercased model is `model` is of type `disk_type`:
/// "nvme" disks mention nvme, "ssd" disks mention ssd or flash, "hdd" disks
/// mention neither nvme nor ssd; any other type accepts every disk.
pub open spec fn type_matches(model: Seq<char>, disk_type: Seq<char>) -> bool {
    if disk_type == "nvme"@ {
        has_infix(model, "nvme"@)
    } else if disk_type == "ssd"@ {
        has_infix(model, "ssd"@) || has_infix(model, "flash"@)
    } else if disk_type == "hdd"@ {
        !has_infix(model, "nvme"@) && !has_infix(model, "ssd"@)
    } else {
        true
    }
}

/// Whether a device passes a rule's optional type filter.
pub open spec fn device_kept(d: DeviceStatus, disk_type: Option<String>) -> bool {
    match disk_type {
        None => true,
        Some(t) => type_matches(lowercase(d.spec.model@), t@),
    }
}

/// The ids of the devices that pass the type filter, in their order.
pub open spec fn kept_ids(devices: Seq<DeviceStatus>, disk_type: Option<String>) -> Seq<Seq<char>>
    decreases devices.len(),
{
    if devices.len() == 0 {
        seq![]
    } else {
        let rest = kept_ids(devices.drop_last(), disk_type);
        if device_kept(devices.last(), disk_type) {
            rest.push(devices.last().metadata.id@)
        } else {
            rest
        }
    }
}

/// The device path of a kernel disk name.
pub open spec fn dev_path(id: Seq<char>) -> Seq<char> {
    "/dev/"@ + id
}

/// What resolving `rule` against `devices` gives.
pub open spec fn storage_resolution(devices: Seq<DeviceStatus>, rule: StorageRule) -> Result<
    Seq<char>,
    ResolveError,
> {
    match rule.path {
        Some(p) => Ok(p@),
        None => {
            let ids = kept_ids(devices, rule.disk_type);
            match rule.index {
                Some(k) => if k < ids.len() {
                    Ok(dev_path(ids[k as int]))
                } else {
                    Err(ResolveError::DiskIndexOutOfRange { index: k })
                },
                None => if ids.len() > 0 {
                    Ok(dev_path(ids[0]))
                } else {
                    Err(ResolveError::NoMatchingDisk)
                },
            }
        },
    }
}

/// A result whose text is taken by its characters.
pub open spec fn text_result<E>(r: Result<String, E>) -> Result<Seq<char>, E> {
    match r {
        Ok(s) => Ok(s@),
        Err(e) => Err(e),
    }
}

/// What resolving the interface rule `rule` against `links` gives.
pub open spec fn nic_resolution(links: Seq<LinkStatus>, rule: Seq<char>) -> Result<
    Seq<char>,
    ResolveError,
> {
    if none_satisfy(links, link_named(rule)) {
        Err(ResolveError::NicNotFound)
    } else {
        Ok(rule)
    }
}

/// A link carries the interface name `rule`.
pub open spec fn link_named(rule: Seq<char>) -> spec_fn(LinkStatus) -> bool {
    |l: LinkStatus| l.metadata.id@ == rule
}

impl HardwareResolver {
    /// The interface named by `rule`, if some link carries that name.
    pub fn resolve_nic(links: &[LinkStatus], rule: &str) -> (r: Result<String, ResolveError>)
        ensures
            text_result(r) == nic_resolution(links@, rule@),
    {
        let mut i: usize = 0;
        while i < links.len()
            invariant
                i <= links.len(),
                forall|j: int| 0 <= j < i ==> !link_named(rule@)(#[trigger] links@[j]),
            decreases links.len() - i,
        {
            if str_eq(links[i].metadata.id.as_str(), rule) {
                assert(link_named(rule@)(links@[i as int]));
                return Ok(links[i].metadata.id.clone());
            }
            i = i + 1;
        }
        Err(ResolveError::NicNotFound)
    }

    /// Whether a disk whose lowercased model is `model` is of type `disk_type`.
    pub fn disk_type_matches(model: &str, disk_type: &str) -> (r: bool)
        ensures
            r == type_matches(model@, disk_type@),
    {
        if str_eq(disk_type, "nvme") {
            str_contains(model, "nvme")
        } else if str_eq(disk_type, "ssd") {
            str_contains(model, "ssd") || str_contains(model, "flash")
        } else if str_eq(disk_type, "hdd") {
            !str_contains(model, "nvme") && !str_contains(model, "ssd")
        } else {
            true
        }
    }

    /// The device path chosen by `rule`: its explicit path, or else the disk
    /// at `index` (default 0) among those that pass the type filter.
    pub fn resolve_storage(devices: &[DeviceStatus], rule: &StorageRule) -> (r: Result<
        String,
        ResolveError,
    >)
        ensures
            text_result(r) == storage_resolution(devices@, *rule),
    {
        if let Some(path) = &rule.path {
            return Ok(path.clone());
        }
        let mut ids: Vec<String> = Vec::new();
        let mut i: usize = 0;
        while i < devices.len()
            invariant
                i <= devices.len(),
                ids@.map_values(|s: String| s@) == kept_ids(
                    devices@.subrange(0, i as int),
                    rule.disk_type,
                ),
            decreases devices.len() - i,
        {
            let keep = match &rule.disk_type {
                None => true,
                Some(t) => {
                    let model = to_lowercase(devices[i].spec.model.as_str());
                    Self::disk_type_matches(model.as_str(), t.as_str())
                },
            };
            let ghost before = devices@.subrange(0, i as int);
            assert(devices@.subrange(0, i + 1).drop_last() =~= before);
            if keep {
                ids.push(devices[i].metadata.id.clone());
            }
            assert(ids@.map_values(|s: String| s@) =~= kept_ids(
                devices@.subrange(0, i + 1),
                rule.disk_type,
            ));
            i = i + 1;
        }
        assert(devices@.subrange(0, devices.len() as int) =~= devices@);
        let k: usize = match rule.index {
            Some(k) => k,
            None => 0,
        };
        if k < ids.len() {
            let path = String::from_str("/dev/").concat(ids[k].as_str());
            assert(ids@.map_values(|s: String| s@)[k as int] == ids@[k as int]@);
            Ok(path)
        } else {
            match rule.index {
                Some(index) => Err(ResolveError::DiskIndexOutOfRange { index }),
                None => Err(ResolveError::NoMatchingDisk),
            }
        }
    }
}

/// An explicit path in a storage rule wins over every disk the node reports.
pub proof fn lemma_explicit_path_wins(devices: Seq<DeviceStatus>, rule: StorageRule)
    requires
        rule.path is Some,
    ensures
        storage_resolution(devices, rule) == Ok::<Seq<char>, ResolveError>(rule.path->Some_0@),
{
}

/// A resolved disk is addressed under `/dev/`, unless the rule names its path.
pub proof fn lemma_resolved_disk_under_dev(devices: Seq<DeviceStatus>, rule: StorageRule)
    requires
        rule.path is None,
        storage_resolution(devices, rule) is Ok,
    ensures
        storage_resolution(devices, rule)->Ok_0.subrange(0, 5) == "/dev/"@,
{
    reveal_strlit("/dev/");
    let r = storage_resolution(devices, rule)->Ok_0;
    let ids = kept_ids(devices, rule.disk_type);
    let k: int = match rule.index {
        Some(k) => k as int,
        None => 0,
    };
    assert(r == dev_path(ids[k]));
    assert(dev_path(ids[k]).subrange(0, 5) =~= "/dev/"@);
}

/// The disk types mean what their names say, on lowercased models: an
/// "nvme" disk is one whose model mentions nvme and nothing else; an "ssd"
/// disk mentions ssd or flash; an "hdd" disk mentions neither nvme nor ssd;
/// any other type accepts every disk.
pub proof fn lemma_disk_type_meaning(model: Seq<char>, disk_type: Seq<char>)
    ensures
        disk_type == "nvme"@ ==> (type_matches(model, disk_type) <==> has_infix(model, "nvme"@)),
        disk_type == "ssd"@ ==> (type_matches(model, disk_type) <==> (has_infix(model, "ssd"@)
            || has_infix(model, "flash"@))),
        disk_type == "hdd"@ ==> (type_matches(model, disk_type) <==> (!has_infix(model, "nvme"@)
            && !has_infix(model, "ssd"@))),
        disk_type != "nvme"@ && disk_type != "ssd"@ && disk_type != "hdd"@ ==> type_matches(
            model,
            disk_type,
        ),
{
    reveal_strlit("nvme");
    reveal_strlit("ssd");
    reveal_strlit("hdd");
    assert("nvme"@ != "ssd"@) by {
        assert("nvme"@.len() != "ssd"@.len());
    }
    assert("nvme"@ != "hdd"@) by {
        assert("nvme"@.len() != "hdd"@.len());
    }
    assert("ssd"@ != "hdd"@) by {
        assert("ssd"@[0] != "hdd"@[0]);
    }
}

/// Every disk that passes a type filter is a reported device that passes it,
/// and the passing disks keep the order in which they were reported.
pub proof fn lemma_kept_ids_origin(devices: Seq<DeviceStatus>, disk_type: Option<String>)
    ensures
        forall|x: int|
            0 <= x < kept_ids(devices, disk_type).len() ==> exists|i: int|
                0 <= i < devices.len() && #[trigger] kept_ids(devices, disk_type)[x]
                    == devices[i].metadata.id@ && device_kept(devices[i], disk_type),
    decreases devices.len(),
{
    if devices.len() > 0 {
        let t = devices.drop_last();
        lemma_kept_ids_origin(t, disk_type);
        let kt = kept_ids(t, disk_type);
        let ka = kept_ids(devices, disk_type);
        assert forall|x: int| 0 <= x < ka.len() implies exists|i: int|
            0 <= i < devices.len() && #[trigger] ka[x] == devices[i].metadata.id@ && device_kept(
                devices[i],
                disk_type,
            ) by {
            if x < kt.len() {
                assert(ka[x] == kt[x]);
                let i = choose|i: int|
                    0 <= i < t.len() && #[trigger] kt[x] == t[i].metadata.id@ && device_kept(
                        t[i],
                        disk_type,
                    );
                assert(t[i] == devices[i]);
            } else {
                assert(ka.len() != kt.len());
                assert(ka[x] == devices[devices.len() - 1].metadata.id@);
            }
        }
    }
}

/// Under an "nvme" rule without an explicit path, the chosen device is a
/// reported device whose lowercased model mentions nvme.
pub proof fn lemma_nvme_rule_picks_nvme(devices: Seq<DeviceStatus>, rule: StorageRule)
    requires
        rule.path is None,
        rule.disk_type matches Some(t) && t@ == "nvme"@,
        storage_resolution(devices, rule) is Ok,
    ensures
        exists|i: int|
            0 <= i < devices.len() && storage_resolution(devices, rule)->Ok_0 == "/dev/"@
                + devices[i].metadata.id@ && has_infix(lowercase(devices[i].spec.model@), "nvme"@),
{
    let ids = kept_ids(devices, rule.disk_type);
    let k: int = match rule.index {
        Some(k) => k as int,
        None => 0,
    };
    lemma_kept_ids_origin(devices, rule.disk_type);
    assert(0 <= k < ids.len());
    let i = choose|i: int|
        0 <= i < devices.len() && #[trigger] ids[k] == devices[i].metadata.id@ && device_kept(
            devices[i],
            rule.disk_type,
        );
    lemma_disk_type_meaning(lowercase(devices[i].spec.model@), "nvme"@);
}

/// A NIC rule resolves exactly when some link carries the rule's interface
/// name, and it resolves to that name.
pub proof fn lemma_nic_resolution_meaning(links: Seq<LinkStatus>, rule: Seq<char>)
    ensures
        nic_resolution(links, rule) is Ok <==> exists|i: int|
            0 <= i < links.len() && #[trigger] links[i].metadata.id@ == rule,
        nic_resolution(links, rule) matches Ok(n) ==> n == rule,
        nic_resolution(links, rule) matches Err(e) ==> e == ResolveError::NicNotFound,
{
    if exists|i: int| 0 <= i < links.len() && #[trigger] links[i].metadata.id@ == rule {
        let i = choose|i: int| 0 <= i < links.len() && #[trigger] links[i].metadata.id@ == rule;
        assert(link_named(rule)(links[i]));
    }
}

/// The ids kept from a prefix of the devices are a prefix of those kept from all.
proof fn lemma_kept_ids_prefix(devices: Seq<DeviceStatus>, disk_type: Option<String>, i: int)
    requires
        0 <= i <= devices.len(),
    ensures
        kept_ids(devices.take(i), disk_type).len() <= kept_ids(devices, disk_type).len(),
        forall|x: int|
            0 <= x < kept_ids(devices.take(i), disk_type).len() ==> #[trigger] kept_ids(
                devices.take(i),
                disk_type,
            )[x] == kept_ids(devices, disk_type)[x],
        i < devices.len() && device_kept(devices[i], disk_type) ==> kept_ids(devices, disk_type)[kept_ids(
            devices.take(i),
            disk_type,
        ).len() as int] == devices[i].metadata.id@ && kept_ids(devices.take(i), disk_type).len()
            < kept_ids(devices, disk_type).len(),
    decreases devices.len() - i,
{
    if i == devices.len() {
        assert(devices.take(i) =~= devices);
    } else {
        lemma_kept_ids_prefix(devices, disk_type, i + 1);
        let a = devices.take(i);
        let b = devices.take(i + 1);
        assert(b.drop_last() =~= a);
        assert(b.last() == devices[i]);
        let ka = kept_ids(a, disk_type);
        let kb = kept_ids(b, disk_type);
        let kall = kept_ids(devices, disk_type);
        if device_kept(devices[i], disk_type) {
            assert(kb == ka.push(devices[i].metadata.id@));
            assert(kb[ka.len() as int] == devices[i].metadata.id@);
            assert(kall[ka.len() as int] == kb[ka.len() as int]);
            assert forall|x: int| 0 <= x < ka.len() implies #[trigger] ka[x] == kall[x] by {
                assert(ka[x] == kb[x]);
                assert(kb[x] == kall[x]);
            }
        } else {
            assert(kb == ka);
        }
    }
}

/// The `k`-th kept id comes from a device that passes the filter with
/// exactly `k` passing devices before it.
proof fn lemma_kth_kept(devices: Seq<DeviceStatus>, disk_type: Option<String>, k: int, i: int)
    requires
        0 <= i <= devices.len(),
        kept_ids(devices.take(i), disk_type).len() <= k < kept_ids(devices, disk_type).len(),
    ensures
        exists|j: int|
            0 <= j < devices.len() && device_kept(devices[j], disk_type) && kept_ids(
                devices.take(j),
                disk_type,
            ).len() == k && #[trigger] kept_ids(devices, disk_type)[k] == devices[j].metadata.id@,
    decreases devices.len() - i,
{
    lemma_kept_ids_prefix(devices, disk_type, i);
    if i == devices.len() {
        assert(devices.take(i) =~= devices);
    } else {
        assert(devices.take(i + 1).drop_last() =~= devices.take(i));
        assert(devices.take(i + 1).last() == devices[i]);
        if device_kept(devices[i], disk_type) && kept_ids(devices.take(i), disk_type).len() == k {
            assert(kept_ids(devices, disk_type)[k] == devices[i].metadata.id@);
        } else {
            lemma_kth_kept(devices, disk_type, k, i + 1);
        }
    }
}

/// A storage rule without an explicit path picks, among the reported devices
/// that pass its type filter, the one at its index (the first by default):
/// the chosen device passes the filter and exactly `index` passing devices
/// come before it.
pub proof fn lemma_storage_picks_indexed_device(devices: Seq<DeviceStatus>, rule: StorageRule)
    requires
        rule.path is None,
        storage_resolution(devices, rule) is Ok,
    ensures
        exists|i: int|
            0 <= i < devices.len() && storage_resolution(devices, rule)->Ok_0 == "/dev/"@
                + devices[i].metadata.id@ && device_kept(devices[i], rule.disk_type) && kept_ids(
                devices.take(i),
                rule.disk_type,
            ).len() == match rule.index {
                Some(k) => k as int,
                None => 0,
            },
{
    let ids = kept_ids(devices, rule.disk_type);
    let k: int = match rule.index {
        Some(k) => k as int,
        None => 0,
    };
    assert(0 <= k < ids.len());
    assert(devices.take(0) =~= Seq::<DeviceStatus>::empty());
    assert(kept_ids(devices.take(0), rule.disk_type) =~= Seq::<Seq<char>>::empty());
    lemma_kth_kept(devices, rule.disk_type, k, 0);
    let i = choose|i: int|
        0 <= i < devices.len() && device_kept(devices[i], rule.disk_type) && kept_ids(
            devices.take(i),
            rule.disk_type,
        ).len() == k && #[trigger] ids[k] == devices[i].metadata.id@;
}

} // verus!
