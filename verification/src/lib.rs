//! Cluster management for Talos Linux metal clusters: machines are recognised
//! by the MAC addresses of their links, and each gets a configuration patch
//! built from its hardware profile.
use vstd::prelude::*;
use vstd::string::*;
use crate::config::{HardwareProfile, NodeConfig, UnyeongConfig};
use crate::find::{is_first, lemma_first_unique, none_satisfy};
use crate::models::{DeviceStatus, LinkStatus};
use crate::resolver::{
    nic_resolution, storage_resolution, text_result, HardwareResolver, ResolveError,
};
use crate::patch::{opt_view, pairs_view, patch_text, render_patch};
use crate::text::{lowercase, to_lowercase, views};
use crate::utils::talosctl_wrapper::push_arg;

pub mod commands;
pub mod config;
pub mod deploy;
pub mod find;
pub mod models;
pub mod nuke;
pub mod patch;
pub mod pki;
pub mod resolver;
pub mod retry;
pub mod scan;
pub mod text;
pub mod utils;

verus! {

broadcast use vstd::string::group_string_axioms;

/// A profile lists `mac` among its MAC addresses (each compared lowercased).
pub open spec fn profile_has_mac(mac: Seq<char>) -> spec_fn(HardwareProfile) -> bool {
    |p: HardwareProfile|
        exists|j: int|
            0 <= j < p.matching_macs@.len() && lowercase(#[trigger] p.matching_macs@[j]@) == mac
}

/// A node follows the profile called `name`.
pub open spec fn node_follows(name: Seq<char>) -> spec_fn(NodeConfig) -> bool {
    |n: NodeConfig| n.profile@ == name
}

/// `(i, k)` is the profile and node chosen for `mac`: the first profile that
/// lists the MAC, and the first node that follows that profile.
pub open spec fn matched_at(cfg: UnyeongConfig, mac: Seq<char>, i: int, k: int) -> bool {
    &&& is_first(cfg.profiles@, profile_has_mac(mac), i)
    &&& is_first(cfg.nodes@, node_follows(cfg.profiles@[i].name@), k)
}

/// Some profile and node are chosen for `mac`.
pub open spec fn has_match(cfg: UnyeongConfig, mac: Seq<char>) -> bool {
    exists|i: int, k: int| matched_at(cfg, mac, i, k)
}

/// A link whose lowercased hardware address has a match.
pub open spec fn link_matches(cfg: UnyeongConfig) -> spec_fn(LinkStatus) -> bool {
    |l: LinkStatus| has_match(cfg, lowercase(l.spec.hardware_addr@))
}

/// Whether `mac` is one of `macs`.
pub fn lists_mac(macs: &[String], mac: &str) -> (r: bool)
    ensures
        r == exists|j: int| 0 <= j < macs@.len() && #[trigger] macs@[j]@ == mac@,
{
    let target = String::from_str(mac);
    let mut j: usize = 0;
    while j < macs.len()
        invariant
            j <= macs.len(),
            target@ == mac@,
            forall|t: int| 0 <= t < j ==> #[trigger] macs@[t]@ != mac@,
        decreases macs.len() - j,
    {
        if macs[j] == target {
            return true;
        }
        j = j + 1;
    }
    false
}

/// Whether `p` lists `mac` among its MAC addresses, each compared lowercased.
pub(crate) fn profile_lists_mac(p: &HardwareProfile, mac: &str) -> (r: bool)
    ensures
        r == profile_has_mac(mac@)(*p),
{
    let mut lowered: Vec<String> = Vec::new();
    let mut j: usize = 0;
    while j < p.matching_macs.len()
        invariant
            j <= p.matching_macs.len(),
            lowered@.len() == j,
            forall|t: int| 0 <= t < j ==> #[trigger] lowered@[t]@ == lowercase(p.matching_macs@[t]@),
        decreases p.matching_macs.len() - j,
    {
        lowered.push(to_lowercase(p.matching_macs[j].as_str()));
        j = j + 1;
    }
    let r = lists_mac(lowered.as_slice(), mac);
    proof {
        if r {
            let j = choose|j: int| 0 <= j < lowered@.len() && #[trigger] lowered@[j]@ == mac@;
            assert(lowercase(p.matching_macs@[j]@) == mac@);
        } else {
            assert forall|t: int| 0 <= t < p.matching_macs@.len() implies lowercase(#[trigger] p.matching_macs@[t]@) != mac@ by {
                assert(lowered@[t]@ != mac@);
            }
        }
    }
    r
}

/// Position of the first profile that lists `mac`.
fn first_profile_with_mac(profiles: &Vec<HardwareProfile>, mac: &str) -> (r: Option<usize>)
    ensures
        r matches Some(i) ==> is_first(profiles@, profile_has_mac(mac@), i as int),
        r is None ==> none_satisfy(profiles@, profile_has_mac(mac@)),
{
    let mut i: usize = 0;
    while i < profiles.len()
        invariant
            i <= profiles.len(),
            forall|j: int| 0 <= j < i ==> !profile_has_mac(mac@)(#[trigger] profiles@[j]),
        decreases profiles.len() - i,
    {
        if profile_lists_mac(&profiles[i], mac) {
            return Some(i);
        }
        i = i + 1;
    }
    None
}

/// Position of the first node that follows the profile called `name`.
fn first_node_following(nodes: &Vec<NodeConfig>, name: &str) -> (r: Option<usize>)
    ensures
        r matches Some(k) ==> is_first(nodes@, node_follows(name@), k as int),
        r is None ==> none_satisfy(nodes@, node_follows(name@)),
{
    let target = String::from_str(name);
    let mut k: usize = 0;
    while k < nodes.len()
        invariant
            k <= nodes.len(),
            target@ == name@,
            forall|t: int| 0 <= t < k ==> !node_follows(name@)(#[trigger] nodes@[t]),
        decreases nodes.len() - k,
    {
        if nodes[k].profile == target {
            return Some(k);
        }
        k = k + 1;
    }
    None
}

/// What generating the patch gives: the install disk and the endpoint
/// interface are resolved (the disk first), and the patch is rendered from them.
pub open spec fn patch_result(
    links: Seq<LinkStatus>,
    devices: Seq<DeviceStatus>,
    profile: HardwareProfile,
    node: NodeConfig,
    all: Seq<(String, String)>,
    ca: Option<Seq<char>>,
) -> Result<Seq<char>, ResolveError> {
    match storage_resolution(devices, profile.storage.os_disk) {
        Err(e) => Err(e),
        Ok(disk) => match nic_resolution(links, profile.network.endpoint_interface@) {
            Err(e) => Err(e),
            Ok(nic) => Ok(patch_text(node.fqdn@, disk, nic, pairs_view(all), ca)),
        },
    }
}

/// The client that runs the `talosctl` command-line tool.
pub struct CliTalosClient;

impl CliTalosClient {
    /// Arguments that patch the configuration `base_path` with the patch file
    /// `patch_path` into `output_path`.
    pub fn patch_config_args(base_path: &str, patch_path: &str, output_path: &str) -> (r: Vec<String>)
        ensures
            views(r@) == seq![
                "machineconfig"@,
                "patch"@,
                base_path@,
                "--patch"@,
                "@"@ + patch_path@,
                "-o"@,
                output_path@,
            ],
    {
        let mut r: Vec<String> = Vec::new();
        push_arg(&mut r, "machineconfig");
        push_arg(&mut r, "patch");
        push_arg(&mut r, base_path);
        push_arg(&mut r, "--patch");
        let at = String::from_str("@").concat(patch_path);
        push_arg(&mut r, at.as_str());
        push_arg(&mut r, "-o");
        push_arg(&mut r, output_path);
        assert(views(r@) =~= seq![
            "machineconfig"@,
            "patch"@,
            base_path@,
            "--patch"@,
            "@"@ + patch_path@,
            "-o"@,
            output_path@,
        ]);
        r
    }
}

/// Where the patch of a node and the configuration made from it are written:
/// under `talos/`, named after the node, marked when only validating.
pub open spec fn artifact_names(fqdn: Seq<char>, validation: bool) -> (Seq<char>, Seq<char>) {
    if validation {
        ("talos/"@ + fqdn + "-validate-patch.yaml"@, "talos/"@ + fqdn + "-validate-final.yaml"@)
    } else {
        ("talos/"@ + fqdn + "-patch.yaml"@, "talos/"@ + fqdn + "-final.yaml"@)
    }
}

/// The files of the patch and of the final configuration of node `fqdn`.
pub fn artifact_paths(fqdn: &str, validation: bool) -> (r: (String, String))
    ensures
        (r.0@, r.1@) == artifact_names(fqdn@, validation),
{
    let base = String::from_str("talos/").concat(fqdn);
    let base2 = String::from_str("talos/").concat(fqdn);
    if validation {
        (base.concat("-validate-patch.yaml"), base2.concat("-validate-final.yaml"))
    } else {
        (base.concat("-patch.yaml"), base2.concat("-final.yaml"))
    }
}

/// The application: the cluster description and the client that talks to the nodes.
pub struct UnyeongApp<C> {
    pub config: UnyeongConfig,
    pub client: C,
}

impl<C> UnyeongApp<C> {
    pub fn new(config: UnyeongConfig, client: C) -> (r: Self)
        ensures
            r.config == config,
            r.client == client,
    {
        Self { config, client }
    }

    /// The profile that lists `mac` first (MACs compared lowercased), and the
    /// first node that follows it.
    pub fn match_profile_and_node<'a>(&'a self, mac: &str) -> (r: Option<
        (&'a HardwareProfile, &'a NodeConfig),
    >)
        ensures
            r is Some <==> has_match(self.config, mac@),
            r matches Some((p, n)) ==> exists|i: int, k: int|
                matched_at(self.config, mac@, i, k) && *p == self.config.profiles@[i] && *n
                    == self.config.nodes@[k],
    {
        let ghost cfg = self.config;
        let i = match first_profile_with_mac(&self.config.profiles, mac) {
            Some(i) => i,
            None => {
                assert forall|a: int, b: int| !matched_at(cfg, mac@, a, b) by {}
                return None;
            },
        };
        let profile = &self.config.profiles[i];
        match first_node_following(&self.config.nodes, profile.name.as_str()) {
            Some(k) => {
                assert(matched_at(cfg, mac@, i as int, k as int));
                Some((profile, &self.config.nodes[k]))
            },
            None => {
                assert forall|a: int, b: int| !matched_at(cfg, mac@, a, b) by {
                    if matched_at(cfg, mac@, a, b) {
                        lemma_first_unique(cfg.profiles@, profile_has_mac(mac@), a, i as int);
                    }
                }
                None
            },
        }
    }

    /// The configuration patch for `node` of `profile`, given what the node
    /// reports, the host entries `all` and the cluster's root CA, if known.
    pub fn generate_patch(
        &self,
        links: &[LinkStatus],
        devices: &[DeviceStatus],
        profile: &HardwareProfile,
        node: &NodeConfig,
        all: &[(String, String)],
        mu_ca: Option<&str>,
    ) -> (r: Result<String, ResolveError>)
        ensures
            text_result(r) == patch_result(links@, devices@, *profile, *node, all@, opt_view(mu_ca)),
    {
        let os_disk = HardwareResolver::resolve_storage(devices, &profile.storage.os_disk)?;
        let nic = HardwareResolver::resolve_nic(links, profile.network.endpoint_interface.as_str())?;
        Ok(render_patch(node.fqdn.as_str(), os_disk.as_str(), nic.as_str(), all, mu_ca))
    }

    /// The match of the first link whose (lowercased) hardware address has one.
    pub fn match_links<'a>(&'a self, links: &[LinkStatus]) -> (r: Option<
        (&'a HardwareProfile, &'a NodeConfig),
    >)
        ensures
            r is Some <==> !none_satisfy(links@, link_matches(self.config)),
            r matches Some((p, n)) ==> exists|t: int, i: int, k: int|
                is_first(links@, link_matches(self.config), t) && matched_at(
                    self.config,
                    lowercase(links@[t].spec.hardware_addr@),
                    i,
                    k,
                ) && *p == self.config.profiles@[i] && *n == self.config.nodes@[k],
    {
        let mut t: usize = 0;
        while t < links.len()
            invariant
                t <= links.len(),
                forall|j: int| 0 <= j < t ==> !link_matches(self.config)(#[trigger] links@[j]),
            decreases links.len() - t,
        {
            let mac = to_lowercase(links[t].spec.hardware_addr.as_str());
            if let Some(pn) = self.match_profile_and_node(mac.as_str()) {
                assert(link_matches(self.config)(links@[t as int]));
                assert(is_first(links@, link_matches(self.config), t as int));
                return Some(pn);
            }
            t = t + 1;
        }
        None
    }
}

} // verus!
