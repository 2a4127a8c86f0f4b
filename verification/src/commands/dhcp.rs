//! Host-file entries for the cluster: which node each discovered address
//! belongs to, grouped by node name.
use vstd::prelude::*;
use vstd::string::*;
use crate::config::{HardwareProfile, NodeConfig, UnyeongConfig};
use crate::find::{is_first, lemma_first_exists, lemma_first_unique, none_satisfy};
use crate::models::LinkStatus;
use crate::{link_matches, matched_at, node_follows, profile_has_mac};
use crate::profile_lists_mac;
use crate::text::{
    insert_sorted, lemma_strictly_sorted_no_repeats, lowercase, strictly_sorted, to_lowercase, views,
};

verus! {

broadcast use vstd::string::group_string_axioms;

/// The DHCP host-list command.
pub struct DhcpCommand;

/// The addresses found for one node name, in increasing order and without repetition.
pub struct HostGroup {
    pub fqdn: String,
    pub ips: Vec<String>,
}

/// A profile is called `name`.
pub open spec fn profile_named(name: Seq<char>) -> spec_fn(HardwareProfile) -> bool {
    |p: HardwareProfile| p.name@ == name
}

/// A node claims `mac`: the first profile that carries the node's profile
/// name lists the MAC (compared lowercased).
pub open spec fn node_claims(cfg: UnyeongConfig, mac: Seq<char>) -> spec_fn(NodeConfig) -> bool {
    |n: NodeConfig|
        exists|i: int|
            is_first(cfg.profiles@, profile_named(n.profile@), i) && profile_has_mac(mac)(
                cfg.profiles@[i],
            )
}

/// Some node claims the lowercased hardware address of a link.
pub open spec fn link_claimed(cfg: UnyeongConfig) -> spec_fn(LinkStatus) -> bool {
    |l: LinkStatus| !none_satisfy(cfg.nodes@, node_claims(cfg, lowercase(l.spec.hardware_addr@)))
}

/// Node `k` is the one that a machine with the links `links` belongs to:
/// `t` is the first link that some node claims, and `k` the first node that claims it.
pub open spec fn claimed_at(cfg: UnyeongConfig, links: Seq<LinkStatus>, t: int, k: int) -> bool {
    &&& is_first(links, link_claimed(cfg), t)
    &&& is_first(cfg.nodes@, node_claims(cfg, lowercase(links[t].spec.hardware_addr@)), k)
}

/// The name of the node that a machine with the links `links` belongs to, if any.
pub open spec fn claimed_fqdn(cfg: UnyeongConfig, links: Seq<LinkStatus>) -> Option<Seq<char>> {
    if exists|t: int, k: int| claimed_at(cfg, links, t, k) {
        let (t, k) = choose|t: int, k: int| claimed_at(cfg, links, t, k);
        Some(cfg.nodes@[k].fqdn@)
    } else {
        None
    }
}

/// The address `ip` was observed with links that belong to the node called `fqdn`.
pub open spec fn observed_for(
    cfg: UnyeongConfig,
    obs: Seq<(String, Vec<LinkStatus>)>,
    ip: Seq<char>,
    fqdn: Seq<char>,
) -> bool {
    exists|i: int|
        0 <= i < obs.len() && #[trigger] obs[i].0@ == ip && claimed_fqdn(cfg, obs[i].1@) == Some(
            fqdn,
        )
}

/// Some observation belongs to the node called `fqdn`.
pub open spec fn fqdn_observed(cfg: UnyeongConfig, obs: Seq<(String, Vec<LinkStatus>)>, fqdn: Seq<char>) -> bool {
    exists|i: int| 0 <= i < obs.len() && claimed_fqdn(cfg, #[trigger] obs[i].1@) == Some(fqdn)
}

/// `groups` is the grouping of the observations `obs` by node name: one group
/// per name, holding, in increasing order, the addresses observed for it.
pub open spec fn is_grouping(
    cfg: UnyeongConfig,
    obs: Seq<(String, Vec<LinkStatus>)>,
    groups: Seq<HostGroup>,
) -> bool {
    &&& forall|a: int, b: int|
        0 <= a < b < groups.len() ==> #[trigger] groups[a].fqdn@ != #[trigger] groups[b].fqdn@
    &&& forall|g: int| 0 <= g < groups.len() ==> strictly_sorted(views(#[trigger] groups[g].ips@))
    &&& forall|g: int, ip: Seq<char>|
        0 <= g < groups.len() ==> (#[trigger] views(groups[g].ips@).contains(ip) <==> observed_for(
            cfg,
            obs,
            ip,
            groups[g].fqdn@,
        ))
    &&& forall|g: int| 0 <= g < groups.len() ==> fqdn_observed(cfg, obs, #[trigger] groups[g].fqdn@)
    &&& forall|i: int|
        0 <= i < obs.len() && claimed_fqdn(cfg, #[trigger] obs[i].1@) is Some ==> exists|g: int|
            0 <= g < groups.len() && Some(#[trigger] groups[g].fqdn@) == claimed_fqdn(cfg, obs[i].1@)
}

/// Position of the first profile called `name`.
fn first_profile_named(profiles: &Vec<HardwareProfile>, name: &String) -> (r: Option<usize>)
    ensures
        r matches Some(i) ==> is_first(profiles@, profile_named(name@), i as int),
        r is None ==> none_satisfy(profiles@, profile_named(name@)),
{
    let mut i: usize = 0;
    while i < profiles.len()
        invariant
            i <= profiles.len(),
            forall|j: int| 0 <= j < i ==> !profile_named(name@)(#[trigger] profiles@[j]),
        decreases profiles.len() - i,
    {
        if profiles[i].name == *name {
            return Some(i);
        }
        i = i + 1;
    }
    None
}

/// Whether `node` claims `mac`.
fn node_claims_mac(cfg: &UnyeongConfig, node: &NodeConfig, mac: &str) -> (r: bool)
    ensures
        r == node_claims(*cfg, mac@)(*node),
{
    match first_profile_named(&cfg.profiles, &node.profile) {
        Some(i) => {
            let r = profile_lists_mac(&cfg.profiles[i], mac);
            proof {
                if !r {
                    assert forall|a: int|
                        is_first(cfg.profiles@, profile_named(node.profile@), a) implies !profile_has_mac(mac@)(cfg.profiles@[a]) by {
                        lemma_first_unique(cfg.profiles@, profile_named(node.profile@), a, i as int);
                    }
                }
            }
            r
        },
        None => false,
    }
}

/// Position of the first node that claims `mac`.
fn first_node_claiming(cfg: &UnyeongConfig, mac: &str) -> (r: Option<usize>)
    ensures
        r matches Some(k) ==> is_first(cfg.nodes@, node_claims(*cfg, mac@), k as int),
        r is None ==> none_satisfy(cfg.nodes@, node_claims(*cfg, mac@)),
{
    let mut k: usize = 0;
    while k < cfg.nodes.len()
        invariant
            k <= cfg.nodes.len(),
            forall|j: int| 0 <= j < k ==> !node_claims(*cfg, mac@)(#[trigger] cfg.nodes@[j]),
        decreases cfg.nodes.len() - k,
    {
        if node_claims_mac(cfg, &cfg.nodes[k], mac) {
            return Some(k);
        }
        k = k + 1;
    }
    None
}

proof fn lemma_claimed_fqdn(cfg: UnyeongConfig, links: Seq<LinkStatus>, t: int, k: int)
    requires
        claimed_at(cfg, links, t, k),
    ensures
        claimed_fqdn(cfg, links) == Some(cfg.nodes@[k].fqdn@),
{
    let (t2, k2) = choose|t2: int, k2: int| claimed_at(cfg, links, t2, k2);
    lemma_first_unique(links, link_claimed(cfg), t, t2);
    lemma_first_unique(
        cfg.nodes@,
        node_claims(cfg, lowercase(links[t].spec.hardware_addr@)),
        k,
        k2,
    );
}

impl DhcpCommand {
    /// The node that a machine with the links `links` belongs to: the first
    /// node that claims the first link some node claims.
    pub fn claiming_node<'a>(config: &'a UnyeongConfig, links: &[LinkStatus]) -> (r: Option<
        &'a NodeConfig,
    >)
        ensures
            r is Some <==> claimed_fqdn(*config, links@) is Some,
            r matches Some(n) ==> claimed_fqdn(*config, links@) == Some(n.fqdn@) && exists|t: int, k: int|
                claimed_at(*config, links@, t, k) && *n == config.nodes@[k],
    {
        let mut t: usize = 0;
        while t < links.len()
            invariant
                t <= links.len(),
                forall|j: int| 0 <= j < t ==> !link_claimed(*config)(#[trigger] links@[j]),
            decreases links.len() - t,
        {
            let mac = to_lowercase(links[t].spec.hardware_addr.as_str());
            if let Some(k) = first_node_claiming(config, mac.as_str()) {
                proof {
                    assert(link_claimed(*config)(links@[t as int]));
                    assert(claimed_at(*config, links@, t as int, k as int));
                    lemma_claimed_fqdn(*config, links@, t as int, k as int);
                }
                return Some(&config.nodes[k]);
            }
            t = t + 1;
        }
        assert forall|a: int, b: int| !claimed_at(*config, links@, a, b) by {}
        None
    }
}

proof fn lemma_observed_step(cfg: UnyeongConfig, obs: Seq<(String, Vec<LinkStatus>)>, i: int)
    requires
        0 <= i < obs.len(),
    ensures
        forall|ip: Seq<char>, f: Seq<char>|
            #[trigger] observed_for(cfg, obs.subrange(0, i + 1), ip, f) == (observed_for(
                cfg,
                obs.subrange(0, i),
                ip,
                f,
            ) || (ip == obs[i].0@ && claimed_fqdn(cfg, obs[i].1@) == Some(f))),
        forall|f: Seq<char>|
            #[trigger] fqdn_observed(cfg, obs.subrange(0, i + 1), f) == (fqdn_observed(
                cfg,
                obs.subrange(0, i),
                f,
            ) || claimed_fqdn(cfg, obs[i].1@) == Some(f)),
{
    let a = obs.subrange(0, i);
    let b = obs.subrange(0, i + 1);
    assert forall|ip: Seq<char>, f: Seq<char>|
        #[trigger] observed_for(cfg, b, ip, f) == (observed_for(cfg, a, ip, f) || (ip
            == obs[i].0@ && claimed_fqdn(cfg, obs[i].1@) == Some(f))) by {
        if observed_for(cfg, b, ip, f) {
            let j = choose|j: int|
                0 <= j < b.len() && #[trigger] b[j].0@ == ip && claimed_fqdn(cfg, b[j].1@) == Some(f);
            if j < i {
                assert(a[j] == b[j]);
            }
        }
        if observed_for(cfg, a, ip, f) {
            let j = choose|j: int|
                0 <= j < a.len() && #[trigger] a[j].0@ == ip && claimed_fqdn(cfg, a[j].1@) == Some(f);
            assert(a[j] == b[j]);
        }
        if ip == obs[i].0@ && claimed_fqdn(cfg, obs[i].1@) == Some(f) {
            assert(b[i] == obs[i]);
        }
    }
    assert forall|f: Seq<char>|
        #[trigger] fqdn_observed(cfg, b, f) == (fqdn_observed(cfg, a, f) || claimed_fqdn(
            cfg,
            obs[i].1@,
        ) == Some(f)) by {
        if fqdn_observed(cfg, b, f) {
            let j = choose|j: int| 0 <= j < b.len() && claimed_fqdn(cfg, #[trigger] b[j].1@) == Some(f);
            if j < i {
                assert(a[j] == b[j]);
            }
        }
        if fqdn_observed(cfg, a, f) {
            let j = choose|j: int| 0 <= j < a.len() && claimed_fqdn(cfg, #[trigger] a[j].1@) == Some(f);
            assert(a[j] == b[j]);
        }
        if claimed_fqdn(cfg, obs[i].1@) == Some(f) {
            assert(b[i] == obs[i]);
        }
    }
}

/// Position of the group called `fqdn`.
fn find_group(groups: &Vec<HostGroup>, fqdn: &String) -> (r: Option<usize>)
    ensures
        r matches Some(g) ==> g < groups.len() && groups@[g as int].fqdn@ == fqdn@,
        r is None ==> forall|g: int| 0 <= g < groups.len() ==> #[trigger] groups@[g].fqdn@ != fqdn@,
{
    let mut g: usize = 0;
    while g < groups.len()
        invariant
            g <= groups.len(),
            forall|j: int| 0 <= j < g ==> #[trigger] groups@[j].fqdn@ != fqdn@,
        decreases groups.len() - g,
    {
        if groups[g].fqdn == *fqdn {
            return Some(g);
        }
        g = g + 1;
    }
    None
}

impl DhcpCommand {
    /// Groups the observed addresses by the node they belong to. Each
    /// observation pairs an address with the links seen there (none when
    /// they could not be read).
    pub fn group_hosts(config: &UnyeongConfig, observations: &[(String, Vec<LinkStatus>)]) -> (groups: Vec<HostGroup>)
        ensures
            is_grouping(*config, observations@, groups@),
    {
        let ghost cfg = *config;
        let ghost obs = observations@;
        let mut groups: Vec<HostGroup> = Vec::new();
        let mut i: usize = 0;
        while i < observations.len()
            invariant
                i <= observations.len(),
                cfg == *config,
                obs == observations@,
                is_grouping(cfg, obs.subrange(0, i as int), groups@),
            decreases observations.len() - i,
        {
            proof {
                lemma_observed_step(cfg, obs, i as int);
            }
            let ghost pre = obs.subrange(0, i as int);
            let ghost post = obs.subrange(0, i + 1);
            let ghost old_groups = groups@;
            let ip = &observations[i].0;
            match Self::claiming_node(config, observations[i].1.as_slice()) {
                None => {
                    assert forall|f: Seq<char>| #[trigger] fqdn_observed(cfg, post, f) == fqdn_observed(cfg, pre, f) by {}
                    assert forall|x: int|
                        0 <= x < post.len() && claimed_fqdn(cfg, #[trigger] post[x].1@) is Some implies exists|g: int|
                            0 <= g < groups@.len() && Some(#[trigger] groups@[g].fqdn@) == claimed_fqdn(cfg, post[x].1@) by {
                        assert(x < i);
                        assert(pre[x] == post[x]);
                    }
                },
                Some(node) => {
                    let ghost f = node.fqdn@;
                    match find_group(&groups, &node.fqdn) {
                        Some(g) => {
                            let old = groups.remove(g);
                            let mut ips = old.ips;
                            insert_sorted(&mut ips, ip.clone());
                            groups.insert(g, HostGroup { fqdn: old.fqdn, ips });
                            proof {
                                let ng = groups@;
                                assert forall|x: int| 0 <= x < ng.len() && x != g implies #[trigger] ng[x] == old_groups[x] by {}
                                assert(ng[g as int].fqdn@ == f);
                                assert forall|a: int, b: int|
                                    0 <= a < b < ng.len() implies #[trigger] ng[a].fqdn@ != #[trigger] ng[b].fqdn@ by {
                                    assert(old_groups[a].fqdn@ != old_groups[b].fqdn@);
                                }
                                assert forall|x: int, s: Seq<char>|
                                    0 <= x < ng.len() implies (#[trigger] views(ng[x].ips@).contains(s)
                                        <==> observed_for(cfg, post, s, ng[x].fqdn@)) by {
                                    if x != g {
                                        assert(old_groups[x].fqdn@ != f);
                                    }
                                }
                                assert forall|x: int| 0 <= x < post.len() && claimed_fqdn(cfg, #[trigger] post[x].1@) is Some implies exists|y: int|
                                    0 <= y < ng.len() && Some(#[trigger] ng[y].fqdn@) == claimed_fqdn(cfg, post[x].1@) by {
                                    if x < i {
                                        assert(pre[x] == post[x]);
                                        let y = choose|y: int| 0 <= y < old_groups.len() && Some(#[trigger] old_groups[y].fqdn@) == claimed_fqdn(cfg, pre[x].1@);
                                        assert(ng[y].fqdn@ == old_groups[y].fqdn@);
                                    } else {
                                        assert(post[x] == obs[i as int]);
                                        assert(Some(ng[g as int].fqdn@) == claimed_fqdn(cfg, post[x].1@));
                                    }
                                }
                            }
                        },
                        None => {
                            let mut ips: Vec<String> = Vec::new();
                            ips.push(ip.clone());
                            groups.push(HostGroup { fqdn: node.fqdn.clone(), ips });
                            proof {
                                let ng = groups@;
                                let last = ng.len() - 1;
                                assert forall|x: int| 0 <= x < last implies #[trigger] ng[x] == old_groups[x] by {}
                                assert(ng[last].fqdn@ == f);
                                assert(views(ng[last].ips@) =~= seq![ip@]);
                                assert forall|a: int, b: int|
                                    0 <= a < b < ng.len() implies #[trigger] ng[a].fqdn@ != #[trigger] ng[b].fqdn@ by {
                                    if b < last {
                                        assert(old_groups[a].fqdn@ != old_groups[b].fqdn@);
                                    } else {
                                        assert(old_groups[a].fqdn@ != f);
                                    }
                                }
                                assert forall|x: int| 0 <= x < ng.len() implies strictly_sorted(views(#[trigger] ng[x].ips@)) by {
                                    if x < last {
                                        assert(ng[x] == old_groups[x]);
                                    }
                                }
                                assert forall|x: int, s: Seq<char>|
                                    0 <= x < ng.len() implies (#[trigger] views(ng[x].ips@).contains(s)
                                        <==> observed_for(cfg, post, s, ng[x].fqdn@)) by {
                                    if x < last {
                                        assert(ng[x] == old_groups[x]);
                                        assert(old_groups[x].fqdn@ != f);
                                    } else {
                                        if observed_for(cfg, pre, s, f) {
                                            let j = choose|j: int| 0 <= j < pre.len() && #[trigger] pre[j].0@ == s && claimed_fqdn(cfg, pre[j].1@) == Some(f);
                                            let y = choose|y: int| 0 <= y < old_groups.len() && Some(#[trigger] old_groups[y].fqdn@) == claimed_fqdn(cfg, pre[j].1@);
                                            assert(false);
                                        }
                                        if views(ng[x].ips@).contains(s) {
                                            assert(views(ng[x].ips@)[0] == s);
                                        }
                                        if s == ip@ {
                                            assert(views(ng[x].ips@)[0] == s);
                                        }
                                    }
                                }
                                assert forall|x: int| 0 <= x < ng.len() implies fqdn_observed(cfg, post, #[trigger] ng[x].fqdn@) by {
                                    if x < last {
                                        assert(ng[x] == old_groups[x]);
                                    }
                                }
                                assert forall|x: int| 0 <= x < post.len() && claimed_fqdn(cfg, #[trigger] post[x].1@) is Some implies exists|y: int|
                                    0 <= y < ng.len() && Some(#[trigger] ng[y].fqdn@) == claimed_fqdn(cfg, post[x].1@) by {
                                    if x < i {
                                        assert(pre[x] == post[x]);
                                        let y = choose|y: int| 0 <= y < old_groups.len() && Some(#[trigger] old_groups[y].fqdn@) == claimed_fqdn(cfg, pre[x].1@);
                                        assert(ng[y] == old_groups[y]);
                                    } else {
                                        assert(post[x] == obs[i as int]);
                                        assert(Some(ng[last].fqdn@) == claimed_fqdn(cfg, post[x].1@));
                                    }
                                }
                            }
                        },
                    }
                },
            }
            i = i + 1;
        }
        assert(obs.subrange(0, observations.len() as int) =~= obs);
        groups
    }
}

/// One line of the host list.
pub open spec fn host_line(ip: Seq<char>, fqdn: Seq<char>, first: bool) -> Seq<char> {
    ip + "    "@ + fqdn + if first {
        " kube.jero-mu.talos.local"@
    } else {
        seq![]
    }
}

/// The lines of one group: its first address also names the cluster's API host.
pub open spec fn group_lines(fqdn: Seq<char>, ips: Seq<Seq<char>>) -> Seq<Seq<char>> {
    Seq::new(ips.len(), |j: int| host_line(ips[j], fqdn, j == 0))
}

/// The lines of all groups, in their order.
pub open spec fn groups_lines(groups: Seq<HostGroup>) -> Seq<Seq<char>>
    decreases groups.len(),
{
    if groups.len() == 0 {
        seq![]
    } else {
        groups_lines(groups.drop_last()) + group_lines(
            groups.last().fqdn@,
            views(groups.last().ips@),
        )
    }
}

/// The whole host list, between its opening and closing marks.
pub open spec fn hosts_listing(groups: Seq<HostGroup>) -> Seq<Seq<char>> {
    seq!["# --- talos.local ---"@] + groups_lines(groups) + seq!["# --- end talos.local ---"@]
}

impl DhcpCommand {
    /// The host list for the given groups, line by line.
    pub fn render(groups: &[HostGroup]) -> (lines: Vec<String>)
        ensures
            views(lines@) == hosts_listing(groups@),
    {
        let mut lines: Vec<String> = Vec::new();
        lines.push(String::from_str("# --- talos.local ---"));
        let mut g: usize = 0;
        assert(groups@.subrange(0, 0) =~= Seq::<HostGroup>::empty());
        assert(views(lines@) =~= seq!["# --- talos.local ---"@]);
        while g < groups.len()
            invariant
                g <= groups.len(),
                views(lines@) == seq!["# --- talos.local ---"@] + groups_lines(
                    groups@.subrange(0, g as int),
                ),
            decreases groups.len() - g,
        {
            let grp = &groups[g];
            let ghost before = views(lines@);
            let ghost gl = group_lines(grp.fqdn@, views(grp.ips@));
            let mut j: usize = 0;
            while j < grp.ips.len()
                invariant
                    j <= grp.ips.len(),
                    gl == group_lines(grp.fqdn@, views(grp.ips@)),
                    views(lines@) == before + gl.subrange(0, j as int),
                decreases grp.ips.len() - j,
            {
                let mut line = grp.ips[j].clone();
                line.append("    ");
                line.append(grp.fqdn.as_str());
                if j == 0 {
                    line.append(" kube.jero-mu.talos.local");
                }
                let ghost prev = views(lines@);
                lines.push(line);
                assert(views(lines@) =~= prev.push(line@));
                assert(line@ =~= gl[j as int]);
                assert(gl.subrange(0, j + 1) =~= gl.subrange(0, j as int).push(gl[j as int]));
                j = j + 1;
            }
            assert(gl.subrange(0, grp.ips@.len() as int) =~= gl);
            assert(groups@.subrange(0, g + 1).drop_last() =~= groups@.subrange(0, g as int));
            g = g + 1;
        }
        assert(groups@.subrange(0, groups.len() as int) =~= groups@);
        let ghost prev = views(lines@);
        lines.push(String::from_str("# --- end talos.local ---"));
        assert(views(lines@) =~= prev.push("# --- end talos.local ---"@));
        lines
    }
}

/// In a grouping, every node name appears once and every address appears at
/// most once under a node name.
pub proof fn lemma_grouping_lists_once(
    cfg: UnyeongConfig,
    obs: Seq<(String, Vec<LinkStatus>)>,
    groups: Seq<HostGroup>,
)
    requires
        is_grouping(cfg, obs, groups),
    ensures
        forall|a: int, b: int|
            0 <= a < b < groups.len() ==> #[trigger] groups[a].fqdn@ != #[trigger] groups[b].fqdn@,
        forall|g: int, x: int, y: int|
            0 <= g < groups.len() && 0 <= x < y < groups[g].ips@.len() ==> #[trigger] views(
                groups[g].ips@,
            )[x] != #[trigger] views(groups[g].ips@)[y],
{
    assert forall|g: int, x: int, y: int|
        0 <= g < groups.len() && 0 <= x < y < groups[g].ips@.len() implies #[trigger] views(
            groups[g].ips@,
        )[x] != #[trigger] views(groups[g].ips@)[y] by {
        lemma_strictly_sorted_no_repeats(views(groups[g].ips@));
    }
}

/// A node claims a MAC exactly when the first profile carrying the node's
/// profile name lists the MAC among its (lowercased) MAC addresses.
pub proof fn lemma_node_claims_meaning(cfg: UnyeongConfig, mac: Seq<char>, n: NodeConfig)
    ensures
        node_claims(cfg, mac)(n) <==> exists|i: int|
            0 <= i < cfg.profiles@.len() && #[trigger] cfg.profiles@[i].name@ == n.profile@ && (
            forall|a: int| 0 <= a < i ==> cfg.profiles@[a].name@ != n.profile@) && exists|j: int|
                0 <= j < cfg.profiles@[i].matching_macs@.len() && lowercase(
                    cfg.profiles@[i].matching_macs@[j]@,
                ) == mac,
{
    if node_claims(cfg, mac)(n) {
        let i = choose|i: int|
            is_first(cfg.profiles@, profile_named(n.profile@), i) && profile_has_mac(mac)(
                cfg.profiles@[i],
            );
        assert forall|a: int| 0 <= a < i implies cfg.profiles@[a].name@ != n.profile@ by {
            assert(!profile_named(n.profile@)(cfg.profiles@[a]));
        }
        assert(cfg.profiles@[i].name@ == n.profile@);
    }
    if exists|i: int|
        0 <= i < cfg.profiles@.len() && #[trigger] cfg.profiles@[i].name@ == n.profile@ && (
        forall|a: int| 0 <= a < i ==> cfg.profiles@[a].name@ != n.profile@) && exists|j: int|
            0 <= j < cfg.profiles@[i].matching_macs@.len() && lowercase(
                cfg.profiles@[i].matching_macs@[j]@,
            ) == mac {
        let i = choose|i: int|
            0 <= i < cfg.profiles@.len() && #[trigger] cfg.profiles@[i].name@ == n.profile@ && (
            forall|a: int| 0 <= a < i ==> cfg.profiles@[a].name@ != n.profile@) && exists|j: int|
                0 <= j < cfg.profiles@[i].matching_macs@.len() && lowercase(
                    cfg.profiles@[i].matching_macs@[j]@,
                ) == mac;
        assert forall|a: int| 0 <= a < i implies !profile_named(n.profile@)(#[trigger] cfg.profiles@[a]) by {}
        assert(is_first(cfg.profiles@, profile_named(n.profile@), i));
        let j = choose|j: int|
            0 <= j < cfg.profiles@[i].matching_macs@.len() && lowercase(
                cfg.profiles@[i].matching_macs@[j]@,
            ) == mac;
        assert(lowercase(cfg.profiles@[i].matching_macs@[j]@) == mac);
        assert(profile_has_mac(mac)(cfg.profiles@[i]));
    }
}

/// The node an address is listed under is found from the first link that
/// some node claims, and it is the first node, in configuration order, that
/// claims that link's MAC; no name is found when no node claims any link.
pub proof fn lemma_claimed_node_is_first(cfg: UnyeongConfig, links: Seq<LinkStatus>)
    ensures
        claimed_fqdn(cfg, links) matches Some(f) ==> exists|t: int, k: int|
            0 <= t < links.len() && 0 <= k < cfg.nodes@.len() && f == cfg.nodes@[k].fqdn@
                && node_claims(cfg, lowercase(links[t].spec.hardware_addr@))(cfg.nodes@[k])
                && (forall|j: int|
                0 <= j < k ==> !node_claims(cfg, lowercase(links[t].spec.hardware_addr@))(
                    #[trigger] cfg.nodes@[j],
                )) && (forall|s: int, j: int|
                #![trigger links[s], cfg.nodes@[j]]
                0 <= s < t && 0 <= j < cfg.nodes@.len() ==> !node_claims(
                    cfg,
                    lowercase(links[s].spec.hardware_addr@),
                )(cfg.nodes@[j])),
        claimed_fqdn(cfg, links) is None <==> forall|s: int, j: int|
            #![trigger links[s], cfg.nodes@[j]]
            0 <= s < links.len() && 0 <= j < cfg.nodes@.len() ==> !node_claims(
                cfg,
                lowercase(links[s].spec.hardware_addr@),
            )(cfg.nodes@[j]),
{
    if claimed_fqdn(cfg, links) is Some {
        let (t, k) = choose|t: int, k: int| claimed_at(cfg, links, t, k);
        assert forall|s: int, j: int|
            #![trigger links[s], cfg.nodes@[j]]
            0 <= s < t && 0 <= j < cfg.nodes@.len() implies !node_claims(
                cfg,
                lowercase(links[s].spec.hardware_addr@),
            )(cfg.nodes@[j]) by {
            assert(!link_claimed(cfg)(links[s]));
        }
        let mac = lowercase(links[t].spec.hardware_addr@);
        assert forall|j: int| 0 <= j < k implies !node_claims(cfg, mac)(#[trigger] cfg.nodes@[j]) by {}
        let s = t;
        let j = k;
        assert(links[s] == links[t]);
    } else {
        lemma_first_exists(links, link_claimed(cfg));
        assert forall|s: int, j: int|
            #![trigger links[s], cfg.nodes@[j]]
            0 <= s < links.len() && 0 <= j < cfg.nodes@.len() implies !node_claims(
                cfg,
                lowercase(links[s].spec.hardware_addr@),
            )(cfg.nodes@[j]) by {
            if exists|t: int| is_first(links, link_claimed(cfg), t) {
                let t = choose|t: int| is_first(links, link_claimed(cfg), t);
                let mac = lowercase(links[t].spec.hardware_addr@);
                lemma_first_exists(cfg.nodes@, node_claims(cfg, mac));
                let k = choose|k: int| is_first(cfg.nodes@, node_claims(cfg, mac), k);
                assert(claimed_at(cfg, links, t, k));
            }
            assert(!link_claimed(cfg)(links[s]));
        }
    }
    if forall|s: int, j: int|
        #![trigger links[s], cfg.nodes@[j]]
        0 <= s < links.len() && 0 <= j < cfg.nodes@.len() ==> !node_claims(
            cfg,
            lowercase(links[s].spec.hardware_addr@),
        )(cfg.nodes@[j]) {
        assert forall|t: int, k: int| !claimed_at(cfg, links, t, k) by {
            if claimed_at(cfg, links, t, k) {
                assert(links[t] == links[t]);
                assert(cfg.nodes@[k] == cfg.nodes@[k]);
            }
        }
    }
}

/// No two profiles carry the same name.
pub open spec fn unique_profile_names(cfg: UnyeongConfig) -> bool {
    forall|a: int, b: int|
        0 <= a < b < cfg.profiles@.len() ==> #[trigger] cfg.profiles@[a].name@
            != #[trigger] cfg.profiles@[b].name@
}

/// No MAC is listed by two profiles.
pub open spec fn macs_listed_once(cfg: UnyeongConfig) -> bool {
    forall|m: Seq<char>, a: int, b: int|
        #![trigger profile_has_mac(m)(cfg.profiles@[a]), profile_has_mac(m)(cfg.profiles@[b])]
        0 <= a < cfg.profiles@.len() && 0 <= b < cfg.profiles@.len() && profile_has_mac(m)(
            cfg.profiles@[a],
        ) && profile_has_mac(m)(cfg.profiles@[b]) ==> a == b
}

/// With unique profile names, a node claims a MAC exactly when the profile it
/// follows lists the MAC.
proof fn lemma_claims_by_followed_profile(cfg: UnyeongConfig, mac: Seq<char>, n: NodeConfig)
    requires
        unique_profile_names(cfg),
    ensures
        node_claims(cfg, mac)(n) <==> exists|a: int|
            0 <= a < cfg.profiles@.len() && #[trigger] profile_has_mac(mac)(cfg.profiles@[a])
                && cfg.profiles@[a].name@ == n.profile@,
{
    if exists|a: int|
        0 <= a < cfg.profiles@.len() && #[trigger] profile_has_mac(mac)(cfg.profiles@[a])
            && cfg.profiles@[a].name@ == n.profile@ {
        let a = choose|a: int|
            0 <= a < cfg.profiles@.len() && #[trigger] profile_has_mac(mac)(cfg.profiles@[a])
                && cfg.profiles@[a].name@ == n.profile@;
        assert forall|b: int| 0 <= b < a implies !profile_named(n.profile@)(#[trigger] cfg.profiles@[b]) by {
            assert(cfg.profiles@[b].name@ != cfg.profiles@[a].name@);
        }
        assert(is_first(cfg.profiles@, profile_named(n.profile@), a));
    }
}

/// With unique profile names and every MAC listed by at most one profile,
/// the host list names each machine after the node that deployment
/// configures for it: the node matched for the first link that has a match.
pub proof fn lemma_dhcp_agrees_with_deploy(
    cfg: UnyeongConfig,
    links: Seq<LinkStatus>,
    t: int,
    i: int,
    k: int,
)
    requires
        unique_profile_names(cfg),
        macs_listed_once(cfg),
        is_first(links, link_matches(cfg), t),
        matched_at(cfg, lowercase(links[t].spec.hardware_addr@), i, k),
    ensures
        claimed_fqdn(cfg, links) == Some(cfg.nodes@[k].fqdn@),
{
    // A link is claimed by some node exactly when it has a match.
    assert forall|s: int| 0 <= s < links.len() implies (link_claimed(cfg)(#[trigger] links[s])
        <==> link_matches(cfg)(links[s])) by {
        let m = lowercase(links[s].spec.hardware_addr@);
        if link_matches(cfg)(links[s]) {
            let (a, c) = choose|a: int, c: int| matched_at(cfg, m, a, c);
            lemma_claims_by_followed_profile(cfg, m, cfg.nodes@[c]);
            assert(node_claims(cfg, m)(cfg.nodes@[c]));
        }
        if link_claimed(cfg)(links[s]) {
            let c = choose|c: int| 0 <= c < cfg.nodes@.len() && node_claims(cfg, m)(#[trigger] cfg.nodes@[c]);
            lemma_claims_by_followed_profile(cfg, m, cfg.nodes@[c]);
            let a = choose|a: int|
                0 <= a < cfg.profiles@.len() && #[trigger] profile_has_mac(m)(cfg.profiles@[a])
                    && cfg.profiles@[a].name@ == cfg.nodes@[c].profile@;
            lemma_first_exists(cfg.profiles@, profile_has_mac(m));
            let a0 = choose|a0: int| is_first(cfg.profiles@, profile_has_mac(m), a0);
            assert(a0 == a);
            assert(node_follows(cfg.profiles@[a].name@)(cfg.nodes@[c]));
            lemma_first_exists(cfg.nodes@, node_follows(cfg.profiles@[a].name@));
            let c0 = choose|c0: int| is_first(cfg.nodes@, node_follows(cfg.profiles@[a].name@), c0);
            assert(matched_at(cfg, m, a, c0));
        }
    }
    assert forall|s: int| 0 <= s < t implies !link_claimed(cfg)(#[trigger] links[s]) by {
        assert(!link_matches(cfg)(links[s]));
    }
    assert(link_claimed(cfg)(links[t]));
    assert(is_first(links, link_claimed(cfg), t));
    // The first node that claims the MAC is the one matched for it.
    let mac = lowercase(links[t].spec.hardware_addr@);
    lemma_claims_by_followed_profile(cfg, mac, cfg.nodes@[k]);
    assert(node_claims(cfg, mac)(cfg.nodes@[k]));
    assert forall|j: int| 0 <= j < k implies !node_claims(cfg, mac)(#[trigger] cfg.nodes@[j]) by {
        lemma_claims_by_followed_profile(cfg, mac, cfg.nodes@[j]);
        if node_claims(cfg, mac)(cfg.nodes@[j]) {
            let a = choose|a: int|
                0 <= a < cfg.profiles@.len() && #[trigger] profile_has_mac(mac)(cfg.profiles@[a])
                    && cfg.profiles@[a].name@ == cfg.nodes@[j].profile@;
            assert(a == i);
            assert(!node_follows(cfg.profiles@[i].name@)(cfg.nodes@[j]));
        }
    }
    assert(claimed_at(cfg, links, t, k));
    lemma_claimed_fqdn(cfg, links, t, k);
}

/// In the host list, the first address of a node carries the node's name and
/// the cluster's API alias, every later address only the node's name; the
/// list opens and closes with its marks.
pub proof fn lemma_host_lines_meaning(fqdn: Seq<char>, ips: Seq<Seq<char>>, groups: Seq<HostGroup>)
    ensures
        group_lines(fqdn, ips).len() == ips.len(),
        ips.len() > 0 ==> group_lines(fqdn, ips)[0] == ips[0] + "    "@ + fqdn
            + " kube.jero-mu.talos.local"@,
        forall|j: int|
            0 < j < ips.len() ==> #[trigger] group_lines(fqdn, ips)[j] == ips[j] + "    "@ + fqdn,
        hosts_listing(groups)[0] == "# --- talos.local ---"@,
        hosts_listing(groups).last() == "# --- end talos.local ---"@,
{
    assert forall|j: int| 0 < j < ips.len() implies #[trigger] group_lines(fqdn, ips)[j] == ips[j]
        + "    "@ + fqdn by {
        assert(ips[j] + "    "@ + fqdn + Seq::<char>::empty() =~= ips[j] + "    "@ + fqdn);
    }
}

} // verus!
