//! The machine-configuration patch applied to a node: install disk, endpoint
//! interface, static host entries and, when present, the cluster's root CA.
use vstd::prelude::*;
use vstd::string::*;
use crate::find::{is_first, lemma_first_exists};

verus! {

broadcast use vstd::string::group_string_axioms;

/// The characters of each (address, name) pair.
pub open spec fn pairs_view(all: Seq<(String, String)>) -> Seq<(Seq<char>, Seq<char>)> {
    all.map_values(|e: (String, String)| (e.0@, e.1@))
}

/// One static host entry of the patch.
pub open spec fn host_entry(ip: Seq<char>, alias: Seq<char>) -> Seq<char> {
    "      - ip: "@ + ip + "\n        aliases:\n          - "@ + alias + "\n"@
}

/// Entry `i` is the first one that carries its address.
#[verifier::opaque]
pub open spec fn first_of_ip(all: Seq<(Seq<char>, Seq<char>)>, i: int) -> bool {
    forall|j: int| 0 <= j < i ==> #[trigger] all[j].0 != all[i].0
}

/// The entries that carry an address for the first time, in their order.
pub open spec fn kept_entries(all: Seq<(Seq<char>, Seq<char>)>) -> Seq<(Seq<char>, Seq<char>)>
    decreases all.len(),
{
    if all.len() == 0 {
        seq![]
    } else {
        let rest = kept_entries(all.drop_last());
        if first_of_ip(all, all.len() - 1) {
            rest.push(all.last())
        } else {
            rest
        }
    }
}

/// The text of a list of host entries.
pub open spec fn entries_text(es: Seq<(Seq<char>, Seq<char>)>) -> Seq<char>
    decreases es.len(),
{
    if es.len() == 0 {
        seq![]
    } else {
        entries_text(es.drop_last()) + host_entry(es.last().0, es.last().1)
    }
}

/// The entry that names the first address as the cluster's API host.
pub open spec fn kube_entry(all: Seq<(Seq<char>, Seq<char>)>) -> Seq<char> {
    if all.len() > 0 {
        host_entry(all[0].0, "kube.jero-mu.talos.local"@)
    } else {
        seq![]
    }
}

/// The block that installs the root CA certificate, if there is one.
pub open spec fn ca_block(ca: Option<Seq<char>>) -> Seq<char> {
    match ca {
        Some(c) => "  ca:\n    crt: |\n      "@ + c + "\n"@,
        None => seq![],
    }
}

/// The part of the patch before the host entries.
pub open spec fn patch_header(fqdn: Seq<char>, disk: Seq<char>, nic: Seq<char>) -> Seq<char> {
    "\nmachine:\n  type: init\n  hostname: "@ + fqdn + "\n  install:\n    disk: "@ + disk
        + "\n  network:\n    interfaces:\n      - interface: "@ + nic
        + "\n        dhcp: true\n    extraHostEntries:\n"@
}

/// The whole patch.
pub open spec fn patch_text(
    fqdn: Seq<char>,
    disk: Seq<char>,
    nic: Seq<char>,
    all: Seq<(Seq<char>, Seq<char>)>,
    ca: Option<Seq<char>>,
) -> Seq<char> {
    patch_header(fqdn, disk, nic) + entries_text(kept_entries(all)) + kube_entry(all) + ca_block(
        ca,
    )
}

/// The characters of an optional text.
pub open spec fn opt_view(o: Option<&str>) -> Option<Seq<char>> {
    match o {
        Some(s) => Some(s@),
        None => None,
    }
}

fn push_host_entry(out: &mut String, ip: &str, alias: &str)
    ensures
        final(out)@ == old(out)@ + host_entry(ip@, alias@),
{
    out.append("      - ip: ");
    out.append(ip);
    out.append("\n        aliases:\n          - ");
    out.append(alias);
    out.append("\n");
}

/// Whether no entry before `i` carries the address of entry `i`.
fn is_first_of_ip(all: &[(String, String)], i: usize) -> (r: bool)
    requires
        i < all@.len(),
    ensures
        r == first_of_ip(pairs_view(all@), i as int),
{
    let ghost v = pairs_view(all@);
    let mut j: usize = 0;
    while j < i
        invariant
            i < all@.len(),
            j <= i,
            v == pairs_view(all@),
            forall|t: int| 0 <= t < j ==> #[trigger] v[t].0 != v[i as int].0,
        decreases i - j,
    {
        if all[j].0 == all[i].0 {
            assert(v[j as int].0 == v[i as int].0);
            assert(!first_of_ip(v, i as int)) by {
                reveal(first_of_ip);
            }
            return false;
        }
        j = j + 1;
    }
    assert(first_of_ip(v, i as int)) by {
        reveal(first_of_ip);
    }
    true
}

/// Renders the patch for a node called `fqdn` installed on `disk`, whose
/// endpoint interface is `nic`, with the host entries `all` and the root CA `ca`.
pub fn render_patch(fqdn: &str, disk: &str, nic: &str, all: &[(String, String)], ca: Option<&str>) -> (r: String)
    ensures
        r@ == patch_text(fqdn@, disk@, nic@, pairs_view(all@), opt_view(ca)),
{
    let ghost v = pairs_view(all@);
    let mut out = String::new();
    out.append("\nmachine:\n  type: init\n  hostname: ");
    out.append(fqdn);
    out.append("\n  install:\n    disk: ");
    out.append(disk);
    out.append("\n  network:\n    interfaces:\n      - interface: ");
    out.append(nic);
    out.append("\n        dhcp: true\n    extraHostEntries:\n");
    let ghost header = out@;
    assert(header =~= patch_header(fqdn@, disk@, nic@));
    assert(v.subrange(0, 0) =~= Seq::<(Seq<char>, Seq<char>)>::empty());
    let mut i: usize = 0;
    while i < all.len()
        invariant
            i <= all@.len(),
            v == pairs_view(all@),
            header == patch_header(fqdn@, disk@, nic@),
            out@ == header + entries_text(kept_entries(v.subrange(0, i as int))),
        decreases all.len() - i,
    {
        let ghost pre = v.subrange(0, i as int);
        let ghost cur = v.subrange(0, i + 1);
        assert(cur.drop_last() =~= pre);
        assert(cur.last() == v[i as int]);
        assert(first_of_ip(cur, i as int) == first_of_ip(v, i as int)) by {
            reveal(first_of_ip);
            assert forall|j: int| 0 <= j < i implies cur[j] == v[j] by {}
        }
        if is_first_of_ip(all, i) {
            let ghost es = kept_entries(pre);
            push_host_entry(&mut out, all[i].0.as_str(), all[i].1.as_str());
            assert(kept_entries(cur) == es.push(v[i as int]));
            assert(es.push(v[i as int]).drop_last() =~= es);
            assert(out@ =~= header + entries_text(kept_entries(cur)));
        }
        i = i + 1;
    }
    assert(v.subrange(0, all@.len() as int) =~= v);
    if all.len() > 0 {
        push_host_entry(&mut out, all[0].0.as_str(), "kube.jero-mu.talos.local");
    }
    if let Some(c) = ca {
        out.append("  ca:\n    crt: |\n      ");
        out.append(c);
        out.append("\n");
    }
    assert(out@ =~= patch_text(fqdn@, disk@, nic@, v, opt_view(ca)));
    out
}

// ---------------------------------------------------------------------------
// Host entries carry each address once
// ---------------------------------------------------------------------------

/// `e` is an entry of `all` that carries its address for the first time.
pub open spec fn is_first_entry(all: Seq<(Seq<char>, Seq<char>)>, e: (Seq<char>, Seq<char>)) -> bool {
    exists|i: int| 0 <= i < all.len() && first_of_ip(all, i) && e == all[i]
}

/// Some kept entry carries the address `ip`.
pub open spec fn lists_ip(kept: Seq<(Seq<char>, Seq<char>)>, ip: Seq<char>) -> bool {
    exists|x: int| 0 <= x < kept.len() && kept[x].0 == ip
}

/// Every kept entry is an entry of `all` that carries its address first.
proof fn lemma_kept_are_first(all: Seq<(Seq<char>, Seq<char>)>)
    ensures
        forall|x: int|
            0 <= x < kept_entries(all).len() ==> is_first_entry(all, #[trigger] kept_entries(all)[x]),
    decreases all.len(),
{
    if all.len() > 0 {
        let t = all.drop_last();
        lemma_kept_are_first(t);
        let kt = kept_entries(t);
        let ka = kept_entries(all);
        assert forall|x: int| 0 <= x < ka.len() implies is_first_entry(all, #[trigger] ka[x]) by {
            if x < kt.len() {
                assert(ka[x] == kt[x]);
                assert(is_first_entry(t, kt[x]));
                let i = choose|i: int| 0 <= i < t.len() && first_of_ip(t, i) && kt[x] == t[i];
                assert(first_of_ip(all, i)) by {
                    reveal(first_of_ip);
                    assert forall|j: int| 0 <= j < i implies #[trigger] all[j].0 != all[i].0 by {
                        assert(t[j] == all[j]);
                    }
                }
                assert(ka[x] == all[i]);
            } else {
                assert(ka.len() != kt.len());
                assert(first_of_ip(all, all.len() - 1));
                assert(ka[x] == all[all.len() - 1]);
            }
        }
    }
}

/// Every address of `all` is kept, with the name of its first entry.
proof fn lemma_kept_complete(all: Seq<(Seq<char>, Seq<char>)>)
    ensures
        forall|i: int|
            0 <= i < all.len() && first_of_ip(all, i) ==> kept_entries(all).contains(
                #[trigger] all[i],
            ),
    decreases all.len(),
{
    if all.len() > 0 {
        let t = all.drop_last();
        lemma_kept_complete(t);
        assert forall|i: int| 0 <= i < all.len() && first_of_ip(all, i) implies kept_entries(
            all,
        ).contains(#[trigger] all[i]) by {
            if i < all.len() - 1 {
                assert(t[i] == all[i]);
                assert(first_of_ip(t, i)) by {
                    reveal(first_of_ip);
                    assert forall|j: int| 0 <= j < i implies #[trigger] t[j].0 != t[i].0 by {
                        assert(t[j] == all[j]);
                    }
                }
                let k = choose|k: int| 0 <= k < kept_entries(t).len() && kept_entries(t)[k] == t[i];
                assert(kept_entries(all)[k] == all[i]);
            } else {
                let ka = kept_entries(all);
                assert(ka[ka.len() - 1] == all[i]);
            }
        }
    }
}

/// Kept entries carry pairwise different addresses.
proof fn lemma_kept_distinct(all: Seq<(Seq<char>, Seq<char>)>)
    ensures
        forall|x: int, y: int|
            0 <= x < y < kept_entries(all).len() ==> #[trigger] kept_entries(all)[x].0
                != #[trigger] kept_entries(all)[y].0,
    decreases all.len(),
{
    if all.len() > 0 {
        let t = all.drop_last();
        lemma_kept_distinct(t);
        lemma_kept_are_first(t);
        let kt = kept_entries(t);
        let ka = kept_entries(all);
        assert forall|x: int, y: int| 0 <= x < y < ka.len() implies #[trigger] ka[x].0
            != #[trigger] ka[y].0 by {
            assert(ka[x] == kt[x]);
            if y < kt.len() {
                assert(ka[y] == kt[y]);
            } else {
                assert(is_first_entry(t, kt[x]));
                let i = choose|i: int| 0 <= i < t.len() && first_of_ip(t, i) && kt[x] == t[i];
                assert(ka[y] == all[all.len() - 1]);
                assert(all[i] == t[i]);
                reveal(first_of_ip);
                assert(first_of_ip(all, all.len() - 1));
            }
        }
    }
}

/// Host entries name each address once: the entries that the patch lists
/// carry pairwise different addresses; each of them is the first entry of
/// the input that carries its address; every such first entry is listed;
/// so every address of the input is listed, once, with the name that its
/// first occurrence gives it.
pub proof fn lemma_host_entries_once(all: Seq<(Seq<char>, Seq<char>)>)
    ensures
        forall|x: int, y: int|
            0 <= x < y < kept_entries(all).len() ==> #[trigger] kept_entries(all)[x].0
                != #[trigger] kept_entries(all)[y].0,
        forall|x: int|
            0 <= x < kept_entries(all).len() ==> is_first_entry(all, #[trigger] kept_entries(all)[x]),
        forall|i: int|
            0 <= i < all.len() && first_of_ip(all, i) ==> kept_entries(all).contains(
                #[trigger] all[i],
            ),
        forall|i: int| 0 <= i < all.len() ==> lists_ip(kept_entries(all), #[trigger] all[i].0),
{
    lemma_kept_distinct(all);
    lemma_kept_are_first(all);
    lemma_kept_complete(all);
    assert forall|i: int| 0 <= i < all.len() implies lists_ip(kept_entries(all), #[trigger] all[i].0) by {
        let ip = all[i].0;
        let p = |e: (Seq<char>, Seq<char>)| e.0 == ip;
        lemma_first_exists(all, p);
        assert(p(all[i]));
        let f = choose|f: int| is_first(all, p, f);
        assert(first_of_ip(all, f)) by {
            reveal(first_of_ip);
            assert forall|j: int| 0 <= j < f implies #[trigger] all[j].0 != all[f].0 by {
                assert(!p(all[j]));
            }
        }
        let x = choose|x: int| 0 <= x < kept_entries(all).len() && kept_entries(all)[x] == all[f];
        assert(kept_entries(all)[x].0 == all[i].0);
    }
}

/// The patch closes with the cluster's API alias on the address of the first
/// host entry given (followed by the CA block, if any); with no host entries
/// there is no alias, and the patch closes with the CA block.
pub proof fn lemma_api_alias_on_first_entry(
    fqdn: Seq<char>,
    disk: Seq<char>,
    nic: Seq<char>,
    all: Seq<(Seq<char>, Seq<char>)>,
    ca: Option<Seq<char>>,
)
    ensures
        all.len() > 0 ==> ({
            let tail = "      - ip: "@ + all[0].0 + "\n        aliases:\n          - kube.jero-mu.talos.local\n"@
                + ca_block(ca);
            let text = patch_text(fqdn, disk, nic, all, ca);
            text.len() >= tail.len() && text.subrange(text.len() - tail.len(), text.len() as int)
                == tail
        }),
        all.len() == 0 ==> patch_text(fqdn, disk, nic, all, ca) == patch_header(fqdn, disk, nic)
            + ca_block(ca),
        all.len() > 0 ==> kept_entries(all).len() > 0 && kept_entries(all)[0] == all[0],
{
    reveal_strlit("\n        aliases:\n          - ");
    reveal_strlit("kube.jero-mu.talos.local");
    reveal_strlit("\n");
    reveal_strlit("\n        aliases:\n          - kube.jero-mu.talos.local\n");
    if all.len() > 0 {
        let k = "kube.jero-mu.talos.local"@;
        assert("\n        aliases:\n          - "@ + k + "\n"@ =~= "\n        aliases:\n          - kube.jero-mu.talos.local\n"@);
        let tail = "      - ip: "@ + all[0].0 + "\n        aliases:\n          - kube.jero-mu.talos.local\n"@
            + ca_block(ca);
        assert(kube_entry(all) + ca_block(ca) =~= tail);
        let head = patch_header(fqdn, disk, nic) + entries_text(kept_entries(all));
        let text = patch_text(fqdn, disk, nic, all, ca);
        assert(text =~= head + tail);
        assert(text.subrange(text.len() - tail.len(), text.len() as int) =~= tail);
        lemma_kept_first(all);
    } else {
        assert(kept_entries(all) =~= Seq::<(Seq<char>, Seq<char>)>::empty());
        assert(entries_text(kept_entries(all)) =~= Seq::<char>::empty());
        assert(patch_text(fqdn, disk, nic, all, ca) =~= patch_header(fqdn, disk, nic) + ca_block(ca));
    }
}

/// The first entry given is always listed first.
proof fn lemma_kept_first(all: Seq<(Seq<char>, Seq<char>)>)
    requires
        all.len() > 0,
    ensures
        kept_entries(all).len() > 0,
        kept_entries(all)[0] == all[0],
    decreases all.len(),
{
    if all.len() == 1 {
        assert(first_of_ip(all, 0)) by {
            reveal(first_of_ip);
        }
        assert(all.drop_last() =~= Seq::<(Seq<char>, Seq<char>)>::empty());
        assert(kept_entries(all.drop_last()) =~= Seq::<(Seq<char>, Seq<char>)>::empty());
        assert(kept_entries(all) == kept_entries(all.drop_last()).push(all.last()));
        assert(kept_entries(all)[0] == all.last());
    } else {
        let t = all.drop_last();
        lemma_kept_first(t);
        assert(t[0] == all[0]);
        if first_of_ip(all, all.len() - 1) {
            assert(kept_entries(all) == kept_entries(t).push(all.last()));
            assert(kept_entries(all)[0] == kept_entries(t)[0]);
        } else {
            assert(kept_entries(all) == kept_entries(t));
        }
    }
}

/// The patch opens with the node's host name, its install disk and its
/// endpoint interface, in that order, before the host entries.
pub proof fn lemma_patch_opens_with_node(
    fqdn: Seq<char>,
    disk: Seq<char>,
    nic: Seq<char>,
    all: Seq<(Seq<char>, Seq<char>)>,
    ca: Option<Seq<char>>,
)
    ensures
        ({
            let head = "\nmachine:\n  type: init\n  hostname: "@ + fqdn + "\n  install:\n    disk: "@
                + disk + "\n  network:\n    interfaces:\n      - interface: "@ + nic
                + "\n        dhcp: true\n    extraHostEntries:\n"@;
            let text = patch_text(fqdn, disk, nic, all, ca);
            text.len() >= head.len() && text.subrange(0, head.len() as int) == head
        }),
{
    let head = "\nmachine:\n  type: init\n  hostname: "@ + fqdn + "\n  install:\n    disk: "@ + disk
        + "\n  network:\n    interfaces:\n      - interface: "@ + nic
        + "\n        dhcp: true\n    extraHostEntries:\n"@;
    let text = patch_text(fqdn, disk, nic, all, ca);
    let rest = entries_text(kept_entries(all)) + kube_entry(all) + ca_block(ca);
    assert(text =~= head + rest);
    assert(text.subrange(0, head.len() as int) =~= head);
}

} // verus!
