//! The fixed two-node layout: which disks of each node hold the OS and the
//! data, and the node patch templates filled with them.
use vstd::prelude::*;
use vstd::string::*;
use crate::find::{is_first, is_last, lemma_first_unique, lemma_last_unique, lemma_prefix_step, none_satisfy};
use crate::resolver::dev_path;
use crate::text::{has_infix, infix_at, lemma_replace_absent, replace_spec, replace_all, str_contains};

verus! {

broadcast use vstd::string::group_string_axioms;

/// A disk as reported by a node in maintenance mode.
#[derive(Debug, Clone)]
pub struct DiskStatus {
    pub metadata: Metadata,
    pub spec: DiskSpec,
}

/// Identity of a disk: its kernel name.
#[derive(Debug, Clone)]
pub struct Metadata {
    pub id: String,
}

/// Size in bytes and kernel module alias of a disk.
#[derive(Debug, Clone)]
pub struct DiskSpec {
    pub size: u64,
    pub modalias: Option<String>,
}

/// Why a node's disks do not fit the layout.
#[derive(Debug, Clone, Copy, PartialEq, Eq, Structural)]
pub enum DiscoveryError {
    /// Node 1 needs an OS disk and two data disks.
    TooFewDisks,
    /// Node 2 has no disk for the OS.
    NoOsDisk,
    /// Node 2 has several disks, none of them a named USB disk, and every one
    /// is named like the OS disk, so no data disk can be told apart.
    NoDataDisk,
}

/// A disk that counts: it has a size and is not a loop device.
pub open spec fn is_eligible(d: DiskStatus) -> bool {
    d.spec.size > 0 && !has_infix(d.metadata.id@, "loop"@)
}

/// The disks that count, in their order.
pub open spec fn eligible(ds: Seq<DiskStatus>) -> Seq<DiskStatus>
    decreases ds.len(),
{
    if ds.len() == 0 {
        seq![]
    } else if is_eligible(ds[0]) {
        seq![ds[0]] + eligible(ds.drop_first())
    } else {
        eligible(ds.drop_first())
    }
}

/// Disk `a` comes no later than disk `b` when the disks are sorted by size,
/// disks of equal size keeping their order.
pub open spec fn size_order_le(e: Seq<DiskStatus>, a: int, b: int) -> bool {
    e[a].spec.size < e[b].spec.size || (e[a].spec.size == e[b].spec.size && a <= b)
}

/// The disks of node 1 sorted by size (stably): `lo` comes first, `hi`
/// last and `h2` just before it.
pub open spec fn node1_positions(e: Seq<DiskStatus>, lo: int, hi: int, h2: int) -> bool {
    &&& 0 <= lo < e.len() && 0 <= hi < e.len() && 0 <= h2 < e.len() && h2 != hi
    &&& forall|j: int| 0 <= j < e.len() ==> size_order_le(e, lo, j)
    &&& forall|j: int| 0 <= j < e.len() ==> size_order_le(e, j, hi)
    &&& forall|j: int| 0 <= j < e.len() && j != hi ==> size_order_le(e, j, h2)
}

/// The disks that count, in their order.
pub fn eligible_disks(disks: Vec<DiskStatus>) -> (r: Vec<DiskStatus>)
    ensures
        r@ == eligible(disks@),
{
    let ghost orig = disks@;
    let mut rest = disks;
    let mut r: Vec<DiskStatus> = Vec::new();
    assert(r@ + eligible(rest@) =~= eligible(orig));
    while rest.len() > 0
        invariant
            r@ + eligible(rest@) == eligible(orig),
        decreases rest.len(),
    {
        let ghost before = rest@;
        let d = rest.remove(0);
        assert(rest@ =~= before.drop_first());
        if d.spec.size > 0 && !str_contains(d.metadata.id.as_str(), "loop") {
            let ghost r0 = r@;
            r.push(d);
            assert(r@ =~= r0 + seq![d]);
            assert(r0 + (seq![d] + eligible(rest@)) =~= r@ + eligible(rest@));
        }
    }
    assert(r@ + eligible(rest@) =~= r@);
    r
}

/// Node 1's disks: the smallest one for the OS and the two largest for
/// data (largest first), among the disks that count, sorted stably by size.
pub fn select_node1_disks(disks: Vec<DiskStatus>) -> (r: Result<(String, String, String), DiscoveryError>)
    ensures
        eligible(disks@).len() < 3 ==> r == Err::<(String, String, String), DiscoveryError>(
            DiscoveryError::TooFewDisks,
        ),
        eligible(disks@).len() >= 3 ==> r is Ok && exists|lo: int, hi: int, h2: int|
            node1_positions(eligible(disks@), lo, hi, h2) && r->Ok_0.0@ == eligible(
                disks@,
            )[lo].metadata.id@ && r->Ok_0.1@ == eligible(disks@)[hi].metadata.id@
                && r->Ok_0.2@ == eligible(disks@)[h2].metadata.id@,
{
    let e = eligible_disks(disks);
    let n = e.len();
    if n < 3 {
        return Err(DiscoveryError::TooFewDisks);
    }
    let mut lo: usize = 0;
    let mut hi: usize = 0;
    let mut i: usize = 1;
    while i < n
        invariant
            n == e.len(),
            1 <= i <= n,
            lo < i,
            hi < i,
            forall|j: int| 0 <= j < i ==> size_order_le(e@, lo as int, j),
            forall|j: int| 0 <= j < i ==> size_order_le(e@, j, hi as int),
        decreases n - i,
    {
        let ghost (lo0, hi0) = (lo as int, hi as int);
        if e[i].spec.size < e[lo].spec.size {
            lo = i;
        }
        if e[i].spec.size >= e[hi].spec.size {
            hi = i;
        }
        assert forall|j: int| 0 <= j < i + 1 implies size_order_le(e@, lo as int, j) by {
            if j < i {
                assert(size_order_le(e@, lo0, j));
            }
        }
        assert forall|j: int| 0 <= j < i + 1 implies size_order_le(e@, j, hi as int) by {
            if j < i {
                assert(size_order_le(e@, j, hi0));
            }
        }
        i = i + 1;
    }
    let mut h2: usize = if hi == 0 {
        1
    } else {
        0
    };
    let mut k: usize = 0;
    while k < n
        invariant
            n == e.len(),
            n >= 3,
            hi < n,
            h2 < n,
            h2 != hi,
            k <= n,
            forall|j: int| 0 <= j < k && j != hi ==> size_order_le(e@, j, h2 as int),
        decreases n - k,
    {
        let ghost h20 = h2 as int;
        if k != hi && e[k].spec.size >= e[h2].spec.size {
            h2 = k;
        }
        assert forall|j: int| 0 <= j < k + 1 && j != hi implies size_order_le(e@, j, h2 as int) by {
            if j < k {
                assert(size_order_le(e@, j, h20));
            }
        }
        k = k + 1;
    }
    assert(node1_positions(e@, lo as int, hi as int, h2 as int));
    Ok((e[lo].metadata.id.clone(), e[hi].metadata.id.clone(), e[h2].metadata.id.clone()))
}

/// A disk attached over USB: its module alias mentions usb.
pub open spec fn is_usb() -> spec_fn(DiskStatus) -> bool {
    |d: DiskStatus|
        match d.spec.modalias {
            Some(m) => has_infix(m@, "usb"@),
            None => false,
        }
}

/// A disk that can hold node 2's OS: not attached over USB, and named.
pub open spec fn os_candidate() -> spec_fn(DiskStatus) -> bool {
    |d: DiskStatus| !is_usb()(d) && d.metadata.id@.len() > 0
}

/// A disk with a name other than `name`.
pub open spec fn named_otherwise(name: Seq<char>) -> spec_fn(DiskStatus) -> bool {
    |d: DiskStatus| d.metadata.id@ != name
}

/// Node 2's OS disk: the first named disk that is not attached over USB
/// (empty when there is none).
pub open spec fn node2_os(e: Seq<DiskStatus>) -> Seq<char> {
    if exists|o: int| is_first(e, os_candidate(), o) {
        e[choose|o: int| is_first(e, os_candidate(), o)].metadata.id@
    } else {
        Seq::empty()
    }
}

/// The last disk attached over USB (empty when there is none).
pub open spec fn node2_last_usb(e: Seq<DiskStatus>) -> Seq<char> {
    if exists|u: int| is_last(e, is_usb(), u) {
        e[choose|u: int| is_last(e, is_usb(), u)].metadata.id@
    } else {
        Seq::empty()
    }
}

/// Node 2's data disk: the last USB disk; failing a named one, and when there
/// are several disks, the last disk not named like the OS disk.
pub open spec fn node2_data(e: Seq<DiskStatus>) -> Seq<char> {
    let usb = node2_last_usb(e);
    if usb.len() == 0 && e.len() > 1 {
        let p = named_otherwise(node2_os(e));
        if exists|f: int| is_last(e, p, f) {
            e[choose|f: int| is_last(e, p, f)].metadata.id@
        } else {
            Seq::empty()
        }
    } else {
        usb
    }
}

/// The layout asks for a data disk named otherwise than the OS disk and there is none:
/// several disks, none over USB with a name, all named like the OS disk.
pub open spec fn node2_unplaceable(e: Seq<DiskStatus>) -> bool {
    &&& node2_os(e).len() > 0
    &&& node2_last_usb(e).len() == 0
    &&& e.len() > 1
    &&& none_satisfy(e, named_otherwise(node2_os(e)))
}

/// Node 2's disks (OS, data) among those that count.
pub fn select_node2_disks(disks: Vec<DiskStatus>) -> (r: Result<(String, String), DiscoveryError>)
    ensures
        node2_os(eligible(disks@)).len() == 0 ==> r == Err::<(String, String), DiscoveryError>(
            DiscoveryError::NoOsDisk,
        ),
        node2_unplaceable(eligible(disks@)) ==> r == Err::<(String, String), DiscoveryError>(
            DiscoveryError::NoDataDisk,
        ),
        r is Ok <==> node2_os(eligible(disks@)).len() > 0 && !node2_unplaceable(eligible(disks@)),
        r matches Ok((os, data)) ==> os@ == node2_os(eligible(disks@)) && data@ == node2_data(
            eligible(disks@),
        ),
{
    let ghost ed = eligible(disks@);
    let e = eligible_disks(disks);
    let ghost es = e@;
    let n = e.len();
    let mut os = String::new();
    let mut usb = String::new();
    let ghost mut o_idx: int = -1;
    let ghost mut u_idx: int = -1;
    let mut k: usize = 0;
    assert(es.take(0) =~= Seq::<DiskStatus>::empty());
    while k < n
        invariant
            n == e.len(),
            es == e@,
            k <= n,
            (o_idx == -1 && none_satisfy(es.take(k as int), os_candidate()) && os@.len() == 0)
                || (is_first(es.take(k as int), os_candidate(), o_idx) && os@ == es[o_idx].metadata.id@),
            (u_idx == -1 && none_satisfy(es.take(k as int), is_usb()) && usb@.len() == 0)
                || (is_last(es.take(k as int), is_usb(), u_idx) && usb@ == es[u_idx].metadata.id@),
        decreases n - k,
    {
        proof {
            lemma_prefix_step(es, os_candidate(), k as int);
            lemma_prefix_step(es, is_usb(), k as int);
            assert(es.take(k + 1)[k as int] == es[k as int]);
        }
        let d = &e[k];
        let usb_disk = match &d.spec.modalias {
            Some(m) => str_contains(m.as_str(), "usb"),
            None => false,
        };
        if usb_disk {
            usb = d.metadata.id.clone();
            proof {
                u_idx = k as int;
            }
        } else if os.as_str().is_empty() {
            os = d.metadata.id.clone();
            proof {
                if os@.len() > 0 {
                    o_idx = k as int;
                }
            }
        }
        proof {
            if o_idx >= 0 {
                assert(es.take(k + 1)[o_idx] == es[o_idx]);
            }
            if u_idx >= 0 {
                assert(es.take(k + 1)[u_idx] == es[u_idx]);
            }
        }
        k = k + 1;
    }
    assert(es.take(n as int) =~= es);
    proof {
        if o_idx >= 0 {
            let o2 = choose|o: int| is_first(es, os_candidate(), o);
            lemma_first_unique(es, os_candidate(), o_idx, o2);
        }
        if u_idx >= 0 {
            let u2 = choose|u: int| is_last(es, is_usb(), u);
            lemma_last_unique(es, is_usb(), u_idx, u2);
        }
    }
    assert(os@ == node2_os(es));
    assert(usb@ == node2_last_usb(es));
    if os.as_str().is_empty() {
        return Err(DiscoveryError::NoOsDisk);
    }
    if usb.as_str().is_empty() && n > 1 {
        let mut f: usize = n;
        while f > 0
            invariant
                f <= n,
                n == e.len(),
                es == e@,
                forall|j: int| f <= j < n ==> !named_otherwise(os@)(#[trigger] es[j]),
                os@ == node2_os(es),
                usb@ == node2_last_usb(es),
                usb@.len() == 0,
                n > 1,
                es == ed,
                ed == eligible(disks@),
                os@.len() > 0,
            decreases f,
        {
            if e[f - 1].metadata.id != os {
                let idx = f - 1;
                proof {
                    assert(is_last(es, named_otherwise(os@), idx as int));
                    let f2 = choose|f: int| is_last(es, named_otherwise(os@), f);
                    lemma_last_unique(es, named_otherwise(os@), idx as int, f2);
                }
                return Ok((os, e[idx].metadata.id.clone()));
            }
            f = f - 1;
        }
        assert(none_satisfy(es, named_otherwise(os@)));
        return Err(DiscoveryError::NoDataDisk);
    }
    Ok((os, usb))
}

/// The patch of node `node_id` made from its template: the OS disk fills
/// `DISK_OS`; node 1's data disks fill `DISK_DATA_1` and `DISK_DATA_2`;
/// any other node's USB disk fills `DISK_DATA_USB`.
pub open spec fn node_patch(
    node_id: u8,
    template: Seq<char>,
    os: Seq<char>,
    d1: Seq<char>,
    d2: Seq<char>,
    usb: Seq<char>,
) -> Seq<char> {
    let p = replace_spec(template, "DISK_OS"@, dev_path(os));
    if node_id == 1 {
        replace_spec(
            replace_spec(p, "DISK_DATA_1"@, dev_path(d1)),
            "DISK_DATA_2"@,
            dev_path(d2),
        )
    } else {
        replace_spec(p, "DISK_DATA_USB"@, dev_path(usb))
    }
}

fn device_path(id: &str) -> (r: String)
    ensures
        r@ == dev_path(id@),
{
    String::from_str("/dev/").concat(id)
}

/// Fills the template of node `node_id` with its disks.
pub fn render_node_patch(node_id: u8, template: &str, os: &str, d1: &str, d2: &str, usb: &str) -> (r: String)
    ensures
        r@ == node_patch(node_id, template@, os@, d1@, d2@, usb@),
{
    let patch = replace_all(template, "DISK_OS", device_path(os).as_str());
    if node_id == 1 {
        let patch = replace_all(patch.as_str(), "DISK_DATA_1", device_path(d1).as_str());
        replace_all(patch.as_str(), "DISK_DATA_2", device_path(d2).as_str())
    } else {
        replace_all(patch.as_str(), "DISK_DATA_USB", device_path(usb).as_str())
    }
}

/// Node 1 puts its OS and its two data volumes on three different disks.
pub proof fn lemma_node1_disks_distinct(e: Seq<DiskStatus>, lo: int, hi: int, h2: int)
    requires
        e.len() >= 3,
        node1_positions(e, lo, hi, h2),
    ensures
        lo != hi,
        lo != h2,
        hi != h2,
{
    let other = if lo != 0 && hi != 0 {
        0
    } else if lo != 1 && hi != 1 {
        1
    } else {
        2
    };
    assert(size_order_le(e, lo, other));
    assert(size_order_le(e, other, hi));
    if lo == hi {
        assert(false);
    }
    if lo == h2 {
        assert(size_order_le(e, other, h2));
        assert(false);
    }
}

/// When node 2 has no named USB disk and falls back on another disk for its
/// data, that disk is named otherwise than the OS disk.
pub proof fn lemma_node2_fallback_differs(e: Seq<DiskStatus>)
    requires
        node2_os(e).len() > 0,
        node2_last_usb(e).len() == 0,
        e.len() > 1,
        !node2_unplaceable(e),
    ensures
        node2_data(e) != node2_os(e),
{
    let p = named_otherwise(node2_os(e));
    let w = choose|j: int| 0 <= j < e.len() && p(e[j]);
    assert(p(e[w]));
    assert(exists|f: int| is_last(e, p, f)) by {
        crate::find::lemma_last_exists(e, p, w);
    }
    let f = choose|f: int| is_last(e, p, f);
    assert(p(e[f]));
}

/// Node 2's data disk is the USB disk reported last: when the disk at `u` is
/// attached over USB and no disk after it is, its name is the USB disk found
/// and, if it has a name, the data disk; with no USB disk none is found.
pub proof fn lemma_node2_data_is_last_usb(e: Seq<DiskStatus>, u: int)
    requires
        0 <= u < e.len(),
        e[u].spec.modalias matches Some(m) && has_infix(m@, "usb"@),
        forall|j: int|
            u < j < e.len() ==> !(#[trigger] e[j].spec.modalias matches Some(m) && has_infix(
                m@,
                "usb"@,
            )),
    ensures
        node2_last_usb(e) == e[u].metadata.id@,
        e[u].metadata.id@.len() > 0 ==> node2_data(e) == e[u].metadata.id@,
{
    assert(is_usb()(e[u]));
    assert forall|j: int| u < j < e.len() implies !is_usb()(#[trigger] e[j]) by {}
    assert(is_last(e, is_usb(), u));
    let u2 = choose|u2: int| is_last(e, is_usb(), u2);
    lemma_last_unique(e, is_usb(), u, u2);
}

/// Without USB disks node 2 finds no USB data disk.
pub proof fn lemma_node2_no_usb(e: Seq<DiskStatus>)
    requires
        forall|j: int|
            0 <= j < e.len() ==> !(#[trigger] e[j].spec.modalias matches Some(m) && has_infix(
                m@,
                "usb"@,
            )),
    ensures
        node2_last_usb(e).len() == 0,
{
    assert forall|u: int| !is_last(e, is_usb(), u) by {
        if 0 <= u < e.len() {
            assert(!is_usb()(e[u]));
        }
    }
}

/// Node 2's OS disk is the first named disk that is not attached over USB.
pub proof fn lemma_node2_os_is_first_named_non_usb(e: Seq<DiskStatus>, o: int)
    requires
        0 <= o < e.len(),
        !(e[o].spec.modalias matches Some(m) && has_infix(m@, "usb"@)),
        e[o].metadata.id@.len() > 0,
        forall|j: int|
            0 <= j < o ==> (#[trigger] e[j].spec.modalias matches Some(m) && has_infix(m@, "usb"@))
                || e[j].metadata.id@.len() == 0,
    ensures
        node2_os(e) == e[o].metadata.id@,
{
    assert(os_candidate()(e[o]));
    assert forall|j: int| 0 <= j < o implies !os_candidate()(#[trigger] e[j]) by {}
    assert(is_first(e, os_candidate(), o));
    let o2 = choose|o2: int| is_first(e, os_candidate(), o2);
    lemma_first_unique(e, os_candidate(), o, o2);
}

/// A disk counts exactly when it has a size and its name does not mention
/// loop; the disks that count keep their reported order.
pub proof fn lemma_eligible_meaning(ds: Seq<DiskStatus>)
    ensures
        forall|x: int|
            0 <= x < eligible(ds).len() ==> (#[trigger] eligible(ds)[x]).spec.size > 0
                && !has_infix(eligible(ds)[x].metadata.id@, "loop"@),
        forall|i: int|
            0 <= i < ds.len() && ds[i].spec.size > 0 && !has_infix(ds[i].metadata.id@, "loop"@)
                ==> eligible(ds).contains(#[trigger] ds[i]),
        eligible(ds).len() <= ds.len(),
    decreases ds.len(),
{
    if ds.len() > 0 {
        let t = ds.drop_first();
        lemma_eligible_meaning(t);
        let et = eligible(t);
        if is_eligible(ds[0]) {
            assert(eligible(ds) == seq![ds[0]] + et);
            assert forall|x: int| 0 <= x < eligible(ds).len() implies (#[trigger] eligible(ds)[x]).spec.size > 0
                && !has_infix(eligible(ds)[x].metadata.id@, "loop"@) by {
                if x > 0 {
                    assert(eligible(ds)[x] == et[x - 1]);
                }
            }
            assert forall|i: int|
                0 <= i < ds.len() && ds[i].spec.size > 0 && !has_infix(ds[i].metadata.id@, "loop"@)
                    implies eligible(ds).contains(#[trigger] ds[i]) by {
                if i == 0 {
                    assert(eligible(ds)[0] == ds[0]);
                } else {
                    assert(ds[i] == t[i - 1]);
                    let x = choose|x: int| 0 <= x < et.len() && et[x] == t[i - 1];
                    assert(eligible(ds)[x + 1] == ds[i]);
                }
            }
        } else {
            assert forall|i: int|
                0 <= i < ds.len() && ds[i].spec.size > 0 && !has_infix(ds[i].metadata.id@, "loop"@)
                    implies eligible(ds).contains(#[trigger] ds[i]) by {
                assert(i != 0);
                assert(ds[i] == t[i - 1]);
            }
        }
    }
}

/// Node 1's OS disk is no larger than any disk that counts; its first data
/// disk is at least as large as any; its second data disk is at least as
/// large as every disk but the first data disk.
pub proof fn lemma_node1_sizes(e: Seq<DiskStatus>, lo: int, hi: int, h2: int)
    requires
        node1_positions(e, lo, hi, h2),
    ensures
        forall|j: int| 0 <= j < e.len() ==> e[lo].spec.size <= #[trigger] e[j].spec.size,
        forall|j: int| 0 <= j < e.len() ==> #[trigger] e[j].spec.size <= e[hi].spec.size,
        forall|j: int| 0 <= j < e.len() && j != hi ==> #[trigger] e[j].spec.size <= e[h2].spec.size,
        e[h2].spec.size <= e[hi].spec.size,
{
    assert forall|j: int| 0 <= j < e.len() implies e[lo].spec.size <= #[trigger] e[j].spec.size by {
        assert(size_order_le(e, lo, j));
    }
    assert forall|j: int| 0 <= j < e.len() implies #[trigger] e[j].spec.size <= e[hi].spec.size by {
        assert(size_order_le(e, j, hi));
    }
    assert forall|j: int| 0 <= j < e.len() && j != hi implies #[trigger] e[j].spec.size <= e[h2].spec.size by {
        assert(size_order_le(e, j, h2));
    }
    assert(size_order_le(e, h2, hi));
}

/// When node 2 has no named USB disk but several disks, its data disk is the
/// last disk named otherwise than the OS disk.
pub proof fn lemma_node2_fallback_is_last_other(e: Seq<DiskStatus>, f: int)
    requires
        node2_last_usb(e).len() == 0,
        e.len() > 1,
        0 <= f < e.len(),
        e[f].metadata.id@ != node2_os(e),
        forall|j: int| f < j < e.len() ==> #[trigger] e[j].metadata.id@ == node2_os(e),
    ensures
        node2_data(e) == e[f].metadata.id@,
{
    let p = named_otherwise(node2_os(e));
    assert forall|j: int| f < j < e.len() implies !p(#[trigger] e[j]) by {}
    assert(is_last(e, p, f));
    let f2 = choose|f2: int| is_last(e, p, f2);
    lemma_last_unique(e, p, f, f2);
}

/// A node patch fills `DISK_OS` with the OS disk's device path first; then
/// node 1 fills `DISK_DATA_1` with its first and `DISK_DATA_2` with its
/// second data disk, and every other node fills `DISK_DATA_USB` with its USB
/// disk; a template without placeholders is left as it is.
pub proof fn lemma_node_patch_placeholders(
    node_id: u8,
    template: Seq<char>,
    os: Seq<char>,
    d1: Seq<char>,
    d2: Seq<char>,
    usb: Seq<char>,
)
    ensures
        node_id == 1 ==> node_patch(node_id, template, os, d1, d2, usb) == replace_spec(
            replace_spec(replace_spec(template, "DISK_OS"@, "/dev/"@ + os), "DISK_DATA_1"@, "/dev/"@ + d1),
            "DISK_DATA_2"@,
            "/dev/"@ + d2,
        ),
        node_id != 1 ==> node_patch(node_id, template, os, d1, d2, usb) == replace_spec(
            replace_spec(template, "DISK_OS"@, "/dev/"@ + os),
            "DISK_DATA_USB"@,
            "/dev/"@ + usb,
        ),
        !has_infix(template, "DISK"@) ==> node_patch(node_id, template, os, d1, d2, usb) == template,
{
    if !has_infix(template, "DISK"@) {
        reveal_strlit("DISK");
        reveal_strlit("DISK_OS");
        reveal_strlit("DISK_DATA_1");
        reveal_strlit("DISK_DATA_2");
        reveal_strlit("DISK_DATA_USB");
        assert forall|p: Seq<char>| p.len() >= 4 && p.subrange(0, 4) == "DISK"@ implies !has_infix(template, p) by {
            if has_infix(template, p) {
                let i = choose|i: int| infix_at(template, p, i);
                assert(template.subrange(i, i + 4) =~= p.subrange(0, 4));
                assert(infix_at(template, "DISK"@, i));
            }
        }
        assert("DISK_OS"@.subrange(0, 4) =~= "DISK"@);
        assert("DISK_DATA_1"@.subrange(0, 4) =~= "DISK"@);
        assert("DISK_DATA_2"@.subrange(0, 4) =~= "DISK"@);
        assert("DISK_DATA_USB"@.subrange(0, 4) =~= "DISK"@);
        lemma_replace_absent(template, "DISK_OS"@, "/dev/"@ + os);
        lemma_replace_absent(template, "DISK_DATA_1"@, "/dev/"@ + d1);
        lemma_replace_absent(template, "DISK_DATA_2"@, "/dev/"@ + d2);
        lemma_replace_absent(template, "DISK_DATA_USB"@, "/dev/"@ + usb);
    }
}

} // verus!
