//! Wiping the whole cluster: the reset command and which local files survive.
use vstd::prelude::*;
use vstd::string::*;
use crate::text::{str_eq, views};
use crate::utils::talosctl_wrapper::push_arg;

verus! {

broadcast use vstd::string::group_string_axioms;

/// The addresses of every node, as `talosctl` takes them.
pub const CLUSTER_TARGETS: &'static str = "<CLUSTER_IP_LIST>";

/// Arguments of the reset of every node; `purge` also wipes the data disks.
pub fn reset_args(purge: bool) -> (r: Vec<String>)
    ensures
        views(r@) == seq![
            "reset"@,
            "--nodes"@,
            CLUSTER_TARGETS@,
            "--reboot"@,
            "--insecure"@,
            "--wait=false"@,
        ] + if purge {
            seq!["--wipe"@]
        } else {
            Seq::empty()
        },
{
    let mut r: Vec<String> = Vec::new();
    push_arg(&mut r, "reset");
    push_arg(&mut r, "--nodes");
    push_arg(&mut r, CLUSTER_TARGETS);
    push_arg(&mut r, "--reboot");
    push_arg(&mut r, "--insecure");
    push_arg(&mut r, "--wait=false");
    if purge {
        push_arg(&mut r, "--wipe");
    }
    assert(views(r@) =~= seq![
        "reset"@,
        "--nodes"@,
        CLUSTER_TARGETS@,
        "--reboot"@,
        "--insecure"@,
        "--wait=false"@,
    ] + if purge {
        seq!["--wipe"@]
    } else {
        Seq::empty()
    });
    r
}

/// Whether the workspace entry called `name` survives the wipe: only the
/// node templates do.
pub fn keeps_in_workspace(name: &str) -> (r: bool)
    ensures
        r == (name@ == "node-1.yaml"@ || name@ == "node-2.yaml"@),
{
    str_eq(name, "node-1.yaml") || str_eq(name, "node-2.yaml")
}

} // verus!
