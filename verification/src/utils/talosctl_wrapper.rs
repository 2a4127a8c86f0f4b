//! The command lines given to `talosctl`.
use vstd::prelude::*;
use vstd::string::*;
use crate::text::views;

verus! {

broadcast use vstd::string::group_string_axioms;

/// Command lines of the `talosctl` operations.
pub struct TalosctlWrapper;

/// Why a health check cannot be run.
#[derive(Debug, Clone, Copy, PartialEq, Eq, Structural)]
pub enum HealthError {
    /// No node was given to check.
    NoNodes,
}

/// Appends an owned copy of `s` to `v`.
pub fn push_arg(v: &mut Vec<String>, s: &str)
    ensures
        views(final(v)@) == views(old(v)@).push(s@),
{
    let ghost before = views(v@);
    v.push(String::from_str(s));
    assert(views(v@) =~= before.push(s@));
}

/// `args` followed by the insecure flag when `insecure` holds.
pub open spec fn with_insecure(args: Seq<Seq<char>>, insecure: bool) -> Seq<Seq<char>> {
    if insecure {
        args.push("--insecure"@)
    } else {
        args
    }
}

impl TalosctlWrapper {
    /// Arguments that read the resources of kind `resource` from a node, as JSON.
    pub fn get_resource_args(resource: &str, node_ip: &str, insecure: bool) -> (r: Vec<String>)
        ensures
            views(r@) == with_insecure(
                seq![
                    "get"@,
                    resource@,
                    "--nodes"@,
                    node_ip@,
                    "--endpoints"@,
                    node_ip@,
                    "-o"@,
                    "json"@,
                ],
                insecure,
            ),
    {
        let mut r: Vec<String> = Vec::new();
        push_arg(&mut r, "get");
        push_arg(&mut r, resource);
        push_arg(&mut r, "--nodes");
        push_arg(&mut r, node_ip);
        push_arg(&mut r, "--endpoints");
        push_arg(&mut r, node_ip);
        push_arg(&mut r, "-o");
        push_arg(&mut r, "json");
        if insecure {
            push_arg(&mut r, "--insecure");
        }
        assert(views(r@) =~= with_insecure(
            seq!["get"@, resource@, "--nodes"@, node_ip@, "--endpoints"@, node_ip@, "-o"@, "json"@],
            insecure,
        ));
        r
    }

    /// Arguments that apply the configuration file `file_path` to a node.
    pub fn apply_config_args(node_ip: &str, file_path: &str, insecure: bool) -> (r: Vec<String>)
        ensures
            views(r@) == with_insecure(
                seq!["apply-config"@, "--nodes"@, node_ip@, "--file"@, file_path@],
                insecure,
            ),
    {
        let mut r: Vec<String> = Vec::new();
        push_arg(&mut r, "apply-config");
        push_arg(&mut r, "--nodes");
        push_arg(&mut r, node_ip);
        push_arg(&mut r, "--file");
        push_arg(&mut r, file_path);
        if insecure {
            push_arg(&mut r, "--insecure");
        }
        assert(views(r@) =~= with_insecure(
            seq!["apply-config"@, "--nodes"@, node_ip@, "--file"@, file_path@],
            insecure,
        ));
        r
    }

    /// Arguments that bootstrap the cluster on a node.
    pub fn bootstrap_args(node_ip: &str) -> (r: Vec<String>)
        ensures
            views(r@) == seq!["bootstrap"@, "--nodes"@, node_ip@, "--endpoints"@, node_ip@],
    {
        let mut r: Vec<String> = Vec::new();
        push_arg(&mut r, "bootstrap");
        push_arg(&mut r, "--nodes");
        push_arg(&mut r, node_ip);
        push_arg(&mut r, "--endpoints");
        push_arg(&mut r, node_ip);
        assert(views(r@) =~= seq!["bootstrap"@, "--nodes"@, node_ip@, "--endpoints"@, node_ip@]);
        r
    }

    /// Arguments that validate the configuration file `file_path` for `mode`.
    pub fn validate_args(file_path: &str, mode: &str) -> (r: Vec<String>)
        ensures
            views(r@) == seq!["validate"@, "--config"@, file_path@, "--mode"@, mode@],
    {
        let mut r: Vec<String> = Vec::new();
        push_arg(&mut r, "validate");
        push_arg(&mut r, "--config");
        push_arg(&mut r, file_path);
        push_arg(&mut r, "--mode");
        push_arg(&mut r, mode);
        assert(views(r@) =~= seq!["validate"@, "--config"@, file_path@, "--mode"@, mode@]);
        r
    }

    /// Arguments that wait (up to ten minutes) for the cluster behind
    /// `endpoint` to be healthy, as seen from the first of `nodes`; there
    /// must be one.
    pub fn check_health_args(endpoint: &str, nodes: &[String]) -> (r: Result<Vec<String>, HealthError>)
        ensures
            nodes@.len() == 0 ==> r == Err::<Vec<String>, HealthError>(HealthError::NoNodes),
            nodes@.len() > 0 ==> r is Ok && views(r->Ok_0@) == seq![
                "health"@,
                "--endpoints"@,
                endpoint@,
                "--nodes"@,
                nodes@[0]@,
                "--wait-timeout"@,
                "10m"@,
            ],
    {
        if nodes.len() == 0 {
            return Err(HealthError::NoNodes);
        }
        let mut r: Vec<String> = Vec::new();
        push_arg(&mut r, "health");
        push_arg(&mut r, "--endpoints");
        push_arg(&mut r, endpoint);
        push_arg(&mut r, "--nodes");
        push_arg(&mut r, nodes[0].as_str());
        push_arg(&mut r, "--wait-timeout");
        push_arg(&mut r, "10m");
        assert(views(r@) =~= seq![
            "health"@,
            "--endpoints"@,
            endpoint@,
            "--nodes"@,
            nodes@[0]@,
            "--wait-timeout"@,
            "10m"@,
        ]);
        Ok(r)
    }
}

} // verus!
