//! Where the cluster's root CA certificate is looked for.
use vstd::prelude::*;
use vstd::string::*;
use crate::text::views;
use crate::utils::talosctl_wrapper::push_arg;

verus! {

broadcast use vstd::string::group_string_axioms;

/// Locator of the cluster's root CA.
pub struct PkiHydrator;

impl PkiHydrator {
    /// The files that may hold the root CA certificate, in the order in which
    /// they are tried; the first readable one is used.
    pub fn root_ca_paths() -> (r: Vec<String>)
        ensures
            views(r@) == seq!["infra/pki/mu-root-ca.crt"@, "infra/pki/mu-root-ca-secret/tls.crt"@],
    {
        let mut r: Vec<String> = Vec::new();
        push_arg(&mut r, "infra/pki/mu-root-ca.crt");
        push_arg(&mut r, "infra/pki/mu-root-ca-secret/tls.crt");
        assert(views(r@) =~= seq!["infra/pki/mu-root-ca.crt"@, "infra/pki/mu-root-ca-secret/tls.crt"@]);
        r
    }
}

} // verus!
