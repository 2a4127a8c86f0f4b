//! Decommissioning: which reset the clean command asks for.
use vstd::prelude::*;

verus! {

/// The clean command.
pub struct CleanCommand;

/// The reset that the clean command performs.
#[derive(Debug, Clone, PartialEq, Eq)]
pub enum CleanAction {
    /// Reset the node at this address.
    ResetNode(String),
    /// Reset every node of the cluster.
    ResetAll,
}

/// Why the clean command refuses to run.
#[derive(Debug, Clone, Copy, PartialEq, Eq, Structural)]
pub enum CleanError {
    /// Resetting nodes destroys their data, so it needs the purge flag.
    PurgeRequired,
}

impl CleanCommand {
    /// The reset to perform: none without `purge`; the node at `target_ip`
    /// if one is given; otherwise every node.
    pub fn plan(purge: bool, target_ip: Option<String>) -> (r: Result<CleanAction, CleanError>)
        ensures
            !purge ==> r == Err::<CleanAction, CleanError>(CleanError::PurgeRequired),
            purge && target_ip is None ==> r == Ok::<CleanAction, CleanError>(CleanAction::ResetAll),
            purge && target_ip is Some ==> r == Ok::<CleanAction, CleanError>(
                CleanAction::ResetNode(target_ip->Some_0),
            ),
    {
        if !purge {
            return Err(CleanError::PurgeRequired);
        }
        match target_ip {
            Some(ip) => Ok(CleanAction::ResetNode(ip)),
            None => Ok(CleanAction::ResetAll),
        }
    }
}

} // verus!
