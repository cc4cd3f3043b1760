//! Daemon bootstrap: before any connection attempt, the daemon executable
//! must stand at its fixed install path.  The decision — leave the
//! installation alone, or extract the embedded payload — is a pure
//! function of what is found there, and applying it is idempotent.

use crate::error::OpenCliError;
use vstd::prelude::*;
use vstd::string::StringExecFns;

verus! {

/// The fixed install location of the daemon executable, below the user's
/// home directory.
pub fn get_daemon_path(home: &str) -> (r: String)
    ensures
        r@ == home@ + "/.opencli/bin/opencli-daemon"@,
{
    String::from_str(home).concat("/.opencli/bin/opencli-daemon")
}

/// What is found at the install path before bootstrap runs.
#[derive(PartialEq, Eq, Structural, Clone, Copy, Debug)]
pub struct InstallState {
    /// Whether a file stands at the install path.
    pub present: bool,
    /// Whether that file is marked executable by its owner.
    pub executable: bool,
}

/// What one bootstrap run does to the install path.
#[derive(PartialEq, Eq, Structural, Clone, Copy, Debug)]
pub enum BootstrapAction {
    /// Leave the path untouched: the file is already present, or there is
    /// no payload to extract.
    Keep,
    /// Create the missing directories, write the payload, and mark the
    /// file executable.
    Extract,
}

/// The bootstrap decision: a present file is the sole signal of "already
/// installed"; an absent one is always extracted, so that the executable
/// stands at the install path before any connection is attempted.
pub open spec fn spec_plan_bootstrap(s: InstallState) -> BootstrapAction {
    if s.present {
        BootstrapAction::Keep
    } else {
        BootstrapAction::Extract
    }
}

/// Decide what one bootstrap run must do for the state found at the
/// install path.
pub fn plan_bootstrap(s: InstallState) -> (a: BootstrapAction)
    ensures
        a == spec_plan_bootstrap(s),
{
    if s.present {
        BootstrapAction::Keep
    } else {
        BootstrapAction::Extract
    }
}

/// The install path's state after an action is carried out.
pub open spec fn spec_apply_bootstrap(s: InstallState, a: BootstrapAction) -> InstallState {
    match a {
        BootstrapAction::Keep => s,
        BootstrapAction::Extract => InstallState { present: true, executable: true },
    }
}

/// The state the install path is left in when `a` is carried out on `s`.
pub fn apply_bootstrap(s: InstallState, a: BootstrapAction) -> (t: InstallState)
    ensures
        t == spec_apply_bootstrap(s, a),
{
    match a {
        BootstrapAction::Keep => s,
        BootstrapAction::Extract => InstallState { present: true, executable: true },
    }
}

/// Bootstrap is idempotent, and one run installs: after a first run the
/// file is present and executable, and a second run decides to keep it —
/// it performs no write — and leaves the state exactly as the first run
/// did.
pub proof fn lemma_bootstrap_idempotent(s: InstallState)
    ensures
        ({
            let s1 = spec_apply_bootstrap(s, spec_plan_bootstrap(s));
            s1.present && (s.present ==> s1 == s) && spec_plan_bootstrap(s1) is Keep
                && spec_apply_bootstrap(s1, spec_plan_bootstrap(s1)) == s1
        }),
{
}

/// Classify a bootstrap failure: whatever step failed — creating the
/// directories, writing the file, or setting its mode — the invocation
/// aborts as a resource error carrying the step's detail.
pub fn classify_bootstrap_failure(detail: String) -> (r: OpenCliError)
    ensures
        r matches OpenCliError::ResourceError(m) && m@ == detail@,
{
    OpenCliError::ResourceError(detail)
}

} // verus!
