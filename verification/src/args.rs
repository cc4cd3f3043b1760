//! The command surface handed to the core: a method name, its ordered
//! string parameters, the advisory timeout, and the verbosity switch.
//! Argument parsing itself stays outside the library; this type carries
//! its result.

use vstd::prelude::*;
use vstd::string::StringExecFns;

verus! {

/// One parsed invocation of the command line.
pub struct Cli {
    /// Method to call, such as "chat".
    pub method: String,
    /// Parameters for the method, order-significant.
    pub params: Vec<String>,
    /// Timeout in milliseconds, advisory to the daemon.
    pub timeout: u64,
    /// Whether verbose output was asked for.
    pub verbose: bool,
}

impl Default for Cli {
    /// The defaults of the command line: the "chat" method, no
    /// parameters, a 30000 millisecond timeout, and quiet output.
    fn default() -> (r: Cli)
        ensures
            r.method@ == "chat"@,
            r.params@.len() == 0,
            r.timeout == 30000,
            !r.verbose,
    {
        Cli { method: String::from_str("chat"), params: Vec::new(), timeout: 30000, verbose: false }
    }
}

} // verus!
