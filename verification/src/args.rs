//! Process configuration: a listening port, a debug flag, and a one-shot
//! key-generation mode that prints fresh key material and exits.
use vstd::prelude::*;

verus! {

/// The command-line options the gateway understands.
pub struct Args {
    /// Generate fresh key material for the notary and the integrity
    /// check, print it, and exit without serving.
    pub generate_keys: bool,
    /// The port the gateway listens on.
    pub port: u16,
    /// Run with verbose diagnostic output.
    pub debug: bool,
}

impl Default for Args {
    /// The defaults: serve on port 4000, quietly.
    fn default() -> (r: Args)
        ensures
            !r.generate_keys && r.port == 4000 && !r.debug,
    {
        Args { generate_keys: false, port: 4000, debug: false }
    }
}

} // verus!
