//! Command-line arguments.
use vstd::prelude::*;

verus! {

/// The arguments of the server: the path of its configuration file.
pub struct Args {
    pub config: String,
}

/// The configuration file read when none is given.
pub open spec fn default_config_path() -> Seq<char> {
    "/etc/kube-dns-rs/config.yaml"@
}

impl Default for Args {
    fn default() -> (a: Self)
        ensures
            a.config@ == default_config_path(),
    {
        Args { config: "/etc/kube-dns-rs/config.yaml".to_owned() }
    }
}

} // verus!
