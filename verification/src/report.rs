//! Diagnostics channel.

use std::io::Write;

use vstd::prelude::*;

verus! {

/// Relies on std::io::stderr: prints one diagnostic line for a human reader.
#[verifier::external_body]
pub(crate) fn diag(msg: &str) {
    let _ = writeln!(std::io::stderr(), "{}", msg);
}

} // verus!
