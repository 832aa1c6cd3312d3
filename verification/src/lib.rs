//! The verified core of a local DPI-bypass proxy: how client requests are
//! recognised, rewritten and split before they are forwarded, the engine's
//! state machine, DNS answer handling, and the system settings written to
//! route traffic through the proxy.

use vstd::prelude::*;

pub mod alternative_engine;
pub mod dns;
pub mod dpi_engine;
pub mod http;
pub mod settings;
pub mod shutdown;
pub mod system_proxy;
pub mod text;

verus! {

/// `std::io::Error`, carried through by the error types of the library.
#[verifier::external_type_specification]
#[verifier::external_body]
pub struct ExIoError(std::io::Error);

} // verus!
