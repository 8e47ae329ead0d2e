//! Configuration and query-surface value types.
//!
//! Loading a configuration file and serving queries are the driver's
//! business; the types themselves are plain values the library can hold
//! and check.

use vstd::prelude::*;

verus! {

/// The service configuration.
pub struct Config {
    pub database_url: String,
    pub solana_rpc_url: String,
    pub api_port: u16,
    pub metrics_port: u16,
    pub log_level: String,
    pub wasm_dir: String,
}

impl Config {
    /// The two listening ports must differ, and neither may be zero.
    pub open spec fn ports_valid(&self) -> bool {
        self.api_port != self.metrics_port && self.api_port != 0 && self.metrics_port != 0
    }

    /// Check the port assignment.
    pub fn validate_ports(&self) -> (r: bool)
        ensures
            r == self.ports_valid(),
    {
        self.api_port != self.metrics_port && self.api_port != 0 && self.metrics_port != 0
    }
}

/// A token account balance as served by the query surface: the raw amount
/// in base units, and the token's decimal shift.
pub struct TokenAccountBalance {
    pub amount: String,
    pub decimals: u8,
}

} // verus!
