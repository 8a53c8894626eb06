//! A small transaction family for a key-addressed ledger: record names are
//! mapped to fixed-length storage addresses, record field sets are kept in
//! self-describing encoded containers, inbound payloads are validated and
//! dispatched verb by verb under a write-once rule, and signed
//! transaction/batch units are assembled for submission.

pub mod address;
pub mod codec;
pub mod errors;
pub mod handler;
pub mod hexstr;
pub mod payload;
pub mod state;
pub mod transaction_utils;
