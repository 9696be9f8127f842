//! A verified core for a small ticker gateway: parsing of decimal price
//! strings, per-instrument extraction from a ticker snapshot, and assembly
//! of the plain-text responses served over HTTP.

pub mod decimal;
pub mod extract;
pub mod handler;
pub mod laws;
