//! Single-pass JSON field extraction for the gateway: whitespace skipping,
//! string-literal and container span scanning, and string-literal decoding.
pub mod json_scan;
pub mod spec;
pub mod laws;
pub mod round_trip;
pub mod lexical;
mod text;
