//! Encoder for QR Code symbols: from bytes, an error correction level and
//! perhaps a version to the square of dark and light modules that a reader
//! decodes.
//!
//! [`qrcode::encode`] runs the whole pipeline. Its steps can be called one
//! by one:
//!
//! - [`version`] holds the forty versions and the tables keyed by them, and
//!   picks the smallest version that holds an input;
//! - [`encode`] chooses the mode and packs the input into a segment of
//!   bits, which [`bitstring`] collects, pads and reads out as codewords;
//! - [`polynomials`] is the arithmetic of GF(256) and the division that
//!   gives the error correction codewords, which [`correction`] computes
//!   block by block and interleaves with the data;
//! - [`default`] draws the function patterns and marks the reserved
//!   modules, [`placement`] lays the codewords into the free ones, and
//!   [`layout`] shows that they fit exactly;
//! - [`datamasking`] applies a mask pattern, [`score`] rates the result,
//!   and [`format`] writes the format and version information.
//!
//! Every function states what it returns over the mathematical model that
//! stands beside it, and is verified against that statement.
pub mod arith;
pub mod bitstring;
pub mod correction;
pub mod datamasking;
pub mod default;
pub mod encode;
pub mod error;
pub mod format;
pub mod layout;
pub mod placement;
pub mod polynomials;
pub mod qrcode;
pub mod score;
pub mod vecl;
pub mod version;
