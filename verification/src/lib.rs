//! Checks of a certificate chain as a browser exports it: the export is split into
//! its certificates, each certificate is decoded and described, and the first one,
//! the end-entity certificate, is validated for a domain name.
//!
//! - [`normalize`] turns an export into the encoded certificates of the chain.
//! - [`decode`] turns an encoded certificate into the bytes of the certificate.
//! - [`introspect`] reads from the bytes what a certificate says of itself.
//! - [`validate`] decides whether the end-entity certificate stands for a name.
//! - [`pipeline`] runs these over a chain and stops at the first error.
//! - [`text`] holds the search in text that the first two rest on.

pub mod decode;
pub mod introspect;
pub mod normalize;
pub mod pipeline;
pub mod text;
pub mod validate;
