//! Grouping of duplicate images by exact fingerprint.
//!
//! The library holds the decisions of a scan: which file becomes the
//! canonical record of its fingerprint, when a new group folder is opened,
//! and which folder a later duplicate joins. Directory listing, decoding,
//! hashing, the record store and file copies are performed by the caller,
//! which hands the results back as plain values.
//!
//! `model` describes a whole run over a directory as spec functions;
//! `laws` and `grouping` prove what such runs do.
pub mod grouping;
pub mod laws;
pub mod model;
pub mod scan;
pub mod tracker;
