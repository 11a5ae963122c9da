//! A small S3-compatible storage toolkit: configuration read from the
//! environment, error classification, listing and batch-delete bookkeeping,
//! and the helpers of the download and counting tools.
pub mod text;
pub mod error;
pub mod client;
pub mod count;
pub mod config;
pub mod download;
