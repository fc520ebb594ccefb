//! A small verified core for a file-upload service: extension allow-listing,
//! collision-free filename generation, and the decision logic of the two
//! HTTP endpoints (health report and upload).

pub mod naming;
pub mod service;
pub mod text;
