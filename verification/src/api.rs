//! The wire protocol: one module per request kind.

pub mod alter_user_scram_credentials;
pub mod common;
pub mod describe_cluster;
pub mod describe_user_scram_credentials;
pub mod endpoint_type;
pub mod layout_laws;
pub mod mechanism;
pub mod metadata;
pub mod reading_laws;
pub mod registry;
