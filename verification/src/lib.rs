//! Control plane of a Kafka-compatible broker: placement, consumer groups,
//! transactions, offsets and the wire format, with their contracts.

pub mod api;
pub mod assignment;
pub mod assignment_writer;
pub mod balancer;
pub mod balancer_laws;
pub mod bootstrap;
pub mod cluster_laws;
pub mod config_type;
pub mod coordination_laws;
pub mod declaration_laws;
pub mod election;
pub mod election_laws;
pub mod endpoints;
pub mod error_codes;
pub mod fence;
pub mod group;
pub mod group_balancer;
pub mod group_hash;
pub mod group_laws;
pub mod group_replies;
pub mod group_table;
pub mod hashing;
pub mod health;
pub mod heartbeat;
pub mod heartbeat_laws;
pub mod json_object;
pub mod kafkauser;
pub mod keyed;
pub mod kube_watchers;
pub mod listener_advert;
pub mod manager;
pub mod manager_laws;
pub mod marker_laws;
pub mod metrics;
pub mod numbered;
pub mod offset_laws;
pub mod offset_store;
pub mod order;
pub mod placement_laws;
pub mod recompute_laws;
pub mod takeover;
pub mod text;
pub mod topic_config_defaults;
pub mod topic_cr_writer;
pub mod topic_registry;
pub mod txn_laws;
pub mod txn_markers;
pub mod txn_state;
pub mod user_cr_writer;
