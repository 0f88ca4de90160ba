//! Users as they are declared.

use vstd::prelude::*;

verus! {

/// The group of the resources.
pub const GROUP: &'static str = "kaas.rs";

/// The version of the resources.
pub const VERSION: &'static str = "v1alpha1";

#[derive(Debug, Clone, PartialEq, Eq)]
pub struct KafkaUserSpec {
    /// None for a user that authenticates elsewhere and is only authorized
    /// here.
    pub authentication: Option<KafkaUserAuthentication>,
    pub authorization: Option<KafkaUserAuthorization>,
    pub quotas: Option<KafkaUserQuotas>,
}

#[derive(Debug, Clone, PartialEq, Eq)]
pub struct KafkaUserAuthentication {
    /// `scram-sha-512`, `tls` or `kubernetes-serviceaccount`.
    pub kind: String,
    /// Where the password is kept; none where one is generated.
    pub password: Option<SecretKeyRef>,
    /// Derived material that is passed on as it is.
    pub scram: Option<KafkaUserScramCredential>,
    /// For `tls`.
    pub certificate_ref: Option<LocalObjectRef>,
    /// For `kubernetes-serviceaccount`.
    pub service_account_ref: Option<ServiceAccountRef>,
}

/// Derived SCRAM material, in base64.
#[derive(Debug, Clone, PartialEq, Eq)]
pub struct KafkaUserScramCredential {
    pub salt: String,
    pub stored_key: String,
    pub server_key: String,
    pub iterations: i32,
}

#[derive(Debug, Clone, PartialEq, Eq)]
pub struct SecretKeyRef {
    pub name: String,
    pub key: String,
}

#[derive(Debug, Clone, PartialEq, Eq)]
pub struct LocalObjectRef {
    pub name: String,
}

#[derive(Debug, Clone, PartialEq, Eq)]
pub struct ServiceAccountRef {
    pub name: String,
    pub namespace: String,
}

#[derive(Debug, Clone, PartialEq, Eq, Default)]
pub struct KafkaUserAuthorization {
    /// `simple`, which an empty kind stands for too.
    pub kind: String,
    pub acls: Vec<KafkaUserAcl>,
}

#[derive(Debug, Clone, PartialEq, Eq)]
pub struct KafkaUserAcl {
    pub resource: KafkaUserAclResource,
    pub operations: Vec<String>,
    /// `allow`, which an empty kind stands for too, or `deny`.
    pub kind: String,
    /// A host; empty for any.
    pub host: String,
}

#[derive(Debug, Clone, PartialEq, Eq)]
pub struct KafkaUserAclResource {
    /// `topic`, `group`, `cluster` or `transactionalId`.
    pub kind: String,
    pub name: String,
    /// `literal`, which an empty type stands for too, or `prefix`.
    pub pattern_type: String,
}

/// Limits at one broker.
#[derive(Debug, Clone, PartialEq, Eq, Default)]
pub struct KafkaUserQuotas {
    pub producer_max_byte_rate_per_broker: Option<i64>,
    pub consumer_max_byte_rate_per_broker: Option<i64>,
    pub request_percentage: Option<i32>,
}

/// A condition in a status.
#[derive(Debug, Clone, PartialEq, Eq)]
pub struct Condition {
    pub kind: String,
    pub status: String,
    pub reason: String,
    pub message: String,
}

#[derive(Debug, Clone, PartialEq, Eq, Default)]
pub struct KafkaUserStatus {
    /// The secret that a generated password is in.
    pub secret: String,
    pub conditions: Vec<Condition>,
}

} // verus!
