//! Connection configuration and the error taxonomy.
//!
//! A configuration is resolved before a store connection is opened, either
//! from values supplied directly by the implementing type or from the
//! process environment (read by the host and passed in as plain values).
//! A resolution failure is a configuration error, distinct from a failure
//! of the store itself.

use vstd::prelude::*;

verus! {

/// The stage at which an operation failed.
///
/// Errors propagate directly to the caller: the binding performs no retry
/// and no local recovery.
#[derive(Clone, Copy, PartialEq, Eq, Structural, Debug)]
pub enum SyncError {
    /// Configuration could not be resolved (missing project id, missing
    /// credential path, missing collection name). No store call is made.
    Configuration,
    /// The store connection or a store-side request failed.
    Transport,
    /// A payload could not be converted to or from the entity type.
    Serialization,
}

/// The config for how an object syncs with the cloud.
///
/// # Fields:
/// - project_id: name of the project at the store provider
/// - cred_path: the location of the credentials file for the project
/// - collection: the name of the collection that objects of this type
///   should be saved to
pub struct CLConfig {
    pub project_id: String,
    pub cred_path: String,
    pub collection: String,
}

impl CLConfig {
    /// A configuration is resolved when none of its parts is missing.
    pub open spec fn resolved(&self) -> bool {
        self.project_id@.len() > 0 && self.cred_path@.len() > 0 && self.collection@.len() > 0
    }
}

/// Resolve a configuration from values supplied directly by the
/// implementing type. Succeeds exactly when every part is non-empty;
/// otherwise the operation fails with a configuration error before any
/// store call could be attempted.
pub fn resolve_explicit(project_id: String, cred_path: String, collection: String) -> (r: Result<
    CLConfig,
    SyncError,
>)
    ensures
        r matches Ok(c) ==> c.project_id@ == project_id@ && c.cred_path@ == cred_path@
            && c.collection@ == collection@ && c.resolved(),
        r is Ok <==> project_id@.len() > 0 && cred_path@.len() > 0 && collection@.len() > 0,
        r matches Err(e) ==> e == SyncError::Configuration,
{
    if project_id.as_str().is_empty() || cred_path.as_str().is_empty()
        || collection.as_str().is_empty() {
        Err(SyncError::Configuration)
    } else {
        Ok(CLConfig { project_id, cred_path, collection })
    }
}

/// Resolve a configuration from the process environment: the project id
/// comes from an environment variable (read by the host and handed in as
/// it was found, `None` when the variable is unset), the credential path
/// is fixed, and the collection name is derived from the implementing
/// type's declared name. A missing or empty variable is a configuration
/// error, raised before any store call could be attempted.
pub fn resolve_env(env_project_id: Option<String>, cred_path: String, entity_name: String) -> (r:
    Result<CLConfig, SyncError>)
    ensures
        r matches Ok(c) ==> env_project_id matches Some(p) && c.project_id@ == p@
            && c.cred_path@ == cred_path@ && c.collection@ == entity_name@ && c.resolved(),
        r is Ok <==> (env_project_id matches Some(p) && p@.len() > 0) && cred_path@.len() > 0
            && entity_name@.len() > 0,
        r matches Err(e) ==> e == SyncError::Configuration,
{
    match env_project_id {
        Some(project_id) => resolve_explicit(project_id, cred_path, entity_name),
        None => Err(SyncError::Configuration),
    }
}

} // verus!
