//! The `secrets` command of the command-line interface: manage secret hints
//! and keychain-backed secrets without printing secret values.
use vstd::prelude::*;

verus! {

/// `secrets <action>`.
#[derive(Debug, Clone, PartialEq, Eq)]
pub struct SecretsCommand {
    pub action: SecretsAction,
}

/// What the `secrets` command does.
#[derive(Debug, Clone, PartialEq, Eq)]
pub enum SecretsAction {
    /// Show secret status and hints without values.
    Status(SecretsStatusArgs),
    /// Set one secret from stdin or an environment variable.
    SetValue(SecretsSetArgs),
    /// Clear one secret.
    Clear(SecretsClearArgs),
    /// Import secrets from JSON.
    Import(SecretsImportArgs),
}

/// `secrets status`.
#[derive(Debug, Clone, PartialEq, Eq)]
pub struct SecretsStatusArgs {
    pub scope: Option<SecretScopeArg>,
    pub id: Option<String>,
    pub plugin_id: Option<String>,
    pub key: Option<String>,
    pub json: bool,
}

/// `secrets set`: the value comes from stdin or from an environment
/// variable, never both.
#[derive(Debug, Clone, PartialEq, Eq)]
pub struct SecretsSetArgs {
    pub scope: SecretScopeArg,
    pub id: Option<String>,
    pub plugin_id: Option<String>,
    pub key: Option<String>,
    pub stdin: bool,
    pub env: Option<String>,
    pub json: bool,
}

/// `secrets clear`.
#[derive(Debug, Clone, PartialEq, Eq)]
pub struct SecretsClearArgs {
    pub scope: SecretScopeArg,
    pub id: Option<String>,
    pub plugin_id: Option<String>,
    pub key: Option<String>,
    pub json: bool,
}

/// `secrets import <path>`.
#[derive(Debug, Clone, PartialEq, Eq)]
pub struct SecretsImportArgs {
    pub path: String,
    pub json: bool,
}

/// The scope a secret belongs to.
#[derive(Clone, Copy, Debug, PartialEq, Eq, Structural)]
pub enum SecretScopeArg {
    Plugin,
    CloudSync,
    Connection,
}

} // verus!
