//! Application secrets kept in the platform credential manager, through the
//! `keyring` crate. What the credential manager holds is outside this
//! library: it decides every outcome, and the functions here say what they
//! make of each one.
use vstd::prelude::*;
use vstd::string::StringExecFns;

verus! {

#[verifier::external_type_specification]
#[verifier::external_body]
pub struct ExKeyringEntry(keyring::Entry);

#[verifier::external_type_specification]
#[verifier::external_body]
pub struct ExKeyringError(keyring::Error);

/// Whether a credential-manager error says that there is no such entry.
pub uninterp spec fn keyring_error_is_no_entry(e: keyring::Error) -> bool;

/// The service and user a credential-manager entry was made for.
pub uninterp spec fn keyring_entry_key(e: keyring::Entry) -> (Seq<char>, Seq<char>);

/// Calls `keyring::Entry::new(service, account)`. Trusted: an entry it makes
/// is the one for that service and user (the default credential builder is
/// given no target, `service` and `account`); whether it succeeds depends
/// on the platform.
#[verifier::external_body]
fn open_entry(service: &str, account: &str) -> (r: Result<keyring::Entry, keyring::Error>)
    ensures
        r matches Ok(e) ==> keyring_entry_key(e) == (service@, account@),
{
    keyring::Entry::new(service, account)
}

/// Calls `keyring::Entry::set_password`. Trusted; the outcome depends on the
/// platform.
#[verifier::external_body]
fn entry_set_password(entry: &keyring::Entry, secret: &str) -> (r: Result<(), keyring::Error>) {
    entry.set_password(secret)
}

/// Calls `keyring::Entry::get_password`. Trusted; the outcome depends on the
/// platform.
#[verifier::external_body]
fn entry_get_password(entry: &keyring::Entry) -> (r: Result<String, keyring::Error>) {
    entry.get_password()
}

/// Calls `keyring::Entry::delete_credential`. Trusted; the outcome depends on
/// the platform.
#[verifier::external_body]
fn entry_delete_credential(entry: &keyring::Entry) -> (r: Result<(), keyring::Error>) {
    entry.delete_credential()
}

/// Tells `keyring::Error::NoEntry` from the other variants. Trusted: the
/// result is named by `keyring_error_is_no_entry`.
#[verifier::external_body]
fn is_no_entry(error: &keyring::Error) -> (r: bool)
    ensures
        r == keyring_error_is_no_entry(*error),
{
    match error {
        keyring::Error::NoEntry => true,
        _ => false,
    }
}

/// The credential-manager operation that failed.
#[derive(Clone, Copy, Debug, PartialEq, Eq, Structural)]
pub enum SecretStoreOperation {
    OpenEntry,
    Store,
    Load,
    Delete,
}

/// A failure of the credential manager, with the operation it came from.
#[derive(Debug)]
pub struct SecretStoreError {
    pub operation: SecretStoreOperation,
    pub source: keyring::Error,
}

/// Stores application secrets in the platform credential manager, under one
/// service name.
#[derive(Clone, Debug)]
pub struct NativeSecretStore {
    service: String,
}

/// A secret namespace of one service.
#[derive(Clone, Debug)]
pub struct ScopedSecretStore {
    service: String,
}

impl ScopedSecretStore {
    /// The namespace of `service`.
    pub fn new(service: &str) -> (r: Self)
        ensures
            r.service_name() == service@,
    {
        ScopedSecretStore { service: String::from_str(service) }
    }

    pub closed spec fn service_name(&self) -> Seq<char> {
        self.service@
    }
}

/// What a load answer means: the secret, no secret, or a failure.
pub open spec fn spec_load_outcome(result: Result<String, keyring::Error>) -> Result<
    Option<Seq<char>>,
    SecretStoreOperation,
> {
    match result {
        Ok(s) => Ok(Some(s@)),
        Err(e) => if keyring_error_is_no_entry(e) {
            Ok(None)
        } else {
            Err(SecretStoreOperation::Load)
        },
    }
}

/// Interprets the credential manager's answer to a load: a missing entry is
/// no secret, any other error a failure.
pub fn interpret_load(result: Result<String, keyring::Error>) -> (r: Result<
    Option<String>,
    SecretStoreError,
>)
    ensures
        match (r, spec_load_outcome(result)) {
            (Ok(Some(s)), Ok(Some(t))) => s@ == t,
            (Ok(None), Ok(None)) => true,
            (Err(e), Err(op)) => e.operation == op,
            _ => false,
        },
{
    match result {
        Ok(secret) => Ok(Some(secret)),
        Err(error) => {
            if is_no_entry(&error) {
                Ok(None)
            } else {
                Err(SecretStoreError { operation: SecretStoreOperation::Load, source: error })
            }
        },
    }
}

/// Interprets the credential manager's answer to a deletion: deleting a
/// missing entry succeeds.
pub fn interpret_delete(result: Result<(), keyring::Error>) -> (r: Result<(), SecretStoreError>)
    ensures
        match result {
            Ok(()) => r is Ok,
            Err(e) => if keyring_error_is_no_entry(e) {
                r is Ok
            } else {
                r matches Err(f) && f.operation == SecretStoreOperation::Delete
            },
        },
{
    match result {
        Ok(()) => Ok(()),
        Err(error) => {
            if is_no_entry(&error) {
                Ok(())
            } else {
                Err(SecretStoreError { operation: SecretStoreOperation::Delete, source: error })
            }
        },
    }
}

impl NativeSecretStore {
    /// The store of `service`.
    pub fn new(service: &str) -> (r: Self)
        ensures
            r.service_name() == service@,
    {
        NativeSecretStore { service: String::from_str(service) }
    }

    pub closed spec fn service_name(&self) -> Seq<char> {
        self.service@
    }

    /// The credential-manager entry of `account` under this store's service.
    pub fn entry(&self, account: &str) -> (r: Result<keyring::Entry, SecretStoreError>)
        ensures
            r matches Err(e) ==> e.operation == SecretStoreOperation::OpenEntry,
            r matches Ok(e) ==> keyring_entry_key(e) == (self.service_name(), account@),
    {
        match open_entry(self.service.as_str(), account) {
            Ok(entry) => Ok(entry),
            Err(error) => Err(
                SecretStoreError { operation: SecretStoreOperation::OpenEntry, source: error },
            ),
        }
    }

    /// Stores `secret` for `account`.
    pub fn store(&self, account: &str, secret: &str) -> (r: Result<(), SecretStoreError>)
        ensures
            r matches Err(e) ==> e.operation == SecretStoreOperation::OpenEntry || e.operation
                == SecretStoreOperation::Store,
    {
        let entry = match self.entry(account) {
            Ok(e) => e,
            Err(e) => return Err(e),
        };
        match entry_set_password(&entry, secret) {
            Ok(()) => Ok(()),
            Err(error) => Err(
                SecretStoreError { operation: SecretStoreOperation::Store, source: error },
            ),
        }
    }

    /// Loads the secret of `account`; `None` when there is none.
    pub fn get(&self, account: &str) -> (r: Result<Option<String>, SecretStoreError>)
        ensures
            r matches Err(e) ==> e.operation == SecretStoreOperation::OpenEntry || e.operation
                == SecretStoreOperation::Load,
    {
        let entry = match self.entry(account) {
            Ok(e) => e,
            Err(e) => return Err(e),
        };
        interpret_load(entry_get_password(&entry))
    }

    /// Loads the secret of `account`. The credential manager here keeps no
    /// access rule to restore after a read, so this is `get`.
    pub fn get_and_relax(&self, account: &str) -> (r: Result<Option<String>, SecretStoreError>)
        ensures
            r matches Err(e) ==> e.operation == SecretStoreOperation::OpenEntry || e.operation
                == SecretStoreOperation::Load,
    {
        self.get(account)
    }

    /// Deletes the secret of `account`; a missing one is no failure.
    pub fn delete(&self, account: &str) -> (r: Result<(), SecretStoreError>)
        ensures
            r matches Err(e) ==> e.operation == SecretStoreOperation::OpenEntry || e.operation
                == SecretStoreOperation::Delete,
    {
        let entry = match self.entry(account) {
            Ok(e) => e,
            Err(e) => return Err(e),
        };
        interpret_delete(entry_delete_credential(&entry))
    }

    /// Whether a secret is stored for `account`: the credential manager's
    /// answer for this account's entry, as `interpret_exists` reads it.
    pub fn secret_exists(&self, account: &str) -> (r: Result<bool, SecretStoreError>)
        ensures
            r matches Err(e) ==> e.operation == SecretStoreOperation::OpenEntry || e.operation
                == SecretStoreOperation::Load,
            r matches Ok(b) ==> exists|answer: Result<String, keyring::Error>|
                #[trigger] spec_exists_outcome(answer) == Ok::<bool, SecretStoreOperation>(b),
    {
        let entry = match self.entry(account) {
            Ok(e) => e,
            Err(e) => return Err(e),
        };
        let answer = entry_get_password(&entry);
        let ghost a = answer;
        let r = interpret_exists(answer);
        proof {
            if let Ok(b) = r {
                assert(spec_exists_outcome(a) == Ok::<bool, SecretStoreOperation>(b));
            }
        }
        r
    }
}


/// What an answer to a load says of whether a secret exists: a secret means
/// yes, a missing entry no, any other error a failure.
pub open spec fn spec_exists_outcome(result: Result<String, keyring::Error>) -> Result<
    bool,
    SecretStoreOperation,
> {
    match spec_load_outcome(result) {
        Ok(v) => Ok(v is Some),
        Err(op) => Err(op),
    }
}

/// Interprets the credential manager's answer to a load as whether a secret
/// exists.
pub fn interpret_exists(result: Result<String, keyring::Error>) -> (r: Result<bool, SecretStoreError>)
    ensures
        match (r, spec_exists_outcome(result)) {
            (Ok(b), Ok(c)) => b == c,
            (Err(e), Err(op)) => e.operation == op,
            _ => false,
        },
{
    match interpret_load(result) {
        Ok(secret) => Ok(secret.is_some()),
        Err(e) => Err(e),
    }
}

/// Whether storing `secret` in a scoped store deletes the entry instead: an
/// empty secret means "forget it".
pub fn scoped_store_deletes(secret: &str) -> (r: bool)
    ensures
        r == (secret@.len() == 0),
{
    secret.unicode_len() == 0
}

impl ScopedSecretStore {
    /// Stores `secret` for `account` in the platform credential manager; an
    /// empty secret deletes the entry instead.
    pub fn store_native(&self, account: &str, secret: &str) -> (r: Result<(), SecretStoreError>)
        ensures
            secret@.len() == 0 ==> (r matches Err(e) ==> e.operation
                == SecretStoreOperation::OpenEntry || e.operation == SecretStoreOperation::Delete),
            secret@.len() > 0 ==> (r matches Err(e) ==> e.operation
                == SecretStoreOperation::OpenEntry || e.operation == SecretStoreOperation::Store),
    {
        let store = NativeSecretStore::new(self.service.as_str());
        if scoped_store_deletes(secret) {
            store.delete(account)
        } else {
            store.store(account, secret)
        }
    }
}

} // verus!
