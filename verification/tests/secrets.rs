use oxideterm::secret_store::interpret_exists;
use oxideterm::cli_secrets::{SecretScopeArg, SecretsAction, SecretsCommand, SecretsImportArgs};
use oxideterm::secret_store::{
    interpret_delete, interpret_load, NativeSecretStore, ScopedSecretStore, SecretStoreOperation,
};

#[test]
fn load_answers_are_interpreted() {
    assert_eq!(interpret_load(Ok("s3cret".to_string())).unwrap(), Some("s3cret".to_string()));
    assert_eq!(interpret_load(Err(keyring::Error::NoEntry)).unwrap(), None);
    let error = interpret_load(Err(keyring::Error::Invalid("user".into(), "bad".into())))
        .unwrap_err();
    assert_eq!(error.operation, SecretStoreOperation::Load);
}

#[test]
fn deleting_a_missing_secret_succeeds() {
    assert!(interpret_delete(Ok(())).is_ok());
    assert!(interpret_delete(Err(keyring::Error::NoEntry)).is_ok());
    let error = interpret_delete(Err(keyring::Error::TooLong("user".into(), 3))).unwrap_err();
    assert_eq!(error.operation, SecretStoreOperation::Delete);
}

#[test]
fn stores_can_be_created_for_a_service() {
    let _native = NativeSecretStore::new("com.example.test");
    let _scoped = ScopedSecretStore::new("com.example.test");
}

#[test]
fn secrets_command_values_compare_by_content() {
    let command = SecretsCommand {
        action: SecretsAction::Import(SecretsImportArgs { path: "s.json".to_string(), json: true }),
    };
    assert_eq!(command.clone(), command);
    assert_ne!(SecretScopeArg::Plugin, SecretScopeArg::Connection);
}

#[test]
fn an_empty_secret_means_delete() {
    assert!(oxideterm::secret_store::scoped_store_deletes(""));
    assert!(!oxideterm::secret_store::scoped_store_deletes("x"));
}

#[test]
fn existence_follows_the_load_answer() {
    assert!(matches!(interpret_exists(Ok("s".to_string())), Ok(true)));
    assert!(matches!(interpret_exists(Err(keyring::Error::NoEntry)), Ok(false)));
    assert!(interpret_exists(Err(keyring::Error::TooLong("x".to_string(), 1))).is_err());
}
