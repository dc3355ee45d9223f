use omega_drive::extensions::{
    default_frontend, dependency_error_message, ensure_allowed, is_valid_command_id, is_valid_extension_id, manifest_error_message,
    registry_error_kind, registry_error_message, DependencyDenied, ErrorKind, ExtensionDependencyKey, ExtensionManifest,
    ExtensionRegistry, InvocationMeta, ManifestError, RegistryError,
};

fn manifest(id: &str, commands: &[&str]) -> ExtensionManifest {
    ExtensionManifest {
        id: id.to_string(),
        version: "1.0.0".to_string(),
        description: "test extension".to_string(),
        frontend: default_frontend(),
        commands: commands.iter().map(|c| c.to_string()).collect(),
        dependencies: vec![ExtensionDependencyKey::Drive],
    }
}

#[test]
fn extension_ids() {
    assert!(is_valid_extension_id("omega.diagnostics"));
    assert!(is_valid_extension_id("a.b.c_1"));
    assert!(!is_valid_extension_id("nodot"));
    assert!(!is_valid_extension_id(".a.b"));
    assert!(!is_valid_extension_id("a.b."));
    assert!(!is_valid_extension_id("a..b"));
    assert!(!is_valid_extension_id("A.b"));
    assert!(!is_valid_extension_id("a-b.c"));
}

#[test]
fn command_ids() {
    assert!(is_valid_command_id("get_status"));
    assert!(!is_valid_command_id(""));
    assert!(!is_valid_command_id("get.status"));
    assert!(!is_valid_command_id("Get"));
}

#[test]
fn manifest_validation_order() {
    assert_eq!(manifest("bad", &["x"]).validate(), Err(ManifestError::InvalidExtensionId));
    let mut m = manifest("a.b", &["x"]);
    m.version = " \t".to_string();
    assert_eq!(m.validate(), Err(ManifestError::MissingVersion));
    let mut m = manifest("a.b", &["x"]);
    m.description = "\u{3000}".to_string();
    assert_eq!(m.validate(), Err(ManifestError::MissingDescription));
    assert_eq!(manifest("a.b", &[]).validate(), Err(ManifestError::NoCommands));
    assert_eq!(manifest("a.b", &["ok", "Bad"]).validate(), Err(ManifestError::InvalidCommandId(1)));
    assert_eq!(manifest("a.b", &["x", "y", "x"]).validate(), Err(ManifestError::DuplicateCommand(2)));
    assert_eq!(manifest("a.b", &["x", "y"]).validate(), Ok(()));
}

#[test]
fn supports_declared_commands() {
    let m = manifest("a.b", &["x", "y"]);
    assert!(m.supports_command("y"));
    assert!(!m.supports_command("z"));
}

#[test]
fn dependency_keys() {
    assert_eq!(ExtensionDependencyKey::UiEvents.as_str(), "ui_events");
    assert_eq!(ExtensionDependencyKey::FeatureLogs.as_str(), "feature_logs");
    assert_eq!(ExtensionDependencyKey::all().len(), 9);
    assert_eq!(ExtensionDependencyKey::all()[4], ExtensionDependencyKey::Playback);
    let allowed = [ExtensionDependencyKey::Drive, ExtensionDependencyKey::Settings];
    assert_eq!(ensure_allowed(&allowed, ExtensionDependencyKey::Settings), Ok(()));
    assert_eq!(
        ensure_allowed(&allowed, ExtensionDependencyKey::Upload),
        Err(DependencyDenied {
            kind: ErrorKind::Permission,
            message: "Extension dependency 'upload' is not granted".to_string(),
        })
    );
}

#[test]
fn registry_register_and_lookup() {
    let mut reg: ExtensionRegistry<u32> = ExtensionRegistry::new();
    assert_eq!(reg.register(manifest("z.last", &["run"]), 1), Ok(()));
    assert_eq!(reg.register(manifest("a.first", &["go", "stop"]), 2), Ok(()));
    assert_eq!(reg.register(manifest("a.first", &["go"]), 3), Err(RegistryError::DuplicateExtension));
    assert_eq!(
        reg.register(manifest("bad", &["go"]), 4),
        Err(RegistryError::InvalidManifest(ManifestError::InvalidExtensionId))
    );
    assert_eq!(reg.lookup_extension("a.first", "stop"), Ok(&2));
    assert_eq!(reg.lookup_extension("a.first", "run"), Err(RegistryError::UnknownCommand));
    assert_eq!(reg.lookup_extension("x.y", "run"), Err(RegistryError::UnknownExtension));
    assert_eq!(reg.get("z.last"), Some(&1));
    assert_eq!(reg.get("none.here"), None);
    assert_eq!(reg.ids(), vec!["a.first".to_string(), "z.last".to_string()]);
}

#[test]
fn invocation_meta_default() {
    let m = InvocationMeta::default();
    assert_eq!(m.window_label, None);
}

#[test]
fn error_messages_and_kinds() {
    let m = manifest("diag.snapshot", &["read", "read"]);
    assert_eq!(
        manifest_error_message(&m, ManifestError::InvalidExtensionId),
        "Invalid extension id 'diag.snapshot': expected segment.segment with lowercase ascii"
    );
    assert_eq!(manifest_error_message(&m, ManifestError::MissingVersion), "Extension 'diag.snapshot' is missing version");
    assert_eq!(
        manifest_error_message(&m, ManifestError::NoCommands),
        "Extension 'diag.snapshot' must declare at least one command"
    );
    assert_eq!(
        manifest_error_message(&m, ManifestError::DuplicateCommand(1)),
        "Duplicate command 'read' in extension 'diag.snapshot'"
    );
    assert_eq!(
        registry_error_message(&m, "diag.snapshot", "", RegistryError::DuplicateExtension),
        "Duplicate extension id 'diag.snapshot'"
    );
    assert_eq!(registry_error_message(&m, "x.y", "go", RegistryError::UnknownCommand), "Unknown extension command 'x.y.go'");
    assert_eq!(registry_error_message(&m, "x.y", "go", RegistryError::UnknownExtension), "Unknown extension 'x.y'");
    assert_eq!(registry_error_kind(&RegistryError::DuplicateExtension), ErrorKind::Conflict);
    assert_eq!(registry_error_kind(&RegistryError::UnknownCommand), ErrorKind::NotFound);
    assert_eq!(registry_error_kind(&RegistryError::InvalidManifest(ManifestError::NoCommands)), ErrorKind::InvalidInput);
}

#[test]
fn registered_extension_is_found_and_ids_ascend() {
    let mut reg: ExtensionRegistry<u32> = ExtensionRegistry::new();
    assert!(reg.register(manifest("b.ext", &["go"]), 2).is_ok());
    assert!(reg.register(manifest("a.ext", &["go"]), 1).is_ok());
    assert_eq!(reg.register(manifest("a.ext", &["go"]), 9), Err(RegistryError::DuplicateExtension));
    assert_eq!(reg.get("a.ext"), Some(&1));
    assert_eq!(reg.get("b.ext"), Some(&2));
    assert_eq!(reg.ids(), vec!["a.ext".to_string(), "b.ext".to_string()]);
}

#[test]
fn refused_dependencies_name_the_key() {
    assert_eq!(
        dependency_error_message(ExtensionDependencyKey::FeatureLogs),
        "Extension dependency 'feature_logs' is not granted"
    );
    let err = ensure_allowed(&[], ExtensionDependencyKey::Diagnostics).unwrap_err();
    assert_eq!(err.kind, ErrorKind::Permission);
    assert_eq!(err.message, "Extension dependency 'diagnostics' is not granted");
}
