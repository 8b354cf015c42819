use stowaway::config::{
    default_timeout, parse_mode, validate_relative, validate_remote_target, ConfigError, FileMetadata,
    MachineConfig, ScriptConfig, SshConfig, TreeConfig, UdevRuleConfig,
};

fn tree(source: &str, target: &str, privileged: bool) -> TreeConfig {
    TreeConfig { source: source.to_string(), target: target.to_string(), privileged }
}

fn manifest() -> MachineConfig {
    MachineConfig {
        version: 1,
        ssh: SshConfig { destination: "server-01".to_string() },
        trees: vec![tree("home", "~", false), tree("root", "/", true)],
        metadata: vec![FileMetadata {
            source: "root/etc/network/interfaces.d/10-server".to_string(),
            mode: "0644".to_string(),
        }],
        scripts: vec![ScriptConfig {
            path: "scripts/networking.sh".to_string(),
            privileged: false,
            timeout_seconds: 3600,
        }],
        udev_rules: vec![UdevRuleConfig {
            source: "udev/80-example.rules".to_string(),
            name: "80-example.rules".to_string(),
        }],
    }
}

#[test]
fn rejects_parent_components() {
    assert!(validate_relative("../etc", "path").is_err());
}

#[test]
fn parses_modes() {
    assert_eq!(parse_mode("0755").unwrap(), 0o755);
    assert!(parse_mode("755").is_err());
    assert!(parse_mode("0999").is_err());
}

#[test]
fn rejects_escaping_remote_targets() {
    assert!(validate_remote_target("~/../etc").is_err());
    assert!(validate_remote_target("/etc/../root").is_err());
    assert!(validate_remote_target("~/.config").is_ok());
    assert!(validate_remote_target("/etc/network").is_ok());
    assert!(validate_remote_target("~/bad\tname").is_err());
}

#[test]
fn relative_path_errors_name_the_problem() {
    assert!(matches!(validate_relative("", "tree source"), Err(ConfigError::EmptyPath { label }) if label == "tree source"));
    assert!(matches!(validate_relative("/etc", "path"), Err(ConfigError::AbsolutePath { .. })));
    assert!(matches!(validate_relative("./a", "path"), Err(ConfigError::UnsafePath { .. })));
    assert!(matches!(validate_relative("a/../b", "path"), Err(ConfigError::UnsafePath { .. })));
    assert!(validate_relative("a/./b", "path").is_ok());
    assert!(validate_relative("a/..b/c", "path").is_ok());
    assert!(validate_relative("home/", "path").is_ok());
}

#[test]
fn remote_target_edges() {
    assert!(validate_remote_target("~").is_ok());
    assert!(validate_remote_target("/").is_ok());
    assert!(matches!(validate_remote_target("/etc/"), Err(ConfigError::TargetTrailingSlash(_))));
    assert!(matches!(validate_remote_target("~/"), Err(ConfigError::TargetTrailingSlash(_))));
    assert!(matches!(validate_remote_target("~/./x"), Err(ConfigError::UnsafeTargetComponent(_))));
    assert!(validate_remote_target("/./x").is_ok());
    assert!(matches!(validate_remote_target("/etc\n"), Err(ConfigError::InvalidTargetCharacter)));
}

#[test]
fn mode_edges() {
    assert_eq!(parse_mode("0000").unwrap(), 0);
    assert_eq!(parse_mode("0777").unwrap(), 0o777);
    assert!(matches!(parse_mode("1755"), Err(ConfigError::ModeFormat(_))));
    assert!(matches!(parse_mode("07550"), Err(ConfigError::ModeFormat(_))));
    assert!(matches!(parse_mode("0é1"), Err(ConfigError::InvalidMode(_))));
    assert!(matches!(parse_mode("0+12"), Err(ConfigError::InvalidMode(_))));
}

#[test]
fn accepts_the_documented_manifest() {
    assert!(manifest().validate().is_ok());
    assert_eq!(default_timeout(), 1800);
}

#[test]
fn refuses_invalid_manifests() {
    let mut m = manifest();
    m.version = 2;
    assert!(matches!(m.validate(), Err(ConfigError::UnsupportedVersion(2))));

    let mut m = manifest();
    m.ssh.destination = " \t ".to_string();
    assert!(matches!(m.validate(), Err(ConfigError::EmptyDestination)));

    let mut m = manifest();
    m.trees.clear();
    assert!(matches!(m.validate(), Err(ConfigError::NoTrees)));

    let mut m = manifest();
    m.trees.push(tree("home/./", "~/other", false));
    assert!(matches!(m.validate(), Err(ConfigError::DuplicateTreeSource(s)) if s == "home/./"));

    let mut m = manifest();
    m.trees[1].target = "etc".to_string();
    assert!(matches!(m.validate(), Err(ConfigError::PrivilegedTargetNotAbsolute(_))));

    let mut m = manifest();
    m.trees[0].target = "/home/user".to_string();
    assert!(matches!(m.validate(), Err(ConfigError::UnprivilegedTargetOutsideHome(_))));

    let mut m = manifest();
    m.metadata.push(FileMetadata {
        source: "root//etc/network/interfaces.d/10-server".to_string(),
        mode: "0600".to_string(),
    });
    assert!(matches!(m.validate(), Err(ConfigError::DuplicateMetadata(_))));

    let mut m = manifest();
    m.metadata[0].mode = "644".to_string();
    assert!(matches!(m.validate(), Err(ConfigError::ModeFormat(_))));

    let mut m = manifest();
    m.scripts[0].timeout_seconds = 0;
    assert!(matches!(m.validate(), Err(ConfigError::ZeroTimeout)));

    let mut m = manifest();
    m.scripts.push(ScriptConfig { path: "scripts/networking.sh".to_string(), privileged: true, timeout_seconds: 1 });
    assert!(matches!(m.validate(), Err(ConfigError::DuplicateScript(_))));

    let mut m = manifest();
    m.scripts[0].path = "../outside.sh".to_string();
    assert!(matches!(m.validate(), Err(ConfigError::UnsafePath { label, .. }) if label == "script path"));
}

#[test]
fn shown_modes_read_back() {
    for mode in [0u32, 0o7, 0o644, 0o755, 0o777] {
        let mut text = String::new();
        stowaway::text::push_octal4(&mut text, mode);
        assert_eq!(text.len(), 4);
        assert_eq!(parse_mode(&text).unwrap(), mode);
    }
}
