use stowaway::config::{FileMetadata, MachineConfig, ScriptConfig, SshConfig, TreeConfig, UdevRuleConfig};
use stowaway::repository::{
    deployment_digest, digest_bytes, join_remote, join_source, validate_machine_name, DeploymentBuilder,
    DeploymentFile, DeploymentScript, LoadError, LockedAptPackage,
};
use stowaway::text::sort_strings;

fn config() -> MachineConfig {
    MachineConfig {
        version: 1,
        ssh: SshConfig { destination: "test-host".into() },
        trees: vec![
            TreeConfig { source: "home".into(), target: "~".into(), privileged: false },
            TreeConfig { source: "root".into(), target: "/".into(), privileged: true },
        ],
        metadata: vec![FileMetadata { source: "root/etc/network/interfaces.d/eth0".into(), mode: "0600".into() }],
        scripts: vec![ScriptConfig { path: "setup.sh".into(), privileged: false, timeout_seconds: 1800 }],
        udev_rules: vec![UdevRuleConfig { source: "udev/80-example.rules".into(), name: "80-example.rules".into() }],
    }
}

fn assemble(app_config: &[u8]) -> stowaway::repository::Deployment {
    let mut builder = DeploymentBuilder::new(config()).unwrap();
    let i = builder.add_tree_file(0, ".config/app/config", 0o100644).unwrap();
    builder.set_contents(i, app_config.to_vec());
    let j = builder.add_tree_file(1, "etc/network/interfaces.d/eth0", 0o100644).unwrap();
    builder.set_contents(j, b"auto eth0\n".to_vec());
    builder.check_metadata().unwrap();
    builder.add_script(0, b"#!/bin/bash\n".to_vec());
    let k = builder.add_udev_rule(0).unwrap();
    builder.set_contents(k, b"SUBSYSTEM==\"block\"\n".to_vec());
    builder.finish("test".into(), "machines/test".into(), Vec::new())
}

#[test]
fn loads_and_hashes_machine() {
    let first = assemble(b"value=true\n");
    let second = assemble(b"value=true\n");
    assert_eq!(first.files.len(), 3);
    assert_eq!(first.digest, second.digest);
    assert_eq!(first.digest.len(), 64);
    let targets: Vec<&str> = first.files.iter().map(|f| f.target.as_str()).collect();
    assert_eq!(targets, vec!["/etc/network/interfaces.d/eth0", "/etc/udev/rules.d/80-example.rules", "~/.config/app/config"]);
    assert_eq!(first.files[0].mode, 0o600);
    assert_eq!(first.files[0].source, "root/etc/network/interfaces.d/eth0");
    assert_eq!(first.files[1].mode, 0o644);
    assert!(first.files[1].privileged);
    assert!(!first.files[2].privileged);
}

#[test]
fn content_changes_digest() {
    assert_ne!(assemble(b"value=true\n").digest, assemble(b"value=false\n").digest);
}

#[test]
fn default_modes_follow_execute_bits() {
    let mut builder = DeploymentBuilder::new(config()).unwrap();
    let i = builder.add_tree_file(0, "bin/tool", 0o100700).unwrap();
    let j = builder.add_tree_file(0, "notes", 0o100600).unwrap();
    let d = builder.finish("m".into(), "d".into(), Vec::new());
    assert_eq!(i, 0);
    assert_eq!(j, 1);
    assert_eq!(d.files[0].mode, 0o755);
    assert_eq!(d.files[1].mode, 0o644);
}

#[test]
fn refuses_duplicate_targets_and_unmanaged_metadata() {
    let mut builder = DeploymentBuilder::new(config()).unwrap();
    builder.add_tree_file(1, "etc/x", 0).unwrap();
    assert!(matches!(builder.add_tree_file(1, "etc/x", 0), Err(LoadError::DuplicateTarget(t)) if t == "/etc/x"));
    assert!(matches!(builder.check_metadata(), Err(LoadError::MetadataUnmanaged(s)) if s == "root/etc/network/interfaces.d/eth0"));
    let mut bad = config();
    bad.version = 3;
    assert!(matches!(DeploymentBuilder::new(bad), Err(LoadError::Config(_))));
}

#[test]
fn digest_input_layout() {
    let bytes = digest_bytes("h", &[], &[], &[]);
    let mut expected = b"stowaway-deployment-v1\0".to_vec();
    expected.extend_from_slice(&1u64.to_be_bytes());
    expected.push(b'h');
    assert_eq!(bytes, expected);
    assert_eq!(
        deployment_digest("h", &[], &[], &[]),
        "40cf5019b2647adb264bf4f10c5c96348e2a71112fb493af93838edd1f25ddac"
    );
}

#[test]
fn digest_input_covers_packages_files_and_scripts() {
    let packages = vec![LockedAptPackage { name: "vim".into(), version: "2:9.0".into() }];
    let files = vec![DeploymentFile {
        source: "root/etc/x".into(),
        target: "/etc/x".into(),
        privileged: true,
        mode: 0o644,
        contents: b"hi".to_vec(),
    }];
    let scripts = vec![DeploymentScript {
        source: "scripts/s.sh".into(),
        privileged: false,
        timeout_seconds: 5,
        contents: b"exit 0".to_vec(),
    }];
    let bytes = digest_bytes("h", &packages, &files, &scripts);
    let mut expected = b"stowaway-deployment-v1\0".to_vec();
    let field = |out: &mut Vec<u8>, v: &[u8]| {
        out.extend_from_slice(&(v.len() as u64).to_be_bytes());
        out.extend_from_slice(v);
    };
    field(&mut expected, b"h");
    field(&mut expected, b"vim");
    field(&mut expected, b"2:9.0");
    field(&mut expected, b"root/etc/x");
    field(&mut expected, b"/etc/x");
    expected.push(1);
    expected.extend_from_slice(&0o644u32.to_be_bytes());
    field(&mut expected, b"hi");
    field(&mut expected, b"scripts/s.sh");
    expected.push(0);
    expected.extend_from_slice(&5u64.to_be_bytes());
    field(&mut expected, b"exit 0");
    assert_eq!(bytes, expected);
    let digest = deployment_digest("h", &packages, &files, &scripts);
    assert_eq!(digest.len(), 64);
    assert_ne!(digest, deployment_digest("h", &[], &files, &scripts));
}

#[test]
fn machine_names_and_paths() {
    assert!(validate_machine_name("server-01_a").is_ok());
    assert!(matches!(validate_machine_name(""), Err(LoadError::EmptyMachineName)));
    assert!(matches!(validate_machine_name("a/b"), Err(LoadError::InvalidMachineName(_))));
    assert!(matches!(validate_machine_name("é"), Err(LoadError::InvalidMachineName(_))));
    assert_eq!(join_remote("/", "etc/x"), "/etc/x");
    assert_eq!(join_remote("~", "a"), "~/a");
    assert_eq!(join_remote("/srv//", "a"), "/srv/a");
    assert_eq!(join_source("home", "a/b"), "home/a/b");
    assert_eq!(join_source("home/", "a"), "home/a");
    assert_eq!(sort_strings(vec!["b".into(), "a".into(), "ab".into()]), vec!["a".to_string(), "ab".into(), "b".into()]);
}

#[test]
fn file_order_does_not_change_the_digest() {
    let build = |order: &[&str]| {
        let mut builder = DeploymentBuilder::new(config()).unwrap();
        for name in order {
            let i = builder.add_tree_file(0, name, 0o100644).unwrap();
            builder.set_contents(i, name.as_bytes().to_vec());
        }
        let j = builder.add_tree_file(1, "etc/network/interfaces.d/eth0", 0o100644).unwrap();
        builder.set_contents(j, b"auto eth0\n".to_vec());
        builder.finish("test".into(), "machines/test".into(), Vec::new())
    };
    let first = build(&["b", "a", "c/d"]);
    let second = build(&["c/d", "b", "a"]);
    assert_eq!(first.digest, second.digest);
    let view = |d: &stowaway::repository::Deployment| {
        d.files.iter().map(|f| (f.target.clone(), f.contents.clone())).collect::<Vec<_>>()
    };
    assert_eq!(view(&first), view(&second));
    assert_eq!(view(&first)[0].0, "/etc/network/interfaces.d/eth0");
    assert_eq!(view(&first)[1].0, "~/a");
}
