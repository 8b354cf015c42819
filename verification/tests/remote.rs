use stowaway::remote::{
    accept_state, parse_script_check, parse_snapshot, parse_state_reply, shell_path, shell_quote,
    ApplyRequest, DeploymentState, ManagedPath, Remote, RemoteError, Snapshot, StateReply,
};
use stowaway::repository::{DeploymentFile, DeploymentScript};

#[test]
fn parses_file_with_binary_body() {
    assert_eq!(
        parse_snapshot(b"STOWAWAY1\tFILE\t600\nhello\0world").unwrap(),
        Snapshot::File { mode: 0o600, contents: b"hello\0world".to_vec() }
    );
}

#[test]
fn parses_missing_path() {
    assert_eq!(parse_snapshot(b"STOWAWAY1\tMISSING\t-\n").unwrap(), Snapshot::Missing);
}

#[test]
fn quotes_shell_values() {
    assert_eq!(shell_quote("a'b"), "'a'\\''b'");
}

#[test]
fn builds_safe_home_path_expressions() {
    assert_eq!(shell_path("~/.config/app"), "\"$HOME\"/'.config/app'");
    assert_eq!(shell_path("/etc/app"), "'/etc/app'");
}

#[test]
fn parses_script_check_contract() {
    assert_eq!(
        parse_script_check(Some(0), b"ready\n".to_vec(), b"".to_vec()).unwrap(),
        stowaway::remote::ScriptCheck { needs_apply: false, stdout: b"ready\n".to_vec(), stderr: Vec::new() }
    );
    assert!(parse_script_check(Some(10), b"".to_vec(), b"needed\n".to_vec()).unwrap().needs_apply);
    assert!(parse_script_check(Some(1), b"".to_vec(), b"broken\n".to_vec()).is_err());
    assert!(parse_script_check(Some(124), b"".to_vec(), b"".to_vec()).is_err());
}

#[test]
fn script_check_errors() {
    assert!(matches!(parse_script_check(Some(124), vec![], b"late".to_vec()), Err(RemoteError::ScriptTimedOut { stderr }) if stderr == b"late"));
    assert!(matches!(parse_script_check(None, vec![], vec![]), Err(RemoteError::ScriptFailed { code: None, .. })));
    assert!(matches!(parse_script_check(Some(3), vec![], vec![]), Err(RemoteError::ScriptFailed { code: Some(3), .. })));
}

#[test]
fn snapshot_protocol_errors() {
    assert!(matches!(parse_snapshot(b"NOT-STOWAWAY\n"), Err(RemoteError::UnsupportedProtocol)));
    assert!(matches!(parse_snapshot(b"STOWAWAY1\tFILE\t644"), Err(RemoteError::MissingHeader)));
    assert!(matches!(parse_snapshot(b"STOWAWAY1\n"), Err(RemoteError::MissingType)));
    assert!(matches!(parse_snapshot(b"STOWAWAY1\tFILE\n"), Err(RemoteError::MissingMode)));
    assert!(matches!(parse_snapshot(b"STOWAWAY1\tFILE\t644\textra\n"), Err(RemoteError::UnexpectedField)));
    assert!(matches!(parse_snapshot(b"STOWAWAY1\tFILE\t9\n"), Err(RemoteError::InvalidRemoteMode)));
    assert!(matches!(parse_snapshot(b"STOWAWAY1\tFILE\t\n"), Err(RemoteError::InvalidRemoteMode)));
    assert!(matches!(parse_snapshot(b"STOWAWAY1\tWEIRD\t-\n"), Err(RemoteError::UnknownType(k)) if k == "WEIRD"));
    assert!(matches!(parse_snapshot(b"\xff\xfe\n"), Err(RemoteError::InvalidHeader)));
}

#[test]
fn snapshot_kinds() {
    assert_eq!(parse_snapshot(b"STOWAWAY1\tDANGLING\t-\n").unwrap(), Snapshot::DanglingLink);
    assert_eq!(parse_snapshot(b"STOWAWAY1\tDIRECTORY\t-\n").unwrap(), Snapshot::Directory);
    assert_eq!(parse_snapshot(b"STOWAWAY1\tSYMLINK\t-\n").unwrap(), Snapshot::Symlink);
    assert_eq!(parse_snapshot(b"STOWAWAY1\tOTHER\t-\n").unwrap(), Snapshot::Other);
    assert_eq!(
        parse_snapshot(b"STOWAWAY1\tFILE\t+4755\n").unwrap(),
        Snapshot::File { mode: 0o4755, contents: Vec::new() }
    );
}

#[test]
fn quoting_edges() {
    assert_eq!(shell_quote(""), "''");
    assert_eq!(shell_quote("''"), "''\\'''\\'''");
    assert_eq!(shell_path("~"), "\"$HOME\"");
    assert_eq!(shell_path("~x"), "'~x'");
}

#[test]
fn destinations() {
    assert!(matches!(Remote::new("-oProxyCommand=x"), Err(RemoteError::DestinationStartsWithDash)));
    assert!(matches!(Remote::new("host\nname"), Err(RemoteError::DestinationInvalidCharacter)));
    let remote = Remote::new("server-01").unwrap();
    assert_eq!(remote.destination(), "server-01");
    assert_eq!(remote.ssh_program(), "ssh");
    let fake = Remote::with_ssh_program("fake-host", "/tmp/ssh").unwrap();
    assert_eq!(fake.ssh_program(), "/tmp/ssh");
}

#[test]
fn command_texts() {
    assert_eq!(
        Remote::check_script_command(true, 60),
        "sudo -n -- timeout --signal=TERM --kill-after=5s '60s' bash -s -- check"
    );
    assert_eq!(
        Remote::check_script_command(false, 1800),
        "timeout --signal=TERM --kill-after=5s '1800s' bash -s -- check"
    );
    let remote = Remote::new("host").unwrap();
    assert_eq!(
        remote.stage_file("abc", 3, 0o644, false),
        "set -eu; mkdir -p -- \"$HOME\"/'.local/share/stowaway/store/abc'; tee -- \"$HOME\"/'.local/share/stowaway/store/abc/3' >/dev/null; chmod 0644 -- \"$HOME\"/'.local/share/stowaway/store/abc/3'"
    );
    assert_eq!(
        remote.stage_file("abc", 12, 0o4755, true),
        "set -eu; sudo -n -- mkdir -p -- '/var/lib/stowaway/store/abc'; sudo -n -- tee -- '/var/lib/stowaway/store/abc/12' >/dev/null; sudo -n -- chmod 4755 -- '/var/lib/stowaway/store/abc/12'"
    );
    let inspect = Remote::inspect_command("~/x", true);
    assert!(inspect.starts_with("bash -c '\nset -eu\n"));
    assert!(inspect.ends_with(" -- '~/x' 1"));
    assert!(Remote::state_command().starts_with("bash -c '"));
}

#[test]
fn state_replies() {
    assert!(matches!(parse_state_reply(b"STOWAWAY1\tMISSING\t-\n"), Ok(StateReply::Missing)));
    assert!(matches!(parse_state_reply(b"STOWAWAY1\tSTATE\t-\nversion = 1\n"), Ok(StateReply::Recorded(t)) if t == "version = 1\n"));
    assert!(matches!(parse_state_reply(b"STOWAWAY1\tSTATE\t-\n\xff"), Err(RemoteError::InvalidStateText)));
    assert!(matches!(parse_state_reply(b"nothing"), Err(RemoteError::MissingStateHeader)));
    assert!(matches!(parse_state_reply(b"STOWAWAY1\tOTHER\t-\n"), Err(RemoteError::UnsupportedStateResponse)));
}

fn state(version: u32) -> DeploymentState {
    DeploymentState {
        version,
        machine: "sim-01".to_string(),
        git_commit: "abc123".to_string(),
        content_digest: "def456".to_string(),
        deployed_at: "2026-07-31T12:00:00Z".to_string(),
        managed_paths: vec![ManagedPath { path: "/etc/example".to_string(), privileged: true }],
    }
}

#[test]
fn state_versions() {
    assert_eq!(accept_state(state(1)).unwrap(), state(1));
    assert!(matches!(accept_state(state(2)), Err(RemoteError::UnsupportedStateVersion(2))));
}

fn file(target: &str, privileged: bool) -> DeploymentFile {
    DeploymentFile {
        source: format!("src{target}"),
        target: target.to_string(),
        privileged,
        mode: 0o644,
        contents: b"x\n".to_vec(),
    }
}

#[test]
fn transaction_script_sections() {
    let remote = Remote::new("host").unwrap();
    let files = vec![file("/etc/a", true), file("~/b", false)];
    let scripts = vec![
        DeploymentScript { source: "s1".into(), privileged: false, timeout_seconds: 5, contents: b"echo one".to_vec() },
        DeploymentScript { source: "s2".into(), privileged: true, timeout_seconds: 7, contents: b"echo two".to_vec() },
    ];
    let previous = vec![
        ManagedPath { path: "/etc/a".into(), privileged: true },
        ManagedPath { path: "/etc/old".into(), privileged: true },
    ];
    let plan = vec![false, true];
    let command = remote
        .apply_transaction(
            ApplyRequest {
                machine: "m",
                digest: "d1",
                git_commit: "c",
                files: &files,
                scripts: &scripts,
                script_apply: &plan,
                previous: &previous,
                adopt: false,
            },
            "version = 1\n",
            "[[managed_paths]]\n",
        )
        .unwrap();
    assert!(command.starts_with("bash -c 'set -eu\n"));
    assert!(command.contains("echo two"));
    assert!(!command.contains("echo one"));
    assert!(command.contains("old-0"));
    assert!(command.contains("unmanaged collision"));
    assert!(command.contains("managed target was replaced"));
    let bad = remote.apply_transaction(
        ApplyRequest {
            machine: "m",
            digest: "d1",
            git_commit: "c",
            files: &files,
            scripts: &scripts,
            script_apply: &[true],
            previous: &previous,
            adopt: true,
        },
        "",
        "",
    );
    assert!(matches!(bad, Err(RemoteError::ScriptPlanMismatch)));
}

#[test]
fn inspect_replies_read_back() {
    assert_eq!(
        parse_snapshot(b"STOWAWAY1\tFILE\t4755\n#!/bin/sh\n").unwrap(),
        Snapshot::File { mode: 0o4755, contents: b"#!/bin/sh\n".to_vec() }
    );
    assert_eq!(
        parse_snapshot(b"STOWAWAY1\tFILE\t0\n").unwrap(),
        Snapshot::File { mode: 0, contents: Vec::new() }
    );
    assert_eq!(parse_snapshot(b"STOWAWAY1\tDANGLING\t-\n").unwrap(), Snapshot::DanglingLink);
    assert_eq!(parse_snapshot(b"STOWAWAY1\tOTHER\t-\n").unwrap(), Snapshot::Other);
}

#[test]
fn quoted_values_stay_one_word() {
    assert_eq!(shell_quote("a b;$(x)'`"), "'a b;$(x)'\\''`'");
    assert_eq!(shell_quote(""), "''");
    assert_eq!(shell_path("~"), "\"$HOME\"");
    assert_eq!(shell_path("~user/x"), "'~user/x'");
}

#[test]
fn links_point_at_staged_copies() {
    let remote = Remote::new("host").unwrap();
    let files = vec![file("/etc/a", true), file("~/b", false)];
    let command = remote
        .apply_transaction(
            ApplyRequest {
                machine: "m",
                digest: "ab12",
                git_commit: "c",
                files: &files,
                scripts: &[],
                script_apply: &[],
                previous: &[],
                adopt: false,
            },
            "",
            "",
        )
        .unwrap();
    assert!(remote.stage_file("ab12", 0, 0o644, true).contains("'/var/lib/stowaway/store/ab12/0'"));
    assert!(command.contains("ln -s -- '\\''/var/lib/stowaway/store/ab12/0'\\''"));
    assert!(remote.stage_file("ab12", 1, 0o644, false).contains("\"$HOME\"/'.local/share/stowaway/store/ab12/1'"));
    assert!(command.contains("ln -s -- \"$HOME/.local/share/stowaway/store/ab12/1\""));
}

#[test]
fn obsolete_paths_are_those_no_longer_declared() {
    let remote = Remote::new("host").unwrap();
    let files = vec![file("/etc/a", true)];
    let previous = vec![
        ManagedPath { path: "/etc/gone".into(), privileged: true },
        ManagedPath { path: "/etc/a".into(), privileged: true },
        ManagedPath { path: "~/old".into(), privileged: false },
    ];
    let command = remote
        .apply_transaction(
            ApplyRequest {
                machine: "m",
                digest: "d",
                git_commit: "c",
                files: &files,
                scripts: &[],
                script_apply: &[],
                previous: &previous,
                adopt: false,
            },
            "",
            "",
        )
        .unwrap();
    assert!(command.contains("old-0"));
    assert!(command.contains("old-1"));
    assert!(!command.contains("old-2"));
    assert!(command.contains("/etc/gone"));
    assert!(command.contains(".local/share/stowaway/store/*) backup=\"$rollback_dir/old-1\""));
    assert_eq!(command.matches("/etc/a").count(), 1);
}

#[test]
fn fake_ssh_reports_script_timeouts() {
    let error = parse_script_check(Some(124), Vec::new(), b"deadline exceeded\n".to_vec()).unwrap_err();
    assert!(matches!(&error, RemoteError::ScriptTimedOut { stderr } if stderr == b"deadline exceeded\n"));
}
