use stowaway::commands::{
    apply_needed, confirmed, diff, file_diff, import_action, imported_permissions, lines_of, managed_paths,
    previous_paths, pull_diff, script_check_report, script_plan, snapshot_name, status_report, ImportAction,
};
use stowaway::remote::{DeploymentState, ManagedPath, ScriptCheck, Snapshot};
use stowaway::repository::DeploymentFile;

fn file() -> DeploymentFile {
    DeploymentFile {
        source: "root/etc/example".to_string(),
        target: "/etc/example".into(),
        privileged: true,
        mode: 0o644,
        contents: b"new\n".to_vec(),
    }
}

#[test]
fn identical_file_is_unchanged() {
    assert!(!file_diff(&file(), &Snapshot::File { mode: 0o644, contents: b"new\n".to_vec() }).changed);
}

#[test]
fn missing_file_is_changed() {
    assert!(file_diff(&file(), &Snapshot::Missing).changed);
}

#[test]
fn pull_detects_content_and_mode_changes() {
    assert!(pull_diff(&file(), &Snapshot::File { mode: 0o755, contents: b"remote\n".to_vec() }).changed);
    assert!(!pull_diff(&file(), &Snapshot::File { mode: 0o644, contents: b"new\n".to_vec() }).changed);
}

#[test]
fn file_diff_text() {
    let report = file_diff(&file(), &Snapshot::File { mode: 0o600, contents: b"old\n".to_vec() });
    assert_eq!(
        report.text,
        "--- remote:/etc/example\n+++ local:root/etc/example\nmode 0600 -> 0644\n-old\n+new\n"
    );
    let missing = file_diff(&file(), &Snapshot::Missing);
    assert_eq!(missing.text, "/etc/example: missing -> file (0644, 4 bytes)\n");
    let binary = file_diff(&file(), &Snapshot::File { mode: 0o644, contents: vec![0xff, 0xfe] });
    assert_eq!(
        binary.text,
        "--- remote:/etc/example\n+++ local:root/etc/example\nbinary content differs (2 remote bytes, 4 local bytes)\n"
    );
    let no_newline = file_diff(&file(), &Snapshot::File { mode: 0o644, contents: b"old".to_vec() });
    assert_eq!(no_newline.text, "--- remote:/etc/example\n+++ local:root/etc/example\n-old\n\n+new\n");
}

#[test]
fn pull_diff_text() {
    let report = pull_diff(&file(), &Snapshot::File { mode: 0o755, contents: b"new\n".to_vec() });
    assert_eq!(report.text, "--- local:root/etc/example\n+++ remote:/etc/example\nmode 0644 -> 0755\n new\n");
    let dir = pull_diff(&file(), &Snapshot::Directory);
    assert_eq!(dir.text, "root/etc/example: local file -> directory\n");
}

#[test]
fn snapshot_names() {
    assert_eq!(snapshot_name(&Snapshot::DanglingLink), "dangling link");
    assert_eq!(snapshot_name(&Snapshot::Other), "special file");
    assert_eq!(snapshot_name(&Snapshot::File { mode: 0, contents: vec![] }), "file");
}

fn check(needs_apply: bool, stdout: &[u8], stderr: &[u8]) -> ScriptCheck {
    ScriptCheck { needs_apply, stdout: stdout.to_vec(), stderr: stderr.to_vec() }
}

#[test]
fn script_reports() {
    assert_eq!(script_check_report("setup.sh", &check(false, b"", b"")), "");
    assert_eq!(
        script_check_report("setup.sh", &check(true, b"a\r\nb\n", b"warn")),
        "script setup.sh: apply needed\n  stdout: a\n  stdout: b\n  stderr: warn\n"
    );
    assert_eq!(script_check_report("s", &check(false, b"\n", b"")), "script s: ok\n  stdout: \n");
}

#[test]
fn splits_lines_like_str_lines() {
    let text = "a\r\nb\n\nc\r";
    let expected: Vec<Vec<char>> = text.lines().map(|l| l.chars().collect()).collect();
    assert_eq!(lines_of(text), expected);
    assert!(lines_of("").is_empty());
}

#[test]
fn preview_outcome() {
    assert!(!diff(&[false, false], &[check(false, b"x", b"")]));
    assert!(diff(&[false, true], &[]));
    assert!(diff(&[], &[check(true, b"", b"")]));
    assert_eq!(script_plan(&[check(true, b"", b""), check(false, b"", b"")]), vec![true, false]);
}

fn state(machine: &str, digest: &str) -> DeploymentState {
    DeploymentState {
        version: 1,
        machine: machine.into(),
        git_commit: "abc".into(),
        content_digest: digest.into(),
        deployed_at: "2026-07-31T12:00:00Z".into(),
        managed_paths: vec![ManagedPath { path: "/etc/x".into(), privileged: true }],
    }
}

#[test]
fn status_texts() {
    assert_eq!(status_report("m", "d", None), "m: never deployed\n");
    let s = state("m", "d");
    assert!(status_report("m", "d", Some(&s)).ends_with("local content:  matches deployed content\n"));
    assert!(status_report("m", "e", Some(&s)).ends_with("local content:  differs from deployed content\n"));
    assert!(status_report("n", "d", Some(&s)).ends_with("warning: remote state belongs to a different machine configuration\n"));
    assert!(status_report("m", "d", Some(&s)).starts_with("machine:        m\ndeployed at:    2026-07-31T12:00:00Z\n"));
}

#[test]
fn repeated_apply_is_a_no_op() {
    let s = state("m", "d");
    assert!(!apply_needed(false, Some(&s), "m", "d"));
    assert!(apply_needed(true, Some(&s), "m", "d"));
    assert!(apply_needed(false, Some(&s), "m", "other"));
    assert!(apply_needed(false, None, "m", "d"));
    assert_eq!(previous_paths(Some(&s), "m").len(), 1);
    assert!(previous_paths(Some(&s), "other").is_empty());
    assert!(previous_paths(None, "m").is_empty());
}

#[test]
fn records_managed_paths() {
    let paths = managed_paths(&[file()]);
    assert_eq!(paths, vec![ManagedPath { path: "/etc/example".into(), privileged: true }]);
}

#[test]
fn pull_actions_and_permissions() {
    assert!(matches!(import_action(&Snapshot::Missing), ImportAction::Remove));
    assert!(matches!(import_action(&Snapshot::DanglingLink), ImportAction::Remove));
    assert!(matches!(import_action(&Snapshot::File { mode: 0o755, contents: vec![] }), ImportAction::Write));
    assert!(matches!(import_action(&Snapshot::Directory), ImportAction::Refuse));
    assert_eq!(imported_permissions(0o100644, 0o755), 0o100755);
    assert_eq!(imported_permissions(0o100755, 0o644), 0o100644);
}

#[test]
fn confirmation_answers() {
    assert!(confirmed("y\n"));
    assert!(confirmed("  YES \n"));
    assert!(confirmed("yes"));
    assert!(!confirmed("Yes"));
    assert!(!confirmed("no"));
    assert!(!confirmed(""));
}

#[test]
fn diff_and_pull_agree_on_changes() {
    let snapshots = vec![
        Snapshot::File { mode: 0o644, contents: b"new\n".to_vec() },
        Snapshot::File { mode: 0o755, contents: b"new\n".to_vec() },
        Snapshot::File { mode: 0o644, contents: b"old\n".to_vec() },
        Snapshot::Missing,
        Snapshot::Directory,
    ];
    for snapshot in &snapshots {
        assert_eq!(file_diff(&file(), snapshot).changed, pull_diff(&file(), snapshot).changed);
    }
    assert!(!file_diff(&file(), &snapshots[0]).changed);
    assert!(file_diff(&file(), &snapshots[1]).changed);
}
