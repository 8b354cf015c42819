//! The decisions behind the commands, and the text they show.
use vstd::prelude::*;
use vstd::utf8::{decode_utf8, valid_utf8};

use crate::external::{line_changes, line_diff, lossy_text, lossy_utf8, signed_views, utf8_text};
use crate::paths::{split_chars, split_on};
use crate::remote::{DeploymentState, ManagedPath, ScriptCheck, Snapshot, SnapshotView};
use crate::repository::DeploymentFile;
use crate::text::{append_str, digits, push_char, push_decimal, push_octal4, zero_padded};

verus! {

// ---------------------------------------------------------------------------
// Text diffs
// ---------------------------------------------------------------------------
/// Whether a line ends in a newline or a carriage return.
pub open spec fn ends_line(t: Seq<char>) -> bool {
    t.len() > 0 && (t.last() == '\n' || t.last() == '\r')
}

/// How one change of a line diff is shown: its sign, the line, and, for a last
/// line without a line ending, a newline written twice.
pub open spec fn change_text(change: (char, Seq<char>)) -> Seq<char> {
    seq![change.0] + change.1 + if ends_line(change.1) {
        Seq::<char>::empty()
    } else {
        seq!['\n', '\n']
    }
}

/// How a list of changes is shown.
pub open spec fn changes_text(changes: Seq<(char, Seq<char>)>) -> Seq<char>
    decreases changes.len(),
{
    if changes.len() == 0 {
        Seq::<char>::empty()
    } else {
        changes_text(changes.drop_last()) + change_text(changes.last())
    }
}

/// The line diff from `old` to `new`, as shown.
pub open spec fn text_diff(from: Seq<char>, to: Seq<char>) -> Seq<char> {
    changes_text(line_diff(from, to))
}

/// Appends the line diff from `from` to `to`.
pub fn push_text_diff(out: &mut String, from: &str, to: &str)
    ensures
        final(out)@ == old(out)@ + text_diff(from@, to@),
{
    let changes = line_changes(from, to);
    let ghost start = out@;
    let ghost all = signed_views(changes@);
    let mut i: usize = 0;
    while i < changes.len()
        invariant
            i <= changes@.len(),
            all == signed_views(changes@),
            out@ == start + changes_text(all.take(i as int)),
        decreases changes@.len() - i,
    {
        let sign = changes[i].0;
        let text = &changes[i].1;
        push_char(out, sign);
        append_str(out, text.as_str());
        let chars = crate::text::chars_of(text.as_str());
        let n = chars.len();
        if !(n > 0 && (chars[n - 1] == '\n' || chars[n - 1] == '\r')) {
            push_char(out, '\n');
            push_char(out, '\n');
        }
        proof {
            assert(all.take(i + 1).drop_last() =~= all.take(i as int));
            assert(all.take(i + 1).last() == (sign, text@));
            assert(out@ =~= start + changes_text(all.take(i + 1)));
        }
        i = i + 1;
    }
    proof {
        assert(all.take(all.len() as int) =~= all);
    }
}

// ---------------------------------------------------------------------------
// What a remote path holds, compared with a managed file
// ---------------------------------------------------------------------------
/// How a snapshot is named in messages.
pub open spec fn snapshot_label(s: SnapshotView) -> Seq<char> {
    match s {
        SnapshotView::Missing => "missing"@,
        SnapshotView::DanglingLink => "dangling link"@,
        SnapshotView::File { .. } => "file"@,
        SnapshotView::Directory => "directory"@,
        SnapshotView::Symlink => "symlink"@,
        SnapshotView::Other => "special file"@,
    }
}

/// Names what a snapshot found.
pub fn snapshot_name(snapshot: &Snapshot) -> (name: &'static str)
    ensures
        name@ == snapshot_label(snapshot@),
{
    match snapshot {
        Snapshot::Missing => "missing",
        Snapshot::DanglingLink => "dangling link",
        Snapshot::File { .. } => "file",
        Snapshot::Directory => "directory",
        Snapshot::Symlink => "symlink",
        Snapshot::Other => "special file",
    }
}

/// Whether a change was found, and how it is shown.
#[derive(Debug)]
pub struct Report {
    pub changed: bool,
    pub text: String,
}

/// `n` as `{:04o}` writes it.
pub open spec fn octal4(n: u32) -> Seq<char> {
    zero_padded(digits(n as nat, 8), 4)
}

/// How the contents of two files differ: a line diff when both are UTF-8 text,
/// else a note on the sizes when they differ.
pub open spec fn contents_diff(
    first: Seq<u8>,
    second: Seq<u8>,
    first_label: Seq<char>,
    second_label: Seq<char>,
) -> Seq<char> {
    if valid_utf8(first) && valid_utf8(second) {
        text_diff(decode_utf8(first), decode_utf8(second))
    } else if first != second {
        "binary content differs ("@ + digits(first.len(), 10) + " "@ + first_label + " bytes, "@ + digits(
            second.len(),
            10,
        ) + " "@ + second_label + " bytes)\n"@
    } else {
        Seq::<char>::empty()
    }
}

/// What `diff` and `apply` show for a managed file against what the host has,
/// and whether they differ.
pub open spec fn file_diff_report(expected: DeploymentFile, actual: SnapshotView) -> (bool, Seq<char>) {
    match actual {
        SnapshotView::File { mode, contents } => if mode == expected.mode && contents
            == expected.contents@ {
            (false, Seq::<char>::empty())
        } else {
            (
                true,
                "--- remote:"@ + expected.target@ + "\n"@ + "+++ local:"@ + expected.source@ + "\n"@
                    + (if mode != expected.mode {
                    "mode "@ + octal4(mode) + " -> "@ + octal4(expected.mode) + "\n"@
                } else {
                    Seq::<char>::empty()
                }) + contents_diff(contents, expected.contents@, "remote"@, "local"@),
            )
        },
        _ => (
            true,
            expected.target@ + ": "@ + snapshot_label(actual) + " -> file ("@ + octal4(expected.mode)
                + ", "@ + digits(expected.contents@.len(), 10) + " bytes)\n"@,
        ),
    }
}

/// What `pull` shows for a managed file against what the host has, and
/// whether they differ.
pub open spec fn pull_diff_report(local: DeploymentFile, remote: SnapshotView) -> (bool, Seq<char>) {
    match remote {
        SnapshotView::File { mode, contents } => if mode == local.mode && contents == local.contents@ {
            (false, Seq::<char>::empty())
        } else {
            (
                true,
                "--- local:"@ + local.source@ + "\n"@ + "+++ remote:"@ + local.target@ + "\n"@ + (
                if mode != local.mode {
                    "mode "@ + octal4(local.mode) + " -> "@ + octal4(mode) + "\n"@
                } else {
                    Seq::<char>::empty()
                }) + contents_diff(local.contents@, contents, "local"@, "remote"@),
            )
        },
        _ => (true, local.source@ + ": local file -> "@ + snapshot_label(remote) + "\n"@),
    }
}

/// `diff` and `pull` agree on whether a managed file changed: it is unchanged
/// exactly when the host has a regular file with the same mode and contents.
pub proof fn lemma_diff_and_pull_agree(file: DeploymentFile, snapshot: SnapshotView)
    ensures
        file_diff_report(file, snapshot).0 == pull_diff_report(file, snapshot).0,
        !file_diff_report(file, snapshot).0 <==> snapshot == (SnapshotView::File {
            mode: file.mode,
            contents: file.contents@,
        }),
{
}

/// A mode shown in a diff reads back as the same mode: every mode below
/// `0o1000`, written with four digits, is a valid manifest mode denoting it.
pub proof fn lemma_mode_text_reads_back(mode: u32)
    requires
        mode < 0o1000u32,
    ensures
        crate::config::mode_fault(octal4(mode)) is None,
        crate::config::octal_value(octal4(mode)) == mode,
{
    let d = digits(mode as nat, 8);
    crate::config::lemma_octal_digits(mode as nat);
    crate::text::lemma_digits_len_octal(mode as nat);
    assert(d.len() <= 3);
    let zeros = Seq::new((4 - d.len()) as nat, |i: int| '0');
    let text = octal4(mode);
    assert(text == zeros + d);
    crate::config::lemma_octal_leading_zeros(zeros, d);
    assert(text.len() == 4);
    assert(text[0] == '0');
    assert forall|i: int| 0 <= i < text.len() implies crate::config::is_octal_digit(#[trigger] text[i]) by {
        if i >= zeros.len() {
            assert(text[i] == d[i - zeros.len()]);
        }
    }
    crate::config::lemma_utf8_len_ascii(text);
}

/// What `pull` shows for a file that the host changed: a header naming the
/// local source and then the remote target, the mode change from the local
/// mode to the remote one, then, when both contents are UTF-8, the line diff
/// from the local contents to the remote contents (lines only the local copy
/// has marked `-`, lines only the host has marked `+`); otherwise the byte
/// counts, local first.
pub proof fn lemma_pull_diff_goes_local_to_remote(local: DeploymentFile, mode: u32, contents: Seq<u8>)
    requires
        !(mode == local.mode && contents == local.contents@),
    ensures
        pull_diff_report(local, SnapshotView::File { mode, contents }) == (
            true,
            "--- local:"@ + local.source@ + "\n+++ remote:"@ + local.target@ + "\n"@ + (if mode
                != local.mode {
                "mode "@ + octal4(local.mode) + " -> "@ + octal4(mode) + "\n"@
            } else {
                Seq::<char>::empty()
            }) + (if valid_utf8(local.contents@) && valid_utf8(contents) {
                text_diff(decode_utf8(local.contents@), decode_utf8(contents))
            } else if local.contents@ != contents {
                "binary content differs ("@ + digits(local.contents@.len(), 10) + " local bytes, "@
                    + digits(contents.len(), 10) + " remote bytes)\n"@
            } else {
                Seq::<char>::empty()
            }),
        ),
{
    reveal_strlit("--- local:");
    reveal_strlit("\n+++ remote:");
    reveal_strlit("\n");
    reveal_strlit("+++ remote:");
    reveal_strlit("binary content differs (");
    reveal_strlit(" local bytes, ");
    reveal_strlit(" remote bytes)\n");
    reveal_strlit(" ");
    reveal_strlit("local");
    reveal_strlit("remote");
    reveal_strlit(" bytes, ");
    reveal_strlit(" bytes)\n");
    let r = pull_diff_report(local, SnapshotView::File { mode, contents });
    assert(r.1 =~= "--- local:"@ + local.source@ + "\n+++ remote:"@ + local.target@ + "\n"@ + (if mode
        != local.mode {
        "mode "@ + octal4(local.mode) + " -> "@ + octal4(mode) + "\n"@
    } else {
        Seq::<char>::empty()
    }) + (if valid_utf8(local.contents@) && valid_utf8(contents) {
        text_diff(decode_utf8(local.contents@), decode_utf8(contents))
    } else if local.contents@ != contents {
        "binary content differs ("@ + digits(local.contents@.len(), 10) + " local bytes, "@ + digits(
            contents.len(),
            10,
        ) + " remote bytes)\n"@
    } else {
        Seq::<char>::empty()
    }));
}

/// What `diff` shows for a file that differs on the host: a header naming the
/// remote target and then the local source, the mode change from the remote
/// mode to the local one, then, when both contents are UTF-8, the line diff
/// from the remote contents to the local contents; otherwise the byte counts,
/// remote first.
pub proof fn lemma_file_diff_goes_remote_to_local(expected: DeploymentFile, mode: u32, contents: Seq<u8>)
    requires
        !(mode == expected.mode && contents == expected.contents@),
    ensures
        file_diff_report(expected, SnapshotView::File { mode, contents }) == (
            true,
            "--- remote:"@ + expected.target@ + "\n+++ local:"@ + expected.source@ + "\n"@ + (if mode
                != expected.mode {
                "mode "@ + octal4(mode) + " -> "@ + octal4(expected.mode) + "\n"@
            } else {
                Seq::<char>::empty()
            }) + (if valid_utf8(contents) && valid_utf8(expected.contents@) {
                text_diff(decode_utf8(contents), decode_utf8(expected.contents@))
            } else if contents != expected.contents@ {
                "binary content differs ("@ + digits(contents.len(), 10) + " remote bytes, "@
                    + digits(expected.contents@.len(), 10) + " local bytes)\n"@
            } else {
                Seq::<char>::empty()
            }),
        ),
{
    reveal_strlit("--- remote:");
    reveal_strlit("\n+++ local:");
    reveal_strlit("\n");
    reveal_strlit("+++ local:");
    reveal_strlit("binary content differs (");
    reveal_strlit(" local bytes)\n");
    reveal_strlit(" remote bytes, ");
    reveal_strlit(" ");
    reveal_strlit("local");
    reveal_strlit("remote");
    reveal_strlit(" bytes, ");
    reveal_strlit(" bytes)\n");
    let r = file_diff_report(expected, SnapshotView::File { mode, contents });
    assert(r.1 =~= "--- remote:"@ + expected.target@ + "\n+++ local:"@ + expected.source@ + "\n"@ + (
    if mode != expected.mode {
        "mode "@ + octal4(mode) + " -> "@ + octal4(expected.mode) + "\n"@
    } else {
        Seq::<char>::empty()
    }) + (if valid_utf8(contents) && valid_utf8(expected.contents@) {
        text_diff(decode_utf8(contents), decode_utf8(expected.contents@))
    } else if contents != expected.contents@ {
        "binary content differs ("@ + digits(contents.len(), 10) + " remote bytes, "@ + digits(
            expected.contents@.len(),
            10,
        ) + " local bytes)\n"@
    } else {
        Seq::<char>::empty()
    }));
}

fn push_contents_diff(out: &mut String, first: &[u8], second: &[u8], first_label: &str, second_label: &str)
    ensures
        final(out)@ == old(out)@ + contents_diff(first@, second@, first_label@, second_label@),
{
    let ghost start = out@;
    match (utf8_text(first), utf8_text(second)) {
        (Some(o), Some(n)) => {
            push_text_diff(out, o, n);
        },
        _ => {
            if !crate::text::bytes_eq(first, second) {
                append_str(out, "binary content differs (");
                push_decimal(out, first.len() as u64);
                append_str(out, " ");
                append_str(out, first_label);
                append_str(out, " bytes, ");
                push_decimal(out, second.len() as u64);
                append_str(out, " ");
                append_str(out, second_label);
                append_str(out, " bytes)\n");
                assert(out@ =~= start + contents_diff(first@, second@, first_label@, second_label@));
            } else {
                assert(out@ =~= start + contents_diff(first@, second@, first_label@, second_label@));
            }
        },
    }
}

fn push_mode_change(out: &mut String, from: u32, to: u32)
    ensures
        final(out)@ == old(out)@ + if from != to {
            "mode "@ + octal4(from) + " -> "@ + octal4(to) + "\n"@
        } else {
            Seq::<char>::empty()
        },
{
    let ghost start = out@;
    if from != to {
        append_str(out, "mode ");
        push_octal4(out, from);
        append_str(out, " -> ");
        push_octal4(out, to);
        append_str(out, "\n");
        assert(out@ =~= start + "mode "@ + octal4(from) + " -> "@ + octal4(to) + "\n"@);
    } else {
        assert(out@ =~= start + Seq::<char>::empty());
    }
}

/// Compares a managed file with what the host has, for `diff` and `apply`.
pub fn file_diff(expected: &DeploymentFile, actual: &Snapshot) -> (r: Report)
    ensures
        (r.changed, r.text@) == file_diff_report(*expected, actual@),
{
    let mut out = String::new();
    match actual {
        Snapshot::File { mode, contents } => {
            if *mode == expected.mode && crate::text::bytes_eq(contents.as_slice(), expected.contents.as_slice()) {
                return Report { changed: false, text: out };
            }
            append_str(&mut out, "--- remote:");
            append_str(&mut out, expected.target.as_str());
            append_str(&mut out, "\n");
            append_str(&mut out, "+++ local:");
            append_str(&mut out, expected.source.as_str());
            append_str(&mut out, "\n");
            let ghost head = out@;
            push_mode_change(&mut out, *mode, expected.mode);
            push_contents_diff(&mut out, contents.as_slice(), expected.contents.as_slice(), "remote", "local");
            assert(out@ =~= file_diff_report(*expected, actual@).1);
            Report { changed: true, text: out }
        },
        other => {
            append_str(&mut out, expected.target.as_str());
            append_str(&mut out, ": ");
            append_str(&mut out, snapshot_name(other));
            append_str(&mut out, " -> file (");
            push_octal4(&mut out, expected.mode);
            append_str(&mut out, ", ");
            push_decimal(&mut out, expected.contents.len() as u64);
            append_str(&mut out, " bytes)\n");
            assert(out@ =~= file_diff_report(*expected, actual@).1);
            Report { changed: true, text: out }
        },
    }
}

/// Compares a managed file with what the host has, for `pull`.
pub fn pull_diff(local: &DeploymentFile, remote: &Snapshot) -> (r: Report)
    ensures
        (r.changed, r.text@) == pull_diff_report(*local, remote@),
{
    let mut out = String::new();
    match remote {
        Snapshot::File { mode, contents } => {
            if *mode == local.mode && crate::text::bytes_eq(contents.as_slice(), local.contents.as_slice()) {
                return Report { changed: false, text: out };
            }
            append_str(&mut out, "--- local:");
            append_str(&mut out, local.source.as_str());
            append_str(&mut out, "\n");
            append_str(&mut out, "+++ remote:");
            append_str(&mut out, local.target.as_str());
            append_str(&mut out, "\n");
            push_mode_change(&mut out, local.mode, *mode);
            push_contents_diff(&mut out, local.contents.as_slice(), contents.as_slice(), "local", "remote");
            assert(out@ =~= pull_diff_report(*local, remote@).1);
            Report { changed: true, text: out }
        },
        other => {
            append_str(&mut out, local.source.as_str());
            append_str(&mut out, ": local file -> ");
            append_str(&mut out, snapshot_name(other));
            append_str(&mut out, "\n");
            assert(out@ =~= pull_diff_report(*local, remote@).1);
            Report { changed: true, text: out }
        },
    }
}

} // verus!

verus! {

// ---------------------------------------------------------------------------
// Script checks
// ---------------------------------------------------------------------------
/// A line without its carriage return, when it ends in one.
pub open spec fn without_cr(line: Seq<char>) -> Seq<char> {
    if line.len() > 0 && line.last() == '\r' {
        line.drop_last()
    } else {
        line
    }
}

/// The lines of `text` as `str::lines` yields them: split at `\n`, each line
/// ended by `\n` losing a `\r` before it, and no empty line after a final `\n`.
pub open spec fn text_lines(text: Seq<char>) -> Seq<Seq<char>> {
    let pieces = split_on(text, '\n');
    let n = pieces.len();
    let kept = if pieces.last().len() == 0 {
        pieces.drop_last()
    } else {
        pieces
    };
    Seq::new(kept.len(), |i: int| if i < n - 1 {
        without_cr(kept[i])
    } else {
        kept[i]
    })
}

/// The lines shown for one output stream of a script, each as `  <stream>: <line>`.
pub open spec fn stream_lines_text(stream: Seq<char>, lines: Seq<Seq<char>>) -> Seq<char>
    decreases lines.len(),
{
    if lines.len() == 0 {
        Seq::<char>::empty()
    } else {
        stream_lines_text(stream, lines.drop_last()) + "  "@ + stream + ": "@ + lines.last() + "\n"@
    }
}

/// What is shown for one output stream of a script: nothing when it is empty.
pub open spec fn stream_text(stream: Seq<char>, output: Seq<u8>) -> Seq<char> {
    if output.len() == 0 {
        Seq::<char>::empty()
    } else {
        stream_lines_text(stream, text_lines(lossy_text(output)))
    }
}

/// What is shown for a script's check: its name and verdict with its output,
/// or nothing when it needs no apply and printed nothing.
pub open spec fn script_check_text(source: Seq<char>, check: ScriptCheck) -> Seq<char> {
    if check.needs_apply || check.stdout@.len() > 0 || check.stderr@.len() > 0 {
        "script "@ + source + ": "@ + (if check.needs_apply {
            "apply needed"@
        } else {
            "ok"@
        }) + "\n"@ + stream_text("stdout"@, check.stdout@) + stream_text("stderr"@, check.stderr@)
    } else {
        Seq::<char>::empty()
    }
}

/// The lines of `text`, as `str::lines` yields them.
pub fn lines_of(text: &str) -> (out: Vec<Vec<char>>)
    ensures
        crate::paths::views(out@) == text_lines(text@),
{
    let chars = crate::text::chars_of(text);
    let pieces = split_chars(chars.as_slice(), '\n');
    proof {
        crate::paths::lemma_split_nonempty(chars@, '\n');
    }
    let n = pieces.len();
    let kept = if pieces[n - 1].len() == 0 {
        n - 1
    } else {
        n
    };
    let mut out: Vec<Vec<char>> = Vec::new();
    let mut i: usize = 0;
    while i < kept
        invariant
            n == pieces@.len(),
            n >= 1,
            kept == (if pieces@[n - 1]@.len() == 0 { (n - 1) as usize } else { n }),
            crate::paths::views(pieces@) == split_on(text@, '\n'),
            i <= kept,
            out@.len() == i,
            forall|k: int| 0 <= k < i ==> (#[trigger] out@[k])@ == text_lines(text@)[k],
        decreases kept - i,
    {
        let piece = &pieces[i];
        let m = piece.len();
        let mut line: Vec<char> = Vec::new();
        let strip = i < n - 1 && m > 0 && piece[m - 1] == '\r';
        let end = if strip {
            m - 1
        } else {
            m
        };
        let mut j: usize = 0;
        while j < end
            invariant
                end <= m,
                m == piece@.len(),
                j <= end,
                line@ == piece@.take(j as int),
            decreases end - j,
        {
            line.push(piece[j]);
            j = j + 1;
            assert(line@ =~= piece@.take(j as int));
        }
        proof {
            let spl = split_on(text@, '\n');
            assert(spl[i as int] == piece@);
            if strip {
                assert(line@ =~= piece@.drop_last());
            } else {
                assert(line@ =~= piece@);
            }
            assert(line@ == text_lines(text@)[i as int]);
        }
        out.push(line);
        i = i + 1;
    }
    proof {
        assert(crate::paths::views(out@) =~= text_lines(text@));
    }
    out
}

fn push_stream(out: &mut String, stream: &str, output: &[u8])
    ensures
        final(out)@ == old(out)@ + stream_text(stream@, output@),
{
    if output.len() == 0 {
        assert(out@ =~= old(out)@ + stream_text(stream@, output@));
        return;
    }
    let text = lossy_utf8(output);
    let lines = lines_of(text.as_str());
    let ghost all = crate::paths::views(lines@);
    let ghost start = out@;
    let mut i: usize = 0;
    while i < lines.len()
        invariant
            i <= lines@.len(),
            all == crate::paths::views(lines@),
            out@ == start + stream_lines_text(stream@, all.take(i as int)),
        decreases lines@.len() - i,
    {
        append_str(out, "  ");
        append_str(out, stream);
        append_str(out, ": ");
        let line = crate::text::string_from_chars(lines[i].as_slice());
        append_str(out, line.as_str());
        append_str(out, "\n");
        proof {
            assert(all.take(i + 1).drop_last() =~= all.take(i as int));
            assert(out@ =~= start + stream_lines_text(stream@, all.take(i + 1)));
        }
        i = i + 1;
    }
    proof {
        assert(all.take(all.len() as int) =~= all);
    }
}

/// What is shown for a script's check.
pub fn script_check_report(source: &str, check: &ScriptCheck) -> (out: String)
    ensures
        out@ == script_check_text(source@, *check),
{
    let mut out = String::new();
    if check.needs_apply || check.stdout.len() > 0 || check.stderr.len() > 0 {
        append_str(&mut out, "script ");
        append_str(&mut out, source);
        append_str(&mut out, ": ");
        if check.needs_apply {
            append_str(&mut out, "apply needed");
        } else {
            append_str(&mut out, "ok");
        }
        append_str(&mut out, "\n");
        push_stream(&mut out, "stdout", check.stdout.as_slice());
        push_stream(&mut out, "stderr", check.stderr.as_slice());
        assert(out@ =~= script_check_text(source@, *check));
    } else {
        assert(out@ =~= script_check_text(source@, *check));
    }
    out
}

/// Whether a preview found anything to do: a managed file that differs, or a
/// script whose check asks for an apply.
pub open spec fn preview_changed(file_changes: Seq<bool>, checks: Seq<ScriptCheck>) -> bool {
    (exists|i: int| 0 <= i < file_changes.len() && file_changes[i]) || (exists|i: int|
        0 <= i < checks.len() && (#[trigger] checks[i]).needs_apply)
}

/// The answer of `diff`: whether any file differs or any script needs an apply.
pub fn diff(file_changes: &[bool], checks: &[ScriptCheck]) -> (changed: bool)
    ensures
        changed == preview_changed(file_changes@, checks@),
{
    let mut i: usize = 0;
    while i < file_changes.len()
        invariant
            i <= file_changes@.len(),
            forall|k: int| 0 <= k < i ==> !file_changes@[k],
        decreases file_changes@.len() - i,
    {
        if file_changes[i] {
            return true;
        }
        i = i + 1;
    }
    let mut j: usize = 0;
    while j < checks.len()
        invariant
            j <= checks@.len(),
            forall|k: int| 0 <= k < i ==> !file_changes@[k],
            i == file_changes@.len(),
            forall|k: int| 0 <= k < j ==> !(#[trigger] checks@[k]).needs_apply,
        decreases checks@.len() - j,
    {
        if checks[j].needs_apply {
            return true;
        }
        j = j + 1;
    }
    false
}

/// For each script check, whether its apply action runs.
pub fn script_plan(checks: &[ScriptCheck]) -> (plan: Vec<bool>)
    ensures
        plan@.len() == checks@.len(),
        forall|i: int| 0 <= i < checks@.len() ==> plan@[i] == (#[trigger] checks@[i]).needs_apply,
{
    let mut plan: Vec<bool> = Vec::new();
    let mut i: usize = 0;
    while i < checks.len()
        invariant
            i <= checks@.len(),
            plan@.len() == i,
            forall|k: int| 0 <= k < i ==> plan@[k] == (#[trigger] checks@[k]).needs_apply,
        decreases checks@.len() - i,
    {
        plan.push(checks[i].needs_apply);
        i = i + 1;
    }
    plan
}

} // verus!

verus! {

// ---------------------------------------------------------------------------
// Status
// ---------------------------------------------------------------------------
/// What `status` shows for a machine named `name` with content digest `digest`,
/// given the state recorded on its host.
pub open spec fn status_text(name: Seq<char>, digest: Seq<char>, state: Option<DeploymentState>) -> Seq<char> {
    match state {
        None => name + ": never deployed\n"@,
        Some(s) => "machine:        "@ + s.machine@ + "\n"@ + "deployed at:    "@ + s.deployed_at@
            + "\n"@ + "git commit:     "@ + s.git_commit@ + "\n"@ + "content digest: "@
            + s.content_digest@ + "\n"@ + (if s.machine@ != name {
            "warning: remote state belongs to a different machine configuration\n"@
        } else if s.content_digest@ == digest {
            "local content:  matches deployed content\n"@
        } else {
            "local content:  differs from deployed content\n"@
        }),
    }
}

/// What `status` shows: with no recorded state, that the machine was never
/// deployed; otherwise the recorded machine, deployment time, Git commit and
/// content digest, each on its own line and taken from the state itself, then
/// one closing line: a notice when the state names another machine, else
/// whether the recorded digest matches the local one.
pub proof fn lemma_status_shows_recorded_state(name: Seq<char>, digest: Seq<char>, state: Option<DeploymentState>)
    ensures
        match state {
            None => status_text(name, digest, state) == name + ": never deployed\n"@,
            Some(s) => status_text(name, digest, state) == "machine:        "@ + s.machine@
                + "\ndeployed at:    "@ + s.deployed_at@ + "\ngit commit:     "@ + s.git_commit@
                + "\ncontent digest: "@ + s.content_digest@ + "\n"@ + if s.machine@ != name {
                "warning: remote state belongs to a different machine configuration\n"@
            } else if s.content_digest@ == digest {
                "local content:  matches deployed content\n"@
            } else {
                "local content:  differs from deployed content\n"@
            },
        },
{
    reveal_strlit("machine:        ");
    reveal_strlit("\ndeployed at:    ");
    reveal_strlit("\ngit commit:     ");
    reveal_strlit("\ncontent digest: ");
    reveal_strlit("\n");
    reveal_strlit("deployed at:    ");
    reveal_strlit("git commit:     ");
    reveal_strlit("content digest: ");
    reveal_strlit(": never deployed\n");
    reveal_strlit("warning: remote state belongs to a different machine configuration\n");
    reveal_strlit("local content:  matches deployed content\n");
    reveal_strlit("local content:  differs from deployed content\n");
    if let Some(s) = state {
        assert(status_text(name, digest, state) =~= "machine:        "@ + s.machine@
            + "\ndeployed at:    "@ + s.deployed_at@ + "\ngit commit:     "@ + s.git_commit@
            + "\ncontent digest: "@ + s.content_digest@ + "\n"@ + if s.machine@ != name {
            "warning: remote state belongs to a different machine configuration\n"@
        } else if s.content_digest@ == digest {
            "local content:  matches deployed content\n"@
        } else {
            "local content:  differs from deployed content\n"@
        });
    }
}

/// What `status` shows.
pub fn status_report(name: &str, digest: &str, state: Option<&DeploymentState>) -> (out: String)
    ensures
        out@ == status_text(name@, digest@, match state {
            Some(s) => Some(*s),
            None => None,
        }),
{
    let mut out = String::new();
    match state {
        None => {
            append_str(&mut out, name);
            append_str(&mut out, ": never deployed\n");
        },
        Some(s) => {
            append_str(&mut out, "machine:        ");
            append_str(&mut out, s.machine.as_str());
            append_str(&mut out, "\n");
            append_str(&mut out, "deployed at:    ");
            append_str(&mut out, s.deployed_at.as_str());
            append_str(&mut out, "\n");
            append_str(&mut out, "git commit:     ");
            append_str(&mut out, s.git_commit.as_str());
            append_str(&mut out, "\n");
            append_str(&mut out, "content digest: ");
            append_str(&mut out, s.content_digest.as_str());
            append_str(&mut out, "\n");
            if !crate::text::chars_eq(crate::text::chars_of(s.machine.as_str()).as_slice(), crate::text::chars_of(name).as_slice()) {
                append_str(&mut out, "warning: remote state belongs to a different machine configuration\n");
            } else if crate::text::chars_eq(crate::text::chars_of(s.content_digest.as_str()).as_slice(), crate::text::chars_of(digest).as_slice()) {
                append_str(&mut out, "local content:  matches deployed content\n");
            } else {
                append_str(&mut out, "local content:  differs from deployed content\n");
            }
        },
    }
    out
}

// ---------------------------------------------------------------------------
// Apply
// ---------------------------------------------------------------------------
/// Whether the host already runs this deployment: its recorded state names the
/// machine and the same content digest.
pub open spec fn deployed_here(state: Option<DeploymentState>, name: Seq<char>, digest: Seq<char>) -> bool {
    state matches Some(s) && s.machine@ == name && s.content_digest@ == digest
}

/// Deploying again with nothing changed has nothing to do: when the host holds
/// every managed file as deployed, no script check asks for an apply, and the
/// recorded state names this machine and digest, the preview finds no change
/// and `apply` stops.
pub proof fn lemma_redeploy_is_noop(
    files: Seq<DeploymentFile>,
    snapshots: Seq<SnapshotView>,
    checks: Seq<ScriptCheck>,
    state: DeploymentState,
    name: Seq<char>,
    digest: Seq<char>,
)
    requires
        snapshots.len() == files.len(),
        forall|i: int|
            0 <= i < files.len() ==> #[trigger] snapshots[i] == (SnapshotView::File {
                mode: files[i].mode,
                contents: files[i].contents@,
            }),
        forall|i: int| 0 <= i < checks.len() ==> !(#[trigger] checks[i]).needs_apply,
        state.machine@ == name,
        state.content_digest@ == digest,
    ensures
        ({
            let changes = Seq::new(files.len(), |i: int| file_diff_report(files[i], snapshots[i]).0);
            let changed = preview_changed(changes, checks);
            &&& !changed
            &&& deployed_here(Some(state), name, digest)
            &&& !(changed || !deployed_here(Some(state), name, digest))
        }),
{
    let changes = Seq::new(files.len(), |i: int| file_diff_report(files[i], snapshots[i]).0);
    assert forall|i: int| 0 <= i < changes.len() implies !changes[i] by {
        assert(snapshots[i] == (SnapshotView::File { mode: files[i].mode, contents: files[i].contents@ }));
    }
}

/// Whether `apply` has work to do: a preview found a change, or the host does
/// not run this deployment yet.
pub fn apply_needed(changed: bool, state: Option<&DeploymentState>, name: &str, digest: &str) -> (r: bool)
    ensures
        r == (changed || !deployed_here(match state {
            Some(s) => Some(*s),
            None => None,
        }, name@, digest@)),
{
    if changed {
        return true;
    }
    match state {
        None => true,
        Some(s) => {
            let same_machine = crate::text::chars_eq(crate::text::chars_of(s.machine.as_str()).as_slice(), crate::text::chars_of(name).as_slice());
            let same_digest = crate::text::chars_eq(crate::text::chars_of(s.content_digest.as_str()).as_slice(), crate::text::chars_of(digest).as_slice());
            !(same_machine && same_digest)
        },
    }
}

/// The paths that the host's recorded state marks as managed by this machine;
/// none when the state belongs to another machine or there is none.
pub fn previous_paths<'a>(state: Option<&'a DeploymentState>, name: &str) -> (paths: &'a [ManagedPath])
    ensures
        paths@ == match state {
            Some(s) => if s.machine@ == name@ {
                s.managed_paths@
            } else {
                Seq::<ManagedPath>::empty()
            },
            None => Seq::<ManagedPath>::empty(),
        },
{
    match state {
        Some(s) => {
            if crate::text::chars_eq(crate::text::chars_of(s.machine.as_str()).as_slice(), crate::text::chars_of(name).as_slice()) {
                s.managed_paths.as_slice()
            } else {
                let empty: &[ManagedPath] = &[];
                assert(empty@ =~= Seq::<ManagedPath>::empty());
                empty
            }
        },
        None => {
            let empty: &[ManagedPath] = &[];
            assert(empty@ =~= Seq::<ManagedPath>::empty());
            empty
        },
    }
}

/// The managed paths recorded after a deployment: each file's target, with
/// whether it is privileged, in file order.
pub fn managed_paths(files: &[DeploymentFile]) -> (paths: Vec<ManagedPath>)
    ensures
        paths@.len() == files@.len(),
        forall|i: int|
            0 <= i < files@.len() ==> (#[trigger] paths@[i]).path@ == files@[i].target@
                && paths@[i].privileged == files@[i].privileged,
{
    let mut paths: Vec<ManagedPath> = Vec::new();
    let mut i: usize = 0;
    while i < files.len()
        invariant
            i <= files@.len(),
            paths@.len() == i,
            forall|k: int|
                0 <= k < i ==> (#[trigger] paths@[k]).path@ == files@[k].target@ && paths@[k].privileged
                    == files@[k].privileged,
        decreases files@.len() - i,
    {
        paths.push(ManagedPath { path: files[i].target.clone(), privileged: files[i].privileged });
        i = i + 1;
    }
    paths
}

// ---------------------------------------------------------------------------
// Pull
// ---------------------------------------------------------------------------
/// What `pull` does with the local copy of a managed file.
#[derive(Debug)]
pub enum ImportAction {
    /// The host no longer has the file: remove the local copy.
    Remove,
    /// Write the host's contents and take its execute bits.
    Write,
    /// The host has something other than a file there.
    Refuse,
}

/// The action that `pull` takes for what the host has at a managed path.
pub fn import_action(snapshot: &Snapshot) -> (a: ImportAction)
    ensures
        a is Remove <==> (snapshot@ is Missing || snapshot@ is DanglingLink),
        a is Write <==> snapshot@ is File,
        a is Refuse <==> (snapshot@ is Directory || snapshot@ is Symlink || snapshot@ is Other),
{
    match snapshot {
        Snapshot::Missing | Snapshot::DanglingLink => ImportAction::Remove,
        Snapshot::File { .. } => ImportAction::Write,
        _ => ImportAction::Refuse,
    }
}

/// The local permissions after importing a file whose remote mode is `remote`:
/// the execute bits come from the host, the other bits stay.
pub fn imported_permissions(current: u32, remote: u32) -> (mode: u32)
    ensures
        mode == (current & !0o111u32) | (remote & 0o111u32),
        mode & 0o111u32 == remote & 0o111u32,
        mode & !0o111u32 == current & !0o111u32,
{
    let mode = (current & !0o111u32) | (remote & 0o111u32);
    assert(mode & 0o111u32 == remote & 0o111u32) by (bit_vector)
        requires
            mode == (current & !0o111u32) | (remote & 0o111u32),
    ;
    assert(mode & !0o111u32 == current & !0o111u32) by (bit_vector)
        requires
            mode == (current & !0o111u32) | (remote & 0o111u32),
    ;
    mode
}

// ---------------------------------------------------------------------------
// Confirmation
// ---------------------------------------------------------------------------
/// `s` without its leading white space.
pub open spec fn trim_start(s: Seq<char>) -> Seq<char>
    decreases s.len(),
{
    if s.len() > 0 && crate::text::is_white_space(s[0]) {
        trim_start(s.drop_first())
    } else {
        s
    }
}

/// `s` without its trailing white space.
pub open spec fn trim_end(s: Seq<char>) -> Seq<char>
    decreases s.len(),
{
    if s.len() > 0 && crate::text::is_white_space(s.last()) {
        trim_end(s.drop_last())
    } else {
        s
    }
}

/// Whether an answer to a prompt agrees: once trimmed it is `y`, `Y`, `yes` or `YES`.
pub open spec fn agrees(answer: Seq<char>) -> bool {
    let a = trim_end(trim_start(answer));
    a == seq!['y'] || a == seq!['Y'] || a == seq!['y', 'e', 's'] || a == seq!['Y', 'E', 'S']
}

/// Reads an answer to a confirmation prompt.
pub fn confirmed(answer: &str) -> (r: bool)
    ensures
        r == agrees(answer@),
{
    let chars = crate::text::chars_of(answer);
    let n = chars.len();
    let mut start: usize = 0;
    proof {
        assert(chars@.skip(0) =~= chars@);
    }
    while start < n && crate::text::char_is_white_space(chars[start])
        invariant
            n == chars@.len(),
            start <= n,
            chars@ == answer@,
            trim_start(answer@) == trim_start(chars@.skip(start as int)),
        decreases n - start,
    {
        proof {
            assert(chars@.skip(start as int).drop_first() =~= chars@.skip(start + 1));
        }
        start = start + 1;
    }
    let mut end: usize = n;
    proof {
        assert(trim_start(chars@.skip(start as int)) == chars@.skip(start as int));
        assert(chars@.subrange(start as int, end as int) =~= chars@.skip(start as int));
    }
    while end > start && crate::text::char_is_white_space(chars[end - 1])
        invariant
            start <= end <= n,
            n == chars@.len(),
            trim_end(trim_start(answer@)) == trim_end(chars@.subrange(start as int, end as int)),
        decreases end,
    {
        proof {
            assert(chars@.subrange(start as int, end as int).drop_last() =~= chars@.subrange(start as int, end - 1));
        }
        end = end - 1;
    }
    let t = vstd::slice::slice_subrange(chars.as_slice(), start, end);
    proof {
        assert(trim_end(chars@.subrange(start as int, end as int)) == chars@.subrange(start as int, end as int));
    }
    let y = t.len() == 1 && t[0] == 'y';
    let cap_y = t.len() == 1 && t[0] == 'Y';
    let yes = t.len() == 3 && t[0] == 'y' && t[1] == 'e' && t[2] == 's';
    let cap_yes = t.len() == 3 && t[0] == 'Y' && t[1] == 'E' && t[2] == 'S';
    proof {
        if y {
            assert(t@ =~= seq!['y']);
        }
        if cap_y {
            assert(t@ =~= seq!['Y']);
        }
        if yes {
            assert(t@ =~= seq!['y', 'e', 's']);
        }
        if cap_yes {
            assert(t@ =~= seq!['Y', 'E', 'S']);
        }
    }
    y || cap_y || yes || cap_yes
}

} // verus!
