//! The remote side: shell quoting, the commands sent over SSH, and the
//! protocol spoken by the replies.
use vstd::prelude::*;

use crate::repository::{DeploymentFile, DeploymentScript};
use crate::text::{append_str, chars_of, has_prefix, push_char};

verus! {

// ---------------------------------------------------------------------------
// Shell quoting
// ---------------------------------------------------------------------------
/// `s` with each single quote written as `'\''`.
pub open spec fn quote_escaped(s: Seq<char>) -> Seq<char>
    decreases s.len(),
{
    if s.len() == 0 {
        Seq::<char>::empty()
    } else if s.last() == '\'' {
        quote_escaped(s.drop_last()) + seq!['\'', '\\', '\'', '\'']
    } else {
        quote_escaped(s.drop_last()).push(s.last())
    }
}

/// `s` as one single-quoted shell word.
pub open spec fn shell_quoted(s: Seq<char>) -> Seq<char> {
    seq!['\''] + quote_escaped(s) + seq!['\'']
}

/// Quotes `value` so that a POSIX shell reads it back as one word, unchanged.
pub fn shell_quote(value: &str) -> (out: String)
    ensures
        out@ == shell_quoted(value@),
{
    let chars = chars_of(value);
    let mut out = String::new();
    push_char(&mut out, '\'');
    let mut i: usize = 0;
    while i < chars.len()
        invariant
            chars@ == value@,
            i <= chars@.len(),
            out@ == seq!['\''] + quote_escaped(chars@.take(i as int)),
        decreases chars@.len() - i,
    {
        let c = chars[i];
        proof {
            assert(chars@.take(i + 1).drop_last() =~= chars@.take(i as int));
        }
        if c == '\'' {
            push_char(&mut out, '\'');
            push_char(&mut out, '\\');
            push_char(&mut out, '\'');
            push_char(&mut out, '\'');
        } else {
            push_char(&mut out, c);
        }
        i = i + 1;
        assert(out@ =~= seq!['\''] + quote_escaped(chars@.take(i as int)));
    }
    push_char(&mut out, '\'');
    assert(chars@.take(chars@.len() as int) =~= chars@);
    assert(out@ =~= shell_quoted(value@));
    out
}

/// A remote path as a shell expression: a leading `~` becomes `"$HOME"`, and the
/// rest is quoted.
pub open spec fn shell_path_expr(path: Seq<char>) -> Seq<char> {
    if path == seq!['~'] {
        seq!['"', '$', 'H', 'O', 'M', 'E', '"']
    } else if has_prefix(path, seq!['~', '/']) {
        seq!['"', '$', 'H', 'O', 'M', 'E', '"', '/'] + shell_quoted(path.subrange(2, path.len() as int))
    } else {
        shell_quoted(path)
    }
}

/// Writes a remote path for the shell, expanding a leading `~` to the home directory.
pub fn shell_path(path: &str) -> (out: String)
    ensures
        out@ == shell_path_expr(path@),
{
    let chars = chars_of(path);
    let n = chars.len();
    let home = n == 1 && chars[0] == '~';
    let below_home = n >= 2 && chars[0] == '~' && chars[1] == '/';
    proof {
        if home {
            assert(path@ =~= seq!['~']);
        }
        if below_home {
            assert(path@.subrange(0, 2) =~= seq!['~', '/']);
        }
        if has_prefix(path@, seq!['~', '/']) {
            assert(path@.subrange(0, 2)[0] == '~');
            assert(path@.subrange(0, 2)[1] == '/');
        }
    }
    let mut out = String::new();
    if home {
        push_home(&mut out);
        assert(out@ =~= shell_path_expr(path@));
        out
    } else if below_home {
        push_home(&mut out);
        push_char(&mut out, '/');
        let rest = crate::text::string_from_chars(vstd::slice::slice_subrange(chars.as_slice(), 2, n));
        let quoted = shell_quote(rest.as_str());
        append_str(&mut out, quoted.as_str());
        assert(out@ =~= shell_path_expr(path@));
        out
    } else {
        shell_quote(path)
    }
}

fn push_home(out: &mut String)
    ensures
        final(out)@ == old(out)@ + seq!['"', '$', 'H', 'O', 'M', 'E', '"'],
{
    push_char(out, '"');
    push_char(out, '$');
    push_char(out, 'H');
    push_char(out, 'O');
    push_char(out, 'M');
    push_char(out, 'E');
    push_char(out, '"');
    assert(out@ =~= old(out)@ + seq!['"', '$', 'H', 'O', 'M', 'E', '"']);
}

} // verus!

verus! {

// ---------------------------------------------------------------------------
// Remote scripts
// ---------------------------------------------------------------------------
/// The shell script that reports what is at a path, as a header line followed by
/// the file's contents for a regular file.
pub const INSPECT_SCRIPT: &'static str = "
set -eu
path=$1
case \"$path\" in
  '~') path=$HOME ;;
  '~/'*) path=$HOME/${path#\\~/} ;;
esac
run() {
  if [ \"$2\" = 1 ]; then
    shift 2
    sudo -n -- \"$@\"
  else
    shift 2
    \"$@\"
  fi
}
privileged=$2
if run x \"$privileged\" test -L \"$path\" && ! run x \"$privileged\" test -e \"$path\"; then
  printf 'STOWAWAY1\\tDANGLING\\t-\\n'
elif ! run x \"$privileged\" test -e \"$path\"; then
  printf 'STOWAWAY1\\tMISSING\\t-\\n'
elif run x \"$privileged\" test -f \"$path\"; then
  mode=$(run x \"$privileged\" stat -Lc '%a' -- \"$path\")
  printf 'STOWAWAY1\\tFILE\\t%s\\n' \"$mode\"
  run x \"$privileged\" cat -- \"$path\"
elif run x \"$privileged\" test -d \"$path\"; then
  printf 'STOWAWAY1\\tDIRECTORY\\t-\\n'
elif run x \"$privileged\" test -L \"$path\"; then
  printf 'STOWAWAY1\\tSYMLINK\\t-\\n'
else
  printf 'STOWAWAY1\\tOTHER\\t-\\n'
fi
";

/// The shell script that reports the deployment state recorded on the host.
pub const STATE_SCRIPT: &'static str = "
set -eu
state=/var/lib/stowaway/state.toml
if ! sudo -n -- test -f \"$state\"; then
  printf 'STOWAWAY1\\tMISSING\\t-\\n'
else
  printf 'STOWAWAY1\\tSTATE\\t-\\n'
  sudo -n -- cat -- \"$state\"
fi
";

/// Why a remote step was refused or failed.
#[derive(Debug)]
pub enum RemoteError {
    DestinationStartsWithDash,
    DestinationInvalidCharacter,
    MissingHeader,
    InvalidHeader,
    UnsupportedProtocol,
    MissingType,
    MissingMode,
    UnexpectedField,
    InvalidRemoteMode,
    UnknownType(String),
    MissingStateHeader,
    InvalidStateText,
    UnsupportedStateResponse,
    UnsupportedStateVersion(u32),
    ScriptTimedOut { stderr: Vec<u8> },
    ScriptFailed { code: Option<i32>, stderr: Vec<u8> },
    ScriptPlanMismatch,
}

/// A host reached with the system `ssh` program.
pub struct Remote<'a> {
    destination: &'a str,
    ssh_program: String,
}

/// Whether `destination` can be handed to `ssh`: it must not look like an option
/// and must hold no newline, carriage return or NUL.
pub open spec fn destination_accepted(destination: Seq<char>) -> bool {
    !(destination.len() > 0 && destination[0] == '-') && !exists|i: int|
        0 <= i < destination.len() && (destination[i] == '\n' || destination[i] == '\r'
            || destination[i] == '\0')
}

impl<'a> Remote<'a> {
    /// The destination handed to `ssh`.
    pub closed spec fn spec_destination(&self) -> Seq<char> {
        self.destination@
    }

    /// The program run to reach the host.
    pub closed spec fn spec_ssh_program(&self) -> Seq<char> {
        self.ssh_program@
    }

    /// A host reached with `ssh`.
    pub fn new(destination: &'a str) -> (r: Result<Self, RemoteError>)
        ensures
            r is Ok <==> destination_accepted(destination@),
            r matches Ok(remote) ==> remote.spec_destination() == destination@
                && remote.spec_ssh_program() == "ssh"@,
            r matches Err(e) ==> if destination@.len() > 0 && destination@[0] == '-' {
                e is DestinationStartsWithDash
            } else {
                e is DestinationInvalidCharacter
            },
    {
        let chars = chars_of(destination);
        if chars.len() > 0 && chars[0] == '-' {
            return Err(RemoteError::DestinationStartsWithDash);
        }
        let mut i: usize = 0;
        while i < chars.len()
            invariant
                chars@ == destination@,
                !(chars@.len() > 0 && chars@[0] == '-'),
                i <= chars@.len(),
                forall|k: int|
                    0 <= k < i ==> !(chars@[k] == '\n' || chars@[k] == '\r' || chars@[k] == '\0'),
            decreases chars@.len() - i,
        {
            let c = chars[i];
            if c == '\n' || c == '\r' || c == '\0' {
                return Err(RemoteError::DestinationInvalidCharacter);
            }
            i = i + 1;
        }
        Ok(Remote { destination, ssh_program: "ssh".to_owned() })
    }

    /// A host reached with another program in place of `ssh`, taking the same arguments.
    pub fn with_ssh_program(destination: &'a str, ssh_program: &str) -> (r: Result<Self, RemoteError>)
        ensures
            r is Ok <==> destination_accepted(destination@),
            r matches Ok(remote) ==> remote.spec_destination() == destination@
                && remote.spec_ssh_program() == ssh_program@,
    {
        match Self::new(destination) {
            Ok(remote) => Ok(Remote { destination: remote.destination, ssh_program: ssh_program.to_owned() }),
            Err(e) => Err(e),
        }
    }

    /// The destination handed to `ssh`.
    pub fn destination(&self) -> (d: &str)
        ensures
            d@ == self.spec_destination(),
    {
        self.destination
    }

    /// The program run to reach the host.
    pub fn ssh_program(&self) -> (p: &str)
        ensures
            p@ == self.spec_ssh_program(),
    {
        self.ssh_program.as_str()
    }
}

} // verus!

verus! {

// ---------------------------------------------------------------------------
// Inspecting a remote path
// ---------------------------------------------------------------------------
/// What a remote path holds.
#[derive(Debug, PartialEq, Eq)]
pub enum Snapshot {
    Missing,
    DanglingLink,
    File { mode: u32, contents: Vec<u8> },
    Directory,
    Symlink,
    Other,
}

/// [`Snapshot`] with the contents as a byte sequence.
pub enum SnapshotView {
    Missing,
    DanglingLink,
    File { mode: u32, contents: Seq<u8> },
    Directory,
    Symlink,
    Other,
}

impl View for Snapshot {
    type V = SnapshotView;

    open spec fn view(&self) -> SnapshotView {
        match self {
            Snapshot::Missing => SnapshotView::Missing,
            Snapshot::DanglingLink => SnapshotView::DanglingLink,
            Snapshot::File { mode, contents } => SnapshotView::File { mode: *mode, contents: contents@ },
            Snapshot::Directory => SnapshotView::Directory,
            Snapshot::Symlink => SnapshotView::Symlink,
            Snapshot::Other => SnapshotView::Other,
        }
    }
}

/// The command that inspects `path` on the host, through `sudo -n` when privileged.
pub open spec fn inspect_command_text(path: Seq<char>, privileged: bool) -> Seq<char> {
    "bash -c "@ + shell_quoted(INSPECT_SCRIPT@) + " -- "@ + shell_quoted(path) + " "@ + (if privileged {
        "1"@
    } else {
        "0"@
    })
}

/// The command that reads the recorded deployment state.
pub open spec fn state_command_text() -> Seq<char> {
    "bash -c "@ + shell_quoted(STATE_SCRIPT@)
}

impl<'a> Remote<'a> {
    /// The command that inspects `path`; its reply is read by [`parse_snapshot`].
    pub fn inspect_command(path: &str, privileged: bool) -> (out: String)
        ensures
            out@ == inspect_command_text(path@, privileged),
    {
        let mut out = String::new();
        append_str(&mut out, "bash -c ");
        let script = shell_quote(INSPECT_SCRIPT);
        append_str(&mut out, script.as_str());
        append_str(&mut out, " -- ");
        let quoted = shell_quote(path);
        append_str(&mut out, quoted.as_str());
        append_str(&mut out, " ");
        if privileged {
            append_str(&mut out, "1");
        } else {
            append_str(&mut out, "0");
        }
        out
    }

    /// The command that reads the deployment state; its reply is read by
    /// [`parse_state_reply`].
    pub fn state_command() -> (out: String)
        ensures
            out@ == state_command_text(),
    {
        let mut out = String::new();
        append_str(&mut out, "bash -c ");
        let script = shell_quote(STATE_SCRIPT);
        append_str(&mut out, script.as_str());
        out
    }
}

/// Whether `i` is the position of the first newline in `s`.
pub open spec fn first_newline_at(s: Seq<u8>, i: int) -> bool {
    0 <= i < s.len() && s[i] == 10 && forall|j: int| 0 <= j < i ==> s[j] != 10
}

/// The position of the first newline in `s`, if any.
pub open spec fn header_end(s: Seq<u8>) -> Option<int> {
    if exists|i: int| first_newline_at(s, i) {
        Some(choose|i: int| first_newline_at(s, i))
    } else {
        None
    }
}

proof fn lemma_first_newline_unique(s: Seq<u8>, i: int, j: int)
    requires
        first_newline_at(s, i),
        first_newline_at(s, j),
    ensures
        i == j,
{
    if i < j {
        assert(s[i] != 10);
    } else if j < i {
        assert(s[j] != 10);
    }
}

/// Finds the first newline of `s`.
fn find_newline(s: &[u8]) -> (r: Option<usize>)
    ensures
        match r {
            Some(i) => header_end(s@) == Some(i as int),
            None => header_end(s@) is None,
        },
{
    let mut i: usize = 0;
    while i < s.len()
        invariant
            i <= s@.len(),
            forall|j: int| 0 <= j < i ==> s@[j] != 10,
        decreases s@.len() - i,
    {
        if s[i] == 10 {
            proof {
                assert(first_newline_at(s@, i as int));
                let c = choose|k: int| first_newline_at(s@, k);
                lemma_first_newline_unique(s@, i as int, c);
            }
            return Some(i);
        }
        i = i + 1;
    }
    proof {
        assert forall|k: int| !first_newline_at(s@, k) by {
            if 0 <= k < s@.len() {
                assert(s@[k] != 10);
            }
        }
    }
    None
}

/// The digits that `u32::from_str_radix` reads after an optional `+`.
pub open spec fn unsigned_digits(s: Seq<char>) -> Seq<char> {
    if s.len() > 0 && s[0] == '+' {
        s.drop_first()
    } else {
        s
    }
}

/// Whether `s` is an octal number that fits a `u32` (what `u32::from_str_radix(s, 8)` accepts).
pub open spec fn octal_u32_ok(s: Seq<char>) -> bool {
    let d = unsigned_digits(s);
    &&& d.len() > 0
    &&& forall|i: int| 0 <= i < d.len() ==> crate::config::is_octal_digit(#[trigger] d[i])
    &&& crate::config::octal_value(d) <= u32::MAX
}

/// Reads an octal number as `u32::from_str_radix(s, 8)` does.
pub fn parse_octal_u32(s: &[char]) -> (r: Option<u32>)
    ensures
        r is Some <==> octal_u32_ok(s@),
        r matches Some(v) ==> v == crate::config::octal_value(unsigned_digits(s@)),
{
    let start: usize = if s.len() > 0 && s[0] == '+' {
        1
    } else {
        0
    };
    let ghost d = unsigned_digits(s@);
    proof {
        assert(d =~= s@.subrange(start as int, s@.len() as int));
    }
    if start >= s.len() {
        return None;
    }
    let mut value: u64 = 0;
    let mut too_big = false;
    let mut i: usize = start;
    while i < s.len()
        invariant
            start <= i <= s@.len(),
            d == unsigned_digits(s@),
            d == s@.subrange(start as int, s@.len() as int),
            !too_big ==> value == crate::config::octal_value(d.take(i - start)) && value <= u32::MAX,
            too_big ==> crate::config::octal_value(d.take(i - start)) > u32::MAX,
            forall|k: int| 0 <= k < i - start ==> crate::config::is_octal_digit(#[trigger] d[k]),
        decreases s@.len() - i,
    {
        let c = s[i];
        if !('0' <= c && c <= '7') {
            assert(!crate::config::is_octal_digit(d[i - start]));
            return None;
        }
        proof {
            assert(d.take(i - start + 1).drop_last() =~= d.take(i - start));
            assert(d.take(i - start + 1).last() == c);
        }
        if !too_big {
            let next = value * 8 + (c as u64 - '0' as u64);
            if next > 0xffff_ffff {
                too_big = true;
            } else {
                value = next;
            }
        }
        i = i + 1;
    }
    proof {
        assert(d.take(d.len() as int) =~= d);
    }
    if too_big {
        None
    } else {
        Some(value as u32)
    }
}

/// Why an inspection reply was refused, or what it reports.
pub enum SnapshotFault {
    MissingHeader,
    InvalidHeader,
    UnsupportedProtocol,
    MissingType,
    MissingMode,
    UnexpectedField,
    InvalidRemoteMode,
    UnknownType(Seq<char>),
}

/// The reply to an inspection, read from its bytes: a header line of three
/// tab-separated fields (`STOWAWAY1`, the kind, the octal mode or `-`), then the
/// contents of a regular file.
pub open spec fn snapshot_reply(bytes: Seq<u8>) -> Result<SnapshotView, SnapshotFault> {
    match header_end(bytes) {
        None => Err(SnapshotFault::MissingHeader),
        Some(n) => {
            let header = bytes.take(n);
            if !vstd::utf8::valid_utf8(header) {
                Err(SnapshotFault::InvalidHeader)
            } else {
                let fields = crate::paths::split_on(vstd::utf8::decode_utf8(header), '\t');
                let contents = bytes.skip(n + 1);
                if fields[0] != "STOWAWAY1"@ {
                    Err(SnapshotFault::UnsupportedProtocol)
                } else if fields.len() < 2 {
                    Err(SnapshotFault::MissingType)
                } else if fields.len() < 3 {
                    Err(SnapshotFault::MissingMode)
                } else if fields.len() > 3 {
                    Err(SnapshotFault::UnexpectedField)
                } else {
                    let kind = fields[1];
                    let mode = fields[2];
                    if kind == "MISSING"@ {
                        Ok(SnapshotView::Missing)
                    } else if kind == "DANGLING"@ {
                        Ok(SnapshotView::DanglingLink)
                    } else if kind == "FILE"@ {
                        if octal_u32_ok(mode) {
                            Ok(SnapshotView::File {
                                mode: crate::config::octal_value(unsigned_digits(mode)) as u32,
                                contents,
                            })
                        } else {
                            Err(SnapshotFault::InvalidRemoteMode)
                        }
                    } else if kind == "DIRECTORY"@ {
                        Ok(SnapshotView::Directory)
                    } else if kind == "SYMLINK"@ {
                        Ok(SnapshotView::Symlink)
                    } else if kind == "OTHER"@ {
                        Ok(SnapshotView::Other)
                    } else {
                        Err(SnapshotFault::UnknownType(kind))
                    }
                }
            }
        },
    }
}

/// The fault that a [`RemoteError`] from [`parse_snapshot`] stands for.
pub open spec fn snapshot_fault_of(e: RemoteError) -> Option<SnapshotFault> {
    match e {
        RemoteError::MissingHeader => Some(SnapshotFault::MissingHeader),
        RemoteError::InvalidHeader => Some(SnapshotFault::InvalidHeader),
        RemoteError::UnsupportedProtocol => Some(SnapshotFault::UnsupportedProtocol),
        RemoteError::MissingType => Some(SnapshotFault::MissingType),
        RemoteError::MissingMode => Some(SnapshotFault::MissingMode),
        RemoteError::UnexpectedField => Some(SnapshotFault::UnexpectedField),
        RemoteError::InvalidRemoteMode => Some(SnapshotFault::InvalidRemoteMode),
        RemoteError::UnknownType(k) => Some(SnapshotFault::UnknownType(k@)),
        _ => None,
    }
}

/// Reads the reply of an inspection.
pub fn parse_snapshot(bytes: &[u8]) -> (r: Result<Snapshot, RemoteError>)
    ensures
        match r {
            Ok(s) => snapshot_reply(bytes@) == Ok::<SnapshotView, SnapshotFault>(s@),
            Err(e) => snapshot_reply(bytes@) matches Err(f) && snapshot_fault_of(e) == Some(f),
        },
{
    let newline = match find_newline(bytes) {
        Some(n) => n,
        None => {
            return Err(RemoteError::MissingHeader);
        },
    };
    proof {
        assert(first_newline_at(bytes@, newline as int));
    }
    let header_bytes = vstd::slice::slice_subrange(bytes, 0, newline);
    proof {
        assert(header_bytes@ =~= bytes@.take(newline as int));
    }
    let header = match crate::external::utf8_text(header_bytes) {
        Some(h) => h,
        None => {
            return Err(RemoteError::InvalidHeader);
        },
    };
    let header_chars = chars_of(header);
    let fields = crate::paths::split_chars(header_chars.as_slice(), '\t');
    proof {
        crate::paths::lemma_split_nonempty(header_chars@, '\t');
    }
    let protocol = chars_of("STOWAWAY1");
    if !crate::text::chars_eq(fields[0].as_slice(), protocol.as_slice()) {
        return Err(RemoteError::UnsupportedProtocol);
    }
    if fields.len() < 2 {
        return Err(RemoteError::MissingType);
    }
    if fields.len() < 3 {
        return Err(RemoteError::MissingMode);
    }
    if fields.len() > 3 {
        return Err(RemoteError::UnexpectedField);
    }
    let kind = fields[1].as_slice();
    let total = bytes.len();
    assert(newline < total);
    let contents_slice = vstd::slice::slice_subrange(bytes, newline + 1, total);
    proof {
        assert(contents_slice@ =~= bytes@.skip(newline + 1));
    }
    if crate::text::chars_eq(kind, chars_of("MISSING").as_slice()) {
        Ok(Snapshot::Missing)
    } else if crate::text::chars_eq(kind, chars_of("DANGLING").as_slice()) {
        Ok(Snapshot::DanglingLink)
    } else if crate::text::chars_eq(kind, chars_of("FILE").as_slice()) {
        match parse_octal_u32(fields[2].as_slice()) {
            Some(mode) => Ok(Snapshot::File { mode, contents: vstd::slice::slice_to_vec(contents_slice) }),
            None => Err(RemoteError::InvalidRemoteMode),
        }
    } else if crate::text::chars_eq(kind, chars_of("DIRECTORY").as_slice()) {
        Ok(Snapshot::Directory)
    } else if crate::text::chars_eq(kind, chars_of("SYMLINK").as_slice()) {
        Ok(Snapshot::Symlink)
    } else if crate::text::chars_eq(kind, chars_of("OTHER").as_slice()) {
        Ok(Snapshot::Other)
    } else {
        Err(RemoteError::UnknownType(crate::text::string_from_chars(kind)))
    }
}

/// The kind that the inspect script prints for what it found.
pub open spec fn kind_word(s: SnapshotView) -> Seq<char> {
    match s {
        SnapshotView::Missing => "MISSING"@,
        SnapshotView::DanglingLink => "DANGLING"@,
        SnapshotView::File { .. } => "FILE"@,
        SnapshotView::Directory => "DIRECTORY"@,
        SnapshotView::Symlink => "SYMLINK"@,
        SnapshotView::Other => "OTHER"@,
    }
}

/// The mode field that the inspect script prints: a regular file's mode in
/// octal without leading zeros (as `stat -c %a` writes it), else `-`.
pub open spec fn mode_field(s: SnapshotView) -> Seq<char> {
    match s {
        SnapshotView::File { mode, .. } => crate::text::digits(mode as nat, 8),
        _ => seq!['-'],
    }
}

/// What the inspect script prints for what it found at a path: the header
/// line, then a regular file's contents.
pub open spec fn inspect_reply(s: SnapshotView) -> Seq<u8> {
    let header = "STOWAWAY1"@ + seq!['\t'] + kind_word(s) + seq!['\t'] + mode_field(s);
    vstd::utf8::encode_utf8(header) + seq![10u8] + match s {
        SnapshotView::File { contents, .. } => contents,
        _ => Seq::<u8>::empty(),
    }
}

proof fn lemma_encode_no_newline(chars: Seq<char>)
    requires
        forall|i: int| 0 <= i < chars.len() ==> chars[i] != '\n',
    ensures
        forall|i: int|
            0 <= i < vstd::utf8::encode_utf8(chars).len() ==> #[trigger] vstd::utf8::encode_utf8(chars)[i]
                != 10u8,
    decreases chars.len(),
{
    if chars.len() > 0 {
        let rest = chars.drop_first();
        lemma_encode_no_newline(rest);
        let v = chars[0] as u32;
        let first = vstd::utf8::encode_scalar(v);
        assert(vstd::utf8::encode_utf8(chars) == first + vstd::utf8::encode_utf8(rest));
        vstd::utf8::char_u32_cast('\n', 10u32);
        vstd::utf8::char_u32_cast(chars[0], v);
        assert(v != 10u32);
        assert(forall|x: u32| x != 10u32 && x <= 0x7f ==> #[trigger] ((x & 0x7F) as u8) != 10u8) by (bit_vector);
        assert(forall|x: u8| #[trigger] (0xC0u8 | x) != 10u8) by (bit_vector);
        assert(forall|x: u8| #[trigger] (0xE0u8 | x) != 10u8) by (bit_vector);
        assert(forall|x: u8| #[trigger] (0xF0u8 | x) != 10u8) by (bit_vector);
        assert(forall|x: u8| #[trigger] (0x80u8 | x) != 10u8) by (bit_vector);
        assert forall|i: int| 0 <= i < first.len() implies first[i] != 10u8 by {}
    }
}

/// What the inspect script prints for a path reads back as exactly what it
/// found there: the kind, a regular file's mode and its contents.
pub proof fn lemma_inspect_reply_reads_back(s: SnapshotView)
    ensures
        snapshot_reply(inspect_reply(s)) == Ok::<SnapshotView, SnapshotFault>(s),
{
    reveal_strlit("STOWAWAY1");
    reveal_strlit("MISSING");
    reveal_strlit("DANGLING");
    reveal_strlit("FILE");
    reveal_strlit("DIRECTORY");
    reveal_strlit("SYMLINK");
    reveal_strlit("OTHER");
    let proto = "STOWAWAY1"@;
    let kind = kind_word(s);
    let mode = mode_field(s);
    let header = proto + seq!['\t'] + kind + seq!['\t'] + mode;
    let hb = vstd::utf8::encode_utf8(header);
    let body = match s {
        SnapshotView::File { contents, .. } => contents,
        _ => Seq::<u8>::empty(),
    };
    let bytes = inspect_reply(s);
    assert(bytes =~= hb + seq![10u8] + body);
    if let SnapshotView::File { mode: m, .. } = s {
        crate::config::lemma_octal_digits(m as nat);
    }
    assert forall|i: int| 0 <= i < mode.len() implies mode[i] != '\n' && mode[i] != '\t' && mode[i] != '+' by {
        if let SnapshotView::File { .. } = s {
            assert(crate::config::is_octal_digit(mode[i]));
        }
    }
    assert forall|i: int| 0 <= i < header.len() implies header[i] != '\n' by {
        if i >= proto.len() + 1 + kind.len() + 1 {
            assert(header[i] == mode[i - (proto.len() + 1 + kind.len() + 1)]);
        }
    }
    lemma_encode_no_newline(header);
    let n = hb.len() as int;
    assert(first_newline_at(bytes, n));
    let c = choose|i: int| first_newline_at(bytes, i);
    lemma_first_newline_unique(bytes, n, c);
    assert(header_end(bytes) == Some(n));
    assert(bytes.take(n) =~= hb);
    assert(bytes.skip(n + 1) =~= body);
    vstd::utf8::encode_utf8_valid_utf8(header);
    vstd::utf8::encode_utf8_decode_utf8(header);
    assert(forall|i: int| 0 <= i < proto.len() ==> proto[i] != '\t');
    assert(forall|i: int| 0 <= i < kind.len() ==> kind[i] != '\t');
    crate::paths::lemma_split_single(proto, '\t');
    crate::paths::lemma_split_single(kind, '\t');
    crate::paths::lemma_split_single(mode, '\t');
    crate::paths::lemma_split_concat(proto, kind, '\t');
    crate::paths::lemma_split_concat(proto + seq!['\t'] + kind, mode, '\t');
    let fields = crate::paths::split_on(header, '\t');
    assert(fields =~= seq![proto, kind, mode]);
    if let SnapshotView::File { mode: m, .. } = s {
        assert(unsigned_digits(mode) == mode);
        assert(octal_u32_ok(mode));
    }
}

} // verus!

verus! {

// ---------------------------------------------------------------------------
// Scripts
// ---------------------------------------------------------------------------
/// The outcome of running a script's `check` action.
#[derive(Debug, PartialEq, Eq)]
pub struct ScriptCheck {
    pub needs_apply: bool,
    pub stdout: Vec<u8>,
    pub stderr: Vec<u8>,
}

/// The command that runs a script read from standard input with `check`,
/// under `timeout`, through `sudo -n` when privileged.
pub open spec fn check_script_command_text(privileged: bool, timeout_seconds: u64) -> Seq<char> {
    (if privileged {
        "sudo -n -- "@
    } else {
        ""@
    }) + "timeout --signal=TERM --kill-after=5s "@ + shell_quoted(
        crate::text::digits(timeout_seconds as nat, 10) + "s"@,
    ) + " bash -s -- check"@
}

impl<'a> Remote<'a> {
    /// The command that runs a script's `check` action; the script is its
    /// standard input, and [`parse_script_check`] reads how it ended.
    pub fn check_script_command(privileged: bool, timeout_seconds: u64) -> (out: String)
        ensures
            out@ == check_script_command_text(privileged, timeout_seconds),
    {
        let mut timeout = String::new();
        crate::text::push_decimal(&mut timeout, timeout_seconds);
        append_str(&mut timeout, "s");
        let mut out = String::new();
        if privileged {
            append_str(&mut out, "sudo -n -- ");
        } else {
            append_str(&mut out, "");
        }
        append_str(&mut out, "timeout --signal=TERM --kill-after=5s ");
        let quoted = shell_quote(timeout.as_str());
        append_str(&mut out, quoted.as_str());
        append_str(&mut out, " bash -s -- check");
        out
    }
}

/// Reads how a script's `check` ended: status 0 means configured, 10 means an
/// apply is needed, 124 means the timeout struck, anything else (or a signal) is
/// a failure.
pub fn parse_script_check(code: Option<i32>, stdout: Vec<u8>, stderr: Vec<u8>) -> (r: Result<
    ScriptCheck,
    RemoteError,
>)
    ensures
        code == Some(0i32) || code == Some(10i32) <==> r is Ok,
        r matches Ok(check) ==> check.needs_apply == (code == Some(10i32)) && check.stdout@
            == stdout@ && check.stderr@ == stderr@,
        code == Some(124i32) <==> r matches Err(RemoteError::ScriptTimedOut { .. }),
        r matches Err(RemoteError::ScriptTimedOut { stderr: e }) ==> e@ == stderr@,
        r matches Err(e) ==> (e is ScriptTimedOut || e is ScriptFailed),
        r matches Err(RemoteError::ScriptFailed { code: c, stderr: e }) ==> c == code && e@
            == stderr@,
{
    match code {
        Some(0) => Ok(ScriptCheck { needs_apply: false, stdout, stderr }),
        Some(10) => Ok(ScriptCheck { needs_apply: true, stdout, stderr }),
        Some(124) => Err(RemoteError::ScriptTimedOut { stderr }),
        _ => Err(RemoteError::ScriptFailed { code, stderr }),
    }
}

// ---------------------------------------------------------------------------
// Staging content
// ---------------------------------------------------------------------------
/// Where staged content lives: under `/var/lib` for privileged files, else
/// under the user's home.
pub open spec fn store_root(privileged: bool) -> Seq<char> {
    if privileged {
        "/var/lib/stowaway/store"@
    } else {
        "~/.local/share/stowaway/store"@
    }
}

/// The directory that holds a deployment's staged files.
pub open spec fn staged_dir(digest: Seq<char>, privileged: bool) -> Seq<char> {
    store_root(privileged) + "/"@ + digest
}

/// The staged copy of the file at `index`.
pub open spec fn staged_path(digest: Seq<char>, index: nat, privileged: bool) -> Seq<char> {
    staged_dir(digest, privileged) + "/"@ + crate::text::digits(index, 10)
}

/// The command that writes standard input to the staged copy of a file and sets
/// its mode.
pub open spec fn stage_command_text(digest: Seq<char>, index: nat, mode: u32, privileged: bool) -> Seq<char> {
    let prefix = if privileged {
        "sudo -n -- "@
    } else {
        ""@
    };
    let expanded = shell_path_expr(staged_path(digest, index, privileged));
    "set -eu; "@ + prefix + "mkdir -p -- "@ + shell_path_expr(staged_dir(digest, privileged)) + "; "@
        + prefix + "tee -- "@ + expanded + " >/dev/null; "@ + prefix + "chmod "@
        + crate::text::zero_padded(crate::text::digits(mode as nat, 8), 4) + " -- "@ + expanded
}

impl<'a> Remote<'a> {
    /// The command that stages the file at `index` of the deployment `digest`;
    /// the file's contents are its standard input.
    pub fn stage_file(&self, digest: &str, index: usize, mode: u32, privileged: bool) -> (out: String)
        ensures
            out@ == stage_command_text(digest@, index as nat, mode, privileged),
    {
        let mut dir = String::new();
        if privileged {
            append_str(&mut dir, "/var/lib/stowaway/store");
        } else {
            append_str(&mut dir, "~/.local/share/stowaway/store");
        }
        append_str(&mut dir, "/");
        append_str(&mut dir, digest);
        let mut path = dir.clone();
        append_str(&mut path, "/");
        crate::text::push_decimal(&mut path, index as u64);
        let expanded = shell_path(path.as_str());
        let parent = shell_path(dir.as_str());
        let prefix = if privileged {
            "sudo -n -- "
        } else {
            ""
        };
        let mut out = String::new();
        append_str(&mut out, "set -eu; ");
        append_str(&mut out, prefix);
        append_str(&mut out, "mkdir -p -- ");
        append_str(&mut out, parent.as_str());
        append_str(&mut out, "; ");
        append_str(&mut out, prefix);
        append_str(&mut out, "tee -- ");
        append_str(&mut out, expanded.as_str());
        append_str(&mut out, " >/dev/null; ");
        append_str(&mut out, prefix);
        append_str(&mut out, "chmod ");
        crate::text::push_octal4(&mut out, mode);
        append_str(&mut out, " -- ");
        append_str(&mut out, expanded.as_str());
        out
    }
}

} // verus!

verus! {

// ---------------------------------------------------------------------------
// Deployment state
// ---------------------------------------------------------------------------
/// The deployment recorded on a host.
#[derive(Debug, PartialEq, Eq)]
pub struct DeploymentState {
    pub version: u32,
    pub machine: String,
    pub git_commit: String,
    pub content_digest: String,
    pub deployed_at: String,
    pub managed_paths: Vec<ManagedPath>,
}

/// A path that a deployment manages on the host.
#[derive(Debug, Clone, PartialEq, Eq)]
pub struct ManagedPath {
    pub path: String,
    pub privileged: bool,
}

/// What the state command reported.
#[derive(Debug)]
pub enum StateReply {
    /// The host has no recorded deployment.
    Missing,
    /// The text of the recorded state.
    Recorded(String),
}

/// The reply to the state command, read from its bytes.
pub open spec fn state_reply_ok(output: Seq<u8>, r: StateReply) -> bool {
    match header_end(output) {
        None => false,
        Some(n) => {
            let header = output.take(n);
            let body = output.skip(n + 1);
            if header == vstd::utf8::encode_utf8("STOWAWAY1\tMISSING\t-"@) {
                r is Missing
            } else if header == vstd::utf8::encode_utf8("STOWAWAY1\tSTATE\t-"@) {
                vstd::utf8::valid_utf8(body) && (r matches StateReply::Recorded(text) && text@
                    == vstd::utf8::decode_utf8(body))
            } else {
                false
            }
        },
    }
}

/// Whether the reply to the state command is well formed: a `MISSING` header,
/// or a `STATE` header followed by UTF-8 text.
pub open spec fn state_reply_accepted(output: Seq<u8>) -> bool {
    match header_end(output) {
        None => false,
        Some(n) => output.take(n) == vstd::utf8::encode_utf8("STOWAWAY1\tMISSING\t-"@) || (output.take(
            n,
        ) == vstd::utf8::encode_utf8("STOWAWAY1\tSTATE\t-"@) && vstd::utf8::valid_utf8(
            output.skip(n + 1),
        )),
    }
}

/// What the state script prints: a `MISSING` header when nothing is recorded,
/// else a `STATE` header and the recorded text.
pub open spec fn state_script_reply(recorded: Option<Seq<char>>) -> Seq<u8> {
    match recorded {
        None => vstd::utf8::encode_utf8("STOWAWAY1\tMISSING\t-"@) + seq![10u8],
        Some(text) => vstd::utf8::encode_utf8("STOWAWAY1\tSTATE\t-"@) + seq![10u8]
            + vstd::utf8::encode_utf8(text),
    }
}

/// What the state script prints reads back as what it found: no record, or
/// exactly the recorded text.
pub proof fn lemma_state_reply_reads_back(recorded: Option<Seq<char>>, reply: StateReply)
    ensures
        state_reply_accepted(state_script_reply(recorded)),
        state_reply_ok(state_script_reply(recorded), reply) <==> match recorded {
            None => reply is Missing,
            Some(text) => reply matches StateReply::Recorded(t) && t@ == text,
        },
{
    reveal_strlit("STOWAWAY1\tMISSING\t-");
    reveal_strlit("STOWAWAY1\tSTATE\t-");
    let missing = "STOWAWAY1\tMISSING\t-"@;
    let state = "STOWAWAY1\tSTATE\t-"@;
    let header = if recorded is None {
        missing
    } else {
        state
    };
    let body = match recorded {
        None => Seq::<u8>::empty(),
        Some(text) => vstd::utf8::encode_utf8(text),
    };
    let hb = vstd::utf8::encode_utf8(header);
    let bytes = state_script_reply(recorded);
    assert(bytes =~= hb + seq![10u8] + body);
    assert forall|i: int| 0 <= i < header.len() implies header[i] != '\n' by {}
    lemma_encode_no_newline(header);
    let n = hb.len() as int;
    assert(first_newline_at(bytes, n));
    let c = choose|i: int| first_newline_at(bytes, i);
    lemma_first_newline_unique(bytes, n, c);
    assert(header_end(bytes) == Some(n));
    assert(bytes.take(n) =~= hb);
    assert(bytes.skip(n + 1) =~= body);
    vstd::utf8::encode_utf8_decode_utf8(missing);
    vstd::utf8::encode_utf8_decode_utf8(state);
    assert(missing != state) by {
        assert(missing.len() != state.len());
    }
    assert(vstd::utf8::encode_utf8(missing) != vstd::utf8::encode_utf8(state));
    if let Some(text) = recorded {
        vstd::utf8::encode_utf8_valid_utf8(text);
        vstd::utf8::encode_utf8_decode_utf8(text);
    }
}

/// Reads the reply of the state command: a `MISSING` or `STATE` header line,
/// then, for `STATE`, the recorded state as UTF-8 text.
pub fn parse_state_reply(output: &[u8]) -> (r: Result<StateReply, RemoteError>)
    ensures
        r matches Ok(reply) ==> state_reply_ok(output@, reply),
        r is Ok <==> state_reply_accepted(output@),
        r matches Err(e) ==> match header_end(output@) {
            None => e is MissingStateHeader,
            Some(n) => if output@.take(n) == vstd::utf8::encode_utf8("STOWAWAY1\tSTATE\t-"@) {
                e is InvalidStateText
            } else {
                e is UnsupportedStateResponse
            },
        },
{
    let newline = match find_newline(output) {
        Some(n) => n,
        None => {
            return Err(RemoteError::MissingStateHeader);
        },
    };
    proof {
        assert(first_newline_at(output@, newline as int));
    }
    let total = output.len();
    let header = vstd::slice::slice_subrange(output, 0, newline);
    let body = vstd::slice::slice_subrange(output, newline + 1, total);
    proof {
        assert(header@ =~= output@.take(newline as int));
        assert(body@ =~= output@.skip(newline + 1));
    }
    let missing = "STOWAWAY1\tMISSING\t-";
    let recorded = "STOWAWAY1\tSTATE\t-";
    if crate::text::bytes_eq(header, missing.as_bytes()) {
        Ok(StateReply::Missing)
    } else if crate::text::bytes_eq(header, recorded.as_bytes()) {
        match crate::external::utf8_text(body) {
            Some(text) => Ok(StateReply::Recorded(text.to_owned())),
            None => Err(RemoteError::InvalidStateText),
        }
    } else {
        Err(RemoteError::UnsupportedStateResponse)
    }
}

/// Accepts a recorded state of the one supported version.
pub fn accept_state(state: DeploymentState) -> (r: Result<DeploymentState, RemoteError>)
    ensures
        state.version == 1 <==> r is Ok,
        r matches Ok(s) ==> s == state,
        r matches Err(e) ==> e == RemoteError::UnsupportedStateVersion(state.version),
{
    if state.version == 1 {
        Ok(state)
    } else {
        Err(RemoteError::UnsupportedStateVersion(state.version))
    }
}

} // verus!

verus! {

// ---------------------------------------------------------------------------
// The deployment transaction
// ---------------------------------------------------------------------------
/// Sets up the rollback journal; on any exit before the state is committed,
/// every journaled target is put back.
pub const TX_PRELUDE: &'static str = "set -eu\nrollback_dir=$(mktemp -d)\ncommitted=0\nrollback() { code=$?; if [ \"$committed\" = 0 ]; then while IFS='\t' read -r flag priv path backup; do run=; [ \"$priv\" = 1 ] && run='sudo -n --'; if [ \"$flag\" = present ]; then $run rm -rf -- \"$path\"; $run cp -a -- \"$backup\" \"$path\"; else $run rm -rf -- \"$path\"; fi; done < \"$rollback_dir/journal\"; fi; rm -rf -- \"$rollback_dir\"; exit $code; }\ntrap rollback EXIT HUP INT TERM\n: > \"$rollback_dir/journal\"\n";

/// Starts a file's section: names the target and how to run commands on it.
pub const TX_TARGET: &'static str = "target=";
pub const TX_RUN: &'static str = "; run=; [ ";
pub const TX_RUN_END: &'static str = " = 1 ] && run='sudo -n --'\n";

/// For a target that the previous deployment managed: refuse it, or back it up
/// with `--adopt`, when it is no longer one of our links.
pub const TX_MANAGED: &'static str = "if $run test -e \"$target\" || $run test -L \"$target\"; then valid=0; if $run test -L \"$target\"; then link=$($run readlink -- \"$target\"); case \"$link\" in /var/lib/stowaway/store/*|\"$HOME\"/.local/share/stowaway/store/*) valid=1 ;; esac; fi; if [ \"$valid\" = 0 ]; then echo \"managed target was replaced: $target (use --adopt to take it over)\" >&2; [ ";
pub const TX_MANAGED_END: &'static str = " = 1 ] || exit 1; stamp=$(date -u +%Y%m%dT%H%M%SZ); $run cp -a -- \"$target\" \"$target.stowaway-backup-$stamp\"; fi; fi\n";

/// For an unmanaged target without `--adopt`: refuse anything already there.
pub const TX_COLLISION: &'static str = "if $run test -e \"$target\" || $run test -L \"$target\"; then echo \"unmanaged collision: $target\" >&2; exit 1; fi\n";

/// For an unmanaged target with `--adopt`: back up anything already there.
pub const TX_ADOPT: &'static str = "if $run test -e \"$target\" || $run test -L \"$target\"; then stamp=$(date -u +%Y%m%dT%H%M%SZ); $run cp -a -- \"$target\" \"$target.stowaway-backup-$stamp\"; fi\n";

/// Journals the target (copying what is there) and removes it.
pub const TX_JOURNAL: &'static str = "$run mkdir -p -- $(dirname -- \"$target\")\nif $run test -e \"$target\" || $run test -L \"$target\"; then backup=\"$rollback_dir/";
pub const TX_JOURNAL_PRESENT: &'static str = "\"; $run cp -a -- \"$target\" \"$backup\"; printf 'present\\t";
pub const TX_JOURNAL_MISSING: &'static str = "\\t%s\\t%s\\n' \"$target\" \"$backup\" >> \"$rollback_dir/journal\"; else printf 'missing\\t";
pub const TX_JOURNAL_END: &'static str = "\\t%s\\t-\\n' \"$target\" >> \"$rollback_dir/journal\"; fi\n$run rm -rf -- \"$target\"\n";

/// Links the target to its staged copy.
pub const TX_LINK: &'static str = "$run ln -s -- ";
pub const TX_LINK_END: &'static str = " \"$target\"\n";

/// For a path that the previous deployment managed and this one does not:
/// journal and remove it when it is still one of our links.
pub const TX_OBSOLETE: &'static str = "; if ";
pub const TX_OBSOLETE_LINK: &'static str = " test -L \"$target\"; then link=$(";
pub const TX_OBSOLETE_CASE: &'static str = "readlink -- \"$target\"); case \"$link\" in /var/lib/stowaway/store/*|\"$HOME\"/.local/share/stowaway/store/*) backup=\"$rollback_dir/old-";
pub const TX_OBSOLETE_COPY: &'static str = "\"; ";
pub const TX_OBSOLETE_JOURNAL: &'static str = "cp -a -- \"$target\" \"$backup\"; printf 'present\\t";
pub const TX_OBSOLETE_REMOVE: &'static str = "\\t%s\\t%s\\n' \"$target\" \"$backup\" >> \"$rollback_dir/journal\"; ";
pub const TX_OBSOLETE_END: &'static str = "rm -- \"$target\" ;; esac; fi\n";

/// Runs a script's `apply` action under its timeout.
pub const TX_SCRIPT: &'static str = "timeout --signal=TERM --kill-after=5s ";
pub const TX_SCRIPT_BODY: &'static str = " bash -s -- apply <<'STOWAWAY_SCRIPT'\n";
pub const TX_SCRIPT_END: &'static str = "\nSTOWAWAY_SCRIPT\n";

/// Writes the new state, with the deployment time, and commits.
pub const TX_STATE: &'static str = "state_tmp=$(mktemp); cat > \"$state_tmp\" <<'STOWAWAY_STATE'\n";
pub const TX_STATE_PATHS: &'static str = "STOWAWAY_STATE\nprintf 'deployed_at = \"%s\"\\n' \"$(date -u +%Y-%m-%dT%H:%M:%SZ)\" >> \"$state_tmp\"\ncat >> \"$state_tmp\" <<'STOWAWAY_PATHS'\n";
pub const TX_STATE_END: &'static str = "STOWAWAY_PATHS\nsudo -n -- mkdir -p /var/lib/stowaway; sudo -n -- install -m 0644 \"$state_tmp\" /var/lib/stowaway/state.toml; committed=1; rm -f \"$state_tmp\"\n";

/// What a deployment transaction installs, and against what it was planned.
pub struct ApplyRequest<'a> {
    pub machine: &'a str,
    pub digest: &'a str,
    pub git_commit: &'a str,
    pub files: &'a [DeploymentFile],
    pub scripts: &'a [DeploymentScript],
    pub script_apply: &'a [bool],
    pub previous: &'a [ManagedPath],
    pub adopt: bool,
}

/// `1` or `0`.
pub open spec fn flag_text(b: bool) -> Seq<char> {
    if b {
        "1"@
    } else {
        "0"@
    }
}

/// Whether the previous deployment managed `target`.
pub open spec fn managed_before(previous: Seq<ManagedPath>, target: Seq<char>) -> bool {
    exists|k: int| 0 <= k < previous.len() && (#[trigger] previous[k]).path@ == target
}

/// Where the link to the staged copy of the file at `index` points.
pub open spec fn store_link_text(digest: Seq<char>, index: nat, privileged: bool) -> Seq<char> {
    if privileged {
        shell_quoted("/var/lib/stowaway/store/"@ + digest + "/"@ + crate::text::digits(index, 10))
    } else {
        "\"$HOME/.local/share/stowaway/store/"@ + digest + "/"@ + crate::text::digits(index, 10)
            + "\""@
    }
}

/// How a file's section begins: the target, how to run commands on it, and
/// the guard against replacing what is not ours.
pub open spec fn file_guard(file: DeploymentFile, managed: bool, adopt: bool) -> Seq<char> {
    TX_TARGET@ + shell_path_expr(file.target@) + TX_RUN@ + flag_text(file.privileged) + TX_RUN_END@
        + (if managed {
        TX_MANAGED@ + flag_text(adopt) + TX_MANAGED_END@
    } else if !adopt {
        TX_COLLISION@
    } else {
        TX_ADOPT@
    })
}

/// How a file's section journals and clears the target.
pub open spec fn file_journal(index: nat, privileged: bool) -> Seq<char> {
    let flag = flag_text(privileged);
    TX_JOURNAL@ + crate::text::digits(index, 10) + TX_JOURNAL_PRESENT@ + flag + TX_JOURNAL_MISSING@
        + flag + TX_JOURNAL_END@
}

/// How a file's section links the target to the staged copy.
pub open spec fn file_link(digest: Seq<char>, index: nat, privileged: bool) -> Seq<char> {
    TX_LINK@ + store_link_text(digest, index, privileged) + TX_LINK_END@
}

/// The part of the transaction that installs the file at `index`.
pub open spec fn file_section(
    digest: Seq<char>,
    index: nat,
    file: DeploymentFile,
    managed: bool,
    adopt: bool,
) -> Seq<char> {
    file_guard(file, managed, adopt) + file_journal(index, file.privileged) + file_link(
        digest,
        index,
        file.privileged,
    )
}

/// The sections of all files, in order.
pub open spec fn file_sections(
    digest: Seq<char>,
    files: Seq<DeploymentFile>,
    previous: Seq<ManagedPath>,
    adopt: bool,
) -> Seq<char>
    decreases files.len(),
{
    if files.len() == 0 {
        Seq::<char>::empty()
    } else {
        file_sections(digest, files.drop_last(), previous, adopt) + file_section(
            digest,
            (files.len() - 1) as nat,
            files.last(),
            managed_before(previous, files.last().target@),
            adopt,
        )
    }
}

/// Whether some file of the deployment has `path` as its target.
pub open spec fn still_declared(files: Seq<DeploymentFile>, path: Seq<char>) -> bool {
    exists|k: int| 0 <= k < files.len() && (#[trigger] files[k]).target@ == path
}

/// The previously managed paths that no file of the deployment targets any more.
pub open spec fn obsolete_paths(previous: Seq<ManagedPath>, files: Seq<DeploymentFile>) -> Seq<ManagedPath>
    decreases previous.len(),
{
    if previous.len() == 0 {
        Seq::<ManagedPath>::empty()
    } else {
        let rest = obsolete_paths(previous.drop_last(), files);
        if still_declared(files, previous.last().path@) {
            rest
        } else {
            rest.push(previous.last())
        }
    }
}

/// A previously managed path is removed exactly when no file of the new
/// deployment targets it; paths still declared are never removed.
pub proof fn lemma_obsolete_paths(previous: Seq<ManagedPath>, files: Seq<DeploymentFile>, p: ManagedPath)
    ensures
        obsolete_paths(previous, files).contains(p) <==> previous.contains(p) && !still_declared(
            files,
            p.path@,
        ),
    decreases previous.len(),
{
    if previous.len() > 0 {
        let init = previous.drop_last();
        let last = previous.last();
        lemma_obsolete_paths(init, files, p);
        assert(previous =~= init.push(last));
        let rest = obsolete_paths(init, files);
        if previous.contains(p) {
            let k = choose|k: int| 0 <= k < previous.len() && previous[k] == p;
            if k < previous.len() - 1 {
                assert(init[k] == p);
            }
        }
        if init.contains(p) {
            let k = choose|k: int| 0 <= k < init.len() && init[k] == p;
            assert(previous[k] == p);
        }
        if !still_declared(files, last.path@) {
            if rest.push(last).contains(p) {
                let k = choose|k: int| 0 <= k < rest.push(last).len() && rest.push(last)[k] == p;
                if k < rest.len() {
                    assert(rest[k] == p);
                }
            }
            if rest.contains(p) {
                let k = choose|k: int| 0 <= k < rest.len() && rest[k] == p;
                assert(rest.push(last)[k] == p);
            }
            assert(rest.push(last)[rest.len() as int] == last);
        }
    }
}

/// `sudo -n -- ` for a privileged path, else nothing.
pub open spec fn run_prefix(privileged: bool) -> Seq<char> {
    if privileged {
        "sudo -n -- "@
    } else {
        ""@
    }
}

/// The part of the transaction that retires the obsolete path at `index`.
pub open spec fn removal_section(index: nat, path: ManagedPath) -> Seq<char> {
    let run = run_prefix(path.privileged);
    TX_TARGET@ + shell_path_expr(path.path@) + TX_OBSOLETE@ + run + TX_OBSOLETE_LINK@ + run
        + TX_OBSOLETE_CASE@ + crate::text::digits(index, 10) + TX_OBSOLETE_COPY@ + run
        + TX_OBSOLETE_JOURNAL@ + flag_text(path.privileged) + TX_OBSOLETE_REMOVE@ + run
        + TX_OBSOLETE_END@
}

/// The sections of all obsolete paths, in order.
pub open spec fn removal_sections(paths: Seq<ManagedPath>) -> Seq<char>
    decreases paths.len(),
{
    if paths.len() == 0 {
        Seq::<char>::empty()
    } else {
        removal_sections(paths.drop_last()) + removal_section(
            (paths.len() - 1) as nat,
            paths.last(),
        )
    }
}

/// The scripts whose `apply` action the plan asks for.
pub open spec fn applied_scripts(scripts: Seq<DeploymentScript>, apply: Seq<bool>) -> Seq<DeploymentScript>
    decreases scripts.len(),
{
    if scripts.len() == 0 {
        Seq::<DeploymentScript>::empty()
    } else {
        let rest = applied_scripts(scripts.drop_last(), apply);
        if apply[scripts.len() - 1] {
            rest.push(scripts.last())
        } else {
            rest
        }
    }
}

/// The part of the transaction that applies one script.
pub open spec fn script_section(script: DeploymentScript) -> Seq<char> {
    run_prefix(script.privileged) + TX_SCRIPT@ + shell_quoted(
        crate::text::digits(script.timeout_seconds as nat, 10) + "s"@,
    ) + TX_SCRIPT_BODY@ + crate::external::lossy_text(script.contents@) + TX_SCRIPT_END@
}

/// The sections of the applied scripts, in order.
pub open spec fn script_sections(scripts: Seq<DeploymentScript>) -> Seq<char>
    decreases scripts.len(),
{
    if scripts.len() == 0 {
        Seq::<char>::empty()
    } else {
        script_sections(scripts.drop_last()) + script_section(scripts.last())
    }
}

/// The whole transaction: journal setup, the files, the obsolete paths, the
/// scripts, and the state record written last.
pub open spec fn transaction_script(
    digest: Seq<char>,
    files: Seq<DeploymentFile>,
    previous: Seq<ManagedPath>,
    adopt: bool,
    scripts: Seq<DeploymentScript>,
    apply: Seq<bool>,
    state_text: Seq<char>,
    paths_text: Seq<char>,
) -> Seq<char> {
    TX_PRELUDE@ + file_sections(digest, files, previous, adopt) + removal_sections(
        obsolete_paths(previous, files),
    ) + script_sections(applied_scripts(scripts, apply)) + TX_STATE@ + state_text
        + TX_STATE_PATHS@ + paths_text + TX_STATE_END@
}

/// What a file's guard must do, written out: name the target, choose `sudo`
/// for a privileged file, then for a target that the previous deployment
/// managed check that it is still one of our links (taking it over only with
/// `--adopt`); for any other target refuse what is already there with
/// "unmanaged collision" and exit 1, or, with `--adopt`, back it up with a
/// timestamp and carry on.
pub open spec fn guard_expected(target: Seq<char>, privileged: bool, managed: bool, adopt: bool) -> Seq<char> {
    "target="@ + shell_path_expr(target) + "; run=; [ "@ + (if privileged {
        "1"@
    } else {
        "0"@
    }) + " = 1 ] && run='sudo -n --'\n"@ + if managed {
        "if $run test -e \"$target\" || $run test -L \"$target\"; then valid=0; if $run test -L \"$target\"; then link=$($run readlink -- \"$target\"); case \"$link\" in /var/lib/stowaway/store/*|\"$HOME\"/.local/share/stowaway/store/*) valid=1 ;; esac; fi; if [ \"$valid\" = 0 ]; then echo \"managed target was replaced: $target (use --adopt to take it over)\" >&2; [ "@
            + (if adopt {
            "1"@
        } else {
            "0"@
        })
            + " = 1 ] || exit 1; stamp=$(date -u +%Y%m%dT%H%M%SZ); $run cp -a -- \"$target\" \"$target.stowaway-backup-$stamp\"; fi; fi\n"@
    } else if adopt {
        "if $run test -e \"$target\" || $run test -L \"$target\"; then stamp=$(date -u +%Y%m%dT%H%M%SZ); $run cp -a -- \"$target\" \"$target.stowaway-backup-$stamp\"; fi\n"@
    } else {
        "if $run test -e \"$target\" || $run test -L \"$target\"; then echo \"unmanaged collision: $target\" >&2; exit 1; fi\n"@
    }
}

/// Each file's section of the transaction starts with its guard, and the guard
/// follows the rule for existing targets: a target that the previous
/// deployment did not manage is refused (unmanaged collision, exit 1) exactly
/// when `--adopt` is not given, and with `--adopt` it is backed up and taken
/// over; a previously managed target is checked to still be our link.
pub proof fn lemma_transaction_guards_targets(
    digest: Seq<char>,
    files: Seq<DeploymentFile>,
    previous: Seq<ManagedPath>,
    adopt: bool,
    i: int,
)
    requires
        0 <= i < files.len(),
    ensures
        ({
            let sections = file_sections(digest, files, previous, adopt);
            let start = file_sections(digest, files.take(i), previous, adopt).len() as int;
            let guard = guard_expected(
                files[i].target@,
                files[i].privileged,
                managed_before(previous, files[i].target@),
                adopt,
            );
            &&& start + guard.len() <= sections.len()
            &&& sections.subrange(start, start + guard.len()) == guard
        }),
{
    let f = files[i];
    let managed = managed_before(previous, f.target@);
    lemma_sections_hold_guard(digest, files, previous, adopt, i);
    lemma_guard_text(f, managed, adopt);
}

/// The transaction that `apply_transaction` runs holds each file's guard, in
/// file order, right after the journal setup: for a target that the previous
/// deployment did not manage, the collision refusal exactly when `--adopt` is
/// not given, and the backup otherwise.
pub proof fn lemma_transaction_script_guards(
    digest: Seq<char>,
    files: Seq<DeploymentFile>,
    previous: Seq<ManagedPath>,
    adopt: bool,
    scripts: Seq<DeploymentScript>,
    apply: Seq<bool>,
    state_text: Seq<char>,
    paths_text: Seq<char>,
    i: int,
)
    requires
        0 <= i < files.len(),
    ensures
        ({
            let script = transaction_script(digest, files, previous, adopt, scripts, apply, state_text, paths_text);
            let start = (TX_PRELUDE@.len() + file_sections(digest, files.take(i), previous, adopt).len()) as int;
            let guard = guard_expected(
                files[i].target@,
                files[i].privileged,
                managed_before(previous, files[i].target@),
                adopt,
            );
            &&& start + guard.len() <= script.len()
            &&& script.subrange(start, start + guard.len()) == guard
        }),
{
    lemma_transaction_guards_targets(digest, files, previous, adopt, i);
    let pre = TX_PRELUDE@;
    let sections = file_sections(digest, files, previous, adopt);
    let a1 = pre + sections;
    let a2 = a1 + removal_sections(obsolete_paths(previous, files));
    let a3 = a2 + script_sections(applied_scripts(scripts, apply));
    let a4 = a3 + TX_STATE@;
    let a5 = a4 + state_text;
    let a6 = a5 + TX_STATE_PATHS@;
    let a7 = a6 + paths_text;
    let script = transaction_script(digest, files, previous, adopt, scripts, apply, state_text, paths_text);
    assert(script == a7 + TX_STATE_END@);
    let lo = file_sections(digest, files.take(i), previous, adopt).len() as int;
    let guard = guard_expected(
        files[i].target@,
        files[i].privileged,
        managed_before(previous, files[i].target@),
        adopt,
    );
    let p = pre.len() as int;
    let hi = lo + guard.len();
    lemma_subrange_in_prefix(a7, TX_STATE_END@, p + lo, p + hi);
    lemma_subrange_in_prefix(a6, paths_text, p + lo, p + hi);
    lemma_subrange_in_prefix(a5, TX_STATE_PATHS@, p + lo, p + hi);
    lemma_subrange_in_prefix(a4, state_text, p + lo, p + hi);
    lemma_subrange_in_prefix(a3, TX_STATE@, p + lo, p + hi);
    lemma_subrange_in_prefix(a2, script_sections(applied_scripts(scripts, apply)), p + lo, p + hi);
    lemma_subrange_in_prefix(a1, removal_sections(obsolete_paths(previous, files)), p + lo, p + hi);
    assert(a1.subrange(p + lo, p + hi) =~= sections.subrange(lo, hi));
}

#[verifier::spinoff_prover]
#[verifier::rlimit(60)]
proof fn lemma_sections_hold_guard(
    digest: Seq<char>,
    files: Seq<DeploymentFile>,
    previous: Seq<ManagedPath>,
    adopt: bool,
    i: int,
)
    requires
        0 <= i < files.len(),
    ensures
        ({
            let sections = file_sections(digest, files, previous, adopt);
            let start = file_sections(digest, files.take(i), previous, adopt).len() as int;
            let guard = file_guard(files[i], managed_before(previous, files[i].target@), adopt);
            &&& start + guard.len() <= sections.len()
            &&& sections.subrange(start, start + guard.len()) == guard
        }),
    decreases files.len(),
{
    let f = files[i];
    let managed = managed_before(previous, f.target@);
    let g = file_guard(f, managed, adopt);
    let start = file_sections(digest, files.take(i), previous, adopt).len() as int;
    if i == files.len() - 1 {
        assert(files.drop_last() =~= files.take(i));
        let head = file_sections(digest, files.take(i), previous, adopt);
        let sec = file_section(digest, i as nat, f, managed, adopt);
        assert(file_sections(digest, files, previous, adopt) == head + sec);
        let rest = file_journal(i as nat, f.privileged) + file_link(digest, i as nat, f.privileged);
        assert(sec =~= g + rest);
        lemma_subrange_of_concat(head, g, rest);
    } else {
        lemma_sections_hold_guard(digest, files.drop_last(), previous, adopt, i);
        assert(files.drop_last().take(i) =~= files.take(i));
        assert(files.drop_last()[i] == f);
        let head = file_sections(digest, files.drop_last(), previous, adopt);
        let last = file_section(
            digest,
            (files.len() - 1) as nat,
            files.last(),
            managed_before(previous, files.last().target@),
            adopt,
        );
        assert(file_sections(digest, files, previous, adopt) == head + last);
        lemma_subrange_in_prefix(head, last, start, start + g.len());
    }
}

proof fn lemma_subrange_of_concat(head: Seq<char>, g: Seq<char>, rest: Seq<char>)
    ensures
        (head + (g + rest)).subrange(head.len() as int, (head.len() + g.len()) as int) == g,
{
    assert((head + (g + rest)).subrange(head.len() as int, (head.len() + g.len()) as int) =~= g);
}

proof fn lemma_subrange_in_prefix(a: Seq<char>, b: Seq<char>, lo: int, hi: int)
    requires
        0 <= lo <= hi <= a.len(),
    ensures
        (a + b).subrange(lo, hi) == a.subrange(lo, hi),
{
    assert((a + b).subrange(lo, hi) =~= a.subrange(lo, hi));
}

proof fn lemma_guard_text(file: DeploymentFile, managed: bool, adopt: bool)
    ensures
        file_guard(file, managed, adopt) == guard_expected(file.target@, file.privileged, managed, adopt),
{
    reveal_strlit("target=");
    reveal_strlit("; run=; [ ");
    reveal_strlit(" = 1 ] && run='sudo -n --'\n");
    reveal_strlit("1");
    reveal_strlit("0");
    reveal_strlit("if $run test -e \"$target\" || $run test -L \"$target\"; then valid=0; if $run test -L \"$target\"; then link=$($run readlink -- \"$target\"); case \"$link\" in /var/lib/stowaway/store/*|\"$HOME\"/.local/share/stowaway/store/*) valid=1 ;; esac; fi; if [ \"$valid\" = 0 ]; then echo \"managed target was replaced: $target (use --adopt to take it over)\" >&2; [ ");
    reveal_strlit(" = 1 ] || exit 1; stamp=$(date -u +%Y%m%dT%H%M%SZ); $run cp -a -- \"$target\" \"$target.stowaway-backup-$stamp\"; fi; fi\n");
    reveal_strlit("if $run test -e \"$target\" || $run test -L \"$target\"; then stamp=$(date -u +%Y%m%dT%H%M%SZ); $run cp -a -- \"$target\" \"$target.stowaway-backup-$stamp\"; fi\n");
    reveal_strlit("if $run test -e \"$target\" || $run test -L \"$target\"; then echo \"unmanaged collision: $target\" >&2; exit 1; fi\n");
    assert(file_guard(file, managed, adopt) =~= guard_expected(file.target@, file.privileged, managed, adopt));
}

/// The stage command's `chmod` sets the file's own mode: for every mode below
/// `0o10000`, privileged or not, the command ends with `chmod`, a four-digit
/// octal word denoting exactly `mode`, and the staged path.
pub proof fn lemma_stage_command_mode(digest: Seq<char>, index: nat, mode: u32, privileged: bool)
    requires
        mode < 0o10000u32,
    ensures
        ({
            let text = stage_command_text(digest, index, mode, privileged);
            let tail = " -- "@ + shell_path_expr(staged_path(digest, index, privileged));
            let n = text.len() as int;
            let t = tail.len() as int;
            let word = text.subrange(n - t - 4, n - t);
            &&& n >= t + 4 + 6
            &&& text.subrange(n - t, n) == tail
            &&& text.subrange(n - t - 10, n - t - 4) == "chmod "@
            &&& forall|k: int| 0 <= k < 4 ==> crate::config::is_octal_digit(#[trigger] word[k])
            &&& crate::config::octal_value(word) == mode
        }),
{
    reveal_strlit("chmod ");
    let d = crate::text::digits(mode as nat, 8);
    crate::config::lemma_octal_digits(mode as nat);
    crate::text::lemma_digits_len_octal(mode as nat);
    assert(d.len() <= 4);
    let zeros = Seq::new((4 - d.len()) as nat, |k: int| '0');
    let word = crate::text::zero_padded(d, 4);
    assert(word == zeros + d);
    crate::config::lemma_octal_leading_zeros(zeros, d);
    assert(word.len() == 4);
    let text = stage_command_text(digest, index, mode, privileged);
    let tail = " -- "@ + shell_path_expr(staged_path(digest, index, privileged));
    let prefix = if privileged {
        "sudo -n -- "@
    } else {
        ""@
    };
    let expanded = shell_path_expr(staged_path(digest, index, privileged));
    let front = "set -eu; "@ + prefix + "mkdir -p -- "@ + shell_path_expr(staged_dir(digest, privileged))
        + "; "@ + prefix + "tee -- "@ + expanded + " >/dev/null; "@ + prefix;
    assert(text =~= front + "chmod "@ + word + tail);
    let n = text.len() as int;
    let t = tail.len() as int;
    assert(text.subrange(n - t, n) =~= tail);
    assert(text.subrange(n - t - 4, n - t) =~= word);
    assert(text.subrange(n - t - 10, n - t - 4) =~= "chmod "@);
    assert forall|k: int| 0 <= k < 4 implies crate::config::is_octal_digit(#[trigger] word[k]) by {
        if k >= zeros.len() {
            assert(word[k] == d[k - zeros.len()]);
        }
    }
}

fn is_managed(previous: &[ManagedPath], target: &String) -> (r: bool)
    ensures
        r == managed_before(previous@, target@),
{
    let mut k: usize = 0;
    while k < previous.len()
        invariant
            k <= previous@.len(),
            forall|j: int| 0 <= j < k ==> (#[trigger] previous@[j]).path@ != target@,
        decreases previous@.len() - k,
    {
        if previous[k].path == *target {
            assert(previous@[k as int].path@ == target@);
            return true;
        }
        k = k + 1;
    }
    false
}

fn is_declared(files: &[DeploymentFile], path: &String) -> (r: bool)
    ensures
        r == still_declared(files@, path@),
{
    let mut k: usize = 0;
    while k < files.len()
        invariant
            k <= files@.len(),
            forall|j: int| 0 <= j < k ==> (#[trigger] files@[j]).target@ != path@,
        decreases files@.len() - k,
    {
        if files[k].target == *path {
            assert(files@[k as int].target@ == path@);
            return true;
        }
        k = k + 1;
    }
    false
}

fn push_flag(out: &mut String, b: bool)
    ensures
        final(out)@ == old(out)@ + flag_text(b),
{
    if b {
        append_str(out, "1");
    } else {
        append_str(out, "0");
    }
}

fn push_run(out: &mut String, privileged: bool)
    ensures
        final(out)@ == old(out)@ + run_prefix(privileged),
{
    if privileged {
        append_str(out, "sudo -n -- ");
    } else {
        append_str(out, "");
    }
}

fn push_file_guard(out: &mut String, file: &DeploymentFile, managed: bool, adopt: bool)
    ensures
        final(out)@ == old(out)@ + file_guard(*file, managed, adopt),
{
    let ghost start = out@;
    append_str(out, TX_TARGET);
    let target = shell_path(file.target.as_str());
    append_str(out, target.as_str());
    append_str(out, TX_RUN);
    push_flag(out, file.privileged);
    append_str(out, TX_RUN_END);
    let ghost mid = out@;
    if managed {
        append_str(out, TX_MANAGED);
        push_flag(out, adopt);
        append_str(out, TX_MANAGED_END);
    } else if !adopt {
        append_str(out, TX_COLLISION);
    } else {
        append_str(out, TX_ADOPT);
    }
    assert(out@ =~= start + file_guard(*file, managed, adopt));
}

fn push_file_journal(out: &mut String, index: usize, privileged: bool)
    ensures
        final(out)@ == old(out)@ + file_journal(index as nat, privileged),
{
    let ghost start = out@;
    append_str(out, TX_JOURNAL);
    crate::text::push_decimal(out, index as u64);
    append_str(out, TX_JOURNAL_PRESENT);
    push_flag(out, privileged);
    append_str(out, TX_JOURNAL_MISSING);
    push_flag(out, privileged);
    append_str(out, TX_JOURNAL_END);
    assert(out@ =~= start + file_journal(index as nat, privileged));
}

fn push_file_link(out: &mut String, digest: &str, index: usize, privileged: bool)
    ensures
        final(out)@ == old(out)@ + file_link(digest@, index as nat, privileged),
{
    let ghost start = out@;
    append_str(out, TX_LINK);
    if privileged {
        let mut store = String::new();
        append_str(&mut store, "/var/lib/stowaway/store/");
        append_str(&mut store, digest);
        append_str(&mut store, "/");
        crate::text::push_decimal(&mut store, index as u64);
        let quoted = shell_quote(store.as_str());
        append_str(out, quoted.as_str());
    } else {
        append_str(out, "\"$HOME/.local/share/stowaway/store/");
        append_str(out, digest);
        append_str(out, "/");
        crate::text::push_decimal(out, index as u64);
        append_str(out, "\"");
    }
    append_str(out, TX_LINK_END);
    assert(out@ =~= start + file_link(digest@, index as nat, privileged));
}

fn push_file_section(
    out: &mut String,
    digest: &str,
    index: usize,
    file: &DeploymentFile,
    managed: bool,
    adopt: bool,
)
    ensures
        final(out)@ == old(out)@ + file_section(digest@, index as nat, *file, managed, adopt),
{
    let ghost start = out@;
    push_file_guard(out, file, managed, adopt);
    push_file_journal(out, index, file.privileged);
    push_file_link(out, digest, index, file.privileged);
    assert(out@ =~= start + file_section(digest@, index as nat, *file, managed, adopt));
}

fn push_file_sections(out: &mut String, digest: &str, files: &[DeploymentFile], previous: &[ManagedPath], adopt: bool)
    ensures
        final(out)@ == old(out)@ + file_sections(digest@, files@, previous@, adopt),
{
    let ghost start = out@;
    let mut i: usize = 0;
    proof {
        assert(files@.take(0) =~= Seq::<DeploymentFile>::empty());
        assert(out@ =~= start + file_sections(digest@, files@.take(0), previous@, adopt));
    }
    while i < files.len()
        invariant
            i <= files@.len(),
            out@ == start + file_sections(digest@, files@.take(i as int), previous@, adopt),
        decreases files@.len() - i,
    {
        let file = &files[i];
        let managed = is_managed(previous, &file.target);
        push_file_section(out, digest, i, file, managed, adopt);
        proof {
            assert(files@.take(i + 1).drop_last() =~= files@.take(i as int));
            assert(files@.take(i + 1).last() == *file);
            assert(out@ =~= start + file_sections(digest@, files@.take(i + 1), previous@, adopt));
        }
        i = i + 1;
    }
    proof {
        assert(files@.take(files@.len() as int) =~= files@);
    }
}

fn push_removal_sections(out: &mut String, files: &[DeploymentFile], previous: &[ManagedPath])
    ensures
        final(out)@ == old(out)@ + removal_sections(obsolete_paths(previous@, files@)),
{
    let ghost start = out@;
    let mut k: usize = 0;
    let mut removed: usize = 0;
    proof {
        assert(previous@.take(0) =~= Seq::<ManagedPath>::empty());
        assert(out@ =~= start + removal_sections(obsolete_paths(previous@.take(0), files@)));
    }
    while k < previous.len()
        invariant
            k <= previous@.len(),
            removed == obsolete_paths(previous@.take(k as int), files@).len(),
            removed <= k,
            out@ == start + removal_sections(obsolete_paths(previous@.take(k as int), files@)),
        decreases previous@.len() - k,
    {
        let path = &previous[k];
        let ghost before = obsolete_paths(previous@.take(k as int), files@);
        proof {
            assert(previous@.take(k + 1).drop_last() =~= previous@.take(k as int));
            assert(previous@.take(k + 1).last() == *path);
        }
        if !is_declared(files, &path.path) {
            push_removal_section(out, removed, path);
            removed = removed + 1;
            proof {
                assert(obsolete_paths(previous@.take(k + 1), files@) == before.push(*path));
                assert(before.push(*path).drop_last() =~= before);
                assert(out@ =~= start + removal_sections(obsolete_paths(previous@.take(k + 1), files@)));
            }
        } else {
            proof {
                assert(obsolete_paths(previous@.take(k + 1), files@) == before);
            }
        }
        k = k + 1;
    }
    proof {
        assert(previous@.take(previous@.len() as int) =~= previous@);
    }
}

fn push_script_sections(out: &mut String, scripts: &[DeploymentScript], apply: &[bool])
    requires
        scripts@.len() == apply@.len(),
    ensures
        final(out)@ == old(out)@ + script_sections(applied_scripts(scripts@, apply@)),
{
    let ghost start = out@;
    let mut s: usize = 0;
    proof {
        assert(scripts@.take(0) =~= Seq::<DeploymentScript>::empty());
        assert(out@ =~= start + script_sections(applied_scripts(scripts@.take(0), apply@)));
    }
    while s < scripts.len()
        invariant
            s <= scripts@.len(),
            scripts@.len() == apply@.len(),
            out@ == start + script_sections(applied_scripts(scripts@.take(s as int), apply@)),
        decreases scripts@.len() - s,
    {
        let ghost before = applied_scripts(scripts@.take(s as int), apply@);
        proof {
            assert(scripts@.take(s + 1).drop_last() =~= scripts@.take(s as int));
            assert(scripts@.take(s + 1).last() == scripts@[s as int]);
        }
        if apply[s] {
            push_script_section(out, &scripts[s]);
            proof {
                assert(applied_scripts(scripts@.take(s + 1), apply@) == before.push(scripts@[s as int]));
                assert(before.push(scripts@[s as int]).drop_last() =~= before);
                assert(out@ =~= start + script_sections(applied_scripts(scripts@.take(s + 1), apply@)));
            }
        } else {
            proof {
                assert(applied_scripts(scripts@.take(s + 1), apply@) == before);
            }
        }
        s = s + 1;
    }
    proof {
        assert(scripts@.take(scripts@.len() as int) =~= scripts@);
    }
}

fn push_removal_section(out: &mut String, index: usize, path: &ManagedPath)
    ensures
        final(out)@ == old(out)@ + removal_section(index as nat, *path),
{
    let ghost start = out@;
    append_str(out, TX_TARGET);
    let target = shell_path(path.path.as_str());
    append_str(out, target.as_str());
    append_str(out, TX_OBSOLETE);
    push_run(out, path.privileged);
    append_str(out, TX_OBSOLETE_LINK);
    push_run(out, path.privileged);
    append_str(out, TX_OBSOLETE_CASE);
    crate::text::push_decimal(out, index as u64);
    append_str(out, TX_OBSOLETE_COPY);
    push_run(out, path.privileged);
    append_str(out, TX_OBSOLETE_JOURNAL);
    push_flag(out, path.privileged);
    append_str(out, TX_OBSOLETE_REMOVE);
    push_run(out, path.privileged);
    append_str(out, TX_OBSOLETE_END);
    assert(out@ =~= start + removal_section(index as nat, *path));
}

fn push_script_section(out: &mut String, script: &DeploymentScript)
    ensures
        final(out)@ == old(out)@ + script_section(*script),
{
    let ghost start = out@;
    push_run(out, script.privileged);
    append_str(out, TX_SCRIPT);
    let mut timeout = String::new();
    crate::text::push_decimal(&mut timeout, script.timeout_seconds);
    append_str(&mut timeout, "s");
    let quoted = shell_quote(timeout.as_str());
    append_str(out, quoted.as_str());
    append_str(out, TX_SCRIPT_BODY);
    let body = crate::external::lossy_utf8(script.contents.as_slice());
    append_str(out, body.as_str());
    append_str(out, TX_SCRIPT_END);
    assert(out@ =~= start + script_section(*script));
}

impl<'a> Remote<'a> {
    /// The command that runs the whole deployment transaction on the host.
    /// `state_text` and `paths_text` are the state record's TOML: the header
    /// fields (version, machine, commit, digest) and the managed paths. The plan
    /// must say for each script whether to apply it.
    pub fn apply_transaction(&self, request: ApplyRequest<'_>, state_text: &str, paths_text: &str) -> (r:
        Result<String, RemoteError>)
        ensures
            r is Err <==> request.scripts@.len() != request.script_apply@.len(),
            r matches Err(e) ==> e is ScriptPlanMismatch,
            r matches Ok(command) ==> command@ == "bash -c "@ + shell_quoted(
                transaction_script(
                    request.digest@,
                    request.files@,
                    request.previous@,
                    request.adopt,
                    request.scripts@,
                    request.script_apply@,
                    state_text@,
                    paths_text@,
                ),
            ),
    {
        let mut script = String::new();
        append_str(&mut script, TX_PRELUDE);
        push_file_sections(&mut script, request.digest, request.files, request.previous, request.adopt);
        push_removal_sections(&mut script, request.files, request.previous);
        if request.scripts.len() != request.script_apply.len() {
            return Err(RemoteError::ScriptPlanMismatch);
        }
        push_script_sections(&mut script, request.scripts, request.script_apply);
        let ghost body = script@;
        append_str(&mut script, TX_STATE);
        append_str(&mut script, state_text);
        append_str(&mut script, TX_STATE_PATHS);
        append_str(&mut script, paths_text);
        append_str(&mut script, TX_STATE_END);
        let mut command = String::new();
        append_str(&mut command, "bash -c ");
        let quoted = shell_quote(script.as_str());
        append_str(&mut command, quoted.as_str());
        proof {
            assert(script@ =~= transaction_script(
                request.digest@,
                request.files@,
                request.previous@,
                request.adopt,
                request.scripts@,
                request.script_apply@,
                state_text@,
                paths_text@,
            ));
        }
        Ok(command)
    }
}

} // verus!
