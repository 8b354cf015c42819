//! The per-machine manifest (`machine.toml`) and the rules that make it valid.
use vstd::prelude::*;

use crate::paths::{components, has_unsafe_component, path_components, same_components, unsafe_component, views};
use crate::text::{blank, chars_eq, chars_of, chars_start_with, has_prefix, is_blank};

verus! {

/// A machine's manifest, as read from its `machine.toml`.
#[derive(Debug)]
pub struct MachineConfig {
    pub version: u32,
    pub ssh: SshConfig,
    pub trees: Vec<TreeConfig>,
    pub metadata: Vec<FileMetadata>,
    pub scripts: Vec<ScriptConfig>,
    pub udev_rules: Vec<UdevRuleConfig>,
}

/// How the machine is reached over SSH.
#[derive(Debug)]
pub struct SshConfig {
    /// An OpenSSH host or alias.
    pub destination: String,
}

/// A directory of the machine's configuration mirrored onto a remote target.
#[derive(Debug)]
pub struct TreeConfig {
    pub source: String,
    pub target: String,
    pub privileged: bool,
}

/// An explicit file mode for one managed file.
#[derive(Debug)]
pub struct FileMetadata {
    pub source: String,
    pub mode: String,
}

/// A script run with `check` or `apply` as its first argument.
#[derive(Debug)]
pub struct ScriptConfig {
    pub path: String,
    pub privileged: bool,
    pub timeout_seconds: u64,
}

/// A udev rule installed under `/etc/udev/rules.d`.
#[derive(Debug)]
pub struct UdevRuleConfig {
    pub source: String,
    pub name: String,
}

/// The timeout that a script gets when its entry names none, in seconds.
pub fn default_timeout() -> (t: u64)
    ensures
        t == 1800,
{
    1_800
}

/// Why a manifest was refused.
#[derive(Debug)]
pub enum ConfigError {
    UnsupportedVersion(u32),
    EmptyDestination,
    NoTrees,
    EmptyPath { label: String },
    AbsolutePath { label: String, path: String },
    UnsafePath { label: String, path: String },
    DuplicateTreeSource(String),
    PrivilegedTargetNotAbsolute(String),
    UnprivilegedTargetOutsideHome(String),
    InvalidTargetCharacter,
    UnsafeTargetComponent(String),
    TargetTrailingSlash(String),
    DuplicateMetadata(String),
    ModeFormat(String),
    InvalidMode(String),
    DuplicateScript(String),
    ZeroTimeout,
}

/// [`ConfigError`] with its texts as character sequences.
pub enum ConfigFault {
    UnsupportedVersion(u32),
    EmptyDestination,
    NoTrees,
    EmptyPath { label: Seq<char> },
    AbsolutePath { label: Seq<char>, path: Seq<char> },
    UnsafePath { label: Seq<char>, path: Seq<char> },
    DuplicateTreeSource(Seq<char>),
    PrivilegedTargetNotAbsolute(Seq<char>),
    UnprivilegedTargetOutsideHome(Seq<char>),
    InvalidTargetCharacter,
    UnsafeTargetComponent(Seq<char>),
    TargetTrailingSlash(Seq<char>),
    DuplicateMetadata(Seq<char>),
    ModeFormat(Seq<char>),
    InvalidMode(Seq<char>),
    DuplicateScript(Seq<char>),
    ZeroTimeout,
}

impl View for ConfigError {
    type V = ConfigFault;

    open spec fn view(&self) -> ConfigFault {
        match self {
            ConfigError::UnsupportedVersion(v) => ConfigFault::UnsupportedVersion(*v),
            ConfigError::EmptyDestination => ConfigFault::EmptyDestination,
            ConfigError::NoTrees => ConfigFault::NoTrees,
            ConfigError::EmptyPath { label } => ConfigFault::EmptyPath { label: label@ },
            ConfigError::AbsolutePath { label, path } => ConfigFault::AbsolutePath {
                label: label@,
                path: path@,
            },
            ConfigError::UnsafePath { label, path } => ConfigFault::UnsafePath {
                label: label@,
                path: path@,
            },
            ConfigError::DuplicateTreeSource(p) => ConfigFault::DuplicateTreeSource(p@),
            ConfigError::PrivilegedTargetNotAbsolute(t) => ConfigFault::PrivilegedTargetNotAbsolute(
                t@,
            ),
            ConfigError::UnprivilegedTargetOutsideHome(t) =>
                ConfigFault::UnprivilegedTargetOutsideHome(t@),
            ConfigError::InvalidTargetCharacter => ConfigFault::InvalidTargetCharacter,
            ConfigError::UnsafeTargetComponent(t) => ConfigFault::UnsafeTargetComponent(t@),
            ConfigError::TargetTrailingSlash(t) => ConfigFault::TargetTrailingSlash(t@),
            ConfigError::DuplicateMetadata(p) => ConfigFault::DuplicateMetadata(p@),
            ConfigError::ModeFormat(m) => ConfigFault::ModeFormat(m@),
            ConfigError::InvalidMode(m) => ConfigFault::InvalidMode(m@),
            ConfigError::DuplicateScript(p) => ConfigFault::DuplicateScript(p@),
            ConfigError::ZeroTimeout => ConfigFault::ZeroTimeout,
        }
    }
}

// ---------------------------------------------------------------------------
// Relative paths
// ---------------------------------------------------------------------------
/// What is wrong with `path` as a path relative to the machine directory, if anything.
pub open spec fn relative_fault(path: Seq<char>, label: Seq<char>) -> Option<ConfigFault> {
    if path.len() == 0 {
        Some(ConfigFault::EmptyPath { label })
    } else if path[0] == '/' {
        Some(ConfigFault::AbsolutePath { label, path })
    } else if has_unsafe_component(path) {
        Some(ConfigFault::UnsafePath { label, path })
    } else {
        None
    }
}

/// Accepts a non-empty relative path whose components are all plain names.
pub fn validate_relative(path: &str, label: &str) -> (r: Result<(), ConfigError>)
    ensures
        r is Ok <==> relative_fault(path@, label@) is None,
        r matches Err(e) ==> relative_fault(path@, label@) == Some(e@),
{
    let chars = chars_of(path);
    if chars.len() == 0 {
        return Err(ConfigError::EmptyPath { label: label.to_owned() });
    }
    if chars[0] == '/' {
        return Err(ConfigError::AbsolutePath { label: label.to_owned(), path: path.to_owned() });
    }
    if unsafe_component(chars.as_slice()) {
        return Err(ConfigError::UnsafePath { label: label.to_owned(), path: path.to_owned() });
    }
    Ok(())
}

// ---------------------------------------------------------------------------
// Remote targets
// ---------------------------------------------------------------------------
/// Whether `s` holds a newline, carriage return, tab or NUL.
pub open spec fn has_control_char(s: Seq<char>) -> bool {
    exists|i: int|
        0 <= i < s.len() && (s[i] == '\n' || s[i] == '\r' || s[i] == '\t' || s[i] == '\0')
}

/// The part of a target below the home directory when it starts with `~/`,
/// else the whole target.
pub open spec fn target_path(target: Seq<char>) -> Seq<char> {
    if has_prefix(target, seq!['~', '/']) {
        target.subrange(2, target.len() as int)
    } else {
        target
    }
}

/// What is wrong with `target` as a remote target, if anything.
pub open spec fn target_fault(target: Seq<char>) -> Option<ConfigFault> {
    if has_control_char(target) {
        Some(ConfigFault::InvalidTargetCharacter)
    } else if target == seq!['~'] {
        None
    } else if has_unsafe_component(target_path(target)) {
        Some(ConfigFault::UnsafeTargetComponent(target))
    } else if target.len() > 0 && target.last() == '/' && target != seq!['/'] {
        Some(ConfigFault::TargetTrailingSlash(target))
    } else {
        None
    }
}

/// Accepts `~`, a path below `~/`, or a path made of the root and plain names,
/// without control characters and without a trailing slash (but for `/` itself).
pub fn validate_remote_target(target: &str) -> (r: Result<(), ConfigError>)
    ensures
        r is Ok <==> target_fault(target@) is None,
        r matches Err(e) ==> target_fault(target@) == Some(e@),
{
    let chars = chars_of(target);
    let n = chars.len();
    let mut i: usize = 0;
    while i < n
        invariant
            n == chars@.len(),
            chars@ == target@,
            i <= n,
            forall|k: int|
                0 <= k < i ==> !(chars@[k] == '\n' || chars@[k] == '\r' || chars@[k] == '\t'
                    || chars@[k] == '\0'),
        decreases n - i,
    {
        let c = chars[i];
        if c == '\n' || c == '\r' || c == '\t' || c == '\0' {
            return Err(ConfigError::InvalidTargetCharacter);
        }
        i = i + 1;
    }
    assert(!has_control_char(target@));
    if chars_eq(chars.as_slice(), &['~']) {
        return Ok(());
    }
    let unsafe_path = if chars_start_with(chars.as_slice(), &['~', '/']) {
        let rest = vstd::slice::slice_subrange(chars.as_slice(), 2, n);
        unsafe_component(rest)
    } else {
        unsafe_component(chars.as_slice())
    };
    if unsafe_path {
        return Err(ConfigError::UnsafeTargetComponent(target.to_owned()));
    }
    if n > 0 && chars[n - 1] == '/' && !(n == 1) {
        return Err(ConfigError::TargetTrailingSlash(target.to_owned()));
    }
    proof {
        if n == 1 && target@.last() == '/' {
            assert(target@ =~= seq!['/']);
        }
        assert(!has_unsafe_component(target_path(target@)));
    }
    Ok(())
}

} // verus!

verus! {

// ---------------------------------------------------------------------------
// File modes
// ---------------------------------------------------------------------------
/// Whether `c` is one of the digits `0` to `7`.
pub open spec fn is_octal_digit(c: char) -> bool {
    '0' <= c && c <= '7'
}

/// The number that a string of octal digits denotes.
pub open spec fn octal_value(digits: Seq<char>) -> nat
    decreases digits.len(),
{
    if digits.len() == 0 {
        0
    } else {
        octal_value(digits.drop_last()) * 8 + ((digits.last() as int) - ('0' as int)) as nat
    }
}

pub(crate) proof fn lemma_digit_value(d: nat)
    requires
        d < 8,
    ensures
        (crate::text::digit_char(d) as int) - ('0' as int) == d,
        is_octal_digit(crate::text::digit_char(d)),
{
    if d == 0 {
    } else if d == 1 {
    } else if d == 2 {
    } else if d == 3 {
    } else if d == 4 {
    } else if d == 5 {
    } else if d == 6 {
    } else {
        assert(d == 7);
    }
}

pub(crate) proof fn lemma_octal_digits(n: nat)
    ensures
        crate::text::digits(n, 8).len() > 0,
        forall|i: int|
            0 <= i < crate::text::digits(n, 8).len() ==> is_octal_digit(
                #[trigger] crate::text::digits(n, 8)[i],
            ),
        octal_value(crate::text::digits(n, 8)) == n,
    decreases n,
{
    let d = crate::text::digits(n, 8);
    if n < 8 {
        assert(d == seq![crate::text::digit_char(n)]);
        assert(d.drop_last() =~= Seq::<char>::empty());
        lemma_digit_value(n);
        assert(octal_value(d) == octal_value(d.drop_last()) * 8 + ((d.last() as int) - ('0' as int)) as nat);
    } else {
        lemma_octal_digits(n / 8);
        let high = crate::text::digits(n / 8, 8);
        let low = crate::text::digit_char(n % 8);
        assert(d == high.push(low));
        assert(d.drop_last() =~= high);
        let r = n % 8;
        lemma_digit_value(r);
        assert(n == (n / 8) * 8 + r);
        assert(octal_value(d) == octal_value(high) * 8 + ((low as int) - ('0' as int)) as nat);
        assert forall|i: int| 0 <= i < d.len() implies is_octal_digit(#[trigger] d[i]) by {
            if i < high.len() {
                assert(d[i] == high[i]);
            }
        }
    }
}

/// Leading zeros do not change the number that octal digits denote.
pub(crate) proof fn lemma_octal_leading_zeros(zeros: Seq<char>, d: Seq<char>)
    requires
        forall|i: int| 0 <= i < zeros.len() ==> zeros[i] == '0',
    ensures
        octal_value(zeros + d) == octal_value(d),
    decreases d.len(),
{
    if d.len() == 0 {
        assert(zeros + d =~= zeros);
        lemma_octal_zeros(zeros);
    } else {
        lemma_octal_leading_zeros(zeros, d.drop_last());
        assert((zeros + d).drop_last() =~= zeros + d.drop_last());
        assert((zeros + d).last() == d.last());
    }
}

proof fn lemma_octal_zeros(zeros: Seq<char>)
    requires
        forall|i: int| 0 <= i < zeros.len() ==> zeros[i] == '0',
    ensures
        octal_value(zeros) == 0,
    decreases zeros.len(),
{
    if zeros.len() > 0 {
        lemma_octal_zeros(zeros.drop_last());
    }
}

/// Text of characters below `0x80` takes one byte per character.
pub(crate) proof fn lemma_utf8_len_ascii(s: Seq<char>)
    requires
        forall|i: int| 0 <= i < s.len() ==> s[i] <= '\u{7f}',
    ensures
        utf8_len(s) == s.len(),
    decreases s.len(),
{
    if s.len() > 0 {
        lemma_utf8_len_ascii(s.drop_last());
    }
}

/// How many bytes the UTF-8 encoding of `c` takes.
pub open spec fn utf8_width(c: char) -> nat {
    if c <= '\u{7f}' {
        1
    } else if c <= '\u{7ff}' {
        2
    } else if c <= '\u{ffff}' {
        3
    } else {
        4
    }
}

/// How many bytes the UTF-8 encoding of `s` takes (what `str::len` reports).
pub open spec fn utf8_len(s: Seq<char>) -> nat
    decreases s.len(),
{
    if s.len() == 0 {
        0
    } else {
        utf8_len(s.drop_last()) + utf8_width(s.last())
    }
}

/// The UTF-8 length of `s`, or `None` when it exceeds `limit`.
fn utf8_len_up_to(s: &[char], limit: usize) -> (r: Option<usize>)
    ensures
        r matches Some(n) ==> n == utf8_len(s@) && n <= limit,
        r is None ==> utf8_len(s@) > limit,
{
    let mut total: usize = 0;
    let mut i: usize = 0;
    while i < s.len()
        invariant
            i <= s@.len(),
            total == utf8_len(s@.take(i as int)),
            total <= limit,
        decreases s@.len() - i,
    {
        let c = s[i];
        let w: usize = if c <= '\u{7f}' {
            1
        } else if c <= '\u{7ff}' {
            2
        } else if c <= '\u{ffff}' {
            3
        } else {
            4
        };
        assert(s@.take(i + 1).drop_last() =~= s@.take(i as int));
        if w > limit || total > limit - w {
            proof {
                lemma_utf8_len_prefix(s@, i + 1);
            }
            return None;
        }
        total = total + w;
        i = i + 1;
    }
    assert(s@.take(s@.len() as int) =~= s@);
    Some(total)
}

proof fn lemma_utf8_len_prefix(s: Seq<char>, k: int)
    requires
        0 <= k <= s.len(),
    ensures
        utf8_len(s.take(k)) <= utf8_len(s),
    decreases s.len() - k,
{
    if k < s.len() {
        lemma_utf8_len_prefix(s, k + 1);
        assert(s.take(k + 1).drop_last() =~= s.take(k));
    } else {
        assert(s.take(k) =~= s);
    }
}

/// What is wrong with `mode` as a file mode, if anything: it must be four
/// bytes long, start with `0`, and consist of octal digits.
pub open spec fn mode_fault(mode: Seq<char>) -> Option<ConfigFault> {
    if !(utf8_len(mode) == 4 && mode.len() > 0 && mode[0] == '0') {
        Some(ConfigFault::ModeFormat(mode))
    } else if !(mode.len() == 4 && forall|i: int| 0 <= i < mode.len() ==> is_octal_digit(#[trigger] mode[i])) {
        Some(ConfigFault::InvalidMode(mode))
    } else {
        None
    }
}

/// Reads a file mode written as four octal digits with a leading zero, such as `0644`.
pub fn parse_mode(mode: &str) -> (r: Result<u32, ConfigError>)
    ensures
        r is Ok <==> mode_fault(mode@) is None,
        r matches Ok(v) ==> v == octal_value(mode@),
        r matches Err(e) ==> mode_fault(mode@) == Some(e@),
{
    let chars = chars_of(mode);
    let four_bytes = match utf8_len_up_to(chars.as_slice(), 4) {
        Some(n) => n == 4,
        None => false,
    };
    if !(four_bytes && chars.len() > 0 && chars[0] == '0') {
        return Err(ConfigError::ModeFormat(mode.to_owned()));
    }
    if chars.len() != 4 {
        return Err(ConfigError::InvalidMode(mode.to_owned()));
    }
    let mut value: u32 = 0;
    let mut i: usize = 0;
    while i < 4
        invariant
            chars@ == mode@,
            chars@.len() == 4,
            utf8_len(mode@) == 4,
            mode@[0] == '0',
            i <= 4,
            value == octal_value(chars@.take(i as int)),
            value < if i == 0 {
                1u32
            } else if i == 1 {
                8u32
            } else if i == 2 {
                64u32
            } else if i == 3 {
                512u32
            } else {
                4096u32
            },
            forall|k: int| 0 <= k < i ==> is_octal_digit(#[trigger] chars@[k]),
        decreases 4 - i,
    {
        let c = chars[i];
        if !('0' <= c && c <= '7') {
            assert(!is_octal_digit(mode@[i as int]));
            return Err(ConfigError::InvalidMode(mode.to_owned()));
        }
        proof {
            assert(chars@.take(i + 1).drop_last() =~= chars@.take(i as int));
        }
        value = value * 8 + (c as u32 - '0' as u32);
        i = i + 1;
    }
    assert(chars@.take(4) =~= chars@);
    Ok(value)
}

// ---------------------------------------------------------------------------
// The whole manifest
// ---------------------------------------------------------------------------
/// What is wrong with the tree at `i`, given that those before it are fine.
pub open spec fn tree_fault(c: MachineConfig, i: int) -> Option<ConfigFault> {
    let tree = c.trees@[i];
    let source = tree.source@;
    let target = tree.target@;
    if relative_fault(source, "tree source"@) is Some {
        relative_fault(source, "tree source"@)
    } else if exists|j: int| 0 <= j < i && components(#[trigger] c.trees@[j].source@) == components(source) {
        Some(ConfigFault::DuplicateTreeSource(source))
    } else if tree.privileged && !(target.len() > 0 && target[0] == '/') {
        Some(ConfigFault::PrivilegedTargetNotAbsolute(target))
    } else if !tree.privileged && !(target == seq!['~'] || has_prefix(target, seq!['~', '/'])) {
        Some(ConfigFault::UnprivilegedTargetOutsideHome(target))
    } else {
        target_fault(target)
    }
}

/// The first fault among `fault(0)`, ..., `fault(n - 1)`.
pub open spec fn first_fault(fault: spec_fn(int) -> Option<ConfigFault>, n: int) -> Option<ConfigFault>
    decreases n,
{
    if n <= 0 {
        None
    } else if first_fault(fault, n - 1) is Some {
        first_fault(fault, n - 1)
    } else {
        fault(n - 1)
    }
}

/// Once a fault is found among the first `m` entries, it stays the first fault.
pub proof fn lemma_first_fault_stays(fault: spec_fn(int) -> Option<ConfigFault>, m: int, n: int)
    requires
        m <= n,
        first_fault(fault, m) is Some,
    ensures
        first_fault(fault, n) == first_fault(fault, m),
    decreases n - m,
{
    if m < n {
        lemma_first_fault_stays(fault, m, n - 1);
    }
}

/// `tree_fault` of each index.
pub open spec fn tree_faults(c: MachineConfig) -> spec_fn(int) -> Option<ConfigFault> {
    |i: int| tree_fault(c, i)
}

/// When there is no fault among the first `n` entries, each of them is fine.
pub proof fn lemma_first_fault_none(fault: spec_fn(int) -> Option<ConfigFault>, n: int, i: int)
    requires
        first_fault(fault, n) is None,
        0 <= i < n,
    ensures
        fault(i) is None,
    decreases n,
{
    if i < n - 1 {
        lemma_first_fault_none(fault, n - 1, i);
    }
}

/// The first fault among the first `n` trees.
pub open spec fn first_tree_fault(c: MachineConfig, n: int) -> Option<ConfigFault> {
    first_fault(tree_faults(c), n)
}

/// What is wrong with the metadata entry at `i`, given that those before it are fine.
pub open spec fn metadata_fault(c: MachineConfig, i: int) -> Option<ConfigFault> {
    let entry = c.metadata@[i];
    if relative_fault(entry.source@, "metadata source"@) is Some {
        relative_fault(entry.source@, "metadata source"@)
    } else if exists|j: int| 0 <= j < i && components(#[trigger] c.metadata@[j].source@) == components(entry.source@) {
        Some(ConfigFault::DuplicateMetadata(entry.source@))
    } else {
        mode_fault(entry.mode@)
    }
}

/// `metadata_fault` of each index.
pub open spec fn metadata_faults(c: MachineConfig) -> spec_fn(int) -> Option<ConfigFault> {
    |i: int| metadata_fault(c, i)
}

/// The first fault among the first `n` metadata entries.
pub open spec fn first_metadata_fault(c: MachineConfig, n: int) -> Option<ConfigFault> {
    first_fault(metadata_faults(c), n)
}

/// What is wrong with the script at `i`, given that those before it are fine.
pub open spec fn script_fault(c: MachineConfig, i: int) -> Option<ConfigFault> {
    let script = c.scripts@[i];
    if relative_fault(script.path@, "script path"@) is Some {
        relative_fault(script.path@, "script path"@)
    } else if exists|j: int| 0 <= j < i && components(#[trigger] c.scripts@[j].path@) == components(script.path@) {
        Some(ConfigFault::DuplicateScript(script.path@))
    } else if script.timeout_seconds == 0 {
        Some(ConfigFault::ZeroTimeout)
    } else {
        None
    }
}

/// `script_fault` of each index.
pub open spec fn script_faults(c: MachineConfig) -> spec_fn(int) -> Option<ConfigFault> {
    |i: int| script_fault(c, i)
}

/// The first fault among the first `n` scripts.
pub open spec fn first_script_fault(c: MachineConfig, n: int) -> Option<ConfigFault> {
    first_fault(script_faults(c), n)
}

/// The first thing wrong with a manifest, checked in the order: version, SSH
/// destination, trees, metadata, scripts.
pub open spec fn config_fault(c: MachineConfig) -> Option<ConfigFault> {
    if c.version != 1 {
        Some(ConfigFault::UnsupportedVersion(c.version))
    } else if blank(c.ssh.destination@) {
        Some(ConfigFault::EmptyDestination)
    } else if c.trees@.len() == 0 {
        Some(ConfigFault::NoTrees)
    } else if first_tree_fault(c, c.trees@.len() as int) is Some {
        first_tree_fault(c, c.trees@.len() as int)
    } else if first_metadata_fault(c, c.metadata@.len() as int) is Some {
        first_metadata_fault(c, c.metadata@.len() as int)
    } else {
        first_script_fault(c, c.scripts@.len() as int)
    }
}

/// A manifest that can be deployed, stated entry by entry: version 1, a
/// destination, at least one tree; every tree source, metadata source and
/// script path a relative path of plain names, none named twice (by their
/// components); privileged trees aimed at absolute targets and the others at
/// `~` or below it, each target acceptable; every mode four octal digits with
/// a leading zero; every script timeout above zero.
pub open spec fn valid_manifest(c: MachineConfig) -> bool {
    &&& c.version == 1
    &&& !blank(c.ssh.destination@)
    &&& c.trees@.len() > 0
    &&& forall|i: int|
        0 <= i < c.trees@.len() ==> {
            let tree = #[trigger] c.trees@[i];
            &&& relative_fault(tree.source@, "tree source"@) is None
            &&& (tree.privileged ==> tree.target@.len() > 0 && tree.target@[0] == '/')
            &&& (!tree.privileged ==> tree.target@ == seq!['~'] || has_prefix(tree.target@, seq!['~', '/']))
            &&& target_fault(tree.target@) is None
        }
    &&& forall|i: int, j: int|
        0 <= j < i < c.trees@.len() ==> components(#[trigger] c.trees@[j].source@) != components(
            #[trigger] c.trees@[i].source@,
        )
    &&& forall|i: int|
        0 <= i < c.metadata@.len() ==> relative_fault((#[trigger] c.metadata@[i]).source@, "metadata source"@) is None
            && mode_fault(c.metadata@[i].mode@) is None
    &&& forall|i: int, j: int|
        0 <= j < i < c.metadata@.len() ==> components(#[trigger] c.metadata@[j].source@) != components(
            #[trigger] c.metadata@[i].source@,
        )
    &&& forall|i: int|
        0 <= i < c.scripts@.len() ==> relative_fault((#[trigger] c.scripts@[i]).path@, "script path"@) is None
            && c.scripts@[i].timeout_seconds > 0
    &&& forall|i: int, j: int|
        0 <= j < i < c.scripts@.len() ==> components(#[trigger] c.scripts@[j].path@) != components(
            #[trigger] c.scripts@[i].path@,
        )
}

/// When every entry among the first `n` is fine, none is the first fault.
proof fn lemma_first_fault_all_none(fault: spec_fn(int) -> Option<ConfigFault>, n: int)
    requires
        forall|i: int| 0 <= i < n ==> (#[trigger] fault(i)) is None,
    ensures
        first_fault(fault, n) is None,
    decreases n,
{
    if n > 0 {
        lemma_first_fault_all_none(fault, n - 1);
    }
}

/// A manifest passes validation exactly when it is a valid manifest, entry by
/// entry.
pub proof fn lemma_validation_accepts_exactly(c: MachineConfig)
    ensures
        config_fault(c) is None <==> valid_manifest(c),
{
    let nt = c.trees@.len() as int;
    let nm = c.metadata@.len() as int;
    let ns = c.scripts@.len() as int;
    if config_fault(c) is None {
        assert forall|i: int| 0 <= i < nt implies tree_fault(c, i) is None by {
            lemma_first_fault_none(tree_faults(c), nt, i);
        }
        assert forall|i: int| 0 <= i < nm implies metadata_fault(c, i) is None by {
            lemma_first_fault_none(metadata_faults(c), nm, i);
        }
        assert forall|i: int| 0 <= i < ns implies script_fault(c, i) is None by {
            lemma_first_fault_none(script_faults(c), ns, i);
        }
        assert forall|i: int, j: int| 0 <= j < i < nt implies components(
            #[trigger] c.trees@[j].source@,
        ) != components(#[trigger] c.trees@[i].source@) by {
            assert(tree_fault(c, i) is None);
        }
        assert forall|i: int, j: int| 0 <= j < i < nm implies components(
            #[trigger] c.metadata@[j].source@,
        ) != components(#[trigger] c.metadata@[i].source@) by {
            assert(metadata_fault(c, i) is None);
        }
        assert forall|i: int, j: int| 0 <= j < i < ns implies components(
            #[trigger] c.scripts@[j].path@,
        ) != components(#[trigger] c.scripts@[i].path@) by {
            assert(script_fault(c, i) is None);
        }
        assert forall|i: int| 0 <= i < nt implies ({
            let tree = #[trigger] c.trees@[i];
            &&& relative_fault(tree.source@, "tree source"@) is None
            &&& (tree.privileged ==> tree.target@.len() > 0 && tree.target@[0] == '/')
            &&& (!tree.privileged ==> tree.target@ == seq!['~'] || has_prefix(tree.target@, seq!['~', '/']))
            &&& target_fault(tree.target@) is None
        }) by {
            assert(tree_fault(c, i) is None);
        }
        assert forall|i: int| 0 <= i < nm implies relative_fault(
            (#[trigger] c.metadata@[i]).source@,
            "metadata source"@,
        ) is None && mode_fault(c.metadata@[i].mode@) is None by {
            assert(metadata_fault(c, i) is None);
        }
        assert forall|i: int| 0 <= i < ns implies relative_fault(
            (#[trigger] c.scripts@[i]).path@,
            "script path"@,
        ) is None && c.scripts@[i].timeout_seconds > 0 by {
            assert(script_fault(c, i) is None);
        }
    }
    if valid_manifest(c) {
        assert forall|i: int| 0 <= i < nt implies (#[trigger] tree_faults(c)(i)) is None by {
            let tree = c.trees@[i];
            assert(!exists|j: int| 0 <= j < i && components(#[trigger] c.trees@[j].source@) == components(
                tree.source@,
            ));
        }
        lemma_first_fault_all_none(tree_faults(c), nt);
        assert forall|i: int| 0 <= i < nm implies (#[trigger] metadata_faults(c)(i)) is None by {
            let entry = c.metadata@[i];
            assert(!exists|j: int| 0 <= j < i && components(#[trigger] c.metadata@[j].source@) == components(
                entry.source@,
            ));
        }
        lemma_first_fault_all_none(metadata_faults(c), nm);
        assert forall|i: int| 0 <= i < ns implies (#[trigger] script_faults(c)(i)) is None by {
            let script = c.scripts@[i];
            assert(!exists|j: int| 0 <= j < i && components(#[trigger] c.scripts@[j].path@) == components(
                script.path@,
            ));
        }
        lemma_first_fault_all_none(script_faults(c), ns);
    }
}

/// Whether some earlier entry (before `i`) of `seen` has the same components as `current`.
fn seen_before(seen: &Vec<Vec<Vec<char>>>, current: &Vec<Vec<char>>) -> (r: bool)
    ensures
        r == exists|j: int| 0 <= j < seen@.len() && views(#[trigger] seen@[j]@) == views(current@),
{
    let mut j: usize = 0;
    while j < seen.len()
        invariant
            j <= seen@.len(),
            forall|k: int| 0 <= k < j ==> views(#[trigger] seen@[k]@) != views(current@),
        decreases seen@.len() - j,
    {
        if same_components(&seen[j], current) {
            assert(views(seen@[j as int]@) == views(current@));
            return true;
        }
        j = j + 1;
    }
    false
}

impl MachineConfig {
    /// Checks the manifest, reporting the first problem found.
    pub fn validate(&self) -> (r: Result<(), ConfigError>)
        ensures
            r is Ok <==> config_fault(*self) is None,
            r matches Err(e) ==> config_fault(*self) == Some(e@),
    {
        if self.version != 1 {
            return Err(ConfigError::UnsupportedVersion(self.version));
        }
        if is_blank(self.ssh.destination.as_str()) {
            return Err(ConfigError::EmptyDestination);
        }
        if self.trees.len() == 0 {
            return Err(ConfigError::NoTrees);
        }
        let mut seen: Vec<Vec<Vec<char>>> = Vec::new();
        let mut i: usize = 0;
        while i < self.trees.len()
            invariant
                self.version == 1,
                !blank(self.ssh.destination@),
                self.trees@.len() > 0,
                i <= self.trees@.len(),
                seen@.len() == i,
                forall|k: int| 0 <= k < i ==> views(#[trigger] seen@[k]@) == components(self.trees@[k].source@),
                first_tree_fault(*self, i as int) is None,
            decreases self.trees@.len() - i,
        {
            let tree = &self.trees[i];
            match validate_relative(tree.source.as_str(), "tree source") {
                Err(e) => {
                    proof {
                        lemma_first_fault_stays(tree_faults(*self), i + 1, self.trees@.len() as int);
                    }
                    return Err(e);
                },
                Ok(()) => {},
            }
            let parts = path_components(chars_of(tree.source.as_str()).as_slice());
            if seen_before(&seen, &parts) {
                proof {
                    let j = choose|j: int| 0 <= j < seen@.len() && views(#[trigger] seen@[j]@) == views(parts@);
                    assert(components(self.trees@[j].source@) == components(tree.source@));
                }
                proof {
                    lemma_first_fault_stays(tree_faults(*self), i + 1, self.trees@.len() as int);
                }
                return Err(ConfigError::DuplicateTreeSource(tree.source.clone()));
            }
            proof {
                assert forall|j: int| 0 <= j < i implies components(#[trigger] self.trees@[j].source@) != components(tree.source@) by {
                    assert(views(seen@[j]@) == components(self.trees@[j].source@));
                }
            }
            let target = chars_of(tree.target.as_str());
            if tree.privileged {
                if !(target.len() > 0 && target[0] == '/') {
                    proof {
                        lemma_first_fault_stays(tree_faults(*self), i + 1, self.trees@.len() as int);
                    }
                    return Err(ConfigError::PrivilegedTargetNotAbsolute(tree.target.clone()));
                }
            } else {
                let home = target.len() == 1 && target[0] == '~';
                let below_home = target.len() >= 2 && target[0] == '~' && target[1] == '/';
                proof {
                    if home {
                        assert(target@ =~= seq!['~']);
                    }
                    if target@ == seq!['~'] {
                        assert(home);
                    }
                    if below_home {
                        assert(target@.subrange(0, 2) =~= seq!['~', '/']);
                    }
                    if has_prefix(target@, seq!['~', '/']) {
                        assert(target@.subrange(0, 2)[0] == '~');
                        assert(target@.subrange(0, 2)[1] == '/');
                        assert(below_home);
                    }
                }
                if !(home || below_home) {
                    proof {
                        lemma_first_fault_stays(tree_faults(*self), i + 1, self.trees@.len() as int);
                    }
                    return Err(ConfigError::UnprivilegedTargetOutsideHome(tree.target.clone()));
                }
            }
            match validate_remote_target(tree.target.as_str()) {
                Err(e) => {
                    proof {
                        lemma_first_fault_stays(tree_faults(*self), i + 1, self.trees@.len() as int);
                    }
                    return Err(e);
                },
                Ok(()) => {},
            }
            seen.push(parts);
            i = i + 1;
        }
        let mut seen: Vec<Vec<Vec<char>>> = Vec::new();
        let mut i: usize = 0;
        while i < self.metadata.len()
            invariant
                self.version == 1,
                !blank(self.ssh.destination@),
                self.trees@.len() > 0,
                first_tree_fault(*self, self.trees@.len() as int) is None,
                i <= self.metadata@.len(),
                seen@.len() == i,
                forall|k: int| 0 <= k < i ==> views(#[trigger] seen@[k]@) == components(self.metadata@[k].source@),
                first_metadata_fault(*self, i as int) is None,
            decreases self.metadata@.len() - i,
        {
            let entry = &self.metadata[i];
            match validate_relative(entry.source.as_str(), "metadata source") {
                Err(e) => {
                    proof {
                        lemma_first_fault_stays(metadata_faults(*self), i + 1, self.metadata@.len() as int);
                    }
                    return Err(e);
                },
                Ok(()) => {},
            }
            let parts = path_components(chars_of(entry.source.as_str()).as_slice());
            if seen_before(&seen, &parts) {
                proof {
                    let j = choose|j: int| 0 <= j < seen@.len() && views(#[trigger] seen@[j]@) == views(parts@);
                    assert(components(self.metadata@[j].source@) == components(entry.source@));
                }
                proof {
                    lemma_first_fault_stays(metadata_faults(*self), i + 1, self.metadata@.len() as int);
                }
                return Err(ConfigError::DuplicateMetadata(entry.source.clone()));
            }
            proof {
                assert forall|j: int| 0 <= j < i implies components(#[trigger] self.metadata@[j].source@) != components(entry.source@) by {
                    assert(views(seen@[j]@) == components(self.metadata@[j].source@));
                }
            }
            match parse_mode(entry.mode.as_str()) {
                Err(e) => {
                    proof {
                        lemma_first_fault_stays(metadata_faults(*self), i + 1, self.metadata@.len() as int);
                    }
                    return Err(e);
                },
                Ok(_) => {},
            }
            seen.push(parts);
            i = i + 1;
        }
        let mut seen: Vec<Vec<Vec<char>>> = Vec::new();
        let mut i: usize = 0;
        while i < self.scripts.len()
            invariant
                self.version == 1,
                !blank(self.ssh.destination@),
                self.trees@.len() > 0,
                first_tree_fault(*self, self.trees@.len() as int) is None,
                first_metadata_fault(*self, self.metadata@.len() as int) is None,
                i <= self.scripts@.len(),
                seen@.len() == i,
                forall|k: int| 0 <= k < i ==> views(#[trigger] seen@[k]@) == components(self.scripts@[k].path@),
                first_script_fault(*self, i as int) is None,
            decreases self.scripts@.len() - i,
        {
            let script = &self.scripts[i];
            match validate_relative(script.path.as_str(), "script path") {
                Err(e) => {
                    proof {
                        lemma_first_fault_stays(script_faults(*self), i + 1, self.scripts@.len() as int);
                    }
                    return Err(e);
                },
                Ok(()) => {},
            }
            let parts = path_components(chars_of(script.path.as_str()).as_slice());
            if seen_before(&seen, &parts) {
                proof {
                    let j = choose|j: int| 0 <= j < seen@.len() && views(#[trigger] seen@[j]@) == views(parts@);
                    assert(components(self.scripts@[j].path@) == components(script.path@));
                }
                proof {
                    lemma_first_fault_stays(script_faults(*self), i + 1, self.scripts@.len() as int);
                }
                return Err(ConfigError::DuplicateScript(script.path.clone()));
            }
            proof {
                assert forall|j: int| 0 <= j < i implies components(#[trigger] self.scripts@[j].path@) != components(script.path@) by {
                    assert(views(seen@[j]@) == components(self.scripts@[j].path@));
                }
            }
            if script.timeout_seconds == 0 {
                proof {
                    lemma_first_fault_stays(script_faults(*self), i + 1, self.scripts@.len() as int);
                }
                return Err(ConfigError::ZeroTimeout);
            }
            seen.push(parts);
            i = i + 1;
        }
        Ok(())
    }
}

} // verus!
