//! A machine's deployment: the files and scripts it ships, and the digest that
//! identifies its content.
use vstd::prelude::*;

use vstd::utf8::encode_utf8;

use crate::config::{config_fault, octal_value, parse_mode, FileMetadata, MachineConfig};
use crate::paths::{components, components_le, components_le_exec, lemma_components_total, lemma_components_transitive, lemma_components_reflexive, path_components, same_components, views};
use crate::external::{hex_encode, hex_lower, sha256, sha256_digest};
use crate::text::{append_str, chars_of, lemma_lex_antisymmetric, lemma_lex_reflexive, lemma_lex_total, lemma_lex_transitive, lex_le, push_char, sorted_chars, str_lex_le};

verus! {

/// A loaded, validated machine: everything that a deployment ships.
#[derive(Debug)]
pub struct Deployment {
    pub name: String,
    pub config: MachineConfig,
    pub files: Vec<DeploymentFile>,
    pub scripts: Vec<DeploymentScript>,
    pub digest: String,
    pub directory: String,
    pub apt_packages: Vec<LockedAptPackage>,
}

/// An APT package pinned to a version by the machine's lock file.
#[derive(Debug, Clone, PartialEq, Eq)]
pub struct LockedAptPackage {
    pub name: String,
    pub version: String,
}

/// A file that a deployment places on the host.
#[derive(Debug)]
pub struct DeploymentFile {
    /// The path below the machine directory.
    pub source: String,
    /// The path on the host.
    pub target: String,
    pub privileged: bool,
    pub mode: u32,
    pub contents: Vec<u8>,
}

/// A script that a deployment checks and applies on the host.
#[derive(Debug)]
pub struct DeploymentScript {
    pub source: String,
    pub privileged: bool,
    pub timeout_seconds: u64,
    pub contents: Vec<u8>,
}

} // verus!

verus! {

// ---------------------------------------------------------------------------
// The content digest
// ---------------------------------------------------------------------------
/// `n` as eight big-endian bytes.
pub open spec fn be_u64(n: u64) -> Seq<u8> {
    seq![
        (n >> 56u64) as u8,
        (n >> 48u64) as u8,
        (n >> 40u64) as u8,
        (n >> 32u64) as u8,
        (n >> 24u64) as u8,
        (n >> 16u64) as u8,
        (n >> 8u64) as u8,
        n as u8,
    ]
}

/// `n` as four big-endian bytes.
pub open spec fn be_u32(n: u32) -> Seq<u8> {
    seq![(n >> 24u32) as u8, (n >> 16u32) as u8, (n >> 8u32) as u8, n as u8]
}

/// A field of the digest input: its length as eight big-endian bytes, then the bytes.
pub open spec fn framed(v: Seq<u8>) -> Seq<u8> {
    be_u64(v.len() as u64) + v
}

/// `1` for true, `0` for false.
pub open spec fn flag_byte(b: bool) -> u8 {
    if b {
        1
    } else {
        0
    }
}

/// What the digest reads of one file.
pub open spec fn file_record(f: DeploymentFile) -> Seq<u8> {
    framed(encode_utf8(f.source@)) + framed(encode_utf8(f.target@)) + seq![flag_byte(f.privileged)]
        + be_u32(f.mode) + framed(f.contents@)
}

/// What the digest reads of one script.
pub open spec fn script_record(s: DeploymentScript) -> Seq<u8> {
    framed(encode_utf8(s.source@)) + seq![flag_byte(s.privileged)] + be_u64(s.timeout_seconds)
        + framed(s.contents@)
}

/// The records of all files, in order.
pub open spec fn file_records(files: Seq<DeploymentFile>) -> Seq<u8>
    decreases files.len(),
{
    if files.len() == 0 {
        Seq::<u8>::empty()
    } else {
        file_records(files.drop_last()) + file_record(files.last())
    }
}

/// What the digest reads of one locked APT package.
pub open spec fn package_record(p: LockedAptPackage) -> Seq<u8> {
    framed(encode_utf8(p.name@)) + framed(encode_utf8(p.version@))
}

/// The records of all locked APT packages, in order.
pub open spec fn package_records(packages: Seq<LockedAptPackage>) -> Seq<u8>
    decreases packages.len(),
{
    if packages.len() == 0 {
        Seq::<u8>::empty()
    } else {
        package_records(packages.drop_last()) + package_record(packages.last())
    }
}

/// The records of all scripts, in order.
pub open spec fn script_records(scripts: Seq<DeploymentScript>) -> Seq<u8>
    decreases scripts.len(),
{
    if scripts.len() == 0 {
        Seq::<u8>::empty()
    } else {
        script_records(scripts.drop_last()) + script_record(scripts.last())
    }
}

/// Everything the content digest covers: a version tag, the SSH destination,
/// then each locked APT package, each file and each script.
pub open spec fn digest_input(
    destination: Seq<char>,
    packages: Seq<LockedAptPackage>,
    files: Seq<DeploymentFile>,
    scripts: Seq<DeploymentScript>,
) -> Seq<u8> {
    encode_utf8(DIGEST_TAG@) + framed(encode_utf8(destination)) + package_records(packages)
        + file_records(files) + script_records(scripts)
}

/// The content digest: the SHA-256 of [`digest_input`], in lower-case hex.
pub open spec fn digest_text(
    destination: Seq<char>,
    packages: Seq<LockedAptPackage>,
    files: Seq<DeploymentFile>,
    scripts: Seq<DeploymentScript>,
) -> Seq<char> {
    hex_lower(sha256(digest_input(destination, packages, files, scripts)))
}

/// The tag that starts the digest input, naming its layout.
pub const DIGEST_TAG: &'static str = "stowaway-deployment-v1\0";

fn push_bytes(out: &mut Vec<u8>, bytes: &[u8])
    ensures
        final(out)@ == old(out)@ + bytes@,
{
    let ghost start = out@;
    let mut i: usize = 0;
    while i < bytes.len()
        invariant
            i <= bytes@.len(),
            out@ == start + bytes@.take(i as int),
        decreases bytes@.len() - i,
    {
        out.push(bytes[i]);
        i = i + 1;
        assert(out@ =~= start + bytes@.take(i as int));
    }
    assert(bytes@.take(bytes@.len() as int) =~= bytes@);
}

fn push_be_u64(out: &mut Vec<u8>, n: u64)
    ensures
        final(out)@ == old(out)@ + be_u64(n),
{
    let ghost start = out@;
    out.push((n >> 56u64) as u8);
    out.push((n >> 48u64) as u8);
    out.push((n >> 40u64) as u8);
    out.push((n >> 32u64) as u8);
    out.push((n >> 24u64) as u8);
    out.push((n >> 16u64) as u8);
    out.push((n >> 8u64) as u8);
    out.push(n as u8);
    assert(out@ =~= start + be_u64(n));
}

fn push_be_u32(out: &mut Vec<u8>, n: u32)
    ensures
        final(out)@ == old(out)@ + be_u32(n),
{
    let ghost start = out@;
    out.push((n >> 24u32) as u8);
    out.push((n >> 16u32) as u8);
    out.push((n >> 8u32) as u8);
    out.push(n as u8);
    assert(out@ =~= start + be_u32(n));
}

fn push_framed(out: &mut Vec<u8>, bytes: &[u8])
    ensures
        final(out)@ == old(out)@ + framed(bytes@),
{
    let ghost start = out@;
    push_be_u64(out, bytes.len() as u64);
    push_bytes(out, bytes);
    assert(out@ =~= start + framed(bytes@));
}

fn push_file_record(out: &mut Vec<u8>, f: &DeploymentFile)
    ensures
        final(out)@ == old(out)@ + file_record(*f),
{
    let ghost start = out@;
    push_framed(out, f.source.as_str().as_bytes());
    push_framed(out, f.target.as_str().as_bytes());
    out.push(if f.privileged {
        1u8
    } else {
        0u8
    });
    push_be_u32(out, f.mode);
    push_framed(out, f.contents.as_slice());
    assert(out@ =~= start + file_record(*f));
}

fn push_script_record(out: &mut Vec<u8>, s: &DeploymentScript)
    ensures
        final(out)@ == old(out)@ + script_record(*s),
{
    let ghost start = out@;
    push_framed(out, s.source.as_str().as_bytes());
    out.push(if s.privileged {
        1u8
    } else {
        0u8
    });
    push_be_u64(out, s.timeout_seconds);
    push_framed(out, s.contents.as_slice());
    assert(out@ =~= start + script_record(*s));
}

/// The bytes that the content digest covers.
pub fn digest_bytes(
    destination: &str,
    packages: &[LockedAptPackage],
    files: &[DeploymentFile],
    scripts: &[DeploymentScript],
) -> (out:
    Vec<u8>)
    ensures
        out@ == digest_input(destination@, packages@, files@, scripts@),
{
    let mut out: Vec<u8> = Vec::new();
    push_bytes(&mut out, DIGEST_TAG.as_bytes());
    push_framed(&mut out, destination.as_bytes());
    let ghost start = out@;
    let mut k: usize = 0;
    while k < packages.len()
        invariant
            k <= packages@.len(),
            out@ == start + package_records(packages@.take(k as int)),
        decreases packages@.len() - k,
    {
        let ghost before = out@;
        push_framed(&mut out, packages[k].name.as_str().as_bytes());
        push_framed(&mut out, packages[k].version.as_str().as_bytes());
        proof {
            assert(packages@.take(k + 1).drop_last() =~= packages@.take(k as int));
            assert(out@ =~= start + package_records(packages@.take(k + 1)));
        }
        k = k + 1;
    }
    assert(packages@.take(packages@.len() as int) =~= packages@);
    let ghost head = out@;
    let mut i: usize = 0;
    while i < files.len()
        invariant
            i <= files@.len(),
            out@ == head + file_records(files@.take(i as int)),
        decreases files@.len() - i,
    {
        push_file_record(&mut out, &files[i]);
        proof {
            assert(files@.take(i + 1).drop_last() =~= files@.take(i as int));
            assert(out@ =~= head + file_records(files@.take(i + 1)));
        }
        i = i + 1;
    }
    assert(files@.take(files@.len() as int) =~= files@);
    let ghost middle = out@;
    let mut j: usize = 0;
    while j < scripts.len()
        invariant
            j <= scripts@.len(),
            out@ == middle + script_records(scripts@.take(j as int)),
        decreases scripts@.len() - j,
    {
        push_script_record(&mut out, &scripts[j]);
        proof {
            assert(scripts@.take(j + 1).drop_last() =~= scripts@.take(j as int));
            assert(out@ =~= middle + script_records(scripts@.take(j + 1)));
        }
        j = j + 1;
    }
    assert(scripts@.take(scripts@.len() as int) =~= scripts@);
    assert(out@ =~= digest_input(destination@, packages@, files@, scripts@));
    out
}

/// The content digest of a deployment: SHA-256 over its SSH destination,
/// locked APT packages, files and scripts, written in lower-case hex.
pub fn deployment_digest(
    destination: &str,
    packages: &[LockedAptPackage],
    files: &[DeploymentFile],
    scripts: &[DeploymentScript],
) -> (d: String)
    ensures
        d@ == digest_text(destination@, packages@, files@, scripts@),
        d@ == hex_lower(sha256(digest_input(destination@, packages@, files@, scripts@))),
{
    let input = digest_bytes(destination, packages, files, scripts);
    let hash = sha256_digest(input.as_slice());
    hex_encode(hash.as_slice())
}

} // verus!

verus! {

// ---------------------------------------------------------------------------
// Names and paths
// ---------------------------------------------------------------------------
/// Why a machine could not be assembled.
#[derive(Debug)]
pub enum LoadError {
    EmptyMachineName,
    InvalidMachineName(String),
    DuplicateTarget(String),
    MetadataUnmanaged(String),
    Config(crate::config::ConfigError),
}

/// Whether `c` may appear in a machine name: an ASCII letter or digit, `-` or `_`.
pub open spec fn machine_name_char(c: char) -> bool {
    ('a' <= c && c <= 'z') || ('A' <= c && c <= 'Z') || ('0' <= c && c <= '9') || c == '-' || c
        == '_'
}

/// Accepts a non-empty machine name made of ASCII letters, digits, `-` and `_`.
pub fn validate_machine_name(name: &str) -> (r: Result<(), LoadError>)
    ensures
        r is Ok <==> name@.len() > 0 && forall|i: int| 0 <= i < name@.len() ==> machine_name_char(#[trigger] name@[i]),
        r matches Err(e) ==> if name@.len() == 0 {
            e is EmptyMachineName
        } else {
            e matches LoadError::InvalidMachineName(n) && n@ == name@
        },
{
    let chars = chars_of(name);
    if chars.len() == 0 {
        return Err(LoadError::EmptyMachineName);
    }
    let mut i: usize = 0;
    while i < chars.len()
        invariant
            chars@ == name@,
            i <= chars@.len(),
            forall|k: int| 0 <= k < i ==> machine_name_char(#[trigger] chars@[k]),
        decreases chars@.len() - i,
    {
        let c = chars[i];
        if !(('a' <= c && c <= 'z') || ('A' <= c && c <= 'Z') || ('0' <= c && c <= '9') || c == '-'
            || c == '_') {
            assert(!machine_name_char(name@[i as int]));
            return Err(LoadError::InvalidMachineName(name.to_owned()));
        }
        i = i + 1;
    }
    Ok(())
}

/// `s` without its trailing slashes.
pub open spec fn trim_trailing_slashes(s: Seq<char>) -> Seq<char>
    decreases s.len(),
{
    if s.len() > 0 && s.last() == '/' {
        trim_trailing_slashes(s.drop_last())
    } else {
        s
    }
}

/// The remote path of a file at `relative` below a tree whose target is `root`.
pub open spec fn remote_join(root: Seq<char>, relative: Seq<char>) -> Seq<char> {
    if root == seq!['/'] {
        seq!['/'] + relative
    } else {
        trim_trailing_slashes(root) + seq!['/'] + relative
    }
}

/// Joins a tree's remote target and a path relative to the tree.
pub fn join_remote(root: &str, relative: &str) -> (out: String)
    ensures
        out@ == remote_join(root@, relative@),
{
    let chars = chars_of(root);
    let mut n = chars.len();
    if n == 1 && chars[0] == '/' {
        proof {
            assert(root@ =~= seq!['/']);
        }
        let mut out = String::new();
        push_char(&mut out, '/');
        append_str(&mut out, relative);
        assert(out@ =~= remote_join(root@, relative@));
        return out;
    }
    proof {
        if root@ == seq!['/'] {
            assert(root@.len() == 1 && root@[0] == '/');
        }
        assert(chars@.take(n as int) =~= root@);
    }
    while n > 0 && chars[n - 1] == '/'
        invariant
            n <= chars@.len(),
            chars@ == root@,
            trim_trailing_slashes(chars@.take(n as int)) == trim_trailing_slashes(root@),
        decreases n,
    {
        proof {
            assert(chars@.take(n as int).drop_last() =~= chars@.take(n - 1));
        }
        n = n - 1;
    }
    proof {
        assert(trim_trailing_slashes(chars@.take(n as int)) == chars@.take(n as int));
    }
    let mut out = crate::text::string_from_chars(vstd::slice::slice_subrange(chars.as_slice(), 0, n));
    push_char(&mut out, '/');
    append_str(&mut out, relative);
    assert(out@ =~= remote_join(root@, relative@));
    out
}

/// A path below a machine's directory joined with a relative path, as
/// `PathBuf::join` does: an absolute `relative` replaces the base, and a slash
/// separates them unless the base is empty or ends in one.
pub open spec fn source_join(base: Seq<char>, relative: Seq<char>) -> Seq<char> {
    if relative.len() > 0 && relative[0] == '/' {
        relative
    } else if base.len() == 0 || base.last() == '/' {
        base + relative
    } else {
        base + seq!['/'] + relative
    }
}

/// Joins a source directory and a path relative to it.
pub fn join_source(base: &str, relative: &str) -> (out: String)
    ensures
        out@ == source_join(base@, relative@),
{
    let b = chars_of(base);
    let r = chars_of(relative);
    if r.len() > 0 && r[0] == '/' {
        return relative.to_owned();
    }
    let mut out = base.to_owned();
    if !(b.len() == 0 || b[b.len() - 1] == '/') {
        push_char(&mut out, '/');
    }
    append_str(&mut out, relative);
    out
}

} // verus!

verus! {

// ---------------------------------------------------------------------------
// Assembling a deployment
// ---------------------------------------------------------------------------
/// The mode declared for `source` by the last metadata entry naming the same
/// path, if any.
pub open spec fn declared_mode(metadata: Seq<FileMetadata>, source: Seq<char>) -> Option<u32>
    decreases metadata.len(),
{
    if metadata.len() == 0 {
        None
    } else if components(metadata.last().source@) == components(source) {
        Some(octal_value(metadata.last().mode@) as u32)
    } else {
        declared_mode(metadata.drop_last(), source)
    }
}

/// The mode of a file with no declared mode: 0755 when any execute bit is set
/// on the local file, else 0644.
pub open spec fn default_mode(fs_mode: u32) -> u32 {
    if fs_mode & 0o111u32 != 0 {
        0o755
    } else {
        0o644
    }
}

/// The mode that a file gets: the declared one, else the default.
pub open spec fn file_mode(metadata: Seq<FileMetadata>, source: Seq<char>, fs_mode: u32) -> u32 {
    match declared_mode(metadata, source) {
        Some(m) => m,
        None => default_mode(fs_mode),
    }
}

/// Whether some file in `files` has `target` as its target.
pub open spec fn has_target(files: Seq<DeploymentFile>, target: Seq<char>) -> bool {
    exists|k: int| 0 <= k < files.len() && (#[trigger] files[k]).target@ == target
}

/// Whether no two files share a target.
pub open spec fn distinct_targets(files: Seq<DeploymentFile>) -> bool {
    forall|i: int, j: int|
        0 <= i < files.len() && 0 <= j < files.len() && i != j ==> (#[trigger] files[i]).target@
            != (#[trigger] files[j]).target@
}

/// Whether no file of `files` has a source naming the same path as `source`.
pub open spec fn unmanaged(files: Seq<DeploymentFile>, source: Seq<char>) -> bool {
    !exists|k: int| 0 <= k < files.len() && components((#[trigger] files[k]).source@) == components(source)
}

/// The remote target of a udev rule.
pub open spec fn udev_target(name: Seq<char>) -> Seq<char> {
    "/etc/udev/rules.d/"@ + name
}

/// The files and scripts of a machine, gathered one by one while its directory is
/// read, with the checks that the gathering makes.
pub struct DeploymentBuilder {
    config: MachineConfig,
    files: Vec<DeploymentFile>,
    scripts: Vec<DeploymentScript>,
    metadata_parts: Vec<Vec<Vec<char>>>,
    metadata_modes: Vec<u32>,
}

impl DeploymentBuilder {
    /// The builder's invariant: the manifest is valid, the parsed metadata
    /// matches it, and no two gathered files share a target.
    pub closed spec fn wf(self) -> bool {
        &&& config_fault(self.config) is None
        &&& self.metadata_parts@.len() == self.config.metadata@.len()
        &&& self.metadata_modes@.len() == self.config.metadata@.len()
        &&& forall|k: int|
            0 <= k < self.metadata_parts@.len() ==> views(#[trigger] self.metadata_parts@[k]@)
                == components(self.config.metadata@[k].source@)
        &&& forall|k: int|
            0 <= k < self.metadata_modes@.len() ==> #[trigger] self.metadata_modes@[k]
                == octal_value(self.config.metadata@[k].mode@)
        &&& distinct_targets(self.files@)
    }

    /// The manifest being assembled.
    pub closed spec fn spec_config(&self) -> MachineConfig {
        self.config
    }

    /// The files gathered so far, in the order they were added.
    pub closed spec fn spec_files(&self) -> Seq<DeploymentFile> {
        self.files@
    }

    /// The scripts gathered so far.
    pub closed spec fn spec_scripts(&self) -> Seq<DeploymentScript> {
        self.scripts@
    }

    /// Starts assembling a machine from its manifest, which must be valid.
    pub fn new(config: MachineConfig) -> (r: Result<Self, LoadError>)
        ensures
            r is Ok <==> config_fault(config) is None,
            r matches Ok(b) ==> b.wf() && b.spec_config() == config && b.spec_files().len() == 0
                && b.spec_scripts().len() == 0,
            r matches Err(e) ==> e matches LoadError::Config(c) && config_fault(config) == Some(c@),
    {
        match config.validate() {
            Err(e) => {
                return Err(LoadError::Config(e));
            },
            Ok(()) => {},
        }
        let mut parts: Vec<Vec<Vec<char>>> = Vec::new();
        let mut modes: Vec<u32> = Vec::new();
        let mut k: usize = 0;
        while k < config.metadata.len()
            invariant
                config_fault(config) is None,
                k <= config.metadata@.len(),
                parts@.len() == k,
                modes@.len() == k,
                forall|j: int| 0 <= j < k ==> views(#[trigger] parts@[j]@) == components(config.metadata@[j].source@),
                forall|j: int| 0 <= j < k ==> #[trigger] modes@[j] == octal_value(config.metadata@[j].mode@),
            decreases config.metadata@.len() - k,
        {
            let entry = &config.metadata[k];
            proof {
                crate::config::lemma_first_fault_none(
                    crate::config::metadata_faults(config),
                    config.metadata@.len() as int,
                    k as int,
                );
            }
            let mode = match parse_mode(entry.mode.as_str()) {
                Ok(m) => m,
                Err(e) => {
                    return Err(LoadError::Config(e));
                },
            };
            parts.push(path_components(chars_of(entry.source.as_str()).as_slice()));
            modes.push(mode);
            k = k + 1;
        }
        Ok(DeploymentBuilder {
            config,
            files: Vec::new(),
            scripts: Vec::new(),
            metadata_parts: parts,
            metadata_modes: modes,
        })
    }

    /// How many trees the manifest declares.
    pub fn tree_count(&self) -> (n: usize)
        ensures
            n == self.spec_config().trees@.len(),
    {
        self.config.trees.len()
    }

    /// The manifest being assembled.
    pub fn config(&self) -> (c: &MachineConfig)
        ensures
            *c == self.spec_config(),
    {
        &self.config
    }

    fn declared_mode_of(&self, source: &str) -> (r: Option<u32>)
        requires
            self.wf(),
        ensures
            r == declared_mode(self.spec_config().metadata@, source@),
    {
        let parts = path_components(chars_of(source).as_slice());
        let mut found: Option<u32> = None;
        let mut k: usize = 0;
        proof {
            assert(self.config.metadata@.take(0) =~= Seq::<FileMetadata>::empty());
        }
        while k < self.metadata_parts.len()
            invariant
                k <= self.metadata_parts@.len(),
                self.metadata_parts@.len() == self.config.metadata@.len(),
                self.metadata_modes@.len() == self.config.metadata@.len(),
                forall|j: int|
                    0 <= j < self.metadata_parts@.len() ==> views(#[trigger] self.metadata_parts@[j]@)
                        == components(self.config.metadata@[j].source@),
                forall|j: int|
                    0 <= j < self.metadata_modes@.len() ==> #[trigger] self.metadata_modes@[j]
                        == octal_value(self.config.metadata@[j].mode@),
                views(parts@) == components(source@),
                found == declared_mode(self.config.metadata@.take(k as int), source@),
            decreases self.metadata_parts@.len() - k,
        {
            proof {
                assert(self.config.metadata@.take(k + 1).drop_last() =~= self.config.metadata@.take(k as int));
                assert(self.config.metadata@.take(k + 1).last() == self.config.metadata@[k as int]);
            }
            if same_components(&self.metadata_parts[k], &parts) {
                found = Some(self.metadata_modes[k]);
            }
            k = k + 1;
        }
        proof {
            assert(self.config.metadata@.take(self.config.metadata@.len() as int) =~= self.config.metadata@);
        }
        found
    }

    fn target_taken(&self, target: &String) -> (r: bool)
        requires
            self.wf(),
        ensures
            r == has_target(self.spec_files(), target@),
    {
        let mut k: usize = 0;
        while k < self.files.len()
            invariant
                k <= self.files@.len(),
                forall|j: int| 0 <= j < k ==> (#[trigger] self.files@[j]).target@ != target@,
            decreases self.files@.len() - k,
        {
            if self.files[k].target == *target {
                assert(self.files@[k as int].target@ == target@);
                return true;
            }
            k = k + 1;
        }
        false
    }

    /// Adds the file at `relative` below the tree at `tree_index`, whose local
    /// permission bits are `fs_mode`; its contents come with [`set_contents`].
    /// Refused when another file already has the same remote target.
    pub fn add_tree_file(&mut self, tree_index: usize, relative: &str, fs_mode: u32) -> (r: Result<usize, LoadError>)
        requires
            old(self).wf(),
            tree_index < old(self).spec_config().trees@.len(),
        ensures
            final(self).wf(),
            ({
                let tree = old(self).spec_config().trees@[tree_index as int];
                let source = source_join(tree.source@, relative@);
                let target = remote_join(tree.target@, relative@);
                &&& final(self).spec_config() == old(self).spec_config()
                &&& final(self).spec_scripts() == old(self).spec_scripts()
                &&& (r is Err <==> has_target(old(self).spec_files(), target))
                &&& (r matches Err(e) ==> (e matches LoadError::DuplicateTarget(t) && t@ == target)
                    && final(self).spec_files() == old(self).spec_files())
                &&& (r matches Ok(i) ==> {
                    let files = final(self).spec_files();
                    &&& i == old(self).spec_files().len()
                    &&& files.len() == i + 1
                    &&& files.drop_last() == old(self).spec_files()
                    &&& files[i as int].source@ == source
                    &&& files[i as int].target@ == target
                    &&& files[i as int].privileged == tree.privileged
                    &&& files[i as int].mode == file_mode(old(self).spec_config().metadata@, source, fs_mode)
                    &&& files[i as int].contents@.len() == 0
                })
            }),
    {
        let source = join_source(self.config.trees[tree_index].source.as_str(), relative);
        let target = join_remote(self.config.trees[tree_index].target.as_str(), relative);
        if self.target_taken(&target) {
            return Err(LoadError::DuplicateTarget(target));
        }
        let mode = match self.declared_mode_of(source.as_str()) {
            Some(m) => m,
            None => if fs_mode & 0o111u32 != 0 {
                0o755
            } else {
                0o644
            },
        };
        let privileged = self.config.trees[tree_index].privileged;
        let ghost before = self.files@;
        let index = self.files.len();
        self.files.push(DeploymentFile { source, target, privileged, mode, contents: Vec::new() });
        proof {
            assert(self.files@.drop_last() =~= before);
            assert forall|i: int, j: int|
                0 <= i < self.files@.len() && 0 <= j < self.files@.len() && i != j implies (
            #[trigger] self.files@[i]).target@ != (#[trigger] self.files@[j]).target@ by {
                if i == index {
                    assert(self.files@[j] == before[j]);
                } else if j == index {
                    assert(self.files@[i] == before[i]);
                } else {
                    assert(self.files@[i] == before[i]);
                    assert(self.files@[j] == before[j]);
                }
            }
        }
        Ok(index)
    }

    /// Adds the udev rule at `rule_index`: a privileged file with mode 0644 under
    /// `/etc/udev/rules.d`. Refused when another file already has that target.
    pub fn add_udev_rule(&mut self, rule_index: usize) -> (r: Result<usize, LoadError>)
        requires
            old(self).wf(),
            rule_index < old(self).spec_config().udev_rules@.len(),
        ensures
            final(self).wf(),
            ({
                let rule = old(self).spec_config().udev_rules@[rule_index as int];
                let target = udev_target(rule.name@);
                &&& final(self).spec_config() == old(self).spec_config()
                &&& final(self).spec_scripts() == old(self).spec_scripts()
                &&& (r is Err <==> has_target(old(self).spec_files(), target))
                &&& (r matches Err(e) ==> (e matches LoadError::DuplicateTarget(t) && t@ == target)
                    && final(self).spec_files() == old(self).spec_files())
                &&& (r matches Ok(i) ==> {
                    let files = final(self).spec_files();
                    &&& i == old(self).spec_files().len()
                    &&& files.len() == i + 1
                    &&& files.drop_last() == old(self).spec_files()
                    &&& files[i as int].source@ == rule.source@
                    &&& files[i as int].target@ == target
                    &&& files[i as int].privileged
                    &&& files[i as int].mode == 0o644
                    &&& files[i as int].contents@.len() == 0
                })
            }),
    {
        let mut target = String::new();
        append_str(&mut target, "/etc/udev/rules.d/");
        append_str(&mut target, self.config.udev_rules[rule_index].name.as_str());
        if self.target_taken(&target) {
            return Err(LoadError::DuplicateTarget(target));
        }
        let source = self.config.udev_rules[rule_index].source.clone();
        let ghost before = self.files@;
        let index = self.files.len();
        self.files.push(DeploymentFile { source, target, privileged: true, mode: 0o644, contents: Vec::new() });
        proof {
            assert(self.files@.drop_last() =~= before);
            assert forall|i: int, j: int|
                0 <= i < self.files@.len() && 0 <= j < self.files@.len() && i != j implies (
            #[trigger] self.files@[i]).target@ != (#[trigger] self.files@[j]).target@ by {
                if i == index {
                    assert(self.files@[j] == before[j]);
                } else if j == index {
                    assert(self.files@[i] == before[i]);
                } else {
                    assert(self.files@[i] == before[i]);
                    assert(self.files@[j] == before[j]);
                }
            }
        }
        Ok(index)
    }

    /// Gives the file at `index` its contents.
    pub fn set_contents(&mut self, index: usize, contents: Vec<u8>)
        requires
            old(self).wf(),
            index < old(self).spec_files().len(),
        ensures
            final(self).wf(),
            final(self).spec_config() == old(self).spec_config(),
            final(self).spec_scripts() == old(self).spec_scripts(),
            final(self).spec_files().len() == old(self).spec_files().len(),
            forall|k: int| 0 <= k < old(self).spec_files().len() && k != index ==> #[trigger] final(self).spec_files()[k] == old(self).spec_files()[k],
            final(self).spec_files()[index as int].source == old(self).spec_files()[index as int].source,
            final(self).spec_files()[index as int].target == old(self).spec_files()[index as int].target,
            final(self).spec_files()[index as int].privileged == old(self).spec_files()[index as int].privileged,
            final(self).spec_files()[index as int].mode == old(self).spec_files()[index as int].mode,
            final(self).spec_files()[index as int].contents@ == contents@,
    {
        let ghost before = self.files@;
        let old_file = self.files.remove(index);
        let file = DeploymentFile {
            source: old_file.source,
            target: old_file.target,
            privileged: old_file.privileged,
            mode: old_file.mode,
            contents,
        };
        self.files.insert(index, file);
        proof {
            assert forall|i: int, j: int|
                0 <= i < self.files@.len() && 0 <= j < self.files@.len() && i != j implies (
            #[trigger] self.files@[i]).target@ != (#[trigger] self.files@[j]).target@ by {
                assert(self.files@[i].target@ == before[i].target@);
                assert(self.files@[j].target@ == before[j].target@);
            }
        }
    }

    /// Adds the script at `script_index` with its contents.
    pub fn add_script(&mut self, script_index: usize, contents: Vec<u8>)
        requires
            old(self).wf(),
            script_index < old(self).spec_config().scripts@.len(),
        ensures
            final(self).wf(),
            final(self).spec_config() == old(self).spec_config(),
            final(self).spec_files() == old(self).spec_files(),
            final(self).spec_scripts().len() == old(self).spec_scripts().len() + 1,
            final(self).spec_scripts().drop_last() == old(self).spec_scripts(),
            final(self).spec_scripts().last().source@ == old(self).spec_config().scripts@[script_index as int].path@,
            final(self).spec_scripts().last().privileged == old(self).spec_config().scripts@[script_index as int].privileged,
            final(self).spec_scripts().last().timeout_seconds == old(self).spec_config().scripts@[script_index as int].timeout_seconds,
            final(self).spec_scripts().last().contents@ == contents@,
    {
        let script = &self.config.scripts[script_index];
        let item = DeploymentScript {
            source: script.path.clone(),
            privileged: script.privileged,
            timeout_seconds: script.timeout_seconds,
            contents,
        };
        let ghost before = self.scripts@;
        self.scripts.push(item);
        proof {
            assert(self.scripts@.drop_last() =~= before);
        }
    }

    /// Refuses metadata for a path that no gathered file has; when several are
    /// unmanaged, names the first in path order.
    pub fn check_metadata(&self) -> (r: Result<(), LoadError>)
        requires
            self.wf(),
        ensures
            r is Err <==> exists|k: int|
                0 <= k < self.spec_config().metadata@.len() && unmanaged(
                    self.spec_files(),
                    (#[trigger] self.spec_config().metadata@[k]).source@,
                ),
            r matches Err(e) ==> e is MetadataUnmanaged,
            r matches Err(LoadError::MetadataUnmanaged(p)) ==> (exists|k: int|
                0 <= k < self.spec_config().metadata@.len() && p@ == (
                #[trigger] self.spec_config().metadata@[k]).source@) && unmanaged(self.spec_files(), p@)
                && forall|j: int|
                0 <= j < self.spec_config().metadata@.len() && unmanaged(
                    self.spec_files(),
                    #[trigger] self.spec_config().metadata@[j].source@,
                ) ==> components_le(components(p@), components(self.spec_config().metadata@[j].source@)),
    {
        let mut file_parts: Vec<Vec<Vec<char>>> = Vec::new();
        let mut f: usize = 0;
        while f < self.files.len()
            invariant
                f <= self.files@.len(),
                file_parts@.len() == f,
                forall|j: int| 0 <= j < f ==> views(#[trigger] file_parts@[j]@) == components(self.files@[j].source@),
            decreases self.files@.len() - f,
        {
            file_parts.push(path_components(chars_of(self.files[f].source.as_str()).as_slice()));
            f = f + 1;
        }
        let n = self.metadata_parts.len();
        let mut best: Option<usize> = None;
        let mut k: usize = 0;
        while k < n
            invariant
                n == self.metadata_parts@.len(),
                n == self.config.metadata@.len(),
                k <= n,
                file_parts@.len() == self.files@.len(),
                forall|j: int| 0 <= j < self.files@.len() ==> views(#[trigger] file_parts@[j]@) == components(self.files@[j].source@),
                forall|j: int|
                    0 <= j < n ==> views(#[trigger] self.metadata_parts@[j]@)
                        == components(self.config.metadata@[j].source@),
                match best {
                    None => forall|j: int| 0 <= j < k ==> !unmanaged(self.files@, #[trigger] self.config.metadata@[j].source@),
                    Some(b) => b < k && unmanaged(self.files@, self.config.metadata@[b as int].source@)
                        && forall|j: int|
                        0 <= j < k && unmanaged(self.files@, #[trigger] self.config.metadata@[j].source@)
                            ==> components_le(components(self.config.metadata@[b as int].source@), components(self.config.metadata@[j].source@)),
                },
            decreases n - k,
        {
            let managed = Self::managed_by(&file_parts, &self.metadata_parts[k]);
            proof {
                if managed {
                    let f = choose|f: int| 0 <= f < file_parts@.len() && views(#[trigger] file_parts@[f]@) == views(self.metadata_parts@[k as int]@);
                    assert(components(self.files@[f].source@) == components(self.config.metadata@[k as int].source@));
                } else {
                    assert forall|f: int| 0 <= f < self.files@.len() implies components((#[trigger] self.files@[f]).source@) != components(self.config.metadata@[k as int].source@) by {
                        assert(views(file_parts@[f]@) == components(self.files@[f].source@));
                    }
                }
            }
            if !managed {
                match best {
                    None => {
                        best = Some(k);
                        proof {
                            lemma_components_reflexive(components(self.config.metadata@[k as int].source@));
                        }
                    },
                    Some(b) => {
                        if !components_le_exec(&self.metadata_parts[b], &self.metadata_parts[k]) {
                            proof {
                                let mb = components(self.config.metadata@[b as int].source@);
                                let mk = components(self.config.metadata@[k as int].source@);
                                lemma_components_total(mb, mk);
                                lemma_components_reflexive(mk);
                                assert forall|j: int|
                                    0 <= j < k + 1 && unmanaged(self.files@, #[trigger] self.config.metadata@[j].source@)
                                        implies components_le(mk, components(self.config.metadata@[j].source@)) by {
                                    if j < k {
                                        lemma_components_transitive(mk, mb, components(self.config.metadata@[j].source@));
                                    }
                                }
                            }
                            best = Some(k);
                        }
                    },
                }
            }
            k = k + 1;
        }
        match best {
            None => {
                assert(!exists|k: int|
                    0 <= k < self.spec_config().metadata@.len() && unmanaged(
                        self.spec_files(),
                        (#[trigger] self.spec_config().metadata@[k]).source@,
                    ));
                Ok(())
            },
            Some(b) => {
                let p = self.config.metadata[b].source.clone();
                assert(0 <= b < self.spec_config().metadata@.len() && p@ == self.spec_config().metadata@[b as int].source@);
                Err(LoadError::MetadataUnmanaged(p))
            },
        }
    }

    fn managed_by(file_parts: &Vec<Vec<Vec<char>>>, parts: &Vec<Vec<char>>) -> (r: bool)
        ensures
            r == exists|f: int| 0 <= f < file_parts@.len() && views(#[trigger] file_parts@[f]@) == views(parts@),
    {
        let mut f: usize = 0;
        while f < file_parts.len()
            invariant
                f <= file_parts@.len(),
                forall|j: int| 0 <= j < f ==> views(#[trigger] file_parts@[j]@) != views(parts@),
            decreases file_parts@.len() - f,
        {
            if same_components(&file_parts[f], parts) {
                return true;
            }
            f = f + 1;
        }
        false
    }
}

} // verus!

verus! {

/// The targets of `files`, in order.
pub open spec fn targets(files: Seq<DeploymentFile>) -> Seq<Seq<char>> {
    Seq::new(files.len(), |i: int| files[i].target@)
}

/// Sorts files by target, in the order of `String`.
pub fn sort_by_target(files: Vec<DeploymentFile>) -> (out: Vec<DeploymentFile>)
    requires
        distinct_targets(files@),
    ensures
        sorted_chars(targets(out@)),
        distinct_targets(out@),
        out@.to_multiset() == files@.to_multiset(),
{
    broadcast use vstd::seq_lib::group_to_multiset_ensures;

    let mut rest = files;
    let mut out: Vec<DeploymentFile> = Vec::new();
    proof {
        assert(out@ + rest@ =~= files@);
    }
    while rest.len() > 0
        invariant
            sorted_chars(targets(out@)),
            distinct_targets(out@ + rest@),
            out@.to_multiset().add(rest@.to_multiset()) == files@.to_multiset(),
        decreases rest@.len(),
    {
        let ghost before_rest = rest@;
        let ghost before = out@;
        let item = rest.pop().unwrap();
        proof {
            assert(before_rest =~= rest@.push(item));
        }
        let mut pos: usize = 0;
        while pos < out.len() && str_lex_le(out[pos].target.as_str(), item.target.as_str())
            invariant
                pos <= out@.len(),
                forall|k: int| 0 <= k < pos ==> lex_le(#[trigger] out@[k].target@, item.target@),
            decreases out@.len() - pos,
        {
            pos = pos + 1;
        }
        proof {
            if pos < out@.len() {
                lemma_lex_total(out@[pos as int].target@, item.target@);
            }
        }
        out.insert(pos, item);
        proof {
            let old_all = before + before_rest;
            let new_all = out@ + rest@;
            assert(out@ == before.insert(pos as int, item));
            // positions of the new combined sequence in the old one
            assert forall|i: int, j: int|
                0 <= i < new_all.len() && 0 <= j < new_all.len() && i != j implies (
            #[trigger] new_all[i]).target@ != (#[trigger] new_all[j]).target@ by {
                let bl = before.len() as int;
                let map = |x: int| if x < pos {
                    x
                } else if x == pos {
                    old_all.len() - 1
                } else if x <= bl {
                    x - 1
                } else {
                    x - 1
                };
                assert(new_all[i] == old_all[map(i)]);
                assert(new_all[j] == old_all[map(j)]);
                assert(map(i) != map(j));
            }
            assert forall|i: int, j: int| 0 <= i < j < out@.len() implies lex_le(
                #[trigger] targets(out@)[i],
                #[trigger] targets(out@)[j],
            ) by {
                let tv = targets(before);
                if j < pos {
                    assert(lex_le(tv[i], tv[j]));
                } else if j == pos {
                    assert(lex_le(before[i].target@, item.target@));
                } else if i == pos {
                    assert(lex_le(item.target@, before[pos as int].target@));
                    if j - 1 > pos {
                        assert(lex_le(tv[pos as int], tv[j - 1]));
                        lemma_lex_transitive(item.target@, before[pos as int].target@, before[j - 1].target@);
                    }
                } else if i < pos {
                    assert(lex_le(tv[i], tv[j - 1]));
                } else {
                    assert(lex_le(tv[i - 1], tv[j - 1]));
                }
            }
            vstd::seq_lib::to_multiset_insert(before, pos as int, item);
            vstd::seq_lib::to_multiset_build(rest@, item);
            assert(out@.to_multiset().add(rest@.to_multiset()) =~= files@.to_multiset());
        }
    }
    proof {
        assert(rest@ =~= Seq::<DeploymentFile>::empty());
        assert(out@ + rest@ =~= out@);
        assert(out@.to_multiset().add(rest@.to_multiset()) =~= out@.to_multiset());
    }
    out
}

proof fn lemma_sorted_unique(a: Seq<DeploymentFile>, b: Seq<DeploymentFile>)
    requires
        sorted_chars(targets(a)),
        sorted_chars(targets(b)),
        distinct_targets(a),
        distinct_targets(b),
        a.to_multiset() == b.to_multiset(),
    ensures
        a == b,
    decreases a.len(),
{
    broadcast use vstd::seq_lib::group_to_multiset_ensures;

    if a.len() == 0 {
        assert(a.to_multiset().len() == 0);
        assert(b.to_multiset().len() == b.len());
        assert(a =~= b);
    } else {
        let x = a.last();
        let y = b.last();
        let n = a.len() as int;
        assert(a.to_multiset().len() == a.len());
        assert(b.to_multiset().len() == b.len());
        assert(b.len() == a.len());
        assert(a.contains(x));
        assert(a.to_multiset().count(x) > 0);
        assert(b.to_multiset().count(x) > 0);
        assert(b.contains(x));
        assert(b.contains(y));
        assert(b.to_multiset().count(y) > 0);
        assert(a.to_multiset().count(y) > 0);
        assert(a.contains(y));
        let i = choose|i: int| 0 <= i < b.len() && b[i] == x;
        let j = choose|j: int| 0 <= j < a.len() && a[j] == y;
        assert(targets(a)[j] == y.target@);
        assert(targets(a)[n - 1] == x.target@);
        assert(targets(b)[i] == x.target@);
        assert(targets(b)[n - 1] == y.target@);
        if j < n - 1 {
            assert(lex_le(targets(a)[j], targets(a)[n - 1]));
        } else {
            lemma_lex_reflexive(x.target@);
        }
        if i < n - 1 {
            assert(lex_le(targets(b)[i], targets(b)[n - 1]));
        } else {
            lemma_lex_reflexive(y.target@);
        }
        lemma_lex_antisymmetric(x.target@, y.target@);
        assert(i == n - 1);
        assert(x == y);
        let a0 = a.drop_last();
        let b0 = b.drop_last();
        assert(a0.push(x) =~= a);
        assert(b0.push(x) =~= b);
        assert(a0.to_multiset() =~= b0.to_multiset()) by {
            assert(a0.push(x).to_multiset() =~= a0.to_multiset().insert(x));
            assert(b0.push(x).to_multiset() =~= b0.to_multiset().insert(x));
            assert forall|v: DeploymentFile| a0.to_multiset().count(v) == b0.to_multiset().count(v) by {
                assert(a0.to_multiset().insert(x).count(v) == b0.to_multiset().insert(x).count(v));
            }
        }
        assert forall|p: int, q: int| 0 <= p < q < a0.len() implies lex_le(
            #[trigger] targets(a0)[p],
            #[trigger] targets(a0)[q],
        ) by {
            assert(targets(a0)[p] == targets(a)[p]);
            assert(targets(a0)[q] == targets(a)[q]);
        }
        assert forall|p: int, q: int| 0 <= p < q < b0.len() implies lex_le(
            #[trigger] targets(b0)[p],
            #[trigger] targets(b0)[q],
        ) by {
            assert(targets(b0)[p] == targets(b)[p]);
            assert(targets(b0)[q] == targets(b)[q]);
        }
        assert forall|p: int, q: int|
            0 <= p < a0.len() && 0 <= q < a0.len() && p != q implies (#[trigger] a0[p]).target@ != (
            #[trigger] a0[q]).target@ by {
            assert(a0[p] == a[p] && a0[q] == a[q]);
        }
        assert forall|p: int, q: int|
            0 <= p < b0.len() && 0 <= q < b0.len() && p != q implies (#[trigger] b0[p]).target@ != (
            #[trigger] b0[q]).target@ by {
            assert(b0[p] == b[p] && b0[q] == b[q]);
        }
        lemma_sorted_unique(a0, b0);
    }
}

/// The files of a deployment come out in one order, whatever order they were
/// found in: two lists of the same files, each sorted by target with no
/// target twice, are the same list, and so give the same content digest.
pub proof fn lemma_file_order_is_canonical(
    a: Seq<DeploymentFile>,
    b: Seq<DeploymentFile>,
    destination: Seq<char>,
    packages: Seq<LockedAptPackage>,
    scripts: Seq<DeploymentScript>,
)
    requires
        sorted_chars(targets(a)),
        sorted_chars(targets(b)),
        distinct_targets(a),
        distinct_targets(b),
        a.to_multiset() == b.to_multiset(),
    ensures
        a == b,
        digest_text(destination, packages, a, scripts) == digest_text(destination, packages, b, scripts),
{
    lemma_sorted_unique(a, b);
}

impl DeploymentBuilder {
    /// Completes the deployment: the files sorted by target, and the content
    /// digest over the SSH destination, the sorted files and the scripts.
    pub fn finish(self, name: String, directory: String, apt_packages: Vec<LockedAptPackage>) -> (d:
        Deployment)
        requires
            self.wf(),
        ensures
            d.name == name,
            d.directory == directory,
            d.apt_packages == apt_packages,
            d.config == self.spec_config(),
            d.scripts@ == self.spec_scripts(),
            d.files@.to_multiset() == self.spec_files().to_multiset(),
            sorted_chars(targets(d.files@)),
            distinct_targets(d.files@),
            d.digest@ == digest_text(
                self.spec_config().ssh.destination@,
                apt_packages@,
                d.files@,
                d.scripts@,
            ),
    {
        let files = sort_by_target(self.files);
        let digest = deployment_digest(
            self.config.ssh.destination.as_str(),
            apt_packages.as_slice(),
            files.as_slice(),
            self.scripts.as_slice(),
        );
        Deployment {
            name,
            config: self.config,
            files,
            scripts: self.scripts,
            digest,
            directory,
            apt_packages,
        }
    }
}

} // verus!
