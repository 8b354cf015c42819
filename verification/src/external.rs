//! Calls into code that is not verified here: the standard library where vstd
//! gives it no specification, and the outside crates.
use vstd::prelude::*;
use vstd::utf8::{decode_utf8, valid_utf8};

verus! {

/// `std::str::from_utf8`: the bytes read as UTF-8 text, when they are valid
/// UTF-8. Its documentation promises exactly this; the text is the decoding.
#[verifier::external_body]
pub(crate) fn utf8_text(bytes: &[u8]) -> (r: Option<&str>)
    ensures
        r is Some <==> valid_utf8(bytes@),
        r matches Some(s) ==> s@ == decode_utf8(bytes@),
{
    std::str::from_utf8(bytes).ok()
}

} // verus!

verus! {

/// The text that `String::from_utf8_lossy` makes of `bytes`.
pub uninterp spec fn lossy_text(bytes: Seq<u8>) -> Seq<char>;

/// `String::from_utf8_lossy`: the bytes as text, each invalid sequence replaced
/// by U+FFFD. Its documentation promises that valid UTF-8 comes back decoded
/// unchanged; the replacement rules for invalid input are left to the name.
#[verifier::external_body]
pub(crate) fn lossy_utf8(bytes: &[u8]) -> (s: String)
    ensures
        s@ == lossy_text(bytes@),
        valid_utf8(bytes@) ==> s@ == decode_utf8(bytes@),
{
    String::from_utf8_lossy(bytes).into_owned()
}

} // verus!

verus! {

/// The SHA-256 digest of `data`.
pub uninterp spec fn sha256(data: Seq<u8>) -> Seq<u8>;

/// `sha2::Sha256::digest`: the SHA-256 digest of `data`, 32 bytes long (the
/// crate fixes the output size of `Sha256` at 32 bytes).
#[verifier::external_body]
pub(crate) fn sha256_digest(data: &[u8]) -> (d: Vec<u8>)
    ensures
        d@ == sha256(data@),
        d@.len() == 32,
{
    <sha2::Sha256 as sha2::Digest>::digest(data).to_vec()
}

/// Two lower-case hexadecimal digits for each byte, high nibble first.
pub open spec fn hex_lower(data: Seq<u8>) -> Seq<char>
    decreases data.len(),
{
    if data.len() == 0 {
        Seq::<char>::empty()
    } else {
        hex_lower(data.drop_last()) + seq![
            crate::text::digit_char((data.last() / 16) as nat),
            crate::text::digit_char((data.last() % 16) as nat),
        ]
    }
}

/// `hex::encode`: each byte as two lower-case hexadecimal digits, high nibble
/// first, in order (the crate maps the nibbles through `0123456789abcdef`).
#[verifier::external_body]
pub(crate) fn hex_encode(data: &[u8]) -> (s: String)
    ensures
        s@ == hex_lower(data@),
{
    hex::encode(data)
}

} // verus!

verus! {

/// The line diff that `similar` computes from `old` to `new`: each change as
/// its sign (`-` deleted, `+` inserted, ` ` kept) and the line's text, line
/// ending included.
pub uninterp spec fn line_diff(old: Seq<char>, new: Seq<char>) -> Seq<(char, Seq<char>)>;

/// The views of a list of signed lines.
pub open spec fn signed_views(v: Seq<(char, String)>) -> Seq<(char, Seq<char>)> {
    Seq::new(v.len(), |i: int| (v[i].0, v[i].1@))
}

/// `similar::TextDiff::from_lines(old, new).iter_all_changes()`, each change
/// mapped to its sign and its text. The crate's default configuration has no
/// deadline, so the result depends on the two texts alone; which lines it pairs
/// up is left to the name.
#[verifier::external_body]
pub(crate) fn line_changes(old: &str, new: &str) -> (r: Vec<(char, String)>)
    ensures
        signed_views(r@) == line_diff(old@, new@),
{
    let diff = similar::TextDiff::from_lines(old, new);
    let mut out = Vec::new();
    for change in diff.iter_all_changes() {
        let sign = match change.tag() {
            similar::ChangeTag::Delete => '-',
            similar::ChangeTag::Insert => '+',
            similar::ChangeTag::Equal => ' ',
        };
        out.push((sign, change.value().to_owned()));
    }
    out
}

} // verus!
