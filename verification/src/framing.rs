//! The digest input is unambiguous: every field carries its length, so the
//! bytes that the digest reads tell deployments apart.
use vstd::prelude::*;
use vstd::utf8::encode_utf8;

use crate::repository::{
    be_u32, be_u64, digest_input, digest_text, file_record, file_records, flag_byte, framed, package_record,
    package_records, script_record, script_records, DeploymentFile, DeploymentScript, LockedAptPackage,
    DIGEST_TAG,
};
use crate::external::{hex_lower, sha256};

verus! {

/// What the digest reads of a package, as plain values.
pub open spec fn package_key(p: LockedAptPackage) -> (Seq<char>, Seq<char>) {
    (p.name@, p.version@)
}

/// What the digest reads of a file, as plain values.
pub open spec fn file_key(f: DeploymentFile) -> (Seq<char>, Seq<char>, bool, u32, Seq<u8>) {
    (f.source@, f.target@, f.privileged, f.mode, f.contents@)
}

/// What the digest reads of a script, as plain values.
pub open spec fn script_key(s: DeploymentScript) -> (Seq<char>, bool, u64, Seq<u8>) {
    (s.source@, s.privileged, s.timeout_seconds, s.contents@)
}

/// Whether a field's length can be written in the eight bytes that frame it,
/// as every field held in memory can.
pub open spec fn fits(v: Seq<u8>) -> bool {
    v.len() <= u64::MAX
}

/// Whether every field of a deployment fits its frame.
pub open spec fn fields_fit(
    destination: Seq<char>,
    packages: Seq<LockedAptPackage>,
    files: Seq<DeploymentFile>,
    scripts: Seq<DeploymentScript>,
) -> bool {
    &&& fits(encode_utf8(destination))
    &&& forall|i: int|
        0 <= i < packages.len() ==> fits(encode_utf8((#[trigger] packages[i]).name@)) && fits(
            encode_utf8(packages[i].version@),
        )
    &&& forall|i: int|
        0 <= i < files.len() ==> fits(encode_utf8((#[trigger] files[i]).source@)) && fits(
            encode_utf8(files[i].target@),
        ) && fits(files[i].contents@)
    &&& forall|i: int|
        0 <= i < scripts.len() ==> fits(encode_utf8((#[trigger] scripts[i]).source@)) && fits(
            scripts[i].contents@,
        )
}

proof fn lemma_be_u64_injective(a: u64, b: u64)
    requires
        be_u64(a) == be_u64(b),
    ensures
        a == b,
{
    let x = be_u64(a);
    let y = be_u64(b);
    assert(x[0] == y[0] && x[1] == y[1] && x[2] == y[2] && x[3] == y[3]);
    assert(x[4] == y[4] && x[5] == y[5] && x[6] == y[6] && x[7] == y[7]);
    assert(a == b) by (bit_vector)
        requires
            (a >> 56u64) as u8 == (b >> 56u64) as u8,
            (a >> 48u64) as u8 == (b >> 48u64) as u8,
            (a >> 40u64) as u8 == (b >> 40u64) as u8,
            (a >> 32u64) as u8 == (b >> 32u64) as u8,
            (a >> 24u64) as u8 == (b >> 24u64) as u8,
            (a >> 16u64) as u8 == (b >> 16u64) as u8,
            (a >> 8u64) as u8 == (b >> 8u64) as u8,
            a as u8 == b as u8,
    ;
}

proof fn lemma_be_u32_injective(a: u32, b: u32)
    requires
        be_u32(a) == be_u32(b),
    ensures
        a == b,
{
    let x = be_u32(a);
    let y = be_u32(b);
    assert(x[0] == y[0] && x[1] == y[1] && x[2] == y[2] && x[3] == y[3]);
    assert(a == b) by (bit_vector)
        requires
            (a >> 24u32) as u8 == (b >> 24u32) as u8,
            (a >> 16u32) as u8 == (b >> 16u32) as u8,
            (a >> 8u32) as u8 == (b >> 8u32) as u8,
            a as u8 == b as u8,
    ;
}

/// Two texts with the same UTF-8 encoding are the same text.
proof fn lemma_encode_injective(a: Seq<char>, b: Seq<char>)
    requires
        encode_utf8(a) == encode_utf8(b),
    ensures
        a == b,
{
    vstd::utf8::encode_utf8_decode_utf8(a);
    vstd::utf8::encode_utf8_decode_utf8(b);
}

/// A framed field is read back whole, and what follows it too.
proof fn lemma_framed_split(x: Seq<u8>, r1: Seq<u8>, y: Seq<u8>, r2: Seq<u8>)
    requires
        framed(x) + r1 == framed(y) + r2,
        fits(x),
        fits(y),
    ensures
        x == y,
        r1 == r2,
{
    let s1 = framed(x) + r1;
    let s2 = framed(y) + r2;
    assert(s1.take(8) =~= be_u64(x.len() as u64));
    assert(s2.take(8) =~= be_u64(y.len() as u64));
    lemma_be_u64_injective(x.len() as u64, y.len() as u64);
    assert(x.len() == y.len());
    let n = x.len() as int;
    assert(s1.subrange(8, 8 + n) =~= x);
    assert(s2.subrange(8, 8 + n) =~= y);
    assert(s1.skip(8 + n) =~= r1);
    assert(s2.skip(8 + n) =~= r2);
}

/// A fixed-size piece is read back, and what follows it too.
proof fn lemma_fixed_split(x: Seq<u8>, r1: Seq<u8>, y: Seq<u8>, r2: Seq<u8>)
    requires
        x + r1 == y + r2,
        x.len() == y.len(),
    ensures
        x == y,
        r1 == r2,
{
    assert((x + r1).take(x.len() as int) =~= x);
    assert((y + r2).take(y.len() as int) =~= y);
    assert((x + r1).skip(x.len() as int) =~= r1);
    assert((y + r2).skip(y.len() as int) =~= r2);
}

proof fn lemma_package_split(a: LockedAptPackage, r1: Seq<u8>, b: LockedAptPackage, r2: Seq<u8>)
    requires
        package_record(a) + r1 == package_record(b) + r2,
        fits(encode_utf8(a.name@)) && fits(encode_utf8(a.version@)),
        fits(encode_utf8(b.name@)) && fits(encode_utf8(b.version@)),
    ensures
        package_key(a) == package_key(b),
        r1 == r2,
{
    let (an, av) = (encode_utf8(a.name@), encode_utf8(a.version@));
    let (bn, bv) = (encode_utf8(b.name@), encode_utf8(b.version@));
    assert(package_record(a) + r1 =~= framed(an) + (framed(av) + r1));
    assert(package_record(b) + r2 =~= framed(bn) + (framed(bv) + r2));
    lemma_framed_split(an, framed(av) + r1, bn, framed(bv) + r2);
    lemma_framed_split(av, r1, bv, r2);
    lemma_encode_injective(a.name@, b.name@);
    lemma_encode_injective(a.version@, b.version@);
}

proof fn lemma_file_split(a: DeploymentFile, r1: Seq<u8>, b: DeploymentFile, r2: Seq<u8>)
    requires
        file_record(a) + r1 == file_record(b) + r2,
        fits(encode_utf8(a.source@)) && fits(encode_utf8(a.target@)) && fits(a.contents@),
        fits(encode_utf8(b.source@)) && fits(encode_utf8(b.target@)) && fits(b.contents@),
    ensures
        file_key(a) == file_key(b),
        r1 == r2,
{
    let (asrc, atgt) = (encode_utf8(a.source@), encode_utf8(a.target@));
    let (bsrc, btgt) = (encode_utf8(b.source@), encode_utf8(b.target@));
    let at = be_u32(a.mode) + (framed(a.contents@) + r1);
    let bt = be_u32(b.mode) + (framed(b.contents@) + r2);
    assert(file_record(a) + r1 =~= framed(asrc) + (framed(atgt) + (seq![flag_byte(a.privileged)] + at)));
    assert(file_record(b) + r2 =~= framed(bsrc) + (framed(btgt) + (seq![flag_byte(b.privileged)] + bt)));
    lemma_framed_split(asrc, framed(atgt) + (seq![flag_byte(a.privileged)] + at), bsrc, framed(btgt) + (
    seq![flag_byte(b.privileged)] + bt));
    lemma_framed_split(atgt, seq![flag_byte(a.privileged)] + at, btgt, seq![flag_byte(b.privileged)] + bt);
    lemma_fixed_split(seq![flag_byte(a.privileged)], at, seq![flag_byte(b.privileged)], bt);
    assert(seq![flag_byte(a.privileged)][0] == seq![flag_byte(b.privileged)][0]);
    lemma_fixed_split(be_u32(a.mode), framed(a.contents@) + r1, be_u32(b.mode), framed(b.contents@) + r2);
    lemma_be_u32_injective(a.mode, b.mode);
    lemma_framed_split(a.contents@, r1, b.contents@, r2);
    lemma_encode_injective(a.source@, b.source@);
    lemma_encode_injective(a.target@, b.target@);
}

proof fn lemma_script_split(a: DeploymentScript, r1: Seq<u8>, b: DeploymentScript, r2: Seq<u8>)
    requires
        script_record(a) + r1 == script_record(b) + r2,
        fits(encode_utf8(a.source@)) && fits(a.contents@),
        fits(encode_utf8(b.source@)) && fits(b.contents@),
    ensures
        script_key(a) == script_key(b),
        r1 == r2,
{
    let asrc = encode_utf8(a.source@);
    let bsrc = encode_utf8(b.source@);
    let at = be_u64(a.timeout_seconds) + (framed(a.contents@) + r1);
    let bt = be_u64(b.timeout_seconds) + (framed(b.contents@) + r2);
    assert(script_record(a) + r1 =~= framed(asrc) + (seq![flag_byte(a.privileged)] + at));
    assert(script_record(b) + r2 =~= framed(bsrc) + (seq![flag_byte(b.privileged)] + bt));
    lemma_framed_split(asrc, seq![flag_byte(a.privileged)] + at, bsrc, seq![flag_byte(b.privileged)] + bt);
    lemma_fixed_split(seq![flag_byte(a.privileged)], at, seq![flag_byte(b.privileged)], bt);
    assert(seq![flag_byte(a.privileged)][0] == seq![flag_byte(b.privileged)][0]);
    lemma_fixed_split(
        be_u64(a.timeout_seconds),
        framed(a.contents@) + r1,
        be_u64(b.timeout_seconds),
        framed(b.contents@) + r2,
    );
    lemma_be_u64_injective(a.timeout_seconds, b.timeout_seconds);
    lemma_framed_split(a.contents@, r1, b.contents@, r2);
    lemma_encode_injective(a.source@, b.source@);
}

proof fn lemma_package_records_front(ps: Seq<LockedAptPackage>)
    requires
        ps.len() > 0,
    ensures
        package_records(ps) == package_record(ps[0]) + package_records(ps.skip(1)),
    decreases ps.len(),
{
    if ps.len() == 1 {
        assert(ps.drop_last() =~= Seq::<LockedAptPackage>::empty());
        assert(ps.skip(1) =~= Seq::<LockedAptPackage>::empty());
        assert(package_records(ps) =~= package_record(ps[0]) + package_records(ps.skip(1)));
    } else {
        lemma_package_records_front(ps.drop_last());
        assert(ps.drop_last().skip(1) =~= ps.skip(1).drop_last());
        assert(ps.skip(1).last() == ps.last());
        assert(package_records(ps) =~= package_record(ps[0]) + package_records(ps.skip(1)));
    }
}

proof fn lemma_file_records_front(fs: Seq<DeploymentFile>)
    requires
        fs.len() > 0,
    ensures
        file_records(fs) == file_record(fs[0]) + file_records(fs.skip(1)),
    decreases fs.len(),
{
    if fs.len() == 1 {
        assert(fs.drop_last() =~= Seq::<DeploymentFile>::empty());
        assert(fs.skip(1) =~= Seq::<DeploymentFile>::empty());
        assert(file_records(fs) =~= file_record(fs[0]) + file_records(fs.skip(1)));
    } else {
        lemma_file_records_front(fs.drop_last());
        assert(fs.drop_last().skip(1) =~= fs.skip(1).drop_last());
        assert(fs.skip(1).last() == fs.last());
        assert(file_records(fs) =~= file_record(fs[0]) + file_records(fs.skip(1)));
    }
}

proof fn lemma_script_records_front(ss: Seq<DeploymentScript>)
    requires
        ss.len() > 0,
    ensures
        script_records(ss) == script_record(ss[0]) + script_records(ss.skip(1)),
    decreases ss.len(),
{
    if ss.len() == 1 {
        assert(ss.drop_last() =~= Seq::<DeploymentScript>::empty());
        assert(ss.skip(1) =~= Seq::<DeploymentScript>::empty());
        assert(script_records(ss) =~= script_record(ss[0]) + script_records(ss.skip(1)));
    } else {
        lemma_script_records_front(ss.drop_last());
        assert(ss.drop_last().skip(1) =~= ss.skip(1).drop_last());
        assert(ss.skip(1).last() == ss.last());
        assert(script_records(ss) =~= script_record(ss[0]) + script_records(ss.skip(1)));
    }
}

proof fn lemma_packages_split(p1: Seq<LockedAptPackage>, r1: Seq<u8>, p2: Seq<LockedAptPackage>, r2: Seq<u8>)
    requires
        package_records(p1) + r1 == package_records(p2) + r2,
        p1.len() == p2.len(),
        forall|i: int|
            0 <= i < p1.len() ==> fits(encode_utf8((#[trigger] p1[i]).name@)) && fits(
                encode_utf8(p1[i].version@),
            ),
        forall|i: int|
            0 <= i < p2.len() ==> fits(encode_utf8((#[trigger] p2[i]).name@)) && fits(
                encode_utf8(p2[i].version@),
            ),
    ensures
        forall|i: int| 0 <= i < p1.len() ==> package_key(#[trigger] p1[i]) == package_key(p2[i]),
        r1 == r2,
    decreases p1.len(),
{
    if p1.len() == 0 {
        assert(package_records(p1) + r1 =~= r1);
        assert(package_records(p2) + r2 =~= r2);
    } else {
        lemma_package_records_front(p1);
        lemma_package_records_front(p2);
        let t1 = package_records(p1.skip(1)) + r1;
        let t2 = package_records(p2.skip(1)) + r2;
        assert(package_records(p1) + r1 =~= package_record(p1[0]) + t1);
        assert(package_records(p2) + r2 =~= package_record(p2[0]) + t2);
        lemma_package_split(p1[0], t1, p2[0], t2);
        lemma_packages_split(p1.skip(1), r1, p2.skip(1), r2);
        assert forall|i: int| 0 <= i < p1.len() implies package_key(#[trigger] p1[i]) == package_key(p2[i]) by {
            if i > 0 {
                assert(p1.skip(1)[i - 1] == p1[i]);
                assert(p2.skip(1)[i - 1] == p2[i]);
            }
        }
    }
}

proof fn lemma_files_split(f1: Seq<DeploymentFile>, r1: Seq<u8>, f2: Seq<DeploymentFile>, r2: Seq<u8>)
    requires
        file_records(f1) + r1 == file_records(f2) + r2,
        f1.len() == f2.len(),
        forall|i: int|
            0 <= i < f1.len() ==> fits(encode_utf8((#[trigger] f1[i]).source@)) && fits(
                encode_utf8(f1[i].target@),
            ) && fits(f1[i].contents@),
        forall|i: int|
            0 <= i < f2.len() ==> fits(encode_utf8((#[trigger] f2[i]).source@)) && fits(
                encode_utf8(f2[i].target@),
            ) && fits(f2[i].contents@),
    ensures
        forall|i: int| 0 <= i < f1.len() ==> file_key(#[trigger] f1[i]) == file_key(f2[i]),
        r1 == r2,
    decreases f1.len(),
{
    if f1.len() == 0 {
        assert(file_records(f1) + r1 =~= r1);
        assert(file_records(f2) + r2 =~= r2);
    } else {
        lemma_file_records_front(f1);
        lemma_file_records_front(f2);
        let t1 = file_records(f1.skip(1)) + r1;
        let t2 = file_records(f2.skip(1)) + r2;
        assert(file_records(f1) + r1 =~= file_record(f1[0]) + t1);
        assert(file_records(f2) + r2 =~= file_record(f2[0]) + t2);
        lemma_file_split(f1[0], t1, f2[0], t2);
        lemma_files_split(f1.skip(1), r1, f2.skip(1), r2);
        assert forall|i: int| 0 <= i < f1.len() implies file_key(#[trigger] f1[i]) == file_key(f2[i]) by {
            if i > 0 {
                assert(f1.skip(1)[i - 1] == f1[i]);
                assert(f2.skip(1)[i - 1] == f2[i]);
            }
        }
    }
}

proof fn lemma_scripts_split(s1: Seq<DeploymentScript>, s2: Seq<DeploymentScript>)
    requires
        script_records(s1) == script_records(s2),
        forall|i: int|
            0 <= i < s1.len() ==> fits(encode_utf8((#[trigger] s1[i]).source@)) && fits(s1[i].contents@),
        forall|i: int|
            0 <= i < s2.len() ==> fits(encode_utf8((#[trigger] s2[i]).source@)) && fits(s2[i].contents@),
    ensures
        s1.len() == s2.len(),
        forall|i: int| 0 <= i < s1.len() ==> script_key(#[trigger] s1[i]) == script_key(s2[i]),
    decreases s1.len() + s2.len(),
{
    if s1.len() == 0 || s2.len() == 0 {
        if s1.len() > 0 {
            lemma_script_records_front(s1);
            assert(script_records(s1).len() >= 8);
        }
        if s2.len() > 0 {
            lemma_script_records_front(s2);
            assert(script_records(s2).len() >= 8);
        }
    } else {
        lemma_script_records_front(s1);
        lemma_script_records_front(s2);
        lemma_script_split(s1[0], script_records(s1.skip(1)), s2[0], script_records(s2.skip(1)));
        lemma_scripts_split(s1.skip(1), s2.skip(1));
        assert forall|i: int| 0 <= i < s1.len() implies script_key(#[trigger] s1[i]) == script_key(s2[i]) by {
            if i > 0 {
                assert(s1.skip(1)[i - 1] == s1[i]);
                assert(s2.skip(1)[i - 1] == s2[i]);
            }
        }
    }
}

proof fn lemma_regroup(a: Seq<u8>, b: Seq<u8>, c: Seq<u8>, d: Seq<u8>, e: Seq<u8>)
    ensures
        a + b + c + d + e == a + (b + (c + (d + e))),
{
    assert(a + b + c + d + e =~= a + (b + (c + (d + e))));
}

/// The digest input tells deployments apart: two deployments with as many
/// locked packages and as many files whose digest inputs agree have the same
/// destination, packages, files and scripts, field by field.
pub proof fn lemma_digest_input_unambiguous(
    d1: Seq<char>,
    p1: Seq<LockedAptPackage>,
    f1: Seq<DeploymentFile>,
    s1: Seq<DeploymentScript>,
    d2: Seq<char>,
    p2: Seq<LockedAptPackage>,
    f2: Seq<DeploymentFile>,
    s2: Seq<DeploymentScript>,
)
    requires
        fields_fit(d1, p1, f1, s1),
        fields_fit(d2, p2, f2, s2),
        p1.len() == p2.len(),
        f1.len() == f2.len(),
        digest_input(d1, p1, f1, s1) == digest_input(d2, p2, f2, s2),
    ensures
        d1 == d2,
        forall|i: int| 0 <= i < p1.len() ==> package_key(#[trigger] p1[i]) == package_key(p2[i]),
        forall|i: int| 0 <= i < f1.len() ==> file_key(#[trigger] f1[i]) == file_key(f2[i]),
        s1.len() == s2.len(),
        forall|i: int| 0 <= i < s1.len() ==> script_key(#[trigger] s1[i]) == script_key(s2[i]),
{
    let tag = encode_utf8(DIGEST_TAG@);
    let e1 = encode_utf8(d1);
    let e2 = encode_utf8(d2);
    let a1 = file_records(f1) + script_records(s1);
    let a2 = file_records(f2) + script_records(s2);
    let b1 = package_records(p1) + a1;
    let b2 = package_records(p2) + a2;
    lemma_regroup(tag, framed(e1), package_records(p1), file_records(f1), script_records(s1));
    lemma_regroup(tag, framed(e2), package_records(p2), file_records(f2), script_records(s2));
    assert(digest_input(d1, p1, f1, s1) == tag + (framed(e1) + b1));
    assert(digest_input(d2, p2, f2, s2) == tag + (framed(e2) + b2));
    lemma_fixed_split(tag, framed(e1) + b1, tag, framed(e2) + b2);
    lemma_framed_split(e1, b1, e2, b2);
    lemma_encode_injective(d1, d2);
    lemma_packages_split(p1, a1, p2, a2);
    lemma_files_split(f1, script_records(s1), f2, script_records(s2));
    lemma_scripts_split(s1, s2);
}

/// The content digest covers the scripts: it is the SHA-256, in lower-case
/// hex, of the whole digest input, and with the same destination, packages
/// and files, two script lists that differ in some script's path, privilege,
/// timeout or contents give different digest inputs.
pub proof fn lemma_digest_covers_scripts(
    d: Seq<char>,
    p: Seq<LockedAptPackage>,
    f: Seq<DeploymentFile>,
    s1: Seq<DeploymentScript>,
    s2: Seq<DeploymentScript>,
    i: int,
)
    requires
        fields_fit(d, p, f, s1),
        fields_fit(d, p, f, s2),
        s1.len() == s2.len(),
        0 <= i < s1.len(),
        script_key(s1[i]) != script_key(s2[i]),
    ensures
        digest_input(d, p, f, s1) != digest_input(d, p, f, s2),
        digest_text(d, p, f, s1) == hex_lower(sha256(digest_input(d, p, f, s1))),
        digest_text(d, p, f, s2) == hex_lower(sha256(digest_input(d, p, f, s2))),
{
    if digest_input(d, p, f, s1) == digest_input(d, p, f, s2) {
        lemma_digest_input_unambiguous(d, p, f, s1, d, p, f, s2);
        assert(script_key(s1[i]) == script_key(s2[i]));
    }
}

} // verus!
