//! The framed binary format for file-metadata snapshots.
//!
//! A snapshot blob is, in order: the four magic bytes `BTLX`, a big-endian
//! `u32` format version (currently 1), a big-endian `u32` entry count, the
//! entries themselves, and a trailing big-endian `u64` CRC-64/ECMA-182
//! checksum over every preceding byte.  Each entry holds the file size
//! (`u64`), the modification time (`u64`), the byte length of the path
//! (`u16`), and the path itself in UTF-8.

use vstd::prelude::*;

verus! {

use vstd::utf8::{valid_utf8, decode_utf8, encode_utf8, encode_utf8_valid_utf8,
    encode_utf8_decode_utf8};
use crate::change::{FileIndexMetadata, RecView, views};
use crate::text::{utf8_to_string, u64_to_string, dec_digits};

/// Why a snapshot blob could not be produced or read back.
#[derive(Debug, Clone, Copy, PartialEq, Eq, Structural)]
pub enum CodecError {
    /// The input is shorter than the fixed header and checksum.
    TooShort,
    /// The input does not start with the magic bytes.
    BadMagic,
    /// The input names a format version other than 1; the variant carries
    /// the version found.
    UnsupportedVersion(u32),
    /// An entry runs past the data region.
    Truncated,
    /// The path bytes of an entry are not valid UTF-8.
    InvalidUtf8,
    /// The trailing checksum does not match the preceding bytes.
    ChecksumMismatch,
    /// A path of more than 65535 bytes cannot be encoded; the variant
    /// carries the offending length.
    PathTooLong(usize),
}

impl CodecError {
    /// A human-readable description of the failure.
    pub fn message(&self) -> (r: String)
        ensures
            r@ == match *self {
                CodecError::TooShort => "Invalid file: too short"@,
                CodecError::BadMagic => "Invalid magic signature"@,
                CodecError::UnsupportedVersion(v) => "Unsupported version: "@ + dec_digits(
                    v as nat,
                ),
                CodecError::Truncated => "Truncated file: insufficient data"@,
                CodecError::InvalidUtf8 => "Invalid UTF-8 in path"@,
                CodecError::ChecksumMismatch => "Checksum mismatch"@,
                CodecError::PathTooLong(l) => "Path too long: "@ + dec_digits(l as nat)
                    + " bytes"@,
            },
    {
        match *self {
            CodecError::TooShort => String::from_str("Invalid file: too short"),
            CodecError::BadMagic => String::from_str("Invalid magic signature"),
            CodecError::UnsupportedVersion(v) => {
                let num = u64_to_string(v as u64);
                String::from_str("Unsupported version: ").concat(num.as_str())
            },
            CodecError::Truncated => String::from_str("Truncated file: insufficient data"),
            CodecError::InvalidUtf8 => String::from_str("Invalid UTF-8 in path"),
            CodecError::ChecksumMismatch => String::from_str("Checksum mismatch"),
            CodecError::PathTooLong(l) => {
                let num = u64_to_string(l as u64);
                String::from_str("Path too long: ").concat(num.as_str()).concat(" bytes")
            },
        }
    }
}

/// 256 to the power `n`: the number of values `n` bytes can hold.
pub open spec fn pow256(n: nat) -> nat
    decreases n,
{
    if n == 0 {
        1
    } else {
        256 * pow256((n - 1) as nat)
    }
}

proof fn lemma_pow256_increases(a: nat, b: nat)
    requires
        a <= b,
    ensures
        pow256(a) <= pow256(b),
        pow256(b) >= 1,
    decreases b,
{
    if b > 0 {
        if a == b {
            lemma_pow256_increases(0, (b - 1) as nat);
        } else {
            lemma_pow256_increases(a, (b - 1) as nat);
        }
    }
}

proof fn lemma_pow256_values()
    ensures
        pow256(2) == 0x1_0000,
        pow256(4) == 0x1_0000_0000,
        pow256(7) == 0x100_0000_0000_0000,
        pow256(8) == 0x1_0000_0000_0000_0000,
{
    assert(pow256(0) == 1);
    assert(pow256(1) == 256);
    assert(pow256(2) == 0x1_0000);
    assert(pow256(3) == 0x100_0000);
    assert(pow256(4) == 0x1_0000_0000);
    assert(pow256(5) == 0x100_0000_0000);
    assert(pow256(6) == 0x1_0000_0000_0000);
    assert(pow256(7) == 0x100_0000_0000_0000);
    assert(pow256(8) == 0x1_0000_0000_0000_0000);
}

/// The `n` least significant bytes of `x`, most significant first.
pub open spec fn be_bytes(x: nat, n: nat) -> Seq<u8>
    decreases n,
{
    if n == 0 {
        Seq::empty()
    } else {
        be_bytes(x / 256, (n - 1) as nat).push((x % 256) as u8)
    }
}

/// The value of a big-endian byte sequence.
pub open spec fn from_be(s: Seq<u8>) -> nat
    decreases s.len(),
{
    if s.len() == 0 {
        0
    } else {
        from_be(s.drop_last()) * 256 + s.last() as nat
    }
}

pub proof fn lemma_be_bytes_len(x: nat, n: nat)
    ensures
        be_bytes(x, n).len() == n,
    decreases n,
{
    if n > 0 {
        lemma_be_bytes_len(x / 256, (n - 1) as nat);
    }
}

pub proof fn lemma_from_be_bound(s: Seq<u8>)
    ensures
        from_be(s) < pow256(s.len()),
    decreases s.len(),
{
    if s.len() > 0 {
        lemma_from_be_bound(s.drop_last());
    }
}

/// Writing `n` bytes and reading them back yields the value, as long as the
/// value fits in `n` bytes.
pub proof fn lemma_from_be_of_be_bytes(x: nat, n: nat)
    requires
        x < pow256(n),
    ensures
        from_be(be_bytes(x, n)) == x,
    decreases n,
{
    if n == 0 {
    } else {
        assert(x / 256 < pow256((n - 1) as nat)) by {
            if x / 256 >= pow256((n - 1) as nat) {
                assert(x >= 256 * pow256((n - 1) as nat)) by (nonlinear_arith)
                    requires
                        x / 256 >= pow256((n - 1) as nat),
                        x >= 0,
                ;
            }
        }
        lemma_from_be_of_be_bytes(x / 256, (n - 1) as nat);
        lemma_be_bytes_len(x / 256, (n - 1) as nat);
        assert(be_bytes(x, n).drop_last() =~= be_bytes(x / 256, (n - 1) as nat));
    }
}

/// Two byte sequences of equal length with the same big-endian value are
/// equal byte for byte.
pub proof fn lemma_from_be_injective(s1: Seq<u8>, s2: Seq<u8>)
    requires
        s1.len() == s2.len(),
        from_be(s1) == from_be(s2),
    ensures
        s1 == s2,
    decreases s1.len(),
{
    if s1.len() > 0 {
        assert(from_be(s1.drop_last()) == from_be(s2.drop_last()) && s1.last() == s2.last()) by {
            assert(from_be(s1.drop_last()) * 256 + s1.last() == from_be(s2.drop_last()) * 256
                + s2.last());
        }
        lemma_from_be_injective(s1.drop_last(), s2.drop_last());
        assert(s1 =~= s1.drop_last().push(s1.last()));
        assert(s2 =~= s2.drop_last().push(s2.last()));
    }
}

/// Appends the `n`-byte big-endian form of `x`.
fn push_be_bytes(out: &mut Vec<u8>, x: u64, n: usize)
    ensures
        final(out)@ == old(out)@ + be_bytes(x as nat, n as nat),
    decreases n,
{
    if n == 0 {
        proof {
            assert(out@ =~= out@ + be_bytes(x as nat, 0));
        }
    } else {
        push_be_bytes(out, x / 256, n - 1);
        out.push((x % 256) as u8);
        proof {
            assert((x % 256) as u8 == ((x as nat) % 256) as u8);
            assert((x / 256) as nat == (x as nat) / 256);
            assert(out@ =~= old(out)@ + be_bytes(x as nat, n as nat));
        }
    }
}

/// Reads the big-endian value of `n` bytes starting at `off`.
fn read_be(bytes: &[u8], off: usize, n: usize) -> (x: u64)
    requires
        off + n <= bytes@.len(),
        n <= 8,
    ensures
        x as nat == from_be(bytes@.subrange(off as int, off + n)),
{
    let slice_len: usize = bytes.len();
    let mut x: u64 = 0;
    let mut i: usize = 0;
    proof {
        assert(slice_len as nat == bytes@.len());
        assert(bytes@.subrange(off as int, off as int) =~= Seq::<u8>::empty());
    }
    while i < n
        invariant
            i <= n,
            n <= 8,
            off + n <= bytes@.len(),
            bytes@.len() <= usize::MAX,
            x as nat == from_be(bytes@.subrange(off as int, off + i)),
        decreases n - i,
    {
        proof {
            let sub = bytes@.subrange(off as int, off + i + 1);
            assert(sub.drop_last() =~= bytes@.subrange(off as int, off + i));
            assert(sub.last() == bytes@[off + i]);
            lemma_from_be_bound(bytes@.subrange(off as int, off + i));
            lemma_pow256_increases(i as nat, 7);
            lemma_pow256_values();
        }
        x = x * 256 + (bytes[off + i] as u64);
        i = i + 1;
    }
    x
}

/// The magic bytes `BTLX` that open every snapshot blob.
pub open spec fn magic_seq() -> Seq<u8> {
    seq![0x42u8, 0x54u8, 0x4cu8, 0x58u8]
}

/// The checksum that `crc64_ecma` computes, as a function of the bytes.
pub uninterp spec fn crc64_ecma_of(bytes: Seq<u8>) -> u64;

/// Relies on `crc::Crc::<u64>::checksum` with the catalog's CRC-64/ECMA-182
/// algorithm: the checksum is a pure function of the bytes.
#[verifier::external_body]
fn crc64_ecma(bytes: &[u8]) -> (r: u64)
    ensures
        r == crc64_ecma_of(bytes@),
{
    crc::Crc::<u64>::new(&crc::CRC_64_ECMA_182).checksum(bytes)
}

/// Whether a record can be encoded: its path takes at most 65535 bytes of
/// UTF-8.
pub open spec fn rec_ok(r: RecView) -> bool {
    encode_utf8(r.path).len() <= 0xffff
}

/// Whether every record of a snapshot can be encoded.
pub open spec fn recs_ok(rs: Seq<RecView>) -> bool {
    forall|i: int| 0 <= i < rs.len() ==> rec_ok(#[trigger] rs[i])
}

/// The index of the first record whose path is too long, or -1 when every
/// record can be encoded.
pub open spec fn first_bad(rs: Seq<RecView>) -> int
    decreases rs.len(),
{
    if rs.len() == 0 {
        -1
    } else if !rec_ok(rs[0]) {
        0
    } else {
        let t = first_bad(rs.drop_first());
        if t == -1 {
            -1
        } else {
            1 + t
        }
    }
}

proof fn lemma_first_bad_at(rs: Seq<RecView>, i: int)
    requires
        0 <= i < rs.len(),
        !rec_ok(rs[i]),
        forall|j: int| 0 <= j < i ==> rec_ok(#[trigger] rs[j]),
    ensures
        first_bad(rs) == i,
    decreases rs.len(),
{
    if i > 0 {
        lemma_first_bad_at(rs.drop_first(), i - 1);
    }
}

proof fn lemma_first_bad_none(rs: Seq<RecView>)
    requires
        recs_ok(rs),
    ensures
        first_bad(rs) == -1,
    decreases rs.len(),
{
    if rs.len() > 0 {
        assert(recs_ok(rs.drop_first()));
        lemma_first_bad_none(rs.drop_first());
    }
}

/// The encoded form of one entry.
pub open spec fn rec_bytes(r: RecView) -> Seq<u8> {
    be_bytes(r.size as nat, 8) + be_bytes(r.modified_time as nat, 8) + be_bytes(
        encode_utf8(r.path).len(),
        2,
    ) + encode_utf8(r.path)
}

/// The encoded entries of a snapshot, in order.
pub open spec fn entries_bytes(rs: Seq<RecView>) -> Seq<u8>
    decreases rs.len(),
{
    if rs.len() == 0 {
        Seq::empty()
    } else {
        entries_bytes(rs.drop_last()) + rec_bytes(rs.last())
    }
}

/// The header: magic bytes, version 1, and the entry count.
pub open spec fn header_bytes(count: nat) -> Seq<u8> {
    magic_seq() + be_bytes(1, 4) + be_bytes(count, 4)
}

/// Every byte of an encoded snapshot that the checksum covers.
pub open spec fn body_bytes(rs: Seq<RecView>) -> Seq<u8> {
    header_bytes(rs.len()) + entries_bytes(rs)
}

/// The encoded form of a snapshot: the body followed by its checksum.
pub open spec fn spec_encode(rs: Seq<RecView>) -> Seq<u8> {
    body_bytes(rs) + be_bytes(crc64_ecma_of(body_bytes(rs)) as nat, 8)
}

/// Encodes a snapshot.  Fails with [`CodecError::PathTooLong`] exactly when
/// some path takes more than 65535 bytes of UTF-8; the error reports the
/// length of the first such path.
pub fn encode(records: &[FileIndexMetadata]) -> (r: Result<Vec<u8>, CodecError>)
    requires
        records@.len() <= 0xffff_ffff,
    ensures
        recs_ok(views(records@)) ==> (r matches Ok(v) && v@ == spec_encode(views(records@))),
        !recs_ok(views(records@)) ==> (r matches Err(e) && e == CodecError::PathTooLong(
            encode_utf8(views(records@)[first_bad(views(records@))].path).len() as usize,
        )),
{
    let ghost rsv = views(records@);
    let mut out: Vec<u8> = Vec::new();
    out.push(0x42u8);  // 'B'
    out.push(0x54u8);  // 'T'
    out.push(0x4cu8);  // 'L'
    out.push(0x58u8);  // 'X'
    push_be_bytes(&mut out, 1u64, 4);
    push_be_bytes(&mut out, records.len() as u64, 4);
    proof {
        assert(out@ =~= header_bytes(rsv.len()));
    }

    let mut i: usize = 0;
    while i < records.len()
        invariant
            i <= records@.len(),
            rsv == views(records@),
            records@.len() <= 0xffff_ffff,
            out@ == header_bytes(rsv.len()) + entries_bytes(rsv.take(i as int)),
            forall|j: int| 0 <= j < i ==> rec_ok(#[trigger] rsv[j]),
        decreases records@.len() - i,
    {
        let ghost prefix = out@;
        push_be_bytes(&mut out, records[i].size, 8);
        push_be_bytes(&mut out, records[i].modified_time, 8);
        let mut pb = records[i].path.as_str().as_bytes_vec();
        if pb.len() > 0xffff {
            proof {
                assert(rsv[i as int] == records@[i as int]@);
                assert(!rec_ok(rsv[i as int]));
                lemma_first_bad_at(rsv, i as int);
                assert(!recs_ok(rsv));
            }
            return Err(CodecError::PathTooLong(pb.len()));
        }
        push_be_bytes(&mut out, pb.len() as u64, 2);
        out.append(&mut pb);
        proof {
            assert(rsv.take(i + 1).drop_last() =~= rsv.take(i as int));
            assert(rsv.take(i + 1).last() == rsv[i as int]);
            assert(out@ =~= prefix + rec_bytes(rsv[i as int]));
            assert(out@ =~= header_bytes(rsv.len()) + entries_bytes(rsv.take(i + 1)));
        }
        i = i + 1;
    }
    proof {
        assert(rsv.take(rsv.len() as int) =~= rsv);
        lemma_first_bad_none(rsv);
    }

    let checksum = crc64_ecma(out.as_slice());
    push_be_bytes(&mut out, checksum, 8);
    proof {
        assert(out@ =~= spec_encode(rsv));
    }
    Ok(out)
}

/// The decoded entries of the region `[off, end)` of `b`, expecting `n`
/// entries; bytes past the last entry are ignored.
pub open spec fn spec_entries(b: Seq<u8>, off: int, end: int, n: nat) -> Result<
    Seq<RecView>,
    CodecError,
>
    decreases n,
{
    if n == 0 {
        Ok(Seq::empty())
    } else if off + 18 > end {
        Err(CodecError::Truncated)
    } else {
        let size = from_be(b.subrange(off, off + 8));
        let mt = from_be(b.subrange(off + 8, off + 16));
        let plen = from_be(b.subrange(off + 16, off + 18)) as int;
        if off + 18 + plen > end {
            Err(CodecError::Truncated)
        } else {
            let pb = b.subrange(off + 18, off + 18 + plen);
            if !valid_utf8(pb) {
                Err(CodecError::InvalidUtf8)
            } else {
                match spec_entries(b, off + 18 + plen, end, (n - 1) as nat) {
                    Err(e) => Err(e),
                    Ok(rest) => Ok(
                        seq![
                            RecView {
                                path: decode_utf8(pb),
                                size: size as u64,
                                modified_time: mt as u64,
                            }
                        ] + rest,
                    ),
                }
            }
        }
    }
}

/// The decoded form of a snapshot blob, with the error a reader of the blob
/// reports: too short, bad magic, unsupported version, checksum mismatch,
/// and then the entries in order.
pub open spec fn spec_decode(b: Seq<u8>) -> Result<Seq<RecView>, CodecError> {
    if b.len() < 20 {
        Err(CodecError::TooShort)
    } else if b.subrange(0, 4) != magic_seq() {
        Err(CodecError::BadMagic)
    } else if from_be(b.subrange(4, 8)) != 1 {
        Err(CodecError::UnsupportedVersion(from_be(b.subrange(4, 8)) as u32))
    } else if from_be(b.subrange(b.len() - 8, b.len() as int)) != crc64_ecma_of(
        b.subrange(0, b.len() - 8),
    ) as nat {
        Err(CodecError::ChecksumMismatch)
    } else {
        spec_entries(b, 12, b.len() - 8, from_be(b.subrange(8, 12)))
    }
}

/// Decodes a snapshot blob, returning exactly what [`spec_decode`] says.
pub fn decode(bytes: &[u8]) -> (r: Result<Vec<FileIndexMetadata>, CodecError>)
    ensures
        match r {
            Ok(recs) => spec_decode(bytes@) == Ok::<Seq<RecView>, CodecError>(views(recs@)),
            Err(e) => spec_decode(bytes@) == Err::<Seq<RecView>, CodecError>(e),
        },
{
    let n = bytes.len();
    if n < 20 {
        return Err(CodecError::TooShort);
    }
    if !(bytes[0] == 0x42 && bytes[1] == 0x54 && bytes[2] == 0x4c && bytes[3] == 0x58) {
        proof {
            assert(bytes@.subrange(0, 4) != magic_seq()) by {
                if bytes@.subrange(0, 4) == magic_seq() {
                    assert(bytes@.subrange(0, 4)[0] == 0x42u8);
                    assert(bytes@.subrange(0, 4)[1] == 0x54u8);
                    assert(bytes@.subrange(0, 4)[2] == 0x4cu8);
                    assert(bytes@.subrange(0, 4)[3] == 0x58u8);
                }
            }
        }
        return Err(CodecError::BadMagic);
    }
    proof {
        assert(bytes@.subrange(0, 4) =~= magic_seq());
    }
    let version = read_be(bytes, 4, 4);
    if version != 1 {
        proof {
            lemma_from_be_bound(bytes@.subrange(4, 8));
            lemma_pow256_values();
        }
        return Err(CodecError::UnsupportedVersion(version as u32));
    }
    let stored = read_be(bytes, n - 8, 8);
    let data = &bytes[0..n - 8];
    let computed = crc64_ecma(data);
    proof {
        assert(data@ =~= bytes@.subrange(0, n - 8));
        lemma_from_be_bound(bytes@.subrange(n - 8, n as int));
        lemma_pow256_values();
    }
    if stored != computed {
        return Err(CodecError::ChecksumMismatch);
    }

    let total = read_be(bytes, 8, 4);
    let end = n - 8;
    let ghost g_total = from_be(bytes@.subrange(8, 12));
    let mut acc: Vec<FileIndexMetadata> = Vec::new();
    let mut off: usize = 12;
    let mut remaining = total;
    proof {
        assert(spec_decode(bytes@) == spec_entries(bytes@, 12, end as int, g_total));
        match spec_entries(bytes@, 12, end as int, g_total) {
            Ok(rest) => {
                assert(views(acc@) + rest =~= rest);
            },
            Err(_) => {},
        }
    }
    while remaining > 0
        invariant
            12 <= off <= end,
            end == bytes@.len() - 8,
            bytes@.len() >= 20,
            remaining <= g_total,
            spec_decode(bytes@) == spec_entries(bytes@, 12, end as int, g_total),
            spec_entries(bytes@, 12, end as int, g_total) == match spec_entries(
                bytes@,
                off as int,
                end as int,
                remaining as nat,
            ) {
                Ok(rest) => Ok::<Seq<RecView>, CodecError>(views(acc@) + rest),
                Err(e) => Err::<Seq<RecView>, CodecError>(e),
            },
        decreases remaining,
    {
        let ghost m = remaining as nat;
        if end - off < 18 {
            proof {
                assert(spec_entries(bytes@, off as int, end as int, m) == Err::<
                    Seq<RecView>,
                    CodecError,
                >(CodecError::Truncated));
            }
            return Err(CodecError::Truncated);
        }
        let size = read_be(bytes, off, 8);
        let mt = read_be(bytes, off + 8, 8);
        let plen_v = read_be(bytes, off + 16, 2);
        proof {
            lemma_from_be_bound(bytes@.subrange(off + 16, off as int + 18));
            lemma_pow256_values();
        }
        let plen = plen_v as usize;
        if end - off - 18 < plen {
            proof {
                assert(spec_entries(bytes@, off as int, end as int, m) == Err::<
                    Seq<RecView>,
                    CodecError,
                >(CodecError::Truncated));
            }
            return Err(CodecError::Truncated);
        }
        let pb = &bytes[off + 18..off + 18 + plen];
        proof {
            assert(pb@ =~= bytes@.subrange(off as int + 18, off as int + 18 + plen as int));
        }
        match utf8_to_string(pb) {
            None => {
                proof {
                    assert(spec_entries(bytes@, off as int, end as int, m) == Err::<
                        Seq<RecView>,
                        CodecError,
                    >(CodecError::InvalidUtf8));
                }
                return Err(CodecError::InvalidUtf8);
            },
            Some(path) => {
                let ghost old_acc = acc@;
                let ghost rv = RecView { path: decode_utf8(pb@), size: size, modified_time: mt };
                let ghost tail = spec_entries(
                    bytes@,
                    off as int + 18 + plen as int,
                    end as int,
                    (m - 1) as nat,
                );
                acc.push(FileIndexMetadata { path, size, modified_time: mt });
                proof {
                    assert(views(acc@) =~= views(old_acc).push(rv));
                    assert(spec_entries(bytes@, off as int, end as int, m) == match tail {
                        Err(e) => Err::<Seq<RecView>, CodecError>(e),
                        Ok(rest) => Ok::<Seq<RecView>, CodecError>(seq![rv] + rest),
                    });
                    match tail {
                        Ok(rest) => {
                            assert(views(old_acc) + (seq![rv] + rest) =~= views(acc@) + rest);
                        },
                        Err(_) => {},
                    }
                }
                off = off + 18 + plen;
                remaining = remaining - 1;
            },
        }
    }
    proof {
        assert(views(acc@) + Seq::<RecView>::empty() =~= views(acc@));
    }
    Ok(acc)
}

/// `entries_bytes` can also be peeled from the front.
proof fn lemma_entries_front(rs: Seq<RecView>)
    requires
        rs.len() > 0,
    ensures
        entries_bytes(rs) == rec_bytes(rs[0]) + entries_bytes(rs.drop_first()),
    decreases rs.len(),
{
    if rs.len() == 1 {
        assert(rs.drop_last() =~= Seq::<RecView>::empty());
        assert(rs.drop_first() =~= Seq::<RecView>::empty());
        assert(entries_bytes(rs) =~= rec_bytes(rs[0]) + entries_bytes(rs.drop_first()));
    } else {
        lemma_entries_front(rs.drop_last());
        assert(rs.drop_last()[0] == rs[0]);
        assert(rs.drop_last().drop_first() =~= rs.drop_first().drop_last());
        assert(rs.drop_first().last() == rs.last());
        assert(entries_bytes(rs) == entries_bytes(rs.drop_last()) + rec_bytes(rs.last()));
        assert(entries_bytes(rs.drop_first()) == entries_bytes(rs.drop_first().drop_last())
            + rec_bytes(rs.last()));
        assert((rec_bytes(rs[0]) + entries_bytes(rs.drop_first().drop_last())) + rec_bytes(
            rs.last(),
        ) =~= rec_bytes(rs[0]) + entries_bytes(rs.drop_first()));
    }
}

/// The exact layout of an encoded snapshot: its length and what each fixed
/// region holds.
proof fn lemma_spec_encode_shape(rs: Seq<RecView>)
    ensures
        spec_encode(rs).len() == 20 + entries_bytes(rs).len(),
        spec_encode(rs).subrange(0, 4) == magic_seq(),
        spec_encode(rs).subrange(4, 8) == be_bytes(1, 4),
        spec_encode(rs).subrange(8, 12) == be_bytes(rs.len(), 4),
        spec_encode(rs).subrange(0, spec_encode(rs).len() - 8) == body_bytes(rs),
        spec_encode(rs).subrange(spec_encode(rs).len() - 8, spec_encode(rs).len() as int)
            == be_bytes(crc64_ecma_of(body_bytes(rs)) as nat, 8),
        spec_encode(rs).subrange(12, spec_encode(rs).len() - 8) == entries_bytes(rs),
{
    lemma_be_bytes_len(1, 4);
    lemma_be_bytes_len(rs.len(), 4);
    lemma_be_bytes_len(crc64_ecma_of(body_bytes(rs)) as nat, 8);
    let enc = spec_encode(rs);
    assert(enc.len() == 20 + entries_bytes(rs).len());
    assert(enc.subrange(0, 4) =~= magic_seq());
    assert(enc.subrange(4, 8) =~= be_bytes(1, 4));
    assert(enc.subrange(8, 12) =~= be_bytes(rs.len(), 4));
    assert(enc.subrange(0, enc.len() - 8) =~= body_bytes(rs));
    assert(enc.subrange(enc.len() - 8, enc.len() as int) =~= be_bytes(
        crc64_ecma_of(body_bytes(rs)) as nat,
        8,
    ));
    assert(enc.subrange(12, enc.len() - 8) =~= entries_bytes(rs));
}

/// Each entry of a well-formed region parses back to the record it encodes.
proof fn lemma_entries_roundtrip(b: Seq<u8>, off: int, end: int, rs: Seq<RecView>)
    requires
        recs_ok(rs),
        0 <= off,
        off + entries_bytes(rs).len() == end,
        end <= b.len(),
        b.subrange(off, end) == entries_bytes(rs),
    ensures
        spec_entries(b, off, end, rs.len()) == Ok::<Seq<RecView>, CodecError>(rs),
    decreases rs.len(),
{
    if rs.len() == 0 {
        assert(Seq::<RecView>::empty() =~= rs);
    } else {
        lemma_entries_front(rs);
        let r0 = rs[0];
        let rest = rs.drop_first();
        let pb = encode_utf8(r0.path);
        let sz = be_bytes(r0.size as nat, 8);
        let mt = be_bytes(r0.modified_time as nat, 8);
        let pl = be_bytes(pb.len(), 2);
        let t = rec_bytes(r0) + entries_bytes(rest);
        let plen = pb.len() as int;
        lemma_be_bytes_len(r0.size as nat, 8);
        lemma_be_bytes_len(r0.modified_time as nat, 8);
        lemma_be_bytes_len(pb.len(), 2);
        lemma_pow256_values();
        assert(rec_bytes(r0).len() == 18 + plen);
        assert(b.subrange(off, end) == t);
        assert forall|k: int| 0 <= k < t.len() implies #[trigger] t[k] == b[off + k] by {
            assert(b.subrange(off, end)[k] == t[k]);
        }

        assert(b.subrange(off, off + 8) =~= sz) by {
            assert forall|k: int| 0 <= k < 8 implies b.subrange(off, off + 8)[k] == #[trigger]
            sz[k] by {
                assert(t[k] == b[off + k]);
                assert(t[k] == rec_bytes(r0)[k]);
                assert(rec_bytes(r0)[k] == sz[k]);
            }
        }
        assert(b.subrange(off + 8, off + 16) =~= mt) by {
            assert forall|k: int| 0 <= k < 8 implies b.subrange(off + 8, off + 16)[k]
                == #[trigger] mt[k] by {
                assert(t[8 + k] == b[off + 8 + k]);
                assert(t[8 + k] == rec_bytes(r0)[8 + k]);
                assert(rec_bytes(r0)[8 + k] == mt[k]);
            }
        }
        assert(b.subrange(off + 16, off + 18) =~= pl) by {
            assert forall|k: int| 0 <= k < 2 implies b.subrange(off + 16, off + 18)[k]
                == #[trigger] pl[k] by {
                assert(t[16 + k] == b[off + 16 + k]);
                assert(t[16 + k] == rec_bytes(r0)[16 + k]);
                assert(rec_bytes(r0)[16 + k] == pl[k]);
            }
        }
        assert(b.subrange(off + 18, off + 18 + plen) =~= pb) by {
            assert forall|k: int| 0 <= k < plen implies b.subrange(off + 18, off + 18 + plen)[k]
                == #[trigger] pb[k] by {
                assert(t[18 + k] == b[off + 18 + k]);
                assert(t[18 + k] == rec_bytes(r0)[18 + k]);
                assert(rec_bytes(r0)[18 + k] == pb[k]);
            }
        }
        assert(b.subrange(off + 18 + plen, end) =~= entries_bytes(rest)) by {
            assert forall|k: int| 0 <= k < entries_bytes(rest).len() implies b.subrange(
                off + 18 + plen,
                end,
            )[k] == #[trigger] entries_bytes(rest)[k] by {
                assert(t[18 + plen + k] == b[off + 18 + plen + k]);
                assert(t[18 + plen + k] == entries_bytes(rest)[k]);
            }
        }

        lemma_from_be_of_be_bytes(r0.size as nat, 8);
        lemma_from_be_of_be_bytes(r0.modified_time as nat, 8);
        lemma_from_be_of_be_bytes(pb.len(), 2);
        encode_utf8_valid_utf8(r0.path);
        encode_utf8_decode_utf8(r0.path);

        assert(recs_ok(rest)) by {
            assert(forall|i: int| 0 <= i < rest.len() ==> #[trigger] rest[i] == rs[i + 1]);
        }
        lemma_entries_roundtrip(b, off + 18 + plen, end, rest);
        assert(seq![r0] + rest =~= rs);
    }
}

/// Law: decoding an encoded snapshot yields the records back, for any
/// snapshot whose paths fit the format.
pub proof fn lemma_decode_encode(rs: Seq<RecView>)
    requires
        recs_ok(rs),
        rs.len() <= 0xffff_ffff,
    ensures
        spec_decode(spec_encode(rs)) == Ok::<Seq<RecView>, CodecError>(rs),
{
    let enc = spec_encode(rs);
    lemma_spec_encode_shape(rs);
    lemma_pow256_values();
    lemma_from_be_of_be_bytes(1, 4);
    lemma_from_be_of_be_bytes(rs.len(), 4);
    lemma_from_be_of_be_bytes(crc64_ecma_of(body_bytes(rs)) as nat, 8);
    lemma_entries_roundtrip(enc, 12, enc.len() - 8, rs);
}

/// Law: an encoded snapshot is a function of the records alone, so encoding
/// the same records twice gives byte-for-byte identical blobs.
pub proof fn lemma_encode_deterministic(rs: Seq<RecView>, b1: Seq<u8>, b2: Seq<u8>)
    requires
        b1 == spec_encode(rs),
        b2 == spec_encode(rs),
    ensures
        b1 == b2,
{
}

/// Law (the part of corruption detection that does not rest on the
/// checksum's collision behaviour): flipping a single byte of an encoded
/// snapshot within the magic bytes, the version field, or the trailing
/// checksum makes decoding fail with the matching error.  A flip elsewhere
/// changes the bytes the checksum covers, and detection rests on
/// CRC-64/ECMA-182, which this library calls but does not model.
pub proof fn lemma_flip_detected(rs: Seq<RecView>, b2: Seq<u8>, i: int)
    requires
        recs_ok(rs),
        rs.len() <= 0xffff_ffff,
        b2.len() == spec_encode(rs).len(),
        0 <= i < b2.len(),
        b2[i] != spec_encode(rs)[i],
        forall|j: int| 0 <= j < b2.len() && j != i ==> b2[j] == spec_encode(rs)[j],
        i < 8 || b2.len() - 8 <= i,
    ensures
        i < 4 ==> spec_decode(b2) == Err::<Seq<RecView>, CodecError>(CodecError::BadMagic),
        4 <= i < 8 ==> (spec_decode(b2) matches Err(CodecError::UnsupportedVersion(_))),
        b2.len() - 8 <= i ==> spec_decode(b2) == Err::<Seq<RecView>, CodecError>(
            CodecError::ChecksumMismatch,
        ),
{
    let enc = spec_encode(rs);
    lemma_spec_encode_shape(rs);
    lemma_be_bytes_len(1, 4);
    lemma_be_bytes_len(crc64_ecma_of(body_bytes(rs)) as nat, 8);
    lemma_pow256_values();
    if i < 4 {
        assert(b2.subrange(0, 4)[i] != magic_seq()[i]);
    } else if i < 8 {
        assert(b2.subrange(0, 4) =~= magic_seq());
        assert(b2.subrange(4, 8)[i - 4] != be_bytes(1, 4)[i - 4]);
        assert(from_be(b2.subrange(4, 8)) != 1) by {
            lemma_from_be_of_be_bytes(1, 4);
            if from_be(b2.subrange(4, 8)) == 1 {
                lemma_from_be_injective(b2.subrange(4, 8), be_bytes(1, 4));
            }
        }
    } else {
        assert(b2.subrange(0, 4) =~= magic_seq());
        assert(b2.subrange(4, 8) =~= be_bytes(1, 4));
        lemma_from_be_of_be_bytes(1, 4);
        assert(b2.subrange(0, b2.len() - 8) =~= enc.subrange(0, enc.len() - 8));
        let stored = b2.subrange(b2.len() - 8, b2.len() as int);
        let orig = be_bytes(crc64_ecma_of(body_bytes(rs)) as nat, 8);
        assert(stored[i - (b2.len() - 8)] != orig[i - (b2.len() - 8)]);
        assert(from_be(stored) != crc64_ecma_of(body_bytes(rs)) as nat) by {
            lemma_from_be_of_be_bytes(crc64_ecma_of(body_bytes(rs)) as nat, 8);
            if from_be(stored) == crc64_ecma_of(body_bytes(rs)) as nat {
                lemma_from_be_injective(stored, orig);
            }
        }
    }
}

} // verus!
