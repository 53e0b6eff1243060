//! Over-the-air updates: the signed package format, the version check,
//! the stored-deflate gzip container for kernel archives, unpacking the
//! kernel from it, writing it to the boot slot, and the pending flag of
//! the boot control block.
use vstd::prelude::*;
use sha2::Digest;
use crate::bytes::{le16, le32, le16_bytes, le32_bytes, splice};
use crate::text::decimal;
use crate::ramdisk::{RamDisk, RAMDISK_SECTORS};
use crate::inflate::InflateError;
use crate::kernel_loader::{KernelLoadError, TarArchive, TarOutcome, scan, find_member, outcome_detail, build_tar_archive, tar_bytes, member_inputs};
use vstd::string::StringSliceAdditionalSpecFns;

verus! {

/// Version of the running firmware.
pub const FIRMWARE_VERSION: u32 = 5;
/// Size of the package header: magic, version, length, digest, signature.
pub const HEADER_LEN: usize = 80;
/// Address the update server is reached at.
pub const OTA_SERVER_URL: &'static str = "http://10.0.2.2:8080/TEST.OTA";

#[derive(Debug, Clone, Copy, PartialEq, Eq, Structural)]
pub enum OtaError {
    BadMagic,
    BadSignature,
    PayloadTooLarge,
    WriteFailed,
    VersionDowngrade { current: u32, pkg: u32 },
}

/// The text `message` gives for an error.
pub open spec fn ota_error_text(e: OtaError) -> Seq<char> {
    match e {
        OtaError::BadMagic => "некорректная магия OTA-пакета"@,
        OtaError::BadSignature => "неверная подпись OTA-пакета (доверие не подтверждено)"@,
        OtaError::PayloadTooLarge => "payload превышает допустимый размер"@,
        OtaError::WriteFailed => "не удалось записать обновление на диск"@,
        OtaError::VersionDowngrade { current, pkg } => "попытка отката: текущая версия "@ + decimal(
            current as nat,
        ) + " >= версии пакета "@ + decimal(pkg as nat),
    }
}

impl OtaError {
    pub fn message(&self) -> (r: String)
        ensures
            r@ == ota_error_text(*self),
    {
        match self {
            OtaError::BadMagic => crate::text::string_of("некорректная магия OTA-пакета"),
            OtaError::BadSignature => crate::text::string_of("неверная подпись OTA-пакета (доверие не подтверждено)"),
            OtaError::PayloadTooLarge => crate::text::string_of("payload превышает допустимый размер"),
            OtaError::WriteFailed => crate::text::string_of("не удалось записать обновление на диск"),
            OtaError::VersionDowngrade { current, pkg } => {
                let mut s: String = crate::text::string_of("попытка отката: текущая версия ");
                crate::text::push_decimal(&mut s, *current as u64);
                crate::text::push_str(&mut s, " >= версии пакета ");
                crate::text::push_decimal(&mut s, *pkg as u64);
                s
            },
        }
    }
}

/// A package taken apart: version, payload, its digest and its signature.
#[derive(Debug, Clone)]
pub struct OtaPackage {
    pub version: u32,
    pub payload: Vec<u8>,
    pub payload_sha256: [u8; 32],
    pub signature: [u8; 32],
}

/// Name for the SHA-256 digest (FIPS 180-4) of a byte string.
pub uninterp spec fn sha256_digest(data: Seq<u8>) -> Seq<u8>;

/// `sha2::Sha256::digest`: the 32-byte SHA-256 digest of `data`. The
/// digest is a function of `data` alone; its value is not stated here.
#[verifier::external_body]
pub(crate) fn sha256(data: &[u8]) -> (r: [u8; 32])
    ensures
        r@ == sha256_digest(data@),
{
    let d = sha2::Sha256::digest(data);
    let mut out = [0u8; 32];
    out.copy_from_slice(d.as_slice());
    out
}

/// The magic "DEIXOTA1" that opens a package.
pub open spec fn ota_magic() -> Seq<u8> {
    seq![0x44u8, 0x45, 0x49, 0x58, 0x4F, 0x54, 0x41, 0x31]
}

/// The signing key "deix_ota_secret_key_v1" appended before hashing.
pub open spec fn ota_secret() -> Seq<u8> {
    seq![
        0x64u8, 0x65, 0x69, 0x78, 0x5F, 0x6F, 0x74, 0x61, 0x5F, 0x73, 0x65, 0x63, 0x72, 0x65, 0x74,
        0x5F, 0x6B, 0x65, 0x79, 0x5F, 0x76, 0x31,
    ]
}

/// The signature of a payload: SHA-256 of the payload followed by the key.
pub open spec fn signature_of(payload: Seq<u8>) -> Seq<u8> {
    sha256_digest(payload + ota_secret())
}

fn compute_signature(payload: &[u8]) -> (r: [u8; 32])
    ensures
        r@ == signature_of(payload@),
{
    let secret: [u8; 22] = [
        0x64, 0x65, 0x69, 0x78, 0x5F, 0x6F, 0x74, 0x61, 0x5F, 0x73, 0x65, 0x63, 0x72, 0x65, 0x74, 0x5F,
        0x6B, 0x65, 0x79, 0x5F, 0x76, 0x31,
    ];
    assert(secret@ == ota_secret());
    let mut blob: Vec<u8> = Vec::new();
    crate::bytes::extend_from(&mut blob, payload);
    crate::bytes::extend_from(&mut blob, &secret);
    sha256(blob.as_slice())
}

/// The bytes of a package for `version` and `payload`.
pub open spec fn package_bytes(version: u32, payload: Seq<u8>) -> Seq<u8> {
    ota_magic() + le32_bytes(version) + le32_bytes(payload.len() as u32) + sha256_digest(payload)
        + signature_of(payload) + payload
}

/// What parsing a package gives: version, payload, digest and signature,
/// or the error.
pub open spec fn parse_outcome(b: Seq<u8>) -> Result<(u32, Seq<u8>, Seq<u8>, Seq<u8>), OtaError> {
    if b.len() < 80 || b.subrange(0, 8) != ota_magic() {
        Err(OtaError::BadMagic)
    } else if b.len() < 80 + le32(b, 12) {
        Err(OtaError::BadMagic)
    } else {
        let p = b.subrange(80, 80 + le32(b, 12));
        let sha = b.subrange(16, 48);
        let sig = b.subrange(48, 80);
        if signature_of(p) != sig {
            Err(OtaError::BadSignature)
        } else if sha256_digest(p) != sha {
            Err(OtaError::BadSignature)
        } else {
            Ok((le32(b, 8) as u32, p, sha, sig))
        }
    }
}

fn array32(s: &[u8], o: usize) -> (r: [u8; 32])
    requires
        o + 32 <= s@.len(),
    ensures
        r@ == s@.subrange(o as int, o + 32),
{
    let mut a: [u8; 32] = [0u8; 32];
    let _n: usize = s.len();
    let mut i: usize = 0;
    while i < 32
        invariant
            o + 32 <= s@.len(),
            _n == s@.len(),
            i <= 32,
            forall|k: int| 0 <= k < i ==> a@[k] == s@[o + k],
        decreases 32 - i,
    {
        a[i] = s[o + i];
        i = i + 1;
    }
    assert(a@ =~= s@.subrange(o as int, o + 32));
    a
}

impl OtaPackage {
    /// Builds a package: magic, version, payload length, payload digest,
    /// signature, payload.
    pub fn build(version: u32, payload: Vec<u8>) -> (r: Vec<u8>)
        ensures
            r@ == package_bytes(version, payload@),
    {
        let magic: [u8; 8] = [0x44, 0x45, 0x49, 0x58, 0x4F, 0x54, 0x41, 0x31];
        assert(magic@ == ota_magic());
        let mut out: Vec<u8> = Vec::new();
        crate::bytes::extend_from(&mut out, &magic);
        let v: Vec<u8> = crate::bytes::le32_vec(version);
        crate::bytes::extend_from(&mut out, v.as_slice());
        let l: Vec<u8> = crate::bytes::le32_vec(payload.len() as u32);
        crate::bytes::extend_from(&mut out, l.as_slice());
        let sha: [u8; 32] = sha256(payload.as_slice());
        crate::bytes::extend_from(&mut out, &sha);
        let sig: [u8; 32] = compute_signature(payload.as_slice());
        crate::bytes::extend_from(&mut out, &sig);
        crate::bytes::extend_from(&mut out, payload.as_slice());
        out
    }

    /// Takes a package apart and checks its signature and digest.
    pub fn parse(bytes: &[u8]) -> (r: Result<OtaPackage, OtaError>)
        ensures
            match parse_outcome(bytes@) {
                Ok((v, p, sha, sig)) => r matches Ok(pkg) && pkg.version == v && pkg.payload@ == p
                    && pkg.payload_sha256@ == sha && pkg.signature@ == sig,
                Err(e) => r == Err::<OtaPackage, OtaError>(e),
            },
    {
        let magic: [u8; 8] = [0x44, 0x45, 0x49, 0x58, 0x4F, 0x54, 0x41, 0x31];
        assert(magic@ == ota_magic());
        if bytes.len() < HEADER_LEN {
            return Err(OtaError::BadMagic);
        }
        if !crate::bytes::bytes_eq_at(bytes, 0, &magic) {
            return Err(OtaError::BadMagic);
        }
        let version: u32 = crate::bytes::rd_le32(bytes, 8);
        let payload_len: usize = crate::bytes::rd_le32(bytes, 12) as usize;
        let payload_sha256: [u8; 32] = array32(bytes, 16);
        let signature: [u8; 32] = array32(bytes, 48);
        if bytes.len() - HEADER_LEN < payload_len {
            return Err(OtaError::BadMagic);
        }
        let payload: Vec<u8> = crate::bytes::copy_range(bytes, HEADER_LEN, HEADER_LEN + payload_len);
        let expected: [u8; 32] = compute_signature(payload.as_slice());
        if !crate::bytes::bytes_eq_at(&expected, 0, &signature) {
            assert(expected@.subrange(0, 32) =~= expected@);
            return Err(OtaError::BadSignature);
        }
        let sha: [u8; 32] = sha256(payload.as_slice());
        if !crate::bytes::bytes_eq_at(&sha, 0, &payload_sha256) {
            assert(sha@.subrange(0, 32) =~= sha@);
            return Err(OtaError::BadSignature);
        }
        assert(expected@.subrange(0, 32) =~= expected@);
        assert(sha@.subrange(0, 32) =~= sha@);
        Ok(OtaPackage { version, payload, payload_sha256, signature })
    }

    /// The version check before installing: no package older than the
    /// running firmware.
    pub fn verify(&self) -> (r: Result<(), OtaError>)
        ensures
            self.version < FIRMWARE_VERSION ==> r == Err::<(), OtaError>(
                OtaError::VersionDowngrade { current: FIRMWARE_VERSION, pkg: self.version },
            ),
            self.version >= FIRMWARE_VERSION ==> r is Ok,
    {
        if self.version < FIRMWARE_VERSION {
            return Err(OtaError::VersionDowngrade { current: FIRMWARE_VERSION, pkg: self.version });
        }
        Ok(())
    }
}

/// A built package parses back to its version and payload, with the
/// digest and signature it carries.
pub proof fn lemma_parse_build(version: u32, payload: Seq<u8>)
    requires
        payload.len() <= u32::MAX,
        sha256_digest(payload).len() == 32,
        signature_of(payload).len() == 32,
    ensures
        parse_outcome(package_bytes(version, payload)) == Ok::<(u32, Seq<u8>, Seq<u8>, Seq<u8>), OtaError>(
            (version, payload, sha256_digest(payload), signature_of(payload)),
        ),
{
    let b = package_bytes(version, payload);
    let sha = sha256_digest(payload);
    let sig = signature_of(payload);
    let n = payload.len() as u32;
    crate::bytes::lemma_le32_roundtrip(version);
    crate::bytes::lemma_le32_roundtrip(n);
    assert(b.subrange(0, 8) =~= ota_magic());
    assert(b.subrange(8, 12) =~= le32_bytes(version));
    assert(b.subrange(12, 16) =~= le32_bytes(n));
    assert(le32(b, 8) == le32(le32_bytes(version), 0));
    assert(le32(b, 12) == le32(le32_bytes(n), 0));
    assert(b.subrange(16, 48) =~= sha);
    assert(b.subrange(48, 80) =~= sig);
    assert(b.subrange(80, 80 + payload.len() as int) =~= payload);
}


/// The stored DEFLATE blocks holding `payload`: a block of 65535 bytes
/// while more than that remains, then a last block with the rest (which
/// may be empty). Each block is its header byte (last-block bit, type 00),
/// its length, the length's complement and its bytes.
pub open spec fn stored_blocks(payload: Seq<u8>) -> Seq<u8>
    decreases payload.len(),
{
    if payload.len() <= 0xFFFF {
        let len = payload.len() as u16;
        seq![1u8] + le16_bytes(len) + le16_bytes((0xFFFF - len) as u16) + payload
    } else {
        seq![0u8] + le16_bytes(0xFFFFu16) + le16_bytes(0u16) + payload.subrange(0, 0xFFFF) + stored_blocks(
            payload.subrange(0xFFFF, payload.len() as int),
        )
    }
}

/// The gzip header written for a stored container: method 8, no flags,
/// OS 3.
pub open spec fn gzip_stored_header() -> Seq<u8> {
    seq![0x1Fu8, 0x8B, 8, 0, 0, 0, 0, 0, 0, 3]
}

/// A gzip member holding `payload` in stored blocks: the header, the
/// blocks, and a zero trailer.
pub open spec fn gzip_stored_bytes(payload: Seq<u8>) -> Seq<u8> {
    gzip_stored_header() + stored_blocks(payload) + Seq::new(8, |i: int| 0u8)
}

/// Appends one stored block holding `chunk` (at most 65535 bytes).
fn push_stored_block(out: &mut Vec<u8>, chunk: &[u8], last: bool)
    requires
        chunk@.len() <= 0xFFFF,
    ensures
        final(out)@ == old(out)@ + seq![if last { 1u8 } else { 0u8 }] + le16_bytes(chunk@.len() as u16) + le16_bytes(
            (0xFFFF - chunk@.len()) as u16,
        ) + chunk@,
{
    out.push(if last { 1u8 } else { 0u8 });
    let len: u16 = chunk.len() as u16;
    let inv: u16 = !len;
    assert(inv == (0xFFFF - len) as u16) by (bit_vector)
        requires
            inv == !len,
    ;
    let a: Vec<u8> = crate::bytes::le16_vec(len);
    crate::bytes::extend_from(out, a.as_slice());
    let b: Vec<u8> = crate::bytes::le16_vec(inv);
    crate::bytes::extend_from(out, b.as_slice());
    crate::bytes::extend_from(out, chunk);
}

/// Wraps `payload` in a gzip container of stored DEFLATE blocks, which
/// `gunzip` unpacks back to `payload`.
pub fn build_gzip_stored(payload: &[u8]) -> (r: Vec<u8>)
    ensures
        r@ == gzip_stored_bytes(payload@),
{
    let header: [u8; 10] = [0x1F, 0x8B, 8, 0, 0, 0, 0, 0, 0, 3];
    let mut out: Vec<u8> = Vec::new();
    crate::bytes::extend_from(&mut out, &header);
    assert(out@ =~= gzip_stored_header());
    let n: usize = payload.len();
    let mut at: usize = 0;
    assert(payload@.subrange(0, n as int) =~= payload@);
    while n - at > 0xFFFF
        invariant
            n == payload@.len(),
            at <= n,
            out@ + stored_blocks(payload@.subrange(at as int, n as int)) == gzip_stored_header() + stored_blocks(payload@),
        decreases n - at,
    {
        let chunk: Vec<u8> = crate::bytes::copy_range(payload, at, at + 0xFFFF);
        let ghost rest = payload@.subrange(at as int, n as int);
        let ghost o0 = out@;
        push_stored_block(&mut out, chunk.as_slice(), false);
        proof {
            let nxt = payload@.subrange(at + 0xFFFF, n as int);
            assert(rest.subrange(0, 0xFFFF) =~= chunk@);
            assert(rest.subrange(0xFFFF, rest.len() as int) =~= nxt);
            assert((0xFFFF - 0xFFFFint) as u16 == 0u16);
            let blk = seq![0u8] + le16_bytes(0xFFFFu16) + le16_bytes(0u16) + chunk@;
            assert(stored_blocks(rest) == blk + stored_blocks(nxt));
            assert(out@ == o0 + blk);
            assert(out@ + stored_blocks(nxt) =~= o0 + (blk + stored_blocks(nxt)));
        }
        at = at + 0xFFFF;
    }
    let tail: Vec<u8> = crate::bytes::copy_range(payload, at, n);
    proof {
        assert(tail@ =~= payload@.subrange(at as int, n as int));
    }
    push_stored_block(&mut out, tail.as_slice(), true);
    let z: Vec<u8> = crate::bytes::zeros(8);
    crate::bytes::extend_from(&mut out, z.as_slice());
    assert(out@ =~= gzip_stored_bytes(payload@));
    out
}

/// A run of stored blocks made by `stored_blocks` decodes back to its
/// payload, whatever precedes or follows it.
#[verifier::spinoff_prover]
#[verifier::rlimit(30)]
proof fn lemma_stored_blocks_run(pre: Seq<u8>, p: Seq<u8>, post: Seq<u8>)
    ensures
        crate::inflate::stored_run(pre + stored_blocks(p) + post, pre.len() as int) == Some(p),
    decreases p.len(),
{
    let d = pre + stored_blocks(p) + post;
    let k = pre.len() as int;
    let last = p.len() <= 0xFFFF;
    let len: u16 = if last { p.len() as u16 } else { 0xFFFFu16 };
    let hb: u8 = if last { 1u8 } else { 0u8 };
    let blk = seq![hb] + le16_bytes(len) + le16_bytes((0xFFFF - len) as u16) + p.subrange(0, len as int);
    let rest = if last { Seq::<u8>::empty() } else { stored_blocks(p.subrange(0xFFFF, p.len() as int)) };
    assert(p.subrange(0, len as int) + p.subrange(len as int, p.len() as int) =~= p);
    if last {
        assert(p.subrange(0, len as int) =~= p);
        assert(stored_blocks(p) =~= blk + rest);
    } else {
        assert((0xFFFF - 0xFFFFint) as u16 == 0u16);
        assert(stored_blocks(p) =~= blk + rest);
    }
    assert(d =~= pre + blk + (rest + post));
    assert(d[k] == hb);
    assert((k * 8) / 8 == k && (k * 8) % 8 == 0) by (nonlinear_arith);
    assert((k * 8 + 1) / 8 == k && (k * 8 + 1) % 8 == 1) by (nonlinear_arith);
    assert((k * 8 + 2) / 8 == k && (k * 8 + 2) % 8 == 2) by (nonlinear_arith);
    assert(((hb >> 1u8) & 1u8) == 0u8 && ((hb >> 2u8) & 1u8) == 0u8 && ((hb >> 0u8) & 1u8) == hb) by (bit_vector)
        requires
            hb == 0u8 || hb == 1u8,
    ;
    assert(crate::inflate::bit_at(d, k * 8 + 1) == 0);
    assert(crate::inflate::bit_at(d, k * 8 + 2) == 0);
    assert(crate::inflate::bit_at(d, k * 8) == hb as u32);
    reveal_with_fuel(crate::inflate::bits_value, 3);
    vstd::arithmetic::power2::lemma2_to64();
    let p1 = k * 8 + 1;
    assert(crate::inflate::bits_value(d, p1, 0) == 0);
    assert(crate::inflate::bits_value(d, p1, 1) == crate::inflate::bits_value(d, p1, 0) + (crate::inflate::bit_at(d, p1)
        as nat) * vstd::arithmetic::power2::pow2(0));
    assert(crate::inflate::bits_value(d, p1, 2) == crate::inflate::bits_value(d, p1, 1) + (crate::inflate::bit_at(
        d,
        p1 + 1,
    ) as nat) * vstd::arithmetic::power2::pow2(1));
    assert(crate::inflate::bits_value(d, k * 8 + 1, 2) == 0);
    crate::bytes::lemma_le16_roundtrip(len);
    assert(d.subrange(k + 1, k + 3) =~= le16_bytes(len));
    assert(crate::bytes::le16(d, k + 1) == crate::bytes::le16(le16_bytes(len), 0));
    assert(crate::inflate::stored_len(d, k) == len);
    assert(crate::inflate::stored_payload(d, k) =~= p.subrange(0, len as int));
    if !last {
        let q = p.subrange(0xFFFF, p.len() as int);
        lemma_stored_blocks_run(pre + blk, q, post);
        assert(pre + blk + stored_blocks(q) + post =~= d);
        assert(p.subrange(0, len as int) + q =~= p);
    }
}

/// A stored gzip container is one `gunzip` unpacks back to its payload:
/// valid magic, no optional fields, and stored blocks right after the
/// header holding the payload.
pub proof fn lemma_gzip_stored(payload: Seq<u8>)
    ensures
        ({
            let d = gzip_stored_bytes(payload);
            &&& crate::inflate::gzip_magic_ok(d)
            &&& !crate::inflate::gzip_xlen_missing(d)
            &&& crate::inflate::gzip_payload_start(d) == 10
            &&& crate::inflate::stored_run(d, 10) == Some(payload)
        }),
{
    let d = gzip_stored_bytes(payload);
    lemma_stored_blocks_run(gzip_stored_header(), payload, Seq::new(8, |i: int| 0u8));
    assert(d[3] == 0);
    let f: u8 = d[3];
    assert(f & 4 == 0 && f & 8 == 0 && f & 16 == 0 && f & 2 == 0) by (bit_vector)
        requires
            f == 0,
    ;
}

/// Text `{:?}` prints for an inflate error (its messages need no escaping).
pub open spec fn inflate_debug(e: InflateError) -> Seq<char> {
    match e {
        InflateError::Corrupt(m) => "Corrupt(\""@ + m@ + "\")"@,
        InflateError::OutputTooLarge { limit } => "OutputTooLarge { limit: "@ + decimal(limit as nat) + " }"@,
    }
}

pub(crate) fn inflate_debug_text(e: &InflateError) -> (r: String)
    ensures
        r@ == inflate_debug(*e),
{
    match e {
        InflateError::Corrupt(m) => {
            let mut s: String = crate::text::string_of("Corrupt(\"");
            crate::text::push_str(&mut s, m);
            crate::text::push_str(&mut s, "\")");
            s
        },
        InflateError::OutputTooLarge { limit } => {
            let mut s: String = crate::text::string_of("OutputTooLarge { limit: ");
            crate::text::push_decimal(&mut s, *limit as u64);
            crate::text::push_str(&mut s, " }");
            s
        },
    }
}

/// Text `{:?}` prints for `TarHeaderCorrupt` with this detail.
pub open spec fn corrupt_debug(detail: Seq<char>) -> Seq<char> {
    "TarHeaderCorrupt { detail: \""@ + detail + "\" }"@
}

/// Text `{:?}` prints for a loader error whose texts need no escaping.
pub open spec fn load_error_debug(e: KernelLoadError) -> Seq<char> {
    match e {
        KernelLoadError::PartitionUnavailable { reason } => "PartitionUnavailable { reason: \""@ + reason@ + "\" }"@,
        KernelLoadError::ArchiveMissing => "ArchiveMissing"@,
        KernelLoadError::GzipHeaderCorrupt { detail } => "GzipHeaderCorrupt { detail: \""@ + detail@ + "\" }"@,
        KernelLoadError::TarHeaderCorrupt { detail } => corrupt_debug(detail@),
        KernelLoadError::KernelImageNotFound => "KernelImageNotFound"@,
        KernelLoadError::ImageTooSmall { size } => "ImageTooSmall { size: "@ + decimal(size as nat) + " }"@,
        KernelLoadError::ErofsMagicMismatch { found, expected } => "ErofsMagicMismatch { found: "@ + decimal(
            found as nat,
        ) + ", expected: "@ + decimal(expected as nat) + " }"@,
        KernelLoadError::InvalidBlockSize { bits } => "InvalidBlockSize { bits: "@ + decimal(bits as nat) + " }"@,
        KernelLoadError::KernelImageTooLarge { size, limit } => "KernelImageTooLarge { size: "@ + decimal(
            size as nat,
        ) + ", limit: "@ + decimal(limit as nat) + " }"@,
    }
}

fn load_error_debug_text(e: &KernelLoadError) -> (r: String)
    ensures
        r@ == load_error_debug(*e),
{
    match e {
        KernelLoadError::PartitionUnavailable { reason } => {
            let mut s: String = crate::text::string_of("PartitionUnavailable { reason: \"");
            crate::text::push_str(&mut s, reason.as_str());
            crate::text::push_str(&mut s, "\" }");
            s
        },
        KernelLoadError::ArchiveMissing => crate::text::string_of("ArchiveMissing"),
        KernelLoadError::GzipHeaderCorrupt { detail } => {
            let mut s: String = crate::text::string_of("GzipHeaderCorrupt { detail: \"");
            crate::text::push_str(&mut s, detail.as_str());
            crate::text::push_str(&mut s, "\" }");
            s
        },
        KernelLoadError::TarHeaderCorrupt { detail } => {
            let mut s: String = crate::text::string_of("TarHeaderCorrupt { detail: \"");
            crate::text::push_str(&mut s, detail.as_str());
            crate::text::push_str(&mut s, "\" }");
            s
        },
        KernelLoadError::KernelImageNotFound => crate::text::string_of("KernelImageNotFound"),
        KernelLoadError::ImageTooSmall { size } => {
            let mut s: String = crate::text::string_of("ImageTooSmall { size: ");
            crate::text::push_decimal(&mut s, *size as u64);
            crate::text::push_str(&mut s, " }");
            s
        },
        KernelLoadError::ErofsMagicMismatch { found, expected } => {
            let mut s: String = crate::text::string_of("ErofsMagicMismatch { found: ");
            crate::text::push_decimal(&mut s, *found as u64);
            crate::text::push_str(&mut s, ", expected: ");
            crate::text::push_decimal(&mut s, *expected as u64);
            crate::text::push_str(&mut s, " }");
            s
        },
        KernelLoadError::InvalidBlockSize { bits } => {
            let mut s: String = crate::text::string_of("InvalidBlockSize { bits: ");
            crate::text::push_decimal(&mut s, *bits as u64);
            crate::text::push_str(&mut s, " }");
            s
        },
        KernelLoadError::KernelImageTooLarge { size, limit } => {
            let mut s: String = crate::text::string_of("KernelImageTooLarge { size: ");
            crate::text::push_decimal(&mut s, *size as u64);
            crate::text::push_str(&mut s, ", limit: ");
            crate::text::push_decimal(&mut s, *limit as u64);
            crate::text::push_str(&mut s, " }");
            s
        },
    }
}

/// What `kernel_from_tar` gives for an archive: the bytes of its member
/// kernel.bin, or the message of the first failure.
pub open spec fn tar_kernel(t: Seq<u8>) -> Result<Seq<u8>, Seq<char>> {
    match scan(t, 0, Seq::empty()) {
        TarOutcome::Members(ms) => match find_member(ms, "kernel.bin"@, 0) {
            None => Err("kernel.bin: "@ + load_error_debug(KernelLoadError::KernelImageNotFound)),
            Some(i) => {
                let m = ms[i];
                if m.offset + m.size > usize::MAX {
                    Err("kernel.bin: "@ + corrupt_debug("переполнение размера члена"@))
                } else if m.offset + m.size <= t.len() {
                    Ok(t.subrange(m.offset as int, (m.offset + m.size) as int))
                } else {
                    Err("kernel.bin: "@ + corrupt_debug("член '"@ + "kernel.bin"@ + "' выходит за границы архива"@))
                }
            },
        },
        o => Err("tar: "@ + corrupt_debug(outcome_detail(o))),
    }
}

/// The member kernel.bin of an unpacked archive.
pub fn kernel_from_tar(tar: Vec<u8>) -> (r: Result<Vec<u8>, String>)
    ensures
        match tar_kernel(tar@) {
            Ok(k) => r matches Ok(v) && v@ == k,
            Err(m) => r matches Err(e) && e@ == m,
        },
{
    let ghost t = tar@;
    let archive: TarArchive = match TarArchive::parse(tar) {
        Ok(a) => a,
        Err(e) => {
            let mut s: String = crate::text::string_of("tar: ");
            let d: String = load_error_debug_text(&e);
            crate::text::push_str(&mut s, d.as_str());
            return Err(s);
        },
    };
    match archive.extract("kernel.bin") {
        Ok(k) => Ok(k),
        Err(e) => {
            let mut s: String = crate::text::string_of("kernel.bin: ");
            let d: String = load_error_debug_text(&e);
            crate::text::push_str(&mut s, d.as_str());
            Err(s)
        },
    }
}

/// Unpacks kernel.tar.gz: gunzip (up to 16 MiB), then the tar member
/// kernel.bin.
pub fn extract_kernel_bin(targz: &[u8]) -> (r: Result<Vec<u8>, String>)
    requires
        targz@.len() <= usize::MAX - 0x20000,
    ensures
        !crate::inflate::gzip_magic_ok(targz@) ==> (r matches Err(e) && e@ == "gunzip: "@ + inflate_debug(
            InflateError::Corrupt("not gzip/deflate"),
        )),
        ({
            let s = crate::inflate::gzip_payload_start(targz@);
            let t = crate::inflate::stored_run(targz@, s).unwrap();
            crate::inflate::gzip_magic_ok(targz@) && !crate::inflate::gzip_xlen_missing(targz@)
                && crate::inflate::stored_run(targz@, s) is Some && t.len() <= KERNEL_TAR_LIMIT ==> match tar_kernel(
                t,
            ) {
                Ok(k) => r matches Ok(v) && v@ == k,
                Err(m) => r matches Err(e) && e@ == m,
            }
        }),
{
    let tar_bytes: Vec<u8> = match crate::inflate::gunzip(targz, KERNEL_TAR_LIMIT) {
        Ok(t) => t,
        Err(e) => {
            let mut s: String = crate::text::string_of("gunzip: ");
            let d: String = inflate_debug_text(&e);
            crate::text::push_str(&mut s, d.as_str());
            proof {
                reveal_strlit("not gzip/deflate");
            }
            return Err(s);
        },
    };
    kernel_from_tar(tar_bytes)
}

/// Largest archive `extract_kernel_bin` unpacks: 16 MiB.
pub const KERNEL_TAR_LIMIT: usize = 16 * 1024 * 1024;


/// Marker bytes of a stand-in library member: "DEIXLIB1", NUL, its tag, NUL.
pub open spec fn lib_stub(tag: Seq<u8>) -> Seq<u8> {
    seq![0x44u8, 0x45, 0x49, 0x58, 0x4C, 0x49, 0x42, 0x31, 0] + tag + seq![0u8]
}

/// The members of a fresh kernel archive: the kernel and three library stubs.
pub open spec fn fresh_members(kernel: Seq<u8>) -> Seq<(Seq<u8>, Seq<u8>)> {
    seq![
        ("kernel.bin".spec_bytes(), kernel),
        ("libdeix_core.so".spec_bytes(), lib_stub(seq![0x63u8, 0x6F, 0x72, 0x65])),
        ("libdeix_net.so".spec_bytes(), lib_stub(seq![0x6Eu8, 0x65, 0x74])),
        ("libdeix_gfx.so".spec_bytes(), lib_stub(seq![0x67u8, 0x66, 0x78])),
    ]
}

/// A kernel.tar.gz for `kernel`: a tar of the kernel and the library
/// stubs in a stored gzip container.
pub fn build_fresh_kernel_targz(kernel: &[u8]) -> (r: Vec<u8>)
    ensures
        r@ == gzip_stored_bytes(tar_bytes(fresh_members(kernel@))),
{
    let core: [u8; 14] = [0x44, 0x45, 0x49, 0x58, 0x4C, 0x49, 0x42, 0x31, 0, 0x63, 0x6F, 0x72, 0x65, 0];
    let net: [u8; 13] = [0x44, 0x45, 0x49, 0x58, 0x4C, 0x49, 0x42, 0x31, 0, 0x6E, 0x65, 0x74, 0];
    let gfx: [u8; 13] = [0x44, 0x45, 0x49, 0x58, 0x4C, 0x49, 0x42, 0x31, 0, 0x67, 0x66, 0x78, 0];
    assert(core@ =~= lib_stub(seq![0x63u8, 0x6F, 0x72, 0x65]));
    assert(net@ =~= lib_stub(seq![0x6Eu8, 0x65, 0x74]));
    assert(gfx@ =~= lib_stub(seq![0x67u8, 0x66, 0x78]));
    let members: [(&str, &[u8]); 4] = [
        ("kernel.bin", kernel),
        ("libdeix_core.so", &core),
        ("libdeix_net.so", &net),
        ("libdeix_gfx.so", &gfx),
    ];
    assert(member_inputs(members@) =~= fresh_members(kernel@));
    let tar: Vec<u8> = build_tar_archive(&members);
    build_gzip_stored(tar.as_slice())
}

/// Sectors a kernel of `len` bytes takes: at least one.
pub open spec fn kernel_sectors(len: nat) -> nat {
    if len == 0 {
        1
    } else {
        ((len + 511) / 512) as nat
    }
}

/// `k` padded with zeros to `n` bytes.
pub open spec fn zero_padded(k: Seq<u8>, n: nat) -> Seq<u8> {
    Seq::new(n, |i: int| if i < k.len() { k[i] } else { 0u8 })
}

/// First sector of the boot slot the stage-2 loader reads the kernel from.
pub const KERNEL_LBA: u32 = 2;

/// Writes the kernel into the boot slot from sector 2 on, zero-padding the
/// last sector, and returns the number of sectors written. The disk ends
/// at sector `RAMDISK_SECTORS`; a kernel that runs past it fails there.
pub fn flash_kernel_to_lba2(disk: &mut RamDisk, kernel_bin: &[u8]) -> (r: Result<u32, ()>)
    requires
        old(disk).wf(),
    ensures
        final(disk).wf(),
        KERNEL_LBA + kernel_sectors(kernel_bin@.len()) <= RAMDISK_SECTORS ==> (r == Ok::<u32, ()>(
            kernel_sectors(kernel_bin@.len()) as u32,
        ) && final(disk)@ == splice(
            old(disk)@,
            KERNEL_LBA * 512,
            zero_padded(kernel_bin@, kernel_sectors(kernel_bin@.len()) * 512),
        )),
        KERNEL_LBA + kernel_sectors(kernel_bin@.len()) > RAMDISK_SECTORS ==> r is Err,
{
    let n: usize = kernel_bin.len();
    let secs: usize = if n == 0 { 1 } else { n / 512 + if n % 512 != 0 { 1 } else { 0 } };
    assert(secs == kernel_sectors(n as nat));
    let ghost padded = zero_padded(kernel_bin@, (secs * 512) as nat);
    let ghost d0 = disk@;
    assert(splice(d0, 1024, padded.subrange(0, 0)) =~= d0);
    let mut i: usize = 0;
    while i < secs
        invariant
            disk.wf(),
            d0 == old(disk)@,
            d0.len() == crate::ramdisk::RAMDISK_SIZE,
            n == kernel_bin@.len(),
            secs == kernel_sectors(n as nat),
            padded == zero_padded(kernel_bin@, (secs * 512) as nat),
            i <= secs,
            2 + i <= RAMDISK_SECTORS,
            disk@ == splice(d0, 1024, padded.subrange(0, i * 512)),
        decreases secs - i,
    {
        if i >= (RAMDISK_SECTORS - KERNEL_LBA) as usize {
            return Err(());
        }
        assert(i * 512 < n || (n == 0 && i == 0)) by (nonlinear_arith)
            requires
                i < secs,
                secs == (if n == 0 { 1int } else { n / 512 + if n % 512 != 0 { 1int } else { 0int } }),
        ;
        let st: usize = i * 512;
        let take: usize = if n - st < 512 { n - st } else { 512 };
        let mut buf: Vec<u8> = crate::bytes::zeros(512);
        let piece: Vec<u8> = crate::bytes::copy_range(kernel_bin, st, st + take);
        crate::bytes::write_bytes(&mut buf, 0, piece.as_slice());
        assert(buf@ =~= padded.subrange(st as int, st + 512));
        let ghost before = disk@;
        let w = disk.write_sector(KERNEL_LBA + i as u32, buf.as_slice());
        assert(buf@.subrange(0, 512) =~= buf@);
        proof {
            crate::bytes::lemma_splice_append(d0, 1024, padded.subrange(0, i * 512), buf@);
            assert(padded.subrange(0, i * 512) + buf@ =~= padded.subrange(0, (i + 1) * 512));
            assert(before == splice(d0, 1024, padded.subrange(0, i * 512)));
            assert(splice(before, (2 + i) * 512, buf@) =~= splice(splice(d0, 1024, padded.subrange(0, i * 512)), 1024 + i * 512, buf@));
        }
        i = i + 1;
    }
    assert(padded.subrange(0, secs * 512) =~= padded);
    Ok(secs as u32)
}

/// The boot control block's magic "DEIXBCB1".
pub open spec fn bcb_magic() -> Seq<u8> {
    seq![0x44u8, 0x45, 0x49, 0x58, 0x42, 0x43, 0x42, 0x31]
}

/// An update waits for installation: the block carries its magic and a
/// non-zero flag at bytes 16..20.
pub open spec fn pending_in(sector: Seq<u8>) -> bool {
    sector.subrange(0, 8) == bcb_magic() && le32(sector, 16) != 0
}

/// Sets the pending flag of the boot control block held in `sector`,
/// first giving it the magic and a zero slot if it had none.
#[verifier::spinoff_prover]
pub fn mark_ota_pending(sector: &mut Vec<u8>)
    requires
        old(sector)@.len() == 512,
    ensures
        final(sector)@.len() == 512,
        final(sector)@.subrange(0, 8) == bcb_magic(),
        le32(final(sector)@, 16) == 1,
        pending_in(final(sector)@),
        old(sector)@.subrange(0, 8) == bcb_magic() ==> final(sector)@ == splice(old(sector)@, 16, le32_bytes(1)),
        old(sector)@.subrange(0, 8) != bcb_magic() ==> final(sector)@ == splice(
            splice(old(sector)@, 0, bcb_magic() + le32_bytes(0)),
            16,
            le32_bytes(1),
        ),
{
    let magic: [u8; 8] = [0x44, 0x45, 0x49, 0x58, 0x42, 0x43, 0x42, 0x31];
    assert(magic@ == bcb_magic());
    if !crate::bytes::bytes_eq_at(sector.as_slice(), 0, &magic) {
        let ghost s0 = sector@;
        crate::bytes::write_bytes(sector, 0, &magic);
        crate::bytes::put_le32(sector, 8, 0);
        assert(sector@ =~= splice(s0, 0, bcb_magic() + le32_bytes(0)));
    }
    let ghost s1 = sector@;
    crate::bytes::put_le32(sector, 16, 1);
    assert(sector@.subrange(0, 8) =~= s1.subrange(0, 8));
    assert(sector@.subrange(16, 20) =~= le32_bytes(1));
    proof {
        crate::bytes::lemma_le32_roundtrip(1);
    }
    assert(le32(sector@, 16) == le32(le32_bytes(1), 0));
    assert(sector@.subrange(0, 8) == bcb_magic());
    assert(pending_in(sector@));
}

/// Clears the pending flag if `sector` holds a boot control block;
/// returns whether it did (and the sector must be written back).
pub fn clear_ota_pending(sector: &mut Vec<u8>) -> (r: bool)
    requires
        old(sector)@.len() == 512,
    ensures
        r == (old(sector)@.subrange(0, 8) == bcb_magic()),
        r ==> final(sector)@ == splice(old(sector)@, 16, le32_bytes(0)),
        !r ==> final(sector)@ == old(sector)@,
        !pending_in(final(sector)@),
{
    let magic: [u8; 8] = [0x44, 0x45, 0x49, 0x58, 0x42, 0x43, 0x42, 0x31];
    assert(magic@ == bcb_magic());
    if crate::bytes::bytes_eq_at(sector.as_slice(), 0, &magic) {
        crate::bytes::put_le32(sector, 16, 0);
        proof {
            crate::bytes::lemma_le32_roundtrip(0);
        }
        assert(sector@.subrange(16, 20) =~= le32_bytes(0));
        assert(le32(sector@, 16) == le32(le32_bytes(0), 0));
        return true;
    }
    false
}

/// Whether `sector` holds a boot control block with an update pending.
pub fn ota_pending(sector: &[u8]) -> (r: bool)
    requires
        sector@.len() == 512,
    ensures
        r == pending_in(sector@),
{
    let magic: [u8; 8] = [0x44, 0x45, 0x49, 0x58, 0x42, 0x43, 0x42, 0x31];
    assert(magic@ == bcb_magic());
    if !crate::bytes::bytes_eq_at(sector, 0, &magic) {
        return false;
    }
    crate::bytes::rd_le32(sector, 16) != 0
}

/// The other A/B slot: 0 becomes 1, anything else becomes 0.
pub fn switch_slot(cur: u8) -> (r: u8)
    ensures
        r == (if cur == 0 { 1u8 } else { 0u8 }),
{
    if cur == 0 {
        1
    } else {
        0
    }
}

} // verus!
