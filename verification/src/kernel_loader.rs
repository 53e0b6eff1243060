//! POSIX ustar archives: parsing, member extraction and building.
use vstd::prelude::*;
use vstd::utf8::{valid_utf8, decode_utf8};
use vstd::string::StringSliceAdditionalSpecFns;
use crate::text::{push_decimal, push_hex, push_str, string_of, utf8_to_string, decimal, hex, octal, push_octal};
use crate::bytes::{copy_range, extend_from, zeros, write_bytes, splice};

verus! {

pub const EROFS_SUPERBLOCK_OFFSET: usize = 1024;
pub const TAR_RECORD_SIZE: usize = 512;

/// Why loading the kernel image failed.
#[derive(Debug, Clone, PartialEq, Eq)]
pub enum KernelLoadError {
    PartitionUnavailable { reason: String },
    ArchiveMissing,
    GzipHeaderCorrupt { detail: String },
    TarHeaderCorrupt { detail: String },
    KernelImageNotFound,
    ImageTooSmall { size: usize },
    ErofsMagicMismatch { found: u32, expected: u32 },
    InvalidBlockSize { bits: u8 },
    KernelImageTooLarge { size: usize, limit: usize },
}

/// The text `message` gives for an error.
pub open spec fn load_error_text(e: KernelLoadError) -> Seq<char> {
    match e {
        KernelLoadError::PartitionUnavailable { reason } => "раздел /kernel недоступен: "@ + reason@,
        KernelLoadError::ArchiveMissing => "файл kernel.tar.gz отсутствует в образе /kernel"@,
        KernelLoadError::GzipHeaderCorrupt { detail } => "повреждён gzip-заголовок: "@ + detail@,
        KernelLoadError::TarHeaderCorrupt { detail } => "повреждён tar-заголовок: "@ + detail@,
        KernelLoadError::KernelImageNotFound => "член kernel.img не найден в kernel.tar.gz"@,
        KernelLoadError::ImageTooSmall { size } => "образ kernel.img слишком мал: "@ + decimal(
            size as nat,
        ) + " байт"@,
        KernelLoadError::ErofsMagicMismatch { found, expected } => "несовпадение магии EROFS: найдено 0x"@
            + hex(found as nat, 8) + ", ожидалось 0x"@ + hex(expected as nat, 8),
        KernelLoadError::InvalidBlockSize { bits } => "недопустимый размер блока EROFS: 1 << "@
            + decimal(bits as nat) + " бит"@,
        KernelLoadError::KernelImageTooLarge { size, limit } => "образ ядра "@ + decimal(size as nat)
            + " байт превышает лимит "@ + decimal(limit as nat) + " байт"@,
    }
}

impl KernelLoadError {
    pub fn message(&self) -> (r: String)
        ensures
            r@ == load_error_text(*self),
    {
        match self {
            KernelLoadError::PartitionUnavailable { reason } => {
                let mut s = string_of("раздел /kernel недоступен: ");
                push_str(&mut s, reason.as_str());
                s
            },
            KernelLoadError::ArchiveMissing => string_of("файл kernel.tar.gz отсутствует в образе /kernel"),
            KernelLoadError::GzipHeaderCorrupt { detail } => {
                let mut s = string_of("повреждён gzip-заголовок: ");
                push_str(&mut s, detail.as_str());
                s
            },
            KernelLoadError::TarHeaderCorrupt { detail } => {
                let mut s = string_of("повреждён tar-заголовок: ");
                push_str(&mut s, detail.as_str());
                s
            },
            KernelLoadError::KernelImageNotFound => string_of("член kernel.img не найден в kernel.tar.gz"),
            KernelLoadError::ImageTooSmall { size } => {
                let mut s = string_of("образ kernel.img слишком мал: ");
                push_decimal(&mut s, *size as u64);
                push_str(&mut s, " байт");
                s
            },
            KernelLoadError::ErofsMagicMismatch { found, expected } => {
                let mut s = string_of("несовпадение магии EROFS: найдено 0x");
                push_hex(&mut s, *found as u64, 8);
                push_str(&mut s, ", ожидалось 0x");
                push_hex(&mut s, *expected as u64, 8);
                s
            },
            KernelLoadError::InvalidBlockSize { bits } => {
                let mut s = string_of("недопустимый размер блока EROFS: 1 << ");
                push_decimal(&mut s, *bits as u64);
                push_str(&mut s, " бит");
                s
            },
            KernelLoadError::KernelImageTooLarge { size, limit } => {
                let mut s = string_of("образ ядра ");
                push_decimal(&mut s, *size as u64);
                push_str(&mut s, " байт превышает лимит ");
                push_decimal(&mut s, *limit as u64);
                push_str(&mut s, " байт");
                s
            },
        }
    }
}

/// A member of an archive: name, offset of its data in the archive,
/// size, and whether it is a directory.
#[derive(Debug, Clone, PartialEq, Eq)]
pub struct TarMember {
    pub name: String,
    pub offset: usize,
    pub size: usize,
    pub is_directory: bool,
}

/// A parsed archive over its raw bytes.
#[derive(Debug, Clone)]
pub struct TarArchive {
    pub raw: Vec<u8>,
    pub members: Vec<TarMember>,
}

/// A member as the specification sees it.
pub struct MemberSpec {
    pub name: Seq<char>,
    pub offset: nat,
    pub size: nat,
    pub is_directory: bool,
}

impl TarMember {
    pub open spec fn spec(&self) -> MemberSpec {
        MemberSpec { name: self.name@, offset: self.offset as nat, size: self.size as nat, is_directory: self.is_directory }
    }
}

/// What parsing an archive comes to.
pub enum TarOutcome {
    Members(Seq<MemberSpec>),
    BadMagic(nat),
    BadChecksum(nat, nat, nat),
    BadName(nat),
}

/// Number of leading octal digits in `s`.
pub open spec fn octal_prefix_len(s: Seq<u8>, i: int) -> int
    decreases s.len() - i,
{
    if i < 0 || i >= s.len() || !(48 <= s[i] <= 55) {
        i
    } else {
        octal_prefix_len(s, i + 1)
    }
}

/// Big-endian base-256 value of `s`, high bit of the first byte masked,
/// kept modulo 2^64.
pub open spec fn b256_value(s: Seq<u8>, n: int) -> nat
    decreases n,
{
    if n <= 0 {
        0
    } else {
        let b: nat = if n == 1 { (s[0] & 0x7Fu8) as nat } else { s[n - 1] as nat };
        ((b256_value(s, n - 1) * 256) % 0x1_0000_0000_0000_0000 + b) as nat
    }
}

/// A numeric header field: base-256 when the first byte has its high bit
/// set, octal otherwise.
pub open spec fn numeric_field(s: Seq<u8>) -> nat {
    if s.len() > 0 && s[0] & 0x80u8 != 0 {
        b256_value(s, s.len() as int)
    } else {
        octal_digits_value(s.subrange(0, octal_prefix_len(s, 0)))
    }
}

/// Value of a string of octal digits.
pub open spec fn octal_digits_value(d: Seq<u8>) -> nat
    decreases d.len(),
{
    if d.len() == 0 {
        0
    } else {
        octal_digits_value(d.drop_last()) * 8 + (d.last() - 48) as nat
    }
}

/// Header checksum: byte sum with the checksum field read as spaces.
pub open spec fn header_sum(rec: Seq<u8>, n: int) -> nat
    decreases n,
{
    if n <= 0 {
        0
    } else {
        header_sum(rec, n - 1) + if 148 <= n - 1 < 156 {
            0x20nat
        } else {
            rec[n - 1] as nat
        }
    }
}

pub open spec fn record(raw: Seq<u8>, off: int) -> Seq<u8> {
    raw.subrange(off, off + 512)
}

pub open spec fn all_zero(rec: Seq<u8>) -> bool {
    forall|i: int| 0 <= i < rec.len() ==> rec[i] == 0
}

pub open spec fn magic_ok(rec: Seq<u8>) -> bool {
    let m = rec.subrange(257, 263);
    m == seq![117u8, 115u8, 116u8, 97u8, 114u8, 0u8] || m == seq![117u8, 115u8, 116u8, 97u8, 114u8, 32u8]
}

/// Name bytes: up to the first NUL in the 100-byte name field.
pub open spec fn name_bytes(rec: Seq<u8>) -> Seq<u8> {
    let f = rec.subrange(0, 100);
    if exists|i: int| 0 <= i < 100 && f[i] == 0 {
        f.subrange(0, first_nul(f, 0))
    } else {
        f
    }
}

pub open spec fn first_nul(f: Seq<u8>, i: int) -> int
    decreases f.len() - i,
{
    if i < 0 || i >= f.len() || f[i] == 0 {
        i
    } else {
        first_nul(f, i + 1)
    }
}

pub open spec fn padded_size(size: nat) -> nat {
    if size % 512 == 0 {
        size
    } else {
        (size + (512 - size % 512)) as nat
    }
}

/// Walks the archive from record offset `off`, collecting members.
pub open spec fn scan(raw: Seq<u8>, off: int, acc: Seq<MemberSpec>) -> TarOutcome
    decreases (if 0 <= off <= raw.len() { raw.len() - off + 1 } else { 0 }),
{
    if off < 0 || off > raw.len() || raw.len() - off < 512 {
        TarOutcome::Members(acc)
    } else {
        let rec = record(raw, off);
        if all_zero(rec) {
            TarOutcome::Members(acc)
        } else if !magic_ok(rec) {
            TarOutcome::BadMagic(off as nat)
        } else if (numeric_field(rec.subrange(148, 156)) as usize) as nat != header_sum(rec, 512) {
            TarOutcome::BadChecksum(off as nat, (numeric_field(rec.subrange(148, 156)) as usize) as nat, header_sum(rec, 512))
        } else if !valid_utf8(name_bytes(rec)) {
            TarOutcome::BadName(off as nat)
        } else {
            let size = (numeric_field(rec.subrange(124, 136)) as usize) as nat;
            let t = rec[156];
            let data_off = off + 512;
            let name = decode_utf8(name_bytes(rec));
            let acc2 = if t == 48u8 || t == 0u8 || t == 120u8 || t == 103u8 {
                acc.push(MemberSpec { name, offset: data_off as nat, size, is_directory: false })
            } else if t == 53u8 {
                acc.push(MemberSpec { name, offset: data_off as nat, size: 0, is_directory: true })
            } else {
                acc
            };
            let next = data_off + padded_size(size);
            if next > usize::MAX {
                TarOutcome::Members(acc2)
            } else {
                scan(raw, next, acc2)
            }
        }
    }
}


/// Bytes 257..263 of the header at `off` hold "ustar" followed by a NUL
/// (POSIX) or a space (GNU).
pub open spec fn ustar_magic_at(raw: Seq<u8>, off: int) -> bool {
    &&& forall|k: int| 0 <= k < 5 ==> raw[off + 257 + k] == (#[trigger] "ustar"@[k] as u32) as u8
    &&& (raw[off + 262] == 0 || raw[off + 262] == 32)
}

/// A scan from `off` reports a bad magic only at `off` or later.
proof fn lemma_scan_magic_from(raw: Seq<u8>, off: int, acc: Seq<MemberSpec>)
    ensures
        scan(raw, off, acc) matches TarOutcome::BadMagic(x) ==> x >= off && (x == off ==> !magic_ok(record(raw, off))),
    decreases (if 0 <= off <= raw.len() { raw.len() - off + 1 } else { 0 }),
{
    if !(off < 0 || off > raw.len() || raw.len() - off < 512) {
        let rec = record(raw, off);
        if !all_zero(rec) && magic_ok(rec) && (numeric_field(rec.subrange(148, 156)) as usize) as nat == header_sum(rec, 512)
            && valid_utf8(name_bytes(rec)) {
            let size = (numeric_field(rec.subrange(124, 136)) as usize) as nat;
            let t = rec[156];
            let data_off = off + 512;
            let name = decode_utf8(name_bytes(rec));
            let acc2 = if t == 48u8 || t == 0u8 || t == 120u8 || t == 103u8 {
                acc.push(MemberSpec { name, offset: data_off as nat, size, is_directory: false })
            } else if t == 53u8 {
                acc.push(MemberSpec { name, offset: data_off as nat, size: 0, is_directory: true })
            } else {
                acc
            };
            let next = data_off + padded_size(size);
            if next <= usize::MAX {
                lemma_scan_magic_from(raw, next, acc2);
            }
        }
    }
}

/// A header that is not all zero is refused for its magic exactly when it
/// holds neither the POSIX nor the GNU ustar magic: archives written by GNU
/// tar in its default format are read like POSIX ones.
pub proof fn lemma_tar_magic(raw: Seq<u8>, off: int, acc: Seq<MemberSpec>)
    requires
        0 <= off,
        off + 512 <= raw.len(),
        !all_zero(record(raw, off)),
    ensures
        (scan(raw, off, acc) == TarOutcome::BadMagic(off as nat)) <==> !ustar_magic_at(raw, off),
{
    reveal_strlit("ustar");
    lemma_scan_magic_from(raw, off, acc);
    let rec = record(raw, off);
    let m = rec.subrange(257, 263);
    assert forall|k: int| 0 <= k < 6 implies m[k] == raw[off + 257 + k] by {}
    assert("ustar"@ =~= seq!['u', 's', 't', 'a', 'r']);
    if ustar_magic_at(raw, off) {
        assert(raw[off + 257] == 117u8 && raw[off + 258] == 115u8 && raw[off + 259] == 116u8 && raw[off + 260] == 97u8
            && raw[off + 261] == 114u8) by {
            assert("ustar"@[0] == 'u' && "ustar"@[1] == 's' && "ustar"@[2] == 't' && "ustar"@[3] == 'a' && "ustar"@[4] == 'r');
        }
        if raw[off + 262] == 0 {
            assert(m =~= seq![117u8, 115u8, 116u8, 97u8, 114u8, 0u8]);
        } else {
            assert(m =~= seq![117u8, 115u8, 116u8, 97u8, 114u8, 32u8]);
        }
        assert(magic_ok(rec));
    } else {
        if magic_ok(rec) {
            assert(m[0] == 117u8 && m[1] == 115u8 && m[2] == 116u8 && m[3] == 97u8 && m[4] == 114u8);
            assert(m[5] == 0u8 || m[5] == 32u8);
            assert forall|k: int| 0 <= k < 5 implies raw[off + 257 + k] == (#[trigger] "ustar"@[k] as u32) as u8 by {
                assert(m[k] == raw[off + 257 + k]);
            }
            assert(false);
        }
    }
}

/// The detail text of a parse failure.
pub open spec fn outcome_detail(o: TarOutcome) -> Seq<char> {
    match o {
        TarOutcome::BadMagic(off) => "запись по смещению "@ + decimal(off) + " не имеет магии ustar"@,
        TarOutcome::BadChecksum(off, stored, computed) => "запись по смещению "@ + decimal(off)
            + ": контрольная сумма "@ + decimal(stored) + " != "@ + decimal(computed),
        TarOutcome::BadName(off) => "некорректное имя члена по смещению "@ + decimal(off),
        TarOutcome::Members(_) => Seq::empty(),
    }
}

proof fn lemma_octal_prefix(s: Seq<u8>, i: int)
    requires
        0 <= i <= s.len(),
    ensures
        i <= octal_prefix_len(s, i) <= s.len(),
        forall|k: int| i <= k < octal_prefix_len(s, i) ==> 48 <= #[trigger] s[k] <= 55,
        octal_prefix_len(s, i) < s.len() ==> !(48 <= s[octal_prefix_len(s, i)] <= 55),
    decreases s.len() - i,
{
    if i < s.len() && 48 <= s[i] <= 55 {
        lemma_octal_prefix(s, i + 1);
    }
}

impl TarArchive {
    /// Reads a numeric header field.
    pub fn parse_numeric_field(field: &[u8]) -> (r: usize)
        requires
            field@.len() <= 12,
        ensures
            r == numeric_field(field@) as usize,
    {
        if field.len() > 0 && field[0] & 0x80 != 0 {
            let mut value: u64 = 0;
            let mut idx: usize = 0;
            while idx < field.len()
                invariant
                    idx <= field@.len() <= 12,
                    value == b256_value(field@, idx as int),
                    field@.len() > 0,
                decreases field@.len() - idx,
            {
                let masked: u8 = if idx == 0 { field[idx] & 0x7F } else { field[idx] };
                assert((value << 8u64) | (masked as u64) == (((value as nat) * 256) % 0x1_0000_0000_0000_0000 + masked as nat) as u64) by (bit_vector);
                value = (value << 8) | (masked as u64);
                idx = idx + 1;
            }
            value as usize
        } else {
            let mut value: u64 = 0;
            let mut idx: usize = 0;
            proof {
                lemma_octal_prefix(field@, 0);
            }
            while idx < field.len() && field[idx] >= 48 && field[idx] <= 55
                invariant
                    idx <= field@.len() <= 12,
                    forall|k: int| 0 <= k < idx ==> 48 <= #[trigger] field@[k] <= 55,
                    value == octal_digits_value(field@.subrange(0, idx as int)),
                    value < pow8(idx as nat),
                decreases field@.len() - idx,
            {
                assert(field@.subrange(0, idx + 1).drop_last() =~= field@.subrange(0, idx as int));
                proof {
                    lemma_pow8_step(idx as nat);
                }
                value = value * 8 + (field[idx] - 48) as u64;
                idx = idx + 1;
            }
            proof {
                lemma_prefix_len_is(field@, idx as int);
            }
            value as usize
        }
    }
}

pub open spec fn pow8(n: nat) -> nat
    decreases n,
{
    if n == 0 { 1 } else { 8 * pow8((n - 1) as nat) }
}

proof fn lemma_pow8_step(n: nat)
    requires
        n < 12,
    ensures
        pow8(n + 1) == 8 * pow8(n),
        pow8(n + 1) <= 0x10_0000_0000,
    decreases n,
{
    lemma_pow8_mono(n + 1, 12);
    reveal_with_fuel(pow8, 13);
    assert(pow8(12) == 0x10_0000_0000);
}

proof fn lemma_pow8_mono(a: nat, b: nat)
    requires
        a <= b,
    ensures
        pow8(a) <= pow8(b),
    decreases b - a,
{
    if a < b {
        lemma_pow8_mono(a, (b - 1) as nat);
    }
}

proof fn lemma_prefix_len_is(s: Seq<u8>, i: int)
    requires
        0 <= i <= s.len(),
        forall|k: int| 0 <= k < i ==> 48 <= #[trigger] s[k] <= 55,
        i == s.len() || !(48 <= s[i] <= 55),
    ensures
        octal_prefix_len(s, 0) == i,
{
    lemma_prefix_from(s, 0, i);
}

proof fn lemma_prefix_from(s: Seq<u8>, j: int, i: int)
    requires
        0 <= j <= i <= s.len(),
        forall|k: int| 0 <= k < i ==> 48 <= #[trigger] s[k] <= 55,
        i == s.len() || !(48 <= s[i] <= 55),
    ensures
        octal_prefix_len(s, j) == i,
    decreases i - j,
{
    if j < i {
        lemma_prefix_from(s, j + 1, i);
    }
}


pub open spec fn member_specs(ms: Seq<TarMember>) -> Seq<MemberSpec> {
    ms.map_values(|m: TarMember| m.spec())
}

fn record_is_zero(raw: &[u8], off: usize) -> (r: bool)
    requires
        off + 512 <= raw@.len(),
    ensures
        r == all_zero(record(raw@, off as int)),
{
    let _n: usize = raw.len();
    let mut i: usize = 0;
    while i < 512
        invariant
            off + 512 <= raw@.len(),
            _n == raw@.len(),
            i <= 512,
            forall|k: int| 0 <= k < i ==> #[trigger] record(raw@, off as int)[k] == 0,
        decreases 512 - i,
    {
        if raw[off + i] != 0 {
            assert(record(raw@, off as int)[i as int] != 0);
            return false;
        }
        i = i + 1;
    }
    true
}

fn record_sum(raw: &[u8], off: usize) -> (r: usize)
    requires
        off + 512 <= raw@.len(),
    ensures
        r == header_sum(record(raw@, off as int), 512),
{
    let ghost rec = record(raw@, off as int);
    let mut sum: usize = 0;
    let _n: usize = raw.len();
    let mut i: usize = 0;
    while i < 512
        invariant
            off + 512 <= raw@.len(),
            _n == raw@.len(),
            rec == record(raw@, off as int),
            i <= 512,
            sum == header_sum(rec, i as int),
            sum <= i * 255,
        decreases 512 - i,
    {
        if i >= 148 && i < 156 {
            sum = sum + 0x20;
        } else {
            sum = sum + raw[off + i] as usize;
        }
        i = i + 1;
    }
    sum
}

fn name_end(raw: &[u8], off: usize) -> (r: usize)
    requires
        off + 512 <= raw@.len(),
    ensures
        raw@.subrange(off as int, off + r) == name_bytes(record(raw@, off as int)),
        r <= 100,
{
    let ghost f = record(raw@, off as int).subrange(0, 100);
    let _n: usize = raw.len();
    let mut i: usize = 0;
    while i < 100
        invariant
            off + 512 <= raw@.len(),
            _n == raw@.len(),
            f == record(raw@, off as int).subrange(0, 100),
            i <= 100,
            forall|k: int| 0 <= k < i ==> f[k] != 0,
            first_nul(f, 0) == first_nul(f, i as int),
        decreases 100 - i,
    {
        if raw[off + i] == 0 {
            assert(raw@.subrange(off as int, off + i) =~= f.subrange(0, i as int));
            return i;
        }
        i = i + 1;
    }
    assert(raw@.subrange(off as int, off + 100) =~= f);
    100
}

fn magic_at(raw: &[u8], off: usize) -> (r: bool)
    requires
        off + 512 <= raw@.len(),
    ensures
        r == magic_ok(record(raw@, off as int)),
{
    let _n: usize = raw.len();
    let a: [u8; 6] = [117, 115, 116, 97, 114, 0];
    let b: [u8; 6] = [117, 115, 116, 97, 114, 32];
    assert(a@ =~= seq![117u8, 115u8, 116u8, 97u8, 114u8, 0u8]);
    assert(b@ =~= seq![117u8, 115u8, 116u8, 97u8, 114u8, 32u8]);
    assert(raw@.subrange(off + 257, off + 263) =~= record(raw@, off as int).subrange(257, 263));
    crate::bytes::bytes_eq_at(raw, off + 257, &a) || crate::bytes::bytes_eq_at(raw, off + 257, &b)
}

fn detail_offset(prefix: &str, off: usize, suffix: &str) -> (r: String)
    ensures
        r@ == prefix@ + decimal(off as nat) + suffix@,
{
    let mut s = string_of(prefix);
    push_decimal(&mut s, off as u64);
    push_str(&mut s, suffix);
    s
}

impl TarArchive {
    /// Parses the whole archive: 512-byte records with the ustar magic and
    /// a valid header checksum, member data padded to whole records, up to
    /// an all-zero record or the end of the bytes.
    pub fn parse(raw: Vec<u8>) -> (r: Result<TarArchive, KernelLoadError>)
        ensures
            match scan(raw@, 0, Seq::empty()) {
                TarOutcome::Members(ms) => r matches Ok(a) && a.raw@ == raw@ && member_specs(a.members@) == ms,
                o => r matches Err(KernelLoadError::TarHeaderCorrupt { detail }) && detail@ == outcome_detail(o),
            },
    {
        let mut members: Vec<TarMember> = Vec::new();
        let mut offset: usize = 0;
        let n: usize = raw.len();
        assert(member_specs(members@) =~= Seq::<MemberSpec>::empty());
        while offset <= n && n - offset >= TAR_RECORD_SIZE
            invariant
                n == raw@.len(),
                scan(raw@, 0, Seq::empty()) == scan(raw@, offset as int, member_specs(members@)),
            decreases (if offset <= n { n - offset + 1 } else { 0 }),
        {
            let ghost acc = member_specs(members@);
            let ghost rec = record(raw@, offset as int);
            if record_is_zero(raw.as_slice(), offset) {
                return Ok(TarArchive { raw, members });
            }
            if !magic_at(raw.as_slice(), offset) {
                return Err(KernelLoadError::TarHeaderCorrupt {
                    detail: detail_offset("запись по смещению ", offset, " не имеет магии ustar"),
                });
            }
            let ck_field: Vec<u8> = copy_range(raw.as_slice(), offset + 148, offset + 156);
            assert(ck_field@ =~= rec.subrange(148, 156));
            let stored_checksum: usize = Self::parse_numeric_field(ck_field.as_slice());
            let computed_checksum: usize = record_sum(raw.as_slice(), offset);
            if stored_checksum != computed_checksum {
                let mut d = string_of("запись по смещению ");
                push_decimal(&mut d, offset as u64);
                push_str(&mut d, ": контрольная сумма ");
                push_decimal(&mut d, stored_checksum as u64);
                push_str(&mut d, " != ");
                push_decimal(&mut d, computed_checksum as u64);
                return Err(KernelLoadError::TarHeaderCorrupt { detail: d });
            }
            let end: usize = name_end(raw.as_slice(), offset);
            let nb: Vec<u8> = copy_range(raw.as_slice(), offset, offset + end);
            let name: String = match utf8_to_string(nb.as_slice()) {
                Some(s) => s,
                None => {
                    proof {
                        reveal_strlit("");
                    }
                    return Err(KernelLoadError::TarHeaderCorrupt {
                        detail: detail_offset("некорректное имя члена по смещению ", offset, ""),
                    });
                },
            };
            let typeflag: u8 = raw[offset + 156];
            let size_field: Vec<u8> = copy_range(raw.as_slice(), offset + 124, offset + 136);
            assert(size_field@ =~= rec.subrange(124, 136));
            let size: usize = Self::parse_numeric_field(size_field.as_slice());
            let data_offset: usize = offset + TAR_RECORD_SIZE;
            let ghost nm = decode_utf8(name_bytes(rec));
            if typeflag == 48 || typeflag == 0 || typeflag == 120 || typeflag == 103 {
                members.push(TarMember { name, offset: data_offset, size, is_directory: false });
                assert(member_specs(members@) =~= acc.push(MemberSpec { name: nm, offset: data_offset as nat, size: size as nat, is_directory: false }));
            } else if typeflag == 53 {
                members.push(TarMember { name, offset: data_offset, size: 0, is_directory: true });
                assert(member_specs(members@) =~= acc.push(MemberSpec { name: nm, offset: data_offset as nat, size: 0, is_directory: true }));
            }
            let rem: usize = size % TAR_RECORD_SIZE;
            let pad: usize = if rem == 0 { 0 } else { TAR_RECORD_SIZE - rem };
            if size > usize::MAX - pad || data_offset > usize::MAX - (size + pad) {
                return Ok(TarArchive { raw, members });
            }
            offset = data_offset + size + pad;
        }
        Ok(TarArchive { raw, members })
    }
}


/// Index of the first non-directory member called `name`.
pub open spec fn find_member(ms: Seq<MemberSpec>, name: Seq<char>, i: int) -> Option<int>
    decreases ms.len() - i,
{
    if i < 0 || i >= ms.len() {
        None
    } else if ms[i].name == name && !ms[i].is_directory {
        Some(i)
    } else {
        find_member(ms, name, i + 1)
    }
}

impl TarArchive {
    /// The data of the first regular member named `member_name`.
    pub fn extract(&self, member_name: &str) -> (r: Result<Vec<u8>, KernelLoadError>)
        ensures
            match find_member(member_specs(self.members@), member_name@, 0) {
                None => r matches Err(KernelLoadError::KernelImageNotFound),
                Some(i) => {
                    let m = member_specs(self.members@)[i];
                    if m.offset + m.size > usize::MAX {
                        r matches Err(KernelLoadError::TarHeaderCorrupt { detail }) && detail@ == "переполнение размера члена"@
                    } else if m.offset + m.size <= self.raw@.len() {
                        r matches Ok(v) && v@ == self.raw@.subrange(m.offset as int, (m.offset + m.size) as int)
                    } else {
                        r matches Err(KernelLoadError::TarHeaderCorrupt { detail }) && detail@ == "член '"@ + member_name@ + "' выходит за границы архива"@
                    }
                },
            },
    {
        let ghost ms = member_specs(self.members@);
        let mut i: usize = 0;
        while i < self.members.len()
            invariant
                ms == member_specs(self.members@),
                i <= self.members@.len(),
                find_member(ms, member_name@, 0) == find_member(ms, member_name@, i as int),
            decreases self.members@.len() - i,
        {
            let member: &TarMember = &self.members[i];
            if crate::text::str_eq(member.name.as_str(), member_name) && !member.is_directory {
                if member.offset > usize::MAX - member.size {
                    return Err(KernelLoadError::TarHeaderCorrupt {
                        detail: string_of("переполнение размера члена"),
                    });
                }
                let end: usize = member.offset + member.size;
                if end <= self.raw.len() {
                    return Ok(copy_range(self.raw.as_slice(), member.offset, end));
                } else {
                    let mut d = string_of("член '");
                    push_str(&mut d, member_name);
                    push_str(&mut d, "' выходит за границы архива");
                    return Err(KernelLoadError::TarHeaderCorrupt { detail: d });
                }
            }
            i = i + 1;
        }
        Err(KernelLoadError::KernelImageNotFound)
    }
}

/// Octal text of `value` (at least `len - 1` digits) cut to `len - 1`
/// bytes, then a NUL: the layout of a numeric header field.
pub open spec fn octal_field(value: nat, len: nat) -> Seq<u8> {
    let d = octal(value, (len - 1) as nat);
    let n = if d.len() < len - 1 { d.len() } else { (len - 1) as nat };
    d.subrange(0, n as int)
}

/// `h` with a numeric field of `len` bytes written at `off`.
pub open spec fn put_octal_field(h: Seq<u8>, off: int, len: nat, value: nat) -> Seq<u8> {
    splice(h, off, octal_field(value, len)).update(off + len - 1, 0u8)
}

proof fn lemma_octal_len(n: nat, w: nat)
    ensures
        octal(n, w).len() >= w,
        octal(n, w).len() >= 1,
    decreases n + w,
{
    if !(n < 8 && w <= 1) {
        lemma_octal_len(n / 8, if w > 0 { (w - 1) as nat } else { 0 });
    }
}

fn write_octal_field(header: &mut Vec<u8>, off: usize, len: usize, value: usize)
    requires
        old(header)@.len() == 512,
        2 <= len,
        off + len <= 512,
    ensures
        final(header)@ == put_octal_field(old(header)@, off as int, len as nat, value as nat),
{
    let mut digits: Vec<u8> = Vec::new();
    push_octal(&mut digits, value as u64, (len - 1) as u64);
    assert(digits@ =~= octal(value as nat, (len - 1) as nat));
    proof {
        lemma_octal_len(value as nat, (len - 1) as nat);
    }
    let n: usize = if digits.len() < len - 1 { digits.len() } else { len - 1 };
    let part: Vec<u8> = copy_range(digits.as_slice(), 0, n);
    write_bytes(header, off, part.as_slice());
    header.set(off + len - 1, 0);
}

/// The header record for a member named `nb` holding `size` bytes, before
/// its checksum is filled in.
pub open spec fn tar_header_template(nb: Seq<u8>, size: nat) -> Seq<u8> {
    let name = if nb.len() < 100 { nb } else { nb.subrange(0, 100) };
    let h0 = splice(Seq::new(512, |i: int| 0u8), 0, name);
    let h1 = put_octal_field(h0, 100, 8, 0o100644);
    let h2 = put_octal_field(h1, 108, 8, 0);
    let h3 = put_octal_field(h2, 116, 8, 0);
    let h4 = put_octal_field(h3, 124, 12, size);
    let h5 = put_octal_field(h4, 136, 12, 0);
    let h6 = h5.update(156, 48u8);
    let h7 = splice(h6, 257, seq![117u8, 115u8, 116u8, 97u8, 114u8, 0u8]);
    splice(h7, 263, seq![48u8, 48u8])
}

/// The finished header record with its checksum field.
pub open spec fn tar_header(nb: Seq<u8>, size: nat) -> Seq<u8> {
    let t = tar_header_template(nb, size);
    let sum = header_sum(t, 512);
    splice(t, 148, octal((sum % 0o1000000) as nat, 6) + seq![0u8, 32u8])
}

pub open spec fn pad_len(n: nat) -> nat {
    if n % 512 == 0 { 0 } else { (512 - n % 512) as nat }
}

/// Header, data and zero padding of one member.
pub open spec fn member_block(nb: Seq<u8>, data: Seq<u8>) -> Seq<u8> {
    tar_header(nb, data.len()) + data + Seq::new(pad_len(data.len()), |i: int| 0u8)
}

/// The blocks of all members.
pub open spec fn member_blocks(ms: Seq<(Seq<u8>, Seq<u8>)>) -> Seq<u8>
    decreases ms.len(),
{
    if ms.len() == 0 {
        Seq::empty()
    } else {
        member_blocks(ms.drop_last()) + member_block(ms.last().0, ms.last().1)
    }
}

/// Name bytes and data of each (name, data) pair.
pub open spec fn member_inputs(ms: Seq<(&str, &[u8])>) -> Seq<(Seq<u8>, Seq<u8>)> {
    ms.map_values(|m: (&str, &[u8])| (m.0.spec_bytes(), m.1@))
}

/// The archive: every member's block, then two zero records.
pub open spec fn tar_bytes(ms: Seq<(Seq<u8>, Seq<u8>)>) -> Seq<u8> {
    member_blocks(ms) + Seq::new(1024, |i: int| 0u8)
}

fn build_header(nb: &[u8], size: usize) -> (r: Vec<u8>)
    ensures
        r@ == tar_header(nb@, size as nat),
{
    let mut header: Vec<u8> = zeros(512);
    let name_len: usize = if nb.len() < 100 { nb.len() } else { 100 };
    let name_part: Vec<u8> = copy_range(nb, 0, name_len);
    write_bytes(&mut header, 0, name_part.as_slice());
    write_octal_field(&mut header, 100, 8, 0o100644);
    write_octal_field(&mut header, 108, 8, 0);
    write_octal_field(&mut header, 116, 8, 0);
    write_octal_field(&mut header, 124, 12, size);
    write_octal_field(&mut header, 136, 12, 0);
    header.set(156, 48);
    let magic: [u8; 6] = [117, 115, 116, 97, 114, 0];
    write_bytes(&mut header, 257, &magic);
    let ver: [u8; 2] = [48, 48];
    write_bytes(&mut header, 263, &ver);
    proof {
        if nb@.len() < 100 {
            assert(name_part@ =~= nb@);
        }
        assert(magic@ =~= seq![117u8, 115u8, 116u8, 97u8, 114u8, 0u8]);
        assert(ver@ =~= seq![48u8, 48u8]);
    }
    assert(header@ =~= tar_header_template(nb@, size as nat));
    let sum: usize = record_sum(header.as_slice(), 0);
    assert(record(header@, 0) =~= header@);
    let mut ck: Vec<u8> = Vec::new();
    push_octal(&mut ck, (sum % 0o1000000) as u64, 6);
    ck.push(0);
    ck.push(32);
    proof {
        lemma_octal_small((sum % 0o1000000) as nat);
    }
    assert(ck@ =~= octal((sum % 0o1000000) as nat, 6) + seq![0u8, 32u8]);
    write_bytes(&mut header, 148, ck.as_slice());
    header
}

proof fn lemma_octal_small(n: nat)
    requires
        n < 0o1000000,
    ensures
        octal(n, 6).len() == 6,
{
    reveal_with_fuel(octal, 7);
}

/// Builds a ustar archive holding `members` in order, with valid header
/// checksums and two zero records at the end.
pub fn build_tar_archive(members: &[(&str, &[u8])]) -> (r: Vec<u8>)
    ensures
        r@ == tar_bytes(member_inputs(members@)),
{
    let mut out: Vec<u8> = Vec::new();
    let mut i: usize = 0;
    while i < members.len()
        invariant
            i <= members@.len(),
            out@ == member_blocks(member_inputs(members@).subrange(0, i as int)),
        decreases members@.len() - i,
    {
        let (name, data) = members[i];
        let header: Vec<u8> = build_header(name.as_bytes(), data.len());
        extend_from(&mut out, header.as_slice());
        extend_from(&mut out, data);
        let rem: usize = data.len() % 512;
        let pad: usize = if rem == 0 { 0 } else { 512 - rem };
        let z: Vec<u8> = zeros(pad);
        extend_from(&mut out, z.as_slice());
        proof {
            let ms = member_inputs(members@);
            assert(ms.subrange(0, i + 1).drop_last() =~= ms.subrange(0, i as int));
            assert(ms.subrange(0, i + 1).last() == (name.spec_bytes(), data@));
            assert(z@ =~= Seq::new(pad_len(data@.len()), |k: int| 0u8));
        }
        i = i + 1;
        assert(out@ =~= member_blocks(member_inputs(members@).subrange(0, i as int)));
    }
    let tail: Vec<u8> = zeros(1024);
    extend_from(&mut out, tail.as_slice());
    assert(member_inputs(members@).subrange(0, members@.len() as int) =~= member_inputs(members@));
    out
}

/// Octal text is made of octal digits and reads back as its value.
proof fn lemma_octal_reads_back(n: nat, w: nat)
    ensures
        forall|k: int| 0 <= k < octal(n, w).len() ==> 48 <= #[trigger] octal(n, w)[k] <= 55,
        octal_digits_value(octal(n, w)) == n,
    decreases n + w,
{
    if n < 8 && w <= 1 {
        assert(octal(n, w).drop_last() =~= Seq::<u8>::empty());
        assert(octal_digits_value(Seq::<u8>::empty()) == 0);
    } else {
        let w2: nat = if w > 0 { (w - 1) as nat } else { 0 };
        lemma_octal_reads_back(n / 8, w2);
        let d = octal(n / 8, w2);
        assert(octal(n, w) == d.push(((n % 8) + 48) as u8));
        assert(octal(n, w).drop_last() =~= d);
        assert((n / 8) * 8 + n % 8 == n) by (nonlinear_arith);
        assert(octal_digits_value(octal(n, w)) == octal_digits_value(d) * 8 + (n % 8) as nat);
        assert forall|k: int| 0 <= k < octal(n, w).len() implies 48 <= #[trigger] octal(n, w)[k] <= 55 by {
            if k < d.len() {
                assert(octal(n, w)[k] == d[k]);
            }
        }
    }
}

/// A value below 8^w takes exactly `w` octal digits at width `w`.
proof fn lemma_octal_width(n: nat, w: nat)
    requires
        w >= 1,
        n < pow8(w),
    ensures
        octal(n, w).len() == w,
    decreases w,
{
    if w > 1 {
        assert(pow8(w) == 8 * pow8((w - 1) as nat));
        assert(n / 8 < pow8((w - 1) as nat)) by (nonlinear_arith)
            requires
                n < 8 * pow8((w - 1) as nat),
        ;
        lemma_octal_width(n / 8, (w - 1) as nat);
        if n < 8 {
            assert(pow8((w - 1) as nat) >= 1) by {
                lemma_pow8_pos((w - 1) as nat);
            }
        }
    } else {
        assert(pow8(1) == 8 * pow8(0));
    }
}

proof fn lemma_pow8_pos(n: nat)
    ensures
        pow8(n) >= 1,
    decreases n,
{
    if n > 0 {
        lemma_pow8_pos((n - 1) as nat);
    }
}

/// A field of `w` octal digits then a NUL (and anything after) reads as
/// the digits' value.
proof fn lemma_numeric_field_of(f: Seq<u8>, digits: Seq<u8>, n: nat)
    requires
        digits.len() >= 1,
        digits.len() < f.len(),
        f.subrange(0, digits.len() as int) == digits,
        f[digits.len() as int] == 0,
        forall|k: int| 0 <= k < digits.len() ==> 48 <= #[trigger] digits[k] <= 55,
        octal_digits_value(digits) == n,
    ensures
        numeric_field(f) == n,
{
    assert(f[0] == digits[0]);
    let d0 = f[0];
    assert(d0 & 0x80u8 == 0) by (bit_vector)
        requires
            48 <= d0 <= 55,
    ;
    lemma_octal_prefix(f, 0);
    let p = octal_prefix_len(f, 0);
    assert(p == digits.len()) by {
        if p < digits.len() {
            assert(f[p] == digits[p]);
        }
        if p > digits.len() {
            assert(48 <= f[digits.len() as int] <= 55);
        }
    }
}

/// The checksum field does not count toward the header sum.
proof fn lemma_header_sum_same(a: Seq<u8>, b: Seq<u8>, n: int)
    requires
        0 <= n <= a.len(),
        n <= b.len(),
        forall|k: int| 0 <= k < n && !(148 <= k < 156) ==> a[k] == b[k],
    ensures
        header_sum(a, n) == header_sum(b, n),
    decreases n,
{
    if n > 0 {
        lemma_header_sum_same(a, b, n - 1);
    }
}

/// A header sum is at most 255 per byte.
proof fn lemma_header_sum_bound(a: Seq<u8>, n: int)
    requires
        0 <= n <= a.len(),
    ensures
        header_sum(a, n) <= 255 * n,
    decreases n,
{
    if n > 0 {
        lemma_header_sum_bound(a, n - 1);
    }
}

/// The first NUL from `i` on is at `z` when none comes before it.
proof fn lemma_first_nul_at(f: Seq<u8>, i: int, z: int)
    requires
        0 <= i <= z < f.len(),
        f[z] == 0,
        forall|k: int| i <= k < z ==> f[k] != 0,
    ensures
        first_nul(f, i) == z,
    decreases z - i,
{
    if i < z {
        lemma_first_nul_at(f, i + 1, z);
    }
}

proof fn lemma_tar_header_len(nb: Seq<u8>, size: nat)
    ensures
        tar_header(nb, size).len() == 512,
{
    let name = if nb.len() < 100 { nb } else { nb.subrange(0, 100) };
    let z = Seq::new(512, |i: int| 0u8);
    crate::bytes::lemma_splice_len(z, 0, name);
    let h0 = splice(z, 0, name);
    lemma_octal_len(0o100644, 7);
    lemma_octal_len(0, 7);
    lemma_octal_len(0, 11);
    lemma_octal_len(size, 11);
    let h1 = put_octal_field(h0, 100, 8, 0o100644);
    crate::bytes::lemma_splice_len(h0, 100, octal_field(0o100644, 8));
    let h2 = put_octal_field(h1, 108, 8, 0);
    crate::bytes::lemma_splice_len(h1, 108, octal_field(0, 8));
    let h3 = put_octal_field(h2, 116, 8, 0);
    crate::bytes::lemma_splice_len(h2, 116, octal_field(0, 8));
    let h4 = put_octal_field(h3, 124, 12, size);
    crate::bytes::lemma_splice_len(h3, 124, octal_field(size, 12));
    let h5 = put_octal_field(h4, 136, 12, 0);
    crate::bytes::lemma_splice_len(h4, 136, octal_field(0, 12));
    let h6 = h5.update(156, 48u8);
    crate::bytes::lemma_splice_len(h6, 257, seq![117u8, 115u8, 116u8, 97u8, 114u8, 0u8]);
    let h7 = splice(h6, 257, seq![117u8, 115u8, 116u8, 97u8, 114u8, 0u8]);
    crate::bytes::lemma_splice_len(h7, 263, seq![48u8, 48u8]);
    let t = splice(h7, 263, seq![48u8, 48u8]);
    let sum = header_sum(t, 512);
    lemma_header_sum_bound(t, 512);
    lemma_octal_small(sum % 0o1000000);
    crate::bytes::lemma_splice_len(t, 148, octal((sum % 0o1000000) as nat, 6) + seq![0u8, 32u8]);
}

/// What a header record built for a member named `nb` (under 100 bytes,
/// no NUL) holding `size` bytes (below 8^11) reads as: its name, its size,
/// a matching checksum, a regular file type and the ustar magic.
proof fn lemma_tar_header_reads(nb: Seq<u8>, size: nat)
    requires
        nb.len() < 100,
        forall|k: int| 0 <= k < nb.len() ==> nb[k] != 0,
        size < pow8(11),
    ensures
        tar_header(nb, size).len() == 512,
        name_bytes(tar_header(nb, size)) == nb,
        numeric_field(tar_header(nb, size).subrange(124, 136)) == size,
        numeric_field(tar_header(nb, size).subrange(148, 156)) == header_sum(tar_header(nb, size), 512),
        tar_header(nb, size)[156] == 48u8,
        magic_ok(tar_header(nb, size)),
        !all_zero(tar_header(nb, size)),
{
    let z = Seq::new(512, |i: int| 0u8);
    let h0 = splice(z, 0, nb);
    crate::bytes::lemma_splice_len(z, 0, nb);
    assert(nb.len() < 100 ==> (if nb.len() < 100 { nb } else { nb.subrange(0, 100) }) == nb);
    let h1 = put_octal_field(h0, 100, 8, 0o100644);
    let h2 = put_octal_field(h1, 108, 8, 0);
    let h3 = put_octal_field(h2, 116, 8, 0);
    let h4 = put_octal_field(h3, 124, 12, size);
    let h5 = put_octal_field(h4, 136, 12, 0);
    let h6 = h5.update(156, 48u8);
    let h7 = splice(h6, 257, seq![117u8, 115u8, 116u8, 97u8, 114u8, 0u8]);
    let t = splice(h7, 263, seq![48u8, 48u8]);
    assert(t == tar_header_template(nb, size));
    lemma_octal_len(0o100644, 7);
    lemma_octal_len(0, 7);
    lemma_octal_len(0, 11);
    lemma_octal_width(size, 11);
    let of1 = octal_field(0o100644, 8);
    let of0 = octal_field(0, 8);
    let of4 = octal_field(size, 12);
    let of5 = octal_field(0, 12);
    assert(of1.len() == 7 && of0.len() == 7 && of4.len() == 11 && of5.len() == 11);
    assert(of4 =~= octal(size, 11));
    crate::bytes::lemma_splice_len(h0, 100, of1);
    crate::bytes::lemma_splice_len(h1, 108, of0);
    crate::bytes::lemma_splice_len(h2, 116, of0);
    crate::bytes::lemma_splice_len(h3, 124, of4);
    crate::bytes::lemma_splice_len(h4, 136, of5);
    crate::bytes::lemma_splice_len(h6, 257, seq![117u8, 115u8, 116u8, 97u8, 114u8, 0u8]);
    crate::bytes::lemma_splice_len(h7, 263, seq![48u8, 48u8]);
    assert(t.len() == 512);
    // The name field: the name, then zeros.
    assert forall|k: int| 0 <= k < 100 implies #[trigger] t[k] == h0[k] by {}
    // The size field: eleven octal digits, then a NUL.
    assert forall|k: int| 124 <= k < 136 implies #[trigger] t[k] == h4[k] by {}
    assert(t.subrange(124, 135) =~= octal(size, 11));
    assert(t[135] == 0);
    // The type flag and the magic.
    assert(t[156] == 48u8);
    assert(t.subrange(257, 263) =~= seq![117u8, 115u8, 116u8, 97u8, 114u8, 0u8]);
    // The checksum.
    let sum = header_sum(t, 512);
    lemma_header_sum_bound(t, 512);
    assert(sum % 0o1000000 == sum);
    lemma_octal_small(sum);
    let ck = octal(sum, 6) + seq![0u8, 32u8];
    let h = splice(t, 148, ck);
    assert(h == tar_header(nb, size));
    crate::bytes::lemma_splice_len(t, 148, ck);
    assert(h.len() == 512);
    lemma_header_sum_same(h, t, 512);
    lemma_octal_reads_back(sum, 6);
    assert(h.subrange(148, 156).subrange(0, 6) =~= octal(sum, 6));
    assert(h.subrange(148, 156)[6] == 0);
    lemma_numeric_field_of(h.subrange(148, 156), octal(sum, 6), sum);
    lemma_octal_reads_back(size, 11);
    assert(h.subrange(124, 136).subrange(0, 11) =~= octal(size, 11));
    assert(h.subrange(124, 136)[11] == 0);
    lemma_numeric_field_of(h.subrange(124, 136), octal(size, 11), size);
    assert(h[156] == 48u8);
    assert(h.subrange(257, 263) =~= seq![117u8, 115u8, 116u8, 97u8, 114u8, 0u8]);
    assert(h[257] == 117u8);
    // The name.
    let f = h.subrange(0, 100);
    assert forall|k: int| 0 <= k < nb.len() implies f[k] == nb[k] && f[k] != 0 by {
        assert(f[k] == t[k]);
    }
    assert(f[nb.len() as int] == 0) by {
        assert(f[nb.len() as int] == t[nb.len() as int]);
    }
    lemma_first_nul_at(f, 0, nb.len() as int);
    assert(f.subrange(0, nb.len() as int) =~= nb);
}

/// The members a parse of `tar_bytes(ms)` finds: each named by its name
/// bytes, a regular file whose data follows its header.
pub open spec fn built_specs(ms: Seq<(Seq<u8>, Seq<u8>)>) -> Seq<MemberSpec> {
    Seq::new(
        ms.len(),
        |i: int|
            MemberSpec {
                name: decode_utf8(ms[i].0),
                offset: (member_blocks(ms.subrange(0, i)).len() + 512) as nat,
                size: ms[i].1.len(),
                is_directory: false,
            },
    )
}

/// Names and sizes a ustar header can hold: names under 100 bytes of
/// UTF-8 without NUL, sizes below 8^11.
pub open spec fn tar_inputs_ok(ms: Seq<(Seq<u8>, Seq<u8>)>) -> bool {
    forall|i: int|
        0 <= i < ms.len() ==> {
            &&& (#[trigger] ms[i]).0.len() < 100
            &&& forall|k: int| 0 <= k < ms[i].0.len() ==> ms[i].0[k] != 0
            &&& valid_utf8(ms[i].0)
            &&& ms[i].1.len() < pow8(11)
        }
}

proof fn lemma_member_blocks_step(ms: Seq<(Seq<u8>, Seq<u8>)>, k: int)
    requires
        0 <= k < ms.len(),
    ensures
        member_blocks(ms.subrange(0, k + 1)) == member_blocks(ms.subrange(0, k)) + member_block(ms[k].0, ms[k].1),
{
    assert(ms.subrange(0, k + 1).drop_last() =~= ms.subrange(0, k));
    assert(ms.subrange(0, k + 1).last() == ms[k]);
}

/// The blocks of the first `j` members start the blocks of all of them.
proof fn lemma_member_blocks_prefix(ms: Seq<(Seq<u8>, Seq<u8>)>, j: int)
    requires
        0 <= j <= ms.len(),
    ensures
        member_blocks(ms.subrange(0, j)).len() <= member_blocks(ms).len(),
        member_blocks(ms).subrange(0, member_blocks(ms.subrange(0, j)).len() as int) == member_blocks(ms.subrange(0, j)),
    decreases ms.len(),
{
    if j == ms.len() {
        assert(ms.subrange(0, j) =~= ms);
        assert(member_blocks(ms).subrange(0, member_blocks(ms).len() as int) =~= member_blocks(ms));
    } else {
        let d = ms.drop_last();
        lemma_member_blocks_prefix(d, j);
        assert(d.subrange(0, j) =~= ms.subrange(0, j));
        let a = member_blocks(ms.subrange(0, j));
        assert(member_blocks(ms) == member_blocks(d) + member_block(ms.last().0, ms.last().1));
        assert(member_blocks(ms).subrange(0, a.len() as int) =~= member_blocks(d).subrange(0, a.len() as int));
    }
}

/// One step of a scan over a header built for `nb` and `size` bytes.
#[verifier::spinoff_prover]
proof fn lemma_scan_header_step(raw: Seq<u8>, off: int, acc: Seq<MemberSpec>, nb: Seq<u8>, size: nat)
    requires
        0 <= off,
        off + 512 + padded_size(size) <= raw.len(),
        raw.len() <= usize::MAX,
        record(raw, off) == tar_header(nb, size),
        nb.len() < 100,
        forall|k: int| 0 <= k < nb.len() ==> nb[k] != 0,
        valid_utf8(nb),
        size < pow8(11),
    ensures
        scan(raw, off, acc) == scan(
            raw,
            off + 512 + padded_size(size),
            acc.push(MemberSpec { name: decode_utf8(nb), offset: (off + 512) as nat, size, is_directory: false }),
        ),
{
    let rec = record(raw, off);
    lemma_tar_header_reads(nb, size);
    lemma_header_sum_bound(rec, 512);
    assert(size <= usize::MAX);
}

/// The header of member `k` stands where the blocks of the members before
/// it end.
#[verifier::spinoff_prover]
proof fn lemma_member_header_at(ms: Seq<(Seq<u8>, Seq<u8>)>, k: int)
    requires
        0 <= k < ms.len(),
    ensures
        ({
            let off = member_blocks(ms.subrange(0, k)).len() as int;
            let size = ms[k].1.len();
            &&& off + 512 + padded_size(size) == member_blocks(ms.subrange(0, k + 1)).len()
            &&& member_blocks(ms.subrange(0, k + 1)).len() <= member_blocks(ms).len()
            &&& record(tar_bytes(ms), off) == tar_header(ms[k].0, size)
        }),
{
    let raw = tar_bytes(ms);
    let mb = member_blocks(ms);
    let pre = member_blocks(ms.subrange(0, k));
    let off = pre.len() as int;
    let nb = ms[k].0;
    let data = ms[k].1;
    lemma_member_blocks_step(ms, k);
    lemma_member_blocks_prefix(ms, k + 1);
    lemma_tar_header_len(nb, data.len());
    let h = tar_header(nb, data.len());
    let blk = member_block(nb, data);
    let nxt = member_blocks(ms.subrange(0, k + 1));
    assert(nxt == pre + blk);
    assert(blk.len() == 512 + data.len() + pad_len(data.len()));
    assert(blk.subrange(0, 512) =~= h);
    assert(nxt.subrange(off, off + 512) =~= blk.subrange(0, 512));
    assert(mb.subrange(0, nxt.len() as int) == nxt);
    assert(mb.subrange(off, off + 512) =~= nxt.subrange(off, off + 512));
    assert(raw.subrange(off, off + 512) =~= mb.subrange(off, off + 512));
    assert(padded_size(data.len()) == data.len() + pad_len(data.len()));
}

/// Scanning from the header of member `k` on finds members `k..` and then
/// the end records.
proof fn lemma_scan_built(ms: Seq<(Seq<u8>, Seq<u8>)>, k: int)
    requires
        0 <= k <= ms.len(),
        tar_inputs_ok(ms),
        tar_bytes(ms).len() <= usize::MAX,
    ensures
        scan(tar_bytes(ms), member_blocks(ms.subrange(0, k)).len() as int, built_specs(ms).subrange(0, k))
            == TarOutcome::Members(built_specs(ms)),
    decreases ms.len() - k,
{
    let raw = tar_bytes(ms);
    let mb = member_blocks(ms);
    let off = member_blocks(ms.subrange(0, k)).len() as int;
    lemma_member_blocks_prefix(ms, k);
    if k == ms.len() {
        assert(ms.subrange(0, k) =~= ms);
        assert(off == mb.len());
        assert(all_zero(record(raw, off)));
        assert(built_specs(ms).subrange(0, k) =~= built_specs(ms));
    } else {
        let nb = ms[k].0;
        let size = ms[k].1.len();
        lemma_member_header_at(ms, k);
        let acc = built_specs(ms).subrange(0, k);
        let spec_k = MemberSpec { name: decode_utf8(nb), offset: (off + 512) as nat, size, is_directory: false };
        assert(built_specs(ms)[k] == spec_k);
        assert(acc.push(spec_k) =~= built_specs(ms).subrange(0, k + 1));
        lemma_scan_header_step(raw, off, acc, nb, size);
        lemma_scan_built(ms, k + 1);
    }
}

/// Reading back an archive this library builds: parsing `tar_bytes(ms)`
/// finds exactly its members, in order, each with its name, the offset of
/// its data and its size.
pub proof fn lemma_tar_roundtrip(ms: Seq<(Seq<u8>, Seq<u8>)>)
    requires
        tar_inputs_ok(ms),
        tar_bytes(ms).len() <= usize::MAX,
    ensures
        scan(tar_bytes(ms), 0, Seq::empty()) == TarOutcome::Members(built_specs(ms)),
{
    lemma_scan_built(ms, 0);
    assert(ms.subrange(0, 0) =~= Seq::<(Seq<u8>, Seq<u8>)>::empty());
    assert(built_specs(ms).subrange(0, 0) =~= Seq::<MemberSpec>::empty());
}

/// UTF-8 text without the NUL character has no zero byte.
proof fn lemma_nul_byte_is_nul_char(chars: Seq<char>, k: int)
    requires
        forall|j: int| 0 <= j < chars.len() ==> (#[trigger] chars[j] as u32) != 0,
        0 <= k < vstd::utf8::encode_utf8(chars).len(),
    ensures
        vstd::utf8::encode_utf8(chars)[k] != 0,
    decreases chars.len(),
{
    if chars.len() == 0 {
        assert(vstd::utf8::encode_utf8(chars).len() == 0);
    }
    let c = chars[0];
    let v = c as u32;
    let e = vstd::utf8::encode_scalar(v);
    let rest = chars.drop_first();
    assert(vstd::utf8::encode_utf8(chars) == e + vstd::utf8::encode_utf8(rest));
    if k < e.len() {
        assert(v != 0);
        if vstd::utf8::has_width_1_encoding(v) {
            assert((v & 0x7F) as u8 != 0) by (bit_vector)
                requires
                    1 <= v <= 0x7F,
            ;
        } else if vstd::utf8::has_width_2_encoding(v) {
            assert((0xC0 | ((v >> 6) & 0x1F) as u8) != 0u8 && (0x80 | (v & 0x3F) as u8) != 0u8) by (bit_vector);
        } else if vstd::utf8::has_width_3_encoding(v) {
            assert((0xE0 | ((v >> 12) & 0x0F) as u8) != 0u8 && (0x80 | ((v >> 6) & 0x3F) as u8) != 0u8 && (0x80 | (v & 0x3F) as u8)
                != 0u8) by (bit_vector);
        } else {
            assert((0xF0 | ((v >> 18) & 0x7) as u8) != 0u8 && (0x80 | ((v >> 12) & 0x3F) as u8) != 0u8 && (0x80 | ((v >> 6) & 0x3F)
                as u8) != 0u8 && (0x80 | (v & 0x3F) as u8) != 0u8) by (bit_vector);
        }
    } else {
        assert forall|j: int| 0 <= j < rest.len() implies (#[trigger] rest[j] as u32) != 0 by {
            assert(rest[j] == chars[j + 1]);
        }
        lemma_nul_byte_is_nul_char(rest, k - e.len());
    }
}

/// The same for an archive built from (name, data) pairs: its parse gives
/// back each member's name and size, in order.
pub proof fn lemma_tar_roundtrip_named(ms: Seq<(&str, &[u8])>)
    requires
        forall|i: int| 0 <= i < ms.len() ==> (#[trigger] ms[i]).0.spec_bytes().len() < 100,
        forall|i: int, k: int| 0 <= i < ms.len() && 0 <= k < ms[i].0@.len() ==> (#[trigger] ms[i].0@[k] as u32) != 0,
        forall|i: int| 0 <= i < ms.len() ==> (#[trigger] ms[i]).1@.len() < pow8(11),
        tar_bytes(member_inputs(ms)).len() <= usize::MAX,
    ensures
        scan(tar_bytes(member_inputs(ms)), 0, Seq::empty()) == TarOutcome::Members(built_specs(member_inputs(ms))),
        built_specs(member_inputs(ms)).len() == ms.len(),
        forall|i: int| 0 <= i < ms.len() ==> (#[trigger] built_specs(member_inputs(ms))[i]).name == ms[i].0@
            && built_specs(member_inputs(ms))[i].size == ms[i].1@.len() && !built_specs(member_inputs(ms))[i].is_directory,
{
    let mi = member_inputs(ms);
    assert forall|i: int| 0 <= i < mi.len() implies {
        &&& (#[trigger] mi[i]).0.len() < 100
        &&& forall|k: int| 0 <= k < mi[i].0.len() ==> mi[i].0[k] != 0
        &&& valid_utf8(mi[i].0)
        &&& mi[i].1.len() < pow8(11)
    } by {
        let name = ms[i].0@;
        assert(mi[i] == (ms[i].0.spec_bytes(), ms[i].1@));
        vstd::utf8::encode_utf8_valid_utf8(name);
        vstd::utf8::encode_utf8_decode_utf8(name);
        assert forall|k: int| 0 <= k < mi[i].0.len() implies mi[i].0[k] != 0 by {
            lemma_nul_byte_is_nul_char(name, k);
        }
    }
    lemma_tar_roundtrip(mi);
    assert forall|i: int| 0 <= i < ms.len() implies (#[trigger] built_specs(mi)[i]).name == ms[i].0@ by {
        assert(mi[i] == (ms[i].0.spec_bytes(), ms[i].1@));
        vstd::utf8::encode_utf8_decode_utf8(ms[i].0@);
    }
}

} // verus!





