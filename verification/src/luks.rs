//! Volume header with password slots in the manner of LUKS1: a master key
//! chosen once, sealed in up to eight slots, each with a key derived from
//! one password (PBKDF2-HMAC-SHA-512 over the slot's salt) and AES-256;
//! a check value of the master key tells whether a password is right.
//!
//! Header sector (LBA 4094): magic "DEIXLUKS", version 1, PBKDF2
//! iterations, the first 32 bytes of SHA-512 of the master key, and from
//! byte 64 eight slots of 56 bytes: in-use flag, salt at 8, sealed master
//! key at 24.
use vstd::prelude::*;
use sha2::Digest;
use aes::cipher::{BlockDecrypt, BlockEncrypt, KeyInit};
use crate::bytes::{le32, le32_bytes, splice};
use crate::ramdisk::{RamDisk, sector};
use vstd::string::StringSliceAdditionalSpecFns;

verus! {

pub const HEADER_LBA: u32 = 4094;
pub const VERSION: u32 = 1;
pub const MAX_SLOTS: usize = 8;
pub const SLOT_BASE: usize = 64;
pub const SLOT_SIZE: usize = 56;
pub const SALT_LEN: usize = 16;
pub const MK_LEN: usize = 32;
pub const DEFAULT_ITERATIONS: u32 = 100_000;
pub const MIN_ITERATIONS: u32 = 1_000;
pub const MAX_ITERATIONS: u32 = 50_000_000;

/// Name for the SHA-512 digest (FIPS 180-4) of a byte string.
pub uninterp spec fn sha512_digest(data: Seq<u8>) -> Seq<u8>;

/// Name for PBKDF2 with HMAC-SHA-512 (RFC 8018): 64 bytes from a password,
/// a salt and an iteration count.
pub uninterp spec fn pbkdf2_sha512(password: Seq<u8>, salt: Seq<u8>, rounds: u32) -> Seq<u8>;

/// Name for AES-256 encryption of one 16-byte block under a 32-byte key.
pub uninterp spec fn aes256_enc(key: Seq<u8>, block: Seq<u8>) -> Seq<u8>;

/// Name for AES-256 decryption of one 16-byte block under a 32-byte key.
pub uninterp spec fn aes256_dec(key: Seq<u8>, block: Seq<u8>) -> Seq<u8>;

/// `sha2::Sha512::digest`: the 64-byte SHA-512 digest of `data`, a
/// function of `data` alone.
#[verifier::external_body]
fn sha512(data: &[u8]) -> (r: [u8; 64])
    ensures
        r@ == sha512_digest(data@),
{
    let d = sha2::Sha512::digest(data);
    let mut out = [0u8; 64];
    out.copy_from_slice(d.as_slice());
    out
}

/// `pbkdf2::pbkdf2_hmac::<sha2::Sha512>` filling 64 bytes: a function of
/// the password, the salt and the round count.
#[verifier::external_body]
fn pbkdf2(password: &[u8], salt: &[u8], rounds: u32) -> (r: [u8; 64])
    ensures
        r@ == pbkdf2_sha512(password@, salt@, rounds),
{
    let mut out = [0u8; 64];
    pbkdf2::pbkdf2_hmac::<sha2::Sha512>(password, salt, rounds, &mut out);
    out
}

/// `aes::Aes256` `encrypt_block`: encrypts one block; AES decryption under
/// the same key gives the block back.
#[verifier::external_body]
fn aes_encrypt(key: &[u8; 32], block: &[u8; 16]) -> (r: [u8; 16])
    ensures
        r@ == aes256_enc(key@, block@),
        aes256_dec(key@, r@) == block@,
{
    let cipher = aes::Aes256::new(key.into());
    let mut b = aes::Block::clone_from_slice(block);
    cipher.encrypt_block(&mut b);
    let mut out = [0u8; 16];
    out.copy_from_slice(b.as_slice());
    out
}

/// `aes::Aes256` `decrypt_block`: decrypts one block; AES encryption under
/// the same key gives the block back.
#[verifier::external_body]
fn aes_decrypt(key: &[u8; 32], block: &[u8; 16]) -> (r: [u8; 16])
    ensures
        r@ == aes256_dec(key@, block@),
        aes256_enc(key@, r@) == block@,
{
    let cipher = aes::Aes256::new(key.into());
    let mut b = aes::Block::clone_from_slice(block);
    cipher.decrypt_block(&mut b);
    let mut out = [0u8; 16];
    out.copy_from_slice(b.as_slice());
    out
}

/// The magic "DEIXLUKS".
pub open spec fn luks_magic() -> Seq<u8> {
    seq![0x44u8, 0x45, 0x49, 0x58, 0x4C, 0x55, 0x4B, 0x53]
}

/// A sector holds a header: magic and version 1.
pub open spec fn is_header(raw: Seq<u8>) -> bool {
    raw.len() == 512 && raw.subrange(0, 8) == luks_magic() && le32(raw, 8) == VERSION
}

pub open spec fn iterations_of(raw: Seq<u8>) -> u32 {
    le32(raw, 12) as u32
}

pub open spec fn check_of_header(raw: Seq<u8>) -> Seq<u8> {
    raw.subrange(16, 48)
}

pub open spec fn slot_off(i: int) -> int {
    SLOT_BASE + i * SLOT_SIZE
}

/// Slot `i` is in use.
pub open spec fn slot_used_in(raw: Seq<u8>, i: int) -> bool {
    0 <= i < MAX_SLOTS && raw[slot_off(i)] == 1
}

/// Number of used slots among the first `n`.
pub open spec fn used_count(raw: Seq<u8>, n: int) -> nat
    decreases n,
{
    if n <= 0 {
        0
    } else {
        used_count(raw, n - 1) + if slot_used_in(raw, n - 1) { 1nat } else { 0nat }
    }
}

pub open spec fn salt_of(raw: Seq<u8>, i: int) -> Seq<u8> {
    raw.subrange(slot_off(i) + 8, slot_off(i) + 24)
}

pub open spec fn sealed_of(raw: Seq<u8>, i: int) -> Seq<u8> {
    raw.subrange(slot_off(i) + 24, slot_off(i) + 56)
}

/// The key that seals a slot: the first 32 bytes of PBKDF2 of the password.
pub open spec fn kek_of(password: Seq<u8>, salt: Seq<u8>, rounds: u32) -> Seq<u8> {
    pbkdf2_sha512(password, salt, rounds).subrange(0, 32)
}

/// A master key sealed block by block with AES-256.
pub open spec fn seal(kek: Seq<u8>, mk: Seq<u8>) -> Seq<u8> {
    aes256_enc(kek, mk.subrange(0, 16)) + aes256_enc(kek, mk.subrange(16, 32))
}

pub open spec fn unseal(kek: Seq<u8>, sealed: Seq<u8>) -> Seq<u8> {
    aes256_dec(kek, sealed.subrange(0, 16)) + aes256_dec(kek, sealed.subrange(16, 32))
}

/// The check value of a master key: the first 32 bytes of its SHA-512.
pub open spec fn check_of(mk: Seq<u8>) -> Seq<u8> {
    sha512_digest(mk).subrange(0, 32)
}

/// The master key slot `i` yields for a password.
pub open spec fn slot_key(raw: Seq<u8>, password: Seq<u8>, i: int) -> Seq<u8> {
    unseal(kek_of(password, salt_of(raw, i), iterations_of(raw)), sealed_of(raw, i))
}

/// Slot `i` is in use and the password opens it: the key it yields has
/// the header's check value.
pub open spec fn opens(raw: Seq<u8>, password: Seq<u8>, i: int) -> bool {
    slot_used_in(raw, i) && check_of(slot_key(raw, password, i)) == check_of_header(raw)
}

/// The first slot from `i` on that the password opens, with its key.
pub open spec fn unlock_from(raw: Seq<u8>, password: Seq<u8>, i: int) -> Option<(Seq<u8>, int)>
    decreases MAX_SLOTS - i,
{
    if i < 0 || i >= MAX_SLOTS {
        None
    } else if opens(raw, password, i) {
        Some((slot_key(raw, password, i), i))
    } else {
        unlock_from(raw, password, i + 1)
    }
}

/// What `unlock` gives for a disk: nothing without a header, else the
/// first slot the password opens.
pub open spec fn unlocks(img: Seq<u8>, password: Seq<u8>) -> Option<(Seq<u8>, int)> {
    let raw = sector(img, HEADER_LBA as int);
    if is_header(raw) {
        unlock_from(raw, password, 0)
    } else {
        None
    }
}

/// If slot `j` opens, the search from any `i <= j` finds a slot.
pub proof fn lemma_unlock_finds(raw: Seq<u8>, password: Seq<u8>, i: int, j: int)
    requires
        0 <= i <= j,
        opens(raw, password, j),
    ensures
        unlock_from(raw, password, i) is Some,
        unlock_from(raw, password, i) matches Some((k, s)) ==> i <= s <= j && opens(raw, password, s)
            && k == slot_key(raw, password, s),
    decreases j - i,
{
    if i < j && !opens(raw, password, i) {
        lemma_unlock_finds(raw, password, i + 1, j);
    }
}

/// A parsed header: iteration count, check value and the raw sector.
pub struct Header {
    pub iterations: u32,
    pub mk_check: [u8; 32],
    pub raw: [u8; 512],
}

impl Header {
    pub open spec fn wf(&self) -> bool {
        &&& is_header(self.raw@)
        &&& self.iterations == iterations_of(self.raw@)
        &&& self.mk_check@ == check_of_header(self.raw@)
    }

    /// Whether slot `i` is in use; false past the last slot.
    pub fn slot_used(&self, i: usize) -> (r: bool)
        ensures
            r == slot_used_in(self.raw@, i as int),
    {
        if i >= MAX_SLOTS {
            return false;
        }
        self.raw[SLOT_BASE + i * SLOT_SIZE] == 1
    }

    fn slot_salt(&self, i: usize) -> (r: [u8; 16])
        requires
            i < MAX_SLOTS,
        ensures
            r@ == salt_of(self.raw@, i as int),
    {
        let o: usize = SLOT_BASE + i * SLOT_SIZE + 8;
        let mut s: [u8; 16] = [0u8; 16];
        let mut k: usize = 0;
        while k < 16
            invariant
                o == slot_off(i as int) + 8,
                i < MAX_SLOTS,
                k <= 16,
                forall|j: int| 0 <= j < k ==> s@[j] == self.raw@[o + j],
            decreases 16 - k,
        {
            s[k] = self.raw[o + k];
            k = k + 1;
        }
        assert(s@ =~= salt_of(self.raw@, i as int));
        s
    }

    fn slot_encrypted_mk(&self, i: usize) -> (r: [u8; 32])
        requires
            i < MAX_SLOTS,
        ensures
            r@ == sealed_of(self.raw@, i as int),
    {
        let o: usize = SLOT_BASE + i * SLOT_SIZE + 24;
        let mut s: [u8; 32] = [0u8; 32];
        let mut k: usize = 0;
        while k < 32
            invariant
                o == slot_off(i as int) + 24,
                i < MAX_SLOTS,
                k <= 32,
                forall|j: int| 0 <= j < k ==> s@[j] == self.raw@[o + j],
            decreases 32 - k,
        {
            s[k] = self.raw[o + k];
            k = k + 1;
        }
        assert(s@ =~= sealed_of(self.raw@, i as int));
        s
    }

    /// Number of slots in use.
    pub fn used_slots(&self) -> (r: usize)
        ensures
            r == used_count(self.raw@, MAX_SLOTS as int),
    {
        let mut n: usize = 0;
        let mut i: usize = 0;
        while i < MAX_SLOTS
            invariant
                i <= MAX_SLOTS,
                n == used_count(self.raw@, i as int),
                n <= i,
            decreases MAX_SLOTS - i,
        {
            if self.slot_used(i) {
                n = n + 1;
            }
            i = i + 1;
        }
        n
    }
}

fn derive_kek(password: &str, salt: &[u8; 16], iterations: u32) -> (r: [u8; 32])
    ensures
        r@ == kek_of(password.spec_bytes(), salt@, iterations),
{
    let full: [u8; 64] = pbkdf2(password.as_bytes(), salt, iterations);
    let mut kek: [u8; 32] = [0u8; 32];
    let mut k: usize = 0;
    while k < 32
        invariant
            k <= 32,
            forall|j: int| 0 <= j < k ==> kek@[j] == full@[j],
        decreases 32 - k,
    {
        kek[k] = full[k];
        k = k + 1;
    }
    assert(kek@ =~= full@.subrange(0, 32));
    kek
}

fn half(b: &[u8; 32], lo: usize) -> (r: [u8; 16])
    requires
        lo == 0 || lo == 16,
    ensures
        r@ == b@.subrange(lo as int, lo + 16),
{
    let mut h: [u8; 16] = [0u8; 16];
    let mut k: usize = 0;
    while k < 16
        invariant
            lo == 0 || lo == 16,
            k <= 16,
            forall|j: int| 0 <= j < k ==> h@[j] == b@[lo + j],
        decreases 16 - k,
    {
        h[k] = b[lo + k];
        k = k + 1;
    }
    assert(h@ =~= b@.subrange(lo as int, lo + 16));
    h
}

fn join(a: &[u8; 16], b: &[u8; 16]) -> (r: [u8; 32])
    ensures
        r@ == a@ + b@,
{
    let mut out: [u8; 32] = [0u8; 32];
    let mut k: usize = 0;
    while k < 16
        invariant
            k <= 16,
            forall|j: int| 0 <= j < k ==> out@[j] == a@[j],
            forall|j: int| 16 <= j < 32 ==> out@[j] == 0,
        decreases 16 - k,
    {
        out[k] = a[k];
        k = k + 1;
    }
    let mut k: usize = 0;
    while k < 16
        invariant
            k <= 16,
            forall|j: int| 0 <= j < 16 ==> out@[j] == a@[j],
            forall|j: int| 0 <= j < k ==> out@[16 + j] == b@[j],
        decreases 16 - k,
    {
        out[16 + k] = b[k];
        k = k + 1;
    }
    assert(out@ =~= a@ + b@);
    out
}

/// Seals (or, without `encrypt`, unseals) a master key with the key `kek`.
fn crypt_mk(kek: &[u8; 32], mk: &[u8; 32], encrypt: bool) -> (r: [u8; 32])
    ensures
        encrypt ==> r@ == seal(kek@, mk@) && unseal(kek@, r@) == mk@,
        !encrypt ==> r@ == unseal(kek@, mk@),
{
    let a: [u8; 16] = half(mk, 0);
    let b: [u8; 16] = half(mk, 16);
    if encrypt {
        let x: [u8; 16] = aes_encrypt(kek, &a);
        let y: [u8; 16] = aes_encrypt(kek, &b);
        let r: [u8; 32] = join(&x, &y);
        assert(r@.subrange(0, 16) =~= x@);
        assert(r@.subrange(16, 32) =~= y@);
        assert(a@ + b@ =~= mk@);
        r
    } else {
        let x: [u8; 16] = aes_decrypt(kek, &a);
        let y: [u8; 16] = aes_decrypt(kek, &b);
        join(&x, &y)
    }
}

/// Reads the header sector; `None` without magic and version 1.
pub fn read_header(disk: &RamDisk) -> (r: Option<Header>)
    requires
        disk.wf(),
    ensures
        is_header(sector(disk@, HEADER_LBA as int)) ==> (r matches Some(h) && h.wf() && h.raw@ == sector(
            disk@,
            HEADER_LBA as int,
        )),
        !is_header(sector(disk@, HEADER_LBA as int)) ==> r is None,
{
    let mut buf: Vec<u8> = crate::bytes::zeros(512);
    match disk.read_sector(HEADER_LBA, &mut buf) {
        Ok(()) => {},
        Err(()) => {
            return None;
        },
    }
    assert(buf@ =~= sector(disk@, HEADER_LBA as int));
    let magic: [u8; 8] = [0x44, 0x45, 0x49, 0x58, 0x4C, 0x55, 0x4B, 0x53];
    assert(magic@ == luks_magic());
    if !crate::bytes::bytes_eq_at(buf.as_slice(), 0, &magic) {
        return None;
    }
    if crate::bytes::rd_le32(buf.as_slice(), 8) != VERSION {
        return None;
    }
    let iterations: u32 = crate::bytes::rd_le32(buf.as_slice(), 12);
    let mut raw: [u8; 512] = [0u8; 512];
    let mut k: usize = 0;
    while k < 512
        invariant
            buf@.len() == 512,
            k <= 512,
            forall|j: int| 0 <= j < k ==> raw@[j] == buf@[j],
        decreases 512 - k,
    {
        raw[k] = buf[k];
        k = k + 1;
    }
    assert(raw@ =~= buf@);
    let mut mk_check: [u8; 32] = [0u8; 32];
    let mut k: usize = 0;
    while k < 32
        invariant
            raw@.len() == 512,
            k <= 32,
            forall|j: int| 0 <= j < k ==> mk_check@[j] == raw@[16 + j],
        decreases 32 - k,
    {
        mk_check[k] = raw[16 + k];
        k = k + 1;
    }
    assert(mk_check@ =~= check_of_header(raw@));
    Some(Header { iterations, mk_check, raw })
}

fn write_header(disk: &mut RamDisk, h: &Header) -> (r: Result<(), ()>)
    requires
        old(disk).wf(),
    ensures
        final(disk).wf(),
        r is Ok,
        final(disk)@ == splice(old(disk)@, HEADER_LBA * 512, h.raw@),
        sector(final(disk)@, HEADER_LBA as int) == h.raw@,
{
    let r = disk.write_sector(HEADER_LBA, &h.raw);
    assert(h.raw@.subrange(0, 512) =~= h.raw@);
    assert(sector(disk@, HEADER_LBA as int) =~= h.raw@);
    r
}

/// Whether the disk carries a header with slots.
pub fn header_exists(disk: &RamDisk) -> (r: bool)
    requires
        disk.wf(),
    ensures
        r == is_header(sector(disk@, HEADER_LBA as int)),
{
    read_header(disk).is_some()
}

/// Fills slot `idx`: in use, the salt, and the master key sealed with the
/// password's key.
fn add_slot_internal(h: &mut Header, idx: usize, password: &str, mk: &[u8; 32], salt: &[u8; 16]) -> (r: Result<(), ()>)
    requires
        old(h).wf(),
    ensures
        idx >= MAX_SLOTS ==> r is Err && *final(h) == *old(h),
        idx < MAX_SLOTS ==> r is Ok && final(h).wf() && final(h).raw@ == splice(
            old(h).raw@,
            slot_off(idx as int),
            seq![1u8, 0, 0, 0, 0, 0, 0, 0] + salt@ + seal(kek_of(password.spec_bytes(), salt@, old(h).iterations), mk@),
        ) && unseal(kek_of(password.spec_bytes(), salt@, old(h).iterations), sealed_of(final(h).raw@, idx as int)) == mk@,
        idx < MAX_SLOTS ==> slot_used_in(final(h).raw@, idx as int) && salt_of(final(h).raw@, idx as int) == salt@,
        idx < MAX_SLOTS ==> forall|j: int| 0 <= j < 512 && !(slot_off(idx as int) <= j < slot_off(idx as int) + 56)
            ==> #[trigger] final(h).raw@[j] == old(h).raw@[j],
        final(h).iterations == old(h).iterations,
        final(h).mk_check == old(h).mk_check,
{
    if idx >= MAX_SLOTS {
        return Err(());
    }
    let kek: [u8; 32] = derive_kek(password, salt, h.iterations);
    let sealed: [u8; 32] = crypt_mk(&kek, mk, true);
    let o: usize = SLOT_BASE + idx * SLOT_SIZE;
    let ghost r0 = h.raw@;
    let ghost content = seq![1u8, 0, 0, 0, 0, 0, 0, 0] + salt@ + sealed@;
    let mut raw: [u8; 512] = h.raw;
    raw[o] = 1;
    let mut k: usize = 1;
    while k < 8
        invariant
            o == slot_off(idx as int),
            idx < MAX_SLOTS,
            1 <= k <= 8,
            forall|j: int| 0 <= j < 512 && !(o <= j < o + k) ==> raw@[j] == r0[j],
            raw@[o as int] == 1,
            forall|j: int| o < j < o + k ==> raw@[j] == 0,
        decreases 8 - k,
    {
        raw[o + k] = 0;
        k = k + 1;
    }
    let mut k: usize = 0;
    while k < 16
        invariant
            o == slot_off(idx as int),
            idx < MAX_SLOTS,
            k <= 16,
            forall|j: int| 0 <= j < 512 && !(o <= j < o + 8 + k) ==> raw@[j] == r0[j],
            forall|j: int| o <= j < o + 8 ==> raw@[j] == content[j - o],
            forall|j: int| o + 8 <= j < o + 8 + k ==> raw@[j] == salt@[j - o - 8],
        decreases 16 - k,
    {
        raw[o + 8 + k] = salt[k];
        k = k + 1;
    }
    let mut k: usize = 0;
    while k < 32
        invariant
            o == slot_off(idx as int),
            idx < MAX_SLOTS,
            k <= 32,
            forall|j: int| 0 <= j < 512 && !(o <= j < o + 24 + k) ==> raw@[j] == r0[j],
            forall|j: int| o <= j < o + 24 ==> raw@[j] == content[j - o],
            forall|j: int| o + 24 <= j < o + 24 + k ==> raw@[j] == sealed@[j - o - 24],
        decreases 32 - k,
    {
        raw[o + 24 + k] = sealed[k];
        k = k + 1;
    }
    assert(raw@ =~= splice(r0, o as int, content));
    assert(sealed_of(raw@, idx as int) =~= sealed@);
    assert(salt_of(raw@, idx as int) =~= salt@);
    assert(raw@.subrange(0, 8) =~= r0.subrange(0, 8));
    assert(raw@.subrange(8, 12) =~= r0.subrange(8, 12));
    assert(raw@.subrange(12, 16) =~= r0.subrange(12, 16));
    assert(check_of_header(raw@) =~= check_of_header(r0));
    h.raw = raw;
    Ok(())
}

/// The header `create` writes before its slot is filled.
pub open spec fn fresh_header(iterations: u32, mk: Seq<u8>) -> Seq<u8> {
    splice(
        Seq::new(512, |i: int| 0u8),
        0,
        luks_magic() + le32_bytes(VERSION) + le32_bytes(iterations) + check_of(mk),
    )
}

/// Creates the header: check value of the master key `mk` and slot 0
/// sealed with `password` and `salt`; returns the master key. The caller
/// supplies `mk` and `salt` from a random source.
pub fn create(disk: &mut RamDisk, password: &str, iterations: u32, mk: [u8; 32], salt: [u8; 16]) -> (r: Result<[u8; 32], ()>)
    requires
        old(disk).wf(),
    ensures
        final(disk).wf(),
        r == Ok::<[u8; 32], ()>(mk),
        sector(final(disk)@, HEADER_LBA as int) == splice(
            fresh_header(iterations, mk@),
            SLOT_BASE as int,
            seq![1u8, 0, 0, 0, 0, 0, 0, 0] + salt@ + seal(kek_of(password.spec_bytes(), salt@, iterations), mk@),
        ),
        unlocks(final(disk)@, password.spec_bytes()) == Some((mk@, 0int)),
{
    let mut buf: Vec<u8> = crate::bytes::zeros(512);
    let magic: [u8; 8] = [0x44, 0x45, 0x49, 0x58, 0x4C, 0x55, 0x4B, 0x53];
    crate::bytes::write_bytes(&mut buf, 0, &magic);
    crate::bytes::put_le32(&mut buf, 8, VERSION);
    crate::bytes::put_le32(&mut buf, 12, iterations);
    let check: [u8; 64] = sha512(&mk);
    let mut mk_check: [u8; 32] = [0u8; 32];
    let mut k: usize = 0;
    while k < 32
        invariant
            k <= 32,
            forall|j: int| 0 <= j < k ==> mk_check@[j] == check@[j],
        decreases 32 - k,
    {
        mk_check[k] = check[k];
        k = k + 1;
    }
    assert(mk_check@ =~= check_of(mk@));
    crate::bytes::write_bytes(&mut buf, 16, &mk_check);
    let mut raw: [u8; 512] = [0u8; 512];
    let mut k: usize = 0;
    while k < 512
        invariant
            buf@.len() == 512,
            k <= 512,
            forall|j: int| 0 <= j < k ==> raw@[j] == buf@[j],
        decreases 512 - k,
    {
        raw[k] = buf[k];
        k = k + 1;
    }
    assert(raw@ =~= buf@);
    proof {
        crate::bytes::lemma_le32_roundtrip(VERSION);
        crate::bytes::lemma_le32_roundtrip(iterations);
    }
    assert(raw@ =~= fresh_header(iterations, mk@));
    assert(raw@.subrange(0, 8) =~= luks_magic());
    assert(raw@.subrange(8, 12) =~= le32_bytes(VERSION));
    assert(raw@.subrange(12, 16) =~= le32_bytes(iterations));
    assert(le32(raw@, 8) == le32(le32_bytes(VERSION), 0));
    assert(le32(raw@, 12) == le32(le32_bytes(iterations), 0));
    assert(check_of_header(raw@) =~= check_of(mk@));
    let mut h: Header = Header { iterations, mk_check, raw };
    let _ = add_slot_internal(&mut h, 0, password, &mk, &salt);
    let _ = write_header(disk, &h);
    proof {
        let hr = sector(disk@, HEADER_LBA as int);
        assert(hr == h.raw@);
        assert(slot_used_in(hr, 0));
        assert(salt_of(hr, 0) =~= salt@);
        assert(slot_key(hr, password.spec_bytes(), 0) == mk@);
        assert(opens(hr, password.spec_bytes(), 0));
    }
    Ok(mk)
}

/// Opens the volume with a password: the master key and the slot of the
/// first slot the password opens.
pub fn unlock(disk: &RamDisk, password: &str) -> (r: Option<([u8; 32], usize)>)
    requires
        disk.wf(),
    ensures
        match unlocks(disk@, password.spec_bytes()) {
            None => r is None,
            Some((k, i)) => r matches Some((mk, s)) && mk@ == k && s == i,
        },
{
    let h: Header = match read_header(disk) {
        Some(h) => h,
        None => {
            return None;
        },
    };
    let mut i: usize = 0;
    while i < MAX_SLOTS
        invariant
            h.wf(),
            h.raw@ == sector(disk@, HEADER_LBA as int),
            i <= MAX_SLOTS,
            unlock_from(h.raw@, password.spec_bytes(), 0) == unlock_from(h.raw@, password.spec_bytes(), i as int),
        decreases MAX_SLOTS - i,
    {
        if h.slot_used(i) {
            let salt: [u8; 16] = h.slot_salt(i);
            let kek: [u8; 32] = derive_kek(password, &salt, h.iterations);
            let sealed: [u8; 32] = h.slot_encrypted_mk(i);
            let mk: [u8; 32] = crypt_mk(&kek, &sealed, false);
            let check: [u8; 64] = sha512(&mk);
            let ok: bool = crate::bytes::bytes_eq_at(&check, 0, &h.mk_check);
            assert(check@.subrange(0, 32) == check_of(mk@));
            if ok {
                return Some((mk, i));
            }
        }
        i = i + 1;
    }
    None
}

/// The first free slot from `i` on.
pub open spec fn free_from(raw: Seq<u8>, i: int) -> Option<int>
    decreases MAX_SLOTS - i,
{
    if i < 0 || i >= MAX_SLOTS {
        None
    } else if !slot_used_in(raw, i) {
        Some(i)
    } else {
        free_from(raw, i + 1)
    }
}

proof fn lemma_free_from(raw: Seq<u8>, i: int)
    requires
        0 <= i,
    ensures
        free_from(raw, i) matches Some(k) ==> i <= k < MAX_SLOTS && !slot_used_in(raw, k),
    decreases MAX_SLOTS - i,
{
    if i < MAX_SLOTS && slot_used_in(raw, i) {
        lemma_free_from(raw, i + 1);
    }
}

fn first_free(h: &Header) -> (r: Option<usize>)
    ensures
        r matches Some(i) ==> i < MAX_SLOTS,
        match free_from(h.raw@, 0) {
            None => r is None,
            Some(i) => r == Some(i as usize),
        },
{
    let mut i: usize = 0;
    while i < MAX_SLOTS
        invariant
            i <= MAX_SLOTS,
            free_from(h.raw@, 0) == free_from(h.raw@, i as int),
        decreases MAX_SLOTS - i,
    {
        if !h.slot_used(i) {
            proof {
                lemma_free_from(h.raw@, 0);
            }
            return Some(i);
        }
        i = i + 1;
    }
    None
}

proof fn lemma_slot_opens(raw: Seq<u8>, password: Seq<u8>, i: int, mk: Seq<u8>)
    requires
        slot_used_in(raw, i),
        slot_key(raw, password, i) == mk,
        check_of(mk) == check_of_header(raw),
    ensures
        unlock_from(raw, password, 0) is Some,
{
    lemma_unlock_finds(raw, password, 0, i);
}

/// Seals the master key `mk` with `new_password` into the first free
/// slot of header `h` and writes the header; returns the slot.
fn seal_into_free_slot(disk: &mut RamDisk, h: Header, new_password: &str, mk: &[u8; 32], salt: &[u8; 16]) -> (r: Result<usize, &'static str>)
    requires
        old(disk).wf(),
        h.wf(),
    ensures
        final(disk).wf(),
        free_from(h.raw@, 0) is None ==> (r matches Err(m) && m@ == "все слоты заняты"@ && final(disk)@ == old(disk)@),
        free_from(h.raw@, 0) matches Some(i) ==> (r == Ok::<usize, &'static str>(i as usize) && is_header(
            sector(final(disk)@, HEADER_LBA as int),
        ) && slot_used_in(sector(final(disk)@, HEADER_LBA as int), i) && slot_key(
            sector(final(disk)@, HEADER_LBA as int),
            new_password.spec_bytes(),
            i,
        ) == mk@ && check_of_header(sector(final(disk)@, HEADER_LBA as int)) == check_of_header(h.raw@)),
{
    let free: usize = match first_free(&h) {
        Some(i) => i,
        None => {
            return Err("все слоты заняты");
        },
    };
    let ghost h0 = h;
    let mut h = h;
    let _ = add_slot_internal(&mut h, free, new_password, mk, salt);
    let _ = write_header(disk, &h);
    proof {
        let hr = sector(disk@, HEADER_LBA as int);
        lemma_free_from(h0.raw@, 0);
        assert(free_from(h0.raw@, 0) == Some(free as int));
        assert(hr == h.raw@);
        assert(iterations_of(hr) == h0.iterations);
        assert(salt_of(hr, free as int) == salt@);
        assert(slot_key(hr, new_password.spec_bytes(), free as int) == mk@);
        assert(check_of_header(hr) == h0.mk_check@);
    }
    Ok(free)
}

/// Adds a password in the first free slot; any valid password must be
/// given, as the master key comes from its slot.
pub fn add_password(disk: &mut RamDisk, existing: &str, new_password: &str, salt: [u8; 16]) -> (r: Result<usize, &'static str>)
    requires
        old(disk).wf(),
    ensures
        final(disk).wf(),
        unlocks(old(disk)@, existing.spec_bytes()) is None ==> (r matches Err(m) && m@ == "неверный текущий пароль"@
            && final(disk)@ == old(disk)@),
        unlocks(old(disk)@, existing.spec_bytes()) is Some && free_from(sector(old(disk)@, HEADER_LBA as int), 0) is None
            ==> (r matches Err(m) && m@ == "все слоты заняты"@ && final(disk)@ == old(disk)@),
        unlocks(old(disk)@, existing.spec_bytes()) is Some ==> (free_from(sector(old(disk)@, HEADER_LBA as int), 0)
            matches Some(i) ==> r == Ok::<usize, &'static str>(i as usize)),
        r is Ok ==> unlocks(final(disk)@, new_password.spec_bytes()) is Some,
{
    let mk: [u8; 32] = match unlock(disk, existing) {
        Some((k, _)) => k,
        None => {
            return Err("неверный текущий пароль");
        },
    };
    let h: Header = match read_header(disk) {
        Some(h) => h,
        None => {
            return Err("заголовок тома не найден");
        },
    };
    proof {
        let raw = sector(disk@, HEADER_LBA as int);
        lemma_unlock_some(raw, existing.spec_bytes(), 0);
    }
    let r = seal_into_free_slot(disk, h, new_password, &mk, &salt);
    proof {
        if r is Ok {
            let hr = sector(disk@, HEADER_LBA as int);
            let i = r->Ok_0 as int;
            lemma_slot_opens(hr, new_password.spec_bytes(), i, mk@);
        }
    }
    r
}

/// A found slot opens and gives the key the search reports.
proof fn lemma_unlock_some(raw: Seq<u8>, password: Seq<u8>, i: int)
    requires
        0 <= i,
    ensures
        unlock_from(raw, password, i) matches Some((k, s)) ==> opens(raw, password, s) && k == slot_key(raw, password, s)
            && i <= s < MAX_SLOTS,
    decreases MAX_SLOTS - i,
{
    if i < MAX_SLOTS && !opens(raw, password, i) {
        lemma_unlock_some(raw, password, i + 1);
    }
}


/// Header bytes that agree outside slot `idx` give every other slot the
/// same salt, sealed key and use flag, and the same iteration count and
/// check value.
proof fn lemma_other_slot(raw: Seq<u8>, raw2: Seq<u8>, idx: int, j: int)
    requires
        raw.len() == 512,
        raw2.len() == 512,
        0 <= idx < MAX_SLOTS,
        0 <= j < MAX_SLOTS,
        j != idx,
        forall|k: int| 0 <= k < 512 && !(slot_off(idx) <= k < slot_off(idx) + 56) ==> #[trigger] raw2[k] == raw[k],
    ensures
        slot_used_in(raw2, j) == slot_used_in(raw, j),
        salt_of(raw2, j) == salt_of(raw, j),
        sealed_of(raw2, j) == sealed_of(raw, j),
{
    assert(raw2[slot_off(j)] == raw[slot_off(j)]);
    assert(salt_of(raw2, j) =~= salt_of(raw, j));
    assert(sealed_of(raw2, j) =~= sealed_of(raw, j));
}

proof fn lemma_header_fields(raw: Seq<u8>, raw2: Seq<u8>)
    requires
        raw.len() == 512,
        raw2.len() == 512,
        forall|k: int| 0 <= k < SLOT_BASE ==> #[trigger] raw2[k] == raw[k],
    ensures
        is_header(raw2) == is_header(raw),
        iterations_of(raw2) == iterations_of(raw),
        check_of_header(raw2) == check_of_header(raw),
{
    assert(raw2.subrange(0, 8) =~= raw.subrange(0, 8));
    assert(check_of_header(raw2) =~= check_of_header(raw));
    assert(raw2[8] == raw[8] && raw2[9] == raw[9] && raw2[10] == raw[10] && raw2[11] == raw[11]);
    assert(raw2[12] == raw[12] && raw2[13] == raw[13] && raw2[14] == raw[14] && raw2[15] == raw[15]);
}

/// Clearing a slot the password does not find first leaves what it
/// unlocks unchanged.
proof fn lemma_unlock_after_clear(raw: Seq<u8>, raw2: Seq<u8>, pw: Seq<u8>, idx: int, i: int)
    requires
        0 <= i,
        0 <= idx < MAX_SLOTS,
        raw.len() == 512,
        raw2.len() == 512,
        forall|k: int| 0 <= k < 512 && !(slot_off(idx) <= k < slot_off(idx) + 56) ==> #[trigger] raw2[k] == raw[k],
        raw2[slot_off(idx)] == 0,
        unlock_from(raw, pw, i) matches Some((k, s)) ==> s != idx,
    ensures
        unlock_from(raw2, pw, i) == unlock_from(raw, pw, i),
    decreases MAX_SLOTS - i,
{
    if i < MAX_SLOTS {
        assert forall|k: int| 0 <= k < SLOT_BASE implies #[trigger] raw2[k] == raw[k] by {
        }
        lemma_header_fields(raw, raw2);
        if i != idx {
            lemma_other_slot(raw, raw2, idx, i);
        }
        if !opens(raw, pw, i) {
            lemma_unlock_after_clear(raw, raw2, pw, idx, i + 1);
        }
    }
}

/// Zeroes slot `idx`: flag, salt and sealed key.
fn clear_slot(h: &mut Header, idx: usize)
    requires
        old(h).wf(),
        idx < MAX_SLOTS,
    ensures
        final(h).wf(),
        final(h).iterations == old(h).iterations,
        final(h).mk_check == old(h).mk_check,
        final(h).raw@ == splice(old(h).raw@, slot_off(idx as int), Seq::new(56, |k: int| 0u8)),
        forall|k: int| 0 <= k < 512 && !(slot_off(idx as int) <= k < slot_off(idx as int) + 56) ==> #[trigger] final(h).raw@[k]
            == old(h).raw@[k],
        final(h).raw@[slot_off(idx as int)] == 0,
{
    let o: usize = SLOT_BASE + idx * SLOT_SIZE;
    let ghost r0 = h.raw@;
    let mut raw: [u8; 512] = h.raw;
    let mut k: usize = 0;
    while k < SLOT_SIZE
        invariant
            o == slot_off(idx as int),
            idx < MAX_SLOTS,
            k <= SLOT_SIZE,
            forall|j: int| 0 <= j < 512 && !(o <= j < o + k) ==> raw@[j] == r0[j],
            forall|j: int| o <= j < o + k ==> raw@[j] == 0,
        decreases SLOT_SIZE - k,
    {
        raw[o + k] = 0;
        k = k + 1;
    }
    assert(raw@ =~= splice(r0, o as int, Seq::new(56, |j: int| 0u8)));
    assert(raw@.subrange(0, 8) =~= r0.subrange(0, 8));
    proof {
        lemma_header_fields(r0, raw@);
    }
    h.raw = raw;
}

/// Deletes slot `idx`, given a valid password. The last used slot and the
/// slot the password opened stay.
pub fn remove_slot(disk: &mut RamDisk, existing: &str, idx: usize) -> (r: Result<(), &'static str>)
    requires
        old(disk).wf(),
    ensures
        final(disk).wf(),
        r is Err ==> final(disk)@ == old(disk)@,
        ({
            let raw = sector(old(disk)@, HEADER_LBA as int);
            match unlocks(old(disk)@, existing.spec_bytes()) {
                None => r matches Err(m) && m@ == "неверный пароль"@,
                Some((_, cur)) => if !slot_used_in(raw, idx as int) {
                    r matches Err(m) && m@ == "слот пуст"@
                } else if used_count(raw, MAX_SLOTS as int) <= 1 {
                    r matches Err(m) && m@ == "это последний пароль — удаление сделает том недоступным"@
                } else if idx == cur {
                    r matches Err(m) && m@ == "нельзя удалить слот, которым вы вошли"@
                } else {
                    r is Ok && sector(final(disk)@, HEADER_LBA as int) == splice(raw, slot_off(idx as int), Seq::new(56, |k: int| 0u8))
                },
            }
        }),
        r is Ok ==> unlocks(final(disk)@, existing.spec_bytes()) == unlocks(old(disk)@, existing.spec_bytes()),
{
    let cur: usize = match unlock(disk, existing) {
        Some((_, i)) => i,
        None => {
            return Err("неверный пароль");
        },
    };
    let mut h: Header = match read_header(disk) {
        Some(h) => h,
        None => {
            return Err("заголовок тома не найден");
        },
    };
    if idx >= MAX_SLOTS || !h.slot_used(idx) {
        return Err("слот пуст");
    }
    if h.used_slots() <= 1 {
        return Err("это последний пароль — удаление сделает том недоступным");
    }
    if idx == cur {
        return Err("нельзя удалить слот, которым вы вошли");
    }
    let ghost raw0 = h.raw@;
    clear_slot(&mut h, idx);
    let _ = write_header(disk, &h);
    proof {
        lemma_unlock_some(raw0, existing.spec_bytes(), 0);
        lemma_unlock_after_clear(raw0, h.raw@, existing.spec_bytes(), idx as int, 0);
    }
    Ok(())
}

/// Sets the PBKDF2 iteration count (1 000 to 50 000 000) and reseals:
/// every slot is cleared and slot 0 sealed anew with `password`.
pub fn set_iterations(disk: &mut RamDisk, password: &str, iterations: u32, salt: [u8; 16]) -> (r: Result<(), &'static str>)
    requires
        old(disk).wf(),
    ensures
        final(disk).wf(),
        r is Err ==> final(disk)@ == old(disk)@,
        !(MIN_ITERATIONS <= iterations <= MAX_ITERATIONS) ==> (r matches Err(m) && m@
            == "допустимо от 1 000 до 50 000 000 итераций"@),
        MIN_ITERATIONS <= iterations <= MAX_ITERATIONS && unlocks(old(disk)@, password.spec_bytes()) is None ==> (r matches Err(
            m,
        ) && m@ == "неверный пароль"@),
        MIN_ITERATIONS <= iterations <= MAX_ITERATIONS ==> (unlocks(old(disk)@, password.spec_bytes()) matches Some((mk, _)) ==> (r is Ok
            && iterations_of(sector(final(disk)@, HEADER_LBA as int)) == iterations
            && unlocks(final(disk)@, password.spec_bytes()) == Some((mk, 0int)))),
{
    if iterations < MIN_ITERATIONS || iterations > MAX_ITERATIONS {
        return Err("допустимо от 1 000 до 50 000 000 итераций");
    }
    let mk: [u8; 32] = match unlock(disk, password) {
        Some((k, _)) => k,
        None => {
            return Err("неверный пароль");
        },
    };
    let mut h: Header = match read_header(disk) {
        Some(h) => h,
        None => {
            return Err("заголовок тома не найден");
        },
    };
    proof {
        lemma_unlock_some(h.raw@, password.spec_bytes(), 0);
    }
    let ghost check0 = check_of_header(h.raw@);
    assert(check_of(mk@) == check0);
    let mut i: usize = 0;
    while i < MAX_SLOTS
        invariant
            h.wf(),
            check_of_header(h.raw@) == check0,
            i <= MAX_SLOTS,
        decreases MAX_SLOTS - i,
    {
        clear_slot(&mut h, i);
        i = i + 1;
    }
    let mut raw: [u8; 512] = h.raw;
    let ghost r1 = raw@;
    raw[12] = (iterations % 0x100) as u8;
    raw[13] = ((iterations / 0x100) % 0x100) as u8;
    raw[14] = ((iterations / 0x10000) % 0x100) as u8;
    raw[15] = (iterations / 0x1000000) as u8;
    proof {
        crate::bytes::lemma_le32_roundtrip(iterations);
    }
    assert(raw@.subrange(0, 8) =~= r1.subrange(0, 8));
    assert(check_of_header(raw@) =~= check_of_header(r1));
    assert(le32(raw@, 12) == le32(le32_bytes(iterations), 0));
    h = Header { iterations, mk_check: h.mk_check, raw };
    let _ = add_slot_internal(&mut h, 0, password, &mk, &salt);
    let _ = write_header(disk, &h);
    proof {
        let hr = sector(disk@, HEADER_LBA as int);
        assert(hr == h.raw@);
        assert(slot_key(hr, password.spec_bytes(), 0) == mk@);
        assert(opens(hr, password.spec_bytes(), 0));
    }
    Ok(())
}

/// Adds a password with the master key of an already unlocked volume
/// (`master`, `None` when it is locked).
pub fn add_password_with_master(disk: &mut RamDisk, new_password: &str, master: Option<[u8; 32]>, salt: [u8; 16]) -> (r: Result<usize, &'static str>)
    requires
        old(disk).wf(),
    ensures
        final(disk).wf(),
        r is Err ==> final(disk)@ == old(disk)@,
        master is None ==> (r matches Err(m) && m@ == "том не разблокирован"@),
        master is Some && !is_header(sector(old(disk)@, HEADER_LBA as int)) ==> (r matches Err(m) && m@
            == "заголовок тома не найден"@),
        master is Some && is_header(sector(old(disk)@, HEADER_LBA as int)) ==> match free_from(sector(old(disk)@, HEADER_LBA as int), 0) {
            None => r matches Err(m) && m@ == "все слоты заняты"@,
            Some(i) => r == Ok::<usize, &'static str>(i as usize),
        },
        r is Ok && (master matches Some(mk) && check_of(mk@) == check_of_header(sector(old(disk)@, HEADER_LBA as int)))
            ==> unlocks(final(disk)@, new_password.spec_bytes()) is Some,
{
    let mk: [u8; 32] = match master {
        Some(k) => k,
        None => {
            return Err("том не разблокирован");
        },
    };
    let h: Header = match read_header(disk) {
        Some(h) => h,
        None => {
            return Err("заголовок тома не найден");
        },
    };
    let r = seal_into_free_slot(disk, h, new_password, &mk, &salt);
    proof {
        if r is Ok && check_of(mk@) == check_of_header(h.raw@) {
            let hr = sector(disk@, HEADER_LBA as int);
            let i = r->Ok_0 as int;
            lemma_slot_opens(hr, new_password.spec_bytes(), i, mk@);
        }
    }
    r
}

} // verus!
