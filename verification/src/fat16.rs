//! FAT16 volume at `FS_START_LBA`: boot sector with BPB, two copies of the
//! allocation table, a 512-entry root directory of 8.3 names, and one
//! sector per cluster. Only the root directory is used.
use vstd::prelude::*;
use crate::bytes::{le16, le32, splice, rd_le16, rd_le32, put_le16, put_le32};
use crate::ramdisk::{RamDisk, sector, RAMDISK_SECTORS, RAMDISK_SIZE};
use vstd::string::StringSliceAdditionalSpecFns;
use crate::text::{is_space, is_space_char, trim_end};

verus! {

pub const SECTOR_SIZE: usize = 512;
pub const FS_START_LBA: u32 = 4096;
pub const TOTAL_SECTORS: u32 = 8192;
pub const RESERVED_SECTORS: u32 = 1;
pub const NUM_FATS: u32 = 2;
pub const SECTORS_PER_FAT: u32 = 32;
pub const ROOT_ENTRIES: u32 = 512;
pub const SECTORS_PER_CLUSTER: u32 = 1;
pub const ROOT_DIR_SECTORS: u32 = 32;
pub const FAT_AREA_LBA: u32 = FS_START_LBA + RESERVED_SECTORS;
pub const ROOT_DIR_LBA: u32 = FAT_AREA_LBA + NUM_FATS * SECTORS_PER_FAT;
pub const DATA_AREA_LBA: u32 = ROOT_DIR_LBA + ROOT_DIR_SECTORS;
/// Clusters of the data area: the volume minus boot sector, tables and root.
pub const TOTAL_CLUSTERS: u32 = 8095;
pub const FAT_ENTRY_FREE: u16 = 0x0000;
pub const FAT_ENTRY_EOC: u16 = 0xFFFF;
pub const FAT_ENTRY_RESERVED: u16 = 0xFFF8;
pub const ATTR_DIRECTORY: u8 = 0x10;
pub const ATTR_VOLUME_LABEL: u8 = 0x08;
/// Longest cluster chain followed; a table of 16-bit entries has no longer one.
pub const MAX_CHAIN: u32 = 0x10000;

#[derive(Debug, Clone, Copy, PartialEq, Eq, Structural)]
pub enum FatError {
    DiskError,
    NotFormatted,
    FileNotFound,
    NoSpace,
    InvalidName,
    DirectoryFull,
}

/// A root-directory entry as listed: "NAME.EXT", size and directory flag.
#[derive(Debug)]
pub struct FileEntry {
    pub name: String,
    pub size: u32,
    pub is_directory: bool,
}

/// The OEM marker "DEIXFAT " of the boot sector.
pub open spec fn oem_marker() -> Seq<u8> {
    seq![0x44u8, 0x45, 0x49, 0x58, 0x46, 0x41, 0x54, 0x20]
}

/// The volume carries its boot signature 0x55 0xAA and the OEM marker.
pub open spec fn formatted(img: Seq<u8>) -> bool {
    let b = sector(img, FS_START_LBA as int);
    &&& b[510] == 0x55
    &&& b[511] == 0xAA
    &&& b.subrange(3, 11) == oem_marker()
}

/// Sector `b` is unchanged when sector `lba` is overwritten.
proof fn lemma_sector_frame(img: Seq<u8>, lba: int, d: Seq<u8>, b: int)
    requires
        img.len() == RAMDISK_SIZE,
        d.len() == 512,
        0 <= lba < RAMDISK_SECTORS,
        0 <= b < RAMDISK_SECTORS,
        lba != b,
    ensures
        sector(splice(img, lba * 512, d), b) == sector(img, b),
        splice(img, lba * 512, d).len() == img.len(),
{
    assert(sector(splice(img, lba * 512, d), b) =~= sector(img, b));
}

proof fn lemma_sector_written(img: Seq<u8>, lba: int, d: Seq<u8>)
    requires
        img.len() == RAMDISK_SIZE,
        d.len() == 512,
        0 <= lba < RAMDISK_SECTORS,
    ensures
        sector(splice(img, lba * 512, d), lba) == d,
{
    assert(sector(splice(img, lba * 512, d), lba) =~= d);
}

fn read_sector(disk: &RamDisk, lba: u32) -> (r: Result<Vec<u8>, FatError>)
    requires
        disk.wf(),
    ensures
        lba < RAMDISK_SECTORS ==> (r matches Ok(v) && v@ == sector(disk@, lba as int)),
        lba >= RAMDISK_SECTORS ==> r == Err::<Vec<u8>, FatError>(FatError::DiskError),
{
    let mut buf: Vec<u8> = crate::bytes::zeros(SECTOR_SIZE);
    match disk.read_sector(lba, &mut buf) {
        Ok(()) => {
            assert(buf@ =~= sector(disk@, lba as int));
            Ok(buf)
        },
        Err(()) => Err(FatError::DiskError),
    }
}

fn write_sector(disk: &mut RamDisk, lba: u32, data: &[u8]) -> (r: Result<(), FatError>)
    requires
        old(disk).wf(),
        data@.len() == SECTOR_SIZE,
    ensures
        final(disk).wf(),
        lba < RAMDISK_SECTORS ==> (r is Ok && final(disk)@ == splice(old(disk)@, lba * 512, data@)),
        lba >= RAMDISK_SECTORS ==> (r == Err::<(), FatError>(FatError::DiskError) && final(disk)@ == old(disk)@),
{
    match disk.write_sector(lba, data) {
        Ok(()) => {
            assert(data@.subrange(0, 512) =~= data@);
            Ok(())
        },
        Err(()) => Err(FatError::DiskError),
    }
}

/// Whether the volume is formatted: boot signature and OEM marker present.
pub fn is_formatted(disk: &RamDisk) -> (r: bool)
    requires
        disk.wf(),
    ensures
        r == formatted(disk@),
{
    let s: Vec<u8> = match read_sector(disk, FS_START_LBA) {
        Ok(v) => v,
        Err(_) => {
            return false;
        },
    };
    let marker: [u8; 8] = [0x44, 0x45, 0x49, 0x58, 0x46, 0x41, 0x54, 0x20];
    assert(marker@ == oem_marker());
    s[510] == 0x55 && s[511] == 0xAA && crate::bytes::bytes_eq_at(s.as_slice(), 3, &marker)
}

/// The boot sector with the volume's BPB and signature.
fn boot_sector() -> (r: Vec<u8>)
    ensures
        r@.len() == SECTOR_SIZE,
        r@[510] == 0x55,
        r@[511] == 0xAA,
        r@.subrange(3, 11) == oem_marker(),
{
    let mut b: Vec<u8> = crate::bytes::zeros(SECTOR_SIZE);
    b.set(0, 0xEB);
    b.set(1, 0x3C);
    b.set(2, 0x90);
    let marker: [u8; 8] = [0x44, 0x45, 0x49, 0x58, 0x46, 0x41, 0x54, 0x20];
    crate::bytes::write_bytes(&mut b, 3, &marker);
    put_le16(&mut b, 11, SECTOR_SIZE as u16);
    b.set(13, SECTORS_PER_CLUSTER as u8);
    put_le16(&mut b, 14, RESERVED_SECTORS as u16);
    b.set(16, NUM_FATS as u8);
    put_le16(&mut b, 17, ROOT_ENTRIES as u16);
    put_le16(&mut b, 19, TOTAL_SECTORS as u16);
    b.set(21, 0xF8);
    put_le16(&mut b, 22, SECTORS_PER_FAT as u16);
    put_le16(&mut b, 24, 63);
    put_le16(&mut b, 26, 16);
    put_le32(&mut b, 28, 0);
    b.set(36, 0x80);
    b.set(38, 0x29);
    put_le32(&mut b, 39, 0x12345678);
    let label: [u8; 11] = [0x44, 0x45, 0x49, 0x58, 0x20, 0x56, 0x4F, 0x4C, 0x20, 0x20, 0x20];
    crate::bytes::write_bytes(&mut b, 43, &label);
    let fs_type: [u8; 8] = [0x46, 0x41, 0x54, 0x31, 0x36, 0x20, 0x20, 0x20];
    crate::bytes::write_bytes(&mut b, 54, &fs_type);
    let ghost mid = b@;
    assert(mid.subrange(3, 11) =~= oem_marker());
    b.set(510, 0x55);
    b.set(511, 0xAA);
    assert(b@.subrange(3, 11) =~= mid.subrange(3, 11));
    b
}

/// Writes the boot sector, both allocation tables (entries 0 and 1
/// reserved, the rest free) and an empty root directory.
pub fn format(disk: &mut RamDisk) -> (r: Result<(), FatError>)
    requires
        old(disk).wf(),
    ensures
        final(disk).wf(),
        r is Ok,
        formatted(final(disk)@),
        forall|k: int| 0 <= k < ROOT_DIR_SECTORS ==> #[trigger] sector(final(disk)@, ROOT_DIR_LBA + k) == Seq::new(512, |i: int| 0u8),
{
    let boot: Vec<u8> = boot_sector();
    let _ = write_sector(disk, FS_START_LBA, boot.as_slice());
    proof {
        lemma_sector_written(old(disk)@, FS_START_LBA as int, boot@);
    }
    let ghost boot_sec = sector(disk@, FS_START_LBA as int);
    assert(formatted(disk@));
    let mut fat0: Vec<u8> = crate::bytes::zeros(SECTOR_SIZE);
    fat0.set(0, 0xF8);
    fat0.set(1, 0xFF);
    fat0.set(2, 0xFF);
    fat0.set(3, 0xFF);
    let zero: Vec<u8> = crate::bytes::zeros(SECTOR_SIZE);
    let mut fat_index: u32 = 0;
    while fat_index < NUM_FATS
        invariant
            disk.wf(),
            fat0@.len() == 512,
            zero@.len() == 512,
            sector(disk@, FS_START_LBA as int) == boot_sec,
            formatted(disk@),
            fat_index <= NUM_FATS,
        decreases NUM_FATS - fat_index,
    {
        let fat_base: u32 = FAT_AREA_LBA + fat_index * SECTORS_PER_FAT;
        let ghost d0 = disk@;
        let _ = write_sector(disk, fat_base, fat0.as_slice());
        proof {
            lemma_sector_frame(d0, fat_base as int, fat0@, FS_START_LBA as int);
        }
        let mut s: u32 = 1;
        while s < SECTORS_PER_FAT
            invariant
                disk.wf(),
                zero@.len() == 512,
                sector(disk@, FS_START_LBA as int) == boot_sec,
                formatted(disk@),
                fat_base == FAT_AREA_LBA + fat_index * SECTORS_PER_FAT,
                fat_index < NUM_FATS,
                1 <= s <= SECTORS_PER_FAT,
            decreases SECTORS_PER_FAT - s,
        {
            let ghost d1 = disk@;
            let _ = write_sector(disk, fat_base + s, zero.as_slice());
            proof {
                lemma_sector_frame(d1, fat_base + s, zero@, FS_START_LBA as int);
            }
            s = s + 1;
        }
        fat_index = fat_index + 1;
    }
    let mut s: u32 = 0;
    while s < ROOT_DIR_SECTORS
        invariant
            disk.wf(),
            zero@ == Seq::new(512, |i: int| 0u8),
            sector(disk@, FS_START_LBA as int) == boot_sec,
            formatted(disk@),
            s <= ROOT_DIR_SECTORS,
            forall|k: int| 0 <= k < s ==> #[trigger] sector(disk@, ROOT_DIR_LBA + k) == Seq::new(512, |i: int| 0u8),
        decreases ROOT_DIR_SECTORS - s,
    {
        let ghost d2 = disk@;
        let _ = write_sector(disk, ROOT_DIR_LBA + s, zero.as_slice());
        proof {
            lemma_sector_frame(d2, ROOT_DIR_LBA + s, zero@, FS_START_LBA as int);
            lemma_sector_written(d2, ROOT_DIR_LBA + s, zero@);
            assert forall|k: int| 0 <= k < s + 1 implies #[trigger] sector(disk@, ROOT_DIR_LBA + k) == Seq::new(512, |i: int| 0u8) by {
                if k < s {
                    lemma_sector_frame(d2, ROOT_DIR_LBA + s, zero@, ROOT_DIR_LBA + k);
                }
            }
        }
        s = s + 1;
    }
    Ok(())
}

/// Entry `c` of the first allocation table.
pub open spec fn fat_entry(img: Seq<u8>, c: u16) -> int {
    le16(sector(img, FAT_AREA_LBA + (c * 2) / 512), (c * 2) % 512)
}

fn read_fat_entry(disk: &RamDisk, cluster: u16) -> (r: Result<u16, FatError>)
    requires
        disk.wf(),
    ensures
        r matches Ok(v) && v == fat_entry(disk@, cluster),
{
    let byte_offset: u32 = cluster as u32 * 2;
    let lba: u32 = FAT_AREA_LBA + byte_offset / SECTOR_SIZE as u32;
    let offset_in_sector: usize = (byte_offset % SECTOR_SIZE as u32) as usize;
    let data: Vec<u8> = match read_sector(disk, lba) {
        Ok(d) => d,
        Err(e) => {
            return Err(e);
        },
    };
    Ok(rd_le16(data.as_slice(), offset_in_sector))
}

/// Sector of table copy `copy` holding entry `c`.
pub open spec fn fat_lba(copy: int, c: u16) -> int {
    FAT_AREA_LBA + copy * SECTORS_PER_FAT + (c * 2) / 512
}

/// Entries below 8192 lie in the 32 sectors of the first table.
pub open spec fn in_table(c: u16) -> bool {
    c < 8192
}

/// Overwriting a sector other than the one holding entry `c` keeps it.
proof fn lemma_fat_entry_frame(img: Seq<u8>, lba: int, d: Seq<u8>, c: u16)
    requires
        img.len() == RAMDISK_SIZE,
        d.len() == 512,
        0 <= lba < RAMDISK_SECTORS,
        in_table(c),
        lba != fat_lba(0, c),
    ensures
        fat_entry(splice(img, lba * 512, d), c) == fat_entry(img, c),
{
    lemma_sector_frame(img, lba, d, fat_lba(0, c));
}

/// Storing `v` into entry `c` of the first table sets that entry and no
/// other.
proof fn lemma_fat_entry_store(img: Seq<u8>, c: u16, v: u16, e: u16)
    requires
        img.len() == RAMDISK_SIZE,
        in_table(c),
        in_table(e),
    ensures
        ({
            let lba = fat_lba(0, c);
            let img2 = splice(img, lba * 512, splice(sector(img, lba), (c * 2) % 512, crate::bytes::le16_bytes(v)));
            &&& e == c ==> fat_entry(img2, e) == v
            &&& e != c ==> fat_entry(img2, e) == fat_entry(img, e)
        }),
{
    let lba = fat_lba(0, c);
    let sec = sector(img, lba);
    let off = (c * 2) % 512;
    let s2 = splice(sec, off, crate::bytes::le16_bytes(v));
    crate::bytes::lemma_splice_len(sec, off, crate::bytes::le16_bytes(v));
    if fat_lba(0, e) != lba {
        lemma_fat_entry_frame(img, lba, s2, e);
    } else {
        lemma_sector_written(img, lba, s2);
        let oe = (e * 2) % 512;
        if e == c {
            assert(s2[off] == crate::bytes::le16_bytes(v)[0]);
            assert(s2[off + 1] == crate::bytes::le16_bytes(v)[1]);
            crate::bytes::lemma_le16_roundtrip(v);
        } else {
            assert(oe + 2 <= off || off + 2 <= oe);
            assert(s2[oe] == sec[oe]);
            assert(s2[oe + 1] == sec[oe + 1]);
        }
    }
}

/// Sets entry `cluster` to `value` in both tables.
fn write_fat_entry(disk: &mut RamDisk, cluster: u16, value: u16) -> (r: Result<(), FatError>)
    requires
        old(disk).wf(),
    ensures
        final(disk).wf(),
        r is Ok,
        forall|b: int| 0 <= b < RAMDISK_SECTORS && b != fat_lba(0, cluster) && b != fat_lba(1, cluster)
            ==> #[trigger] sector(final(disk)@, b) == sector(old(disk)@, b),
        in_table(cluster) ==> fat_entry(final(disk)@, cluster) == value,
        in_table(cluster) ==> forall|e: u16| in_table(e) && e != cluster ==> #[trigger] fat_entry(final(disk)@, e)
            == fat_entry(old(disk)@, e),
{
    let byte_offset: u32 = cluster as u32 * 2;
    let sector_offset: u32 = byte_offset / SECTOR_SIZE as u32;
    let offset_in_sector: usize = (byte_offset % SECTOR_SIZE as u32) as usize;
    let mut fat_index: u32 = 0;
    while fat_index < NUM_FATS
        invariant
            disk.wf(),
            fat_index <= NUM_FATS,
            sector_offset == (cluster * 2) / 512,
            offset_in_sector == (cluster * 2) % 512,
            forall|b: int| 0 <= b < RAMDISK_SECTORS && b != fat_lba(0, cluster) && b != fat_lba(1, cluster)
                ==> #[trigger] sector(disk@, b) == sector(old(disk)@, b),
            in_table(cluster) && fat_index >= 1 ==> fat_entry(disk@, cluster) == value,
            in_table(cluster) && fat_index >= 1 ==> forall|e: u16| in_table(e) && e != cluster
                ==> #[trigger] fat_entry(disk@, e) == fat_entry(old(disk)@, e),
            fat_index == 0 ==> disk@ == old(disk)@,
        decreases NUM_FATS - fat_index,
    {
        let lba: u32 = FAT_AREA_LBA + fat_index * SECTORS_PER_FAT + sector_offset;
        let mut data: Vec<u8> = match read_sector(disk, lba) {
            Ok(d) => d,
            Err(e) => {
                return Err(e);
            },
        };
        let ghost sec0 = data@;
        put_le16(&mut data, offset_in_sector, value);
        let ghost d0 = disk@;
        let _ = write_sector(disk, lba, data.as_slice());
        proof {
            assert forall|b: int| 0 <= b < RAMDISK_SECTORS && b != fat_lba(0, cluster) && b != fat_lba(1, cluster)
                implies #[trigger] sector(disk@, b) == sector(old(disk)@, b) by {
                lemma_sector_frame(d0, lba as int, data@, b);
            }
            if in_table(cluster) {
                if fat_index == 0 {
                    assert(lba == fat_lba(0, cluster));
                    lemma_fat_entry_store(d0, cluster, value, cluster);
                    assert forall|e: u16| in_table(e) && e != cluster implies #[trigger] fat_entry(disk@, e)
                        == fat_entry(old(disk)@, e) by {
                        lemma_fat_entry_store(d0, cluster, value, e);
                    }
                } else {
                    lemma_fat_entry_frame(d0, lba as int, data@, cluster);
                    assert forall|e: u16| in_table(e) && e != cluster implies #[trigger] fat_entry(disk@, e)
                        == fat_entry(old(disk)@, e) by {
                        lemma_fat_entry_frame(d0, lba as int, data@, e);
                    }
                }
            }
        }
        fat_index = fat_index + 1;
    }
    Ok(())
}

/// The first free cluster of the data area.
fn find_free_cluster(disk: &RamDisk) -> (r: Result<u16, FatError>)
    requires
        disk.wf(),
    ensures
        r matches Ok(c) ==> 2 <= c < 2 + TOTAL_CLUSTERS && fat_entry(disk@, c) == 0
            && forall|d: u16| 2 <= d < c ==> fat_entry(disk@, d) != 0,
        r is Err ==> r == Err::<u16, FatError>(FatError::NoSpace)
            && forall|d: u16| 2 <= d < 2 + TOTAL_CLUSTERS ==> fat_entry(disk@, d) != 0,
{
    let end: u16 = (2 + TOTAL_CLUSTERS) as u16;
    let mut cluster: u16 = 2;
    while cluster < end
        invariant
            disk.wf(),
            end == 2 + TOTAL_CLUSTERS,
            2 <= cluster <= end,
            forall|d: u16| 2 <= d < cluster ==> fat_entry(disk@, d) != 0,
        decreases end - cluster,
    {
        let v: u16 = match read_fat_entry(disk, cluster) {
            Ok(v) => v,
            Err(e) => {
                return Err(e);
            },
        };
        if v == FAT_ENTRY_FREE {
            return Ok(cluster);
        }
        cluster = cluster + 1;
    }
    Err(FatError::NoSpace)
}

/// First sector of cluster `c`; the data area starts at cluster 2.
pub open spec fn cluster_lba(c: u16) -> int {
    DATA_AREA_LBA + c - 2
}

/// The sector of a cluster, or `None` below cluster 2.
fn cluster_to_lba(cluster: u16) -> (r: Option<u32>)
    ensures
        cluster >= 2 ==> r == Some(cluster_lba(cluster) as u32),
        cluster < 2 ==> r is None,
{
    if cluster < 2 {
        return None;
    }
    Some(DATA_AREA_LBA + (cluster as u32 - 2) * SECTORS_PER_CLUSTER)
}


/// Index of the last '.' byte of `b`, or -1.
pub open spec fn last_dot(b: Seq<u8>) -> int
    decreases b.len(),
{
    if b.len() == 0 {
        -1
    } else if b.last() == 0x2E {
        b.len() - 1
    } else {
        last_dot(b.drop_last())
    }
}

pub open spec fn upper(c: u8) -> u8 {
    if 0x61 <= c <= 0x7A {
        (c - 32) as u8
    } else {
        c
    }
}

/// `b` in ASCII upper case, padded with spaces to `width` bytes.
pub open spec fn padded_upper(b: Seq<u8>, width: nat) -> Seq<u8> {
    Seq::new(width, |i: int| if i < b.len() { upper(b[i]) } else { 0x20u8 })
}

pub open spec fn name_base(b: Seq<u8>) -> Seq<u8> {
    if last_dot(b) >= 0 {
        b.subrange(0, last_dot(b))
    } else {
        b
    }
}

pub open spec fn name_ext(b: Seq<u8>) -> Seq<u8> {
    if last_dot(b) >= 0 {
        b.subrange(last_dot(b) + 1, b.len() as int)
    } else {
        Seq::empty()
    }
}

/// The 11-byte 8.3 form of a name: base and extension split at the last
/// '.', upper-cased and space-padded; `None` unless the base has 1 to 8
/// bytes and the extension at most 3.
pub open spec fn short_name(b: Seq<u8>) -> Option<Seq<u8>> {
    let base = name_base(b);
    let ext = name_ext(b);
    if base.len() == 0 || base.len() > 8 || ext.len() > 3 {
        None
    } else {
        Some(padded_upper(base, 8) + padded_upper(ext, 3))
    }
}

proof fn lemma_last_dot(b: Seq<u8>)
    ensures
        -1 <= last_dot(b) < b.len(),
        last_dot(b) >= 0 ==> b[last_dot(b)] == 0x2E,
        forall|i: int| last_dot(b) < i < b.len() ==> b[i] != 0x2E,
    decreases b.len(),
{
    if b.len() > 0 && b.last() != 0x2E {
        lemma_last_dot(b.drop_last());
        assert forall|i: int| last_dot(b) < i < b.len() implies b[i] != 0x2E by {
            if i < b.len() - 1 {
                assert(b[i] == b.drop_last()[i]);
            }
        }
    }
}

pub(crate) fn to_upper(c: u8) -> (r: u8)
    ensures
        r == upper(c),
{
    if 0x61 <= c && c <= 0x7A {
        c - 32
    } else {
        c
    }
}

/// The 8.3 form of `name`, as FAT stores it.
fn to_short_name(name: &str) -> (r: Result<Vec<u8>, FatError>)
    ensures
        short_name(name.spec_bytes()) matches Some(s) ==> (r matches Ok(v) && v@ == s),
        short_name(name.spec_bytes()) is None ==> r == Err::<Vec<u8>, FatError>(FatError::InvalidName),
{
    let b: &[u8] = name.as_bytes();
    let n: usize = b.len();
    let mut i: usize = n;
    while i > 0
        invariant
            b@ == name.spec_bytes(),
            n == b@.len(),
            i <= n,
            forall|k: int| i <= k < n ==> b@[k] != 0x2E,
        ensures
            i <= n,
            forall|k: int| i <= k < n ==> b@[k] != 0x2E,
            i > 0 ==> b@[i - 1] == 0x2E,
        decreases i,
    {
        if b[i - 1] == 0x2E {
            break;
        }
        i = i - 1;
    }
    proof {
        lemma_last_dot(b@);
    }
    let (base_end, ext_start): (usize, usize) = if i > 0 { (i - 1, i) } else { (n, n) };
    assert(i > 0 ==> last_dot(b@) == i - 1) by {
        if i > 0 {
            if last_dot(b@) > i - 1 {
                assert(b@[last_dot(b@)] == 0x2E);
            }
            if last_dot(b@) < i - 1 {
            }
        }
    }
    assert(i == 0 ==> last_dot(b@) == -1);
    assert(b@.subrange(0, base_end as int) =~= name_base(b@));
    assert(b@.subrange(ext_start as int, n as int) =~= name_ext(b@));
    if base_end == 0 || base_end > 8 || n - ext_start > 3 {
        return Err(FatError::InvalidName);
    }
    let mut out: Vec<u8> = vec![0x20u8; 11];
    let mut k: usize = 0;
    while k < base_end
        invariant
            b@ == name.spec_bytes(),
            base_end <= 8,
            base_end <= n == b@.len(),
            out@.len() == 11,
            k <= base_end,
            forall|j: int| 0 <= j < k ==> out@[j] == upper(b@[j]),
            forall|j: int| k <= j < 11 ==> out@[j] == 0x20,
        decreases base_end - k,
    {
        out.set(k, to_upper(b[k]));
        k = k + 1;
    }
    let mut k: usize = 0;
    while k < n - ext_start
        invariant
            b@ == name.spec_bytes(),
            base_end <= 8,
            base_end <= ext_start <= n == b@.len(),
            n - ext_start <= 3,
            out@.len() == 11,
            k <= n - ext_start,
            forall|j: int| 0 <= j < base_end ==> out@[j] == upper(b@[j]),
            forall|j: int| base_end <= j < 8 ==> out@[j] == 0x20,
            forall|j: int| 8 <= j < 8 + k ==> out@[j] == upper(b@[ext_start + j - 8]),
            forall|j: int| 8 + k <= j < 11 ==> out@[j] == 0x20,
        decreases n - ext_start - k,
    {
        out.set(8 + k, to_upper(b[ext_start + k]));
        k = k + 1;
    }
    assert(out@ =~= padded_upper(name_base(b@), 8) + padded_upper(name_ext(b@), 3));
    Ok(out)
}

/// A field of a short name as text: its UTF-8 without trailing white
/// space, or nothing when it is not UTF-8.
pub open spec fn field_text(b: Seq<u8>) -> Seq<char> {
    if vstd::utf8::valid_utf8(b) {
        trim_end(vstd::utf8::decode_utf8(b))
    } else {
        Seq::empty()
    }
}

/// "BASE.EXT" of an 11-byte short name, or "BASE" without extension.
pub open spec fn short_text(raw: Seq<u8>) -> Seq<char> {
    let base = field_text(raw.subrange(0, 8));
    let ext = field_text(raw.subrange(8, 11));
    if ext.len() == 0 {
        base
    } else {
        base + seq!['.'] + ext
    }
}

fn field_to_text(b: &[u8]) -> (r: String)
    ensures
        r@ == field_text(b@),
{
    match crate::text::utf8_to_string(b) {
        Some(s) => {
            let cs: Vec<char> = crate::text::chars_of(s.as_str());
            let mut end: usize = cs.len();
            assert(cs@.subrange(0, end as int) =~= cs@);
            while end > 0 && is_space_char(cs[end - 1])
                invariant
                    cs@ == vstd::utf8::decode_utf8(b@),
                    end <= cs@.len(),
                    trim_end(cs@.subrange(0, end as int)) == trim_end(cs@),
                decreases end,
            {
                assert(cs@.subrange(0, end - 1) =~= cs@.subrange(0, end as int).drop_last());
                end = end - 1;
            }
            assert(cs@.subrange(0, cs@.len() as int) =~= cs@);
            crate::text::string_from_chars(cs.as_slice(), 0, end)
        },
        None => String::new(),
    }
}

fn from_short_name(raw: &[u8]) -> (r: String)
    requires
        raw@.len() == 11,
    ensures
        r@ == short_text(raw@),
{
    let base_raw: Vec<u8> = crate::bytes::copy_range(raw, 0, 8);
    let ext_raw: Vec<u8> = crate::bytes::copy_range(raw, 8, 11);
    let mut base: String = field_to_text(base_raw.as_slice());
    let ext: String = field_to_text(ext_raw.as_slice());
    let ext_chars: Vec<char> = crate::text::chars_of(ext.as_str());
    if ext_chars.len() == 0 {
        return base;
    }
    crate::text::push_char(&mut base, '.');
    crate::text::push_str(&mut base, ext.as_str());
    base
}

/// Root-directory record `i` (32 bytes).
pub open spec fn rec(img: Seq<u8>, i: int) -> Seq<u8> {
    img.subrange(ROOT_DIR_LBA * 512 + 32 * i, ROOT_DIR_LBA * 512 + 32 * i + 32)
}

/// Record `i` is a deleted entry or the volume label, not listed.
pub open spec fn skipped(r: Seq<u8>) -> bool {
    r[0] == 0xE5 || r[11] & ATTR_VOLUME_LABEL != 0
}

/// What the listing shows of a record: name, size, directory flag.
pub open spec fn entry_of(r: Seq<u8>) -> (Seq<char>, u32, bool) {
    (short_text(r.subrange(0, 11)), le32(r, 28) as u32, r[11] & ATTR_DIRECTORY != 0)
}

/// The listed entries from record `i` on, up to the first record whose
/// first byte is 0 (the end of the directory).
pub open spec fn listed(img: Seq<u8>, i: int) -> Seq<(Seq<char>, u32, bool)>
    decreases 512 - i,
{
    if i < 0 || i >= 512 {
        Seq::empty()
    } else if rec(img, i)[0] == 0 {
        Seq::empty()
    } else if skipped(rec(img, i)) {
        listed(img, i + 1)
    } else {
        seq![entry_of(rec(img, i))] + listed(img, i + 1)
    }
}

pub open spec fn entry_views(v: Seq<FileEntry>) -> Seq<(Seq<char>, u32, bool)> {
    v.map_values(|e: FileEntry| (e.name@, e.size, e.is_directory))
}

proof fn lemma_rec_in_sector(img: Seq<u8>, s: int, j: int)
    requires
        img.len() == RAMDISK_SIZE,
        0 <= s < ROOT_DIR_SECTORS,
        0 <= j < 16,
    ensures
        sector(img, ROOT_DIR_LBA + s).subrange(32 * j, 32 * j + 32) == rec(img, 16 * s + j),
{
    assert(sector(img, ROOT_DIR_LBA + s).subrange(32 * j, 32 * j + 32) =~= rec(img, 16 * s + j));
}

/// Files and directories of the root directory, in directory order, up to
/// its end marker; deleted entries and the volume label are left out.
pub fn list_root(disk: &RamDisk) -> (r: Result<Vec<FileEntry>, FatError>)
    requires
        disk.wf(),
    ensures
        !formatted(disk@) ==> r == Err::<Vec<FileEntry>, FatError>(FatError::NotFormatted),
        formatted(disk@) ==> (r matches Ok(v) && entry_views(v@) == listed(disk@, 0)),
{
    if !is_formatted(disk) {
        return Err(FatError::NotFormatted);
    }
    let mut entries: Vec<FileEntry> = Vec::new();
    let mut s: u32 = 0;
    while s < ROOT_DIR_SECTORS
        invariant
            disk.wf(),
            formatted(disk@),
            s <= ROOT_DIR_SECTORS,
            entry_views(entries@) + listed(disk@, 16 * s as int) == listed(disk@, 0),
        decreases ROOT_DIR_SECTORS - s,
    {
        let sec: Vec<u8> = match read_sector(disk, ROOT_DIR_LBA + s) {
            Ok(v) => v,
            Err(e) => {
                return Err(e);
            },
        };
        let mut j: usize = 0;
        while j < 16
            invariant
                disk.wf(),
                formatted(disk@),
                s < ROOT_DIR_SECTORS,
                sec@ == sector(disk@, ROOT_DIR_LBA + s),
                j <= 16,
                entry_views(entries@) + listed(disk@, 16 * s + j) == listed(disk@, 0),
            decreases 16 - j,
        {
            let o: usize = 32 * j;
            proof {
                lemma_rec_in_sector(disk@, s as int, j as int);
            }
            let ghost r = rec(disk@, 16 * s + j);
            assert(sec@[o as int] == r[0]);
            assert(sec@[o + 11] == r[11]);
            let first: u8 = sec[o];
            if first == 0x00 {
                assert(entry_views(entries@) + Seq::<(Seq<char>, u32, bool)>::empty() =~= entry_views(entries@));
                return Ok(entries);
            }
            let attr: u8 = sec[o + 11];
            if first == 0xE5 || attr & ATTR_VOLUME_LABEL != 0 {
                j = j + 1;
                continue;
            }
            let name_raw: Vec<u8> = crate::bytes::copy_range(sec.as_slice(), o, o + 11);
            let size: u32 = rd_le32(sec.as_slice(), o + 28);
            assert(name_raw@ =~= r.subrange(0, 11));
            assert(size == le32(r, 28));
            let e: FileEntry = FileEntry { name: from_short_name(name_raw.as_slice()), size, is_directory: attr & ATTR_DIRECTORY != 0 };
            let ghost ev = entry_views(entries@);
            entries.push(e);
            assert(entry_views(entries@) =~= ev.push(entry_of(r)));
            assert(ev.push(entry_of(r)) + listed(disk@, 16 * s + j + 1) =~= ev + (seq![entry_of(r)] + listed(disk@, 16 * s + j + 1)));
            j = j + 1;
        }
        s = s + 1;
    }
    Ok(entries)
}


/// Index of the live record named `short`, scanning from record `i`
/// until the end marker; deleted records are passed over.
pub open spec fn find_from(img: Seq<u8>, short: Seq<u8>, i: int) -> Option<int>
    decreases 512 - i,
{
    if i < 0 || i >= 512 {
        None
    } else if rec(img, i)[0] == 0 {
        None
    } else if rec(img, i)[0] == 0xE5 {
        find_from(img, short, i + 1)
    } else if rec(img, i).subrange(0, 11) == short {
        Some(i)
    } else {
        find_from(img, short, i + 1)
    }
}

/// The first `rem` bytes of the cluster chain starting at `c` (fewer if
/// the chain ends first); `None` when a cluster lies outside the disk.
pub open spec fn chain_read(img: Seq<u8>, c: u16, rem: nat) -> Option<Seq<u8>>
    decreases rem,
{
    if c >= FAT_ENTRY_RESERVED || c == 0 {
        Some(Seq::empty())
    } else if c < 2 || cluster_lba(c) >= RAMDISK_SECTORS {
        None
    } else {
        let take: nat = if rem < 512 { rem } else { 512 };
        let d = sector(img, cluster_lba(c)).subrange(0, take as int);
        if take >= rem {
            Some(d)
        } else {
            match chain_read(img, fat_entry(img, c) as u16, (rem - take) as nat) {
                Some(t) => Some(d + t),
                None => None,
            }
        }
    }
}

pub open spec fn prepend(d: Seq<u8>, o: Option<Seq<u8>>) -> Option<Seq<u8>> {
    match o {
        Some(t) => Some(d + t),
        None => None,
    }
}

/// Reads `size` bytes along the chain starting at `first`.
fn read_chain(disk: &RamDisk, first: u16, size: u32) -> (r: Result<Vec<u8>, FatError>)
    requires
        disk.wf(),
    ensures
        chain_read(disk@, first, size as nat) matches Some(d) ==> (r matches Ok(v) && v@ == d),
        chain_read(disk@, first, size as nat) is None ==> r == Err::<Vec<u8>, FatError>(FatError::DiskError),
{
    let total: usize = size as usize;
    let mut data: Vec<u8> = Vec::new();
    let mut cluster: u16 = first;
    assert(data@ + Seq::<u8>::empty() =~= data@);
    loop
        invariant
            disk.wf(),
            data@.len() <= total,
            total == size,
            chain_read(disk@, first, size as nat) == prepend(data@, chain_read(disk@, cluster, (total - data@.len()) as nat)),
        decreases total - data@.len(),
    {
        if !(cluster < FAT_ENTRY_RESERVED && cluster != FAT_ENTRY_FREE) {
            assert(data@ + Seq::<u8>::empty() =~= data@);
            return Ok(data);
        }
        let lba: u32 = match cluster_to_lba(cluster) {
            Some(l) => l,
            None => {
                return Err(FatError::DiskError);
            },
        };
        let sd: Vec<u8> = match read_sector(disk, lba) {
            Ok(v) => v,
            Err(e) => {
                return Err(e);
            },
        };
        let remaining: usize = total - data.len();
        let take: usize = if remaining < SECTOR_SIZE { remaining } else { SECTOR_SIZE };
        let piece: Vec<u8> = crate::bytes::copy_range(sd.as_slice(), 0, take);
        let ghost before = data@;
        crate::bytes::extend_from(&mut data, piece.as_slice());
        if data.len() >= total {
            assert(before + piece@ + Seq::<u8>::empty() =~= before + piece@);
            return Ok(data);
        }
        let next: u16 = match read_fat_entry(disk, cluster) {
            Ok(v) => v,
            Err(e) => {
                return Err(e);
            },
        };
        proof {
            let t = chain_read(disk@, next, (total - data@.len()) as nat);
            if t is Some {
                assert(before + (piece@ + t->0) =~= data@ + t->0);
            }
        }
        cluster = next;
    }
}

/// Reads a file of the root directory.
pub fn read_file(disk: &RamDisk, name: &str) -> (r: Result<Vec<u8>, FatError>)
    requires
        disk.wf(),
    ensures
        !formatted(disk@) ==> r == Err::<Vec<u8>, FatError>(FatError::NotFormatted),
        formatted(disk@) && short_name(name.spec_bytes()) is None ==> r == Err::<Vec<u8>, FatError>(FatError::InvalidName),
        formatted(disk@) ==> (short_name(name.spec_bytes()) matches Some(sn) ==> match find_from(disk@, sn, 0) {
            None => r == Err::<Vec<u8>, FatError>(FatError::FileNotFound),
            Some(k) => match chain_read(disk@, le16(rec(disk@, k), 26) as u16, le32(rec(disk@, k), 28) as nat) {
                Some(d) => r matches Ok(v) && v@ == d,
                None => r == Err::<Vec<u8>, FatError>(FatError::DiskError),
            },
        }),
        formatted(disk@) ==> (short_name(name.spec_bytes()) matches Some(sn) ==> (file_content(disk@, sn) matches Some(d)
            ==> (r matches Ok(v) && v@ == d))),
{
    if !is_formatted(disk) {
        return Err(FatError::NotFormatted);
    }
    let short: Vec<u8> = match to_short_name(name) {
        Ok(v) => v,
        Err(e) => {
            return Err(e);
        },
    };
    let mut s: u32 = 0;
    while s < ROOT_DIR_SECTORS
        invariant
            disk.wf(),
            formatted(disk@),
            short_name(name.spec_bytes()) == Some(short@),
            short@.len() == 11,
            s <= ROOT_DIR_SECTORS,
            find_from(disk@, short@, 0) == find_from(disk@, short@, 16 * s as int),
        decreases ROOT_DIR_SECTORS - s,
    {
        let sec: Vec<u8> = match read_sector(disk, ROOT_DIR_LBA + s) {
            Ok(v) => v,
            Err(e) => {
                return Err(e);
            },
        };
        let mut j: usize = 0;
        while j < 16
            invariant
                disk.wf(),
                formatted(disk@),
                short_name(name.spec_bytes()) == Some(short@),
                short@.len() == 11,
                s < ROOT_DIR_SECTORS,
                sec@ == sector(disk@, ROOT_DIR_LBA + s),
                j <= 16,
                find_from(disk@, short@, 0) == find_from(disk@, short@, 16 * s + j),
            decreases 16 - j,
        {
            let o: usize = 32 * j;
            proof {
                lemma_rec_in_sector(disk@, s as int, j as int);
            }
            let ghost r = rec(disk@, 16 * s + j);
            assert(sec@[o as int] == r[0]);
            if sec[o] == 0x00 {
                return Err(FatError::FileNotFound);
            }
            if sec[o] == 0xE5 {
                j = j + 1;
                continue;
            }
            let hit: bool = crate::bytes::bytes_eq_at(sec.as_slice(), o, short.as_slice());
            assert(sec@.subrange(o as int, o + 11) =~= r.subrange(0, 11));
            if hit {
                let cluster: u16 = rd_le16(sec.as_slice(), o + 26);
                let size: u32 = rd_le32(sec.as_slice(), o + 28);
                assert(cluster == le16(r, 26));
                assert(size == le32(r, 28));
                return read_chain(disk, cluster, size);
            }
            j = j + 1;
        }
        s = s + 1;
    }
    Err(FatError::FileNotFound)
}

/// Frees every cluster of the chain starting at `first` in both tables.
/// Entries of the first table only ever become free, and the first
/// cluster's entry does.
fn free_chain(disk: &mut RamDisk, first: u16) -> (r: Result<(), FatError>)
    requires
        old(disk).wf(),
    ensures
        final(disk).wf(),
        sector(final(disk)@, FS_START_LBA as int) == sector(old(disk)@, FS_START_LBA as int),
        first >= FAT_ENTRY_RESERVED || first == FAT_ENTRY_FREE ==> r is Ok && final(disk)@ == old(disk)@,
        first < FAT_ENTRY_RESERVED && first != FAT_ENTRY_FREE && in_table(first) ==> fat_entry(final(disk)@, first) == 0,
        forall|e: u16| in_table(e) ==> #[trigger] fat_entry(final(disk)@, e) == 0 || fat_entry(final(disk)@, e) == fat_entry(
            old(disk)@,
            e,
        ),
{
    let mut cluster: u16 = first;
    let mut steps: u32 = 0;
    while cluster < FAT_ENTRY_RESERVED && cluster != FAT_ENTRY_FREE
        invariant
            disk.wf(),
            steps <= MAX_CHAIN,
            sector(disk@, FS_START_LBA as int) == sector(old(disk)@, FS_START_LBA as int),
            steps == 0 ==> disk@ == old(disk)@ && cluster == first,
            steps > 0 && in_table(first) ==> fat_entry(disk@, first) == 0,
            steps > 0 ==> first < FAT_ENTRY_RESERVED && first != FAT_ENTRY_FREE,
            forall|e: u16| in_table(e) ==> #[trigger] fat_entry(disk@, e) == 0 || fat_entry(disk@, e) == fat_entry(old(disk)@, e),
        decreases MAX_CHAIN - steps,
    {
        if steps == MAX_CHAIN {
            return Err(FatError::DiskError);
        }
        let next: u16 = match read_fat_entry(disk, cluster) {
            Ok(v) => v,
            Err(e) => {
                return Err(e);
            },
        };
        let ghost d0 = disk@;
        let _ = write_fat_entry(disk, cluster, FAT_ENTRY_FREE);
        proof {
            if !in_table(cluster) {
                assert forall|e: u16| in_table(e) implies #[trigger] fat_entry(disk@, e) == fat_entry(d0, e) by {
                    lemma_table_sectors_apart(e, cluster);
                    assert(sector(disk@, fat_lba(0, e)) == sector(d0, fat_lba(0, e)));
                }
            }
        }
        cluster = next;
        steps = steps + 1;
    }
    Ok(())
}

/// An entry of the first table and one outside it lie in different
/// sectors of either table.
proof fn lemma_table_sectors_apart(e: u16, c: u16)
    requires
        in_table(e),
        !in_table(c),
    ensures
        fat_lba(0, e) != fat_lba(0, c),
        fat_lba(0, e) != fat_lba(1, c),
        0 <= fat_lba(0, e) < RAMDISK_SECTORS,
{
    assert((e * 2) / 512 < 32) by (nonlinear_arith)
        requires
            e < 8192,
    ;
    assert((c * 2) / 512 >= 32) by (nonlinear_arith)
        requires
            c >= 8192,
    ;
}

/// Index of the first record named `short`, scanning from record `i`
/// until the end marker, deleted records included.
pub open spec fn find_any(img: Seq<u8>, short: Seq<u8>, i: int) -> Option<int>
    decreases 512 - i,
{
    if i < 0 || i >= 512 {
        None
    } else if rec(img, i)[0] == 0 {
        None
    } else if rec(img, i).subrange(0, 11) == short {
        Some(i)
    } else {
        find_any(img, short, i + 1)
    }
}

/// Deletes the chain of an existing record named `short` before it is
/// rewritten.
fn free_existing(disk: &mut RamDisk, short: &Vec<u8>) -> (r: Result<(), FatError>)
    requires
        old(disk).wf(),
        short@.len() == 11,
    ensures
        final(disk).wf(),
        sector(final(disk)@, FS_START_LBA as int) == sector(old(disk)@, FS_START_LBA as int),
        find_any(old(disk)@, short@, 0) is None ==> r is Ok && final(disk)@ == old(disk)@,
        find_any(old(disk)@, short@, 0) matches Some(i) ==> ({
            let c = le16(rec(old(disk)@, i), 26) as u16;
            &&& (c >= FAT_ENTRY_RESERVED || c == FAT_ENTRY_FREE ==> r is Ok && final(disk)@ == old(disk)@)
            &&& (c < FAT_ENTRY_RESERVED && c != FAT_ENTRY_FREE && in_table(c) ==> fat_entry(final(disk)@, c) == 0)
        }),
        forall|e: u16| in_table(e) ==> #[trigger] fat_entry(final(disk)@, e) == 0 || fat_entry(final(disk)@, e) == fat_entry(
            old(disk)@,
            e,
        ),
{
    let mut s: u32 = 0;
    while s < ROOT_DIR_SECTORS
        invariant
            disk.wf(),
            disk@ == old(disk)@,
            short@.len() == 11,
            s <= ROOT_DIR_SECTORS,
            find_any(disk@, short@, 0) == find_any(disk@, short@, 16 * s as int),
        decreases ROOT_DIR_SECTORS - s,
    {
        let sec: Vec<u8> = match read_sector(disk, ROOT_DIR_LBA + s) {
            Ok(v) => v,
            Err(e) => {
                return Err(e);
            },
        };
        let mut j: usize = 0;
        while j < 16
            invariant
                disk.wf(),
                disk@ == old(disk)@,
                short@.len() == 11,
                s < ROOT_DIR_SECTORS,
                sec@ == sector(disk@, ROOT_DIR_LBA + s),
                j <= 16,
                find_any(disk@, short@, 0) == find_any(disk@, short@, 16 * s + j),
            decreases 16 - j,
        {
            let o: usize = 32 * j;
            proof {
                lemma_rec_in_sector(disk@, s as int, j as int);
            }
            let ghost r = rec(disk@, 16 * s + j);
            assert(sec@[o as int] == r[0]);
            if sec[o] == 0x00 {
                return Ok(());
            }
            assert(sec@.subrange(o as int, o + 11) =~= r.subrange(0, 11));
            if crate::bytes::bytes_eq_at(sec.as_slice(), o, short.as_slice()) {
                let cluster: u16 = rd_le16(sec.as_slice(), o + 26);
                assert(cluster == le16(r, 26));
                return free_chain(disk, cluster);
            }
            j = j + 1;
        }
        s = s + 1;
    }
    Ok(())
}

/// Clusters a file of `len` bytes takes: at least one.
pub open spec fn clusters_for(len: nat) -> nat {
    if len == 0 {
        1
    } else {
        ((len + 511) / 512) as nat
    }
}

/// Writes a directory record for a plain file at `o`: name, zeroed
/// attributes and times, first cluster and size.
fn fill_record(sec: &mut Vec<u8>, o: usize, short: &Vec<u8>, first: u16, size: u32)
    requires
        old(sec)@.len() == 512,
        o + 32 <= 512,
        short@.len() == 11,
    ensures
        final(sec)@.len() == 512,
        final(sec)@.subrange(o as int, o + 11) == short@,
        le16(final(sec)@, o + 26) == first,
        le32(final(sec)@, o + 28) == size,
        forall|i: int| 0 <= i < 512 && !(o <= i < o + 32) ==> #[trigger] final(sec)@[i] == old(sec)@[i],
{
    crate::bytes::write_bytes(sec, o, short.as_slice());
    let zeros15: Vec<u8> = crate::bytes::zeros(15);
    crate::bytes::write_bytes(sec, o + 11, zeros15.as_slice());
    put_le16(sec, o + 26, first);
    let ghost named = sec@;
    assert(named.subrange(o as int, o + 11) =~= short@);
    proof {
        crate::bytes::lemma_le16_roundtrip(first);
    }
    assert(named.subrange(o + 26, o + 28) =~= crate::bytes::le16_bytes(first));
    assert(le16(named, o + 26) == le16(crate::bytes::le16_bytes(first), 0));
    put_le32(sec, o + 28, size);
    assert(sec@.subrange(o as int, o + 11) =~= named.subrange(o as int, o + 11));
    assert(sec@[o + 26] == named[o + 26] && sec@[o + 27] == named[o + 27]);
    proof {
        crate::bytes::lemma_le32_roundtrip(size);
    }
    assert(sec@.subrange(o + 28, o + 32) =~= crate::bytes::le32_bytes(size));
}

/// Fills record `j` of root-directory sector `s` (held in `sec`) and
/// writes the sector back.
fn store_record(disk: &mut RamDisk, s: u32, j: usize, sec: &mut Vec<u8>, short: &Vec<u8>, first: u16, size: u32)
    requires
        old(disk).wf(),
        s < ROOT_DIR_SECTORS,
        j < 16,
        old(sec)@ == sector(old(disk)@, ROOT_DIR_LBA + s),
        short@.len() == 11,
    ensures
        final(disk).wf(),
        forall|b: int| 0 <= b < RAMDISK_SECTORS && b != ROOT_DIR_LBA + s ==> #[trigger] sector(final(disk)@, b)
            == sector(old(disk)@, b),
        rec(final(disk)@, 16 * s + j).subrange(0, 11) == short@,
        le16(rec(final(disk)@, 16 * s + j), 26) == first,
        le32(rec(final(disk)@, 16 * s + j), 28) == size,
        forall|i: int| 0 <= i < 16 && i != j ==> #[trigger] rec(final(disk)@, 16 * s + i) == rec(old(disk)@, 16 * s + i),
{
    let o: usize = 32 * j;
    let ghost sec0 = sec@;
    fill_record(sec, o, short, first, size);
    let ghost d0 = disk@;
    let _ = write_sector(disk, ROOT_DIR_LBA + s, sec.as_slice());
    proof {
        assert forall|b: int| 0 <= b < RAMDISK_SECTORS && b != ROOT_DIR_LBA + s implies #[trigger] sector(disk@, b)
            == sector(d0, b) by {
            lemma_sector_frame(d0, ROOT_DIR_LBA + s, sec@, b);
        }
        lemma_sector_written(d0, ROOT_DIR_LBA + s, sec@);
        lemma_rec_in_sector(disk@, s as int, j as int);
        let k = 16 * s + j;
        assert(rec(disk@, k) == sec@.subrange(o as int, o + 32));
        assert(rec(disk@, k).subrange(0, 11) =~= sec@.subrange(o as int, o + 11));
        assert(le16(rec(disk@, k), 26) == le16(sec@, o + 26));
        assert(le32(rec(disk@, k), 28) == le32(sec@, o + 28));
        assert forall|i: int| 0 <= i < 16 && i != j implies #[trigger] rec(disk@, 16 * s + i) == rec(d0, 16 * s + i) by {
            lemma_rec_in_sector(disk@, s as int, i);
            lemma_rec_in_sector(d0, s as int, i);
            assert(sec@.subrange(32 * i, 32 * i + 32) =~= sec0.subrange(32 * i, 32 * i + 32));
        }
    }
}

/// Bytes of `data` held by cluster `k` of its chain: 512 from offset
/// 512·k, fewer in the last cluster.
pub open spec fn piece(data: Seq<u8>, k: int) -> Seq<u8> {
    data.subrange(512 * k, if data.len() < 512 * k + 512 { data.len() as int } else { 512 * k + 512 })
}

/// A cluster of the data area.
pub open spec fn data_cluster(c: u16) -> bool {
    2 <= c < 2 + TOTAL_CLUSTERS
}

/// The table links the clusters `cs` in order, the last ending the chain.
pub open spec fn linked(img: Seq<u8>, cs: Seq<u16>) -> bool {
    forall|k: int| 0 <= k < cs.len() ==> fat_entry(img, #[trigger] cs[k]) == (if k + 1 < cs.len() {
        cs[k + 1] as int
    } else {
        FAT_ENTRY_EOC as int
    })
}

/// Cluster `k` of `cs` starts with piece `k` of `data`.
pub open spec fn holds(img: Seq<u8>, cs: Seq<u16>, data: Seq<u8>) -> bool {
    forall|k: int| 0 <= k < cs.len() ==> sector(img, cluster_lba(#[trigger] cs[k])).subrange(
        0,
        piece(data, k).len() as int,
    ) == piece(data, k)
}

/// What reading the file named `short` gives: the bytes its record's
/// chain holds, or `None` when there is no such record or the chain
/// leaves the disk.
pub open spec fn file_content(img: Seq<u8>, short: Seq<u8>) -> Option<Seq<u8>> {
    match find_from(img, short, 0) {
        None => None,
        Some(k) => chain_read(img, le16(rec(img, k), 26) as u16, le32(rec(img, k), 28) as nat),
    }
}

/// A chain built for `data` gives `data` back from cluster `i` on.
proof fn lemma_chain_reads(img: Seq<u8>, cs: Seq<u16>, data: Seq<u8>, i: int)
    requires
        img.len() == RAMDISK_SIZE,
        linked(img, cs),
        holds(img, cs, data),
        forall|k: int| 0 <= k < cs.len() ==> data_cluster(#[trigger] cs[k]),
        cs.len() == clusters_for(data.len()),
        0 <= i < cs.len(),
    ensures
        512 * i <= data.len(),
        chain_read(img, cs[i], (data.len() - 512 * i) as nat) == Some(data.subrange(512 * i, data.len() as int)),
    decreases cs.len() - i,
{
    let n = data.len() as int;
    let len = cs.len() as int;
    assert(512 * i <= n && (i + 1 < len <==> 512 * (i + 1) < n)) by (nonlinear_arith)
        requires
            0 <= i < len,
            len == (if n == 0 { 1 } else { (n + 511) / 512 }),
            n >= 0,
    ;
    let c = cs[i];
    assert(data_cluster(c));
    let rem = (n - 512 * i) as nat;
    let take: nat = if rem < 512 { rem } else { 512 };
    assert(piece(data, i).len() == take);
    assert(sector(img, cluster_lba(c)).subrange(0, take as int) == piece(data, i));
    if take >= rem {
        assert(piece(data, i) =~= data.subrange(512 * i, n));
    } else {
        assert(i + 1 < len);
        assert(fat_entry(img, c) == cs[i + 1] as int);
        lemma_chain_reads(img, cs, data, i + 1);
        assert(piece(data, i) + data.subrange(512 * (i + 1), n) =~= data.subrange(512 * i, n));
    }
}

/// Distinct data clusters are at most as many as the data area has.
proof fn lemma_distinct_clusters_bound(cs: Seq<u16>)
    requires
        forall|k: int| 0 <= k < cs.len() ==> data_cluster(#[trigger] cs[k]),
        forall|a: int, b: int| 0 <= a < b < cs.len() ==> cs[a] != cs[b],
    ensures
        cs.len() <= TOTAL_CLUSTERS,
{
    let m = cs.map_values(|c: u16| c as int);
    assert(m.no_duplicates()) by {
        assert forall|a: int, b: int| 0 <= a < m.len() && 0 <= b < m.len() && a != b implies m[a] != m[b] by {
            if a < b {
                assert(cs[a] != cs[b]);
            } else {
                assert(cs[b] != cs[a]);
            }
        }
    }
    m.unique_seq_to_set();
    vstd::set_lib::lemma_int_range(2, 2 + TOTAL_CLUSTERS);
    assert forall|x: int| m.to_set().contains(x) implies vstd::set_lib::set_int_range(2, 2 + TOTAL_CLUSTERS).contains(x) by {
        assert(m.contains(x));
        let k = choose|k: int| 0 <= k < m.len() && m[k] == x;
        assert(data_cluster(cs[k]));
    }
    vstd::set_lib::lemma_len_subset(m.to_set(), vstd::set_lib::set_int_range(2, 2 + TOTAL_CLUSTERS));
}

/// The first live record named `short` is `k` when every record before it
/// is in use under another name.
proof fn lemma_find_first(img: Seq<u8>, short: Seq<u8>, i: int, k: int)
    requires
        img.len() == RAMDISK_SIZE,
        0 <= i <= k < 512,
        forall|m: int| i <= m < k ==> #[trigger] rec(img, m)[0] != 0 && rec(img, m)[0] != 0xE5 && rec(img, m).subrange(0, 11) != short,
        rec(img, k).subrange(0, 11) == short,
        short.len() == 11,
        short[0] != 0 && short[0] != 0xE5,
    ensures
        find_from(img, short, i) == Some(k),
    decreases k - i,
{
    assert(rec(img, k)[0] == rec(img, k).subrange(0, 11)[0]);
    if i < k {
        lemma_find_first(img, short, i + 1, k);
    }
}

/// Clusters needed for `n` bytes fit the area only for files of at most
/// `TOTAL_CLUSTERS` sectors.
proof fn lemma_clusters_small(n: int, needed: int)
    requires
        n >= 0,
        needed == (if n == 0 { 1 } else { n / 512 + if n % 512 != 0 { 1int } else { 0 } }),
        needed <= TOTAL_CLUSTERS,
    ensures
        n <= TOTAL_CLUSTERS * 512,
        needed == clusters_for(n as nat),
{
    assert(n <= TOTAL_CLUSTERS * 512) by (nonlinear_arith)
        requires
            n >= 0,
            needed == (if n == 0 { 1 } else { n / 512 + if n % 512 != 0 { 1int } else { 0 } }),
            needed <= 8095,
    ;
    assert(needed == clusters_for(n as nat)) by (nonlinear_arith)
        requires
            n >= 0,
            needed == (if n == 0 { 1 } else { n / 512 + if n % 512 != 0 { 1int } else { 0 } }),
    ;
}

/// Free table entries among clusters `2..lim`.
pub open spec fn free_clusters(img: Seq<u8>, lim: int) -> nat
    decreases lim,
{
    if lim <= 2 {
        0
    } else {
        free_clusters(img, lim - 1) + if fat_entry(img, (lim - 1) as u16) == 0 { 1nat } else { 0nat }
    }
}

/// A root directory record is free (never used, or deleted).
pub open spec fn has_free_record(img: Seq<u8>) -> bool {
    exists|m: int| 0 <= m < 512 && (#[trigger] rec(img, m)[0] == 0 || rec(img, m)[0] == 0xE5)
}

/// A new file `short` of `len` bytes fits: the volume is formatted, no
/// record holds the name, the table has a free entry for each cluster
/// the file takes, and the root directory has a free record.
pub open spec fn new_file_fits(img: Seq<u8>, short: Seq<u8>, len: nat) -> bool {
    &&& formatted(img)
    &&& find_any(img, short, 0) is None
    &&& free_clusters(img, 2 + TOTAL_CLUSTERS) >= clusters_for(len)
    &&& has_free_record(img)
}

/// With no free entry among `2..lim`, none is counted.
proof fn lemma_no_free_count(img: Seq<u8>, lim: int)
    requires
        lim <= 2 + TOTAL_CLUSTERS,
        forall|d: u16| 2 <= d < lim ==> fat_entry(img, d) != 0,
    ensures
        free_clusters(img, lim) == 0,
    decreases lim,
{
    if lim > 2 {
        assert(fat_entry(img, (lim - 1) as u16) != 0);
        lemma_no_free_count(img, lim - 1);
    }
}

/// Taking free entry `c` leaves one free entry fewer.
proof fn lemma_take_count(a: Seq<u8>, b: Seq<u8>, c: u16, lim: int)
    requires
        2 <= c,
        c < lim <= 2 + TOTAL_CLUSTERS,
        fat_entry(a, c) == 0,
        fat_entry(b, c) != 0,
        forall|e: u16| in_table(e) && e != c ==> #[trigger] fat_entry(b, e) == fat_entry(a, e),
    ensures
        free_clusters(b, lim) + 1 == free_clusters(a, lim),
    decreases lim,
{
    if lim - 1 > c {
        assert(fat_entry(b, (lim - 1) as u16) == fat_entry(a, (lim - 1) as u16));
        lemma_take_count(a, b, c, lim - 1);
    } else {
        lemma_same_count(a, b, c as int);
    }
}

/// Equal entries below `lim` give equal counts.
proof fn lemma_same_count(a: Seq<u8>, b: Seq<u8>, lim: int)
    requires
        lim <= 2 + TOTAL_CLUSTERS,
        forall|e: u16| in_table(e) && e < lim ==> #[trigger] fat_entry(b, e) == fat_entry(a, e),
    ensures
        free_clusters(b, lim) == free_clusters(a, lim),
    decreases lim,
{
    if lim > 2 {
        assert(fat_entry(b, (lim - 1) as u16) == fat_entry(a, (lim - 1) as u16));
        lemma_same_count(a, b, lim - 1);
    }
}

/// The cluster count written out by sectors is `clusters_for`.
proof fn lemma_clusters_formula(n: int)
    requires
        n >= 0,
    ensures
        clusters_for(n as nat) == (if n == 0 { 1 } else { n / 512 + if n % 512 != 0 { 1int } else { 0 } }),
{
    if n > 0 {
        assert((n + 511) / 512 == n / 512 + if n % 512 != 0 { 1int } else { 0 }) by (nonlinear_arith)
            requires
                n > 0,
        ;
    }
}

/// Creates or replaces a file of the root directory: frees the old chain,
/// allocates and links a new one, writes the data and the directory
/// record (into the old record or the first free one). Reading the file
/// back gives `data`, unless its 8.3 name starts with a byte that marks
/// a free or deleted record.
#[verifier::spinoff_prover]
pub fn write_file(disk: &mut RamDisk, name: &str, data: &[u8]) -> (r: Result<(), FatError>)
    requires
        old(disk).wf(),
    ensures
        final(disk).wf(),
        !formatted(old(disk)@) ==> (r == Err::<(), FatError>(FatError::NotFormatted) && final(disk)@ == old(disk)@),
        formatted(old(disk)@) && short_name(name.spec_bytes()) is None ==> (r == Err::<(), FatError>(FatError::InvalidName) && final(disk)@ == old(disk)@),
        formatted(final(disk)@) == formatted(old(disk)@),
        r is Ok ==> (short_name(name.spec_bytes()) matches Some(sn) && exists|k: int| 0 <= k < 512
            && #[trigger] rec(final(disk)@, k).subrange(0, 11) == sn && le32(rec(final(disk)@, k), 28) == (data@.len() as u32)),
        r is Ok ==> (short_name(name.spec_bytes()) matches Some(sn) && (sn[0] != 0 && sn[0] != 0xE5 ==> file_content(
            final(disk)@,
            sn,
        ) == Some(data@))),
        short_name(name.spec_bytes()) matches Some(sn) && new_file_fits(old(disk)@, sn, data@.len()) ==> r is Ok,
{
    if !is_formatted(disk) {
        return Err(FatError::NotFormatted);
    }
    let short: Vec<u8> = match to_short_name(name) {
        Ok(v) => v,
        Err(e) => {
            return Err(e);
        },
    };
    let ghost boot = sector(disk@, FS_START_LBA as int);
    let ghost owed = new_file_fits(old(disk)@, short@, data@.len());
    let ghost c0 = free_clusters(old(disk)@, 2 + TOTAL_CLUSTERS);
    match free_existing(disk, &short) {
        Ok(()) => {},
        Err(e) => {
            return Err(e);
        },
    }
    let n: usize = data.len();
    let clusters_needed: usize = if n == 0 { 1 } else { n / SECTOR_SIZE + if n % SECTOR_SIZE != 0 { 1 } else { 0 } };
    proof {
        lemma_clusters_formula(n as int);
    }
    let mut allocated: Vec<u16> = Vec::new();
    let mut i: usize = 0;
    while i < clusters_needed
        invariant
            owed == new_file_fits(old(disk)@, short@, data@.len()),
            c0 == free_clusters(old(disk)@, 2 + TOTAL_CLUSTERS),
            n == data@.len(),
            owed ==> c0 >= clusters_needed,
            owed ==> free_clusters(disk@, 2 + TOTAL_CLUSTERS) + i == c0,
            owed ==> forall|b: int| ROOT_DIR_LBA <= b < DATA_AREA_LBA ==> #[trigger] sector(disk@, b) == sector(old(disk)@, b),
            disk.wf(),
            sector(disk@, FS_START_LBA as int) == boot,
            boot == sector(old(disk)@, FS_START_LBA as int),
            formatted(old(disk)@),
            short_name(name.spec_bytes()) == Some(short@),
            i <= clusters_needed,
            allocated@.len() == i,
            forall|k: int| 0 <= k < i ==> data_cluster(#[trigger] allocated@[k]),
            forall|k: int| 0 <= k < i ==> fat_entry(disk@, #[trigger] allocated@[k]) == FAT_ENTRY_EOC,
            forall|a: int, b: int| 0 <= a < b < i ==> allocated@[a] != allocated@[b],
        decreases clusters_needed - i,
    {
        let c: u16 = match find_free_cluster(disk) {
            Ok(c) => c,
            Err(e) => {
                proof {
                    if owed {
                        lemma_no_free_count(disk@, 2 + TOTAL_CLUSTERS);
                    }
                }
                return Err(e);
            },
        };
        let ghost d0 = disk@;
        let _ = write_fat_entry(disk, c, FAT_ENTRY_EOC);
        proof {
            assert forall|k: int| 0 <= k < i implies allocated@[k] != c by {
                assert(fat_entry(d0, allocated@[k]) == FAT_ENTRY_EOC);
            }
            if owed {
                lemma_take_count(d0, disk@, c, 2 + TOTAL_CLUSTERS);
                assert((c * 2) / 512 < 32) by (nonlinear_arith)
                    requires
                        c < 8192,
                ;
            }
        }
        allocated.push(c);
        i = i + 1;
    }
    proof {
        lemma_distinct_clusters_bound(allocated@);
        lemma_clusters_small(n as int, clusters_needed as int);
    }
    let mut i: usize = 0;
    while i + 1 < allocated.len()
        invariant
            disk.wf(),
            sector(disk@, FS_START_LBA as int) == boot,
            boot == sector(old(disk)@, FS_START_LBA as int),
            formatted(old(disk)@),
            short_name(name.spec_bytes()) == Some(short@),
            1 <= clusters_needed,
            i < clusters_needed,
            allocated@.len() == clusters_needed,
            forall|k: int| 0 <= k < clusters_needed ==> data_cluster(#[trigger] allocated@[k]),
            forall|a: int, b: int| 0 <= a < b < clusters_needed ==> allocated@[a] != allocated@[b],
            forall|k: int| 0 <= k < i ==> fat_entry(disk@, #[trigger] allocated@[k]) == allocated@[k + 1],
            forall|k: int| i <= k < clusters_needed ==> fat_entry(disk@, #[trigger] allocated@[k]) == FAT_ENTRY_EOC,
            owed == new_file_fits(old(disk)@, short@, data@.len()),
            owed ==> forall|b: int| ROOT_DIR_LBA <= b < DATA_AREA_LBA ==> #[trigger] sector(disk@, b) == sector(old(disk)@, b),
        decreases allocated@.len() - i,
    {
        let ghost d0 = disk@;
        let _ = write_fat_entry(disk, allocated[i], allocated[i + 1]);
        proof {
            let ci = allocated@[i as int];
            assert((ci * 2) / 512 < 32) by (nonlinear_arith)
                requires
                    ci < 8192,
            ;
            assert forall|k: int| 0 <= k < clusters_needed && k != i implies fat_entry(disk@, #[trigger] allocated@[k])
                == fat_entry(d0, allocated@[k]) by {
                assert(allocated@[k] != allocated@[i as int]);
            }
        }
        i = i + 1;
    }
    assert(linked(disk@, allocated@));
    let mut i: usize = 0;
    while i < allocated.len()
        invariant
            disk.wf(),
            sector(disk@, FS_START_LBA as int) == boot,
            boot == sector(old(disk)@, FS_START_LBA as int),
            formatted(old(disk)@),
            short_name(name.spec_bytes()) == Some(short@),
            n == data@.len(),
            clusters_needed == (if n == 0 { 1int } else { n / 512 + if n % 512 != 0 { 1int } else { 0int } }),
            allocated@.len() == clusters_needed,
            forall|k: int| 0 <= k < clusters_needed ==> data_cluster(#[trigger] allocated@[k]),
            forall|a: int, b: int| 0 <= a < b < clusters_needed ==> allocated@[a] != allocated@[b],
            i <= clusters_needed,
            linked(disk@, allocated@),
            forall|k: int| 0 <= k < i ==> sector(disk@, cluster_lba(#[trigger] allocated@[k])).subrange(
                0,
                piece(data@, k).len() as int,
            ) == piece(data@, k),
            owed == new_file_fits(old(disk)@, short@, data@.len()),
            owed ==> forall|b: int| ROOT_DIR_LBA <= b < DATA_AREA_LBA ==> #[trigger] sector(disk@, b) == sector(old(disk)@, b),
        decreases allocated@.len() - i,
    {
        let c: u16 = allocated[i];
        let lba: u32 = DATA_AREA_LBA + (c as u32 - 2);
        assert(i * 512 <= n) by (nonlinear_arith)
            requires
                i < clusters_needed,
                clusters_needed == (if n == 0 { 1int } else { n / 512 + if n % 512 != 0 { 1int } else { 0int } }),
        ;
        let start: usize = i * SECTOR_SIZE;
        let end: usize = if n - start < SECTOR_SIZE { n } else { start + SECTOR_SIZE };
        let mut buf: Vec<u8> = crate::bytes::zeros(SECTOR_SIZE);
        let piece_bytes: Vec<u8> = crate::bytes::copy_range(data, start, end);
        crate::bytes::write_bytes(&mut buf, 0, piece_bytes.as_slice());
        let ghost d0 = disk@;
        let _ = write_sector(disk, lba, buf.as_slice());
        proof {
            lemma_sector_frame(d0, lba as int, buf@, FS_START_LBA as int);
            assert forall|b: int| ROOT_DIR_LBA <= b < DATA_AREA_LBA implies #[trigger] sector(disk@, b) == sector(d0, b) by {
                lemma_sector_frame(d0, lba as int, buf@, b);
            }
            assert(piece_bytes@ == piece(data@, i as int));
            lemma_sector_written(d0, lba as int, buf@);
            assert(buf@.subrange(0, piece_bytes@.len() as int) =~= piece_bytes@);
            assert forall|k: int| 0 <= k < clusters_needed implies fat_entry(disk@, #[trigger] allocated@[k])
                == fat_entry(d0, allocated@[k]) by {
                lemma_fat_entry_frame(d0, lba as int, buf@, allocated@[k]);
            }
            assert forall|k: int| 0 <= k < i + 1 implies sector(disk@, cluster_lba(#[trigger] allocated@[k])).subrange(
                0,
                piece(data@, k).len() as int,
            ) == piece(data@, k) by {
                if k < i {
                    assert(allocated@[k] != allocated@[i as int]);
                    lemma_sector_frame(d0, lba as int, buf@, cluster_lba(allocated@[k]));
                }
            }
        }
        i = i + 1;
    }
    let ghost d_rec = disk@;
    assert(holds(d_rec, allocated@, data@));
    let first_cluster: u16 = allocated[0];
    let mut s: u32 = 0;
    while s < ROOT_DIR_SECTORS
        invariant
            disk.wf(),
            disk@ == d_rec,
            sector(disk@, FS_START_LBA as int) == boot,
            boot == sector(old(disk)@, FS_START_LBA as int),
            formatted(old(disk)@),
            short_name(name.spec_bytes()) == Some(short@),
            short@.len() == 11,
            n == data@.len(),
            s <= ROOT_DIR_SECTORS,
            allocated@.len() == clusters_needed,
            clusters_needed == clusters_for(n as nat),
            n <= TOTAL_CLUSTERS * 512,
            allocated@.len() >= 1 && first_cluster == allocated@[0],
            forall|k: int| 0 <= k < clusters_needed ==> data_cluster(#[trigger] allocated@[k]),
            linked(d_rec, allocated@),
            holds(d_rec, allocated@, data@),
            forall|m: int| 0 <= m < 16 * s ==> #[trigger] rec(d_rec, m)[0] != 0 && rec(d_rec, m)[0] != 0xE5 && rec(d_rec, m).subrange(0, 11) != short@,
            owed == new_file_fits(old(disk)@, short@, data@.len()),
            owed ==> forall|b: int| ROOT_DIR_LBA <= b < DATA_AREA_LBA ==> #[trigger] sector(d_rec, b) == sector(old(disk)@, b),
        decreases ROOT_DIR_SECTORS - s,
    {
        let mut sec: Vec<u8> = match read_sector(disk, ROOT_DIR_LBA + s) {
            Ok(v) => v,
            Err(e) => {
                return Err(e);
            },
        };
        let mut j: usize = 0;
        while j < 16
            invariant
                disk.wf(),
                disk@ == d_rec,
                sector(disk@, FS_START_LBA as int) == boot,
                boot == sector(old(disk)@, FS_START_LBA as int),
                formatted(old(disk)@),
                short_name(name.spec_bytes()) == Some(short@),
                short@.len() == 11,
                n == data@.len(),
                s < ROOT_DIR_SECTORS,
                sec@ == sector(disk@, ROOT_DIR_LBA + s),
                j <= 16,
                allocated@.len() == clusters_needed,
                clusters_needed == clusters_for(n as nat),
                n <= TOTAL_CLUSTERS * 512,
                allocated@.len() >= 1 && first_cluster == allocated@[0],
                forall|k: int| 0 <= k < clusters_needed ==> data_cluster(#[trigger] allocated@[k]),
                linked(d_rec, allocated@),
                holds(d_rec, allocated@, data@),
                forall|m: int| 0 <= m < 16 * s + j ==> #[trigger] rec(d_rec, m)[0] != 0 && rec(d_rec, m)[0] != 0xE5 && rec(d_rec, m).subrange(0, 11) != short@,
            decreases 16 - j,
        {
            let o: usize = 32 * j;
            proof {
                lemma_rec_in_sector(d_rec, s as int, j as int);
            }
            let is_match: bool = crate::bytes::bytes_eq_at(sec.as_slice(), o, short.as_slice());
            let is_free: bool = sec[o] == 0x00 || sec[o] == 0xE5;
            assert(sec@.subrange(o as int, o + 11) =~= rec(d_rec, 16 * s + j).subrange(0, 11));
            assert(sec@[o as int] == rec(d_rec, 16 * s + j)[0]);
            if is_match || is_free {
                store_record(disk, s, j, &mut sec, &short, first_cluster, n as u32);
                proof {
                    let k = 16 * s + j;
                    let img = disk@;
                    assert(sector(img, FS_START_LBA as int) == boot);
                    assert forall|c: u16| in_table(c) implies #[trigger] fat_entry(img, c) == fat_entry(d_rec, c) by {
                        assert((c * 2) / 512 < 32) by (nonlinear_arith)
                            requires
                                c < 8192,
                        ;
                        assert(sector(img, fat_lba(0, c)) == sector(d_rec, fat_lba(0, c)));
                    }
                    assert forall|kk: int| 0 <= kk < clusters_needed implies fat_entry(img, #[trigger] allocated@[kk])
                        == fat_entry(d_rec, allocated@[kk]) by {
                        assert(data_cluster(allocated@[kk]));
                        assert(in_table(allocated@[kk]));
                    }
                    assert(linked(img, allocated@));
                    assert forall|kk: int| 0 <= kk < clusters_needed implies sector(img, cluster_lba(#[trigger] allocated@[kk]))
                        == sector(d_rec, cluster_lba(allocated@[kk])) by {
                        assert(data_cluster(allocated@[kk]));
                    }
                    assert(holds(img, allocated@, data@));
                    lemma_chain_reads(img, allocated@, data@, 0);
                    assert(data@.subrange(0, data@.len() as int) =~= data@);
                    assert(le16(rec(img, k), 26) == first_cluster);
                    assert(first_cluster == allocated@[0]);
                    assert(le32(rec(img, k), 28) == n);
                    assert forall|m: int| 0 <= m < k implies #[trigger] rec(img, m) == rec(d_rec, m) by {
                        if m < 16 * s {
                            lemma_rec_in_sector(img, m / 16, m % 16);
                            lemma_rec_in_sector(d_rec, m / 16, m % 16);
                            assert(sector(img, ROOT_DIR_LBA + m / 16) == sector(d_rec, ROOT_DIR_LBA + m / 16));
                        } else {
                            assert(rec(img, 16 * s + (m - 16 * s)) == rec(d_rec, 16 * s + (m - 16 * s)));
                        }
                    }
                    if short@[0] != 0 && short@[0] != 0xE5 {
                        lemma_find_first(img, short@, 0, k);
                    }
                }
                return Ok(());
            }
            proof {
                let m = 16 * s + j;
                assert(rec(d_rec, m)[0] != 0 && rec(d_rec, m)[0] != 0xE5 && rec(d_rec, m).subrange(0, 11) != short@);
                assert forall|mm: int| 0 <= mm < 16 * s + j + 1 implies #[trigger] rec(d_rec, mm)[0] != 0 && rec(d_rec, mm)[0]
                    != 0xE5 && rec(d_rec, mm).subrange(0, 11) != short@ by {
                    if mm < 16 * s + j {
                    } else {
                        assert(mm == m);
                    }
                }
            }
            j = j + 1;
        }
        s = s + 1;
    }
    proof {
        if owed {
            let m = choose|m: int| 0 <= m < 512 && (#[trigger] rec(old(disk)@, m)[0] == 0 || rec(old(disk)@, m)[0] == 0xE5);
            lemma_rec_in_sector(d_rec, m / 16, m % 16);
            lemma_rec_in_sector(old(disk)@, m / 16, m % 16);
            assert(sector(d_rec, ROOT_DIR_LBA + m / 16) == sector(old(disk)@, ROOT_DIR_LBA + m / 16));
            assert(rec(d_rec, m)[0] != 0);
        }
    }
    Err(FatError::DirectoryFull)
}

/// Deleting the file of record `k` from `a` gives `b`: when its chain is
/// empty the deletion succeeds; when it succeeded (`ok`), the record is
/// marked deleted (0xE5) with its other bytes kept, the chain's first
/// cluster is free, and each table entry is free or as it was.
pub open spec fn record_deleted(a: Seq<u8>, b: Seq<u8>, k: int, ok: bool) -> bool {
    let c = le16(rec(a, k), 26) as u16;
    &&& (c >= FAT_ENTRY_RESERVED || c == FAT_ENTRY_FREE ==> ok)
    &&& ok ==> {
        &&& rec(b, k)[0] == 0xE5
        &&& rec(b, k).subrange(1, 32) == rec(a, k).subrange(1, 32)
        &&& (c < FAT_ENTRY_RESERVED && c != FAT_ENTRY_FREE && in_table(c) ==> fat_entry(b, c) == 0)
        &&& forall|e: u16| in_table(e) ==> #[trigger] fat_entry(b, e) == 0 || fat_entry(b, e) == fat_entry(a, e)
    }
}

/// Deletes a file of the root directory: frees its chain and marks its
/// record deleted (0xE5).
pub fn delete_file(disk: &mut RamDisk, name: &str) -> (r: Result<(), FatError>)
    requires
        old(disk).wf(),
    ensures
        final(disk).wf(),
        !formatted(old(disk)@) ==> (r == Err::<(), FatError>(FatError::NotFormatted) && final(disk)@ == old(disk)@),
        formatted(old(disk)@) && short_name(name.spec_bytes()) is None ==> (r == Err::<(), FatError>(FatError::InvalidName) && final(disk)@ == old(disk)@),
        formatted(old(disk)@) ==> (short_name(name.spec_bytes()) matches Some(sn) ==> (find_from(old(disk)@, sn, 0) is None
            ==> (r == Err::<(), FatError>(FatError::FileNotFound) && final(disk)@ == old(disk)@))),
        formatted(final(disk)@) == formatted(old(disk)@),
        formatted(old(disk)@) ==> match short_name(name.spec_bytes()) {
            Some(sn) => match find_from(old(disk)@, sn, 0) {
                Some(k) => record_deleted(old(disk)@, final(disk)@, k, r is Ok),
                None => true,
            },
            None => true,
        },
{
    if !is_formatted(disk) {
        return Err(FatError::NotFormatted);
    }
    let short: Vec<u8> = match to_short_name(name) {
        Ok(v) => v,
        Err(e) => {
            return Err(e);
        },
    };
    let ghost boot = sector(disk@, FS_START_LBA as int);
    let mut s: u32 = 0;
    while s < ROOT_DIR_SECTORS
        invariant
            disk.wf(),
            disk@ == old(disk)@,
            formatted(disk@),
            short_name(name.spec_bytes()) == Some(short@),
            short@.len() == 11,
            s <= ROOT_DIR_SECTORS,
            find_from(disk@, short@, 0) == find_from(disk@, short@, 16 * s as int),
        decreases ROOT_DIR_SECTORS - s,
    {
        let mut sec: Vec<u8> = match read_sector(disk, ROOT_DIR_LBA + s) {
            Ok(v) => v,
            Err(e) => {
                return Err(e);
            },
        };
        let mut j: usize = 0;
        while j < 16
            invariant
                disk.wf(),
                disk@ == old(disk)@,
                formatted(disk@),
                short_name(name.spec_bytes()) == Some(short@),
                short@.len() == 11,
                s < ROOT_DIR_SECTORS,
                sec@ == sector(disk@, ROOT_DIR_LBA + s),
                j <= 16,
                find_from(disk@, short@, 0) == find_from(disk@, short@, 16 * s + j),
            decreases 16 - j,
        {
            let o: usize = 32 * j;
            proof {
                lemma_rec_in_sector(disk@, s as int, j as int);
            }
            let ghost r = rec(disk@, 16 * s + j);
            assert(sec@[o as int] == r[0]);
            if sec[o] == 0x00 {
                assert(find_from(disk@, short@, 16 * s + j) is None);
                return Err(FatError::FileNotFound);
            }
            if sec[o] == 0xE5 {
                j = j + 1;
                continue;
            }
            let hit: bool = crate::bytes::bytes_eq_at(sec.as_slice(), o, short.as_slice());
            assert(sec@.subrange(o as int, o + 11) =~= r.subrange(0, 11));
            if hit {
                let ghost k = 16 * s + j;
                assert(find_from(disk@, short@, k) == Some(k));
                assert(sec@.subrange(o as int, o + 32) =~= r);
                let cluster: u16 = rd_le16(sec.as_slice(), o + 26);
                assert(cluster == le16(r, 26)) by {
                    assert(sec@[o + 26] == r[26]);
                    assert(sec@[o + 27] == r[27]);
                }
                match free_chain(disk, cluster) {
                    Ok(()) => {},
                    Err(e) => {
                        return Err(e);
                    },
                }
                let ghost sec0 = sec@;
                sec.set(o, 0xE5);
                let ghost d0 = disk@;
                let _ = write_sector(disk, ROOT_DIR_LBA + s, sec.as_slice());
                proof {
                    lemma_sector_frame(d0, ROOT_DIR_LBA + s, sec@, FS_START_LBA as int);
                    lemma_rec_in_sector(disk@, s as int, j as int);
                    assert(sector(disk@, ROOT_DIR_LBA + s) =~= sec@) by {
                        assert(d0.len() == RAMDISK_SIZE);
                    }
                    assert(rec(disk@, k) =~= sec@.subrange(o as int, o + 32));
                    assert(rec(disk@, k).subrange(1, 32) =~= r.subrange(1, 32)) by {
                        assert forall|t: int| 1 <= t < 32 implies rec(disk@, k)[t] == r[t] by {
                            assert(sec@[o + t] == sec0[o + t]);
                        }
                    }
                    assert forall|e: u16| in_table(e) implies #[trigger] fat_entry(disk@, e) == fat_entry(d0, e) by {
                        lemma_fat_entry_frame(d0, (ROOT_DIR_LBA + s) as int, sec@, e);
                    }
                }
                return Ok(());
            }
            j = j + 1;
        }
        s = s + 1;
    }
    Err(FatError::FileNotFound)
}

/// Formatting leaves an empty root directory: listing it gives nothing.
pub proof fn lemma_format_lists_empty(img: Seq<u8>)
    requires
        img.len() == RAMDISK_SIZE,
        forall|k: int| 0 <= k < ROOT_DIR_SECTORS ==> #[trigger] sector(img, ROOT_DIR_LBA + k) == Seq::new(512, |i: int| 0u8),
    ensures
        listed(img, 0) == Seq::<(Seq<char>, u32, bool)>::empty(),
{
    assert(sector(img, ROOT_DIR_LBA + 0) == Seq::new(512, |i: int| 0u8));
    lemma_rec_in_sector(img, 0, 0);
    assert(rec(img, 0)[0] == sector(img, ROOT_DIR_LBA + 0)[0]);
}

} // verus!
