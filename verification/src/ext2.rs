//! ext2 (revision 0, one block group, 1 KiB blocks) on the /userdata
//! partition of the RAM disk: superblock, group descriptor, bitmaps,
//! inodes with twelve direct pointers and one indirect block, directory
//! entries, and path-based file and directory operations.
use vstd::prelude::*;
use crate::bytes::{le16, le32, le16_bytes, le32_bytes, splice, rd_le16, rd_le32, put_le16, put_le32};
use crate::ramdisk::RamDisk;
use vstd::string::StringSliceAdditionalSpecFns;
use crate::text::{split_path, path_parts, views};

verus! {

pub const BLOCK_SIZE: usize = 1024;
pub const SECTOR_SIZE: usize = 512;
pub const SECTORS_PER_BLOCK: u32 = 2;
pub const INODE_SIZE: usize = 128;
pub const EXT2_MAGIC: u16 = 0xEF53;
pub const ROOT_INO: u32 = 2;
pub const LOST_AND_FOUND_INO: u32 = 11;
pub const FIRST_NON_RESERVED_INO: u32 = 11;
pub const MAX_DIRECT_BLOCKS: usize = 12;
pub const INDIRECT_BLOCK_INDEX: usize = 12;
pub const PTRS_PER_INDIRECT_BLOCK: usize = 256;
pub const MAX_FILE_BLOCKS: usize = 268;
pub const FS_START_LBA: u32 = 12800;
pub const TOTAL_SECTORS: u32 = 5632;
pub const TOTAL_BLOCKS: u32 = 2816;
pub const SB_BLOCK: u32 = 1;
pub const GDT_BLOCK: u32 = 2;
pub const BLOCK_BITMAP_BLOCK: u32 = 3;
pub const INODE_BITMAP_BLOCK: u32 = 4;
pub const INODE_TABLE_START: u32 = 5;
/// One inode per 4 KiB of volume, rounded up to a multiple of 8.
pub const INODES_COUNT: u32 = 704;
/// Blocks of the inode table: 704 inodes of 128 bytes.
pub const INODE_TABLE_BLOCKS: u32 = 88;
pub const DATA_START_BLOCK: u32 = 93;
pub const ROOT_DIR_BLOCK: u32 = 93;
pub const LOST_FOUND_BLOCK: u32 = 94;
/// Blocks 1..=94 are in use right after formatting.
pub const RESERVED_META_BLOCKS: u32 = 94;
/// Blocks 1..2816 belong to the group (block 0 precedes it).
pub const VALID_BLOCKS_IN_GROUP: u32 = 2815;
pub const MAX_PATH_DEPTH: usize = 16;

#[derive(Debug, Clone, Copy, PartialEq, Eq, Structural)]
pub enum Ext2Error {
    DiskError,
    NotFormatted,
    FileNotFound,
    NoSpace,
    InvalidName,
    FileTooLarge,
    DirectoryFull,
}

pub struct FileEntry {
    pub name: String,
    pub size: u32,
    pub is_directory: bool,
}

/// Byte offset of block `b` of the volume on the disk.
pub open spec fn block_offset(b: int) -> int {
    (FS_START_LBA + 2 * b) * 512
}

/// Block `b` lies on the disk.
pub open spec fn block_ok(b: int) -> bool {
    0 <= b && FS_START_LBA + 2 * b + 2 <= crate::ramdisk::RAMDISK_SECTORS
}

/// Bytes of block `b`.
pub open spec fn block_at(img: Seq<u8>, b: int) -> Seq<u8> {
    img.subrange(block_offset(b), block_offset(b) + 1024)
}

/// The image with block `b` replaced by `data`.
pub open spec fn with_block(img: Seq<u8>, b: int, data: Seq<u8>) -> Seq<u8> {
    splice(img, block_offset(b), data)
}

/// Reads one block.
fn read_block(disk: &RamDisk, block: u32) -> (r: Result<Vec<u8>, Ext2Error>)
    requires
        disk.wf(),
    ensures
        block_ok(block as int) ==> (r matches Ok(v) && v@ == block_at(disk@, block as int)),
        !block_ok(block as int) ==> r == Err::<Vec<u8>, Ext2Error>(Ext2Error::DiskError),
{
    if block > 3839 {
        return Err(Ext2Error::DiskError);
    }
    let lba: u32 = FS_START_LBA + block * SECTORS_PER_BLOCK;
    let mut buf: Vec<u8> = crate::bytes::zeros(BLOCK_SIZE);
    match disk.read_sectors(lba, 2, &mut buf) {
        Ok(()) => {},
        Err(()) => {
            return Err(Ext2Error::DiskError);
        },
    }
    assert(buf@ =~= block_at(disk@, block as int));
    Ok(buf)
}

/// Writes one block (1024 bytes of `data`).
fn write_block(disk: &mut RamDisk, block: u32, data: &[u8]) -> (r: Result<(), Ext2Error>)
    requires
        old(disk).wf(),
        data@.len() == BLOCK_SIZE,
    ensures
        final(disk).wf(),
        block_ok(block as int) ==> r is Ok && final(disk)@ == with_block(old(disk)@, block as int, data@),
        !block_ok(block as int) ==> r == Err::<(), Ext2Error>(Ext2Error::DiskError) && final(disk)@ == old(disk)@,
{
    if block > 3839 {
        return Err(Ext2Error::DiskError);
    }
    let lba: u32 = FS_START_LBA + block * SECTORS_PER_BLOCK;
    match disk.write_sectors(lba, 2, data) {
        Ok(()) => {},
        Err(()) => {
            return Err(Ext2Error::DiskError);
        },
    }
    assert(data@.subrange(0, 1024) =~= data@);
    Ok(())
}

/// Writes `data` into block `block` at byte `offset`, keeping the rest.
fn write_block_partial(disk: &mut RamDisk, block: u32, offset: usize, data: &[u8]) -> (r: Result<(), Ext2Error>)
    requires
        old(disk).wf(),
        offset + data@.len() <= BLOCK_SIZE,
    ensures
        final(disk).wf(),
        block_ok(block as int) ==> r is Ok && final(disk)@ == with_block(old(disk)@, block as int, splice(block_at(old(disk)@, block as int), offset as int, data@)),
        !block_ok(block as int) ==> r == Err::<(), Ext2Error>(Ext2Error::DiskError) && final(disk)@ == old(disk)@,
{
    let mut buf: Vec<u8> = match read_block(disk, block) {
        Ok(b) => b,
        Err(e) => {
            return Err(e);
        },
    };
    crate::bytes::write_bytes(&mut buf, offset, data);
    write_block(disk, block, buf.as_slice())
}

/// The superblock carries the ext2 magic (bytes 56..58).
pub open spec fn formatted(img: Seq<u8>) -> bool {
    le16(block_at(img, SB_BLOCK as int), 56) == EXT2_MAGIC
}

pub fn is_formatted(disk: &RamDisk) -> (r: bool)
    requires
        disk.wf(),
    ensures
        r == formatted(disk@),
{
    match read_block(disk, SB_BLOCK) {
        Ok(sb) => rd_le16(sb.as_slice(), 56) == EXT2_MAGIC,
        Err(_) => false,
    }
}

/// Bit `bit` of a bitmap block.
pub open spec fn bit_of(buf: Seq<u8>, bit: int) -> bool {
    (buf[bit / 8] >> ((bit % 8) as u8)) & 1u8 != 0
}

pub open spec fn set_bit(buf: Seq<u8>, bit: int, value: bool) -> Seq<u8> {
    let b = buf[bit / 8];
    let m = 1u8 << ((bit % 8) as u8);
    buf.update(bit / 8, if value { b | m } else { b & !m })
}

fn bitmap_get(disk: &RamDisk, block: u32, bit: u32) -> (r: Result<bool, Ext2Error>)
    requires
        disk.wf(),
        bit < 8192,
    ensures
        block_ok(block as int) ==> r == Ok::<bool, Ext2Error>(bit_of(block_at(disk@, block as int), bit as int)),
        !block_ok(block as int) ==> r == Err::<bool, Ext2Error>(Ext2Error::DiskError),
{
    let buf: Vec<u8> = match read_block(disk, block) {
        Ok(b) => b,
        Err(e) => {
            return Err(e);
        },
    };
    let byte: u8 = buf[(bit / 8) as usize];
    Ok((byte >> ((bit % 8) as u8)) & 1 != 0)
}

fn bitmap_set(disk: &mut RamDisk, block: u32, bit: u32, value: bool) -> (r: Result<(), Ext2Error>)
    requires
        old(disk).wf(),
        bit < 8192,
    ensures
        final(disk).wf(),
        block_ok(block as int) ==> r is Ok && final(disk)@ == with_block(old(disk)@, block as int, set_bit(block_at(old(disk)@, block as int), bit as int, value)),
        !block_ok(block as int) ==> r == Err::<(), Ext2Error>(Ext2Error::DiskError) && final(disk)@ == old(disk)@,
{
    let mut buf: Vec<u8> = match read_block(disk, block) {
        Ok(b) => b,
        Err(e) => {
            return Err(e);
        },
    };
    let idx: usize = (bit / 8) as usize;
    let m: u8 = 1u8 << ((bit % 8) as u8);
    let b: u8 = buf[idx];
    if value {
        buf.set(idx, b | m);
    } else {
        buf.set(idx, b & !m);
    }
    write_block(disk, block, buf.as_slice())
}


/// Adds `delta` (wrapping) to the free-block counters of the superblock
/// (u32 at 12) and of the group descriptor (u16 at 12).
fn adjust_free_blocks(disk: &mut RamDisk, delta: i32) -> (r: Result<(), Ext2Error>)
    requires
        old(disk).wf(),
        -1 <= delta <= 1,
    ensures
        final(disk).wf(),
        r is Ok,
        counters_moved(old(disk)@, final(disk)@, 12, delta as int),
        formatted(final(disk)@) == formatted(old(disk)@),
        forall|c: int| block_ok(c) && c != SB_BLOCK && c != GDT_BLOCK ==> #[trigger] block_at(final(disk)@, c) == block_at(old(disk)@, c),
{
    adjust_counter(disk, 12, delta)
}

/// The same for the free-inode counters (u32 at 16, u16 at 14).
fn adjust_free_inodes(disk: &mut RamDisk, delta: i32) -> (r: Result<(), Ext2Error>)
    requires
        old(disk).wf(),
        -1 <= delta <= 1,
    ensures
        final(disk).wf(),
        r is Ok,
        counters_moved(old(disk)@, final(disk)@, 16, delta as int),
        formatted(final(disk)@) == formatted(old(disk)@),
        forall|c: int| block_ok(c) && c != SB_BLOCK && c != GDT_BLOCK ==> #[trigger] block_at(final(disk)@, c) == block_at(old(disk)@, c),
{
    adjust_counter(disk, 16, delta)
}

/// `v + d` wrapped into `0..m`.
pub open spec fn wrap(v: int, d: int, m: int) -> int {
    (v + d + m) % m
}

/// Offset in the group descriptor of the counter kept at `sb_off` in the
/// superblock.
pub open spec fn gdt_counter_off(sb_off: int) -> int {
    if sb_off == 12 { 12 } else { 14 }
}

/// The superblock and group descriptor of `old` with the counters at
/// `sb_off` (32 bits) and its group-descriptor offset (16 bits) moved by
/// `delta`, wrapping.
pub open spec fn counters_moved(old: Seq<u8>, new: Seq<u8>, sb_off: int, delta: int) -> bool {
    let sb = block_at(old, SB_BLOCK as int);
    let gd = block_at(old, GDT_BLOCK as int);
    let go = gdt_counter_off(sb_off);
    &&& block_at(new, SB_BLOCK as int) == splice(sb, sb_off, le32_bytes(wrap(le32(sb, sb_off), delta, 0x1_0000_0000) as u32))
    &&& block_at(new, GDT_BLOCK as int) == splice(gd, go, le16_bytes(wrap(le16(gd, go), delta, 0x1_0000) as u16))
}

fn wrap32(v: u32, delta: i32) -> (r: u32)
    requires
        -1 <= delta <= 1,
    ensures
        r == wrap(v as int, delta as int, 0x1_0000_0000),
{
    if delta == 1 {
        if v == 0xFFFF_FFFF { 0 } else { v + 1 }
    } else if delta == -1 {
        if v == 0 { 0xFFFF_FFFF } else { v - 1 }
    } else {
        v
    }
}

fn wrap16(v: u16, delta: i32) -> (r: u16)
    requires
        -1 <= delta <= 1,
    ensures
        r == wrap(v as int, delta as int, 0x1_0000),
{
    if delta == 1 {
        if v == 0xFFFF { 0 } else { v + 1 }
    } else if delta == -1 {
        if v == 0 { 0xFFFF } else { v - 1 }
    } else {
        v
    }
}

fn adjust_counter(disk: &mut RamDisk, sb_off: usize, delta: i32) -> (r: Result<(), Ext2Error>)
    requires
        old(disk).wf(),
        sb_off == 12 || sb_off == 16,
        -1 <= delta <= 1,
    ensures
        final(disk).wf(),
        r is Ok,
        counters_moved(old(disk)@, final(disk)@, sb_off as int, delta as int),
        formatted(final(disk)@) == formatted(old(disk)@),
        forall|c: int| block_ok(c) && c != SB_BLOCK && c != GDT_BLOCK ==> #[trigger] block_at(final(disk)@, c) == block_at(old(disk)@, c),
{
    let mut sb: Vec<u8> = match read_block(disk, SB_BLOCK) {
        Ok(b) => b,
        Err(e) => {
            return Err(e);
        },
    };
    let ghost d0 = disk@;
    let ghost sb0 = sb@;
    let val: u32 = rd_le32(sb.as_slice(), sb_off);
    let new_val: u32 = wrap32(val, delta);
    put_le32(&mut sb, sb_off, new_val);
    assert(sb@[56] == sb0[56] && sb@[57] == sb0[57]);
    match write_block(disk, SB_BLOCK, sb.as_slice()) {
        Ok(()) => {},
        Err(e) => {
            return Err(e);
        },
    }
    proof {
        assert(block_at(disk@, SB_BLOCK as int) =~= sb@);
        assert forall|c: int| block_ok(c) && c != SB_BLOCK implies #[trigger] block_at(disk@, c) == block_at(d0, c) by {
            lemma_other_block(d0, SB_BLOCK as int, sb@, c);
        }
    }
    let ghost d1 = disk@;
    let mut gdt: Vec<u8> = match read_block(disk, GDT_BLOCK) {
        Ok(b) => b,
        Err(e) => {
            return Err(e);
        },
    };
    let gdt_off: usize = if sb_off == 12 { 12 } else { 14 };
    let gval: u16 = rd_le16(gdt.as_slice(), gdt_off);
    let new_g: u16 = wrap16(gval, delta);
    put_le16(&mut gdt, gdt_off, new_g);
    let r = write_block(disk, GDT_BLOCK, gdt.as_slice());
    proof {
        lemma_keeps_sb(d1, GDT_BLOCK as int, gdt@);
        lemma_other_block(d1, GDT_BLOCK as int, gdt@, SB_BLOCK as int);
        assert(block_at(disk@, GDT_BLOCK as int) =~= gdt@);
        assert(block_at(d1, GDT_BLOCK as int) == block_at(d0, GDT_BLOCK as int));
        assert forall|c: int| block_ok(c) && c != SB_BLOCK && c != GDT_BLOCK implies #[trigger] block_at(disk@, c) == block_at(d0, c) by {
            lemma_other_block(d1, GDT_BLOCK as int, gdt@, c);
        }
    }
    r
}

/// The first clear bit below `limit` of a bitmap block.
pub open spec fn first_clear(buf: Seq<u8>, i: int, limit: int) -> Option<int>
    decreases limit - i,
{
    if i >= limit || i < 0 {
        None
    } else if !bit_of(buf, i) {
        Some(i)
    } else {
        first_clear(buf, i + 1, limit)
    }
}

/// The bit `first_clear` finds is clear and lies in the range.
pub(crate) proof fn lemma_first_clear(buf: Seq<u8>, i: int, limit: int)
    ensures
        first_clear(buf, i, limit) matches Some(j) ==> i <= j < limit && !bit_of(buf, j),
    decreases limit - i,
{
    if i < limit && i >= 0 && bit_of(buf, i) {
        lemma_first_clear(buf, i + 1, limit);
    }
}

/// Setting a bit leaves every other bit as it was.
pub(crate) proof fn lemma_set_bit(buf: Seq<u8>, b: int, i: int)
    requires
        buf.len() == 1024,
        0 <= b < 8192,
        0 <= i < 8192,
    ensures
        bit_of(set_bit(buf, b, true), i) == (i == b || bit_of(buf, i)),
        set_bit(buf, b, true).len() == 1024,
{
    let x = buf[b / 8];
    let sb = (b % 8) as u8;
    let si = (i % 8) as u8;
    let m = 1u8 << sb;
    if i / 8 == b / 8 {
        assert(sb < 8 && si < 8);
        assert((((x | m) >> si) & 1u8 != 0) == (si == sb || (x >> si) & 1u8 != 0)) by (bit_vector)
            requires
                m == 1u8 << sb,
                sb < 8,
                si < 8,
        ;
        if si == sb {
            assert(i == b);
        }
    }
}

/// Takes the first free bit of a bitmap block and returns its number + 1.
fn alloc_bit(disk: &mut RamDisk, bitmap: u32, limit: u32, inodes: bool) -> (r: Result<u32, Ext2Error>)
    requires
        old(disk).wf(),
        limit <= 8192,
        bitmap == BLOCK_BITMAP_BLOCK || bitmap == INODE_BITMAP_BLOCK,
    ensures
        final(disk).wf(),
        first_clear(block_at(old(disk)@, bitmap as int), 0, limit as int) is None ==> r == Err::<u32, Ext2Error>(Ext2Error::NoSpace),
        first_clear(block_at(old(disk)@, bitmap as int), 0, limit as int) is Some ==> r is Ok,
        r matches Ok(n) ==> first_clear(block_at(old(disk)@, bitmap as int), 0, limit as int) == Some((n - 1) as int) && 1 <= n <= limit,
        r matches Ok(n) ==> !bit_of(block_at(old(disk)@, bitmap as int), n - 1),
        r matches Ok(n) ==> block_at(final(disk)@, bitmap as int) == set_bit(block_at(old(disk)@, bitmap as int), n - 1, true),
        r is Ok ==> formatted(final(disk)@) == formatted(old(disk)@),
        r is Ok ==> forall|c: int| block_ok(c) && c != bitmap && c != SB_BLOCK && c != GDT_BLOCK ==> #[trigger] block_at(final(disk)@, c)
            == block_at(old(disk)@, c),
{
    let mut bit: u32 = 0;
    while bit < limit
        invariant
            disk.wf(),
            disk@ == old(disk)@,
            limit <= 8192,
            bit <= limit,
            bitmap == BLOCK_BITMAP_BLOCK || bitmap == INODE_BITMAP_BLOCK,
            first_clear(block_at(old(disk)@, bitmap as int), 0, limit as int) == first_clear(block_at(old(disk)@, bitmap as int), bit as int, limit as int),
        decreases limit - bit,
    {
        let used: bool = match bitmap_get(disk, bitmap, bit) {
            Ok(b) => b,
            Err(e) => {
                return Err(e);
            },
        };
        if !used {
            let ghost d0 = disk@;
            match bitmap_set(disk, bitmap, bit, true) {
                Ok(()) => {},
                Err(e) => {
                    return Err(e);
                },
            }
            let ghost d1 = disk@;
            proof {
                let nb = set_bit(block_at(d0, bitmap as int), bit as int, true);
                assert(nb.len() == 1024);
                lemma_keeps_sb(d0, bitmap as int, nb);
                assert(block_at(d1, bitmap as int) =~= nb);
                assert forall|c: int| block_ok(c) && c != bitmap implies #[trigger] block_at(d1, c) == block_at(d0, c) by {
                    lemma_other_block(d0, bitmap as int, nb, c);
                }
                lemma_first_clear(block_at(old(disk)@, bitmap as int), 0, limit as int);
            }
            let adj = if inodes { adjust_free_inodes(disk, -1) } else { adjust_free_blocks(disk, -1) };
            match adj {
                Ok(()) => {},
                Err(e) => {
                    return Err(e);
                },
            }
            return Ok(bit + 1);
        }
        bit = bit + 1;
    }
    Err(Ext2Error::NoSpace)
}

/// Allocates the first free block of the group; its number is bit + 1.
fn alloc_block(disk: &mut RamDisk) -> (r: Result<u32, Ext2Error>)
    requires
        old(disk).wf(),
    ensures
        final(disk).wf(),
        r matches Ok(b) ==> 1 <= b <= VALID_BLOCKS_IN_GROUP && block_ok(b as int),
        first_clear(block_at(old(disk)@, BLOCK_BITMAP_BLOCK as int), 0, VALID_BLOCKS_IN_GROUP as int) is None ==> r == Err::<u32, Ext2Error>(Ext2Error::NoSpace),
        first_clear(block_at(old(disk)@, BLOCK_BITMAP_BLOCK as int), 0, VALID_BLOCKS_IN_GROUP as int) is Some ==> r is Ok,
        r matches Ok(b) ==> first_clear(block_at(old(disk)@, BLOCK_BITMAP_BLOCK as int), 0, VALID_BLOCKS_IN_GROUP as int) == Some((b - 1) as int),
        r matches Ok(b) ==> !bit_of(block_at(old(disk)@, BLOCK_BITMAP_BLOCK as int), b - 1),
        r matches Ok(b) ==> block_at(final(disk)@, BLOCK_BITMAP_BLOCK as int) == set_bit(block_at(old(disk)@, BLOCK_BITMAP_BLOCK as int), b - 1, true),
        r is Ok ==> formatted(final(disk)@) == formatted(old(disk)@),
        r is Ok ==> forall|c: int| block_ok(c) && c != BLOCK_BITMAP_BLOCK && c != SB_BLOCK && c != GDT_BLOCK ==> #[trigger] block_at(final(disk)@, c)
            == block_at(old(disk)@, c),
{
    alloc_bit(disk, BLOCK_BITMAP_BLOCK, VALID_BLOCKS_IN_GROUP, false)
}

/// Allocates the first free inode.
fn alloc_inode(disk: &mut RamDisk) -> (r: Result<u32, Ext2Error>)
    requires
        old(disk).wf(),
    ensures
        final(disk).wf(),
        r matches Ok(i) ==> 1 <= i <= INODES_COUNT,
        first_clear(block_at(old(disk)@, INODE_BITMAP_BLOCK as int), 0, INODES_COUNT as int) is None ==> r == Err::<u32, Ext2Error>(Ext2Error::NoSpace),
        first_clear(block_at(old(disk)@, INODE_BITMAP_BLOCK as int), 0, INODES_COUNT as int) is Some ==> r is Ok,
        r matches Ok(i) ==> first_clear(block_at(old(disk)@, INODE_BITMAP_BLOCK as int), 0, INODES_COUNT as int) == Some((i - 1) as int),
        r matches Ok(i) ==> !bit_of(block_at(old(disk)@, INODE_BITMAP_BLOCK as int), i - 1),
        r is Ok ==> formatted(final(disk)@) == formatted(old(disk)@),
        r is Ok ==> forall|c: int| block_ok(c) && c != INODE_BITMAP_BLOCK && c != SB_BLOCK && c != GDT_BLOCK ==> #[trigger] block_at(final(disk)@, c)
            == block_at(old(disk)@, c),
{
    alloc_bit(disk, INODE_BITMAP_BLOCK, INODES_COUNT, true)
}

/// Marks block `block_num` free. A number outside the bitmap is reported
/// as a disk error.
fn free_block(disk: &mut RamDisk, block_num: u32) -> (r: Result<(), Ext2Error>)
    requires
        old(disk).wf(),
    ensures
        final(disk).wf(),
        block_num == 0 || block_num > 8192 ==> r == Err::<(), Ext2Error>(Ext2Error::DiskError) && final(disk)@ == old(disk)@,
        1 <= block_num <= 8192 ==> {
            &&& r is Ok
            &&& block_at(final(disk)@, BLOCK_BITMAP_BLOCK as int) == set_bit(block_at(old(disk)@, BLOCK_BITMAP_BLOCK as int), block_num - 1, false)
            &&& counters_moved(old(disk)@, final(disk)@, 12, 1)
            &&& forall|c: int| block_ok(c) && c != BLOCK_BITMAP_BLOCK && c != SB_BLOCK && c != GDT_BLOCK ==> #[trigger] block_at(
                final(disk)@,
                c,
            ) == block_at(old(disk)@, c)
        },
{
    if block_num == 0 || block_num > 8192 {
        return Err(Ext2Error::DiskError);
    }
    let ghost d0 = disk@;
    match bitmap_set(disk, BLOCK_BITMAP_BLOCK, block_num - 1, false) {
        Ok(()) => {},
        Err(e) => {
            return Err(e);
        },
    }
    let ghost d1 = disk@;
    proof {
        let nb = set_bit(block_at(d0, BLOCK_BITMAP_BLOCK as int), block_num - 1, false);
        assert(nb.len() == 1024);
        assert(block_at(d1, BLOCK_BITMAP_BLOCK as int) =~= nb);
        assert forall|c: int| block_ok(c) && c != BLOCK_BITMAP_BLOCK implies #[trigger] block_at(d1, c) == block_at(d0, c) by {
            lemma_other_block(d0, BLOCK_BITMAP_BLOCK as int, nb, c);
        }
        assert(block_at(d1, SB_BLOCK as int) == block_at(d0, SB_BLOCK as int));
        assert(block_at(d1, GDT_BLOCK as int) == block_at(d0, GDT_BLOCK as int));
    }
    adjust_free_blocks(disk, 1)
}

/// Marks inode `ino` free. A number outside the bitmap is reported as a
/// disk error.
fn free_inode(disk: &mut RamDisk, ino: u32) -> (r: Result<(), Ext2Error>)
    requires
        old(disk).wf(),
    ensures
        final(disk).wf(),
        ino == 0 || ino > 8192 ==> r == Err::<(), Ext2Error>(Ext2Error::DiskError) && final(disk)@ == old(disk)@,
        1 <= ino <= 8192 ==> {
            &&& r is Ok
            &&& block_at(final(disk)@, INODE_BITMAP_BLOCK as int) == set_bit(block_at(old(disk)@, INODE_BITMAP_BLOCK as int), ino - 1, false)
            &&& counters_moved(old(disk)@, final(disk)@, 16, 1)
            &&& forall|c: int| block_ok(c) && c != INODE_BITMAP_BLOCK && c != SB_BLOCK && c != GDT_BLOCK ==> #[trigger] block_at(
                final(disk)@,
                c,
            ) == block_at(old(disk)@, c)
        },
{
    if ino == 0 || ino > 8192 {
        return Err(Ext2Error::DiskError);
    }
    let ghost d0 = disk@;
    match bitmap_set(disk, INODE_BITMAP_BLOCK, ino - 1, false) {
        Ok(()) => {},
        Err(e) => {
            return Err(e);
        },
    }
    let ghost d1 = disk@;
    proof {
        let nb = set_bit(block_at(d0, INODE_BITMAP_BLOCK as int), ino - 1, false);
        assert(nb.len() == 1024);
        assert(block_at(d1, INODE_BITMAP_BLOCK as int) =~= nb);
        assert forall|c: int| block_ok(c) && c != INODE_BITMAP_BLOCK implies #[trigger] block_at(d1, c) == block_at(d0, c) by {
            lemma_other_block(d0, INODE_BITMAP_BLOCK as int, nb, c);
        }
        assert(block_at(d1, SB_BLOCK as int) == block_at(d0, SB_BLOCK as int));
        assert(block_at(d1, GDT_BLOCK as int) == block_at(d0, GDT_BLOCK as int));
    }
    adjust_free_inodes(disk, 1)
}

/// Block of the inode table holding inode `ino` and the offset inside it.
pub open spec fn inode_block(ino: int) -> int {
    INODE_TABLE_START + (ino - 1) * 128 / 1024
}

pub open spec fn inode_offset(ino: int) -> int {
    ((ino - 1) * 128) % 1024
}

/// The fields of an inode the file system uses.
pub struct Inode {
    pub mode: u16,
    pub size: u32,
    pub links_count: u16,
    pub block_ptrs: Vec<u32>,
}

pub open spec fn inode_bytes(img: Seq<u8>, ino: int) -> Seq<u8> {
    block_at(img, inode_block(ino)).subrange(inode_offset(ino), inode_offset(ino) + 128)
}

/// Block pointer `i` of an inode record.
pub open spec fn ptr_of(raw: Seq<u8>, i: int) -> u32 {
    le32(raw, 40 + i * 4) as u32
}

fn inode_location(ino: u32) -> (r: (u32, usize))
    requires
        1 <= ino <= 8192,
    ensures
        r.0 == inode_block(ino as int),
        r.1 == inode_offset(ino as int),
        r.1 + 128 <= 1024,
{
    let index: u32 = ino - 1;
    let containing_block: u32 = INODE_TABLE_START + (index * 128) / 1024;
    let offset_in_block: usize = ((index as usize) * 128) % 1024;
    assert(offset_in_block + 128 <= 1024) by (nonlinear_arith)
        requires
            offset_in_block == ((index as int) * 128) % 1024,
    ;
    (containing_block, offset_in_block)
}

/// Reads inode `ino`; a number outside the table is a disk error.
fn read_inode(disk: &RamDisk, ino: u32) -> (r: Result<Inode, Ext2Error>)
    requires
        disk.wf(),
    ensures
        inode_ok(ino as int) <==> r is Ok,
        r matches Ok(n) ==> 1 <= ino <= 8192 && block_ok(inode_block(ino as int)) && n.block_ptrs@.len() == 15 && ({
            let raw = inode_bytes(disk@, ino as int);
            &&& n.mode == le16(raw, 0)
            &&& n.size == le32(raw, 4)
            &&& n.links_count == le16(raw, 26)
            &&& forall|i: int| 0 <= i < 15 ==> n.block_ptrs@[i] == ptr_of(raw, i)
        }),
{
    if ino == 0 || ino > 8192 {
        return Err(Ext2Error::DiskError);
    }
    let (block, offset) = inode_location(ino);
    let buf: Vec<u8> = match read_block(disk, block) {
        Ok(b) => b,
        Err(e) => {
            return Err(e);
        },
    };
    let raw: Vec<u8> = crate::bytes::copy_range(buf.as_slice(), offset, offset + 128);
    let mode: u16 = rd_le16(raw.as_slice(), 0);
    let size: u32 = rd_le32(raw.as_slice(), 4);
    let links_count: u16 = rd_le16(raw.as_slice(), 26);
    let mut block_ptrs: Vec<u32> = Vec::new();
    let mut i: usize = 0;
    while i < 15
        invariant
            raw@.len() == 128,
            i <= 15,
            block_ptrs@.len() == i,
            forall|k: int| 0 <= k < i ==> block_ptrs@[k] == ptr_of(raw@, k),
        decreases 15 - i,
    {
        block_ptrs.push(rd_le32(raw.as_slice(), 40 + i * 4));
        i = i + 1;
    }
    Ok(Inode { mode, size, links_count, block_ptrs })
}

/// Two inodes held by one block of the table do not overlap.
proof fn lemma_inodes_apart(a: int, b: int)
    requires
        1 <= a <= 8192,
        1 <= b <= 8192,
        a != b,
        inode_block(a) == inode_block(b),
    ensures
        inode_offset(a) + 128 <= inode_offset(b) || inode_offset(b) + 128 <= inode_offset(a),
        inode_offset(a) % 128 == 0,
        inode_offset(a) + 128 <= 1024,
{
    assert(inode_offset(a) + 128 <= inode_offset(b) || inode_offset(b) + 128 <= inode_offset(a)) by (nonlinear_arith)
        requires
            1 <= a <= 8192,
            1 <= b <= 8192,
            a != b,
            (a - 1) * 128 / 1024 == (b - 1) * 128 / 1024,
            inode_offset(a) == ((a - 1) * 128) % 1024,
            inode_offset(b) == ((b - 1) * 128) % 1024,
    ;
    assert(inode_offset(a) % 128 == 0 && inode_offset(a) + 128 <= 1024) by (nonlinear_arith)
        requires
            1 <= a <= 8192,
            inode_offset(a) == ((a - 1) * 128) % 1024,
    ;
}

/// Writes inode `ino`: mode, size, link count, the 512-byte sector count
/// of `used_blocks` blocks and up to fifteen block pointers.
fn write_inode(disk: &mut RamDisk, ino: u32, mode: u16, size: u32, links_count: u16, block_ptrs: &[u32], used_blocks: u32) -> (r: Result<(), Ext2Error>)
    requires
        old(disk).wf(),
        used_blocks <= 0x7FFF_FFFF,
    ensures
        final(disk).wf(),
        forall|c: int| block_ok(c) && c != inode_block(ino as int) ==> #[trigger] block_at(final(disk)@, c) == block_at(old(disk)@, c),
        1 <= ino <= 8192 && block_ok(inode_block(ino as int)) ==> r is Ok,
        inode_ok(ino as int) ==> le32(inode_bytes(final(disk)@, ino as int), 4) == size,
        inode_ok(ino as int) ==> le16(inode_bytes(final(disk)@, ino as int), 0) == mode,
        inode_ok(ino as int) && block_ptrs@.len() == 15 ==> inode_ptrs(inode_bytes(final(disk)@, ino as int)) == block_ptrs@,
        forall|j: int| inode_ok(j) && j != ino ==> #[trigger] inode_bytes(final(disk)@, j) == inode_bytes(old(disk)@, j),
{
    if ino == 0 || ino > 8192 {
        return Err(Ext2Error::DiskError);
    }
    let (block, offset) = inode_location(ino);
    let mut raw: Vec<u8> = crate::bytes::zeros(128);
    put_le16(&mut raw, 0, mode);
    let ghost m0 = raw@;
    proof {
        crate::bytes::lemma_le16_roundtrip(mode);
        assert(raw@.subrange(0, 2) =~= le16_bytes(mode));
        assert(le16(raw@, 0) == le16(le16_bytes(mode), 0));
    }
    put_le32(&mut raw, 4, size);
    put_le16(&mut raw, 26, links_count);
    put_le32(&mut raw, 28, used_blocks * 2);
    let ghost r0 = raw@;
    proof {
        crate::bytes::lemma_le32_roundtrip(size);
        assert(raw@.subrange(4, 8) =~= le32_bytes(size));
        assert(le32(raw@, 4) == le32(le32_bytes(size), 0));
        assert(raw@[0] == m0[0] && raw@[1] == m0[1]);
        assert(le16(raw@, 0) == mode);
    }
    let n: usize = if block_ptrs.len() < 15 { block_ptrs.len() } else { 15 };
    let mut i: usize = 0;
    while i < n
        invariant
            raw@.len() == 128,
            n <= 15,
            n <= block_ptrs@.len(),
            i <= n,
            le32(raw@, 4) == size,
            le16(raw@, 0) == mode,
            forall|k: int| 0 <= k < i ==> ptr_of(raw@, k) == block_ptrs@[k],
            forall|k: int| 40 + 4 * i <= k < 128 ==> #[trigger] raw@[k] == r0[k],
        decreases n - i,
    {
        let ghost before = raw@;
        put_le32(&mut raw, 40 + i * 4, block_ptrs[i]);
        proof {
            crate::bytes::lemma_le32_roundtrip(block_ptrs@[i as int]);
            assert(raw@.subrange(40 + 4 * i, 44 + 4 * i) =~= le32_bytes(block_ptrs@[i as int]));
            assert(ptr_of(raw@, i as int) == block_ptrs@[i as int]);
            assert forall|k: int| 0 <= k < i implies ptr_of(raw@, k) == block_ptrs@[k] by {
                assert(ptr_of(before, k) == block_ptrs@[k]);
            }
        }
        i = i + 1;
    }
    let ghost before = disk@;
    let r = write_block_partial(disk, block, offset, raw.as_slice());
    proof {
        if block_ok(block as int) {
            let nb = splice(block_at(before, block as int), offset as int, raw@);
            crate::bytes::lemma_splice_len(block_at(before, block as int), offset as int, raw@);
            assert forall|c: int| block_ok(c) && c != inode_block(ino as int) implies #[trigger] block_at(disk@, c) == block_at(before, c) by {
                lemma_other_block(before, block as int, nb, c);
            }
            assert(block_at(disk@, block as int) =~= nb);
            assert(inode_bytes(disk@, ino as int) =~= raw@);
            if block_ptrs@.len() == 15 {
                assert(inode_ptrs(raw@) =~= block_ptrs@);
            }
            assert forall|j: int| inode_ok(j) && j != ino implies #[trigger] inode_bytes(disk@, j) == inode_bytes(before, j) by {
                if inode_block(j) == inode_block(ino as int) {
                    lemma_inodes_apart(j, ino as int);
                    assert(inode_bytes(disk@, j) =~= inode_bytes(before, j));
                } else {
                    lemma_other_block(before, block as int, nb, inode_block(j));
                }
            }
        } else {
            assert(!inode_ok(ino as int));
        }
    }
    r
}

/// Zeroes inode `ino` and stores its deletion time (offset 20).
/// A cleared inode record: all zero but the deletion time at offset 20.
pub open spec fn cleared_inode(dtime: u32) -> Seq<u8> {
    splice(Seq::new(128, |i: int| 0u8), 20, le32_bytes(dtime))
}

fn clear_inode(disk: &mut RamDisk, ino: u32, dtime: u32) -> (r: Result<(), Ext2Error>)
    requires
        old(disk).wf(),
    ensures
        final(disk).wf(),
        !inode_ok(ino as int) ==> r is Err && final(disk)@ == old(disk)@,
        inode_ok(ino as int) ==> {
            &&& r is Ok
            &&& inode_bytes(final(disk)@, ino as int) == cleared_inode(dtime)
            &&& forall|c: int| block_ok(c) && c != inode_block(ino as int) ==> #[trigger] block_at(final(disk)@, c) == block_at(
                old(disk)@,
                c,
            )
            &&& forall|j: int| inode_ok(j) && j != ino ==> #[trigger] inode_bytes(final(disk)@, j) == inode_bytes(old(disk)@, j)
        },
{
    if ino == 0 || ino > 8192 {
        return Err(Ext2Error::DiskError);
    }
    let (block, offset) = inode_location(ino);
    let mut raw: Vec<u8> = crate::bytes::zeros(128);
    put_le32(&mut raw, 20, dtime);
    let ghost before = disk@;
    let r = write_block_partial(disk, block, offset, raw.as_slice());
    proof {
        if block_ok(block as int) {
            let nb = splice(block_at(before, block as int), offset as int, raw@);
            crate::bytes::lemma_splice_len(block_at(before, block as int), offset as int, raw@);
            assert forall|c: int| block_ok(c) && c != inode_block(ino as int) implies #[trigger] block_at(disk@, c) == block_at(before, c) by {
                lemma_other_block(before, block as int, nb, c);
            }
            assert(block_at(disk@, block as int) =~= nb);
            assert(inode_bytes(disk@, ino as int) =~= raw@);
            assert forall|j: int| inode_ok(j) && j != ino implies #[trigger] inode_bytes(disk@, j) == inode_bytes(before, j) by {
                if inode_block(j) == inode_block(ino as int) {
                    lemma_inodes_apart(j, ino as int);
                    assert(inode_bytes(disk@, j) =~= inode_bytes(before, j));
                } else {
                    lemma_other_block(before, block as int, nb, inode_block(j));
                }
            }
        }
    }
    r
}


/// Writes a directory entry at `offset`: inode, record length, name length,
/// type 0 and the name.
fn make_dirent(buf: &mut Vec<u8>, offset: usize, ino: u32, name: &[u8], rec_len: u16)
    requires
        offset + 8 + name@.len() <= old(buf)@.len(),
        name@.len() < 256,
    ensures
        final(buf)@.len() == old(buf)@.len(),
        le32(final(buf)@, offset as int) == ino,
        le16(final(buf)@, offset + 4) == rec_len,
        final(buf)@[offset + 6] == name@.len(),
        final(buf)@[offset + 7] == 0,
        final(buf)@.subrange(offset + 8, offset + 8 + name@.len()) == name@,
        forall|k: int| 0 <= k < old(buf)@.len() && !(offset <= k < offset + 8 + name@.len()) ==> final(buf)@[k] == old(buf)@[k],
{
    let _n: usize = buf.len();
    put_le32(buf, offset, ino);
    put_le16(buf, offset + 4, rec_len);
    buf.set(offset + 6, name.len() as u8);
    buf.set(offset + 7, 0);
    crate::bytes::write_bytes(buf, offset + 8, name);
    proof {
        crate::bytes::lemma_le32_roundtrip(ino);
        crate::bytes::lemma_le16_roundtrip(rec_len);
    }
}

/// A directory entry found in a block.
struct DirEntryRef {
    offset: usize,
    ino: u32,
    rec_len: u16,
    name_len: u8,
}

/// The entry at `offset`, unless it would run past the block or has a
/// zero record length.
fn dirent_at(buf: &Vec<u8>, offset: usize) -> (r: Option<DirEntryRef>)
    requires
        buf@.len() == BLOCK_SIZE,
    ensures
        r matches Some(e) ==> e.offset == offset && offset + 8 <= BLOCK_SIZE && e.rec_len > 0
            && e.ino == le32(buf@, offset as int) && e.rec_len == le16(buf@, offset + 4)
            && e.name_len == buf@[offset + 6],
        r is None ==> offset + 8 > BLOCK_SIZE || le16(buf@, offset + 4) == 0,
{
    if offset > BLOCK_SIZE - 8 {
        return None;
    }
    let ino: u32 = rd_le32(buf.as_slice(), offset);
    let rec_len: u16 = rd_le16(buf.as_slice(), offset + 4);
    if rec_len == 0 {
        return None;
    }
    let name_len: u8 = buf[offset + 6];
    Some(DirEntryRef { offset, ino, rec_len, name_len })
}

/// Name of the entry at `off` as text: empty when its bytes run past the
/// block or are not UTF-8.
pub open spec fn entry_text(buf: Seq<u8>, off: int) -> Seq<char> {
    let end = off + 8 + buf[off + 6];
    if end <= 1024 && vstd::utf8::valid_utf8(buf.subrange(off + 8, end)) {
        vstd::utf8::decode_utf8(buf.subrange(off + 8, end))
    } else {
        Seq::empty()
    }
}

/// The entry's name as text: empty when it is not UTF-8 or runs past the
/// block.
fn dirent_name(buf: &Vec<u8>, entry: &DirEntryRef) -> (r: String)
    requires
        buf@.len() == BLOCK_SIZE,
        entry.offset + 8 <= BLOCK_SIZE,
        entry.name_len == buf@[entry.offset + 6],
    ensures
        r@ == entry_text(buf@, entry.offset as int),
{
    let start: usize = entry.offset + 8;
    let end: usize = start + entry.name_len as usize;
    if end > BLOCK_SIZE {
        return String::new();
    }
    let bytes: Vec<u8> = crate::bytes::copy_range(buf.as_slice(), start, end);
    match crate::text::utf8_to_string(bytes.as_slice()) {
        Some(s) => s,
        None => String::new(),
    }
}

/// The inode of the first live entry named `name` of a directory block,
/// walking the entries from offset `off` by their record lengths; the walk
/// ends at a zero record length or at the end of the block.
pub open spec fn block_lookup(buf: Seq<u8>, name: Seq<char>, off: int) -> Option<u32>
    decreases 1024 - off,
{
    if off < 0 || off + 8 > 1024 {
        None
    } else if le16(buf, off + 4) == 0 {
        None
    } else if le32(buf, off) != 0 && entry_text(buf, off) == name {
        Some(le32(buf, off) as u32)
    } else if off + le16(buf, off + 4) + 8 > 1024 {
        None
    } else {
        block_lookup(buf, name, off + le16(buf, off + 4))
    }
}

/// Looking `name` up in directory blocks `bs` from the `k`-th on: the
/// first match, `Ok(None)` without one, `Err` when a block read before a
/// match lies off the disk.
pub open spec fn blocks_lookup(img: Seq<u8>, bs: Seq<u32>, name: Seq<char>, k: int) -> Result<Option<u32>, ()>
    decreases bs.len() - k,
{
    if k < 0 || k >= bs.len() {
        Ok(None)
    } else if !block_ok(bs[k] as int) {
        Err(())
    } else {
        match block_lookup(block_at(img, bs[k] as int), name, 0) {
            Some(i) => Ok(Some(i)),
            None => blocks_lookup(img, bs, name, k + 1),
        }
    }
}

/// The fifteen block pointers of an inode record.
pub open spec fn inode_ptrs(raw: Seq<u8>) -> Seq<u32> {
    Seq::new(15, |i: int| ptr_of(raw, i))
}

/// The inode lies in the inode table on the disk.
pub open spec fn inode_ok(ino: int) -> bool {
    1 <= ino <= 8192 && block_ok(inode_block(ino))
}

/// Looking `name` up in directory `dir`: its non-zero direct blocks in
/// order.
pub open spec fn dir_lookup(img: Seq<u8>, dir: u32, name: Seq<char>) -> Result<Option<u32>, ()> {
    if !inode_ok(dir as int) {
        Err(())
    } else {
        blocks_lookup(img, nonzero(inode_ptrs(inode_bytes(img, dir as int)).subrange(0, 12)), name, 0)
    }
}

/// The non-zero entries of `s`, in order.
pub open spec fn nonzero(s: Seq<u32>) -> Seq<u32>
    decreases s.len(),
{
    if s.len() == 0 {
        s
    } else if s.last() != 0 {
        nonzero(s.drop_last()).push(s.last())
    } else {
        nonzero(s.drop_last())
    }
}

/// Non-zero direct pointers of an inode, in order.
fn dir_block_ptrs(inode: &Inode) -> (r: Vec<u32>)
    requires
        inode.block_ptrs@.len() == 15,
    ensures
        r@ == nonzero(inode.block_ptrs@.subrange(0, 12)),
        r@.len() <= 12,
{
    let mut out: Vec<u32> = Vec::new();
    let mut i: usize = 0;
    while i < MAX_DIRECT_BLOCKS
        invariant
            inode.block_ptrs@.len() == 15,
            i <= 12,
            out@ == nonzero(inode.block_ptrs@.subrange(0, i as int)),
            out@.len() <= i,
        decreases 12 - i,
    {
        let p: u32 = inode.block_ptrs[i];
        proof {
            let s = inode.block_ptrs@.subrange(0, i + 1);
            assert(s.drop_last() =~= inode.block_ptrs@.subrange(0, i as int));
            assert(s.last() == p);
        }
        if p != 0 {
            out.push(p);
        }
        i = i + 1;
    }
    out
}

/// The 256 pointers held by block `ind`.
pub open spec fn indirect_ptrs(img: Seq<u8>, ind: u32) -> Seq<u32> {
    Seq::new(256, |i: int| le32(block_at(img, ind as int), 4 * i) as u32)
}

/// Pointers stored in an indirect block (all zero when there is none).
fn read_indirect_block(disk: &RamDisk, indirect: u32) -> (r: Result<Vec<u32>, Ext2Error>)
    requires
        disk.wf(),
    ensures
        r matches Ok(v) ==> v@.len() == PTRS_PER_INDIRECT_BLOCK,
        indirect != 0 && block_ok(indirect as int) ==> (r matches Ok(v) && v@ == indirect_ptrs(disk@, indirect)),
        indirect != 0 && !block_ok(indirect as int) ==> r is Err,
{
    let mut ptrs: Vec<u32> = Vec::new();
    if indirect == 0 {
        let mut i: usize = 0;
        while i < PTRS_PER_INDIRECT_BLOCK
            invariant
                i <= 256,
                ptrs@.len() == i,
            decreases 256 - i,
        {
            ptrs.push(0);
            i = i + 1;
        }
        return Ok(ptrs);
    }
    let raw: Vec<u8> = match read_block(disk, indirect) {
        Ok(b) => b,
        Err(e) => {
            return Err(e);
        },
    };
    let mut i: usize = 0;
    while i < PTRS_PER_INDIRECT_BLOCK
        invariant
            raw@.len() == 1024,
            raw@ == block_at(disk@, indirect as int),
            i <= 256,
            ptrs@.len() == i,
            forall|k: int| 0 <= k < i ==> ptrs@[k] == le32(raw@, 4 * k) as u32,
        decreases 256 - i,
    {
        ptrs.push(rd_le32(raw.as_slice(), i * 4));
        i = i + 1;
    }
    assert(ptrs@ =~= indirect_ptrs(disk@, indirect));
    Ok(ptrs)
}

fn write_indirect_block(disk: &mut RamDisk, indirect: u32, ptrs: &Vec<u32>) -> (r: Result<(), Ext2Error>)
    requires
        old(disk).wf(),
        ptrs@.len() == PTRS_PER_INDIRECT_BLOCK,
    ensures
        final(disk).wf(),
        block_ok(indirect as int) ==> r is Ok && indirect_ptrs(final(disk)@, indirect) == ptrs@,
        forall|c: int| block_ok(c) && c != indirect ==> #[trigger] block_at(final(disk)@, c) == block_at(old(disk)@, c),
        indirect != SB_BLOCK ==> formatted(final(disk)@) == formatted(old(disk)@),
{
    let mut raw: Vec<u8> = crate::bytes::zeros(BLOCK_SIZE);
    let mut i: usize = 0;
    while i < PTRS_PER_INDIRECT_BLOCK
        invariant
            raw@.len() == 1024,
            ptrs@.len() == 256,
            i <= 256,
            forall|k: int| 0 <= k < i ==> le32(raw@, 4 * k) as u32 == ptrs@[k],
        decreases 256 - i,
    {
        let ghost before = raw@;
        put_le32(&mut raw, i * 4, ptrs[i]);
        proof {
            crate::bytes::lemma_le32_roundtrip(ptrs@[i as int]);
            assert(raw@.subrange(4 * i, 4 * i + 4) =~= le32_bytes(ptrs@[i as int]));
            assert(le32(raw@, 4 * i) == le32(le32_bytes(ptrs@[i as int]), 0));
            assert forall|k: int| 0 <= k < i implies le32(raw@, 4 * k) as u32 == ptrs@[k] by {
                assert(le32(before, 4 * k) as u32 == ptrs@[k]);
            }
        }
        i = i + 1;
    }
    let ghost d0 = disk@;
    let r = write_block(disk, indirect, raw.as_slice());
    proof {
        if block_ok(indirect as int) {
            assert(block_at(disk@, indirect as int) =~= raw@);
            assert(indirect_ptrs(disk@, indirect) =~= ptrs@);
            assert forall|c: int| block_ok(c) && c != indirect implies #[trigger] block_at(disk@, c) == block_at(d0, c) by {
                lemma_other_block(d0, indirect as int, raw@, c);
            }
            if indirect != SB_BLOCK {
                lemma_keeps_sb(d0, indirect as int, raw@);
            }
        }
    }
    r
}

/// Data blocks of a file with block pointers `ptrs`: the non-zero direct
/// pointers, then the non-zero pointers of its indirect block; `None` when
/// the indirect block lies off the disk.
pub open spec fn file_blocks(img: Seq<u8>, ptrs: Seq<u32>) -> Option<Seq<u32>> {
    let direct = nonzero(ptrs.subrange(0, 12));
    if ptrs[12] == 0 {
        Some(direct)
    } else if !block_ok(ptrs[12] as int) {
        None
    } else {
        Some(direct + nonzero(indirect_ptrs(img, ptrs[12])))
    }
}

/// Data blocks of a file: the non-zero direct pointers, then the non-zero
/// pointers of its indirect block.
fn file_block_list(disk: &RamDisk, inode: &Inode) -> (r: Result<Vec<u32>, Ext2Error>)
    requires
        disk.wf(),
        inode.block_ptrs@.len() == 15,
    ensures
        r matches Ok(v) ==> v@.len() <= MAX_FILE_BLOCKS,
        match file_blocks(disk@, inode.block_ptrs@) {
            None => r is Err,
            Some(bs) => r matches Ok(v) && v@ == bs,
        },
{
    let mut blocks: Vec<u32> = dir_block_ptrs(inode);
    let ghost direct = blocks@;
    let indirect: u32 = inode.block_ptrs[INDIRECT_BLOCK_INDEX];
    if indirect != 0 {
        let ptrs: Vec<u32> = match read_indirect_block(disk, indirect) {
            Ok(p) => p,
            Err(e) => {
                return Err(e);
            },
        };
        let mut i: usize = 0;
        assert(direct + nonzero(ptrs@.subrange(0, 0)) =~= direct);
        while i < ptrs.len()
            invariant
                ptrs@.len() == 256,
                i <= 256,
                blocks@.len() <= 12 + i,
                direct.len() <= 12,
                blocks@ == direct + nonzero(ptrs@.subrange(0, i as int)),
            decreases 256 - i,
        {
            proof {
                let t = ptrs@.subrange(0, i + 1);
                assert(t.drop_last() =~= ptrs@.subrange(0, i as int));
                assert(t.last() == ptrs@[i as int]);
            }
            if ptrs[i] != 0 {
                blocks.push(ptrs[i]);
                assert(blocks@ =~= direct + nonzero(ptrs@.subrange(0, i + 1)));
            } else {
                assert(blocks@ =~= direct + nonzero(ptrs@.subrange(0, i + 1)));
            }
            i = i + 1;
        }
        assert(ptrs@.subrange(0, 256) =~= ptrs@);
    }
    Ok(blocks)
}

/// Looks `name` up among the entries of directory `dir_ino`; returns the
/// block, the entry's offset in it and its inode.
fn find_in_dir(disk: &RamDisk, dir_ino: u32, name: &str) -> (r: Result<Option<(u32, usize, u32)>, Ext2Error>)
    requires
        disk.wf(),
    ensures
        r matches Ok(Some((b, o, ino))) ==> ino != 0 && o + 8 <= BLOCK_SIZE && block_ok(b as int) && le32(block_at(disk@, b as int), o as int) == ino,
        match dir_lookup(disk@, dir_ino, name@) {
            Err(()) => r is Err,
            Ok(None) => r matches Ok(None),
            Ok(Some(i)) => r matches Ok(Some((_, _, ino))) && ino == i,
        },
{
    let dir_inode: Inode = match read_inode(disk, dir_ino) {
        Ok(n) => n,
        Err(e) => {
            return Err(e);
        },
    };
    let ghost raw = inode_bytes(disk@, dir_ino as int);
    assert(dir_inode.block_ptrs@ =~= inode_ptrs(raw));
    let blocks: Vec<u32> = dir_block_ptrs(&dir_inode);
    let ghost bs = blocks@;
    let mut k: usize = 0;
    while k < blocks.len()
        invariant
            disk.wf(),
            k <= blocks@.len(),
            bs == blocks@,
            inode_ok(dir_ino as int),
            bs == nonzero(inode_ptrs(inode_bytes(disk@, dir_ino as int)).subrange(0, 12)),
            blocks_lookup(disk@, bs, name@, 0) == blocks_lookup(disk@, bs, name@, k as int),
        decreases blocks@.len() - k,
    {
        let block_num: u32 = blocks[k];
        let buf: Vec<u8> = match read_block(disk, block_num) {
            Ok(b) => b,
            Err(e) => {
                return Err(e);
            },
        };
        let mut offset: usize = 0;
        while offset <= BLOCK_SIZE
            invariant
                disk.wf(),
                buf@.len() == BLOCK_SIZE,
                block_ok(block_num as int),
                buf@ == block_at(disk@, block_num as int),
                offset <= BLOCK_SIZE + 0x10000,
                block_lookup(buf@, name@, 0) == block_lookup(buf@, name@, offset as int),
                bs == blocks@,
                k < blocks@.len(),
                block_num == blocks@[k as int],
                inode_ok(dir_ino as int),
                bs == nonzero(inode_ptrs(inode_bytes(disk@, dir_ino as int)).subrange(0, 12)),
                blocks_lookup(disk@, bs, name@, 0) == blocks_lookup(disk@, bs, name@, k as int),
            ensures
                block_lookup(buf@, name@, 0) is None,
            decreases BLOCK_SIZE + 0x10000 - offset,
        {
            let entry: DirEntryRef = match dirent_at(&buf, offset) {
                Some(e) => e,
                None => {
                    break ;
                },
            };
            if entry.ino != 0 {
                let n: String = dirent_name(&buf, &entry);
                if crate::text::str_eq(n.as_str(), name) {
                    return Ok(Some((block_num, entry.offset, entry.ino)));
                }
            }
            offset = offset + entry.rec_len as usize;
        }
        k = k + 1;
    }
    Ok(None)
}


/// Bytes a directory entry with an `n`-byte name occupies (rounded to 4).
pub open spec fn dirent_len(n: int) -> int {
    (8 + n + 3) / 4 * 4
}

/// Every entry walked from `off` holds its header and name inside its
/// record.
pub open spec fn walk_ok(buf: Seq<u8>, off: int) -> bool
    decreases 1024 - off,
{
    if off < 0 || off + 8 > 1024 || le16(buf, off + 4) == 0 {
        true
    } else {
        &&& 8 + buf[off + 6] <= le16(buf, off + 4)
        &&& (off + le16(buf, off + 4) + 8 > 1024 || walk_ok(buf, off + le16(buf, off + 4)))
    }
}

/// Walking the entries from `off` arrives at offset `o`.
pub open spec fn reach(buf: Seq<u8>, off: int, o: int) -> bool
    decreases 1024 - off,
{
    if off == o {
        true
    } else if off < 0 || off + 8 > 1024 || le16(buf, off + 4) == 0 || off + le16(buf, off + 4) + 8 > 1024 {
        false
    } else {
        reach(buf, off + le16(buf, off + 4), o)
    }
}

/// Clear bits below `lim` of a bitmap block.
pub open spec fn clear_count(buf: Seq<u8>, lim: int) -> nat
    decreases lim,
{
    if lim <= 0 {
        0
    } else {
        clear_count(buf, lim - 1) + if bit_of(buf, lim - 1) { 0nat } else { 1nat }
    }
}

/// With a clear bit below `lim`, there is a first one.
pub(crate) proof fn lemma_count_first(buf: Seq<u8>, lim: int)
    requires
        0 <= lim,
        clear_count(buf, lim) > 0,
    ensures
        first_clear(buf, 0, lim) is Some,
    decreases lim,
{
    if first_clear(buf, 0, lim) is None {
        lemma_none_all_set(buf, 0, lim);
        lemma_all_set_count(buf, lim);
    }
}

pub(crate) proof fn lemma_none_all_set(buf: Seq<u8>, i: int, lim: int)
    requires
        0 <= i,
        first_clear(buf, i, lim) is None,
    ensures
        forall|j: int| i <= j < lim ==> bit_of(buf, j),
    decreases lim - i,
{
    if i < lim {
        lemma_none_all_set(buf, i + 1, lim);
    }
}

pub(crate) proof fn lemma_all_set_count(buf: Seq<u8>, lim: int)
    requires
        0 <= lim,
        forall|j: int| 0 <= j < lim ==> bit_of(buf, j),
    ensures
        clear_count(buf, lim) == 0,
    decreases lim,
{
    if lim > 0 {
        lemma_all_set_count(buf, lim - 1);
    }
}

/// Setting a clear bit below `lim` takes one from the count.
pub(crate) proof fn lemma_count_after_set(buf: Seq<u8>, b: int, lim: int)
    requires
        buf.len() == 1024,
        0 <= b < lim <= 8192,
        !bit_of(buf, b),
    ensures
        clear_count(set_bit(buf, b, true), lim) + 1 == clear_count(buf, lim),
    decreases lim,
{
    lemma_set_bit(buf, b, lim - 1);
    if lim - 1 > b {
        lemma_count_after_set(buf, b, lim - 1);
    } else {
        lemma_count_same_below(buf, b, b);
    }
}

/// Setting bit `b` keeps the count below `lim <= b`.
pub(crate) proof fn lemma_count_same_below(buf: Seq<u8>, b: int, lim: int)
    requires
        buf.len() == 1024,
        0 <= lim <= b < 8192,
    ensures
        clear_count(set_bit(buf, b, true), lim) == clear_count(buf, lim),
    decreases lim,
{
    if lim > 0 {
        lemma_set_bit(buf, b, lim - 1);
        lemma_count_same_below(buf, b, lim - 1);
    }
}

/// Every entry walked from the start of the block ends inside the block.
pub open spec fn extents_ok(buf: Seq<u8>) -> bool {
    forall|o: int| #[trigger] reach(buf, 0, o) && 0 <= o && o + 8 <= 1024 && le16(buf, o + 4) != 0 ==> o + le16(buf, o + 4) <= 1024
}

/// Every block of directory `dir` keeps its entries inside the block.
pub open spec fn dir_extents_ok(img: Seq<u8>, dir: u32) -> bool {
    forall|k: int| 0 <= k < dir_blocks(img, dir).len() ==> extents_ok(#[trigger] block_at(img, dir_blocks(img, dir)[k] as int))
}

/// The non-zero direct blocks of directory `dir`, in order.
pub open spec fn dir_blocks(img: Seq<u8>, dir: u32) -> Seq<u32> {
    nonzero(inode_ptrs(inode_bytes(img, dir as int)).subrange(0, 12))
}

/// The blocks before the data area (superblock to inode table) are marked
/// used in the block bitmap.
pub open spec fn meta_reserved(img: Seq<u8>) -> bool {
    forall|i: int| 0 <= i < DATA_START_BLOCK - 1 ==> #[trigger] bit_of(block_at(img, BLOCK_BITMAP_BLOCK as int), i)
}

/// Directory `dir` is sound: its inode lies in the table, and each of its
/// blocks lies in the data area, is marked used, and holds well-formed
/// entries.
pub open spec fn dir_sound(img: Seq<u8>, dir: u32) -> bool {
    &&& inode_ok(dir as int)
    &&& inode_block(dir as int) < DATA_START_BLOCK
    &&& forall|k: int| 0 <= k < dir_blocks(img, dir).len() ==> #[trigger] dir_block_sound(img, dir_blocks(img, dir)[k])
}

pub open spec fn dir_block_sound(img: Seq<u8>, b: u32) -> bool {
    &&& DATA_START_BLOCK <= b && block_ok(b as int)
    &&& (b <= VALID_BLOCKS_IN_GROUP ==> bit_of(block_at(img, BLOCK_BITMAP_BLOCK as int), b - 1))
    &&& walk_ok(block_at(img, b as int), 0)
}

pub(crate) proof fn lemma_reach_step(buf: Seq<u8>, a: int, b: int)
    requires
        reach(buf, a, b),
        0 <= b,
        b + 8 <= 1024,
        le16(buf, b + 4) != 0,
        b + le16(buf, b + 4) + 8 <= 1024,
    ensures
        reach(buf, a, b + le16(buf, b + 4)),
        a <= b,
    decreases 1024 - a,
{
    if a != b {
        let rec = le16(buf, a + 4);
        lemma_reach_step(buf, a + rec, b);
        assert(a != b + le16(buf, b + 4));
        assert(reach(buf, a, b + le16(buf, b + 4)) == reach(buf, a + rec, b + le16(buf, b + 4)));
    } else {
        assert(reach(buf, b + le16(buf, b + 4), b + le16(buf, b + 4)));
    }
}

/// What holds from `a` on holds at every entry reached from it.
pub(crate) proof fn lemma_reach_keeps(buf: Seq<u8>, name: Seq<char>, a: int, b: int)
    requires
        reach(buf, a, b),
    ensures
        walk_ok(buf, a) ==> walk_ok(buf, b),
        block_lookup(buf, name, a) is None ==> block_lookup(buf, name, b) is None,
        a <= b,
    decreases 1024 - a,
{
    if a != b {
        lemma_reach_keeps(buf, name, a + le16(buf, a + 4), b);
    }
}

/// A block that agrees with `buf` before `o` is looked up alike up to `o`,
/// when nothing on the way matches.
proof fn lemma_lookup_prefix(buf: Seq<u8>, buf2: Seq<u8>, name: Seq<char>, off: int, o: int)
    requires
        buf.len() == 1024,
        buf2.len() == 1024,
        reach(buf, off, o),
        walk_ok(buf, off),
        forall|i: int| 0 <= i < o ==> buf2[i] == buf[i],
        block_lookup(buf, name, off) is None,
    ensures
        block_lookup(buf2, name, off) == block_lookup(buf2, name, o),
    decreases 1024 - off,
{
    if off != o {
        let rec = le16(buf, off + 4);
        let next = off + rec;
        lemma_reach_keeps(buf, name, next, o);
        assert(buf2[off] == buf[off] && buf2[off + 1] == buf[off + 1] && buf2[off + 2] == buf[off + 2] && buf2[off + 3] == buf[off + 3]);
        assert(buf2[off + 4] == buf[off + 4] && buf2[off + 5] == buf[off + 5] && buf2[off + 6] == buf[off + 6]);
        let end = off + 8 + buf[off + 6];
        if end <= 1024 {
            assert(buf2.subrange(off + 8, end) =~= buf.subrange(off + 8, end));
        }
        assert(entry_text(buf2, off) == entry_text(buf, off));
        lemma_lookup_prefix(buf, buf2, name, next, o);
    }
}

/// The text of an entry holding the bytes of `name` is `name`.
pub(crate) proof fn lemma_entry_named(buf: Seq<u8>, o: int, name: &str)
    requires
        buf.len() == 1024,
        0 <= o,
        o + 8 + name.spec_bytes().len() <= 1024,
        buf[o + 6] == name.spec_bytes().len(),
        buf.subrange(o + 8, o + 8 + name.spec_bytes().len()) == name.spec_bytes(),
    ensures
        entry_text(buf, o) == name@,
{
    vstd::utf8::encode_utf8_valid_utf8(name@);
    vstd::utf8::encode_utf8_decode_utf8(name@);
}

/// In blocks that are each without a match or matching `x`, one matching,
/// the directory lookup finds `x`.
proof fn lemma_blocks_find(img: Seq<u8>, bs: Seq<u32>, name: Seq<char>, j: int, x: u32)
    requires
        0 <= j,
        forall|k: int| j <= k < bs.len() ==> block_ok(#[trigger] bs[k] as int),
        forall|k: int| j <= k < bs.len() ==> (block_lookup(block_at(img, #[trigger] bs[k] as int), name, 0) is None
            || block_lookup(block_at(img, bs[k] as int), name, 0) == Some(x)),
        exists|k: int| j <= k < bs.len() && block_lookup(block_at(img, #[trigger] bs[k] as int), name, 0) == Some(x),
    ensures
        blocks_lookup(img, bs, name, j) == Ok::<Option<u32>, ()>(Some(x)),
    decreases bs.len() - j,
{
    let w = choose|k: int| j <= k < bs.len() && block_lookup(block_at(img, #[trigger] bs[k] as int), name, 0) == Some(x);
    assert(block_ok(bs[j] as int));
    if block_lookup(block_at(img, bs[j] as int), name, 0) is None {
        assert(w != j);
        lemma_blocks_find(img, bs, name, j + 1, x);
    }
}

/// A lookup without result visited every block, finding nothing in each.
proof fn lemma_blocks_none(img: Seq<u8>, bs: Seq<u32>, name: Seq<char>, j: int)
    requires
        0 <= j,
        blocks_lookup(img, bs, name, j) == Ok::<Option<u32>, ()>(None),
    ensures
        forall|k: int| j <= k < bs.len() ==> block_ok(#[trigger] bs[k] as int) && block_lookup(block_at(img, bs[k] as int), name, 0) is None,
    decreases bs.len() - j,
{
    if j < bs.len() {
        lemma_blocks_none(img, bs, name, j + 1);
    }
}

/// The non-zero elements of `s` are exactly its elements other than 0.
proof fn lemma_nonzero_contains(s: Seq<u32>, y: u32)
    ensures
        nonzero(s).contains(y) <==> (s.contains(y) && y != 0),
    decreases s.len(),
{
    if s.len() > 0 {
        let t = s.drop_last();
        let l = s.last();
        lemma_nonzero_contains(t, y);
        assert(s =~= t.push(l));
        assert(s.contains(y) <==> (t.contains(y) || l == y)) by {
            if s.contains(y) {
                let i = choose|i: int| 0 <= i < s.len() && s[i] == y;
                if i < s.len() - 1 {
                    assert(t[i] == y);
                }
            }
            if t.contains(y) {
                let i = choose|i: int| 0 <= i < t.len() && t[i] == y;
                assert(s[i] == y);
            }
            if l == y {
                assert(s[s.len() - 1] == y);
            }
        }
        if l != 0 {
            let n = nonzero(t);
            assert(nonzero(s) == n.push(l));
            assert(n.push(l).contains(y) <==> (n.contains(y) || l == y)) by {
                if n.push(l).contains(y) {
                    let i = choose|i: int| 0 <= i < n.push(l).len() && n.push(l)[i] == y;
                    if i < n.len() {
                        assert(n[i] == y);
                    }
                }
                if n.contains(y) {
                    let i = choose|i: int| 0 <= i < n.len() && n[i] == y;
                    assert(n.push(l)[i] == y);
                }
                if l == y {
                    assert(n.push(l)[n.len() as int] == y);
                }
            }
        }
    }
}

/// Inodes up to `INODES_COUNT` lie in the inode table, before the data
/// area.
proof fn lemma_table_inode(j: int)
    requires
        1 <= j <= INODES_COUNT,
    ensures
        inode_ok(j),
        INODE_TABLE_START <= inode_block(j) < DATA_START_BLOCK,
{
    assert(0 <= (j - 1) * 128 / 1024 <= 87) by (nonlinear_arith)
        requires
            1 <= j <= 704,
    ;
}

/// Writing an entry named `name` over a free entry reached by the walk
/// makes the block's lookup find it.
pub(crate) proof fn lemma_fill_free(b0: Seq<u8>, buf: Seq<u8>, name: &str, o: int, ino: u32)
    requires
        b0.len() == 1024,
        buf.len() == 1024,
        walk_ok(b0, 0),
        reach(b0, 0, o),
        block_lookup(b0, name@, 0) is None,
        0 <= o,
        o + 8 + name.spec_bytes().len() <= 1024,
        forall|i: int| 0 <= i < o ==> buf[i] == b0[i],
        le32(buf, o) == ino,
        ino != 0,
        le16(buf, o + 4) != 0,
        buf[o + 6] == name.spec_bytes().len(),
        buf.subrange(o + 8, o + 8 + name.spec_bytes().len()) == name.spec_bytes(),
    ensures
        block_lookup(buf, name@, 0) == Some(ino),
{
    lemma_lookup_prefix(b0, buf, name@, 0, o);
    lemma_entry_named(buf, o, name);
}

/// Shortening a live entry reached by the walk to its own size and
/// writing an entry named `name` into the freed tail makes the block's
/// lookup find the new entry.
pub(crate) proof fn lemma_fill_slack(b0: Seq<u8>, buf: Seq<u8>, name: &str, o: int, n: int, ino: u32)
    requires
        b0.len() == 1024,
        buf.len() == 1024,
        walk_ok(b0, 0),
        reach(b0, 0, o),
        block_lookup(b0, name@, 0) is None,
        0 <= o,
        o + 8 <= 1024,
        le32(b0, o) != 0,
        le16(b0, o + 4) != 0,
        n == dirent_len(b0[o + 6] as int),
        n + 8 + name.spec_bytes().len() + o <= 1024,
        forall|i: int| 0 <= i < o + 4 ==> buf[i] == b0[i],
        le16(buf, o + 4) == n,
        forall|i: int| o + 6 <= i < o + n ==> buf[i] == b0[i],
        le32(buf, o + n) == ino,
        ino != 0,
        le16(buf, o + n + 4) != 0,
        buf[o + n + 6] == name.spec_bytes().len(),
        buf.subrange(o + n + 8, o + n + 8 + name.spec_bytes().len()) == name.spec_bytes(),
    ensures
        block_lookup(buf, name@, 0) == Some(ino),
{
    lemma_reach_keeps(b0, name@, 0, o);
    lemma_lookup_prefix(b0, buf, name@, 0, o);
    let nl = b0[o + 6];
    assert(8 + nl <= n);
    assert(le32(buf, o) == le32(b0, o));
    assert(buf[o + 6] == nl);
    if o + 8 + nl <= 1024 {
        assert(buf.subrange(o + 8, o + 8 + nl) =~= b0.subrange(o + 8, o + 8 + nl));
    }
    assert(entry_text(buf, o) == entry_text(b0, o));
    lemma_entry_named(buf, o + n, name);
    assert(block_lookup(buf, name@, o + n) == Some(ino));
}

/// Rewriting one block of a sound directory so that its lookup finds
/// `ino` makes the directory's lookup find `ino`, when no block found
/// anything before; nothing else changes.
proof fn lemma_dir_block_rewritten(img: Seq<u8>, buf: Seq<u8>, dir: u32, k: int, name: Seq<char>, ino: u32)
    requires
        img.len() == crate::ramdisk::RAMDISK_SIZE,
        buf.len() == 1024,
        dir_sound(img, dir),
        0 <= k < dir_blocks(img, dir).len(),
        forall|kk: int| 0 <= kk < dir_blocks(img, dir).len() ==> block_ok(#[trigger] dir_blocks(img, dir)[kk] as int)
            && block_lookup(block_at(img, dir_blocks(img, dir)[kk] as int), name, 0) is None,
        block_lookup(buf, name, 0) == Some(ino),
    ensures
        dir_lookup(with_block(img, dir_blocks(img, dir)[k] as int, buf), dir, name) == Ok::<Option<u32>, ()>(Some(ino)),
{
    let bs = dir_blocks(img, dir);
    let b = bs[k];
    let img2 = with_block(img, b as int, buf);
    assert(dir_block_sound(img, bs[k]));
    lemma_table_inode_dir(dir);
    lemma_other_block(img, b as int, buf, inode_block(dir as int));
    assert(inode_bytes(img2, dir as int) == inode_bytes(img, dir as int));
    assert(dir_blocks(img2, dir) == bs);
    assert(block_at(img2, b as int) =~= buf);
    assert forall|kk: int| 0 <= kk < bs.len() implies (block_lookup(block_at(img2, #[trigger] bs[kk] as int), name, 0) is None
        || block_lookup(block_at(img2, bs[kk] as int), name, 0) == Some(ino)) by {
        if bs[kk] != b {
            lemma_other_block(img, b as int, buf, bs[kk] as int);
        }
    }
    assert(block_lookup(block_at(img2, bs[k] as int), name, 0) == Some(ino));
    lemma_blocks_find(img2, bs, name, 0, ino);
}

/// The inode of a sound directory lies before the data area.
proof fn lemma_table_inode_dir(dir: u32)
    requires
        inode_ok(dir as int),
    ensures
        block_ok(inode_block(dir as int)),
{
}

/// Rewriting a data-area block keeps the volume formatted, the inodes of
/// the table, and every other block.
proof fn lemma_data_block_rewritten(img: Seq<u8>, b: int, buf: Seq<u8>)
    requires
        img.len() == crate::ramdisk::RAMDISK_SIZE,
        buf.len() == 1024,
        block_ok(b),
        DATA_START_BLOCK <= b,
    ensures
        formatted(with_block(img, b, buf)) == formatted(img),
        forall|j: int| 1 <= j <= INODES_COUNT ==> #[trigger] inode_bytes(with_block(img, b, buf), j) == inode_bytes(img, j),
        forall|c: int| block_ok(c) && c != b ==> #[trigger] block_at(with_block(img, b, buf), c) == block_at(img, c),
{
    lemma_keeps_sb(img, b, buf);
    assert forall|c: int| block_ok(c) && c != b implies #[trigger] block_at(with_block(img, b, buf), c) == block_at(img, c) by {
        lemma_other_block(img, b, buf, c);
    }
    assert forall|j: int| 1 <= j <= INODES_COUNT implies #[trigger] inode_bytes(with_block(img, b, buf), j) == inode_bytes(img, j) by {
        lemma_table_inode(j);
        lemma_other_block(img, b, buf, inode_block(j));
    }
}

/// Adds an entry `name` -> `new_ino` to directory `dir_ino`: into a free
/// entry or the slack of an existing one, or else into a new block. When
/// the directory is sound, holds no entry `name`, and the blocks before
/// the data area are marked used, the entry is found afterwards.
#[verifier::spinoff_prover]
#[verifier::rlimit(40)]
fn add_dirent(disk: &mut RamDisk, dir_ino: u32, name: &str, new_ino: u32) -> (r: Result<(), Ext2Error>)
    requires
        old(disk).wf(),
    ensures
        final(disk).wf(),
        r is Ok && dir_sound(old(disk)@, dir_ino) && meta_reserved(old(disk)@) ==> formatted(final(disk)@) == formatted(old(disk)@),
        r is Ok && dir_sound(old(disk)@, dir_ino) && meta_reserved(old(disk)@) ==> forall|j: int| 1 <= j <= INODES_COUNT && j != dir_ino
            ==> #[trigger] inode_bytes(final(disk)@, j) == inode_bytes(old(disk)@, j),
        r is Ok && dir_sound(old(disk)@, dir_ino) && meta_reserved(old(disk)@) ==> forall|c: int|
            block_ok(c) && DATA_START_BLOCK <= c && !dir_blocks(old(disk)@, dir_ino).contains(c as u32) && c <= VALID_BLOCKS_IN_GROUP
            && bit_of(block_at(old(disk)@, BLOCK_BITMAP_BLOCK as int), c - 1) ==> #[trigger] block_at(final(disk)@, c) == block_at(old(disk)@, c),
        r is Ok && dir_sound(old(disk)@, dir_ino) && meta_reserved(old(disk)@) && name_ok(name) && new_ino != 0
            && dir_lookup(old(disk)@, dir_ino, name@) == Ok::<Option<u32>, ()>(None) ==> dir_lookup(final(disk)@, dir_ino, name@)
            == Ok::<Option<u32>, ()>(Some(new_ino)),
        !(1 <= name.spec_bytes().len() <= 55) ==> r == Err::<(), Ext2Error>(Ext2Error::InvalidName) && final(disk)@ == old(disk)@,
        1 <= name.spec_bytes().len() <= 55 && dir_sound(old(disk)@, dir_ino) && dir_extents_ok(old(disk)@, dir_ino)
            && dir_blocks(old(disk)@, dir_ino).len() < 12
            && first_clear(block_at(old(disk)@, BLOCK_BITMAP_BLOCK as int), 0, VALID_BLOCKS_IN_GROUP as int) is Some ==> r is Ok,
{
    let nb: &[u8] = name.as_bytes();
    if nb.len() == 0 || nb.len() > 55 {
        return Err(Ext2Error::InvalidName);
    }
    let needed_len: u16 = (((8 + nb.len()) + 3) / 4 * 4) as u16;
    let dir_inode: Inode = match read_inode(disk, dir_ino) {
        Ok(n) => n,
        Err(e) => {
            return Err(e);
        },
    };
    let ghost img = disk@;
    let ghost raw = inode_bytes(img, dir_ino as int);
    assert(dir_inode.block_ptrs@ =~= inode_ptrs(raw));
    let blocks: Vec<u32> = dir_block_ptrs(&dir_inode);
    let ghost bs = blocks@;
    let ghost sound = dir_sound(img, dir_ino) && meta_reserved(img);
    let ghost law = sound && name_ok(name) && new_ino != 0 && dir_lookup(img, dir_ino, name@) == Ok::<Option<u32>, ()>(None);
    let ghost owed = dir_sound(img, dir_ino) && dir_extents_ok(img, dir_ino) && bs.len() < 12
        && first_clear(block_at(img, BLOCK_BITMAP_BLOCK as int), 0, VALID_BLOCKS_IN_GROUP as int) is Some;
    proof {
        if law {
            lemma_blocks_none(img, bs, name@, 0);
        }
    }
    let mut k: usize = 0;
    while k < blocks.len()
        invariant
            disk.wf(),
            disk@ == img,
            img == old(disk)@,
            k <= blocks@.len(),
            bs == blocks@,
            bs == dir_blocks(img, dir_ino),
            nb@ == name.spec_bytes(),
            1 <= nb@.len() <= 55,
            needed_len == dirent_len(nb@.len() as int),
            needed_len <= 64,
            inode_ok(dir_ino as int),
            law == (sound && name_ok(name) && new_ino != 0 && dir_lookup(img, dir_ino, name@) == Ok::<Option<u32>, ()>(None)),
            sound == (dir_sound(img, dir_ino) && meta_reserved(img)),
            law ==> forall|kk: int| 0 <= kk < bs.len() ==> block_ok(#[trigger] bs[kk] as int) && block_lookup(block_at(img, bs[kk] as int), name@, 0) is None,
            owed == (dir_sound(img, dir_ino) && dir_extents_ok(img, dir_ino) && bs.len() < 12
                && first_clear(block_at(img, BLOCK_BITMAP_BLOCK as int), 0, VALID_BLOCKS_IN_GROUP as int) is Some),
        decreases blocks@.len() - k,
    {
        let block_num: u32 = blocks[k];
        proof {
            if owed {
                assert(dir_block_sound(img, bs[k as int]));
                assert(extents_ok(block_at(img, bs[k as int] as int)));
            }
        }
        let mut buf: Vec<u8> = match read_block(disk, block_num) {
            Ok(b) => b,
            Err(e) => {
                return Err(e);
            },
        };
        let ghost b0 = buf@;
        proof {
            if sound {
                assert(dir_block_sound(img, bs[k as int]));
            }
        }
        let mut offset: usize = 0;
        while offset <= BLOCK_SIZE
            invariant
                disk.wf(),
                disk@ == img,
                img == old(disk)@,
                buf@.len() == BLOCK_SIZE,
                buf@ == b0,
                block_ok(block_num as int),
                b0 == block_at(img, block_num as int),
                offset <= BLOCK_SIZE + 0x10000,
                k < blocks@.len(),
                bs == blocks@,
                bs == dir_blocks(img, dir_ino),
                block_num == bs[k as int],
                nb@ == name.spec_bytes(),
                1 <= nb@.len() <= 55,
                needed_len == dirent_len(nb@.len() as int),
                needed_len <= 64,
                inode_ok(dir_ino as int),
                offset + 8 <= 1024 ==> reach(b0, 0, offset as int),
                law == (sound && name_ok(name) && new_ino != 0 && dir_lookup(img, dir_ino, name@) == Ok::<Option<u32>, ()>(None)),
                sound == (dir_sound(img, dir_ino) && meta_reserved(img)),
                law ==> forall|kk: int| 0 <= kk < bs.len() ==> block_ok(#[trigger] bs[kk] as int) && block_lookup(block_at(img, bs[kk] as int), name@, 0) is None,
                sound ==> walk_ok(b0, 0) && block_num >= DATA_START_BLOCK,
                owed == (dir_sound(img, dir_ino) && dir_extents_ok(img, dir_ino) && bs.len() < 12
                    && first_clear(block_at(img, BLOCK_BITMAP_BLOCK as int), 0, VALID_BLOCKS_IN_GROUP as int) is Some),
                owed ==> extents_ok(b0),
            decreases BLOCK_SIZE + 0x10000 - offset,
        {
            let entry: DirEntryRef = match dirent_at(&buf, offset) {
                Some(e) => e,
                None => {
                    break ;
                },
            };
            let actual_len: u16 = if entry.ino != 0 {
                ((8 + entry.name_len as usize + 3) / 4 * 4) as u16
            } else {
                0
            };
            proof {
                if law {
                    lemma_reach_keeps(b0, name@, 0, offset as int);
                    assert(block_lookup(b0, name@, 0) is None);
                }
            }
            if entry.ino == 0 && entry.rec_len >= needed_len {
                if entry.offset + 8 + nb.len() <= BLOCK_SIZE {
                    make_dirent(&mut buf, entry.offset, new_ino, nb, entry.rec_len);
                    let w = write_block(disk, block_num, buf.as_slice());
                    proof {
                        if sound {
                            lemma_data_block_rewritten(img, block_num as int, buf@);
                        }
                        if law {
                            lemma_fill_free(b0, buf@, name, offset as int, new_ino);
                            lemma_dir_block_rewritten(img, buf@, dir_ino, k as int, name@, new_ino);
                        }
                    }
                    return w;
                }
            }
            if entry.ino != 0 && entry.rec_len >= actual_len && entry.rec_len - actual_len >= needed_len {
                put_le16(&mut buf, entry.offset + 4, actual_len);
                let new_offset: usize = entry.offset + actual_len as usize;
                let new_rec_len: u16 = entry.rec_len - actual_len;
                if new_offset + 8 + nb.len() <= BLOCK_SIZE {
                    let ghost b1 = buf@;
                    make_dirent(&mut buf, new_offset, new_ino, nb, new_rec_len);
                    let w = write_block(disk, block_num, buf.as_slice());
                    proof {
                        if sound {
                            lemma_data_block_rewritten(img, block_num as int, buf@);
                        }
                        if law {
                            assert(actual_len == dirent_len(b0[offset + 6] as int));
                            assert forall|i: int| offset + 6 <= i < offset + actual_len implies buf@[i] == b0[i] by {
                                assert(b1[i] == b0[i]);
                            }
                            lemma_fill_slack(b0, buf@, name, offset as int, actual_len as int, new_ino);
                            lemma_dir_block_rewritten(img, buf@, dir_ino, k as int, name@, new_ino);
                        }
                    }
                    return w;
                }
                proof {
                    if owed {
                        assert(needed_len >= 8 + nb@.len());
                        assert(offset + entry.rec_len <= 1024);
                    }
                }
                return Err(Ext2Error::DiskError);
            }
            proof {
                if offset + entry.rec_len + 8 <= 1024 {
                    lemma_reach_step(b0, 0, offset as int);
                }
            }
            offset = offset + entry.rec_len as usize;
        }
        k = k + 1;
    }
    let mut slot: usize = 0;
    while slot < MAX_DIRECT_BLOCKS && dir_inode.block_ptrs[slot] != 0
        invariant
            dir_inode.block_ptrs@.len() == 15,
            slot <= 12,
            forall|j: int| 0 <= j < slot ==> dir_inode.block_ptrs@[j] != 0,
        decreases 12 - slot,
    {
        slot = slot + 1;
    }
    if slot == MAX_DIRECT_BLOCKS {
        proof {
            if owed {
                let s12 = inode_ptrs(raw).subrange(0, 12);
                lemma_nonzero_prefix(s12, 12);
                assert(bs.len() == 12);
            }
        }
        return Err(Ext2Error::DirectoryFull);
    }
    let new_block: u32 = match alloc_block(disk) {
        Ok(b) => b,
        Err(e) => {
            return Err(e);
        },
    };
    let ghost d1 = disk@;
    let mut buf: Vec<u8> = crate::bytes::zeros(BLOCK_SIZE);
    make_dirent(&mut buf, 0, new_ino, nb, BLOCK_SIZE as u16);
    match write_block(disk, new_block, buf.as_slice()) {
        Ok(()) => {},
        Err(e) => {
            return Err(e);
        },
    }
    let ghost d2 = disk@;
    let mut new_ptrs: Vec<u32> = dir_inode.block_ptrs.clone();
    assert(new_ptrs@ =~= dir_inode.block_ptrs@);
    new_ptrs.set(slot, new_block);
    let new_size: u32 = dir_inode.size.wrapping_add(BLOCK_SIZE as u32);
    let mut used: u32 = 0;
    let mut i: usize = 0;
    while i < MAX_DIRECT_BLOCKS
        invariant
            new_ptrs@.len() == 15,
            i <= 12,
            used <= i,
        decreases 12 - i,
    {
        if new_ptrs[i] != 0 {
            used = used + 1;
        }
        i = i + 1;
    }
    let w = write_inode(disk, dir_ino, dir_inode.mode, new_size, dir_inode.links_count, new_ptrs.as_slice(), used);
    proof {
        if sound {
            assert(new_block >= DATA_START_BLOCK) by {
                if new_block < DATA_START_BLOCK {
                    assert(bit_of(block_at(img, BLOCK_BITMAP_BLOCK as int), new_block - 1));
                }
            }
            lemma_table_inode(dir_ino as int);
            lemma_keeps_sb(d1, new_block as int, buf@);
            lemma_other_block(disk@, inode_block(dir_ino as int), block_at(disk@, inode_block(dir_ino as int)), SB_BLOCK as int);
            assert(block_at(disk@, SB_BLOCK as int) == block_at(d2, SB_BLOCK as int));
            assert forall|c: int| block_ok(c) && c != new_block && c != BLOCK_BITMAP_BLOCK && c != SB_BLOCK && c != GDT_BLOCK
                && c != inode_block(dir_ino as int) implies #[trigger] block_at(disk@, c) == block_at(img, c) by {
                lemma_other_block(d1, new_block as int, buf@, c);
            }
            assert forall|j: int| 1 <= j <= INODES_COUNT && j != dir_ino implies #[trigger] inode_bytes(disk@, j) == inode_bytes(img, j) by {
                lemma_table_inode(j);
                assert(inode_bytes(disk@, j) == inode_bytes(d2, j));
                lemma_other_block(d1, new_block as int, buf@, inode_block(j));
                assert(block_at(d1, inode_block(j)) == block_at(img, inode_block(j)));
            }
            assert forall|c: int| block_ok(c) && DATA_START_BLOCK <= c && !dir_blocks(img, dir_ino).contains(c as u32) && c <= VALID_BLOCKS_IN_GROUP
                && bit_of(block_at(img, BLOCK_BITMAP_BLOCK as int), c - 1) implies #[trigger] block_at(disk@, c) == block_at(img, c) by {
                assert(c != new_block);
            }
        }
        if law {
            let nbs = dir_blocks(disk@, dir_ino);
            assert(inode_ptrs(inode_bytes(disk@, dir_ino as int)) == new_ptrs@);
            assert(new_ptrs@ == dir_inode.block_ptrs@.update(slot as int, new_block));
            assert(block_at(d2, new_block as int) =~= buf@);
            lemma_other_block(d2, inode_block(dir_ino as int), block_at(disk@, inode_block(dir_ino as int)), new_block as int);
            assert(block_at(disk@, new_block as int) == buf@);
            lemma_entry_named(buf@, 0, name);
            assert(block_lookup(buf@, name@, 0) == Some(new_ino));
            assert forall|kk: int| 0 <= kk < nbs.len() implies block_ok(#[trigger] nbs[kk] as int) && (block_lookup(block_at(disk@, nbs[kk] as int), name@, 0) is None
                || block_lookup(block_at(disk@, nbs[kk] as int), name@, 0) == Some(new_ino)) by {
                let y = nbs[kk];
                assert(nbs.contains(y));
                lemma_nonzero_contains(new_ptrs@.subrange(0, 12), y);
                let ii = choose|ii: int| 0 <= ii < 12 && new_ptrs@.subrange(0, 12)[ii] == y;
                if ii != slot {
                    assert(dir_inode.block_ptrs@.subrange(0, 12)[ii] == y);
                    assert(dir_inode.block_ptrs@.subrange(0, 12).contains(y));
                    lemma_nonzero_contains(dir_inode.block_ptrs@.subrange(0, 12), y);
                    assert(dir_inode.block_ptrs@.subrange(0, 12) =~= inode_ptrs(raw).subrange(0, 12));
                    assert(bs.contains(y));
                    let q = choose|q: int| 0 <= q < bs.len() && bs[q] == y;
                    assert(dir_block_sound(img, bs[q]));
                    assert(block_ok(bs[q] as int) && block_lookup(block_at(img, bs[q] as int), name@, 0) is None);
                    assert(y != new_block);
                    assert(block_at(disk@, y as int) == block_at(img, y as int));
                } else {
                    assert(y == new_block);
                }
            }
            assert(new_ptrs@.subrange(0, 12)[slot as int] == new_block);
            lemma_nonzero_contains(new_ptrs@.subrange(0, 12), new_block);
            assert(nbs.contains(new_block));
            let w2 = choose|w2: int| 0 <= w2 < nbs.len() && nbs[w2] == new_block;
            assert(block_lookup(block_at(disk@, nbs[w2] as int), name@, 0) == Some(new_ino));
            lemma_blocks_find(disk@, nbs, name@, 0, new_ino);
        }
    }
    w
}

/// Clears the inode number of the entry `name` in directory `dir_ino`;
/// true if there was one.
fn remove_dirent(disk: &mut RamDisk, dir_ino: u32, name: &str) -> (r: Result<bool, Ext2Error>)
    requires
        old(disk).wf(),
    ensures
        final(disk).wf(),
        match dir_lookup(old(disk)@, dir_ino, name@) {
            Err(()) => r is Err && final(disk)@ == old(disk)@,
            Ok(None) => r == Ok::<bool, Ext2Error>(false) && final(disk)@ == old(disk)@,
            Ok(Some(i)) => r == Ok::<bool, Ext2Error>(true) && exists|b: int, o: int|
                block_ok(b) && dir_blocks(old(disk)@, dir_ino).contains(b as u32) && 0 <= o && o + 8 <= 1024 && le32(
                    block_at(old(disk)@, b),
                    o,
                ) == i && #[trigger] final(disk)@ == with_block(old(disk)@, b, splice(block_at(old(disk)@, b), o, le32_bytes(0))),
        },
{
    let dir_inode: Inode = match read_inode(disk, dir_ino) {
        Ok(n) => n,
        Err(e) => {
            return Err(e);
        },
    };
    let ghost raw = inode_bytes(disk@, dir_ino as int);
    assert(dir_inode.block_ptrs@ =~= inode_ptrs(raw));
    let blocks: Vec<u32> = dir_block_ptrs(&dir_inode);
    let ghost bs = blocks@;
    let mut k: usize = 0;
    while k < blocks.len()
        invariant
            disk.wf(),
            disk@ == old(disk)@,
            k <= blocks@.len(),
            bs == blocks@,
            inode_ok(dir_ino as int),
            bs == nonzero(inode_ptrs(inode_bytes(disk@, dir_ino as int)).subrange(0, 12)),
            blocks_lookup(disk@, bs, name@, 0) == blocks_lookup(disk@, bs, name@, k as int),
        decreases blocks@.len() - k,
    {
        let block_num: u32 = blocks[k];
        let mut buf: Vec<u8> = match read_block(disk, block_num) {
            Ok(b) => b,
            Err(e) => {
                return Err(e);
            },
        };
        let mut offset: usize = 0;
        while offset <= BLOCK_SIZE
            invariant
                disk.wf(),
                disk@ == old(disk)@,
                buf@.len() == BLOCK_SIZE,
                block_ok(block_num as int),
                buf@ == block_at(disk@, block_num as int),
                offset <= BLOCK_SIZE + 0x10000,
                block_lookup(buf@, name@, 0) == block_lookup(buf@, name@, offset as int),
                bs == blocks@,
                k < blocks@.len(),
                block_num == blocks@[k as int],
                inode_ok(dir_ino as int),
                bs == nonzero(inode_ptrs(inode_bytes(disk@, dir_ino as int)).subrange(0, 12)),
                blocks_lookup(disk@, bs, name@, 0) == blocks_lookup(disk@, bs, name@, k as int),
            ensures
                disk@ == old(disk)@,
                buf@ == block_at(disk@, block_num as int),
                block_lookup(buf@, name@, 0) is None,
            decreases BLOCK_SIZE + 0x10000 - offset,
        {
            let entry: DirEntryRef = match dirent_at(&buf, offset) {
                Some(e) => e,
                None => {
                    break ;
                },
            };
            if entry.ino != 0 {
                let n: String = dirent_name(&buf, &entry);
                if crate::text::str_eq(n.as_str(), name) {
                    let ghost b0 = buf@;
                    put_le32(&mut buf, entry.offset, 0);
                    match write_block(disk, block_num, buf.as_slice()) {
                        Ok(()) => {},
                        Err(e) => {
                            return Err(e);
                        },
                    }
                    assert(le32(block_at(old(disk)@, block_num as int), entry.offset as int) == entry.ino);
                    assert(bs[k as int] == block_num);
                    assert(dir_blocks(old(disk)@, dir_ino).contains(block_num));
                    assert(disk@ == with_block(old(disk)@, block_num as int, splice(block_at(old(disk)@, block_num as int), entry.offset as int, le32_bytes(0))));
                    return Ok(true);
                }
            }
            offset = offset + entry.rec_len as usize;
        }
        k = k + 1;
    }
    Ok(false)
}

/// Writing block `b` leaves every other block as it was.
proof fn lemma_other_block(img: Seq<u8>, b: int, d: Seq<u8>, c: int)
    requires
        block_ok(b),
        block_ok(c),
        b != c,
        d.len() == 1024,
        img.len() == crate::ramdisk::RAMDISK_SIZE,
    ensures
        block_at(with_block(img, b, d), c) == block_at(img, c),
        with_block(img, b, d).len() == img.len(),
{
    assert(block_at(with_block(img, b, d), c) =~= block_at(img, c));
}


/// Writing a block other than the superblock keeps the volume formatted.
proof fn lemma_keeps_sb(img: Seq<u8>, b: int, d: Seq<u8>)
    requires
        block_ok(b),
        b != SB_BLOCK,
        d.len() == 1024,
        img.len() == crate::ramdisk::RAMDISK_SIZE,
    ensures
        formatted(with_block(img, b, d)) == formatted(img),
        with_block(img, b, d).len() == img.len(),
{
    lemma_other_block(img, b, d, SB_BLOCK as int);
}

/// Sets bits `from..to` of a bitmap block, keeping the bits already set.
fn set_bits(buf: &mut Vec<u8>, from: u32, to: u32)
    requires
        old(buf)@.len() == BLOCK_SIZE,
        to <= 8192,
    ensures
        final(buf)@.len() == BLOCK_SIZE,
        forall|i: int| 0 <= i < 8192 ==> #[trigger] bit_of(final(buf)@, i) == (from <= i < to || bit_of(old(buf)@, i)),
{
    let mut b: u32 = from;
    while b < to
        invariant
            buf@.len() == BLOCK_SIZE,
            to <= 8192,
            from <= b,
            from <= to ==> b <= to,
            from > to ==> b == from,
            forall|i: int| 0 <= i < 8192 ==> #[trigger] bit_of(buf@, i) == (from <= i < b || bit_of(old(buf)@, i)),
        decreases to - b,
    {
        let ghost before = buf@;
        let idx: usize = (b / 8) as usize;
        let v: u8 = buf[idx];
        buf.set(idx, v | (1u8 << ((b % 8) as u8)));
        proof {
            assert(buf@ == set_bit(before, b as int, true));
            assert forall|i: int| 0 <= i < 8192 implies #[trigger] bit_of(buf@, i) == (from <= i < b + 1 || bit_of(old(buf)@, i)) by {
                lemma_set_bit(before, b as int, i);
                assert(bit_of(before, i) == (from <= i < b || bit_of(old(buf)@, i)));
            }
        }
        b = b + 1;
    }
}

#[verifier::rlimit(30)]
fn superblock_bytes(now: u32) -> (r: Vec<u8>)
    ensures
        r@.len() == BLOCK_SIZE,
        le16(r@, 56) == EXT2_MAGIC,
{
    let inodes: u32 = INODES_COUNT;
    let free_blocks_count: u32 = VALID_BLOCKS_IN_GROUP - RESERVED_META_BLOCKS;
    let free_inodes_count: u32 = inodes - (FIRST_NON_RESERVED_INO - 1) - 1;
    let mut sb: Vec<u8> = crate::bytes::zeros(BLOCK_SIZE);
    put_le32(&mut sb, 0, inodes);
    put_le32(&mut sb, 4, TOTAL_BLOCKS);
    put_le32(&mut sb, 8, 0);
    put_le32(&mut sb, 12, free_blocks_count);
    put_le32(&mut sb, 16, free_inodes_count);
    put_le32(&mut sb, 20, SB_BLOCK);
    put_le32(&mut sb, 24, 0);
    put_le32(&mut sb, 28, 0);
    put_le32(&mut sb, 32, TOTAL_BLOCKS);
    put_le32(&mut sb, 36, TOTAL_BLOCKS);
    put_le32(&mut sb, 40, inodes);
    put_le32(&mut sb, 44, 0);
    put_le32(&mut sb, 48, now);
    put_le16(&mut sb, 52, 0);
    put_le16(&mut sb, 54, 0xFFFF);
    put_le16(&mut sb, 58, 1);
    put_le16(&mut sb, 60, 1);
    put_le16(&mut sb, 62, 0);
    put_le32(&mut sb, 64, now);
    put_le32(&mut sb, 68, 0);
    put_le32(&mut sb, 72, 0);
    put_le32(&mut sb, 76, 0);
    put_le16(&mut sb, 56, EXT2_MAGIC);
    proof {
        crate::bytes::lemma_le16_roundtrip(EXT2_MAGIC);
    }
    assert(sb@[56] == le16_bytes(EXT2_MAGIC)[0] && sb@[57] == le16_bytes(EXT2_MAGIC)[1]);
    sb
}

fn group_descriptor_bytes() -> (r: Vec<u8>)
    ensures
        r@.len() == BLOCK_SIZE,
{
    let free_blocks_count: u32 = VALID_BLOCKS_IN_GROUP - RESERVED_META_BLOCKS;
    let free_inodes_count: u32 = INODES_COUNT - (FIRST_NON_RESERVED_INO - 1) - 1;
    let mut gdt: Vec<u8> = crate::bytes::zeros(BLOCK_SIZE);
    put_le32(&mut gdt, 0, BLOCK_BITMAP_BLOCK);
    put_le32(&mut gdt, 4, INODE_BITMAP_BLOCK);
    put_le32(&mut gdt, 8, INODE_TABLE_START);
    put_le16(&mut gdt, 12, free_blocks_count as u16);
    put_le16(&mut gdt, 14, free_inodes_count as u16);
    put_le16(&mut gdt, 16, 2);
    gdt
}

/// The entry at `off` of a directory block: inode `ino`, record length
/// `rec` and name bytes `nm`.
pub open spec fn entry_at(buf: Seq<u8>, off: int, ino: u32, rec: u16, nm: Seq<u8>) -> bool {
    &&& le32(buf, off) == ino
    &&& le16(buf, off + 4) == rec
    &&& buf[off + 6] == nm.len()
    &&& buf.subrange(off + 8, off + 8 + nm.len()) == nm
}

/// The name bytes of lost+found.
pub open spec fn lost_found_bytes() -> Seq<u8> {
    seq![0x6Cu8, 0x6F, 0x73, 0x74, 0x2B, 0x66, 0x6F, 0x75, 0x6E, 0x64]
}

/// A make_dirent at `off2` with an `n`-byte name leaves an entry ending
/// before `off2` as it was.
pub(crate) proof fn lemma_entry_kept(a: Seq<u8>, b: Seq<u8>, off: int, ino: u32, rec: u16, nm: Seq<u8>, off2: int)
    requires
        a.len() == b.len(),
        0 <= off,
        off + 8 + nm.len() <= off2,
        off2 <= a.len(),
        entry_at(a, off, ino, rec, nm),
        forall|k: int| 0 <= k < a.len() && k < off2 ==> b[k] == a[k],
    ensures
        entry_at(b, off, ino, rec, nm),
{
    assert(b[off] == a[off] && b[off + 1] == a[off + 1] && b[off + 2] == a[off + 2] && b[off + 3] == a[off + 3]);
    assert(b[off + 4] == a[off + 4] && b[off + 5] == a[off + 5] && b[off + 6] == a[off + 6]);
    assert(b.subrange(off + 8, off + 8 + nm.len()) =~= a.subrange(off + 8, off + 8 + nm.len()));
}

/// A directory block starting with "." -> `self_ino` and ".." -> `parent`;
/// with `with_lost_found`, a third entry lost+found -> inode 11.
pub(crate) fn dir_block_bytes(self_ino: u32, parent: u32, with_lost_found: bool) -> (r: Vec<u8>)
    ensures
        r@.len() == BLOCK_SIZE,
        entry_at(r@, 0, self_ino, 12, seq![0x2Eu8]),
        with_lost_found ==> entry_at(r@, 12, parent, 12, seq![0x2Eu8, 0x2E]) && entry_at(r@, 24, LOST_AND_FOUND_INO, 1000, lost_found_bytes()),
        !with_lost_found ==> entry_at(r@, 12, parent, 1012, seq![0x2Eu8, 0x2E]),
{
    let dot: [u8; 1] = [0x2E];
    let dotdot: [u8; 2] = [0x2E, 0x2E];
    let mut b: Vec<u8> = crate::bytes::zeros(BLOCK_SIZE);
    make_dirent(&mut b, 0, self_ino, &dot, 12);
    assert(dot@ =~= seq![0x2Eu8]);
    assert(dotdot@ =~= seq![0x2Eu8, 0x2E]);
    let ghost b1 = b@;
    if with_lost_found {
        let lf_name: [u8; 10] = [0x6C, 0x6F, 0x73, 0x74, 0x2B, 0x66, 0x6F, 0x75, 0x6E, 0x64];
        assert(lf_name@ =~= lost_found_bytes());
        make_dirent(&mut b, 12, parent, &dotdot, 12);
        let ghost b2 = b@;
        proof {
            lemma_entry_kept(b1, b2, 0, self_ino, 12, seq![0x2Eu8], 12);
        }
        make_dirent(&mut b, 24, LOST_AND_FOUND_INO, &lf_name, (BLOCK_SIZE - 24) as u16);
        proof {
            lemma_entry_kept(b2, b@, 0, self_ino, 12, seq![0x2Eu8], 24);
            lemma_entry_kept(b2, b@, 12, parent, 12, seq![0x2Eu8, 0x2E], 24);
        }
    } else {
        make_dirent(&mut b, 12, parent, &dotdot, (BLOCK_SIZE - 12) as u16);
        proof {
            lemma_entry_kept(b1, b@, 0, self_ino, 12, seq![0x2Eu8], 12);
        }
    }
    b
}

/// Writes block `b` (not the superblock) and keeps the volume formatted.
fn write_other_block(disk: &mut RamDisk, b: u32, data: &Vec<u8>)
    requires
        old(disk).wf(),
        data@.len() == BLOCK_SIZE,
        b != SB_BLOCK,
        block_ok(b as int),
    ensures
        final(disk).wf(),
        formatted(final(disk)@) == formatted(old(disk)@),
        block_at(final(disk)@, b as int) == data@,
        forall|c: int| block_ok(c) && c != b ==> #[trigger] block_at(final(disk)@, c) == block_at(old(disk)@, c),
{
    let ghost d0 = disk@;
    let _ = write_block(disk, b, data.as_slice());
    proof {
        lemma_keeps_sb(d0, b as int, data@);
        assert(block_at(disk@, b as int) =~= data@);
        assert forall|c: int| block_ok(c) && c != b implies #[trigger] block_at(disk@, c) == block_at(d0, c) by {
            lemma_other_block(d0, b as int, data@, c);
        }
    }
}

/// The name of lost+found.
pub open spec fn lost_found_name() -> Seq<char> {
    seq!['l', 'o', 's', 't', '+', 'f', 'o', 'u', 'n', 'd']
}

/// ASCII characters encode as one byte each.
proof fn lemma_encode_ascii(chars: Seq<char>)
    requires
        forall|i: int| 0 <= i < chars.len() ==> (#[trigger] chars[i] as u32) <= 0x7F,
    ensures
        vstd::utf8::encode_utf8(chars) == Seq::new(chars.len(), |i: int| chars[i] as u32 as u8),
    decreases chars.len(),
{
    if chars.len() > 0 {
        let v = chars[0] as u32;
        assert(v & 0x7F == v) by (bit_vector)
            requires
                v <= 0x7F,
        ;
        let rest = chars.drop_first();
        assert forall|i: int| 0 <= i < rest.len() implies (#[trigger] rest[i] as u32) <= 0x7F by {
            assert(rest[i] == chars[i + 1]);
        }
        lemma_encode_ascii(rest);
        assert(vstd::utf8::encode_utf8(chars) =~= Seq::new(chars.len(), |i: int| chars[i] as u32 as u8));
    }
}

/// Name bytes that encode `chars` read back as `chars`.
pub(crate) proof fn lemma_entry_text(buf: Seq<u8>, off: int, ino: u32, rec: u16, chars: Seq<char>, nm: Seq<u8>)
    requires
        buf.len() == 1024,
        0 <= off,
        off + 8 + nm.len() <= 1024,
        entry_at(buf, off, ino, rec, nm),
        forall|i: int| 0 <= i < chars.len() ==> (#[trigger] chars[i] as u32) <= 0x7F,
        nm == Seq::new(chars.len(), |i: int| chars[i] as u32 as u8),
    ensures
        entry_text(buf, off) == chars,
{
    lemma_encode_ascii(chars);
    vstd::utf8::encode_utf8_valid_utf8(chars);
    vstd::utf8::encode_utf8_decode_utf8(chars);
}

/// The fresh root block lists ".", ".." (the root) and lost+found.
proof fn lemma_fresh_root_entries(buf: Seq<u8>)
    requires
        buf.len() == 1024,
        entry_at(buf, 0, ROOT_INO, 12, seq![0x2Eu8]),
        entry_at(buf, 12, ROOT_INO, 12, seq![0x2Eu8, 0x2E]),
        entry_at(buf, 24, LOST_AND_FOUND_INO, 1000, lost_found_bytes()),
    ensures
        block_entries(buf, 0) == seq![(seq!['.'], ROOT_INO), (seq!['.', '.'], ROOT_INO), (lost_found_name(), LOST_AND_FOUND_INO)],
{
    let d1 = seq!['.'];
    let d2 = seq!['.', '.'];
    let lf = lost_found_name();
    assert(seq![0x2Eu8] =~= Seq::new(d1.len(), |i: int| d1[i] as u32 as u8));
    assert(seq![0x2Eu8, 0x2E] =~= Seq::new(d2.len(), |i: int| d2[i] as u32 as u8));
    assert(lost_found_bytes() =~= Seq::new(lf.len(), |i: int| lf[i] as u32 as u8));
    lemma_entry_text(buf, 0, ROOT_INO, 12, d1, seq![0x2Eu8]);
    lemma_entry_text(buf, 12, ROOT_INO, 12, d2, seq![0x2Eu8, 0x2E]);
    lemma_entry_text(buf, 24, LOST_AND_FOUND_INO, 1000, lf, lost_found_bytes());
    assert(block_entries(buf, 24) =~= seq![(lf, LOST_AND_FOUND_INO)]);
    assert(block_entries(buf, 12) =~= seq![(d2, ROOT_INO), (lf, LOST_AND_FOUND_INO)]);
    assert(block_entries(buf, 0) =~= seq![(d1, ROOT_INO), (d2, ROOT_INO), (lf, LOST_AND_FOUND_INO)]);
}

/// The root block of a fresh volume: entries ".", ".." and lost+found are
/// well formed and no other name is found.
pub(crate) proof fn lemma_fresh_root_block(buf: Seq<u8>, name: Seq<char>)
    requires
        buf.len() == 1024,
        entry_at(buf, 0, ROOT_INO, 12, seq![0x2Eu8]),
        entry_at(buf, 12, ROOT_INO, 12, seq![0x2Eu8, 0x2E]),
        entry_at(buf, 24, LOST_AND_FOUND_INO, 1000, lost_found_bytes()),
        name != seq!['.'],
        name != seq!['.', '.'],
        name != lost_found_name(),
    ensures
        walk_ok(buf, 0),
        block_lookup(buf, name, 0) is None,
{
    let c1 = seq!['.'];
    let c2 = seq!['.', '.'];
    let c3 = lost_found_name();
    assert(seq![0x2Eu8] =~= Seq::new(c1.len(), |i: int| c1[i] as u32 as u8));
    assert(seq![0x2Eu8, 0x2E] =~= Seq::new(c2.len(), |i: int| c2[i] as u32 as u8));
    assert(lost_found_bytes() =~= Seq::new(c3.len(), |i: int| c3[i] as u32 as u8));
    lemma_entry_text(buf, 0, ROOT_INO, 12, c1, seq![0x2Eu8]);
    lemma_entry_text(buf, 12, ROOT_INO, 12, c2, seq![0x2Eu8, 0x2E]);
    lemma_entry_text(buf, 24, LOST_AND_FOUND_INO, 1000, c3, lost_found_bytes());
    reveal_with_fuel(block_lookup, 4);
    reveal_with_fuel(walk_ok, 4);
}

/// A fresh root directory (pointer 0 to block 93, the rest zero; block 93
/// holding ".", ".." and lost+found; the blocks up to 93 and inode 2
/// marked used) is ready for any other name.
proof fn lemma_fresh_root_ready(img: Seq<u8>, name: Seq<char>)
    requires
        img.len() == crate::ramdisk::RAMDISK_SIZE,
        forall|i: int| 0 <= i < RESERVED_META_BLOCKS ==> #[trigger] bit_of(block_at(img, BLOCK_BITMAP_BLOCK as int), i),
        bit_of(block_at(img, INODE_BITMAP_BLOCK as int), ROOT_INO - 1),
        inode_ptrs(inode_bytes(img, ROOT_INO as int)) == seq![ROOT_DIR_BLOCK, 0u32, 0, 0, 0, 0, 0, 0, 0, 0, 0, 0, 0, 0, 0],
        entry_at(block_at(img, ROOT_DIR_BLOCK as int), 0, ROOT_INO, 12, seq![0x2Eu8]),
        entry_at(block_at(img, ROOT_DIR_BLOCK as int), 12, ROOT_INO, 12, seq![0x2Eu8, 0x2E]),
        entry_at(block_at(img, ROOT_DIR_BLOCK as int), 24, LOST_AND_FOUND_INO, 1000, lost_found_bytes()),
        name != seq!['.'],
        name != seq!['.', '.'],
        name != lost_found_name(),
    ensures
        ready_for_new(img, ROOT_INO, name),
{
    let ptrs = inode_ptrs(inode_bytes(img, ROOT_INO as int));
    lemma_nonzero_prefix(ptrs.subrange(0, 12), 1);
    assert(ptrs.subrange(0, 12).subrange(0, 1) =~= seq![ROOT_DIR_BLOCK]);
    assert(dir_blocks(img, ROOT_INO) == seq![ROOT_DIR_BLOCK]);
    lemma_fresh_root_block(block_at(img, ROOT_DIR_BLOCK as int), name);
    assert(bit_of(block_at(img, BLOCK_BITMAP_BLOCK as int), ROOT_DIR_BLOCK - 1));
    assert(dir_block_sound(img, ROOT_DIR_BLOCK));
    reveal_with_fuel(blocks_lookup, 2);
}

/// Writes an empty volume: superblock, group descriptor, bitmaps, the
/// root directory (inode 2) and lost+found (inode 11); `now` is the time
/// stamped as last write and last check. The root directory then lists
/// lost+found alone and is ready for a new file of any name but ".", ".."
/// and lost+found.
#[verifier::rlimit(30)]
pub fn format(disk: &mut RamDisk, now: u32) -> (r: Result<(), Ext2Error>)
    requires
        old(disk).wf(),
    ensures
        final(disk).wf(),
        r is Ok,
        formatted(final(disk)@),
        forall|name: Seq<char>|
            name != seq!['.'] && name != seq!['.', '.'] && name != lost_found_name() ==> #[trigger] ready_for_new(
                final(disk)@,
                ROOT_INO,
                name,
            ),
        dir_blocks(final(disk)@, ROOT_INO) == seq![ROOT_DIR_BLOCK],
        dir_extents_ok(final(disk)@, ROOT_INO),
        clear_count(block_at(final(disk)@, BLOCK_BITMAP_BLOCK as int), VALID_BLOCKS_IN_GROUP as int) == VALID_BLOCKS_IN_GROUP
            - RESERVED_META_BLOCKS,
        first_clear(block_at(final(disk)@, INODE_BITMAP_BLOCK as int), 0, INODES_COUNT as int) is Some,
        listing(final(disk)@, ROOT_INO, true) == Some(Seq::<(Seq<char>, u32, bool)>::empty()),
        listing(final(disk)@, ROOT_INO, false) == Some(seq![(lost_found_name(), BLOCK_SIZE as u32, true)]),
{
    let sb: Vec<u8> = superblock_bytes(now);
    let _ = write_block(disk, SB_BLOCK, sb.as_slice());
    assert(block_at(disk@, SB_BLOCK as int) =~= sb@);
    let gdt: Vec<u8> = group_descriptor_bytes();
    write_other_block(disk, GDT_BLOCK, &gdt);
    let mut block_bitmap: Vec<u8> = crate::bytes::zeros(BLOCK_SIZE);
    proof {
        lemma_zero_bits(block_bitmap@);
    }
    let ghost bb0 = block_bitmap@;
    set_bits(&mut block_bitmap, 0, RESERVED_META_BLOCKS);
    let ghost bb1 = block_bitmap@;
    set_bits(&mut block_bitmap, VALID_BLOCKS_IN_GROUP, 8192);
    proof {
        assert forall|i: int| RESERVED_META_BLOCKS <= i < VALID_BLOCKS_IN_GROUP implies !bit_of(block_bitmap@, i) by {
            assert(!bit_of(bb0, i));
            assert(!bit_of(bb1, i));
        }
        assert forall|i: int| 0 <= i < RESERVED_META_BLOCKS implies bit_of(block_bitmap@, i) by {
            assert(bit_of(bb1, i));
        }
        lemma_count_span(block_bitmap@, RESERVED_META_BLOCKS as int, VALID_BLOCKS_IN_GROUP as int);
    }
    write_other_block(disk, BLOCK_BITMAP_BLOCK, &block_bitmap);
    let mut inode_bitmap: Vec<u8> = crate::bytes::zeros(BLOCK_SIZE);
    proof {
        lemma_zero_bits(inode_bitmap@);
    }
    let ghost ib0 = inode_bitmap@;
    set_bits(&mut inode_bitmap, 0, FIRST_NON_RESERVED_INO);
    let ghost ib1 = inode_bitmap@;
    set_bits(&mut inode_bitmap, LOST_AND_FOUND_INO - 1, LOST_AND_FOUND_INO);
    let ghost ib2 = inode_bitmap@;
    set_bits(&mut inode_bitmap, INODES_COUNT, 8192);
    proof {
        assert(!bit_of(ib0, 11));
        assert(!bit_of(ib1, 11));
        assert(!bit_of(ib2, 11));
        assert(!bit_of(inode_bitmap@, 11));
        lemma_first_clear_found(inode_bitmap@, 0, INODES_COUNT as int, 11);
    }
    write_other_block(disk, INODE_BITMAP_BLOCK, &inode_bitmap);
    let root_block: Vec<u8> = dir_block_bytes(ROOT_INO, ROOT_INO, true);
    write_other_block(disk, ROOT_DIR_BLOCK, &root_block);
    let mut root_ptrs: Vec<u32> = vec![0u32; 15];
    root_ptrs.set(0, ROOT_DIR_BLOCK);
    let ghost d4 = disk@;
    let _ = write_inode(disk, ROOT_INO, 0o040755, BLOCK_SIZE as u32, 3, root_ptrs.as_slice(), 1);
    assert(block_at(disk@, SB_BLOCK as int) == block_at(d4, SB_BLOCK as int));
    let ghost d5 = disk@;
    let lf_block: Vec<u8> = dir_block_bytes(LOST_AND_FOUND_INO, ROOT_INO, false);
    write_other_block(disk, LOST_FOUND_BLOCK, &lf_block);
    let mut lf_ptrs: Vec<u32> = vec![0u32; 15];
    lf_ptrs.set(0, LOST_FOUND_BLOCK);
    let ghost d6 = disk@;
    let _ = write_inode(disk, LOST_AND_FOUND_INO, 0o040700, BLOCK_SIZE as u32, 2, lf_ptrs.as_slice(), 1);
    assert(block_at(disk@, SB_BLOCK as int) == block_at(d6, SB_BLOCK as int));
    proof {
        lemma_table_inode(ROOT_INO as int);
        lemma_table_inode(LOST_AND_FOUND_INO as int);
        assert(root_ptrs@ =~= seq![ROOT_DIR_BLOCK, 0u32, 0, 0, 0, 0, 0, 0, 0, 0, 0, 0, 0, 0, 0]);
        assert(block_at(disk@, BLOCK_BITMAP_BLOCK as int) == block_bitmap@);
        assert(block_at(disk@, INODE_BITMAP_BLOCK as int) == inode_bitmap@);
        assert(block_at(disk@, ROOT_DIR_BLOCK as int) == root_block@);
        assert(block_at(d6, inode_block(ROOT_INO as int)) == block_at(d5, inode_block(ROOT_INO as int)));
        assert(inode_bytes(disk@, ROOT_INO as int) == inode_bytes(d5, ROOT_INO as int));
        assert(bit_of(inode_bitmap@, ROOT_INO - 1));
        assert forall|name: Seq<char>|
            name != seq!['.'] && name != seq!['.', '.'] && name != lost_found_name() implies #[trigger] ready_for_new(
                disk@,
                ROOT_INO,
                name,
            ) by {
            lemma_fresh_root_ready(disk@, name);
        }
        let ptrs = inode_ptrs(inode_bytes(disk@, ROOT_INO as int));
        lemma_nonzero_prefix(ptrs.subrange(0, 12), 1);
        assert(ptrs.subrange(0, 12).subrange(0, 1) =~= seq![ROOT_DIR_BLOCK]);
        assert(dir_blocks(disk@, ROOT_INO) == seq![ROOT_DIR_BLOCK]);
        lemma_fresh_root_extents(block_at(disk@, ROOT_DIR_BLOCK as int));
        assert(dir_blocks(disk@, ROOT_INO)[0] == ROOT_DIR_BLOCK);
        let rb = block_at(disk@, ROOT_DIR_BLOCK as int);
        lemma_fresh_root_entries(rb);
        let es = block_entries(rb, 0);
        assert(blocks_entries(disk@, seq![ROOT_DIR_BLOCK], 1) == Some(Seq::<(Seq<char>, u32)>::empty()));
        assert(es + Seq::<(Seq<char>, u32)>::empty() =~= es);
        assert(blocks_entries(disk@, seq![ROOT_DIR_BLOCK], 0) == Some(es));
        reveal_strlit(".");
        reveal_strlit("..");
        reveal_strlit("lost+found");
        assert("."@ =~= seq!['.']);
        assert(".."@ =~= seq!['.', '.']);
        assert("lost+found"@ =~= lost_found_name());
        assert(es.drop_last().drop_last().drop_last() =~= Seq::<(Seq<char>, u32)>::empty());
        assert(shown(disk@, es.drop_last().drop_last().drop_last(), true) == Some(Seq::<(Seq<char>, u32, bool)>::empty()));
        assert(es.drop_last().drop_last().last() == (seq!['.'], ROOT_INO));
        assert(hidden_name(seq!['.'], true));
        assert(es.drop_last().last() == (seq!['.', '.'], ROOT_INO));
        assert(hidden_name(seq!['.', '.'], true));
        assert(es.last() == (lost_found_name(), LOST_AND_FOUND_INO));
        assert(hidden_name(lost_found_name(), true));
        assert(shown(disk@, es.drop_last().drop_last(), true) == Some(Seq::<(Seq<char>, u32, bool)>::empty()));
        assert(shown(disk@, es.drop_last(), true) == Some(Seq::<(Seq<char>, u32, bool)>::empty()));
        assert(shown(disk@, es, true) == Some(Seq::<(Seq<char>, u32, bool)>::empty()));
        let lb = inode_bytes(disk@, LOST_AND_FOUND_INO as int);
        assert(le16(lb, 0) == 0o040700);
        assert(le32(lb, 4) == BLOCK_SIZE);
        assert((0o040700u16 & 0xF000u16) == 0x4000u16) by (bit_vector);
        assert(hidden_name(seq!['.'], false));
        assert(hidden_name(seq!['.', '.'], false));
        assert(!hidden_name(lost_found_name(), false));
        assert(shown(disk@, es.drop_last().drop_last().drop_last(), false) == Some(Seq::<(Seq<char>, u32, bool)>::empty()));
        assert(shown(disk@, es.drop_last().drop_last(), false) == Some(Seq::<(Seq<char>, u32, bool)>::empty()));
        assert(shown(disk@, es.drop_last(), false) == Some(Seq::<(Seq<char>, u32, bool)>::empty()));
        assert(shown(disk@, es, false) =~= Some(seq![(lost_found_name(), BLOCK_SIZE as u32, true)]));
    }
    Ok(())
}

/// A zeroed block has no bit set.
proof fn lemma_zero_bits(buf: Seq<u8>)
    requires
        buf == Seq::new(1024, |i: int| 0u8),
    ensures
        forall|i: int| 0 <= i < 8192 ==> !#[trigger] bit_of(buf, i),
{
    assert forall|i: int| 0 <= i < 8192 implies !#[trigger] bit_of(buf, i) by {
        let k: u8 = (i % 8) as u8;
        assert(buf[i / 8] == 0u8);
        assert((0u8 >> k) & 1u8 == 0u8) by (bit_vector);
    }
}

/// Bits set below `a` and clear from `a` to `lim`: `lim - a` clear bits
/// below `lim`.
proof fn lemma_count_span(buf: Seq<u8>, a: int, lim: int)
    requires
        0 <= a <= lim,
        forall|i: int| 0 <= i < a ==> #[trigger] bit_of(buf, i),
        forall|i: int| a <= i < lim ==> !#[trigger] bit_of(buf, i),
    ensures
        clear_count(buf, lim) == lim - a,
    decreases lim,
{
    if lim > a {
        lemma_count_span(buf, a, lim - 1);
    } else {
        lemma_all_set_count(buf, lim);
    }
}

/// A clear bit at `j` in `i..lim` makes the search from `i` find one.
proof fn lemma_first_clear_found(buf: Seq<u8>, i: int, lim: int, j: int)
    requires
        0 <= i <= j < lim,
        !bit_of(buf, j),
    ensures
        first_clear(buf, i, lim) is Some,
    decreases j - i,
{
    if i < j && bit_of(buf, i) {
        lemma_first_clear_found(buf, i + 1, lim, j);
    }
}

/// The fresh root block ("." and ".." of twelve bytes, lost+found to the
/// end) keeps its entries inside the block.
proof fn lemma_fresh_root_extents(buf: Seq<u8>)
    requires
        le16(buf, 4) == 12,
        le16(buf, 16) == 12,
        le16(buf, 28) == 1000,
    ensures
        extents_ok(buf),
{
    assert forall|o: int| #[trigger] reach(buf, 0, o) && 0 <= o && o + 8 <= 1024 && le16(buf, o + 4) != 0 implies o + le16(buf, o + 4) <= 1024 by {
        assert(reach(buf, 0, o) ==> o == 0 || reach(buf, 12, o));
        assert(reach(buf, 12, o) ==> o == 12 || reach(buf, 24, o));
        assert(reach(buf, 24, o) ==> o == 24);
    }
}


/// A name may be stored: 1..=55 bytes of UTF-8, without '/' or NUL.
pub open spec fn name_ok(name: &str) -> bool {
    &&& name@.len() > 0
    &&& name.spec_bytes().len() <= 55
    &&& !name@.contains('/')
    &&& !name@.contains('\0')
}

fn validate_name(name: &str) -> (r: Result<(), Ext2Error>)
    ensures
        name_ok(name) ==> r is Ok,
        !name_ok(name) ==> r == Err::<(), Ext2Error>(Ext2Error::InvalidName),
        r is Ok ==> 1 <= name.spec_bytes().len() <= 55,
{
    let nb: &[u8] = name.as_bytes();
    proof {
        vstd::utf8::encode_utf8_decode_utf8(name@);
    }
    if nb.len() == 0 || nb.len() > 55 {
        proof {
            if nb@.len() == 0 {
                assert(vstd::utf8::decode_utf8(nb@) =~= Seq::<char>::empty()) by {
                    reveal_with_fuel(vstd::utf8::decode_utf8, 2);
                }
            }
        }
        return Err(Ext2Error::InvalidName);
    }
    proof {
        if name@.len() == 0 {
            assert(vstd::utf8::encode_utf8(name@) =~= Seq::<u8>::empty()) by {
                reveal_with_fuel(vstd::utf8::encode_utf8, 2);
            }
        }
    }
    let cs: Vec<char> = crate::text::chars_of(name);
    let mut i: usize = 0;
    while i < cs.len()
        invariant
            cs@ == name@,
            i <= cs@.len(),
            forall|k: int| 0 <= k < i ==> cs@[k] != '/' && cs@[k] != '\0',
        decreases cs@.len() - i,
    {
        if cs[i] == '/' || cs[i] == '\0' {
            assert(name@.contains(cs@[i as int]));
            return Err(Ext2Error::InvalidName);
        }
        i = i + 1;
    }
    Ok(())
}

fn is_special(name: &str) -> (r: bool)
    ensures
        r == (name@ == "."@ || name@ == ".."@ || name@ == "lost+found"@),
{
    crate::text::str_eq(name, ".") || crate::text::str_eq(name, "..") || crate::text::str_eq(name, "lost+found")
}

/// The live entries of a directory block walked from `off`: name and
/// inode, in order.
pub open spec fn block_entries(buf: Seq<u8>, off: int) -> Seq<(Seq<char>, u32)>
    decreases 1024 - off,
{
    if off < 0 || off + 8 > 1024 || le16(buf, off + 4) == 0 {
        Seq::empty()
    } else {
        let here = if le32(buf, off) != 0 {
            seq![(entry_text(buf, off), le32(buf, off) as u32)]
        } else {
            Seq::<(Seq<char>, u32)>::empty()
        };
        here + (if off + le16(buf, off + 4) + 8 > 1024 {
            Seq::<(Seq<char>, u32)>::empty()
        } else {
            block_entries(buf, off + le16(buf, off + 4))
        })
    }
}

/// The live entries of blocks `bs` from the `k`-th on; `None` when one
/// lies off the disk.
pub open spec fn blocks_entries(img: Seq<u8>, bs: Seq<u32>, k: int) -> Option<Seq<(Seq<char>, u32)>>
    decreases bs.len() - k,
{
    if k < 0 || k >= bs.len() {
        Some(Seq::empty())
    } else if !block_ok(bs[k] as int) {
        None
    } else {
        match blocks_entries(img, bs, k + 1) {
            None => None,
            Some(rest) => Some(block_entries(block_at(img, bs[k] as int), 0) + rest),
        }
    }
}

/// Names a listing leaves out: "." and "..", and lost+found when `hide`.
pub open spec fn hidden_name(nm: Seq<char>, hide: bool) -> bool {
    nm == "."@ || nm == ".."@ || (hide && nm == "lost+found"@)
}

/// What a listing shows of entries `es`: name, size and directory flag
/// from each shown entry's inode; `None` when such an inode lies off the
/// disk.
pub open spec fn shown(img: Seq<u8>, es: Seq<(Seq<char>, u32)>, hide: bool) -> Option<Seq<(Seq<char>, u32, bool)>>
    decreases es.len(),
{
    if es.len() == 0 {
        Some(Seq::empty())
    } else {
        match shown(img, es.drop_last(), hide) {
            None => None,
            Some(prev) => {
                let (nm, ino) = es.last();
                if hidden_name(nm, hide) {
                    Some(prev)
                } else if !inode_ok(ino as int) {
                    None
                } else {
                    let ib = inode_bytes(img, ino as int);
                    Some(prev.push((nm, le32(ib, 4) as u32, (le16(ib, 0) as u16) & 0xF000u16 == 0x4000u16)))
                }
            },
        }
    }
}

/// The listing of directory `dir`.
pub open spec fn listing(img: Seq<u8>, dir: u32, hide: bool) -> Option<Seq<(Seq<char>, u32, bool)>> {
    if !inode_ok(dir as int) {
        None
    } else {
        match blocks_entries(img, dir_blocks(img, dir), 0) {
            None => None,
            Some(es) => shown(img, es, hide),
        }
    }
}

pub open spec fn entry_views(v: Seq<FileEntry>) -> Seq<(Seq<char>, u32, bool)> {
    v.map_values(|e: FileEntry| (e.name@, e.size, e.is_directory))
}

/// An erroring prefix errors the whole.
proof fn lemma_shown_none(img: Seq<u8>, es: Seq<(Seq<char>, u32)>, more: Seq<(Seq<char>, u32)>, hide: bool)
    requires
        shown(img, es, hide) is None,
    ensures
        shown(img, es + more, hide) is None,
    decreases more.len(),
{
    if more.len() == 0 {
        assert(es + more =~= es);
    } else {
        lemma_shown_none(img, es, more.drop_last(), hide);
        assert((es + more).drop_last() =~= es + more.drop_last());
    }
}

/// Entries with an inode of directory `dir_ino`, except "." and "..",
/// and lost+found when `hide_lost_found`; sizes and types from their
/// inodes.
#[verifier::spinoff_prover]
#[verifier::rlimit(40)]
fn list_entries(disk: &RamDisk, dir_ino: u32, hide_lost_found: bool) -> (r: Result<Vec<FileEntry>, Ext2Error>)
    requires
        disk.wf(),
    ensures
        match listing(disk@, dir_ino, hide_lost_found) {
            None => r is Err,
            Some(l) => r matches Ok(v) && entry_views(v@) == l,
        },
{
    let dir_inode: Inode = match read_inode(disk, dir_ino) {
        Ok(n) => n,
        Err(e) => {
            return Err(e);
        },
    };
    let ghost raw = inode_bytes(disk@, dir_ino as int);
    assert(dir_inode.block_ptrs@ =~= inode_ptrs(raw));
    let mut entries: Vec<FileEntry> = Vec::new();
    let blocks: Vec<u32> = dir_block_ptrs(&dir_inode);
    let ghost bs = blocks@;
    let ghost mut done: Seq<(Seq<char>, u32)> = Seq::empty();
    proof {
        match blocks_entries(disk@, bs, 0) {
            None => {},
            Some(rest) => {
                assert(done + rest =~= rest);
            },
        }
        assert(entry_views(entries@) =~= Seq::<(Seq<char>, u32, bool)>::empty());
    }
    let mut k: usize = 0;
    while k < blocks.len()
        invariant
            disk.wf(),
            k <= blocks@.len(),
            bs == blocks@,
            inode_ok(dir_ino as int),
            bs == dir_blocks(disk@, dir_ino),
            shown(disk@, done, hide_lost_found) == Some(entry_views(entries@)),
            blocks_entries(disk@, bs, 0) == (match blocks_entries(disk@, bs, k as int) {
                None => None,
                Some(rest) => Some(done + rest),
            }),
        decreases blocks@.len() - k,
    {
        let buf: Vec<u8> = match read_block(disk, blocks[k]) {
            Ok(b) => b,
            Err(e) => {
                return Err(e);
            },
        };
        proof {
            match blocks_entries(disk@, bs, k + 1) {
                None => {},
                Some(r2) => {
                    assert(done + (block_entries(buf@, 0) + r2) =~= done + block_entries(buf@, 0) + r2);
                },
            }
        }
        let mut offset: usize = 0;
        while offset <= BLOCK_SIZE
            invariant
                disk.wf(),
                buf@.len() == BLOCK_SIZE,
                offset <= BLOCK_SIZE + 0x10000,
                k < bs.len(),
                bs == blocks@,
                inode_ok(dir_ino as int),
                bs == dir_blocks(disk@, dir_ino),
                shown(disk@, done, hide_lost_found) == Some(entry_views(entries@)),
                blocks_entries(disk@, bs, 0) == (match blocks_entries(disk@, bs, k + 1) {
                    None => None,
                    Some(r2) => Some(done + block_entries(buf@, offset as int) + r2),
                }),
            ensures
                shown(disk@, done, hide_lost_found) == Some(entry_views(entries@)),
                blocks_entries(disk@, bs, 0) == (match blocks_entries(disk@, bs, k + 1) {
                    None => None,
                    Some(r2) => Some(done + r2),
                }),
            decreases BLOCK_SIZE + 0x10000 - offset,
        {
            let entry: DirEntryRef = match dirent_at(&buf, offset) {
                Some(e) => e,
                None => {
                    proof {
                        assert(block_entries(buf@, offset as int) =~= Seq::<(Seq<char>, u32)>::empty());
                        assert(done + Seq::<(Seq<char>, u32)>::empty() =~= done);
                    }
                    break ;
                },
            };
            let ghost rest_after = if offset + entry.rec_len + 8 > 1024 {
                Seq::<(Seq<char>, u32)>::empty()
            } else {
                block_entries(buf@, offset + entry.rec_len)
            };
            if entry.ino != 0 {
                let name: String = dirent_name(&buf, &entry);
                let skip: bool = if hide_lost_found {
                    is_special(name.as_str())
                } else {
                    crate::text::str_eq(name.as_str(), ".") || crate::text::str_eq(name.as_str(), "..")
                };
                let ghost e = (name@, entry.ino);
                let ghost done0 = done;
                proof {
                    assert(block_entries(buf@, offset as int) =~= seq![e] + rest_after);
                    done = done.push(e);
                    assert(done.drop_last() =~= done0);
                    match blocks_entries(disk@, bs, k + 1) {
                        None => {},
                        Some(r2) => {
                            assert(done0 + (seq![e] + rest_after) + r2 =~= done + rest_after + r2);
                        },
                    }
                }
                if !skip {
                    let node: Inode = match read_inode(disk, entry.ino) {
                        Ok(n) => n,
                        Err(e) => {
                            proof {
                                match blocks_entries(disk@, bs, k + 1) {
                                    None => {},
                                    Some(r2) => {
                                        lemma_shown_none(disk@, done, rest_after + r2, hide_lost_found);
                                        assert(done + rest_after + r2 =~= done + (rest_after + r2));
                                    },
                                }
                            }
                            return Err(e);
                        },
                    };
                    let ghost ev = entry_views(entries@);
                    let is_dir: bool = node.mode & 0xF000 == 0x4000;
                    entries.push(FileEntry { name, size: node.size, is_directory: is_dir });
                    assert(entry_views(entries@) =~= ev.push((e.0, node.size, is_dir)));
                }
            } else {
                assert(block_entries(buf@, offset as int) =~= rest_after);
            }
            offset = offset + entry.rec_len as usize;
        }
        k = k + 1;
    }
    proof {
        assert(done + Seq::<(Seq<char>, u32)>::empty() =~= done);
    }
    Ok(entries)
}

/// Files and directories of the root, without ".", ".." and lost+found.
pub fn list_root(disk: &RamDisk) -> (r: Result<Vec<FileEntry>, Ext2Error>)
    requires
        disk.wf(),
    ensures
        !formatted(disk@) ==> r matches Err(Ext2Error::NotFormatted),
        formatted(disk@) ==> match listing(disk@, ROOT_INO, true) {
            None => r is Err,
            Some(l) => r matches Ok(v) && entry_views(v@) == l,
        },
{
    if !is_formatted(disk) {
        return Err(Ext2Error::NotFormatted);
    }
    list_entries(disk, ROOT_INO, true)
}

/// Largest file these functions read, in bytes.
pub const MAX_READ_SIZE: u32 = 8 * 1024 * 1024;

pub open spec fn prepend(d: Seq<u8>, o: Option<Seq<u8>>) -> Option<Seq<u8>> {
    match o {
        Some(t) => Some(d + t),
        None => None,
    }
}

/// The first `left` bytes held by blocks `bs` from the `k`-th on (fewer
/// when the blocks run out); `None` when one lies off the disk.
pub open spec fn blocks_data(img: Seq<u8>, bs: Seq<u32>, k: int, left: nat) -> Option<Seq<u8>>
    decreases bs.len() - k,
{
    if left == 0 || k < 0 || k >= bs.len() {
        Some(Seq::empty())
    } else if !block_ok(bs[k] as int) {
        None
    } else {
        let take: nat = if left < 1024 { left } else { 1024 };
        prepend(block_at(img, bs[k] as int).subrange(0, take as int), blocks_data(img, bs, k + 1, (left - take) as nat))
    }
}

/// The first `size` bytes of the given blocks.
fn read_blocks(disk: &RamDisk, blocks: &Vec<u32>, size: u32) -> (r: Result<Vec<u8>, Ext2Error>)
    requires
        disk.wf(),
        size <= MAX_READ_SIZE,
    ensures
        r matches Ok(d) ==> d@.len() <= size,
        match blocks_data(disk@, blocks@, 0, size as nat) {
            None => r is Err,
            Some(d) => r matches Ok(v) && v@ == d,
        },
{
    let mut data: Vec<u8> = Vec::new();
    let mut left: usize = size as usize;
    let mut k: usize = 0;
    assert(data@ + Seq::<u8>::empty() =~= data@);
    while k < blocks.len()
        invariant
            disk.wf(),
            k <= blocks@.len(),
            data@.len() + left == size,
            blocks_data(disk@, blocks@, 0, size as nat) == prepend(data@, blocks_data(disk@, blocks@, k as int, left as nat)),
        ensures
            data@.len() + left == size,
            blocks_data(disk@, blocks@, 0, size as nat) == prepend(data@, blocks_data(disk@, blocks@, k as int, left as nat)),
            left == 0 || k >= blocks@.len(),
            k <= blocks@.len(),
        decreases blocks@.len() - k,
    {
        if left == 0 {
            break ;
        }
        let buf: Vec<u8> = match read_block(disk, blocks[k]) {
            Ok(b) => b,
            Err(e) => {
                return Err(e);
            },
        };
        let take: usize = if left < BLOCK_SIZE { left } else { BLOCK_SIZE };
        let part: Vec<u8> = crate::bytes::copy_range(buf.as_slice(), 0, take);
        let ghost before = data@;
        crate::bytes::extend_from(&mut data, part.as_slice());
        left = left - take;
        k = k + 1;
        proof {
            let rest = blocks_data(disk@, blocks@, k as int, left as nat);
            if rest is Some {
                assert(before + (part@ + rest->0) =~= data@ + rest->0);
            }
        }
    }
    assert(data@ + Seq::<u8>::empty() =~= data@);
    Ok(data)
}

/// Contents of inode `ino` as far as its direct blocks reach.
pub fn read_inode_data(disk: &RamDisk, ino: u32) -> (r: Result<Vec<u8>, Ext2Error>)
    requires
        disk.wf(),
    ensures
        r matches Ok(d) ==> d@.len() <= MAX_READ_SIZE,
        !inode_ok(ino as int) ==> r is Err,
        inode_ok(ino as int) ==> ({
            let raw = inode_bytes(disk@, ino as int);
            if le32(raw, 4) > MAX_READ_SIZE {
                r is Err
            } else {
                match blocks_data(disk@, nonzero(inode_ptrs(raw).subrange(0, 12)), 0, le32(raw, 4) as nat) {
                    None => r is Err,
                    Some(d) => r matches Ok(v) && v@ == d,
                }
            }
        }),
{
    let inode: Inode = match read_inode(disk, ino) {
        Ok(n) => n,
        Err(e) => {
            return Err(e);
        },
    };
    if inode.size > MAX_READ_SIZE {
        return Err(Ext2Error::DiskError);
    }
    let blocks: Vec<u32> = dir_block_ptrs(&inode);
    assert(inode.block_ptrs@ =~= inode_ptrs(inode_bytes(disk@, ino as int)));
    read_blocks(disk, &blocks, inode.size)
}

/// The contents of inode `ino`: the first `size` bytes of its data
/// blocks; `None` when it cannot be read or is larger than
/// `MAX_READ_SIZE`.
pub open spec fn inode_data(img: Seq<u8>, ino: u32) -> Option<Seq<u8>> {
    if !inode_ok(ino as int) {
        None
    } else {
        let raw = inode_bytes(img, ino as int);
        if le32(raw, 4) > MAX_READ_SIZE {
            None
        } else {
            match file_blocks(img, inode_ptrs(raw)) {
                None => None,
                Some(bs) => blocks_data(img, bs, 0, le32(raw, 4) as nat),
            }
        }
    }
}

/// What reading file `name` of directory `dir` gives.
pub open spec fn file_bytes(img: Seq<u8>, dir: u32, name: Seq<char>) -> Option<Seq<u8>> {
    match dir_lookup(img, dir, name) {
        Ok(Some(ino)) => inode_data(img, ino),
        _ => None,
    }
}

/// Reads a file of the root directory.
pub fn read_file(disk: &RamDisk, name: &str) -> (r: Result<Vec<u8>, Ext2Error>)
    requires
        disk.wf(),
    ensures
        !formatted(disk@) ==> r matches Err(Ext2Error::NotFormatted),
        formatted(disk@) && !name_ok(name) ==> r matches Err(Ext2Error::InvalidName),
        r matches Ok(d) ==> d@.len() <= MAX_READ_SIZE,
        formatted(disk@) && name_ok(name) && dir_lookup(disk@, ROOT_INO, name@) == Ok::<Option<u32>, ()>(None)
            ==> r matches Err(Ext2Error::FileNotFound),
        formatted(disk@) && name_ok(name) ==> (file_bytes(disk@, ROOT_INO, name@) matches Some(d) ==> (r matches Ok(v)
            && v@ == d)),
{
    if !is_formatted(disk) {
        return Err(Ext2Error::NotFormatted);
    }
    match validate_name(name) {
        Ok(()) => {},
        Err(e) => {
            return Err(e);
        },
    }
    let ino: u32 = match find_in_dir(disk, ROOT_INO, name) {
        Ok(Some((_, _, ino))) => ino,
        Ok(None) => {
            return Err(Ext2Error::FileNotFound);
        },
        Err(e) => {
            return Err(e);
        },
    };
    let inode: Inode = match read_inode(disk, ino) {
        Ok(n) => n,
        Err(e) => {
            return Err(e);
        },
    };
    assert(inode.block_ptrs@ =~= inode_ptrs(inode_bytes(disk@, ino as int)));
    if inode.size > MAX_READ_SIZE {
        return Err(Ext2Error::DiskError);
    }
    let blocks: Vec<u32> = match file_block_list(disk, &inode) {
        Ok(b) => b,
        Err(e) => {
            return Err(e);
        },
    };
    read_blocks(disk, &blocks, inode.size)
}

/// Frees a file's data blocks, its indirect block and its inode, and
/// clears the inode with deletion time `now`.
#[verifier::spinoff_prover]
#[verifier::rlimit(40)]
fn free_file_blocks(disk: &mut RamDisk, ino: u32, now: u32) -> (r: Result<(), Ext2Error>)
    requires
        old(disk).wf(),
    ensures
        final(disk).wf(),
        !inode_ok(ino as int) ==> r is Err && final(disk)@ == old(disk)@,
        inode_ok(ino as int) && file_blocks(old(disk)@, inode_ptrs(inode_bytes(old(disk)@, ino as int))) is None ==> r is Err
            && final(disk)@ == old(disk)@,
        free_owed(old(disk)@, ino) ==> r is Ok,
        r is Ok ==> ({
            let ptrs = inode_ptrs(inode_bytes(old(disk)@, ino as int));
            &&& inode_bytes(final(disk)@, ino as int) == cleared_inode(now)
            &&& !bit_of(block_at(final(disk)@, INODE_BITMAP_BLOCK as int), ino - 1)
            &&& (file_blocks(old(disk)@, ptrs) matches Some(bs) && forall|k: int|
                0 <= k < bs.len() ==> !bit_of(block_at(final(disk)@, BLOCK_BITMAP_BLOCK as int), #[trigger] bs[k] - 1))
            &&& ptrs[12] != 0 ==> !bit_of(block_at(final(disk)@, BLOCK_BITMAP_BLOCK as int), ptrs[12] - 1)
            &&& only_meta_changed(old(disk)@, final(disk)@, ino)
        }),
{
    let ghost d0 = disk@;
    let ghost ptrs = inode_ptrs(inode_bytes(d0, ino as int));
    let inode: Inode = match read_inode(disk, ino) {
        Ok(n) => n,
        Err(e) => {
            return Err(e);
        },
    };
    assert(inode.block_ptrs@ =~= ptrs);
    let blocks: Vec<u32> = match file_block_list(disk, &inode) {
        Ok(b) => b,
        Err(e) => {
            return Err(e);
        },
    };
    let ghost bs = blocks@;
    let ghost owed = free_owed(d0, ino);
    proof {
        lemma_file_blocks_nonzero(d0, ptrs);
    }
    let mut k: usize = 0;
    while k < blocks.len()
        invariant
            disk.wf(),
            k <= blocks@.len(),
            bs == blocks@,
            d0 == old(disk)@,
            ptrs == inode_ptrs(inode_bytes(old(disk)@, ino as int)),
            ptrs[12] == inode.block_ptrs@[12],
            file_blocks(d0, ptrs) == Some(bs),
            inode_ok(ino as int),
            inode_bytes(disk@, ino as int) == inode_bytes(d0, ino as int),
            block_at(disk@, INODE_BITMAP_BLOCK as int) == block_at(d0, INODE_BITMAP_BLOCK as int),
            forall|j: int| 0 <= j < k ==> !bit_of(block_at(disk@, BLOCK_BITMAP_BLOCK as int), #[trigger] bs[j] - 1),
            forall|j: int| 0 <= j < k ==> #[trigger] bs[j] <= 8192,
            forall|j: int| 0 <= j < bs.len() ==> 1 <= #[trigger] bs[j],
            owed ==> forall|j: int| 0 <= j < bs.len() ==> #[trigger] bs[j] <= 8192,
            owed == free_owed(old(disk)@, ino),
            owed ==> ptrs[12] <= 8192,
            forall|c: int| block_ok(c) && c != BLOCK_BITMAP_BLOCK && c != SB_BLOCK && c != GDT_BLOCK ==> #[trigger] block_at(disk@, c)
                == block_at(d0, c),
        decreases blocks@.len() - k,
    {
        let ghost c0 = disk@;
        proof {
            if owed {
                assert(bs[k as int] <= 8192);
            }
        }
        match free_block(disk, blocks[k]) {
            Ok(()) => {},
            Err(e) => {
                assert(!owed);
                return Err(e);
            },
        }
        proof {
            lemma_free_step(c0, disk@, ino as int, bs, k as int);
        }
        k = k + 1;
    }
    let indirect: u32 = inode.block_ptrs[INDIRECT_BLOCK_INDEX];
    if indirect != 0 {
        let ghost c0 = disk@;
        match free_block(disk, indirect) {
            Ok(()) => {},
            Err(e) => {
                return Err(e);
            },
        }
        proof {
            lemma_table_inode_block(ino as int);
            assert(block_at(disk@, inode_block(ino as int)) == block_at(c0, inode_block(ino as int)));
            assert forall|j: int| 0 <= j < bs.len() implies !bit_of(block_at(disk@, BLOCK_BITMAP_BLOCK as int), #[trigger] bs[j] - 1) by {
                lemma_clear_bit(block_at(c0, BLOCK_BITMAP_BLOCK as int), indirect - 1, bs[j] - 1);
            }
            lemma_clear_bit(block_at(c0, BLOCK_BITMAP_BLOCK as int), indirect - 1, indirect - 1);
        }
    }
    let ghost c1 = disk@;
    match free_inode(disk, ino) {
        Ok(()) => {},
        Err(e) => {
            return Err(e);
        },
    }
    let ghost c2 = disk@;
    proof {
        lemma_table_inode_block(ino as int);
        lemma_clear_bit(block_at(c1, INODE_BITMAP_BLOCK as int), ino - 1, ino - 1);
        assert(block_at(c2, BLOCK_BITMAP_BLOCK as int) == block_at(c1, BLOCK_BITMAP_BLOCK as int));
    }
    let r = clear_inode(disk, ino, now);
    proof {
        assert(block_at(disk@, BLOCK_BITMAP_BLOCK as int) == block_at(c2, BLOCK_BITMAP_BLOCK as int));
        assert(block_at(disk@, INODE_BITMAP_BLOCK as int) == block_at(c2, INODE_BITMAP_BLOCK as int));
        assert forall|j: int| inode_ok(j) && j != ino implies #[trigger] inode_bytes(disk@, j) == inode_bytes(d0, j) by {
            lemma_table_inode_block(j);
            assert(block_at(c2, inode_block(j)) == block_at(d0, inode_block(j)));
        }
    }
    r
}

/// The entries of `nonzero(s)` are not zero.
proof fn lemma_nonzero_elems(s: Seq<u32>)
    ensures
        forall|j: int| 0 <= j < nonzero(s).len() ==> #[trigger] nonzero(s)[j] != 0,
    decreases s.len(),
{
    if s.len() > 0 {
        lemma_nonzero_elems(s.drop_last());
        let t = nonzero(s.drop_last());
        if s.last() != 0 {
            assert forall|j: int| 0 <= j < nonzero(s).len() implies #[trigger] nonzero(s)[j] != 0 by {
                if j < t.len() {
                    assert(nonzero(s)[j] == t[j]);
                }
            }
        }
    }
}

/// The data blocks of a file are not zero.
proof fn lemma_file_blocks_nonzero(img: Seq<u8>, ptrs: Seq<u32>)
    requires
        ptrs.len() == 15,
    ensures
        file_blocks(img, ptrs) matches Some(bs) ==> forall|j: int| 0 <= j < bs.len() ==> 1 <= #[trigger] bs[j],
{
    lemma_nonzero_elems(ptrs.subrange(0, 12));
    if ptrs[12] != 0 {
        lemma_nonzero_elems(indirect_ptrs(img, ptrs[12]));
        let d = nonzero(ptrs.subrange(0, 12));
        let e = nonzero(indirect_ptrs(img, ptrs[12]));
        assert forall|j: int| 0 <= j < (d + e).len() implies 1 <= #[trigger] (d + e)[j] by {
            if j < d.len() {
                assert(d[j] != 0);
            } else {
                assert(e[j - d.len()] != 0);
            }
        }
    }
}

/// Freeing the blocks of inode `ino` succeeds: the inode and its block
/// list can be read, and every block number lies in the bitmap.
pub open spec fn free_owed(img: Seq<u8>, ino: u32) -> bool {
    let ptrs = inode_ptrs(inode_bytes(img, ino as int));
    &&& inode_ok(ino as int)
    &&& file_blocks(img, ptrs) is Some
    &&& forall|k: int| 0 <= k < file_blocks(img, ptrs)->0.len() ==> #[trigger] file_blocks(img, ptrs)->0[k] <= 8192
    &&& ptrs[12] <= 8192
}

/// Freeing data block `bs[k]` keeps the inode, the inode bitmap and the
/// bits cleared so far.
proof fn lemma_free_step(c0: Seq<u8>, c1: Seq<u8>, ino: int, bs: Seq<u32>, k: int)
    requires
        c0.len() == crate::ramdisk::RAMDISK_SIZE,
        inode_ok(ino),
        0 <= k < bs.len(),
        1 <= bs[k] <= 8192,
        block_at(c1, BLOCK_BITMAP_BLOCK as int) == set_bit(block_at(c0, BLOCK_BITMAP_BLOCK as int), bs[k] - 1, false),
        forall|c: int| block_ok(c) && c != BLOCK_BITMAP_BLOCK && c != SB_BLOCK && c != GDT_BLOCK ==> #[trigger] block_at(c1, c)
            == block_at(c0, c),
        forall|j: int| 0 <= j < k ==> !bit_of(block_at(c0, BLOCK_BITMAP_BLOCK as int), #[trigger] bs[j] - 1),
        forall|j: int| 0 <= j < k ==> #[trigger] bs[j] <= 8192,
        forall|j: int| 0 <= j < bs.len() ==> 1 <= #[trigger] bs[j],
    ensures
        inode_bytes(c1, ino) == inode_bytes(c0, ino),
        block_at(c1, INODE_BITMAP_BLOCK as int) == block_at(c0, INODE_BITMAP_BLOCK as int),
        forall|j: int| 0 <= j < k + 1 ==> !bit_of(block_at(c1, BLOCK_BITMAP_BLOCK as int), #[trigger] bs[j] - 1),
{
    lemma_table_inode_block(ino);
    assert(block_at(c1, inode_block(ino)) == block_at(c0, inode_block(ino)));
    assert forall|j: int| 0 <= j < k + 1 implies !bit_of(block_at(c1, BLOCK_BITMAP_BLOCK as int), #[trigger] bs[j] - 1) by {
        lemma_clear_bit(block_at(c0, BLOCK_BITMAP_BLOCK as int), bs[k] - 1, bs[j] - 1);
    }
}

/// The inode table lies from block 5 on.
proof fn lemma_table_inode_block(ino: int)
    requires
        inode_ok(ino),
    ensures
        INODE_TABLE_START <= inode_block(ino),
{
    assert(0 <= (ino - 1) * 128 / 1024) by (nonlinear_arith)
        requires
            1 <= ino,
    ;
}

/// Clearing a bit leaves every other bit as it was.
proof fn lemma_clear_bit(buf: Seq<u8>, b: int, i: int)
    requires
        buf.len() == 1024,
        0 <= b < 8192,
        0 <= i < 8192,
    ensures
        bit_of(set_bit(buf, b, false), i) == (i != b && bit_of(buf, i)),
{
    let x = buf[b / 8];
    let sb = (b % 8) as u8;
    let si = (i % 8) as u8;
    let m = 1u8 << sb;
    if i / 8 == b / 8 {
        assert(sb < 8 && si < 8);
        assert((((x & !m) >> si) & 1u8 != 0) == (si != sb && (x >> si) & 1u8 != 0)) by (bit_vector)
            requires
                m == 1u8 << sb,
                sb < 8,
                si < 8,
        ;
        if si == sb {
            assert(i == b);
        }
    }
}

/// A new file `name` of `len` bytes fits into directory `dir`: the
/// directory is ready for it and keeps its entries inside its blocks, has
/// a free direct slot, the file is not too large, the block bitmap has a
/// clear bit for each block the file takes and one more for the
/// directory, and the inode bitmap has a clear bit.
pub open spec fn new_file_fits(img: Seq<u8>, dir: u32, name: Seq<char>, len: nat) -> bool {
    &&& formatted(img)
    &&& name_chars_ok(name)
    &&& ready_for_new(img, dir, name)
    &&& dir_extents_ok(img, dir)
    &&& dir_blocks(img, dir).len() < 12
    &&& blocks_needed(len) <= MAX_FILE_BLOCKS
    &&& clear_count(block_at(img, BLOCK_BITMAP_BLOCK as int), VALID_BLOCKS_IN_GROUP as int) > blocks_taken(len)
    &&& first_clear(block_at(img, INODE_BITMAP_BLOCK as int), 0, INODES_COUNT as int) is Some
}

/// Blocks a new file of `len` bytes takes from the block bitmap: its data
/// blocks and, past twelve, the indirect block.
pub open spec fn blocks_taken(len: nat) -> nat {
    blocks_needed(len) + if blocks_needed(len) > 12 { 1nat } else { 0nat }
}

/// A directory whose inode and blocks are left as they were keeps its
/// entries inside its blocks.
proof fn lemma_extents_kept(a: Seq<u8>, b: Seq<u8>, dir: u32, x: u32)
    requires
        dir_sound(a, dir),
        dir_extents_ok(a, dir),
        dir_blocks(b, dir) == dir_blocks(a, dir),
        !dir_blocks(a, dir).contains(x),
        forall|c: int| block_ok(c) && DATA_START_BLOCK <= c && c != x ==> #[trigger] block_at(b, c) == block_at(a, c),
    ensures
        dir_extents_ok(b, dir),
{
    let ds = dir_blocks(a, dir);
    assert forall|k: int| 0 <= k < ds.len() implies extents_ok(#[trigger] block_at(b, ds[k] as int)) by {
        assert(dir_block_sound(a, ds[k]));
        assert(ds.contains(ds[k]));
        assert(extents_ok(block_at(a, ds[k] as int)));
    }
}

/// Blocks a file of `len` bytes needs (at least one for a non-empty file).
pub open spec fn blocks_needed(len: nat) -> nat {
    (len + 1023) / 1024
}

/// Bytes `start..min(start + 1024, len)` of `data`.
pub open spec fn chunk(data: Seq<u8>, start: int) -> Seq<u8> {
    data.subrange(start, if data.len() - start < 1024 { data.len() as int } else { start + 1024 })
}

/// Writes one data block holding `data[start..min(start + 1024, len)]`.
fn write_data_block(disk: &mut RamDisk, data: &[u8], start: usize) -> (r: Result<u32, Ext2Error>)
    requires
        old(disk).wf(),
        start < data@.len(),
    ensures
        final(disk).wf(),
        first_clear(block_at(old(disk)@, BLOCK_BITMAP_BLOCK as int), 0, VALID_BLOCKS_IN_GROUP as int) is None ==> r
            == Err::<u32, Ext2Error>(Ext2Error::NoSpace),
        first_clear(block_at(old(disk)@, BLOCK_BITMAP_BLOCK as int), 0, VALID_BLOCKS_IN_GROUP as int) is Some ==> r is Ok,
        r matches Ok(b) ==> first_clear(block_at(old(disk)@, BLOCK_BITMAP_BLOCK as int), 0, VALID_BLOCKS_IN_GROUP as int)
            == Some((b - 1) as int),
        r matches Ok(b) ==> 1 <= b <= VALID_BLOCKS_IN_GROUP && block_ok(b as int)
            && !bit_of(block_at(old(disk)@, BLOCK_BITMAP_BLOCK as int), b - 1),
        r matches Ok(b) ==> (b > BLOCK_BITMAP_BLOCK ==> {
            &&& block_at(final(disk)@, BLOCK_BITMAP_BLOCK as int) == set_bit(block_at(old(disk)@, BLOCK_BITMAP_BLOCK as int), b - 1, true)
            &&& block_at(final(disk)@, b as int).subrange(0, chunk(data@, start as int).len() as int) == chunk(data@, start as int)
            &&& formatted(final(disk)@) == formatted(old(disk)@)
            &&& forall|c: int| block_ok(c) && c != b && c != BLOCK_BITMAP_BLOCK && c != SB_BLOCK && c != GDT_BLOCK
                ==> #[trigger] block_at(final(disk)@, c) == block_at(old(disk)@, c)
        }),
{
    let b: u32 = match alloc_block(disk) {
        Ok(b) => b,
        Err(e) => {
            return Err(e);
        },
    };
    let ghost d1 = disk@;
    let end: usize = if data.len() - start < BLOCK_SIZE { data.len() } else { start + BLOCK_SIZE };
    let mut block_buf: Vec<u8> = crate::bytes::zeros(BLOCK_SIZE);
    let part: Vec<u8> = crate::bytes::copy_range(data, start, end);
    crate::bytes::write_bytes(&mut block_buf, 0, part.as_slice());
    match write_block(disk, b, block_buf.as_slice()) {
        Ok(()) => {},
        Err(e) => {
            return Err(e);
        },
    }
    proof {
        if b > BLOCK_BITMAP_BLOCK {
            lemma_other_block(d1, b as int, block_buf@, BLOCK_BITMAP_BLOCK as int);
            lemma_keeps_sb(d1, b as int, block_buf@);
            assert(block_at(disk@, b as int) =~= block_buf@);
            assert(part@ == chunk(data@, start as int));
            assert(block_buf@.subrange(0, part@.len() as int) =~= part@);
            assert forall|c: int| block_ok(c) && c != b implies #[trigger] block_at(disk@, c) == block_at(d1, c) by {
                lemma_other_block(d1, b as int, block_buf@, c);
            }
        }
    }
    Ok(b)
}

/// What writing a new file `name` into directory `dir` relies on: the
/// directory is sound and has no entry `name`, the blocks before the data
/// area are marked used, and so is the directory's own inode.
pub open spec fn ready_for_new(img: Seq<u8>, dir: u32, name: Seq<char>) -> bool {
    &&& dir_ready(img, dir, name)
    &&& bit_of(block_at(img, INODE_BITMAP_BLOCK as int), dir - 1)
}

/// The directory part of `ready_for_new`.
pub open spec fn dir_ready(img: Seq<u8>, dir: u32, name: Seq<char>) -> bool {
    &&& dir_sound(img, dir)
    &&& meta_reserved(img)
    &&& dir_lookup(img, dir, name) == Ok::<Option<u32>, ()>(None)
}

/// Every bit set in the block bitmap of `a` is set in that of `b`.
pub open spec fn bits_kept(a: Seq<u8>, b: Seq<u8>) -> bool {
    forall|i: int| 0 <= i < 8192 && #[trigger] bit_of(block_at(a, BLOCK_BITMAP_BLOCK as int), i) ==> bit_of(
        block_at(b, BLOCK_BITMAP_BLOCK as int),
        i,
    )
}

/// Data block `b` is the `k`-th of a file holding `data`: it lies in the
/// data area, is marked used, and starts with chunk `k` of `data`.
pub open spec fn data_block_ok(img: Seq<u8>, b: u32, data: Seq<u8>, k: int) -> bool {
    &&& DATA_START_BLOCK <= b <= VALID_BLOCKS_IN_GROUP
    &&& bit_of(block_at(img, BLOCK_BITMAP_BLOCK as int), b - 1)
    &&& holds_chunk(img, b, data, k)
}

/// Block `b` lies on the disk and starts with chunk `k` of `data`.
pub open spec fn holds_chunk(img: Seq<u8>, b: u32, data: Seq<u8>, k: int) -> bool {
    &&& block_ok(b as int)
    &&& block_at(img, b as int).subrange(0, chunk(data, 1024 * k).len() as int) == chunk(data, 1024 * k)
}

/// Blocks `bs` are distinct data blocks holding `data` in order.
pub open spec fn data_blocks_ok(img: Seq<u8>, bs: Seq<u32>, data: Seq<u8>) -> bool {
    &&& forall|k: int| 0 <= k < bs.len() ==> #[trigger] data_block_ok(img, bs[k], data, k)
    &&& forall|a: int, c: int| 0 <= a < c < bs.len() ==> bs[a] != bs[c]
}

/// Looking up in blocks whose contents did not change gives the same.
proof fn lemma_blocks_same(img: Seq<u8>, img2: Seq<u8>, bs: Seq<u32>, name: Seq<char>, j: int)
    requires
        0 <= j,
        forall|k: int| j <= k < bs.len() && block_ok(#[trigger] bs[k] as int) ==> block_at(img2, bs[k] as int) == block_at(img, bs[k] as int),
    ensures
        blocks_lookup(img2, bs, name, j) == blocks_lookup(img, bs, name, j),
    decreases bs.len() - j,
{
    if j < bs.len() {
        lemma_blocks_same(img, img2, bs, name, j + 1);
    }
}

/// A step that sets only bitmap bits, keeps the directory's inode, and
/// rewrites at most one data-area block `b` that was free keeps the
/// directory ready for a new entry `name`.
proof fn lemma_ready_kept(cur: Seq<u8>, nxt: Seq<u8>, dir: u32, name: Seq<char>, b: int)
    requires
        cur.len() == crate::ramdisk::RAMDISK_SIZE,
        nxt.len() == crate::ramdisk::RAMDISK_SIZE,
        dir_ready(cur, dir, name),
        bits_kept(cur, nxt),
        inode_bytes(nxt, dir as int) == inode_bytes(cur, dir as int),
        forall|c: int| block_ok(c) && DATA_START_BLOCK <= c && c != b ==> #[trigger] block_at(nxt, c) == block_at(cur, c),
        b == 0 || (1 <= b <= VALID_BLOCKS_IN_GROUP && !bit_of(block_at(cur, BLOCK_BITMAP_BLOCK as int), b - 1)),
    ensures
        dir_ready(nxt, dir, name),
        dir_blocks(nxt, dir) == dir_blocks(cur, dir),
{
    let bs = dir_blocks(cur, dir);
    assert(dir_blocks(nxt, dir) == bs);
    assert forall|k: int| 0 <= k < bs.len() implies #[trigger] dir_block_sound(nxt, bs[k]) by {
        assert(dir_block_sound(cur, bs[k]));
        let y = bs[k];
        if y <= VALID_BLOCKS_IN_GROUP {
            assert(bit_of(block_at(cur, BLOCK_BITMAP_BLOCK as int), y - 1));
        }
        assert(y as int != b);
        assert(block_at(nxt, y as int) == block_at(cur, y as int));
    }
    assert forall|k: int| 0 <= k < bs.len() && block_ok(#[trigger] bs[k] as int) implies block_at(nxt, bs[k] as int) == block_at(cur, bs[k] as int) by {
        assert(dir_block_sound(cur, bs[k]));
        let y = bs[k];
        if y <= VALID_BLOCKS_IN_GROUP {
            assert(bit_of(block_at(cur, BLOCK_BITMAP_BLOCK as int), y - 1));
        }
        assert(y as int != b);
    }
    lemma_blocks_same(cur, nxt, bs, name, 0);
    assert forall|i: int| 0 <= i < DATA_START_BLOCK - 1 implies #[trigger] bit_of(block_at(nxt, BLOCK_BITMAP_BLOCK as int), i) by {
        assert(bit_of(block_at(cur, BLOCK_BITMAP_BLOCK as int), i));
    }
}

/// The same step keeps the data blocks written so far.
proof fn lemma_data_kept(cur: Seq<u8>, nxt: Seq<u8>, bs: Seq<u32>, data: Seq<u8>, b: int)
    requires
        data_blocks_ok(cur, bs, data),
        bits_kept(cur, nxt),
        forall|c: int| block_ok(c) && DATA_START_BLOCK <= c && c != b ==> #[trigger] block_at(nxt, c) == block_at(cur, c),
        b == 0 || (1 <= b <= VALID_BLOCKS_IN_GROUP && !bit_of(block_at(cur, BLOCK_BITMAP_BLOCK as int), b - 1)),
    ensures
        data_blocks_ok(nxt, bs, data),
        forall|k: int| 0 <= k < bs.len() ==> bs[k] as int != b,
{
    assert forall|k: int| 0 <= k < bs.len() implies #[trigger] data_block_ok(nxt, bs[k], data, k) by {
        assert(data_block_ok(cur, bs[k], data, k));
        assert(bs[k] as int != b);
        assert(block_at(nxt, bs[k] as int) == block_at(cur, bs[k] as int));
    }
    assert forall|k: int| 0 <= k < bs.len() implies bs[k] as int != b by {
        assert(data_block_ok(cur, bs[k], data, k));
    }
}

/// Setting a bit keeps every bit that was set.
proof fn lemma_bits_after_set(a: Seq<u8>, b: Seq<u8>, bit: int)
    requires
        a.len() == crate::ramdisk::RAMDISK_SIZE,
        0 <= bit < 8192,
        block_at(b, BLOCK_BITMAP_BLOCK as int) == set_bit(block_at(a, BLOCK_BITMAP_BLOCK as int), bit, true),
    ensures
        bits_kept(a, b),
        bit_of(block_at(b, BLOCK_BITMAP_BLOCK as int), bit),
{
    assert forall|i: int| 0 <= i < 8192 && #[trigger] bit_of(block_at(a, BLOCK_BITMAP_BLOCK as int), i) implies bit_of(
        block_at(b, BLOCK_BITMAP_BLOCK as int),
        i,
    ) by {
        lemma_set_bit(block_at(a, BLOCK_BITMAP_BLOCK as int), bit, i);
    }
    lemma_set_bit(block_at(a, BLOCK_BITMAP_BLOCK as int), bit, bit);
}

/// Data blocks holding `data` chunk by chunk give `data` back from block
/// `k` on.
proof fn lemma_blocks_data_reads(img: Seq<u8>, bs: Seq<u32>, data: Seq<u8>, k: int)
    requires
        forall|i: int| 0 <= i < bs.len() ==> #[trigger] holds_chunk(img, bs[i], data, i),
        bs.len() == blocks_needed(data.len()),
        0 <= k,
        1024 * k <= data.len(),
    ensures
        blocks_data(img, bs, k, (data.len() - 1024 * k) as nat) == Some(data.subrange(1024 * k, data.len() as int)),
    decreases data.len() - 1024 * k,
{
    let n = data.len() as int;
    let left = n - 1024 * k;
    if left == 0 {
        assert(data.subrange(1024 * k, n) =~= Seq::<u8>::empty());
    } else {
        assert(k < bs.len()) by (nonlinear_arith)
            requires
                1024 * k < n,
                bs.len() == (n + 1023) / 1024,
        ;
        assert(holds_chunk(img, bs[k], data, k));
        let c = chunk(data, 1024 * k);
        let take: nat = if left < 1024 { left as nat } else { 1024 };
        assert(c.len() == take);
        assert(block_at(img, bs[k] as int).subrange(0, take as int) == c);
        assert(blocks_data(img, bs, k, left as nat) == prepend(c, blocks_data(img, bs, k + 1, (left - take) as nat)));
        if left >= 1024 {
            lemma_blocks_data_reads(img, bs, data, k + 1);
            assert((left - take) as nat == (n - 1024 * (k + 1)) as nat);
            assert(c + data.subrange(1024 * (k + 1), n) =~= data.subrange(1024 * k, n));
        } else {
            assert(c =~= data.subrange(1024 * k, n));
            assert(c + Seq::<u8>::empty() =~= c);
        }
    }
}

/// The non-zero entries of pointers that are non-zero up to `d` and zero
/// after are the first `d`.
proof fn lemma_nonzero_prefix(s: Seq<u32>, d: int)
    requires
        0 <= d <= s.len(),
        forall|i: int| 0 <= i < d ==> s[i] != 0,
        forall|i: int| d <= i < s.len() ==> s[i] == 0,
    ensures
        nonzero(s) == s.subrange(0, d),
    decreases s.len(),
{
    if s.len() > 0 {
        if d == s.len() {
            lemma_nonzero_prefix(s.drop_last(), d - 1);
            assert(s.drop_last().subrange(0, d - 1).push(s.last()) =~= s.subrange(0, d));
        } else {
            lemma_nonzero_prefix(s.drop_last(), d);
            assert(s.drop_last().subrange(0, d) =~= s.subrange(0, d));
        }
    }
}

/// None of blocks `bs` belongs to directory `dir`.
pub open spec fn outside_dir(img: Seq<u8>, dir: u32, bs: Seq<u32>) -> bool {
    forall|k: int| 0 <= k < bs.len() ==> !dir_blocks(img, dir).contains(#[trigger] bs[k])
}

/// A block whose bit was clear is no block of a sound directory.
proof fn lemma_free_not_dir(img: Seq<u8>, dir: u32, b: u32)
    requires
        dir_sound(img, dir),
        1 <= b <= VALID_BLOCKS_IN_GROUP,
        !bit_of(block_at(img, BLOCK_BITMAP_BLOCK as int), b - 1),
    ensures
        !dir_blocks(img, dir).contains(b),
{
    let ds = dir_blocks(img, dir);
    if ds.contains(b) {
        let k = choose|k: int| 0 <= k < ds.len() && ds[k] == b;
        assert(dir_block_sound(img, ds[k]));
    }
}

/// The directory's inode lies in the inode table.
proof fn lemma_dir_inode_block(dir: u32)
    requires
        inode_ok(dir as int),
    ensures
        INODE_TABLE_START <= inode_block(dir as int),
{
    assert(0 <= (dir - 1) * 128 / 1024) by (nonlinear_arith)
        requires
            1 <= dir,
    ;
}

/// Writing data block `b`, free before, as the next chunk keeps the
/// directory ready and adds `b` to the blocks written so far.
proof fn lemma_data_step(cur: Seq<u8>, nxt: Seq<u8>, dir: u32, name: Seq<char>, bs: Seq<u32>, data: Seq<u8>, b: u32)
    requires
        cur.len() == crate::ramdisk::RAMDISK_SIZE,
        nxt.len() == crate::ramdisk::RAMDISK_SIZE,
        dir_ready(cur, dir, name),
        data_blocks_ok(cur, bs, data),
        outside_dir(cur, dir, bs),
        1 <= b <= VALID_BLOCKS_IN_GROUP,
        block_ok(b as int),
        !bit_of(block_at(cur, BLOCK_BITMAP_BLOCK as int), b - 1),
        b > BLOCK_BITMAP_BLOCK ==> {
            &&& block_at(nxt, BLOCK_BITMAP_BLOCK as int) == set_bit(block_at(cur, BLOCK_BITMAP_BLOCK as int), b - 1, true)
            &&& block_at(nxt, b as int).subrange(0, chunk(data, 1024 * (bs.len() as int)).len() as int) == chunk(data, 1024 * (bs.len() as int))
            &&& formatted(nxt) == formatted(cur)
            &&& forall|c: int| block_ok(c) && c != b && c != BLOCK_BITMAP_BLOCK && c != SB_BLOCK && c != GDT_BLOCK
                ==> #[trigger] block_at(nxt, c) == block_at(cur, c)
        },
    ensures
        DATA_START_BLOCK <= b,
        dir_ready(nxt, dir, name),
        dir_blocks(nxt, dir) == dir_blocks(cur, dir),
        formatted(nxt) == formatted(cur),
        block_at(nxt, INODE_BITMAP_BLOCK as int) == block_at(cur, INODE_BITMAP_BLOCK as int),
        data_blocks_ok(nxt, bs.push(b), data),
        outside_dir(nxt, dir, bs.push(b)),
{
    if b < DATA_START_BLOCK {
        assert(bit_of(block_at(cur, BLOCK_BITMAP_BLOCK as int), b - 1));
    }
    lemma_bits_after_set(cur, nxt, b - 1);
    lemma_dir_inode_block(dir);
    assert(block_at(nxt, inode_block(dir as int)) == block_at(cur, inode_block(dir as int)));
    assert(block_at(nxt, INODE_BITMAP_BLOCK as int) == block_at(cur, INODE_BITMAP_BLOCK as int));
    lemma_ready_kept(cur, nxt, dir, name, b as int);
    lemma_data_kept(cur, nxt, bs, data, b as int);
    lemma_free_not_dir(cur, dir, b);
    let nb = bs.push(b);
    assert forall|k: int| 0 <= k < nb.len() implies #[trigger] data_block_ok(nxt, nb[k], data, k) by {
        if k < bs.len() {
            assert(nb[k] == bs[k]);
        }
    }
    assert forall|k: int| 0 <= k < nb.len() implies !dir_blocks(nxt, dir).contains(#[trigger] nb[k]) by {
        if k < bs.len() {
            assert(nb[k] == bs[k]);
        }
    }
}

/// Allocating block `ind`, free before, and then writing it keeps the
/// directory ready and the data blocks, and leaves `ind` marked used and
/// outside the directory.
proof fn lemma_indirect_step(c0: Seq<u8>, c1: Seq<u8>, c2: Seq<u8>, dir: u32, name: Seq<char>, bs: Seq<u32>, data: Seq<u8>, ind: u32)
    requires
        c0.len() == crate::ramdisk::RAMDISK_SIZE,
        c2.len() == crate::ramdisk::RAMDISK_SIZE,
        dir_ready(c0, dir, name),
        data_blocks_ok(c0, bs, data),
        outside_dir(c0, dir, bs),
        1 <= ind <= VALID_BLOCKS_IN_GROUP,
        block_ok(ind as int),
        !bit_of(block_at(c0, BLOCK_BITMAP_BLOCK as int), ind - 1),
        block_at(c1, BLOCK_BITMAP_BLOCK as int) == set_bit(block_at(c0, BLOCK_BITMAP_BLOCK as int), ind - 1, true),
        forall|c: int| block_ok(c) && c != BLOCK_BITMAP_BLOCK && c != SB_BLOCK && c != GDT_BLOCK ==> #[trigger] block_at(c1, c) == block_at(c0, c),
        forall|c: int| block_ok(c) && c != ind ==> #[trigger] block_at(c2, c) == block_at(c1, c),
    ensures
        DATA_START_BLOCK <= ind,
        dir_ready(c2, dir, name),
        dir_blocks(c2, dir) == dir_blocks(c0, dir),
        block_at(c2, INODE_BITMAP_BLOCK as int) == block_at(c0, INODE_BITMAP_BLOCK as int),
        data_blocks_ok(c2, bs, data),
        outside_dir(c2, dir, bs),
        bit_of(block_at(c2, BLOCK_BITMAP_BLOCK as int), ind - 1),
        !dir_blocks(c2, dir).contains(ind),
        forall|k: int| 0 <= k < bs.len() ==> bs[k] != ind,
{
    if ind < DATA_START_BLOCK {
        assert(bit_of(block_at(c0, BLOCK_BITMAP_BLOCK as int), ind - 1));
    }
    assert(block_at(c2, BLOCK_BITMAP_BLOCK as int) == block_at(c1, BLOCK_BITMAP_BLOCK as int));
    lemma_bits_after_set(c0, c2, ind - 1);
    lemma_dir_inode_block(dir);
    assert(block_at(c2, inode_block(dir as int)) == block_at(c1, inode_block(dir as int)));
    assert(block_at(c1, inode_block(dir as int)) == block_at(c0, inode_block(dir as int)));
    assert(block_at(c2, INODE_BITMAP_BLOCK as int) == block_at(c1, INODE_BITMAP_BLOCK as int));
    assert forall|c: int| block_ok(c) && DATA_START_BLOCK <= c && c != ind implies #[trigger] block_at(c2, c) == block_at(c0, c) by {
        assert(block_at(c2, c) == block_at(c1, c));
        assert(block_at(c1, c) == block_at(c0, c));
    }
    lemma_ready_kept(c0, c2, dir, name, ind as int);
    lemma_data_kept(c0, c2, bs, data, ind as int);
    lemma_free_not_dir(c0, dir, ind);
}

/// A new-file write once its blocks are written: the directory is still
/// ready, blocks `bs` hold `data`, lie outside the directory and are what
/// pointers `ptrs` lead to; a non-zero indirect pointer names a used
/// data-area block outside the directory.
pub open spec fn blocks_written(img: Seq<u8>, dir: u32, name: Seq<char>, bs: Seq<u32>, data: Seq<u8>, ptrs: Seq<u32>) -> bool {
    &&& dir_ready(img, dir, name)
    &&& data_blocks_ok(img, bs, data)
    &&& outside_dir(img, dir, bs)
    &&& bs.len() == blocks_needed(data.len())
    &&& ptrs.len() == 15
    &&& file_blocks(img, ptrs) == Some(bs)
    &&& ptrs[12] != 0 ==> {
        &&& DATA_START_BLOCK <= ptrs[12] <= VALID_BLOCKS_IN_GROUP
        &&& bit_of(block_at(img, BLOCK_BITMAP_BLOCK as int), ptrs[12] - 1)
        &&& !dir_blocks(img, dir).contains(ptrs[12])
    }
}

/// A step that keeps the block bitmap, the directory's inode and the data
/// area keeps the written blocks.
proof fn lemma_written_kept(cur: Seq<u8>, nxt: Seq<u8>, dir: u32, name: Seq<char>, bs: Seq<u32>, data: Seq<u8>, ptrs: Seq<u32>)
    requires
        cur.len() == crate::ramdisk::RAMDISK_SIZE,
        nxt.len() == crate::ramdisk::RAMDISK_SIZE,
        blocks_written(cur, dir, name, bs, data, ptrs),
        block_at(nxt, BLOCK_BITMAP_BLOCK as int) == block_at(cur, BLOCK_BITMAP_BLOCK as int),
        inode_bytes(nxt, dir as int) == inode_bytes(cur, dir as int),
        forall|c: int| block_ok(c) && DATA_START_BLOCK <= c ==> #[trigger] block_at(nxt, c) == block_at(cur, c),
    ensures
        blocks_written(nxt, dir, name, bs, data, ptrs),
{
    lemma_ready_kept(cur, nxt, dir, name, 0);
    lemma_data_kept(cur, nxt, bs, data, 0);
    if ptrs[12] != 0 && block_ok(ptrs[12] as int) {
        assert(block_at(nxt, ptrs[12] as int) == block_at(cur, ptrs[12] as int));
        assert(indirect_ptrs(nxt, ptrs[12]) =~= indirect_ptrs(cur, ptrs[12]));
    }
}

/// Reading back: a directory entry leading to inode `ino` whose size and
/// pointers give blocks holding `data` reads as `data`.
proof fn lemma_new_file_reads(img: Seq<u8>, dir: u32, name: Seq<char>, ino: u32, bs: Seq<u32>, data: Seq<u8>, ptrs: Seq<u32>)
    requires
        inode_ok(ino as int),
        dir_lookup(img, dir, name) == Ok::<Option<u32>, ()>(Some(ino)),
        inode_ptrs(inode_bytes(img, ino as int)) == ptrs,
        le32(inode_bytes(img, ino as int), 4) == data.len(),
        data.len() <= MAX_READ_SIZE,
        file_blocks(img, ptrs) == Some(bs),
        forall|i: int| 0 <= i < bs.len() ==> #[trigger] holds_chunk(img, bs[i], data, i),
        bs.len() == blocks_needed(data.len()),
    ensures
        file_bytes(img, dir, name) == Some(data),
{
    lemma_blocks_data_reads(img, bs, data, 0);
    assert(data.subrange(0, data.len() as int) =~= data);
}

/// Writes (or replaces) file `name` in directory `dir_ino`: data in up to
/// twelve direct blocks, the rest through one indirect block; `now`
/// stamps the deletion of a replaced file's inode. A new file written
/// into a directory ready for it reads back as `data`; a replaced file
/// does once the directory, its old entry dropped, is ready for it.
#[verifier::spinoff_prover]
#[verifier::rlimit(60)]
pub fn write_file_in(disk: &mut RamDisk, dir_ino: u32, name: &str, data: &[u8], now: u32) -> (r: Result<(), Ext2Error>)
    requires
        old(disk).wf(),
    ensures
        final(disk).wf(),
        !formatted(old(disk)@) ==> (r matches Err(Ext2Error::NotFormatted) && final(disk)@ == old(disk)@),
        formatted(old(disk)@) && !name_ok(name) ==> (r matches Err(Ext2Error::InvalidName) && final(disk)@ == old(disk)@),
        r is Ok ==> blocks_needed(data@.len()) <= MAX_FILE_BLOCKS,
        r is Ok && ready_for_new(old(disk)@, dir_ino, name@) ==> formatted(final(disk)@) && file_bytes(final(disk)@, dir_ino, name@)
            == Some(data@),
        new_file_fits(old(disk)@, dir_ino, name@, data@.len()) ==> r is Ok,
        formatted(old(disk)@) && name_ok(name) && dir_lookup(old(disk)@, dir_ino, name@) == Ok::<Option<u32>, ()>(None)
            && blocks_needed(data@.len()) > MAX_FILE_BLOCKS ==> (r matches Err(Ext2Error::FileTooLarge) && final(disk)@ == old(disk)@),
        formatted(old(disk)@) && name_ok(name) && dir_lookup(old(disk)@, dir_ino, name@) is Err ==> r is Err && final(disk)@
            == old(disk)@,
        dir_lookup(old(disk)@, dir_ino, name@) matches Ok(Some(i)) ==> (r is Ok ==> exists|m1: Seq<u8>, m2: Seq<u8>|
            #![trigger file_freed(old(disk)@, m1, i, now), entry_dropped(m1, m2, dir_ino, name@)]
            file_freed(old(disk)@, m1, i, now) && entry_dropped(m1, m2, dir_ino, name@) && (ready_for_new(m2, dir_ino, name@)
                && formatted(m2) ==> file_bytes(final(disk)@, dir_ino, name@) == Some(data@))),
{
    if !is_formatted(disk) {
        return Err(Ext2Error::NotFormatted);
    }
    match validate_name(name) {
        Ok(()) => {},
        Err(e) => {
            return Err(e);
        },
    }
    let ghost law0 = ready_for_new(old(disk)@, dir_ino, name@);
    let ghost mut m1 = old(disk)@;
    let ghost owed = new_file_fits(old(disk)@, dir_ino, name@, data@.len());
    let ghost c_start = clear_count(block_at(old(disk)@, BLOCK_BITMAP_BLOCK as int), VALID_BLOCKS_IN_GROUP as int);
    match find_in_dir(disk, dir_ino, name) {
        Ok(Some((_, _, existing))) => {
            match free_file_blocks(disk, existing, now) {
                Ok(()) => {},
                Err(e) => {
                    return Err(e);
                },
            }
            proof {
                m1 = disk@;
            }
            match remove_dirent(disk, dir_ino, name) {
                Ok(_) => {},
                Err(e) => {
                    return Err(e);
                },
            }
            proof {
                assert(entry_dropped(m1, disk@, dir_ino, name@));
            }
        },
        Ok(None) => {},
        Err(e) => {
            return Err(e);
        },
    }
    assert(law0 ==> disk@ == old(disk)@);
    let ghost base = disk@;
    let ghost law = ready_for_new(base, dir_ino, name@) && formatted(base);
    assert(law0 ==> law);
    assert(owed ==> law);
    assert(dir_lookup(old(disk)@, dir_ino, name@) matches Ok(Some(i)) ==> file_freed(old(disk)@, m1, i, now) && entry_dropped(m1, base, dir_ino, name@));
    let n: usize = data.len();
    let nblocks: usize = n / BLOCK_SIZE + if n % BLOCK_SIZE != 0 { 1 } else { 0 };
    assert(nblocks == blocks_needed(n as nat));
    if nblocks > MAX_FILE_BLOCKS {
        return Err(Ext2Error::FileTooLarge);
    }
    let mut block_ptrs: Vec<u32> = vec![0u32; 15];
    let direct_blocks: usize = if nblocks < MAX_DIRECT_BLOCKS { nblocks } else { MAX_DIRECT_BLOCKS };
    let ghost mut alloc: Seq<u32> = Seq::empty();
    let mut i: usize = 0;
    while i < direct_blocks
        invariant
            disk.wf(),
            formatted(old(disk)@),
            name_ok(name),
            block_ptrs@.len() == 15,
            direct_blocks <= 12,
            direct_blocks <= nblocks,
            nblocks == n / 1024 + if n % 1024 != 0 { 1usize } else { 0usize },
            n == data@.len(),
            i <= direct_blocks,
            alloc.len() == i,
            forall|k: int| 0 <= k < i ==> block_ptrs@[k] == alloc[k],
            forall|k: int| i <= k < 15 ==> block_ptrs@[k] == 0,
            law ==> dir_ready(disk@, dir_ino, name@),
            law ==> block_at(disk@, INODE_BITMAP_BLOCK as int) == block_at(base, INODE_BITMAP_BLOCK as int),
            law ==> formatted(disk@),
            law ==> data_blocks_ok(disk@, alloc, data@),
            law ==> outside_dir(disk@, dir_ino, alloc),
            law == (ready_for_new(base, dir_ino, name@) && formatted(base)),
            owed == new_file_fits(old(disk)@, dir_ino, name@, data@.len()),
            owed ==> law,
            c_start == clear_count(block_at(old(disk)@, BLOCK_BITMAP_BLOCK as int), VALID_BLOCKS_IN_GROUP as int),
            owed ==> clear_count(block_at(disk@, BLOCK_BITMAP_BLOCK as int), VALID_BLOCKS_IN_GROUP as int) + alloc.len() == c_start,
            owed ==> dir_extents_ok(disk@, dir_ino) && dir_blocks(disk@, dir_ino) == dir_blocks(old(disk)@, dir_ino),
            blocks_needed(data@.len()) <= MAX_FILE_BLOCKS,
            !(dir_lookup(old(disk)@, dir_ino, name@) is Err),
        decreases direct_blocks - i,
    {
        assert(i * 1024 < n) by (nonlinear_arith)
            requires
                i < nblocks,
                nblocks == n / 1024 + if n % 1024 != 0 { 1usize } else { 0usize },
        ;
        let ghost cur = disk@;
        proof {
            if owed {
                lemma_count_first(block_at(cur, BLOCK_BITMAP_BLOCK as int), VALID_BLOCKS_IN_GROUP as int);
            }
        }
        let b: u32 = match write_data_block(disk, data, i * BLOCK_SIZE) {
            Ok(b) => b,
            Err(e) => {
                return Err(e);
            },
        };
        proof {
            if law {
                assert((i * BLOCK_SIZE) as int == 1024 * (alloc.len() as int));
                lemma_data_step(cur, disk@, dir_ino, name@, alloc, data@, b);
            }
            if owed {
                lemma_count_after_set(block_at(cur, BLOCK_BITMAP_BLOCK as int), (b - 1) as int, VALID_BLOCKS_IN_GROUP as int);
                lemma_free_not_dir(cur, dir_ino, b);
                lemma_extents_kept(cur, disk@, dir_ino, b);
            }
            alloc = alloc.push(b);
        }
        block_ptrs.set(i, b);
        i = i + 1;
    }
    let mut used_blocks: u32 = direct_blocks as u32;
    if nblocks > MAX_DIRECT_BLOCKS {
        let indirect_data_blocks: usize = nblocks - MAX_DIRECT_BLOCKS;
        let mut ind_ptrs: Vec<u32> = vec![0u32; 256];
        let mut j: usize = 0;
        while j < indirect_data_blocks
            invariant
                disk.wf(),
                formatted(old(disk)@),
                name_ok(name),
                ind_ptrs@.len() == 256,
                indirect_data_blocks <= 256,
                indirect_data_blocks == nblocks - 12,
                nblocks <= 268,
                nblocks == n / 1024 + if n % 1024 != 0 { 1usize } else { 0usize },
                n == data@.len(),
                j <= indirect_data_blocks,
                block_ptrs@.len() == 15,
                alloc.len() == 12 + j,
                forall|k: int| 0 <= k < 12 ==> block_ptrs@[k] == alloc[k],
                forall|k: int| 12 <= k < 15 ==> block_ptrs@[k] == 0,
                forall|k: int| 0 <= k < j ==> ind_ptrs@[k] == alloc[12 + k],
                forall|k: int| j <= k < 256 ==> ind_ptrs@[k] == 0,
                law ==> dir_ready(disk@, dir_ino, name@),
                law ==> block_at(disk@, INODE_BITMAP_BLOCK as int) == block_at(base, INODE_BITMAP_BLOCK as int),
                law ==> formatted(disk@),
                law ==> data_blocks_ok(disk@, alloc, data@),
                law ==> outside_dir(disk@, dir_ino, alloc),
                law == (ready_for_new(base, dir_ino, name@) && formatted(base)),
                owed == new_file_fits(old(disk)@, dir_ino, name@, data@.len()),
                owed ==> law,
                c_start == clear_count(block_at(old(disk)@, BLOCK_BITMAP_BLOCK as int), VALID_BLOCKS_IN_GROUP as int),
                owed ==> clear_count(block_at(disk@, BLOCK_BITMAP_BLOCK as int), VALID_BLOCKS_IN_GROUP as int) + alloc.len() == c_start,
                owed ==> dir_extents_ok(disk@, dir_ino) && dir_blocks(disk@, dir_ino) == dir_blocks(old(disk)@, dir_ino),
                blocks_needed(data@.len()) <= MAX_FILE_BLOCKS,
                !(dir_lookup(old(disk)@, dir_ino, name@) is Err),
            decreases indirect_data_blocks - j,
        {
            assert((12 + j) * 1024 < n) by (nonlinear_arith)
                requires
                    12 + j < nblocks,
                    nblocks == n / 1024 + if n % 1024 != 0 { 1usize } else { 0usize },
            ;
            let ghost cur = disk@;
            proof {
                if owed {
                    lemma_count_first(block_at(cur, BLOCK_BITMAP_BLOCK as int), VALID_BLOCKS_IN_GROUP as int);
                }
            }
            let b: u32 = match write_data_block(disk, data, (MAX_DIRECT_BLOCKS + j) * BLOCK_SIZE) {
                Ok(b) => b,
                Err(e) => {
                    return Err(e);
                },
            };
            proof {
                if owed {
                    assert(((MAX_DIRECT_BLOCKS + j) * BLOCK_SIZE) as int == 1024 * (alloc.len() as int));
                    lemma_data_step(cur, disk@, dir_ino, name@, alloc, data@, b);
                    lemma_count_after_set(block_at(cur, BLOCK_BITMAP_BLOCK as int), (b - 1) as int, VALID_BLOCKS_IN_GROUP as int);
                    lemma_free_not_dir(cur, dir_ino, b);
                    lemma_extents_kept(cur, disk@, dir_ino, b);
                }
                if law {
                    assert(((MAX_DIRECT_BLOCKS + j) * BLOCK_SIZE) as int == 1024 * (alloc.len() as int));
                    lemma_data_step(cur, disk@, dir_ino, name@, alloc, data@, b);
                }
                alloc = alloc.push(b);
            }
            ind_ptrs.set(j, b);
            j = j + 1;
        }
        let ghost c0 = disk@;
        proof {
            if owed {
                lemma_count_first(block_at(c0, BLOCK_BITMAP_BLOCK as int), VALID_BLOCKS_IN_GROUP as int);
            }
        }
        let indirect_block_num: u32 = match alloc_block(disk) {
            Ok(b) => b,
            Err(e) => {
                return Err(e);
            },
        };
        let ghost c1 = disk@;
        match write_indirect_block(disk, indirect_block_num, &ind_ptrs) {
            Ok(()) => {},
            Err(e) => {
                return Err(e);
            },
        }
        proof {
            if law {
                lemma_indirect_step(c0, c1, disk@, dir_ino, name@, alloc, data@, indirect_block_num);
            }
            if owed {
                let ind = indirect_block_num;
                assert(block_at(disk@, BLOCK_BITMAP_BLOCK as int) == block_at(c1, BLOCK_BITMAP_BLOCK as int));
                lemma_count_after_set(block_at(c0, BLOCK_BITMAP_BLOCK as int), (ind - 1) as int, VALID_BLOCKS_IN_GROUP as int);
                assert forall|c: int| block_ok(c) && DATA_START_BLOCK <= c && c != ind implies #[trigger] block_at(disk@, c) == block_at(c0, c) by {
                    assert(block_at(disk@, c) == block_at(c1, c));
                }
                lemma_extents_kept(c0, disk@, dir_ino, ind);
            }
        }
        block_ptrs.set(INDIRECT_BLOCK_INDEX, indirect_block_num);
        used_blocks = used_blocks + indirect_data_blocks as u32 + 1;
        proof {
            if law {
                let ptrs = block_ptrs@;
                assert forall|k: int| 0 <= k < 12 implies ptrs.subrange(0, 12)[k] != 0 by {
                    assert(data_block_ok(disk@, alloc[k], data@, k));
                }
                lemma_nonzero_prefix(ptrs.subrange(0, 12), 12);
                assert(ptrs.subrange(0, 12).subrange(0, 12) =~= alloc.subrange(0, 12));
                assert(ptrs[12] == indirect_block_num);
                assert(indirect_ptrs(disk@, indirect_block_num) == ind_ptrs@);
                assert forall|k: int| 0 <= k < indirect_data_blocks implies ind_ptrs@[k] != 0 by {
                    assert(data_block_ok(disk@, alloc[12 + k], data@, 12 + k));
                }
                lemma_nonzero_prefix(ind_ptrs@, indirect_data_blocks as int);
                assert(ind_ptrs@.subrange(0, indirect_data_blocks as int) =~= alloc.subrange(12, nblocks as int));
                assert(alloc.subrange(0, 12) + alloc.subrange(12, nblocks as int) =~= alloc);
                assert(file_blocks(disk@, ptrs) == Some(alloc));
                assert(blocks_written(disk@, dir_ino, name@, alloc, data@, block_ptrs@));
            }
        }
    } else {
        proof {
            if law {
                let ptrs = block_ptrs@;
                assert forall|k: int| 0 <= k < nblocks implies ptrs.subrange(0, 12)[k] != 0 by {
                    assert(data_block_ok(disk@, alloc[k], data@, k));
                }
                lemma_nonzero_prefix(ptrs.subrange(0, 12), nblocks as int);
                assert(ptrs.subrange(0, 12).subrange(0, nblocks as int) =~= alloc);
                assert(blocks_written(disk@, dir_ino, name@, alloc, data@, block_ptrs@));
            }
        }
    }
    assert(law ==> blocks_written(disk@, dir_ino, name@, alloc, data@, block_ptrs@));
    assert(law ==> formatted(disk@));
    assert(law ==> bit_of(block_at(disk@, INODE_BITMAP_BLOCK as int), dir_ino - 1));
    let ghost c3 = disk@;
    proof {
        if owed {
            assert(alloc.len() + if alloc.len() > 12 { 1int } else { 0int } == blocks_taken(data@.len()));
            assert(clear_count(block_at(c3, BLOCK_BITMAP_BLOCK as int), VALID_BLOCKS_IN_GROUP as int) > 0);
        }
    }
    let ino: u32 = match alloc_inode(disk) {
        Ok(i) => i,
        Err(e) => {
            return Err(e);
        },
    };
    proof {
        if law {
            assert(ino != dir_ino);
            lemma_dir_inode_block(dir_ino);
            assert(block_at(disk@, inode_block(dir_ino as int)) == block_at(c3, inode_block(dir_ino as int)));
            assert(block_at(disk@, BLOCK_BITMAP_BLOCK as int) == block_at(c3, BLOCK_BITMAP_BLOCK as int));
            lemma_written_kept(c3, disk@, dir_ino, name@, alloc, data@, block_ptrs@);
        }
        lemma_table_inode(ino as int);
    }
    let ghost c4 = disk@;
    match write_inode(disk, ino, 0o100644, data.len() as u32, 1, block_ptrs.as_slice(), used_blocks) {
        Ok(()) => {},
        Err(e) => {
            return Err(e);
        },
    }
    proof {
        if law {
            assert(block_at(disk@, BLOCK_BITMAP_BLOCK as int) == block_at(c4, BLOCK_BITMAP_BLOCK as int));
            assert(block_at(disk@, SB_BLOCK as int) == block_at(c4, SB_BLOCK as int));
            lemma_written_kept(c4, disk@, dir_ino, name@, alloc, data@, block_ptrs@);
        }
    }
    let ghost c5 = disk@;
    proof {
        if owed {
            lemma_nonzero_contains(inode_ptrs(inode_bytes(old(disk)@, dir_ino as int)).subrange(0, 12), 0);
            assert(dir_blocks(c5, dir_ino) == dir_blocks(c3, dir_ino));
            assert forall|c: int| block_ok(c) && DATA_START_BLOCK <= c && c != 0 implies #[trigger] block_at(c5, c) == block_at(c3, c) by {
                lemma_table_inode(ino as int);
            }
            lemma_extents_kept(c3, c5, dir_ino, 0);
            lemma_count_first(block_at(c5, BLOCK_BITMAP_BLOCK as int), VALID_BLOCKS_IN_GROUP as int);
        }
    }
    let r = add_dirent(disk, dir_ino, name, ino);
    proof {
        if law && r is Ok {
            let ptrs = block_ptrs@;
            assert(inode_bytes(disk@, ino as int) == inode_bytes(c5, ino as int));
            assert forall|k: int| 0 <= k < alloc.len() implies #[trigger] holds_chunk(disk@, alloc[k], data@, k) by {
                assert(data_block_ok(c5, alloc[k], data@, k));
                assert(!dir_blocks(c5, dir_ino).contains(alloc[k]));
                assert(block_at(disk@, alloc[k] as int) == block_at(c5, alloc[k] as int));
            }
            if ptrs[12] != 0 {
                assert(block_at(disk@, ptrs[12] as int) == block_at(c5, ptrs[12] as int));
                assert(indirect_ptrs(disk@, ptrs[12]) =~= indirect_ptrs(c5, ptrs[12]));
            }
            assert(file_blocks(disk@, ptrs) == Some(alloc));
            lemma_new_file_reads(disk@, dir_ino, name@, ino, alloc, data@, ptrs);
        }
    }
    r
}

/// Writes (or replaces) a file of the root directory; a new file reads
/// back as `data`, and so does a replaced one once its old entry is gone.
pub fn write_file(disk: &mut RamDisk, name: &str, data: &[u8], now: u32) -> (r: Result<(), Ext2Error>)
    requires
        old(disk).wf(),
    ensures
        final(disk).wf(),
        !formatted(old(disk)@) ==> (r matches Err(Ext2Error::NotFormatted) && final(disk)@ == old(disk)@),
        formatted(old(disk)@) && !name_ok(name) ==> (r matches Err(Ext2Error::InvalidName) && final(disk)@ == old(disk)@),
        r is Ok ==> blocks_needed(data@.len()) <= MAX_FILE_BLOCKS,
        r is Ok && ready_for_new(old(disk)@, ROOT_INO, name@) ==> formatted(final(disk)@) && file_bytes(final(disk)@, ROOT_INO, name@)
            == Some(data@),
        new_file_fits(old(disk)@, ROOT_INO, name@, data@.len()) ==> r is Ok,
        formatted(old(disk)@) && name_ok(name) && dir_lookup(old(disk)@, ROOT_INO, name@) == Ok::<Option<u32>, ()>(None)
            && blocks_needed(data@.len()) > MAX_FILE_BLOCKS ==> (r matches Err(Ext2Error::FileTooLarge) && final(disk)@ == old(disk)@),
        formatted(old(disk)@) && name_ok(name) && dir_lookup(old(disk)@, ROOT_INO, name@) is Err ==> r is Err && final(disk)@
            == old(disk)@,
        dir_lookup(old(disk)@, ROOT_INO, name@) matches Ok(Some(i)) ==> (r is Ok ==> exists|m1: Seq<u8>, m2: Seq<u8>|
            #![trigger file_freed(old(disk)@, m1, i, now), entry_dropped(m1, m2, ROOT_INO, name@)]
            file_freed(old(disk)@, m1, i, now) && entry_dropped(m1, m2, ROOT_INO, name@) && (ready_for_new(m2, ROOT_INO, name@)
                && formatted(m2) ==> file_bytes(final(disk)@, ROOT_INO, name@) == Some(data@))),
{
    write_file_in(disk, ROOT_INO, name, data, now)
}

/// From `a` to `b` only the bitmaps, the superblock, the group descriptor
/// and inode `ino`'s record changed: every other block, and every other
/// inode, is as it was.
pub open spec fn only_meta_changed(a: Seq<u8>, b: Seq<u8>, ino: u32) -> bool {
    &&& forall|c: int| block_ok(c) && c != BLOCK_BITMAP_BLOCK && c != INODE_BITMAP_BLOCK && c != SB_BLOCK && c != GDT_BLOCK
        && c != inode_block(ino as int) ==> #[trigger] block_at(b, c) == block_at(a, c)
    &&& forall|j: int| inode_ok(j) && j != ino ==> #[trigger] inode_bytes(b, j) == inode_bytes(a, j)
}

/// What deleting inode `ino` (its blocks and itself) leaves: the inode
/// cleared with deletion time `now`, its inode bit and the bits of its
/// data and indirect blocks clear, nothing else changed but the counters.
pub open spec fn file_freed(a: Seq<u8>, b: Seq<u8>, ino: u32, now: u32) -> bool {
    let ptrs = inode_ptrs(inode_bytes(a, ino as int));
    &&& inode_bytes(b, ino as int) == cleared_inode(now)
    &&& !bit_of(block_at(b, INODE_BITMAP_BLOCK as int), ino - 1)
    &&& (file_blocks(a, ptrs) matches Some(bs) && forall|k: int|
        0 <= k < bs.len() ==> !bit_of(block_at(b, BLOCK_BITMAP_BLOCK as int), #[trigger] bs[k] - 1))
    &&& ptrs[12] != 0 ==> !bit_of(block_at(b, BLOCK_BITMAP_BLOCK as int), ptrs[12] - 1)
    &&& only_meta_changed(a, b, ino)
}

/// The entry `name` of directory `dir` in `a` has its inode field zeroed in
/// `b`, and nothing else changed.
pub open spec fn entry_cleared(a: Seq<u8>, b: Seq<u8>, dir: u32, name: Seq<char>) -> bool {
    exists|blk: int, o: int|
        block_ok(blk) && dir_blocks(a, dir).contains(blk as u32) && 0 <= o && o + 8 <= 1024 && dir_lookup(a, dir, name)
            == Ok::<Option<u32>, ()>(Some(le32(block_at(a, blk), o) as u32))
            && b == #[trigger] with_block(a, blk, splice(block_at(a, blk), o, le32_bytes(0)))
}

/// `b` is `a` with the entry `name` of directory `dir` cleared, or `a`
/// itself when `dir` has no such entry.
pub open spec fn entry_dropped(a: Seq<u8>, b: Seq<u8>, dir: u32, name: Seq<char>) -> bool {
    match dir_lookup(a, dir, name) {
        Ok(Some(_)) => entry_cleared(a, b, dir, name),
        Ok(None) => b == a,
        Err(()) => false,
    }
}

/// Deletes a file of the root directory; `now` is its deletion time.
pub fn delete_file(disk: &mut RamDisk, name: &str, now: u32) -> (r: Result<(), Ext2Error>)
    requires
        old(disk).wf(),
    ensures
        final(disk).wf(),
        !formatted(old(disk)@) ==> (r matches Err(Ext2Error::NotFormatted) && final(disk)@ == old(disk)@),
        formatted(old(disk)@) && !name_ok(name) ==> (r matches Err(Ext2Error::InvalidName) && final(disk)@ == old(disk)@),
        formatted(old(disk)@) && name_ok(name) && dir_lookup(old(disk)@, ROOT_INO, name@) == Ok::<Option<u32>, ()>(None) ==> (r
            matches Err(Ext2Error::FileNotFound) && final(disk)@ == old(disk)@),
        formatted(old(disk)@) && name_ok(name) && dir_lookup(old(disk)@, ROOT_INO, name@) is Err ==> (r is Err && final(disk)@
            == old(disk)@),
        formatted(old(disk)@) && name_ok(name) && dir_sound(old(disk)@, ROOT_INO) ==> match dir_lookup(old(disk)@, ROOT_INO, name@) {
            Ok(Some(i)) => i != ROOT_INO && i <= INODES_COUNT && free_owed(old(disk)@, i) ==> r is Ok,
            _ => true,
        },
        r is Ok ==> dir_lookup(old(disk)@, ROOT_INO, name@) matches Ok(Some(_)),
        r is Ok && dir_sound(old(disk)@, ROOT_INO) ==> match dir_lookup(old(disk)@, ROOT_INO, name@) {
            Ok(Some(i)) => i != ROOT_INO && i <= INODES_COUNT ==> exists|mid: Seq<u8>|
                file_freed(old(disk)@, mid, i, now) && #[trigger] entry_cleared(mid, final(disk)@, ROOT_INO, name@)
                    && dir_lookup(mid, ROOT_INO, name@) == dir_lookup(old(disk)@, ROOT_INO, name@),
            _ => true,
        },
{
    if !is_formatted(disk) {
        return Err(Ext2Error::NotFormatted);
    }
    match validate_name(name) {
        Ok(()) => {},
        Err(e) => {
            return Err(e);
        },
    }
    let ino: u32 = match find_in_dir(disk, ROOT_INO, name) {
        Ok(Some((_, _, ino))) => ino,
        Ok(None) => {
            return Err(Ext2Error::FileNotFound);
        },
        Err(e) => {
            return Err(e);
        },
    };
    let ghost d0 = disk@;
    match free_file_blocks(disk, ino, now) {
        Ok(()) => {},
        Err(e) => {
            return Err(e);
        },
    }
    let ghost mid = disk@;
    proof {
        assert(inode_ok(ino as int));
        if dir_sound(d0, ROOT_INO) && ino != ROOT_INO && ino <= INODES_COUNT {
            lemma_table_inode_block(ROOT_INO as int);
            assert(inode_bytes(mid, ROOT_INO as int) == inode_bytes(d0, ROOT_INO as int));
            let bs = dir_blocks(d0, ROOT_INO);
            assert forall|k: int| 0 <= k < bs.len() && block_ok(#[trigger] bs[k] as int) implies block_at(mid, bs[k] as int)
                == block_at(d0, bs[k] as int) by {
                assert(dir_block_sound(d0, bs[k]));
                lemma_table_inode(ino as int);
            }
            lemma_blocks_same(d0, mid, bs, name@, 0);
        }
    }
    let rr = remove_dirent(disk, ROOT_INO, name);
    proof {
        if rr is Ok && dir_lookup(mid, ROOT_INO, name@) is Ok && dir_lookup(mid, ROOT_INO, name@)->Ok_0 is Some {
            let j = dir_lookup(mid, ROOT_INO, name@)->Ok_0->Some_0;
            let (blk, o) = choose|blk: int, o: int|
                block_ok(blk) && dir_blocks(mid, ROOT_INO).contains(blk as u32) && 0 <= o && o + 8 <= 1024 && le32(block_at(mid, blk), o) == j && #[trigger] disk@ == with_block(
                    mid,
                    blk,
                    splice(block_at(mid, blk), o, le32_bytes(0)),
                );
            assert(disk@ == with_block(mid, blk, splice(block_at(mid, blk), o, le32_bytes(0))));
            assert(entry_cleared(mid, disk@, ROOT_INO, name@));
            assert(file_freed(d0, mid, ino, now));
        }
    }
    match rr {
        Ok(_) => Ok(()),
        Err(e) => Err(e),
    }
}


/// Directory `name` can be made in directory `parent`: the volume is
/// formatted, the name is valid and free there, the parent is ready for a
/// new entry (sound, its inode marked used, entries inside their blocks,
/// fewer than twelve blocks), two block bits and an inode bit are clear.
pub open spec fn new_dir_fits(img: Seq<u8>, parent: u32, name: Seq<char>) -> bool {
    &&& formatted(img)
    &&& name_chars_ok(name)
    &&& ready_for_new(img, parent, name)
    &&& dir_extents_ok(img, parent)
    &&& dir_blocks(img, parent).len() < 12
    &&& clear_count(block_at(img, BLOCK_BITMAP_BLOCK as int), VALID_BLOCKS_IN_GROUP as int) >= 2
    &&& first_clear(block_at(img, INODE_BITMAP_BLOCK as int), 0, INODES_COUNT as int) is Some
}

/// The steps of `mkdir_in` before the new entry (an inode taken, a block
/// taken and written, the inode written) leave the parent ready for the
/// entry and a block bit clear.
#[verifier::rlimit(40)]
proof fn lemma_mkdir_ready(d0: Seq<u8>, d1: Seq<u8>, d2: Seq<u8>, d3: Seq<u8>, d4: Seq<u8>, parent: u32, name: &str, ino: u32, b: u32)
    requires
        d0.len() == crate::ramdisk::RAMDISK_SIZE,
        d4.len() == crate::ramdisk::RAMDISK_SIZE,
        new_dir_fits(d0, parent, name@),
        1 <= ino <= INODES_COUNT,
        !bit_of(block_at(d0, INODE_BITMAP_BLOCK as int), ino - 1),
        forall|c: int| block_ok(c) && c != INODE_BITMAP_BLOCK && c != SB_BLOCK && c != GDT_BLOCK ==> #[trigger] block_at(d1, c)
            == block_at(d0, c),
        1 <= b <= VALID_BLOCKS_IN_GROUP,
        block_ok(b as int),
        !bit_of(block_at(d1, BLOCK_BITMAP_BLOCK as int), b - 1),
        block_at(d2, BLOCK_BITMAP_BLOCK as int) == set_bit(block_at(d1, BLOCK_BITMAP_BLOCK as int), b - 1, true),
        forall|c: int| block_ok(c) && c != BLOCK_BITMAP_BLOCK && c != SB_BLOCK && c != GDT_BLOCK ==> #[trigger] block_at(d2, c)
            == block_at(d1, c),
        forall|c: int| block_ok(c) && c != b ==> #[trigger] block_at(d3, c) == block_at(d2, c),
        forall|c: int| block_ok(c) && c != inode_block(ino as int) ==> #[trigger] block_at(d4, c) == block_at(d3, c),
        forall|j: int| inode_ok(j) && j != ino ==> #[trigger] inode_bytes(d4, j) == inode_bytes(d3, j),
    ensures
        dir_sound(d4, parent),
        dir_extents_ok(d4, parent),
        dir_blocks(d4, parent) == dir_blocks(d0, parent),
        first_clear(block_at(d4, BLOCK_BITMAP_BLOCK as int), 0, VALID_BLOCKS_IN_GROUP as int) is Some,
{
    lemma_table_inode(ino as int);
    assert(ino != parent) by {
        assert(bit_of(block_at(d0, INODE_BITMAP_BLOCK as int), parent - 1));
    }
    let bm0 = block_at(d0, BLOCK_BITMAP_BLOCK as int);
    assert(block_at(d1, BLOCK_BITMAP_BLOCK as int) == bm0);
    assert(block_at(d4, BLOCK_BITMAP_BLOCK as int) == block_at(d2, BLOCK_BITMAP_BLOCK as int)) by {
        assert(b >= DATA_START_BLOCK) by {
            if b < DATA_START_BLOCK {
                assert(bit_of(bm0, b - 1));
            }
        }
    }
    assert(b >= DATA_START_BLOCK) by {
        if b < DATA_START_BLOCK {
            assert(bit_of(bm0, b - 1));
        }
    }
    lemma_table_inode_block(parent as int);
    assert(inode_bytes(d4, parent as int) == inode_bytes(d0, parent as int)) by {
        assert(inode_bytes(d4, parent as int) == inode_bytes(d3, parent as int));
        assert(block_at(d3, inode_block(parent as int)) == block_at(d0, inode_block(parent as int)));
    }
    assert forall|i: int| 0 <= i < 8192 && #[trigger] bit_of(bm0, i) implies bit_of(block_at(d4, BLOCK_BITMAP_BLOCK as int), i) by {
        lemma_set_bit(bm0, b - 1, i);
    }
    assert(bits_kept(d0, d4));
    assert forall|c: int| block_ok(c) && DATA_START_BLOCK <= c && c != b implies #[trigger] block_at(d4, c) == block_at(d0, c) by {
        assert(block_at(d4, c) == block_at(d3, c));
    }
    lemma_ready_kept(d0, d4, parent, name@, b as int);
    lemma_free_not_dir(d0, parent, b);
    lemma_extents_kept(d0, d4, parent, b);
    lemma_count_after_set(bm0, (b - 1) as int, VALID_BLOCKS_IN_GROUP as int);
    lemma_count_first(block_at(d4, BLOCK_BITMAP_BLOCK as int), VALID_BLOCKS_IN_GROUP as int);
}

/// Mode bits of a directory.
pub open spec fn is_dir_mode(mode: u16) -> bool {
    mode & 0xF000 == 0x4000
}

/// Creates directory `name` in directory `parent_ino` with "." and "..",
/// bumps the parent's link count and the group's directory count, and
/// returns its inode. An existing directory of that name is returned as
/// it is; an existing file of that name makes the name invalid.
pub fn mkdir_in(disk: &mut RamDisk, parent_ino: u32, name: &str) -> (r: Result<u32, Ext2Error>)
    requires
        old(disk).wf(),
    ensures
        final(disk).wf(),
        !formatted(old(disk)@) ==> (r matches Err(Ext2Error::NotFormatted) && final(disk)@ == old(disk)@),
        formatted(old(disk)@) && !name_ok(name) ==> (r matches Err(Ext2Error::InvalidName) && final(disk)@ == old(disk)@),
        formatted(old(disk)@) && name_ok(name) ==> match dir_lookup(old(disk)@, parent_ino, name@) {
            Err(()) => r is Err && final(disk)@ == old(disk)@,
            Ok(Some(i)) => final(disk)@ == old(disk)@ && if !inode_ok(i as int) {
                r is Err
            } else if is_dir_mode(le16(inode_bytes(old(disk)@, i as int), 0) as u16) {
                r == Ok::<u32, Ext2Error>(i)
            } else {
                r == Err::<u32, Ext2Error>(Ext2Error::InvalidName)
            },
            Ok(None) => true,
        },
        new_dir_fits(old(disk)@, parent_ino, name@) ==> r == Ok::<u32, Ext2Error>(
            (first_clear(block_at(old(disk)@, INODE_BITMAP_BLOCK as int), 0, INODES_COUNT as int)->0 + 1) as u32,
        ),
{
    if !is_formatted(disk) {
        return Err(Ext2Error::NotFormatted);
    }
    match validate_name(name) {
        Ok(()) => {},
        Err(e) => {
            return Err(e);
        },
    }
    let ghost d0 = disk@;
    let ghost owed = new_dir_fits(d0, parent_ino, name@);
    match find_in_dir(disk, parent_ino, name) {
        Ok(Some((_, _, ino))) => {
            let existing: Inode = match read_inode(disk, ino) {
                Ok(n) => n,
                Err(e) => {
                    return Err(e);
                },
            };
            if existing.mode & 0xF000 == 0x4000 {
                return Ok(ino);
            }
            return Err(Ext2Error::InvalidName);
        },
        Ok(None) => {},
        Err(e) => {
            return Err(e);
        },
    }
    let new_ino: u32 = match alloc_inode(disk) {
        Ok(i) => i,
        Err(e) => {
            return Err(e);
        },
    };
    let ghost d1 = disk@;
    proof {
        if owed {
            lemma_count_first(block_at(d1, BLOCK_BITMAP_BLOCK as int), VALID_BLOCKS_IN_GROUP as int);
        }
    }
    let block: u32 = match alloc_block(disk) {
        Ok(b) => b,
        Err(e) => {
            return Err(e);
        },
    };
    let ghost d2 = disk@;
    let buf: Vec<u8> = dir_block_bytes(new_ino, parent_ino, false);
    match write_block(disk, block, buf.as_slice()) {
        Ok(()) => {},
        Err(e) => {
            return Err(e);
        },
    }
    let ghost d3 = disk@;
    let mut ptrs: Vec<u32> = vec![0u32; 15];
    ptrs.set(0, block);
    proof {
        lemma_table_inode(new_ino as int);
    }
    match write_inode(disk, new_ino, 0o040755, BLOCK_SIZE as u32, 2, ptrs.as_slice(), 1) {
        Ok(()) => {},
        Err(e) => {
            return Err(e);
        },
    }
    let ghost d4 = disk@;
    proof {
        if owed {
            assert forall|c: int| block_ok(c) && c != block implies #[trigger] block_at(d3, c) == block_at(d2, c) by {
                lemma_other_block(d2, block as int, buf@, c);
            }
            lemma_mkdir_ready(d0, d1, d2, d3, d4, parent_ino, name, new_ino, block);
        }
    }
    match add_dirent(disk, parent_ino, name, new_ino) {
        Ok(()) => {},
        Err(e) => {
            return Err(e);
        },
    }
    let parent: Inode = match read_inode(disk, parent_ino) {
        Ok(n) => n,
        Err(e) => {
            return Err(e);
        },
    };
    let mut pused: u32 = 0;
    let mut k: usize = 0;
    while k < parent.block_ptrs.len()
        invariant
            parent.block_ptrs@.len() == 15,
            k <= 15,
            pused <= k,
        decreases 15 - k,
    {
        if parent.block_ptrs[k] != 0 {
            pused = pused + 1;
        }
        k = k + 1;
    }
    match write_inode(disk, parent_ino, parent.mode, parent.size, parent.links_count.saturating_add(1), parent.block_ptrs.as_slice(), pused) {
        Ok(()) => {},
        Err(e) => {
            return Err(e);
        },
    }
    match read_block(disk, GDT_BLOCK) {
        Ok(g) => {
            let mut gdt: Vec<u8> = g;
            let dirs: u16 = rd_le16(gdt.as_slice(), 16).saturating_add(1);
            put_le16(&mut gdt, 16, dirs);
            let _ = write_block(disk, GDT_BLOCK, gdt.as_slice());
        },
        Err(_) => {},
    }
    Ok(new_ino)
}

/// The directory reached from `dir` through the components `parts[i..]`
/// but the last, each an existing directory; `None` when one is missing,
/// is no directory, or cannot be read.
pub open spec fn path_dir(img: Seq<u8>, dir: u32, parts: Seq<Seq<char>>, i: int) -> Option<u32>
    decreases parts.len() - i,
{
    if i < 0 || i >= parts.len() - 1 {
        Some(dir)
    } else {
        match dir_lookup(img, dir, parts[i]) {
            Ok(Some(ino)) => if inode_ok(ino as int) && is_dir_mode(le16(inode_bytes(img, ino as int), 0) as u16) {
                path_dir(img, ino, parts, i + 1)
            } else {
                None
            },
            _ => None,
        }
    }
}

/// The bytes `read_inode_data` gives for inode `ino`: its direct blocks,
/// cut at its size; `None` when it cannot be read.
pub open spec fn direct_data(img: Seq<u8>, ino: u32) -> Option<Seq<u8>> {
    if !inode_ok(ino as int) {
        None
    } else {
        let raw = inode_bytes(img, ino as int);
        if le32(raw, 4) > MAX_READ_SIZE {
            None
        } else {
            blocks_data(img, nonzero(inode_ptrs(raw).subrange(0, 12)), 0, le32(raw, 4) as nat)
        }
    }
}

/// A name that may be stored, as characters.
pub open spec fn name_chars_ok(n: Seq<char>) -> bool {
    &&& n.len() > 0
    &&& vstd::utf8::encode_utf8(n).len() <= 55
    &&& !n.contains('/')
    &&& !n.contains('\0')
}

/// The path has a component to name and at most `MAX_PATH_DEPTH` of them.
pub open spec fn path_ok(path: &str) -> bool {
    0 < path_parts(path@).len() <= MAX_PATH_DEPTH
}

/// Walks the existing directories of the path up to its last component.
fn lookup_parent(disk: &RamDisk, path: &str) -> (r: Result<(u32, String), Ext2Error>)
    requires
        disk.wf(),
    ensures
        !path_ok(path) ==> r matches Err(Ext2Error::InvalidName),
        r matches Ok((d, last)) ==> path_ok(path) && last@ == path_parts(path@).last(),
        path_ok(path) ==> match path_dir(disk@, ROOT_INO, path_parts(path@), 0) {
            Some(d) => r matches Ok((dd, _)) && dd == d,
            None => r is Err,
        },
{
    let parts: Vec<String> = split_path(path);
    let n: usize = parts.len();
    if n == 0 || n > MAX_PATH_DEPTH {
        return Err(Ext2Error::InvalidName);
    }
    let mut dir: u32 = ROOT_INO;
    let mut i: usize = 0;
    while i < n - 1
        invariant
            disk.wf(),
            n == parts@.len(),
            1 <= n <= MAX_PATH_DEPTH,
            views(parts@) == path_parts(path@),
            i <= n - 1,
            path_dir(disk@, ROOT_INO, path_parts(path@), 0) == path_dir(disk@, dir, path_parts(path@), i as int),
        decreases n - 1 - i,
    {
        assert(views(parts@)[i as int] == parts@[i as int]@);
        match find_in_dir(disk, dir, parts[i].as_str()) {
            Ok(Some((_, _, ino))) => {
                let node: Inode = match read_inode(disk, ino) {
                    Ok(x) => x,
                    Err(e) => {
                        return Err(e);
                    },
                };
                if node.mode & 0xF000 != 0x4000 {
                    return Err(Ext2Error::InvalidName);
                }
                dir = ino;
            },
            Ok(None) => {
                return Err(Ext2Error::FileNotFound);
            },
            Err(e) => {
                return Err(e);
            },
        }
        i = i + 1;
    }
    let last: String = crate::text::string_of(parts[n - 1].as_str());
    assert(views(parts@)[n - 1] == parts@[n - 1]@);
    Ok((dir, last))
}

/// The directory holding the path's last component, and that component.
/// With `create`, missing directories on the way are made (`mkdir -p`);
/// without it the volume is left as it is.
pub fn resolve_parent(disk: &mut RamDisk, path: &str, create: bool) -> (r: Result<(u32, String), Ext2Error>)
    requires
        old(disk).wf(),
    ensures
        final(disk).wf(),
        !path_ok(path) ==> (r matches Err(Ext2Error::InvalidName) && final(disk)@ == old(disk)@),
        !create ==> final(disk)@ == old(disk)@,
        r matches Ok((d, last)) ==> path_ok(path) && last@ == path_parts(path@).last(),
        path_ok(path) ==> match path_dir(old(disk)@, ROOT_INO, path_parts(path@), 0) {
            Some(d) => final(disk)@ == old(disk)@ && (r matches Ok((dd, _)) && dd == d),
            None => true,
        },
        !create && path_ok(path) && path_dir(old(disk)@, ROOT_INO, path_parts(path@), 0) is None ==> r is Err,
{
    if !create {
        return lookup_parent(disk, path);
    }
    let parts: Vec<String> = split_path(path);
    let n: usize = parts.len();
    if n == 0 || n > MAX_PATH_DEPTH {
        return Err(Ext2Error::InvalidName);
    }
    let mut dir: u32 = ROOT_INO;
    let mut i: usize = 0;
    while i < n - 1
        invariant
            disk.wf(),
            n == parts@.len(),
            1 <= n <= MAX_PATH_DEPTH,
            views(parts@) == path_parts(path@),
            i <= n - 1,
            create,
            path_dir(old(disk)@, ROOT_INO, path_parts(path@), 0) is Some ==> disk@ == old(disk)@ && path_dir(
                old(disk)@,
                ROOT_INO,
                path_parts(path@),
                0,
            ) == path_dir(old(disk)@, dir, path_parts(path@), i as int),
        decreases n - 1 - i,
    {
        assert(views(parts@)[i as int] == parts@[i as int]@);
        match find_in_dir(disk, dir, parts[i].as_str()) {
            Ok(Some((_, _, ino))) => {
                let node: Inode = match read_inode(disk, ino) {
                    Ok(x) => x,
                    Err(e) => {
                        return Err(e);
                    },
                };
                if node.mode & 0xF000 != 0x4000 {
                    return Err(Ext2Error::InvalidName);
                }
                dir = ino;
            },
            Ok(None) => {
                dir = match mkdir_in(disk, dir, parts[i].as_str()) {
                    Ok(d) => d,
                    Err(e) => {
                        return Err(e);
                    },
                };
            },
            Err(e) => {
                return Err(e);
            },
        }
        i = i + 1;
    }
    let last: String = crate::text::string_of(parts[n - 1].as_str());
    assert(views(parts@)[n - 1] == parts@[n - 1]@);
    Ok((dir, last))
}

/// `mkdir -p`: creates every directory of the path.
pub fn mkdir_p(disk: &mut RamDisk, path: &str) -> (r: Result<u32, Ext2Error>)
    requires
        old(disk).wf(),
    ensures
        final(disk).wf(),
        !path_ok(path) ==> (r matches Err(Ext2Error::InvalidName) && final(disk)@ == old(disk)@),
        path_ok(path) && formatted(old(disk)@) ==> match path_dir(old(disk)@, ROOT_INO, path_parts(path@), 0) {
            None => true,
            Some(d) => {
                let last = path_parts(path@).last();
                &&& new_dir_fits(old(disk)@, d, last) ==> r == Ok::<u32, Ext2Error>(
                    (first_clear(block_at(old(disk)@, INODE_BITMAP_BLOCK as int), 0, INODES_COUNT as int)->0 + 1) as u32,
                )
                &&& name_chars_ok(last) ==> match dir_lookup(old(disk)@, d, last) {
                    Ok(Some(i)) => final(disk)@ == old(disk)@ && (inode_ok(i as int) && is_dir_mode(
                        le16(inode_bytes(old(disk)@, i as int), 0) as u16,
                    ) ==> r == Ok::<u32, Ext2Error>(i)) && (inode_ok(i as int) && !is_dir_mode(
                        le16(inode_bytes(old(disk)@, i as int), 0) as u16,
                    ) ==> r == Err::<u32, Ext2Error>(Ext2Error::InvalidName)),
                    _ => true,
                }
            },
        },
{
    let (parent, last) = match resolve_parent(disk, path, true) {
        Ok(x) => x,
        Err(e) => {
            return Err(e);
        },
    };
    mkdir_in(disk, parent, last.as_str())
}

/// `mkdir`: the same as `mkdir_p`.
pub fn mkdir(disk: &mut RamDisk, path: &str) -> (r: Result<u32, Ext2Error>)
    requires
        old(disk).wf(),
    ensures
        final(disk).wf(),
        !path_ok(path) ==> (r matches Err(Ext2Error::InvalidName) && final(disk)@ == old(disk)@),
        path_ok(path) && formatted(old(disk)@) ==> match path_dir(old(disk)@, ROOT_INO, path_parts(path@), 0) {
            None => true,
            Some(d) => {
                let last = path_parts(path@).last();
                &&& new_dir_fits(old(disk)@, d, last) ==> r == Ok::<u32, Ext2Error>(
                    (first_clear(block_at(old(disk)@, INODE_BITMAP_BLOCK as int), 0, INODES_COUNT as int)->0 + 1) as u32,
                )
                &&& name_chars_ok(last) ==> match dir_lookup(old(disk)@, d, last) {
                    Ok(Some(i)) => final(disk)@ == old(disk)@ && (inode_ok(i as int) && is_dir_mode(
                        le16(inode_bytes(old(disk)@, i as int), 0) as u16,
                    ) ==> r == Ok::<u32, Ext2Error>(i)) && (inode_ok(i as int) && !is_dir_mode(
                        le16(inode_bytes(old(disk)@, i as int), 0) as u16,
                    ) ==> r == Err::<u32, Ext2Error>(Ext2Error::InvalidName)),
                    _ => true,
                }
            },
        },
{
    mkdir_p(disk, path)
}

/// Entries of the directory at `path` ("/" is the root), without "." and
/// "..".
pub fn list_dir_path(disk: &RamDisk, path: &str) -> (r: Result<Vec<FileEntry>, Ext2Error>)
    requires
        disk.wf(),
    ensures
        !formatted(disk@) ==> r matches Err(Ext2Error::NotFormatted),
        formatted(disk@) && path_parts(path@).len() > MAX_PATH_DEPTH ==> r matches Err(Ext2Error::InvalidName),
        formatted(disk@) && path_parts(path@).len() == 0 ==> match listing(disk@, ROOT_INO, false) {
            None => r is Err,
            Some(l) => r matches Ok(v) && entry_views(v@) == l,
        },
        formatted(disk@) && path_ok(path) ==> match path_dir(disk@, ROOT_INO, path_parts(path@), 0) {
            None => r is Err,
            Some(p) => match dir_lookup(disk@, p, path_parts(path@).last()) {
                Err(()) => r is Err,
                Ok(None) => r matches Err(Ext2Error::FileNotFound),
                Ok(Some(ino)) => match listing(disk@, ino, false) {
                    None => r is Err,
                    Some(l) => r matches Ok(v) && entry_views(v@) == l,
                },
            },
        },
{
    if !is_formatted(disk) {
        return Err(Ext2Error::NotFormatted);
    }
    let parts: Vec<String> = split_path(path);
    let dir_ino: u32 = if parts.len() == 0 {
        ROOT_INO
    } else {
        let (parent, last) = match lookup_parent(disk, path) {
            Ok(x) => x,
            Err(e) => {
                return Err(e);
            },
        };
        match find_in_dir(disk, parent, last.as_str()) {
            Ok(Some((_, _, ino))) => ino,
            Ok(None) => {
                return Err(Ext2Error::FileNotFound);
            },
            Err(e) => {
                return Err(e);
            },
        }
    };
    list_entries(disk, dir_ino, false)
}

/// Writes the file at `path`, making missing directories; `now` stamps
/// the deletion of a replaced file's inode.
pub fn write_file_path(disk: &mut RamDisk, path: &str, data: &[u8], now: u32) -> (r: Result<(), Ext2Error>)
    requires
        old(disk).wf(),
    ensures
        final(disk).wf(),
        !path_ok(path) ==> (r matches Err(Ext2Error::InvalidName) && final(disk)@ == old(disk)@),
        path_ok(path) ==> match path_dir(old(disk)@, ROOT_INO, path_parts(path@), 0) {
            None => true,
            Some(d) => {
                let last = path_parts(path@).last();
                &&& new_file_fits(old(disk)@, d, last, data@.len()) ==> r is Ok
                &&& r is Ok && ready_for_new(old(disk)@, d, last) ==> formatted(final(disk)@) && file_bytes(final(disk)@, d, last)
                    == Some(data@)
            },
        },
{
    let (dir_ino, name) = match resolve_parent(disk, path, true) {
        Ok(x) => x,
        Err(e) => {
            return Err(e);
        },
    };
    if dir_ino == ROOT_INO {
        return write_file(disk, name.as_str(), data, now);
    }
    write_file_in(disk, dir_ino, name.as_str(), data, now)
}

/// Reads the file at `path`.
pub fn read_file_path(disk: &RamDisk, path: &str) -> (r: Result<Vec<u8>, Ext2Error>)
    requires
        disk.wf(),
    ensures
        !path_ok(path) ==> r matches Err(Ext2Error::InvalidName),
        r matches Ok(d) ==> d@.len() <= MAX_READ_SIZE,
        path_ok(path) ==> match path_dir(disk@, ROOT_INO, path_parts(path@), 0) {
            None => r is Err,
            Some(d) => {
                let last = path_parts(path@).last();
                if d == ROOT_INO {
                    formatted(disk@) && name_chars_ok(last) ==> match dir_lookup(disk@, ROOT_INO, last) {
                        Ok(None) => r matches Err(Ext2Error::FileNotFound),
                        _ => (file_bytes(disk@, ROOT_INO, last) matches Some(x) ==> r matches Ok(v) && v@ == x),
                    }
                } else {
                    match dir_lookup(disk@, d, last) {
                        Err(()) => r is Err,
                        Ok(None) => r matches Err(Ext2Error::FileNotFound),
                        Ok(Some(ino)) => match direct_data(disk@, ino) {
                            None => r is Err,
                            Some(x) => r matches Ok(v) && v@ == x,
                        },
                    }
                }
            },
        },
{
    let (dir_ino, name) = match lookup_parent(disk, path) {
        Ok(x) => x,
        Err(e) => {
            return Err(e);
        },
    };
    if dir_ino == ROOT_INO {
        return read_file(disk, name.as_str());
    }
    let ino: u32 = match find_in_dir(disk, dir_ino, name.as_str()) {
        Ok(Some((_, _, ino))) => ino,
        Ok(None) => {
            return Err(Ext2Error::FileNotFound);
        },
        Err(e) => {
            return Err(e);
        },
    };
    read_inode_data(disk, ino)
}

/// Deletes the file at `path`; `now` is the deletion time of a file of
/// the root directory.
/// Deletes file `name` of directory `dir_ino` (not the root): frees its
/// direct blocks and its inode and clears its entry.
#[verifier::spinoff_prover]
#[verifier::rlimit(60)]
fn delete_in_dir(disk: &mut RamDisk, dir_ino: u32, name: &str) -> (r: Result<(), Ext2Error>)
    requires
        old(disk).wf(),
    ensures
        final(disk).wf(),
        match dir_lookup(old(disk)@, dir_ino, name@) {
            Err(()) => r is Err && final(disk)@ == old(disk)@,
            Ok(None) => r matches Err(Ext2Error::FileNotFound) && final(disk)@ == old(disk)@,
            Ok(Some(i)) => dir_sound(old(disk)@, dir_ino) && inode_ok(i as int) ==> {
                &&& r is Ok
                &&& !bit_of(block_at(final(disk)@, INODE_BITMAP_BLOCK as int), i - 1)
                &&& exists|mid: Seq<u8>| #[trigger] entry_cleared(mid, final(disk)@, dir_ino, name@) && dir_lookup(mid, dir_ino, name@)
                    == dir_lookup(old(disk)@, dir_ino, name@)
            },
        },
{
    let ino: u32 = match find_in_dir(disk, dir_ino, name) {
        Ok(Some((_, _, ino))) => ino,
        Ok(None) => {
            return Err(Ext2Error::FileNotFound);
        },
        Err(e) => {
            return Err(e);
        },
    };
    let inode: Inode = match read_inode(disk, ino) {
        Ok(n) => n,
        Err(e) => {
            return Err(e);
        },
    };
    let ghost d0 = disk@;
    let blocks: Vec<u32> = dir_block_ptrs(&inode);
    let mut k: usize = 0;
    while k < blocks.len()
        invariant
            disk.wf(),
            k <= blocks@.len(),
            forall|c: int| block_ok(c) && c != BLOCK_BITMAP_BLOCK && c != SB_BLOCK && c != GDT_BLOCK ==> #[trigger] block_at(disk@, c)
                == block_at(d0, c),
        decreases blocks@.len() - k,
    {
        let _ = free_block(disk, blocks[k]);
        k = k + 1;
    }
    let ghost d1 = disk@;
    match free_inode(disk, ino) {
        Ok(()) => {},
        Err(e) => {
            return Err(e);
        },
    }
    let ghost mid = disk@;
    proof {
        lemma_clear_bit(block_at(d1, INODE_BITMAP_BLOCK as int), ino - 1, ino - 1);
        if dir_sound(d0, dir_ino) {
            lemma_table_inode_block(dir_ino as int);
            assert(inode_bytes(mid, dir_ino as int) == inode_bytes(d0, dir_ino as int));
            let bs = dir_blocks(d0, dir_ino);
            assert forall|kk: int| 0 <= kk < bs.len() && block_ok(#[trigger] bs[kk] as int) implies block_at(mid, bs[kk] as int)
                == block_at(d0, bs[kk] as int) by {
                assert(dir_block_sound(d0, bs[kk]));
            }
            lemma_blocks_same(d0, mid, bs, name@, 0);
        }
    }
    let rr = remove_dirent(disk, dir_ino, name);
    proof {
        if rr is Ok && dir_lookup(mid, dir_ino, name@) is Ok && dir_lookup(mid, dir_ino, name@)->Ok_0 is Some {
            let j = dir_lookup(mid, dir_ino, name@)->Ok_0->Some_0;
            let (blk, o) = choose|blk: int, o: int|
                block_ok(blk) && dir_blocks(mid, dir_ino).contains(blk as u32) && 0 <= o && o + 8 <= 1024 && le32(block_at(mid, blk), o) == j && #[trigger] disk@ == with_block(
                    mid,
                    blk,
                    splice(block_at(mid, blk), o, le32_bytes(0)),
                );
            assert(disk@ == with_block(mid, blk, splice(block_at(mid, blk), o, le32_bytes(0))));
            assert(entry_cleared(mid, disk@, dir_ino, name@));
            if dir_sound(d0, dir_ino) {
                assert(dir_blocks(mid, dir_ino) == dir_blocks(d0, dir_ino));
                let q = choose|q: int| 0 <= q < dir_blocks(d0, dir_ino).len() && dir_blocks(d0, dir_ino)[q] == blk as u32;
                assert(dir_block_sound(d0, dir_blocks(d0, dir_ino)[q]));
                lemma_other_block(mid, blk, splice(block_at(mid, blk), o, le32_bytes(0)), INODE_BITMAP_BLOCK as int);
            }
        }
    }
    match rr {
        Ok(_) => Ok(()),
        Err(e) => Err(e),
    }
}

pub fn delete_file_path(disk: &mut RamDisk, path: &str, now: u32) -> (r: Result<(), Ext2Error>)
    requires
        old(disk).wf(),
    ensures
        final(disk).wf(),
        !path_ok(path) ==> (r matches Err(Ext2Error::InvalidName) && final(disk)@ == old(disk)@),
        path_ok(path) ==> match path_dir(old(disk)@, ROOT_INO, path_parts(path@), 0) {
            None => r is Err && final(disk)@ == old(disk)@,
            Some(d) => {
                let last = path_parts(path@).last();
                d != ROOT_INO ==> match dir_lookup(old(disk)@, d, last) {
                    Err(()) => r is Err && final(disk)@ == old(disk)@,
                    Ok(None) => r matches Err(Ext2Error::FileNotFound) && final(disk)@ == old(disk)@,
                    Ok(Some(i)) => dir_sound(old(disk)@, d) && inode_ok(i as int) ==> {
                        &&& r is Ok
                        &&& !bit_of(block_at(final(disk)@, INODE_BITMAP_BLOCK as int), i - 1)
                        &&& exists|mid: Seq<u8>| #[trigger] entry_cleared(mid, final(disk)@, d, last) && dir_lookup(mid, d, last)
                            == dir_lookup(old(disk)@, d, last)
                    },
                }
            },
        },
{
    let ghost d_start = disk@;
    let (dir_ino, name) = match lookup_parent(disk, path) {
        Ok(x) => x,
        Err(e) => {
            return Err(e);
        },
    };
    if dir_ino == ROOT_INO {
        return delete_file(disk, name.as_str(), now);
    }
    assert(name@ == path_parts(path@).last());
    delete_in_dir(disk, dir_ino, name.as_str())
}

} // verus!
