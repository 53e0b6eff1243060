//! The installer's writers: the MBR with the /system and /userdata
//! partitions, the boot area, an ext2 volume for /system at LBA 4096 (with
//! its own geometry: 4096 blocks, 1024 inodes) and the /userdata volume at
//! LBA 12800, and the account database written onto the target disk.
use vstd::prelude::*;
use crate::bytes::{le16, le32, le16_bytes, le32_bytes, splice, rd_le16, rd_le32, put_le16, put_le32};
use crate::ext2::{bit_of, set_bit, first_clear, block_lookup, walk_ok, reach, dirent_len, clear_count, lemma_count_first,
    lemma_count_after_set, lemma_count_same_below};
use crate::ramdisk::{RamDisk, RAMDISK_SECTORS, sectors};
use vstd::string::StringSliceAdditionalSpecFns;

verus! {

/// Sectors of the boot loader and kernel area.
pub const KERNEL_AREA_SECTORS: u32 = 3500;
/// First sector of the /system volume.
pub const FS_START_LBA: u32 = 4096;
/// Sectors of the /system volume.
pub const FS_TOTAL_SECTORS: u32 = 8192;
/// Blocks of the /system volume.
pub const FS_TOTAL_BLOCKS: u32 = 4096;
/// Partition 1, /system: first sector and sector count.
pub const PART_SYSTEM_START: u32 = 4096;
pub const PART_SYSTEM_SECTORS: u32 = 8704;
/// Partition 2, /userdata: first sector and sector count.
pub const PART_USERDATA_START: u32 = 12800;
pub const PART_USERDATA_SECTORS: u32 = 5632;

pub const BLOCK: usize = 1024;
pub const SPB: u32 = 2;
pub const INODE_SIZE: usize = 128;
pub const EXT2_MAGIC: u16 = 0xEF53;
pub const SB_BLOCK: u32 = 1;
pub const GDT_BLOCK: u32 = 2;
pub const BLOCK_BITMAP: u32 = 3;
pub const INODE_BITMAP: u32 = 4;
pub const INODE_TABLE_START: u32 = 5;

/// Bytes of block `b` of the volume starting at sector `base`.
pub open spec fn vol_block(img: Seq<u8>, base: int, b: int) -> Seq<u8> {
    img.subrange((base + 2 * b) * 512, (base + 2 * b) * 512 + 1024)
}

/// Block `b` of the volume at `base` lies on the disk image.
pub open spec fn vol_ok(base: int, b: int) -> bool {
    0 <= b && base + 2 * b + 2 <= RAMDISK_SECTORS
}

/// Block `b` of the /system volume.
pub open spec fn sys_block(img: Seq<u8>, b: int) -> Seq<u8> {
    vol_block(img, FS_START_LBA as int, b)
}

/// Inodes of the /system volume: one per 4 KiB, at least 32, rounded up
/// to a multiple of 8.
pub fn inodes_count() -> (r: u32)
    ensures
        r == 1024,
{
    let per_4k: u32 = FS_TOTAL_BLOCKS * 1024 / 4096;
    let raw: u32 = if per_4k < 32 { 32 } else { per_4k };
    (raw + 7) / 8 * 8
}

/// Blocks of the inode table.
pub fn inode_table_blocks() -> (r: u32)
    ensures
        r == 128,
{
    ((inodes_count() as usize * INODE_SIZE + BLOCK - 1) / BLOCK) as u32
}

/// First data block (the root directory's block).
pub fn data_start_block() -> (r: u32)
    ensures
        r == 133,
{
    INODE_TABLE_START + inode_table_blocks()
}

/// First sector of block `block` of the /system volume.
pub fn block_lba(block: u32) -> (r: u32)
    requires
        block <= 0x7FFF_0000,
    ensures
        r == FS_START_LBA + 2 * block,
{
    FS_START_LBA + block * SPB
}

/// Changing block `b` leaves block `c` as it was.
proof fn lemma_vol_other(img: Seq<u8>, base: int, b: int, d: Seq<u8>, c: int)
    requires
        img.len() == crate::ramdisk::RAMDISK_SIZE,
        d.len() == 1024,
        vol_ok(base, b),
        vol_ok(base, c),
        0 <= base,
        b != c,
    ensures
        vol_block(splice(img, (base + 2 * b) * 512, d), base, c) == vol_block(img, base, c),
        vol_block(splice(img, (base + 2 * b) * 512, d), base, b) == d,
        splice(img, (base + 2 * b) * 512, d).len() == img.len(),
{
    assert(vol_block(splice(img, (base + 2 * b) * 512, d), base, c) =~= vol_block(img, base, c));
    assert(vol_block(splice(img, (base + 2 * b) * 512, d), base, b) =~= d);
}

/// Reads block `block` of the volume at sector `base`.
fn read_vol_block(drive: &RamDisk, base: u32, block: u32) -> (r: Vec<u8>)
    requires
        drive.wf(),
        vol_ok(base as int, block as int),
    ensures
        r@ == vol_block(drive@, base as int, block as int),
{
    let mut buf: Vec<u8> = crate::bytes::zeros(BLOCK);
    let _ = drive.read_sectors(base + block * SPB, SPB as u8, &mut buf);
    assert(buf@ =~= vol_block(drive@, base as int, block as int));
    buf
}

/// Writes block `block` of the volume at sector `base`.
fn write_vol_block(drive: &mut RamDisk, base: u32, block: u32, data: &[u8])
    requires
        old(drive).wf(),
        vol_ok(base as int, block as int),
        data@.len() == BLOCK,
    ensures
        final(drive).wf(),
        final(drive)@ == splice(old(drive)@, (base + 2 * block) * 512, data@),
        vol_block(final(drive)@, base as int, block as int) == data@,
        forall|c: int| vol_ok(base as int, c) && c != block ==> #[trigger] vol_block(final(drive)@, base as int, c) == vol_block(
            old(drive)@,
            base as int,
            c,
        ),
{
    let ghost d0 = drive@;
    let _ = drive.write_sectors(base + block * SPB, SPB as u8, data);
    proof {
        assert(data@.subrange(0, 1024) =~= data@);
        assert forall|c: int| vol_ok(base as int, c) && c != block implies #[trigger] vol_block(drive@, base as int, c) == vol_block(
            d0,
            base as int,
            c,
        ) by {
            lemma_vol_other(d0, base as int, block as int, data@, c);
        }
        assert(vol_block(drive@, base as int, block as int) =~= data@);
    }
}

/// Reads block `block` of the /system volume.
fn read_block(drive: &RamDisk, block: u32) -> (r: Vec<u8>)
    requires
        drive.wf(),
        block < FS_TOTAL_BLOCKS,
    ensures
        r@ == sys_block(drive@, block as int),
{
    read_vol_block(drive, FS_START_LBA, block)
}

/// Writes block `block` of the /system volume.
fn write_block(drive: &mut RamDisk, block: u32, data: &[u8])
    requires
        old(drive).wf(),
        block < FS_TOTAL_BLOCKS,
        data@.len() == BLOCK,
    ensures
        final(drive).wf(),
        sys_block(final(drive)@, block as int) == data@,
        forall|c: int| vol_ok(FS_START_LBA as int, c) && c != block ==> #[trigger] sys_block(final(drive)@, c) == sys_block(
            old(drive)@,
            c,
        ),
{
    write_vol_block(drive, FS_START_LBA, block, data)
}

/// Block of the inode table holding inode `ino` and the offset in it.
pub open spec fn inode_block(ino: int) -> int {
    INODE_TABLE_START + (ino - 1) * 128 / 1024
}

pub open spec fn inode_offset(ino: int) -> int {
    ((ino - 1) * 128) % 1024
}

fn inode_location(ino: u32) -> (r: (u32, usize))
    requires
        1 <= ino <= 1024,
    ensures
        r.0 == inode_block(ino as int),
        r.1 == inode_offset(ino as int),
        INODE_TABLE_START <= r.0 < 133,
        r.1 + 128 <= 1024,
{
    let idx: u32 = ino - 1;
    let block: u32 = INODE_TABLE_START + ((idx as usize * INODE_SIZE) / BLOCK) as u32;
    let off: usize = (idx as usize * INODE_SIZE) % BLOCK;
    assert(off + 128 <= 1024) by (nonlinear_arith)
        requires
            off == (idx * 128) % 1024,
            idx < 1024,
    ;
    assert(((idx * 128) / 1024) < 128) by (nonlinear_arith)
        requires
            idx < 1024,
    ;
    (block, off)
}

/// An inode record: mode, size, link count, sector count and fifteen
/// block pointers, every other byte zero.
pub open spec fn inode_record_ok(raw: Seq<u8>, mode: u16, size: u32, links: u16, ptrs: Seq<u32>, sectors: u32) -> bool {
    &&& raw.len() == 128
    &&& le16(raw, 0) == mode
    &&& le32(raw, 4) == size
    &&& le16(raw, 26) == links
    &&& le32(raw, 28) == sectors
    &&& forall|i: int| 0 <= i < 15 ==> le32(raw, 40 + 4 * i) == #[trigger] ptrs[i]
    &&& forall|k: int| (2 <= k < 4 || 8 <= k < 26 || 32 <= k < 40 || 100 <= k < 128) ==> #[trigger] raw[k] == 0
}

/// Writes inode `ino` of the /system volume.
#[verifier::spinoff_prover]
#[verifier::rlimit(30)]
fn write_inode(drive: &mut RamDisk, ino: u32, mode: u16, size: u32, links: u16, ptrs: &[u32], used_blocks: u32)
    requires
        old(drive).wf(),
        1 <= ino <= 1024,
        ptrs@.len() == 15,
        used_blocks <= 0x7FFF_FFFF,
    ensures
        final(drive).wf(),
        inode_record_ok(
            sys_block(final(drive)@, inode_block(ino as int)).subrange(inode_offset(ino as int), inode_offset(ino as int) + 128),
            mode,
            size,
            links,
            ptrs@,
            (used_blocks * 2) as u32,
        ),
        forall|k: int| 0 <= k < 1024 && !(inode_offset(ino as int) <= k < inode_offset(ino as int) + 128) ==> #[trigger] sys_block(
            final(drive)@,
            inode_block(ino as int),
        )[k] == sys_block(old(drive)@, inode_block(ino as int))[k],
        forall|c: int| vol_ok(FS_START_LBA as int, c) && c != inode_block(ino as int) ==> #[trigger] sys_block(final(drive)@, c)
            == sys_block(old(drive)@, c),
{
    let (block, off) = inode_location(ino);
    let mut buf: Vec<u8> = read_block(drive, block);
    let mut raw: Vec<u8> = crate::bytes::zeros(INODE_SIZE);
    let ghost z = raw@;
    put_le16(&mut raw, 0, mode);
    put_le32(&mut raw, 4, size);
    put_le16(&mut raw, 26, links);
    put_le32(&mut raw, 28, used_blocks * SPB);
    let ghost r0 = raw@;
    let mut i: usize = 0;
    while i < 15
        invariant
            raw@.len() == 128,
            ptrs@.len() == 15,
            i <= 15,
            le16(raw@, 0) == mode,
            le32(raw@, 4) == size,
            le16(raw@, 26) == links,
            le32(raw@, 28) == used_blocks * 2,
            forall|j: int| 0 <= j < i ==> le32(raw@, 40 + 4 * j) == #[trigger] ptrs@[j],
            forall|k: int| (2 <= k < 4 || 8 <= k < 26 || 32 <= k < 40 || 40 + 4 * i <= k < 128) ==> #[trigger] raw@[k] == 0,
        decreases 15 - i,
    {
        let ghost before = raw@;
        put_le32(&mut raw, 40 + i * 4, ptrs[i]);
        proof {
            crate::bytes::lemma_le32_roundtrip(ptrs@[i as int]);
            assert(raw@.subrange(40 + 4 * i, 44 + 4 * i) =~= crate::bytes::le32_bytes(ptrs@[i as int]));
            assert(le32(raw@, 40 + 4 * i) == le32(crate::bytes::le32_bytes(ptrs@[i as int]), 0));
            assert forall|j: int| 0 <= j < i + 1 implies le32(raw@, 40 + 4 * j) == #[trigger] ptrs@[j] by {
                if j < i {
                    assert(le32(before, 40 + 4 * j) == ptrs@[j]);
                }
            }
        }
        i = i + 1;
    }
    let ghost b0 = buf@;
    crate::bytes::write_bytes(&mut buf, off, raw.as_slice());
    proof {
        assert(buf@.subrange(off as int, off + 128) =~= raw@);
    }
    write_block(drive, block, buf.as_slice());
}

/// Reading bit `bit` of bitmap block `block` and then setting it to `set`:
/// the bit's old value.
fn bitmap_get_set(drive: &mut RamDisk, block: u32, bit: u32, set: bool) -> (r: bool)
    requires
        old(drive).wf(),
        block < FS_TOTAL_BLOCKS,
        bit < 8192,
    ensures
        final(drive).wf(),
        r == bit_of(sys_block(old(drive)@, block as int), bit as int),
        sys_block(final(drive)@, block as int) == set_bit(sys_block(old(drive)@, block as int), bit as int, set),
        forall|c: int| vol_ok(FS_START_LBA as int, c) && c != block ==> #[trigger] sys_block(final(drive)@, c) == sys_block(
            old(drive)@,
            c,
        ),
{
    let mut bm: Vec<u8> = read_block(drive, block);
    let byte: usize = (bit / 8) as usize;
    let mask: u8 = 1u8 << ((bit % 8) as u8);
    let was_set: bool = (bm[byte] & mask) != 0;
    let v: u8 = bm[byte];
    proof {
        let s = (bit % 8) as u8;
        assert(((v & (1u8 << s)) != 0) == ((v >> s) & 1u8 != 0)) by (bit_vector)
            requires
                s < 8,
        ;
    }
    if set {
        bm.set(byte, v | mask);
    } else {
        bm.set(byte, v & !mask);
    }
    write_block(drive, block, bm.as_slice());
    was_set
}

/// Setting a bit that is set changes nothing.
proof fn lemma_set_bit_again(buf: Seq<u8>, b: int)
    requires
        buf.len() == 1024,
        0 <= b < 8192,
        bit_of(buf, b),
    ensures
        set_bit(buf, b, true) == buf,
{
    let x = buf[b / 8];
    let s = (b % 8) as u8;
    assert((x | (1u8 << s)) == x) by (bit_vector)
        requires
            s < 8,
            (x >> s) & 1u8 != 0,
    ;
    assert(set_bit(buf, b, true) =~= buf);
}

/// Takes the first clear bit below `limit` of bitmap block `block`; its
/// number + 1, or 0 when every bit is set.
fn alloc_bit(drive: &mut RamDisk, block: u32, limit: u32) -> (r: u32)
    requires
        old(drive).wf(),
        block < FS_TOTAL_BLOCKS,
        limit <= 8192,
    ensures
        final(drive).wf(),
        match first_clear(sys_block(old(drive)@, block as int), 0, limit as int) {
            None => r == 0 && sys_block(final(drive)@, block as int) == sys_block(old(drive)@, block as int),
            Some(i) => r == i + 1 && sys_block(final(drive)@, block as int) == set_bit(
                sys_block(old(drive)@, block as int),
                i,
                true,
            ),
        },
        forall|c: int| vol_ok(FS_START_LBA as int, c) && c != block ==> #[trigger] sys_block(final(drive)@, c) == sys_block(
            old(drive)@,
            c,
        ),
{
    let ghost bm0 = sys_block(drive@, block as int);
    let mut bit: u32 = 0;
    while bit < limit
        invariant
            drive.wf(),
            bit <= limit,
            limit <= 8192,
            block < FS_TOTAL_BLOCKS,
            bm0 == sys_block(old(drive)@, block as int),
            sys_block(drive@, block as int) == bm0,
            first_clear(bm0, 0, limit as int) == first_clear(bm0, bit as int, limit as int),
            forall|c: int| vol_ok(FS_START_LBA as int, c) && c != block ==> #[trigger] sys_block(drive@, c) == sys_block(
                old(drive)@,
                c,
            ),
        decreases limit - bit,
    {
        let ghost d0 = drive@;
        let was: bool = bitmap_get_set(drive, block, bit, true);
        if !was {
            return bit + 1;
        }
        proof {
            lemma_set_bit_again(bm0, bit as int);
        }
        bit = bit + 1;
    }
    bit = 0;
    0
}

/// Allocates the first free block of the /system volume: its number, or
/// 0 when none is free.
fn alloc_block(drive: &mut RamDisk) -> (r: u32)
    requires
        old(drive).wf(),
    ensures
        final(drive).wf(),
        match first_clear(sys_block(old(drive)@, BLOCK_BITMAP as int), 0, FS_TOTAL_BLOCKS - 1) {
            None => r == 0 && sys_block(final(drive)@, BLOCK_BITMAP as int) == sys_block(old(drive)@, BLOCK_BITMAP as int),
            Some(i) => r == i + 1 && sys_block(final(drive)@, BLOCK_BITMAP as int) == set_bit(
                sys_block(old(drive)@, BLOCK_BITMAP as int),
                i,
                true,
            ),
        },
        forall|c: int| vol_ok(FS_START_LBA as int, c) && c != BLOCK_BITMAP ==> #[trigger] sys_block(final(drive)@, c)
            == sys_block(old(drive)@, c),
{
    alloc_bit(drive, BLOCK_BITMAP, FS_TOTAL_BLOCKS - 1)
}

/// Allocates the first free inode of the /system volume: its number, or 0
/// when none is free.
fn alloc_inode(drive: &mut RamDisk) -> (r: u32)
    requires
        old(drive).wf(),
    ensures
        final(drive).wf(),
        match first_clear(sys_block(old(drive)@, INODE_BITMAP as int), 0, 1024) {
            None => r == 0 && sys_block(final(drive)@, INODE_BITMAP as int) == sys_block(old(drive)@, INODE_BITMAP as int),
            Some(i) => r == i + 1 && sys_block(final(drive)@, INODE_BITMAP as int) == set_bit(
                sys_block(old(drive)@, INODE_BITMAP as int),
                i,
                true,
            ),
        },
        forall|c: int| vol_ok(FS_START_LBA as int, c) && c != INODE_BITMAP ==> #[trigger] sys_block(final(drive)@, c)
            == sys_block(old(drive)@, c),
{
    let inodes: u32 = inodes_count();
    alloc_bit(drive, INODE_BITMAP, inodes)
}


/// Where a new entry of `nlen` name bytes needing `needed` bytes goes in a
/// directory block, walking its entries from `off`: the first free entry
/// with room, or the first live entry whose slack past its own size has
/// room; `None` when the walk ends first, or the entry would run past the
/// block or a live entry is shorter than its own size.
pub open spec fn first_room(buf: Seq<u8>, needed: int, nlen: int, off: int) -> Option<int>
    decreases 1024 - off,
{
    if off < 0 || off + 8 > 1024 || le16(buf, off + 4) == 0 {
        None
    } else if le32(buf, off) == 0 && le16(buf, off + 4) >= needed {
        if off + 8 + nlen <= 1024 {
            Some(off)
        } else {
            None
        }
    } else if le32(buf, off) != 0 && le16(buf, off + 4) >= dirent_len(buf[off + 6] as int) && le16(buf, off + 4)
        - dirent_len(buf[off + 6] as int) >= needed {
        if off + dirent_len(buf[off + 6] as int) + 8 + nlen <= 1024 {
            Some(off)
        } else {
            None
        }
    } else if le32(buf, off) != 0 && le16(buf, off + 4) < dirent_len(buf[off + 6] as int) {
        None
    } else if off + le16(buf, off + 4) + 8 > 1024 {
        None
    } else {
        first_room(buf, needed, nlen, off + le16(buf, off + 4))
    }
}

/// Blocks that agree from `p` on are looked up alike from `p`.
proof fn lemma_lookup_suffix(a: Seq<u8>, b: Seq<u8>, m: Seq<char>, p: int)
    requires
        a.len() == 1024,
        b.len() == 1024,
        0 <= p,
        forall|i: int| p <= i < 1024 ==> a[i] == b[i],
    ensures
        block_lookup(a, m, p) == block_lookup(b, m, p),
    decreases 1024 - p,
{
    if p + 8 <= 1024 {
        assert(a[p] == b[p] && a[p + 1] == b[p + 1] && a[p + 2] == b[p + 2] && a[p + 3] == b[p + 3]);
        assert(a[p + 4] == b[p + 4] && a[p + 5] == b[p + 5] && a[p + 6] == b[p + 6]);
        let end = p + 8 + a[p + 6];
        if end <= 1024 {
            assert(a.subrange(p + 8, end) =~= b.subrange(p + 8, end));
        }
        assert(crate::ext2::entry_text(a, p) == crate::ext2::entry_text(b, p));
        let r = le16(a, p + 4);
        if r != 0 && p + r + 8 <= 1024 {
            lemma_lookup_suffix(a, b, m, p + r);
        }
    }
}

/// Blocks that agree before `o`, reached by a sound walk from `off`, are
/// looked up alike from `off` when they are from `o`.
proof fn lemma_lookup_upto(a: Seq<u8>, b: Seq<u8>, m: Seq<char>, off: int, o: int)
    requires
        a.len() == 1024,
        b.len() == 1024,
        reach(a, off, o),
        walk_ok(a, off),
        forall|i: int| 0 <= i < o ==> b[i] == a[i],
        block_lookup(a, m, o) == block_lookup(b, m, o),
    ensures
        block_lookup(a, m, off) == block_lookup(b, m, off),
    decreases 1024 - off,
{
    if off != o {
        let r = le16(a, off + 4);
        crate::ext2::lemma_reach_keeps(a, m, off + r, o);
        assert(b[off] == a[off] && b[off + 1] == a[off + 1] && b[off + 2] == a[off + 2] && b[off + 3] == a[off + 3]);
        assert(b[off + 4] == a[off + 4] && b[off + 5] == a[off + 5] && b[off + 6] == a[off + 6]);
        let end = off + 8 + a[off + 6];
        assert(a.subrange(off + 8, end) =~= b.subrange(off + 8, end));
        assert(crate::ext2::entry_text(a, off) == crate::ext2::entry_text(b, off));
        lemma_lookup_upto(a, b, m, off + r, o);
    }
}

/// Blocks that agree from `p` on walk alike from `p`.
proof fn lemma_walk_suffix(a: Seq<u8>, b: Seq<u8>, p: int)
    requires
        a.len() == 1024,
        b.len() == 1024,
        0 <= p,
        forall|i: int| p <= i < 1024 ==> a[i] == b[i],
    ensures
        walk_ok(a, p) == walk_ok(b, p),
    decreases 1024 - p,
{
    if p + 8 <= 1024 {
        assert(a[p + 4] == b[p + 4] && a[p + 5] == b[p + 5] && a[p + 6] == b[p + 6]);
        let r = le16(a, p + 4);
        if r != 0 && p + r + 8 <= 1024 {
            lemma_walk_suffix(a, b, p + r);
        }
    }
}

/// Blocks that agree before `o`, reached by a sound walk from `off`, walk
/// soundly from `off` when they do from `o`.
proof fn lemma_walk_upto(a: Seq<u8>, b: Seq<u8>, off: int, o: int)
    requires
        a.len() == 1024,
        b.len() == 1024,
        reach(a, off, o),
        walk_ok(a, off),
        forall|i: int| 0 <= i < o ==> b[i] == a[i],
        walk_ok(b, o),
    ensures
        walk_ok(b, off),
    decreases 1024 - off,
{
    if off != o {
        let r = le16(a, off + 4);
        crate::ext2::lemma_reach_keeps(a, Seq::<char>::empty(), off + r, o);
        assert(b[off + 4] == a[off + 4] && b[off + 5] == a[off + 5] && b[off + 6] == a[off + 6]);
        lemma_walk_upto(a, b, off + r, o);
    }
}

/// The fresh root block holds ".", ".." (inode 2) and lost+found (inode
/// 11).
proof fn lemma_fresh_root_names(buf: Seq<u8>)
    requires
        buf.len() == 1024,
        crate::ext2::entry_at(buf, 0, 2, 12, seq![0x2Eu8]),
        crate::ext2::entry_at(buf, 12, 2, 12, seq![0x2Eu8, 0x2E]),
        crate::ext2::entry_at(buf, 24, 11, 1000, crate::ext2::lost_found_bytes()),
    ensures
        walk_ok(buf, 0),
        block_lookup(buf, seq!['.'], 0) == Some(2u32),
        block_lookup(buf, seq!['.', '.'], 0) == Some(2u32),
        block_lookup(buf, crate::ext2::lost_found_name(), 0) == Some(11u32),
{
    let c1 = seq!['.'];
    let c2 = seq!['.', '.'];
    let c3 = crate::ext2::lost_found_name();
    assert(seq![0x2Eu8] =~= Seq::new(c1.len(), |i: int| c1[i] as u32 as u8));
    assert(seq![0x2Eu8, 0x2E] =~= Seq::new(c2.len(), |i: int| c2[i] as u32 as u8));
    assert(crate::ext2::lost_found_bytes() =~= Seq::new(c3.len(), |i: int| c3[i] as u32 as u8));
    crate::ext2::lemma_entry_text(buf, 0, 2, 12, c1, seq![0x2Eu8]);
    crate::ext2::lemma_entry_text(buf, 12, 2, 12, c2, seq![0x2Eu8, 0x2E]);
    crate::ext2::lemma_entry_text(buf, 24, 11, 1000, c3, crate::ext2::lost_found_bytes());
    crate::ext2::lemma_fresh_root_block(buf, seq!['x']);
    assert(c1 != c2);
    assert(c1.len() != c3.len() && c2.len() != c3.len());
    reveal_with_fuel(block_lookup, 4);
}

/// Writes entry `name` -> `ino` over the free entry at `offset` of root
/// block `buf` (keeping its record length) and stores the block.
fn place_free(drive: &mut RamDisk, buf: Vec<u8>, offset: usize, ino: u32, nb: &[u8])
    requires
        old(drive).wf(),
        buf@.len() == 1024,
        offset + 8 + nb@.len() <= 1024,
    ensures
        final(drive).wf(),
        forall|c: int| vol_ok(FS_START_LBA as int, c) && c != 133 ==> #[trigger] sys_block(final(drive)@, c) == sys_block(
            old(drive)@,
            c,
        ),
        forall|i: int| 0 <= i < offset ==> sys_block(final(drive)@, 133)[i] == buf@[i],
        le32(sys_block(final(drive)@, 133), offset as int) == ino,
        le16(sys_block(final(drive)@, 133), offset + 4) == le16(buf@, offset + 4),
        sys_block(final(drive)@, 133)[offset + 6] == (nb@.len() as u8),
        sys_block(final(drive)@, 133).subrange(offset + 8, offset + 8 + nb@.len()) == nb@,
        forall|i: int| offset + 8 + nb@.len() <= i < 1024 ==> sys_block(final(drive)@, 133)[i] == buf@[i],
{
    let mut buf = buf;
    let rec_len: u16 = rd_le16(buf.as_slice(), offset + 4);
    put_le32(&mut buf, offset, ino);
    put_le16(&mut buf, offset + 4, rec_len);
    buf.set(offset + 6, nb.len() as u8);
    crate::bytes::write_bytes(&mut buf, offset + 8, nb);
    proof {
        assert(buf@.subrange(offset + 8, offset + 8 + nb@.len()) =~= nb@);
        crate::bytes::lemma_le32_roundtrip(ino);
        crate::bytes::lemma_le16_roundtrip(rec_len);
    }
    write_block(drive, 133, buf.as_slice());
}

/// Shortens the live entry at `offset` of root block `buf` to `actual`
/// bytes, writes entry `name` -> `ino` with the rest of its record after
/// it, and stores the block.
fn place_slack(drive: &mut RamDisk, buf: Vec<u8>, offset: usize, actual: usize, ino: u32, nb: &[u8])
    requires
        old(drive).wf(),
        buf@.len() == 1024,
        8 <= actual <= le16(buf@, offset + 4),
        offset + actual + 8 + nb@.len() <= 1024,
    ensures
        final(drive).wf(),
        forall|c: int| vol_ok(FS_START_LBA as int, c) && c != 133 ==> #[trigger] sys_block(final(drive)@, c) == sys_block(
            old(drive)@,
            c,
        ),
        forall|i: int| 0 <= i < offset + 4 ==> sys_block(final(drive)@, 133)[i] == buf@[i],
        le16(sys_block(final(drive)@, 133), offset + 4) == actual,
        forall|i: int| offset + 6 <= i < offset + actual ==> sys_block(final(drive)@, 133)[i] == buf@[i],
        le32(sys_block(final(drive)@, 133), offset + actual) == ino,
        le16(sys_block(final(drive)@, 133), offset + actual + 4) == le16(buf@, offset + 4) - actual,
        sys_block(final(drive)@, 133)[offset + actual + 6] == (nb@.len() as u8),
        sys_block(final(drive)@, 133).subrange(offset + actual + 8, offset + actual + 8 + nb@.len()) == nb@,
        forall|i: int| offset + actual + 8 + nb@.len() <= i < 1024 ==> sys_block(final(drive)@, 133)[i] == buf@[i],
{
    let mut buf = buf;
    let rec_len: u16 = rd_le16(buf.as_slice(), offset + 4);
    let free_in_entry: u16 = (rec_len as usize - actual) as u16;
    let new_off: usize = offset + actual;
    put_le16(&mut buf, offset + 4, actual as u16);
    put_le32(&mut buf, new_off, ino);
    put_le16(&mut buf, new_off + 4, free_in_entry);
    buf.set(new_off + 6, nb.len() as u8);
    crate::bytes::write_bytes(&mut buf, new_off + 8, nb);
    proof {
        assert(buf@.subrange(new_off + 8, new_off + 8 + nb@.len()) =~= nb@);
        crate::bytes::lemma_le32_roundtrip(ino);
        crate::bytes::lemma_le16_roundtrip(free_in_entry);
        crate::bytes::lemma_le16_roundtrip(actual as u16);
    }
    write_block(drive, 133, buf.as_slice());
}

/// Adds entry `name` -> `ino` to the root directory block of the /system
/// volume (block 133). When the block's entries are well formed, hold no
/// entry `name`, and have room, the entry is found afterwards; every
/// other name of a well-formed block is found as before.
#[verifier::spinoff_prover]
#[verifier::rlimit(40)]
fn add_root_dirent(drive: &mut RamDisk, name: &str, ino: u32)
    requires
        old(drive).wf(),
    ensures
        final(drive).wf(),
        forall|c: int| vol_ok(FS_START_LBA as int, c) && c != 133 ==> #[trigger] sys_block(final(drive)@, c) == sys_block(
            old(drive)@,
            c,
        ),
        first_room(sys_block(old(drive)@, 133), dirent_len(name.spec_bytes().len() as int), name.spec_bytes().len() as int, 0)
            is None ==> sys_block(final(drive)@, 133) == sys_block(old(drive)@, 133),
        first_room(sys_block(old(drive)@, 133), dirent_len(name.spec_bytes().len() as int), name.spec_bytes().len() as int, 0)
            is Some && walk_ok(sys_block(old(drive)@, 133), 0) && block_lookup(sys_block(old(drive)@, 133), name@, 0) is None
            && name.spec_bytes().len() <= 255 && ino != 0 ==> block_lookup(sys_block(final(drive)@, 133), name@, 0) == Some(ino),
        walk_ok(sys_block(old(drive)@, 133), 0) && name.spec_bytes().len() <= 255 ==> forall|m: Seq<char>|
            m != name@ ==> #[trigger] block_lookup(sys_block(final(drive)@, 133), m, 0) == block_lookup(
                sys_block(old(drive)@, 133),
                m,
                0,
            ),
        walk_ok(sys_block(old(drive)@, 133), 0) ==> walk_ok(sys_block(final(drive)@, 133), 0),
{
    let nb: &[u8] = name.as_bytes();
    let nlen: usize = nb.len();
    if nlen >= 0x1_0000 {
        return;
    }
    let needed: usize = ((8 + nlen + 3) / 4) * 4;
    let dstart: u32 = data_start_block();
    let mut buf: Vec<u8> = read_block(drive, dstart);
    let ghost b0 = buf@;
    let ghost law = walk_ok(b0, 0) && block_lookup(b0, name@, 0) is None && nlen <= 255 && ino != 0;
    let mut offset: usize = 0;
    while offset + 8 <= BLOCK
        invariant
            drive.wf(),
            drive@ == old(drive)@,
            buf@ == b0,
            b0 == sys_block(old(drive)@, 133),
            b0.len() == 1024,
            dstart == 133,
            nb@ == name.spec_bytes(),
            nlen == nb@.len(),
            nlen < 0x1_0000,
            needed == dirent_len(nlen as int),
            offset <= 1024 + 0x10000,
            offset + 8 <= 1024 ==> reach(b0, 0, offset as int),
            first_room(b0, needed as int, nlen as int, 0) == first_room(b0, needed as int, nlen as int, offset as int),
            law == (walk_ok(b0, 0) && block_lookup(b0, name@, 0) is None && nlen <= 255 && ino != 0),
        decreases 1024 + 0x10000 - offset,
    {
        let e_ino: u32 = rd_le32(buf.as_slice(), offset);
        let rec_len: u16 = rd_le16(buf.as_slice(), offset + 4);
        if rec_len == 0 {
            return;
        }
        let name_len: u8 = buf[offset + 6];
        proof {
            if law {
                crate::ext2::lemma_reach_keeps(b0, name@, 0, offset as int);
            }
        }
        if e_ino == 0 && rec_len as usize >= needed {
            if offset + 8 + nlen > BLOCK {
                return;
            }
            place_free(drive, buf, offset, ino, nb);
            proof {
                if law {
                    crate::ext2::lemma_fill_free(b0, sys_block(drive@, 133), name, offset as int, ino);
                }
                if walk_ok(b0, 0) {
                    let b1 = sys_block(drive@, 133);
                    let rl = le16(b0, offset + 4);
                    crate::ext2::lemma_reach_keeps(b0, name@, 0, offset as int);
                    if offset + rl + 8 <= 1024 {
                        lemma_walk_suffix(b0, b1, offset + rl);
                    }
                    assert(walk_ok(b1, offset as int));
                    lemma_walk_upto(b0, b1, 0, offset as int);
                }
                if walk_ok(b0, 0) && nlen <= 255 {
                    let b1 = sys_block(drive@, 133);
                    crate::ext2::lemma_reach_keeps(b0, name@, 0, offset as int);
                    crate::ext2::lemma_entry_named(b1, offset as int, name);
                    assert forall|m: Seq<char>| m != name@ implies #[trigger] block_lookup(b1, m, 0) == block_lookup(b0, m, 0) by {
                        let rl = le16(b0, offset + 4);
                        if offset + rl + 8 <= 1024 {
                            lemma_lookup_suffix(b0, b1, m, offset + rl);
                        }
                        lemma_lookup_upto(b0, b1, m, 0, offset as int);
                    }
                }
            }
            return;
        }
        let actual: usize = ((8 + name_len as usize + 3) / 4) * 4;
        if e_ino != 0 && (rec_len as usize) < actual {
            return;
        }
        if e_ino != 0 && rec_len as usize - actual >= needed {
            let new_off: usize = offset + actual;
            if new_off + 8 + nlen > BLOCK {
                return;
            }
            place_slack(drive, buf, offset, actual, ino, nb);
            proof {
                assert(actual == dirent_len(b0[offset + 6] as int));
                if law {
                    crate::ext2::lemma_fill_slack(b0, sys_block(drive@, 133), name, offset as int, actual as int, ino);
                }
                if walk_ok(b0, 0) {
                    let b1 = sys_block(drive@, 133);
                    let o = offset as int;
                    let a = actual as int;
                    let rl = le16(b0, o + 4);
                    crate::ext2::lemma_reach_keeps(b0, name@, 0, o);
                    if o + rl + 8 <= 1024 {
                        lemma_walk_suffix(b0, b1, o + rl);
                    }
                    assert(walk_ok(b1, o + a));
                    assert(walk_ok(b1, o));
                    lemma_walk_upto(b0, b1, 0, o);
                }
                if walk_ok(b0, 0) && nlen <= 255 {
                    let b1 = sys_block(drive@, 133);
                    let o = offset as int;
                    let a = actual as int;
                    crate::ext2::lemma_reach_keeps(b0, name@, 0, o);
                    crate::ext2::lemma_entry_named(b1, o + a, name);
                    assert(b1[o + 6] == b0[o + 6]);
                    let end = o + 8 + b0[o + 6];
                    assert(b0.subrange(o + 8, end) =~= b1.subrange(o + 8, end));
                    assert(crate::ext2::entry_text(b0, o) == crate::ext2::entry_text(b1, o));
                    assert forall|m: Seq<char>| m != name@ implies #[trigger] block_lookup(b1, m, 0) == block_lookup(b0, m, 0) by {
                        let rl = le16(b0, o + 4);
                        if o + rl + 8 <= 1024 {
                            lemma_lookup_suffix(b0, b1, m, o + rl);
                        }
                        assert(block_lookup(b1, m, o + a) == (if o + rl + 8 <= 1024 { block_lookup(b1, m, o + rl) } else { None }));
                        lemma_lookup_upto(b0, b1, m, 0, o);
                    }
                }
            }
            return;
        }
        proof {
            if offset + rec_len + 8 <= 1024 {
                crate::ext2::lemma_reach_step(b0, 0, offset as int);
            }
        }
        offset = offset + rec_len as usize;
    }
}

/// The superblock of an installer volume, field by field (little-endian):
/// inode and block counts, free counts, first data block 1, blocks,
/// fragments and inodes per group, write time `now`, maximal mount count
/// 0xFFFF, the ext2 magic, state clean, check time `now`; zero elsewhere.
pub open spec fn superblock_layout(inodes: u32, total: u32, free_blocks: u32, free_inodes: u32, now: u32) -> Seq<u8> {
    let s0 = Seq::new(1024, |i: int| 0u8);
    let s1 = splice(s0, 0, le32_bytes(inodes));
    let s2 = splice(s1, 4, le32_bytes(total));
    let s3 = splice(s2, 12, le32_bytes(free_blocks));
    let s4 = splice(s3, 16, le32_bytes(free_inodes));
    let s5 = splice(s4, 20, le32_bytes(1));
    let s6 = splice(s5, 32, le32_bytes(total));
    let s7 = splice(s6, 36, le32_bytes(total));
    let s8 = splice(s7, 40, le32_bytes(inodes));
    let s9 = splice(s8, 48, le32_bytes(now));
    let s10 = splice(s9, 54, le16_bytes(0xFFFF));
    let s11 = splice(s10, 56, le16_bytes(0xEF53));
    let s12 = splice(s11, 58, le16_bytes(1));
    splice(s12, 64, le32_bytes(now))
}

/// The group descriptor: bitmap and inode table blocks 3, 4, 5, the free
/// counts (16 bits each) and two directories; zero elsewhere.
pub open spec fn group_descriptor_layout(free_blocks: u32, free_inodes: u32) -> Seq<u8> {
    let s0 = Seq::new(1024, |i: int| 0u8);
    let s1 = splice(s0, 0, le32_bytes(3));
    let s2 = splice(s1, 4, le32_bytes(4));
    let s3 = splice(s2, 8, le32_bytes(5));
    let s4 = splice(s3, 12, le16_bytes(free_blocks as u16));
    let s5 = splice(s4, 14, le16_bytes(free_inodes as u16));
    splice(s5, 16, le16_bytes(2))
}

fn volume_superblock(inodes: u32, total: u32, free_blocks: u32, free_inodes: u32, now: u32) -> (r: Vec<u8>)
    ensures
        r@ == superblock_layout(inodes, total, free_blocks, free_inodes, now),
{
    let mut sb: Vec<u8> = crate::bytes::zeros(BLOCK);
    put_le32(&mut sb, 0, inodes);
    put_le32(&mut sb, 4, total);
    put_le32(&mut sb, 12, free_blocks);
    put_le32(&mut sb, 16, free_inodes);
    put_le32(&mut sb, 20, 1);
    put_le32(&mut sb, 32, total);
    put_le32(&mut sb, 36, total);
    put_le32(&mut sb, 40, inodes);
    put_le32(&mut sb, 48, now);
    put_le16(&mut sb, 54, 0xFFFF);
    put_le16(&mut sb, 56, EXT2_MAGIC);
    put_le16(&mut sb, 58, 1);
    put_le32(&mut sb, 64, now);
    sb
}

fn group_descriptor(free_blocks: u32, free_inodes: u32) -> (r: Vec<u8>)
    ensures
        r@ == group_descriptor_layout(free_blocks, free_inodes),
{
    let mut gdt: Vec<u8> = crate::bytes::zeros(BLOCK);
    put_le32(&mut gdt, 0, BLOCK_BITMAP);
    put_le32(&mut gdt, 4, INODE_BITMAP);
    put_le32(&mut gdt, 8, INODE_TABLE_START);
    put_le16(&mut gdt, 12, free_blocks as u16);
    put_le16(&mut gdt, 14, free_inodes as u16);
    put_le16(&mut gdt, 16, 2);
    gdt
}

/// Sets bit `b` of bitmap `buf`.
fn set_one_bit(buf: &mut Vec<u8>, b: u32)
    requires
        old(buf)@.len() == 1024,
        b < 8192,
    ensures
        final(buf)@ == set_bit(old(buf)@, b as int, true),
{
    let idx: usize = (b / 8) as usize;
    let v: u8 = buf[idx];
    buf.set(idx, v | (1u8 << ((b % 8) as u8)));
}

/// Sets bits `from..to` of bitmap `buf`; bit `i` is afterwards set when
/// it lies in the range or was set.
fn set_range(buf: &mut Vec<u8>, from: u32, to: u32)
    requires
        old(buf)@.len() == 1024,
        to <= 8192,
    ensures
        final(buf)@.len() == 1024,
        forall|i: int| 0 <= i < 8192 ==> #[trigger] bit_of(final(buf)@, i) == ((from <= i < to) || bit_of(old(buf)@, i)),
{
    let mut b: u32 = from;
    while b < to
        invariant
            buf@.len() == 1024,
            to <= 8192,
            from <= b,
            from <= to ==> b <= to,
            from > to ==> b == from,
            forall|i: int| 0 <= i < 8192 ==> #[trigger] bit_of(buf@, i) == ((from <= i < b) || bit_of(old(buf)@, i)),
        decreases to - b,
    {
        let ghost before = buf@;
        set_one_bit(buf, b);
        proof {
            assert forall|i: int| 0 <= i < 8192 implies #[trigger] bit_of(buf@, i) == ((from <= i < b + 1) || bit_of(old(buf)@, i)) by {
                crate::ext2::lemma_set_bit(before, b as int, i);
            }
        }
        b = b + 1;
    }
    assert forall|i: int| 0 <= i < 8192 implies #[trigger] bit_of(buf@, i) == ((from <= i < to) || bit_of(old(buf)@, i)) by {
        assert(bit_of(buf@, i) == ((from <= i < b) || bit_of(old(buf)@, i)));
    }
}

/// The block bitmap of a volume: blocks below `reserved` and from `valid`
/// on marked used.
fn block_bitmap(reserved: u32, valid: u32) -> (r: Vec<u8>)
    requires
        reserved <= 8192,
        valid <= 8192,
    ensures
        r@.len() == 1024,
        forall|i: int| 0 <= i < 8192 ==> #[trigger] bit_of(r@, i) == (i < reserved || valid <= i),
{
    let mut bm: Vec<u8> = crate::bytes::zeros(BLOCK);
    assert forall|i: int| 0 <= i < 8192 implies !#[trigger] bit_of(bm@, i) by {
        let z = bm@[i / 8];
        let s = (i % 8) as u8;
        assert(z == 0);
        assert((0u8 >> s) & 1u8 == 0) by (bit_vector);
    }
    set_range(&mut bm, 0, reserved);
    set_range(&mut bm, valid, 8192);
    bm
}

/// The inode bitmap of a volume: inodes 1..=11 and those past `inodes`
/// marked used.
fn inode_bitmap(inodes: u32) -> (r: Vec<u8>)
    requires
        inodes <= 8192,
    ensures
        r@.len() == 1024,
        forall|i: int| 0 <= i < 8192 ==> #[trigger] bit_of(r@, i) == (i <= 10 || inodes <= i),
{
    let mut ibm: Vec<u8> = crate::bytes::zeros(BLOCK);
    assert forall|i: int| 0 <= i < 8192 implies !#[trigger] bit_of(ibm@, i) by {
        let z = ibm@[i / 8];
        let s = (i % 8) as u8;
        assert(z == 0);
        assert((0u8 >> s) & 1u8 == 0) by (bit_vector);
    }
    set_range(&mut ibm, 0, 10);
    set_range(&mut ibm, 10, 11);
    set_range(&mut ibm, inodes, 8192);
    ibm
}

/// Fifteen block pointers: `first`, then zeros.
fn one_block_ptrs(first: u32) -> (r: Vec<u32>)
    ensures
        r@.len() == 15,
        r@[0] == first,
        forall|k: int| 1 <= k < 15 ==> r@[k] == 0,
{
    let mut p: Vec<u32> = vec![0u32; 15];
    p.set(0, first);
    p
}

/// Fifteen block pointers: `first`, then zeros.
pub open spec fn one_block_seq(first: u32) -> Seq<u32> {
    seq![first, 0u32, 0, 0, 0, 0, 0, 0, 0, 0, 0, 0, 0, 0, 0]
}

/// The 128 bytes of inode `ino`'s record in block `blk` of the table.
pub open spec fn inode_record(img: Seq<u8>, ino: int) -> Seq<u8> {
    sys_block(img, inode_block(ino)).subrange(inode_offset(ino), inode_offset(ino) + 128)
}

/// How adding mount point `name` changes the /system volume from `old` to
/// `new`. With no free inode nothing changes; with a free inode but no
/// free block only that inode's bit is set. Otherwise, with the blocks up
/// to 133 marked used, the first free inode `i + 1` gets the first free
/// block `j + 1`: both bits are set, the block holds "." (the new inode)
/// and ".." (the root), the inode is a directory pointing at it, and the
/// root block gains `name` for it when it has room and lacks the name.
/// No other block changes but the root's and the inode table block's
/// bytes outside the new record.
pub open spec fn mount_added(old: Seq<u8>, new: Seq<u8>, name: &str) -> bool {
    let ibm = INODE_BITMAP as int;
    let bbm = BLOCK_BITMAP as int;
    match first_clear(sys_block(old, ibm), 0, 1024) {
        None => forall|c: int| vol_ok(FS_START_LBA as int, c) ==> #[trigger] sys_block(new, c) == sys_block(old, c),
        Some(i) => match first_clear(sys_block(old, bbm), 0, FS_TOTAL_BLOCKS - 1) {
            None => {
                &&& sys_block(new, ibm) == set_bit(sys_block(old, ibm), i, true)
                &&& forall|c: int| vol_ok(FS_START_LBA as int, c) && c != ibm ==> #[trigger] sys_block(new, c) == sys_block(old, c)
            },
            Some(j) => meta_used(old) ==> {
                &&& j >= 133
                &&& sys_block(new, ibm) == set_bit(sys_block(old, ibm), i, true)
                &&& sys_block(new, bbm) == set_bit(sys_block(old, bbm), j, true)
                &&& crate::ext2::entry_at(sys_block(new, j + 1), 0, (i + 1) as u32, 12, seq![0x2Eu8])
                &&& crate::ext2::entry_at(sys_block(new, j + 1), 12, 2, 1012, seq![0x2Eu8, 0x2E])
                &&& inode_record_ok(inode_record(new, i + 1), 0o040755, 1024, 2, one_block_seq((j + 1) as u32), 2)
                &&& forall|k: int| 0 <= k < 1024 && !(inode_offset(i + 1) <= k < inode_offset(i + 1) + 128) ==> #[trigger] sys_block(
                    new,
                    inode_block(i + 1),
                )[k] == sys_block(old, inode_block(i + 1))[k]
                &&& forall|c: int| vol_ok(FS_START_LBA as int, c) && c != ibm && c != bbm && c != j + 1 && c != 133 && c
                    != inode_block(i + 1) ==> #[trigger] sys_block(new, c) == sys_block(old, c)
                &&& (first_room(
                    sys_block(old, 133),
                    dirent_len(name.spec_bytes().len() as int),
                    name.spec_bytes().len() as int,
                    0,
                ) is Some && walk_ok(sys_block(old, 133), 0) && block_lookup(sys_block(old, 133), name@, 0) is None
                    && name.spec_bytes().len() <= 255 ==> block_lookup(sys_block(new, 133), name@, 0) == Some((i + 1) as u32))
            },
        },
    }
}

/// Adds mount point `name`: a directory inode with its own block holding
/// "." and "..", and a root entry for it; see `mount_added`.
fn add_mount_point(drive: &mut RamDisk, name: &str)
    requires
        old(drive).wf(),
    ensures
        final(drive).wf(),
        mount_added(old(drive)@, final(drive)@, name),
        meta_used(old(drive)@) && walk_ok(sys_block(old(drive)@, 133), 0) ==> walk_ok(sys_block(final(drive)@, 133), 0),
        meta_used(old(drive)@) && walk_ok(sys_block(old(drive)@, 133), 0) && name.spec_bytes().len() <= 255 ==> forall|m: Seq<char>|
            m != name@ ==> #[trigger] block_lookup(sys_block(final(drive)@, 133), m, 0) == block_lookup(
                sys_block(old(drive)@, 133),
                m,
                0,
            ),
{
    let ghost d0 = drive@;
    let ino: u32 = alloc_inode(drive);
    proof {
        crate::ext2::lemma_first_clear(sys_block(d0, INODE_BITMAP as int), 0, 1024);
    }
    if ino == 0 {
        proof {
            assert forall|c: int| vol_ok(FS_START_LBA as int, c) implies #[trigger] sys_block(drive@, c) == sys_block(d0, c) by {
                if c == INODE_BITMAP {
                }
            }
        }
        return;
    }
    let ghost d1 = drive@;
    let blk: Vec<u8> = crate::ext2::dir_block_bytes(ino, 2, false);
    let b: u32 = alloc_and_write(drive, blk.as_slice());
    proof {
        crate::ext2::lemma_first_clear(sys_block(d1, BLOCK_BITMAP as int), 0, 4095);
        assert(sys_block(d1, BLOCK_BITMAP as int) == sys_block(d0, BLOCK_BITMAP as int));
    }
    if b == 0 {
        return;
    }
    let ghost d2 = drive@;
    let ptrs: Vec<u32> = one_block_ptrs(b);
    assert(ptrs@ =~= one_block_seq(b));
    write_inode(drive, ino, 0o040755, BLOCK as u32, 2, ptrs.as_slice(), 1);
    assert(inode_block(ino as int) < 133) by (nonlinear_arith)
        requires
            1 <= ino <= 1024,
    ;
    assert(inode_block(ino as int) >= 5) by (nonlinear_arith)
        requires
            1 <= ino <= 1024,
    ;
    let ghost d3 = drive@;
    add_root_dirent(drive, name, ino);
    proof {
        assert(sys_block(drive@, inode_block(ino as int)) == sys_block(d3, inode_block(ino as int)));
        if meta_used(d0) {
            assert(meta_used(d1));
            assert(b >= 134);
            assert(sys_block(d3, 133) == sys_block(d0, 133));
            assert(sys_block(drive@, b as int) == sys_block(d2, b as int));
            assert(sys_block(d2, b as int) == blk@);
        }
    }
}

/// Mount point `k` of a fresh /system volume: block 135 + k holds "."
/// (inode 12 + k) and ".." (the root), and inode 12 + k is a directory
/// pointing at that block.
pub open spec fn mount_dir_ok(img: Seq<u8>, k: int) -> bool {
    &&& crate::ext2::entry_at(sys_block(img, 135 + k), 0, (12 + k) as u32, 12, seq![0x2Eu8])
    &&& crate::ext2::entry_at(sys_block(img, 135 + k), 12, 2, 1012, seq![0x2Eu8, 0x2E])
    &&& inode_record_ok(inode_record(img, 12 + k), 0o040755, 1024, 2, one_block_seq((135 + k) as u32), 2)
}

/// The /system volume after the first `k` mount points were added to the
/// fresh layout.
pub open spec fn mounts_done(img: Seq<u8>, k: int) -> bool {
    &&& img.len() == crate::ramdisk::RAMDISK_SIZE
    &&& sys_block(img, SB_BLOCK as int) == superblock_layout(1024, 4096, 3961, 1013, 0x6000_0000)
    &&& sys_block(img, GDT_BLOCK as int) == group_descriptor_layout(3961, 1013)
    &&& forall|i: int| 0 <= i < 8192 ==> #[trigger] bit_of(sys_block(img, BLOCK_BITMAP as int), i) == (i < 134 + k || 4095 <= i)
    &&& forall|i: int| 0 <= i < 8192 ==> #[trigger] bit_of(sys_block(img, INODE_BITMAP as int), i) == (i < 11 + k || 1024 <= i)
    &&& crate::ext2::entry_at(sys_block(img, 134), 0, 11, 12, seq![0x2Eu8])
    &&& crate::ext2::entry_at(sys_block(img, 134), 12, 2, 1012, seq![0x2Eu8, 0x2E])
    &&& fresh_names_kept(img)
    &&& forall|j: int| 0 <= j < k ==> #[trigger] mount_dir_ok(img, j)
}

/// The first clear bit from `i` below `lim` is `j` when the bits from `i`
/// to `j` are set and bit `j` is clear.
proof fn lemma_first_clear_is(buf: Seq<u8>, i: int, lim: int, j: int)
    requires
        0 <= i <= j < lim,
        forall|t: int| i <= t < j ==> #[trigger] bit_of(buf, t),
        !bit_of(buf, j),
    ensures
        first_clear(buf, i, lim) == Some(j),
    decreases j - i,
{
    if i < j {
        assert(bit_of(buf, i));
        lemma_first_clear_is(buf, i + 1, lim, j);
    }
}

/// Where the records of inodes 12 to 19 lie in the inode table.
proof fn lemma_inode_place(a: int)
    requires
        12 <= a <= 19,
    ensures
        a <= 16 ==> inode_block(a) == 6 && inode_offset(a) == (a - 1) * 128 - 1024,
        a >= 17 ==> inode_block(a) == 7 && inode_offset(a) == (a - 1) * 128 - 2048,
{
    if a == 12 {} else if a == 13 {} else if a == 14 {} else if a == 15 {} else if a == 16 {}
    else if a == 17 {} else if a == 18 {} else {}
}

/// Adding mount point `k` leaves mount point `j < k` as it was.
#[verifier::rlimit(40)]
proof fn lemma_mount_kept(old: Seq<u8>, new: Seq<u8>, name: &str, k: int, j: int)
    requires
        0 <= j < k < 8,
        mounts_done(old, k),
        new.len() == crate::ramdisk::RAMDISK_SIZE,
        mount_added(old, new, name),
        first_clear(sys_block(old, INODE_BITMAP as int), 0, 1024) == Some(11 + k),
        first_clear(sys_block(old, BLOCK_BITMAP as int), 0, 4095) == Some(134 + k),
        meta_used(old),
    ensures
        mount_dir_ok(new, j),
{
    assert(mount_dir_ok(old, j));
    assert(vol_ok(FS_START_LBA as int, 135 + j));
    assert(sys_block(new, 135 + j) == sys_block(old, 135 + j));
    lemma_inode_place(12 + j);
    lemma_inode_place(12 + k);
    let bj = inode_block(12 + j);
    if bj != inode_block(12 + k) {
        assert(vol_ok(FS_START_LBA as int, bj));
        assert(sys_block(new, bj) == sys_block(old, bj));
    } else {
        assert(inode_record(new, 12 + j) =~= inode_record(old, 12 + j)) by {
            assert forall|t: int| 0 <= t < 128 implies #[trigger] inode_record(new, 12 + j)[t] == inode_record(old, 12 + j)[t] by {
                let kk = inode_offset(12 + j) + t;
                assert(!(inode_offset(12 + k) <= kk < inode_offset(12 + k) + 128));
                assert(sys_block(new, bj)[kk] == sys_block(old, bj)[kk]);
            }
        }
    }
}

/// Adding the next mount point keeps the layout and the mount points made
/// so far, and makes mount point `k`.
#[verifier::rlimit(40)]
proof fn lemma_mount_step(old: Seq<u8>, new: Seq<u8>, name: &str, k: int)
    requires
        0 <= k < 8,
        mounts_done(old, k),
        new.len() == crate::ramdisk::RAMDISK_SIZE,
        mount_added(old, new, name),
        meta_used(old) && fresh_names_kept(old) ==> fresh_names_kept(new),
    ensures
        mounts_done(new, k + 1),
{
    let ibm = INODE_BITMAP as int;
    let bbm = BLOCK_BITMAP as int;
    let ob = sys_block(old, bbm);
    let oi = sys_block(old, ibm);
    assert(ob.len() == 1024 && oi.len() == 1024);
    assert(bit_of(oi, 11 + k) == false);
    lemma_first_clear_is(oi, 0, 1024, 11 + k);
    lemma_first_clear_is(ob, 0, 4095, 134 + k);
    assert(meta_used(old));
    assert forall|i: int| 0 <= i < 8192 implies #[trigger] bit_of(sys_block(new, bbm), i) == (i < 134 + k + 1 || 4095 <= i) by {
        crate::ext2::lemma_set_bit(ob, 134 + k, i);
    }
    assert forall|i: int| 0 <= i < 8192 implies #[trigger] bit_of(sys_block(new, ibm), i) == (i < 11 + k + 1 || 1024 <= i) by {
        crate::ext2::lemma_set_bit(oi, 11 + k, i);
    }
    lemma_inode_place(12 + k);
    assert(vol_ok(FS_START_LBA as int, 1) && vol_ok(FS_START_LBA as int, 2) && vol_ok(FS_START_LBA as int, 134));
    assert(sys_block(new, 1) == sys_block(old, 1));
    assert(sys_block(new, 2) == sys_block(old, 2));
    assert(sys_block(new, 134) == sys_block(old, 134));
    assert forall|j: int| 0 <= j < k + 1 implies #[trigger] mount_dir_ok(new, j) by {
        if j < k {
            lemma_mount_kept(old, new, name, k, j);
        }
    }
}

/// Writes an ext2 volume onto /system: superblock, group descriptor,
/// bitmaps (blocks up to 133 and inodes 1..=11 used), the root directory
/// (inode 2, block 133: ".", ".." and lost+found), lost+found (inode 11,
/// block 134) and a directory inode with a root entry for each mount
/// point; ".", ".." and lost+found stay found in the root block.
#[verifier::spinoff_prover]
#[verifier::rlimit(60)]
pub fn build_ext2_volume(drive: &mut RamDisk)
    requires
        old(drive).wf(),
    ensures
        final(drive).wf(),
        sys_block(final(drive)@, SB_BLOCK as int) == superblock_layout(1024, 4096, 3961, 1013, 0x6000_0000),
        sys_block(final(drive)@, GDT_BLOCK as int) == group_descriptor_layout(3961, 1013),
        forall|i: int| 0 <= i < 8192 ==> #[trigger] bit_of(sys_block(final(drive)@, BLOCK_BITMAP as int), i) == (i < 142
            || 4095 <= i),
        forall|i: int| 0 <= i < 8192 ==> #[trigger] bit_of(sys_block(final(drive)@, INODE_BITMAP as int), i) == (i < 19
            || 1024 <= i),
        forall|k: int| 0 <= k < 8 ==> #[trigger] mount_dir_ok(final(drive)@, k),
        crate::ext2::entry_at(sys_block(final(drive)@, 134), 0, 11, 12, seq![0x2Eu8]),
        crate::ext2::entry_at(sys_block(final(drive)@, 134), 12, 2, 1012, seq![0x2Eu8, 0x2E]),
        walk_ok(sys_block(final(drive)@, 133), 0),
        block_lookup(sys_block(final(drive)@, 133), seq!['.'], 0) == Some(2u32),
        block_lookup(sys_block(final(drive)@, 133), seq!['.', '.'], 0) == Some(2u32),
        block_lookup(sys_block(final(drive)@, 133), crate::ext2::lost_found_name(), 0) == Some(11u32),
{
    let total_blocks: u32 = FS_TOTAL_BLOCKS;
    let now: u32 = 0x6000_0000;
    let inodes: u32 = inodes_count();
    let dstart: u32 = data_start_block();
    let reserved: u32 = dstart + 1;
    let valid_blocks: u32 = total_blocks - 1;
    let free_blocks: u32 = valid_blocks - reserved;
    let free_inodes: u32 = inodes - 10 - 1;
    let sb: Vec<u8> = volume_superblock(inodes, total_blocks, free_blocks, free_inodes, now);
    write_block(drive, SB_BLOCK, sb.as_slice());
    let gdt: Vec<u8> = group_descriptor(free_blocks, free_inodes);
    write_block(drive, GDT_BLOCK, gdt.as_slice());
    let bm: Vec<u8> = block_bitmap(reserved, valid_blocks);
    write_block(drive, BLOCK_BITMAP, bm.as_slice());
    let ibm: Vec<u8> = inode_bitmap(inodes);
    write_block(drive, INODE_BITMAP, ibm.as_slice());
    let root: Vec<u8> = crate::ext2::dir_block_bytes(2, 2, true);
    write_block(drive, dstart, root.as_slice());
    let root_ptrs: Vec<u32> = one_block_ptrs(dstart);
    write_inode(drive, 2, 0o040755, BLOCK as u32, 3, root_ptrs.as_slice(), 1);
    let lf: Vec<u8> = crate::ext2::dir_block_bytes(11, 2, false);
    write_block(drive, dstart + 1, lf.as_slice());
    let lf_ptrs: Vec<u32> = one_block_ptrs(dstart + 1);
    write_inode(drive, 11, 0o040700, BLOCK as u32, 2, lf_ptrs.as_slice(), 1);
    let ghost d = drive@;
    assert(sys_block(d, 1) == sb@);
    assert(sys_block(d, 2) == gdt@);
    assert(sys_block(d, 3) == bm@);
    assert(sys_block(d, 134) == lf@);
    proof {
        assert(sys_block(d, 133) == root@);
        lemma_fresh_root_names(root@);
        assert(mounts_done(d, 0));
    }
    proof {
        reveal_strlit("system");
    }
    let ghost m0 = drive@;
    mount_point(drive, "system");
    proof {
        lemma_mount_step(m0, drive@, "system", 0);
    }
    proof {
        reveal_strlit("userdata");
    }
    let ghost m1 = drive@;
    mount_point(drive, "userdata");
    proof {
        lemma_mount_step(m1, drive@, "userdata", 1);
    }
    proof {
        reveal_strlit("home");
    }
    let ghost m2 = drive@;
    mount_point(drive, "home");
    proof {
        lemma_mount_step(m2, drive@, "home", 2);
    }
    proof {
        reveal_strlit("config");
    }
    let ghost m3 = drive@;
    mount_point(drive, "config");
    proof {
        lemma_mount_step(m3, drive@, "config", 3);
    }
    proof {
        reveal_strlit("apps");
    }
    let ghost m4 = drive@;
    mount_point(drive, "apps");
    proof {
        lemma_mount_step(m4, drive@, "apps", 4);
    }
    proof {
        reveal_strlit("packages");
    }
    let ghost m5 = drive@;
    mount_point(drive, "packages");
    proof {
        lemma_mount_step(m5, drive@, "packages", 5);
    }
    proof {
        reveal_strlit("downloads");
    }
    let ghost m6 = drive@;
    mount_point(drive, "downloads");
    proof {
        lemma_mount_step(m6, drive@, "downloads", 6);
    }
    proof {
        reveal_strlit("update");
    }
    let ghost m7 = drive@;
    mount_point(drive, "update");
    proof {
        lemma_mount_step(m7, drive@, "update", 7);
    }
}

/// The names of a fresh root block: ".", ".." and lost+found, found as
/// they were.
pub open spec fn fresh_names_kept(img: Seq<u8>) -> bool {
    &&& walk_ok(sys_block(img, 133), 0)
    &&& block_lookup(sys_block(img, 133), seq!['.'], 0) == Some(2u32)
    &&& block_lookup(sys_block(img, 133), seq!['.', '.'], 0) == Some(2u32)
    &&& block_lookup(sys_block(img, 133), crate::ext2::lost_found_name(), 0) == Some(11u32)
}

/// Adds mount point `name` (ASCII, 3 to 9 characters), keeping the
/// entries ".", ".." and lost+found as they are found.
fn mount_point(drive: &mut RamDisk, name: &str)
    requires
        old(drive).wf(),
        vstd::string::is_ascii(name),
        3 <= name@.len() <= 9,
    ensures
        final(drive).wf(),
        mount_added(old(drive)@, final(drive)@, name),
        meta_used(old(drive)@) && fresh_names_kept(old(drive)@) ==> fresh_names_kept(final(drive)@),
{
    proof {
        vstd::string::is_ascii_spec_bytes(name);
        assert(name@ != seq!['.']);
        assert(name@ != seq!['.', '.']);
        assert(name@ != crate::ext2::lost_found_name());
    }
    add_mount_point(drive, name);
}

/// Splicing at or past `n` keeps the first `n` bytes.
pub proof fn lemma_splice_keeps_prefix(a: Seq<u8>, o: int, t: Seq<u8>, n: int)
    requires
        0 <= n <= o,
        o + t.len() <= a.len(),
    ensures
        crate::bytes::splice(a, o, t).subrange(0, n) == a.subrange(0, n),
        crate::bytes::splice(a, o, t).len() == a.len(),
{
    assert(crate::bytes::splice(a, o, t).subrange(0, n) =~= a.subrange(0, n));
}

/// Splicing outside bytes `lo..hi` keeps them.
pub proof fn lemma_splice_keeps(a: Seq<u8>, o: int, t: Seq<u8>, lo: int, hi: int)
    requires
        0 <= lo <= hi <= a.len(),
        0 <= o,
        o + t.len() <= a.len(),
        hi <= o || o + t.len() <= lo,
    ensures
        crate::bytes::splice(a, o, t).subrange(lo, hi) == a.subrange(lo, hi),
        crate::bytes::splice(a, o, t).len() == a.len(),
{
    assert(crate::bytes::splice(a, o, t).subrange(lo, hi) =~= a.subrange(lo, hi));
}

/// The spliced bytes are found where they were put.
pub proof fn lemma_splice_holds(a: Seq<u8>, o: int, t: Seq<u8>)
    requires
        0 <= o,
        o + t.len() <= a.len(),
    ensures
        crate::bytes::splice(a, o, t).subrange(o, o + t.len()) == t,
        crate::bytes::splice(a, o, t).len() == a.len(),
{
    assert(crate::bytes::splice(a, o, t).subrange(o, o + t.len()) =~= t);
}

/// Writes the /userdata ext2 volume at LBA 12800 (2816 blocks, 704
/// inodes): superblock, group descriptor, bitmaps and the root block.
/// The volume is then formatted as the ext2 module reads it.
#[verifier::spinoff_prover]
#[verifier::rlimit(30)]
pub fn write_userdata_ext2(drive: &mut RamDisk)
    requires
        old(drive).wf(),
    ensures
        final(drive).wf(),
        vol_block(final(drive)@, PART_USERDATA_START as int, 1) == superblock_layout(704, 2816, 2721, 693, 0x6000_0000),
        vol_block(final(drive)@, PART_USERDATA_START as int, 2) == group_descriptor_layout(2721, 693),
        forall|i: int| 0 <= i < 8192 ==> #[trigger] bit_of(vol_block(final(drive)@, PART_USERDATA_START as int, 3), i) == (i
            < 94 || 2815 <= i),
        forall|i: int| 0 <= i < 8192 ==> #[trigger] bit_of(vol_block(final(drive)@, PART_USERDATA_START as int, 4), i) == (i
            <= 10 || 704 <= i),
        crate::ext2::formatted(final(drive)@),
        final(drive)@.len() == old(drive)@.len(),
        final(drive)@.subrange(0, PART_USERDATA_START * 512) == old(drive)@.subrange(0, PART_USERDATA_START * 512),
{
    let ghost d0 = drive@;
    let start_lba: u32 = PART_USERDATA_START;
    let total_sectors: u32 = PART_USERDATA_SECTORS;
    let total_blocks: u32 = total_sectors / SPB;
    let per_4k: u32 = total_blocks * 1024 / 4096;
    let inodes: u32 = ((if per_4k < 32 { 32 } else { per_4k }) + 7) / 8 * 8;
    let itb: u32 = ((inodes as usize * INODE_SIZE + BLOCK - 1) / BLOCK) as u32;
    let dstart: u32 = INODE_TABLE_START + itb;
    let reserved: u32 = dstart + 1;
    let valid: u32 = total_blocks - 1;
    let free_blocks: u32 = valid - reserved;
    let free_inodes: u32 = inodes - 10 - 1;
    let now: u32 = 0x6000_0000;
    assert(inodes == 704 && dstart == 93);
    let sb: Vec<u8> = volume_superblock(inodes, total_blocks, free_blocks, free_inodes, now);
    let ghost pre = drive@;
    write_vol_block(drive, start_lba, SB_BLOCK, sb.as_slice());
    proof {
        lemma_splice_keeps_prefix(pre, (start_lba + 2 * SB_BLOCK) * 512, sb@, PART_USERDATA_START * 512);
    }
    let gdt: Vec<u8> = group_descriptor(free_blocks, free_inodes);
    let ghost pre = drive@;
    write_vol_block(drive, start_lba, GDT_BLOCK, gdt.as_slice());
    proof {
        lemma_splice_keeps_prefix(pre, (start_lba + 2 * GDT_BLOCK) * 512, gdt@, PART_USERDATA_START * 512);
    }
    let bm: Vec<u8> = block_bitmap(reserved, valid);
    let ghost pre = drive@;
    write_vol_block(drive, start_lba, BLOCK_BITMAP, bm.as_slice());
    proof {
        lemma_splice_keeps_prefix(pre, (start_lba + 2 * BLOCK_BITMAP) * 512, bm@, PART_USERDATA_START * 512);
    }
    let ibm: Vec<u8> = inode_bitmap(inodes);
    let ghost pre = drive@;
    write_vol_block(drive, start_lba, INODE_BITMAP, ibm.as_slice());
    proof {
        lemma_splice_keeps_prefix(pre, (start_lba + 2 * INODE_BITMAP) * 512, ibm@, PART_USERDATA_START * 512);
    }
    let root: Vec<u8> = crate::ext2::dir_block_bytes(2, 2, true);
    let ghost pre = drive@;
    write_vol_block(drive, start_lba, dstart, root.as_slice());
    proof {
        lemma_splice_keeps_prefix(pre, (start_lba + 2 * dstart) * 512, root@, PART_USERDATA_START * 512);
    }
    proof {
        let sbl = superblock_layout(704, 2816, 2721, 693, 0x6000_0000);
        assert(sbl[56] == 0x53 && sbl[57] == 0xEF);
        assert(crate::ext2::block_at(drive@, 1) == vol_block(drive@, 12800, 1));
        assert(drive@.subrange(0, PART_USERDATA_START * 512) == d0.subrange(0, PART_USERDATA_START * 512));
    }
}

/// CHS address of sector `lba` (cylinder, head, sector; clamped to
/// 1023/254/63) in the three MBR bytes: head, sector with the cylinder's
/// high bits, cylinder's low byte.
pub open spec fn chs_bytes(lba: u32) -> Seq<u8> {
    let c: u32 = lba / 16065u32;
    let h: u32 = (lba / 63u32) % 255u32;
    let sec: u32 = ((lba % 63u32) + 1) as u32;
    if c > 1023 {
        seq![254u8, (63u8 & 0x3Fu8) | ((((1023u32 >> 2u32) & 0xC0u32) as u8)), (1023u32 & 0xFFu32) as u8]
    } else {
        seq![h as u8, ((sec as u8) & 0x3Fu8) | ((((c >> 2u32) & 0xC0u32) as u8)), (c & 0xFFu32) as u8]
    }
}

pub fn chs(lba: u32) -> (r: [u8; 3])
    ensures
        r@ == chs_bytes(lba),
{
    let c: u32 = lba / (63 * 255);
    let h: u32 = (lba / 63) % 255;
    let s: u32 = (lba % 63) + 1;
    let (c2, h2, s2): (u32, u8, u8) = if c > 1023 { (1023u32, 254u8, 63u8) } else { (c, h as u8, s as u8) };
    let r: [u8; 3] = [h2, (s2 & 0x3F) | (((c2 >> 2) & 0xC0) as u8), (c2 & 0xFF) as u8];
    assert(r@ =~= chs_bytes(lba));
    r
}

/// A partition entry: boot flag, CHS of the first sector, type, CHS of
/// the last sector, first sector and sector count.
pub open spec fn partition_entry(boot: u8, typ: u8, start: u32, secs: u32) -> Seq<u8> {
    seq![boot] + chs_bytes(start) + seq![typ] + chs_bytes((start + secs - 1) as u32) + le32_bytes(start) + le32_bytes(secs)
}

/// The MBR: the first 512 bytes of `boot` (zero-padded), /system (active,
/// type 0x83) and /userdata (type 0x83) in the first two entries, and the
/// signature 0x55 0xAA.
pub open spec fn mbr_layout(boot: Seq<u8>) -> Seq<u8> {
    let n = if boot.len() < 512 { boot.len() as int } else { 512 };
    let m0 = splice(Seq::new(512, |i: int| 0u8), 0, boot.subrange(0, n));
    let m1 = splice(m0, 446, partition_entry(0x80, 0x83, PART_SYSTEM_START, PART_SYSTEM_SECTORS));
    let m2 = splice(m1, 462, partition_entry(0x00, 0x83, PART_USERDATA_START, PART_USERDATA_SECTORS));
    m2.update(510, 0x55u8).update(511, 0xAAu8)
}

fn put_partition(mbr: &mut Vec<u8>, off: usize, boot: u8, typ: u8, start: u32, secs: u32)
    requires
        old(mbr)@.len() == 512,
        off + 16 <= 512,
        1 <= secs,
        start + secs <= 0xFFFF_FFFF,
    ensures
        final(mbr)@ == splice(old(mbr)@, off as int, partition_entry(boot, typ, start, secs)),
{
    let c1: [u8; 3] = chs(start);
    let c2: [u8; 3] = chs(start + secs - 1);
    let mut e: Vec<u8> = Vec::new();
    e.push(boot);
    e.push(c1[0]);
    e.push(c1[1]);
    e.push(c1[2]);
    e.push(typ);
    e.push(c2[0]);
    e.push(c2[1]);
    e.push(c2[2]);
    let a: Vec<u8> = crate::bytes::le32_vec(start);
    let b: Vec<u8> = crate::bytes::le32_vec(secs);
    crate::bytes::extend_from(&mut e, a.as_slice());
    crate::bytes::extend_from(&mut e, b.as_slice());
    assert(e@ =~= partition_entry(boot, typ, start, secs));
    crate::bytes::write_bytes(mbr, off, e.as_slice());
}

/// Builds the MBR over the boot sector `boot_sector`.
pub fn build_mbr(boot_sector: &[u8]) -> (r: Vec<u8>)
    ensures
        r@ == mbr_layout(boot_sector@),
        r@.len() == 512,
        r@[510] == 0x55 && r@[511] == 0xAA,
{
    let mut mbr: Vec<u8> = crate::bytes::zeros(512);
    let n: usize = if boot_sector.len() < 512 { boot_sector.len() } else { 512 };
    let part: Vec<u8> = crate::bytes::copy_range(boot_sector, 0, n);
    crate::bytes::write_bytes(&mut mbr, 0, part.as_slice());
    put_partition(&mut mbr, 446, 0x80, 0x83, PART_SYSTEM_START, PART_SYSTEM_SECTORS);
    put_partition(&mut mbr, 462, 0x00, 0x83, PART_USERDATA_START, PART_USERDATA_SECTORS);
    mbr.set(510, 0x55);
    mbr.set(511, 0xAA);
    mbr
}

/// Sectors needed for `len` bytes.
pub fn sectors_for(len: usize) -> (r: u32)
    requires
        len <= 0xFFFF_0000,
    ensures
        r == (len + 511) / 512,
{
    ((len + 511) / 512) as u32
}

/// First sector of the kernel on the target: after the MBR, the second
/// stage of `stage2_len` bytes and the RAM-disk loader of `ramboot_len`
/// bytes.
pub fn kernel_start_lba(stage2_len: usize, ramboot_len: usize) -> (r: u32)
    requires
        stage2_len <= 0x1000_0000,
        ramboot_len <= 0x1000_0000,
    ensures
        r == 1 + (stage2_len + 511) / 512 + (ramboot_len + 511) / 512,
{
    1 + sectors_for(stage2_len) + sectors_for(ramboot_len)
}

/// The salt of the account record the installer writes: byte `i` is
/// `i * 31 + 7` (mod 256).
pub open spec fn install_salt() -> Seq<u8> {
    Seq::new(16, |i: int| ((i * 31 + 7) % 256) as u8)
}

/// Lowercase hexadecimal text of bytes, two digits each.
pub open spec fn hex_bytes(b: Seq<u8>) -> Seq<char>
    decreases b.len(),
{
    if b.len() == 0 {
        Seq::empty()
    } else {
        hex_bytes(b.drop_last()) + crate::text::hex(b.last() as nat, 2)
    }
}

fn push_hex_bytes(s: &mut String, b: &[u8])
    ensures
        final(s)@ == old(s)@ + hex_bytes(b@),
{
    let mut i: usize = 0;
    while i < b.len()
        invariant
            i <= b@.len(),
            s@ == old(s)@ + hex_bytes(b@.subrange(0, i as int)),
        decreases b@.len() - i,
    {
        crate::text::push_hex(s, b[i] as u64, 2);
        proof {
            assert(b@.subrange(0, i + 1).drop_last() =~= b@.subrange(0, i as int));
        }
        i = i + 1;
        assert(s@ =~= old(s)@ + hex_bytes(b@.subrange(0, i as int)));
    }
    assert(b@.subrange(0, b@.len() as int) =~= b@);
}

/// The account record `username:salt:hash` (hex, newline-terminated)
/// with the installer's salt and the SHA-256 of salt and password.
pub fn users_db_text(username: &str, password: &str) -> (r: String)
    ensures
        r@ == username@ + seq![':'] + hex_bytes(install_salt()) + seq![':'] + hex_bytes(
            crate::ota::sha256_digest(install_salt() + password.spec_bytes()),
        ) + seq!['\n'],
{
    let mut salt: Vec<u8> = Vec::new();
    let mut i: u8 = 0;
    while i < 16
        invariant
            i <= 16,
            salt@ == install_salt().subrange(0, i as int),
        decreases 16 - i,
    {
        salt.push(i.wrapping_mul(31).wrapping_add(7));
        proof {
            assert((i as int * 31 + 7) % 256 == ((((i as int * 31) % 256) + 7) % 256));
        }
        i = i + 1;
        assert(salt@ =~= install_salt().subrange(0, i as int));
    }
    assert(salt@ =~= install_salt());
    let mut salted: Vec<u8> = Vec::new();
    crate::bytes::extend_from(&mut salted, salt.as_slice());
    crate::bytes::extend_from(&mut salted, password.as_bytes());
    let hash: [u8; 32] = crate::ota::sha256(salted.as_slice());
    let mut text: String = crate::text::string_of(username);
    crate::text::push_char(&mut text, ':');
    push_hex_bytes(&mut text, salt.as_slice());
    crate::text::push_char(&mut text, ':');
    push_hex_bytes(&mut text, &hash);
    crate::text::push_char(&mut text, '\n');
    text
}

/// A character allowed in a user name: ASCII letter or digit, '_' or '-'.
pub open spec fn username_char(c: char) -> bool {
    ('a' <= c <= 'z') || ('A' <= c <= 'Z') || ('0' <= c <= '9') || c == '_' || c == '-'
}

/// The user name typed on line `line`: the line without surrounding white
/// space, when that is 1 to 32 allowed characters.
pub fn accept_username(line: &str) -> (r: Option<String>)
    ensures
        match r {
            Some(u) => u@ == crate::text::trim_ws(line@),
            None => true,
        },
        (r is Some) <==> (0 < crate::text::trim_ws(line@).len() <= 32 && forall|i: int|
            0 <= i < crate::text::trim_ws(line@).len() ==> username_char(#[trigger] crate::text::trim_ws(line@)[i])),
{
    let cs: Vec<char> = crate::text::chars_of(line);
    let (lo, hi) = crate::text::trim_bounds(cs.as_slice(), 0, cs.len());
    assert(cs@.subrange(0, cs@.len() as int) =~= cs@);
    let ghost t = cs@.subrange(lo as int, hi as int);
    assert(t == crate::text::trim_ws(line@));
    if hi == lo || hi - lo > 32 {
        return None;
    }
    let mut k: usize = lo;
    while k < hi
        invariant
            lo <= k <= hi <= cs@.len(),
            t == cs@.subrange(lo as int, hi as int),
            t == crate::text::trim_ws(line@),
            forall|i: int| 0 <= i < k - lo ==> username_char(#[trigger] t[i]),
        decreases hi - k,
    {
        let c: char = cs[k];
        let ok: bool = ('a' <= c && c <= 'z') || ('A' <= c && c <= 'Z') || ('0' <= c && c <= '9') || c == '_' || c == '-';
        if !ok {
            assert(t[k - lo] == c);
            assert(!username_char(t[k - lo]));
            return None;
        }
        k = k + 1;
    }
    Some(crate::text::string_from_chars(cs.as_slice(), lo, hi))
}

/// The blocks before the root directory's block are marked used in the
/// /system block bitmap.
pub open spec fn meta_used(img: Seq<u8>) -> bool {
    forall|i: int| 0 <= i < 133 ==> #[trigger] bit_of(sys_block(img, BLOCK_BITMAP as int), i)
}

/// Allocates a block and, when it lies in the volume, writes `buf` to it.
/// With the blocks up to 133 marked used, the allocated block lies past
/// the root directory's block, which stays as it was, and so do those
/// marks.
fn alloc_and_write(drive: &mut RamDisk, buf: &[u8]) -> (r: u32)
    requires
        old(drive).wf(),
        buf@.len() == BLOCK,
    ensures
        final(drive).wf(),
        meta_used(old(drive)@) ==> meta_used(final(drive)@) && sys_block(final(drive)@, 133) == sys_block(old(drive)@, 133),
        meta_used(old(drive)@) && r != 0 ==> r >= 134,
        meta_used(old(drive)@) && clear_count(sys_block(old(drive)@, BLOCK_BITMAP as int), 4095) > 0 ==> r != 0 && clear_count(
            sys_block(final(drive)@, BLOCK_BITMAP as int),
            4095,
        ) + 1 == clear_count(sys_block(old(drive)@, BLOCK_BITMAP as int), 4095),
        match first_clear(sys_block(old(drive)@, BLOCK_BITMAP as int), 0, FS_TOTAL_BLOCKS - 1) {
            None => r == 0 && forall|c: int| vol_ok(FS_START_LBA as int, c) ==> #[trigger] sys_block(final(drive)@, c)
                == sys_block(old(drive)@, c),
            Some(i) => r == i + 1 && (r != BLOCK_BITMAP ==> sys_block(final(drive)@, BLOCK_BITMAP as int) == set_bit(
                sys_block(old(drive)@, BLOCK_BITMAP as int),
                i,
                true,
            )) && (r < FS_TOTAL_BLOCKS ==> sys_block(final(drive)@, r as int) == buf@) && forall|c: int|
                vol_ok(FS_START_LBA as int, c) && c != BLOCK_BITMAP && c != r ==> #[trigger] sys_block(final(drive)@, c)
                    == sys_block(old(drive)@, c),
        },
{
    let ghost d0 = drive@;
    let b: u32 = alloc_block(drive);
    proof {
        if clear_count(sys_block(d0, BLOCK_BITMAP as int), 4095) > 0 {
            lemma_count_first(sys_block(d0, BLOCK_BITMAP as int), 4095);
        }
    }
    if b == 0 {
        proof {
            assert(sys_block(drive@, 133) == sys_block(d0, 133));
            crate::ext2::lemma_first_clear(sys_block(d0, BLOCK_BITMAP as int), 0, 4095);
        }
        return 0;
    }
    proof {
        crate::ext2::lemma_first_clear(sys_block(d0, BLOCK_BITMAP as int), 0, 4095);
        lemma_count_after_set(sys_block(d0, BLOCK_BITMAP as int), (b - 1) as int, 4095);
    }
    let ghost d1 = drive@;
    proof {
        let bm = sys_block(d0, BLOCK_BITMAP as int);
        crate::ext2::lemma_first_clear(bm, 0, 4095);
        if meta_used(d0) {
            let i = (b - 1) as int;
            if i < 133 {
                assert(bit_of(bm, i));
            }
            assert forall|j: int| 0 <= j < 133 implies #[trigger] bit_of(sys_block(d1, BLOCK_BITMAP as int), j) by {
                crate::ext2::lemma_set_bit(bm, i, j);
            }
        }
    }
    if b < FS_TOTAL_BLOCKS {
        write_block(drive, b, buf);
        proof {
            if meta_used(d0) {
                assert(sys_block(drive@, BLOCK_BITMAP as int) == sys_block(d1, BLOCK_BITMAP as int));
                assert(sys_block(drive@, 133) == sys_block(d1, 133));
            }
        }
    }
    b
}

/// Block `k` of a file holding `data`: its bytes, zero padded.
fn data_block(data: &[u8], k: usize) -> (r: Vec<u8>)
    requires
        k * 1024 < data@.len(),
    ensures
        r@.len() == BLOCK,
        r@ == file_chunk(data@, k as int),
{
    let len: usize = data.len();
    let start: usize = k * 1024;
    let end: usize = if len - start > BLOCK { start + BLOCK } else { len };
    let mut buf: Vec<u8> = crate::bytes::zeros(BLOCK);
    let part: Vec<u8> = crate::bytes::copy_range(data, start, end);
    crate::bytes::write_bytes(&mut buf, 0, part.as_slice());
    buf
}

/// Block `k` of a file holding `data`: its bytes `1024 * k` on, zero
/// padded to a block.
pub open spec fn file_chunk(data: Seq<u8>, k: int) -> Seq<u8> {
    let start = k * 1024;
    let end = if data.len() - start > 1024 { start + 1024 } else { data.len() as int };
    crate::bytes::splice(Seq::new(1024, |i: int| 0u8), 0, data.subrange(start, end))
}

/// Data blocks a file of `n` bytes takes.
pub open spec fn data_blocks_of(n: nat) -> int {
    if n == 0 { 0 } else { ((n + 1023) / 1024) as int }
}

/// Inode `ino` of the /system volume is a regular file holding `data`:
/// its size, and each of its blocks (twelve direct, the rest listed in its
/// indirect block) holding the matching chunk of `data`.
pub open spec fn sys_file_holds(img: Seq<u8>, ino: int, data: Seq<u8>) -> bool {
    let raw = inode_record(img, ino);
    let bn = data_blocks_of(data.len());
    &&& le16(raw, 0) == 0o100644
    &&& le32(raw, 4) == data.len()
    &&& forall|k: int| 0 <= k < bn && k < 12 ==> #[trigger] sys_block(img, le32(raw, 40 + 4 * k)) == file_chunk(data, k)
    &&& bn > 12 ==> forall|j: int| 0 <= j < bn - 12 ==> #[trigger] sys_block(img, le32(sys_block(img, le32(raw, 88)), 4 * j))
        == file_chunk(data, 12 + j)
}

/// Blocks a file of `n` bytes takes on the /system volume: its data
/// blocks, and an indirect block past twelve.
pub open spec fn blocks_for_file(n: nat) -> nat {
    let b: nat = if n == 0 { 0 } else { ((n + 1023) / 1024) as nat };
    b + if b > 12 { 1nat } else { 0nat }
}

/// Writes file `name` holding `data` onto the /system volume: data blocks
/// (twelve direct, the rest through an indirect block), an inode and a
/// root entry; `false` when a block or inode cannot be allocated. When
/// the blocks up to 133 are marked used and the root block is well
/// formed, has no entry `name` and has room for it, a successful write
/// leaves `name` found in the root block; the other names of a well
/// formed root block are found as before.
#[verifier::spinoff_prover]
pub fn write_file_to(drive: &mut RamDisk, name: &str, data: &[u8]) -> (r: bool)
    requires
        old(drive).wf(),
        data@.len() <= 268 * 1024,
    ensures
        final(drive).wf(),
        r && meta_used(old(drive)@) && walk_ok(sys_block(old(drive)@, 133), 0) && block_lookup(sys_block(old(drive)@, 133), name@, 0)
            is None && first_room(
            sys_block(old(drive)@, 133),
            dirent_len(name.spec_bytes().len() as int),
            name.spec_bytes().len() as int,
            0,
        ) is Some && name.spec_bytes().len() <= 255 ==> block_lookup(sys_block(final(drive)@, 133), name@, 0) is Some,
        meta_used(old(drive)@) && walk_ok(sys_block(old(drive)@, 133), 0) && name.spec_bytes().len() <= 255 ==> forall|
            m: Seq<char>,
        |
            m != name@ ==> #[trigger] block_lookup(sys_block(final(drive)@, 133), m, 0) == block_lookup(
                sys_block(old(drive)@, 133),
                m,
                0,
            ),
        meta_used(old(drive)@) && clear_count(sys_block(old(drive)@, BLOCK_BITMAP as int), 4095) >= blocks_for_file(data@.len())
            && first_clear(sys_block(old(drive)@, INODE_BITMAP as int), 0, 1024) is Some ==> r,
        r && meta_used(old(drive)@) ==> exists|ino: int|
            1 <= ino <= 1024 && #[trigger] sys_file_holds(final(drive)@, ino, data@) && (walk_ok(sys_block(old(drive)@, 133), 0)
                && block_lookup(sys_block(old(drive)@, 133), name@, 0) is None && first_room(
                sys_block(old(drive)@, 133),
                dirent_len(name.spec_bytes().len() as int),
                name.spec_bytes().len() as int,
                0,
            ) is Some && name.spec_bytes().len() <= 255 ==> block_lookup(sys_block(final(drive)@, 133), name@, 0) == Some(
                ino as u32,
            )),
{
    let ghost owed = meta_used(drive@) && clear_count(sys_block(drive@, BLOCK_BITMAP as int), 4095) >= blocks_for_file(data@.len())
        && first_clear(sys_block(drive@, INODE_BITMAP as int), 0, 1024) is Some;
    let ghost root0 = sys_block(drive@, 133);
    let ghost law = meta_used(drive@);
    let n: usize = data.len();
    let blocks_needed: usize = if n == 0 { 0 } else { (n + BLOCK - 1) / BLOCK };
    let mut ptrs: Vec<u32> = vec![0u32; 15];
    let mut used: u32 = 0;
    let direct: usize = if blocks_needed < 12 { blocks_needed } else { 12 };
    let mut i: usize = 0;
    while i < direct
        invariant
            drive.wf(),
            direct <= 12,
            direct <= blocks_needed,
            blocks_needed <= 268,
            n == data@.len(),
            n > 0 ==> blocks_needed == (n + 1023) / 1024,
            n == 0 ==> blocks_needed == 0,
            ptrs@.len() == 15,
            i <= direct,
            used == i,
            law ==> meta_used(drive@) && sys_block(drive@, 133) == root0,
            root0 == sys_block(old(drive)@, 133),
            law == meta_used(old(drive)@),
            owed ==> law,
            owed ==> clear_count(sys_block(drive@, BLOCK_BITMAP as int), 4095) + i >= blocks_for_file(n as nat),
            owed ==> sys_block(drive@, INODE_BITMAP as int) == sys_block(old(drive)@, INODE_BITMAP as int),
            owed == (meta_used(old(drive)@) && clear_count(sys_block(old(drive)@, BLOCK_BITMAP as int), 4095) >= blocks_for_file(
                n as nat,
            ) && first_clear(sys_block(old(drive)@, INODE_BITMAP as int), 0, 1024) is Some),
            law ==> chunks_placed(drive@, ptrs@, i as int, data@, 0),
        decreases direct - i,
    {
        assert(i * 1024 < n) by (nonlinear_arith)
            requires
                i < blocks_needed,
                n > 0,
                blocks_needed == (n + 1023) / 1024,
        ;
        let buf: Vec<u8> = data_block(data, i);
        let ghost d0 = drive@;
        let b: u32 = alloc_and_write(drive, buf.as_slice());
        if b == 0 {
            return false;
        }
        proof {
            if law {
                crate::ext2::lemma_first_clear(sys_block(d0, BLOCK_BITMAP as int), 0, 4095);
                lemma_alloc_keeps(d0, drive@, b, ptrs@, i as int, data@, 0);
            }
        }
        let ghost p0 = ptrs@;
        ptrs.set(i, b);
        proof {
            if law {
                assert forall|kk: int| 0 <= kk < i + 1 implies 134 <= #[trigger] ptrs@[kk] < 4096 && bit_of(
                    sys_block(drive@, BLOCK_BITMAP as int),
                    ptrs@[kk] - 1,
                ) && sys_block(drive@, ptrs@[kk] as int) == file_chunk(data@, 0 + kk) by {
                    if kk < i {
                        assert(ptrs@[kk] == p0[kk]);
                    }
                }
            }
        }
        used = used + 1;
        i = i + 1;
    }
    let ghost mut ind_ps: Seq<u32> = Seq::empty();
    proof {
        if law && blocks_needed <= 12 {
            assert(placed_all(drive@, ptrs@, ind_ps, data@));
        }
    }
    if blocks_needed > 12 {
        let indirect_data: usize = blocks_needed - 12;
        let mut ind_ptrs: Vec<u32> = vec![0u32; 256];
        let mut j: usize = 0;
        while j < indirect_data
            invariant
                drive.wf(),
                indirect_data == blocks_needed - 12,
                blocks_needed <= 268,
                n == data@.len(),
                n > 0,
                blocks_needed == (n + 1023) / 1024,
                ind_ptrs@.len() == 256,
                j <= indirect_data,
                law ==> meta_used(drive@) && sys_block(drive@, 133) == root0,
                root0 == sys_block(old(drive)@, 133),
                law == meta_used(old(drive)@),
                owed ==> law,
                owed ==> clear_count(sys_block(drive@, BLOCK_BITMAP as int), 4095) + 12 + j >= blocks_for_file(n as nat),
                owed ==> sys_block(drive@, INODE_BITMAP as int) == sys_block(old(drive)@, INODE_BITMAP as int),
                owed == (meta_used(old(drive)@) && clear_count(sys_block(old(drive)@, BLOCK_BITMAP as int), 4095)
                    >= blocks_for_file(n as nat) && first_clear(sys_block(old(drive)@, INODE_BITMAP as int), 0, 1024) is Some),
                ptrs@.len() == 15,
                law ==> chunks_placed(drive@, ptrs@, 12, data@, 0),
                law ==> chunks_placed(drive@, ind_ptrs@, j as int, data@, 12),
            decreases indirect_data - j,
        {
            assert((12 + j) * 1024 < n) by (nonlinear_arith)
                requires
                    12 + j < blocks_needed,
                    blocks_needed == (n + 1023) / 1024,
            ;
            let buf: Vec<u8> = data_block(data, 12 + j);
            let ghost d0 = drive@;
            let b: u32 = alloc_and_write(drive, buf.as_slice());
            if b == 0 {
                return false;
            }
            proof {
                if law {
                    crate::ext2::lemma_first_clear(sys_block(d0, BLOCK_BITMAP as int), 0, 4095);
                    lemma_alloc_keeps(d0, drive@, b, ptrs@, 12, data@, 0);
                    lemma_alloc_keeps(d0, drive@, b, ind_ptrs@, j as int, data@, 12);
                }
            }
            let ghost q0 = ind_ptrs@;
            ind_ptrs.set(j, b);
            proof {
                if law {
                    assert forall|kk: int| 0 <= kk < j + 1 implies 134 <= #[trigger] ind_ptrs@[kk] < 4096 && bit_of(
                        sys_block(drive@, BLOCK_BITMAP as int),
                        ind_ptrs@[kk] - 1,
                    ) && sys_block(drive@, ind_ptrs@[kk] as int) == file_chunk(data@, 12 + kk) by {
                        if kk < j {
                            assert(ind_ptrs@[kk] == q0[kk]);
                        }
                    }
                }
            }
            j = j + 1;
        }
        let mut ibuf: Vec<u8> = crate::bytes::zeros(BLOCK);
        let mut k: usize = 0;
        while k < 256
            invariant
                ibuf@.len() == 1024,
                ind_ptrs@.len() == 256,
                k <= 256,
                forall|kk: int| 0 <= kk < k ==> #[trigger] le32(ibuf@, 4 * kk) == ind_ptrs@[kk],
            decreases 256 - k,
        {
            let ghost b0 = ibuf@;
            put_le32(&mut ibuf, k * 4, ind_ptrs[k]);
            proof {
                lemma_put_le32(b0, 4 * k, ind_ptrs@[k as int], 4 * k);
                assert forall|kk: int| 0 <= kk < k + 1 implies #[trigger] le32(ibuf@, 4 * kk) == ind_ptrs@[kk] by {
                    lemma_put_le32(b0, 4 * k, ind_ptrs@[k as int], 4 * kk);
                }
            }
            k = k + 1;
        }
        let ghost d_ind = drive@;
        let ind_block: u32 = alloc_and_write(drive, ibuf.as_slice());
        if ind_block == 0 {
            return false;
        }
        proof {
            if law {
                crate::ext2::lemma_first_clear(sys_block(d_ind, BLOCK_BITMAP as int), 0, 4095);
                lemma_alloc_keeps(d_ind, drive@, ind_block, ptrs@, 12, data@, 0);
                lemma_alloc_keeps(d_ind, drive@, ind_block, ind_ptrs@, indirect_data as int, data@, 12);
            }
        }
        proof {
            if owed {
                assert(sys_block(drive@, INODE_BITMAP as int) == sys_block(d_ind, INODE_BITMAP as int));
            }
        }
        let ghost p1 = ptrs@;
        ptrs.set(12, ind_block);
        proof {
            ind_ps = ind_ptrs@;
            if law {
                assert forall|kk: int| 0 <= kk < 12 implies #[trigger] ptrs@[kk] == p1[kk] by {}
                assert(chunks_placed(drive@, ptrs@, 12, data@, 0));
                assert(placed_all(drive@, ptrs@, ind_ps, data@));
            }
        }
        used = used + indirect_data as u32 + 1;
    }
    assert(owed ==> sys_block(drive@, INODE_BITMAP as int) == sys_block(old(drive)@, INODE_BITMAP as int));
    assert(owed ==> first_clear(sys_block(drive@, INODE_BITMAP as int), 0, 1024) is Some);
    assert(law ==> placed_all(drive@, ptrs@, ind_ps, data@));
    let ghost d_ino = drive@;
    let ino: u32 = alloc_inode(drive);
    if ino == 0 {
        proof {
            crate::ext2::lemma_first_clear(sys_block(d_ino, INODE_BITMAP as int), 0, 1024);
        }
        return false;
    }
    proof {
        crate::ext2::lemma_first_clear(sys_block(old(drive)@, INODE_BITMAP as int), 0, 1024);
    }
    if ino > 1024 {
        return false;
    }
    let ghost d5 = drive@;
    write_inode(drive, ino, 0o100644, n as u32, 1, ptrs.as_slice(), used);
    let ghost d6 = drive@;
    assert(inode_block(ino as int) < 133) by (nonlinear_arith)
        requires
            1 <= ino <= 1024,
    ;
    add_root_dirent(drive, name, ino);
    proof {
        if law {
            lemma_placed_kept(d_ino, d5, ptrs@, ind_ps, data@);
            lemma_placed_kept(d5, d6, ptrs@, ind_ps, data@);
            lemma_placed_kept(d6, drive@, ptrs@, ind_ps, data@);
            assert(inode_record(drive@, ino as int) == inode_record(d6, ino as int));
            let raw = inode_record(drive@, ino as int);
            assert forall|k: int| 0 <= k < 15 implies le32(raw, 40 + 4 * k) == #[trigger] ptrs@[k] by {}
            assert(sys_file_holds(drive@, ino as int, data@)) by {
                let bn = data_blocks_of(data@.len());
                assert(bn == blocks_needed);
                assert forall|k: int| 0 <= k < bn && k < 12 implies #[trigger] sys_block(drive@, le32(raw, 40 + 4 * k))
                    == file_chunk(data@, k) by {
                    assert(le32(raw, 40 + 4 * k) == ptrs@[k]);
                }
                if bn > 12 {
                    assert(le32(raw, 88) == ptrs@[12]);
                }
            }
        }
    }
    true
}

/// The blocks a file has written so far: each lies past the root block,
/// is marked used and holds its chunk.
pub open spec fn chunks_placed(img: Seq<u8>, ps: Seq<u32>, n: int, data: Seq<u8>, base: int) -> bool {
    forall|kk: int|
        0 <= kk < n ==> 134 <= #[trigger] ps[kk] < 4096 && bit_of(sys_block(img, BLOCK_BITMAP as int), ps[kk] - 1)
            && sys_block(img, ps[kk] as int) == file_chunk(data, base + kk)
}

/// Taking and writing one more block keeps the blocks written so far.
proof fn lemma_alloc_keeps(d0: Seq<u8>, d1: Seq<u8>, b: u32, ps: Seq<u32>, n: int, data: Seq<u8>, base: int)
    requires
        d0.len() == crate::ramdisk::RAMDISK_SIZE,
        0 <= n <= ps.len(),
        chunks_placed(d0, ps, n, data, base),
        134 <= b < 4096,
        !bit_of(sys_block(d0, BLOCK_BITMAP as int), b - 1),
        sys_block(d1, BLOCK_BITMAP as int) == set_bit(sys_block(d0, BLOCK_BITMAP as int), b - 1, true),
        forall|c: int| vol_ok(FS_START_LBA as int, c) && c != BLOCK_BITMAP && c != b ==> #[trigger] sys_block(d1, c) == sys_block(
            d0,
            c,
        ),
    ensures
        chunks_placed(d1, ps, n, data, base),
        bit_of(sys_block(d1, BLOCK_BITMAP as int), b - 1),
{
    let bm = sys_block(d0, BLOCK_BITMAP as int);
    crate::ext2::lemma_set_bit(bm, b - 1, b - 1);
    assert forall|kk: int| 0 <= kk < n implies 134 <= #[trigger] ps[kk] < 4096 && bit_of(sys_block(d1, BLOCK_BITMAP as int), ps[kk] - 1)
        && sys_block(d1, ps[kk] as int) == file_chunk(data, base + kk) by {
        crate::ext2::lemma_set_bit(bm, b - 1, ps[kk] - 1);
        assert(ps[kk] != b);
        assert(vol_ok(FS_START_LBA as int, ps[kk] as int));
    }
}

/// A file's blocks written so far: the direct ones and, past twelve, the
/// indirect block listing `ind` and the blocks it lists.
pub open spec fn placed_all(img: Seq<u8>, ptrs: Seq<u32>, ind: Seq<u32>, data: Seq<u8>) -> bool {
    let bn = data_blocks_of(data.len());
    &&& chunks_placed(img, ptrs, if bn < 12 { bn } else { 12 }, data, 0)
    &&& bn > 12 ==> {
        &&& 134 <= ptrs[12] < 4096
        &&& forall|j: int| 0 <= j < bn - 12 ==> #[trigger] le32(sys_block(img, ptrs[12] as int), 4 * j) == ind[j]
        &&& chunks_placed(img, ind, bn - 12, data, 12)
    }
}

/// Writing only blocks before 134 and other bitmaps keeps a file's placed
/// blocks.
proof fn lemma_placed_kept(a: Seq<u8>, b: Seq<u8>, ptrs: Seq<u32>, ind: Seq<u32>, data: Seq<u8>)
    requires
        placed_all(a, ptrs, ind, data),
        sys_block(b, BLOCK_BITMAP as int) == sys_block(a, BLOCK_BITMAP as int),
        forall|c: int| vol_ok(FS_START_LBA as int, c) && c >= 134 ==> #[trigger] sys_block(b, c) == sys_block(a, c),
    ensures
        placed_all(b, ptrs, ind, data),
{
    let bn = data_blocks_of(data.len());
    let m = if bn < 12 { bn } else { 12 };
    assert forall|kk: int| 0 <= kk < m implies 134 <= #[trigger] ptrs[kk] < 4096 && bit_of(sys_block(b, BLOCK_BITMAP as int), ptrs[kk] - 1)
        && sys_block(b, ptrs[kk] as int) == file_chunk(data, 0 + kk) by {
        assert(vol_ok(FS_START_LBA as int, ptrs[kk] as int));
    }
    if bn > 12 {
        assert(vol_ok(FS_START_LBA as int, ptrs[12] as int));
        assert forall|kk: int| 0 <= kk < bn - 12 implies 134 <= #[trigger] ind[kk] < 4096 && bit_of(sys_block(b, BLOCK_BITMAP as int), ind[kk] - 1)
            && sys_block(b, ind[kk] as int) == file_chunk(data, 12 + kk) by {
            assert(vol_ok(FS_START_LBA as int, ind[kk] as int));
        }
    }
}

/// Storing a 32-bit value at `o` sets it there and keeps the values stored
/// at other 4-byte slots.
proof fn lemma_put_le32(buf: Seq<u8>, o: int, v: u32, q: int)
    requires
        0 <= o,
        o + 4 <= buf.len(),
        0 <= q,
        q + 4 <= buf.len(),
        q + 4 <= o || o + 4 <= q || q == o,
    ensures
        q == o ==> le32(crate::bytes::splice(buf, o, le32_bytes(v)), q) == v,
        q != o ==> le32(crate::bytes::splice(buf, o, le32_bytes(v)), q) == le32(buf, q),
{
    let t = crate::bytes::splice(buf, o, le32_bytes(v));
    if q == o {
        crate::bytes::lemma_le32_roundtrip(v);
        assert(t.subrange(o, o + 4) =~= le32_bytes(v));
        assert(t[o] == le32_bytes(v)[0] && t[o + 1] == le32_bytes(v)[1] && t[o + 2] == le32_bytes(v)[2] && t[o + 3] == le32_bytes(v)[3]);
    } else {
        assert(t[q] == buf[q] && t[q + 1] == buf[q + 1] && t[q + 2] == buf[q + 2] && t[q + 3] == buf[q + 3]);
    }
}

/// `d` zero padded to whole sectors.
pub open spec fn padded(d: Seq<u8>) -> Seq<u8> {
    d + Seq::new(((d.len() + 511) / 512 * 512 - d.len()) as nat, |i: int| 0u8)
}

/// Copies `data` to consecutive sectors from `lba`, the last one zero
/// padded. When they fit on the disk they hold `padded(data)` afterwards
/// and nothing else changes; otherwise the copy fails.
fn write_padded(target: &mut RamDisk, lba: u32, data: &[u8]) -> (r: Result<(), ()>)
    requires
        old(target).wf(),
        data@.len() <= 0x1000_0000,
        lba <= 0x1000_0000,
    ensures
        final(target).wf(),
        (r is Ok) <==> (data@.len() == 0 || lba + (data@.len() + 511) / 512 <= RAMDISK_SECTORS),
        r is Ok && data@.len() > 0 ==> final(target)@ == splice(old(target)@, lba * 512, padded(data@)),
        data@.len() == 0 ==> final(target)@ == old(target)@,
{
    let count: u32 = sectors_for(data.len());
    let ghost p = padded(data@);
    proof {
        assert(p.len() == count * 512) by (nonlinear_arith)
            requires
                p.len() == data@.len() + ((data@.len() + 511) / 512 * 512 - data@.len()),
                count == (data@.len() + 511) / 512,
                (data@.len() + 511) / 512 * 512 >= data@.len(),
        {
        }
    }
    let mut i: u32 = 0;
    while i < count
        invariant
            target.wf(),
            count == (data@.len() + 511) / 512,
            p == padded(data@),
            p.len() == count * 512,
            data@.len() <= 0x1000_0000,
            lba <= 0x1000_0000,
            i <= count,
            i > 0 ==> lba + i <= RAMDISK_SECTORS,
            i == 0 ==> target@ == old(target)@,
            i > 0 ==> target@ == splice(old(target)@, lba * 512, p.subrange(0, i * 512)),
            old(target)@.len() == crate::ramdisk::RAMDISK_SIZE,
        decreases count - i,
    {
        let mut buf: Vec<u8> = crate::bytes::zeros(512);
        let start: usize = i as usize * 512;
        assert(start < data@.len()) by (nonlinear_arith)
            requires
                i < count,
                count == (data@.len() + 511) / 512,
                start == i * 512,
        ;
        let end: usize = if start + 512 < data.len() { start + 512 } else { data.len() };
        let part: Vec<u8> = crate::bytes::copy_range(data, start, end);
        crate::bytes::write_bytes(&mut buf, 0, part.as_slice());
        let ghost before = target@;
        match target.write_sectors(lba + i, 1, buf.as_slice()) {
            Ok(()) => {},
            Err(()) => {
                return Err(());
            },
        }
        proof {
            assert(buf@ =~= p.subrange(start as int, start + 512));
            assert(buf@.subrange(0, 512) =~= buf@);
            assert(p.subrange(0, i * 512) + p.subrange(start as int, start + 512) =~= p.subrange(0, (i + 1) * 512));
            assert(lba + i + 1 <= RAMDISK_SECTORS);
            assert(old(target)@.len() == RAMDISK_SECTORS * 512);
            assert(lba * 512 + i * 512 + 512 <= old(target)@.len());
            if i == 0 {
                assert(p.subrange(start as int, start + 512) =~= p.subrange(0, (i + 1) * 512));
            } else {
                crate::bytes::lemma_splice_append(old(target)@, lba * 512, p.subrange(0, i * 512), p.subrange(start as int, start + 512));
            }
        }
        i = i + 1;
    }
    assert(p.subrange(0, count * 512) =~= p);
    proof {
        if data@.len() == 0 {
            assert(count == 0);
        }
    }
    Ok(())
}

/// The boot images written into the kernel area stay there when every
/// later write lies past them.
#[verifier::rlimit(40)]
proof fn lemma_image_boot_kept(
    stage2: Seq<u8>,
    ramboot: Seq<u8>,
    ks: int,
    t4: Seq<u8>,
    t5: Seq<u8>,
    t6: Seq<u8>,
    t7: Seq<u8>,
    fin: Seq<u8>,
    src: Seq<u8>,
)
    requires
        0 <= ks,
        t4.len() == crate::ramdisk::RAMDISK_SIZE,
        t5.len() == crate::ramdisk::RAMDISK_SIZE,
        t6.len() == crate::ramdisk::RAMDISK_SIZE,
        t7.len() == crate::ramdisk::RAMDISK_SIZE,
        fin.len() == crate::ramdisk::RAMDISK_SIZE,
        padded(stage2).len() == (stage2.len() + 511) / 512 * 512,
        padded(ramboot).len() == (ramboot.len() + 511) / 512 * 512,
        ({
            let s2: int = ((stage2.len() + 511) / 512) as int;
            let rb: int = ((ramboot.len() + 511) / 512) as int;
            let kstart = 1 + s2 + rb;
            let total = s2 + rb + ks;
            &&& total <= KERNEL_AREA_SECTORS ==> t4.subrange(512, 512 + padded(stage2).len() as int) == padded(stage2)
            &&& total <= KERNEL_AREA_SECTORS ==> t4.subrange(512 * (1 + s2), 512 * (1 + s2) + padded(ramboot).len() as int) == padded(ramboot)
            &&& t5.subrange(0, kstart * 512) == t4.subrange(0, kstart * 512)
            &&& forall|i: int| 0 <= i < ks ==> #[trigger] sectors(t5, kstart + i, 1) == sectors(src, kstart + i, 1)
            &&& total < KERNEL_AREA_SECTORS ==> t6.subrange(0, (1 + total) * 512) == t5.subrange(0, (1 + total) * 512)
            &&& total < KERNEL_AREA_SECTORS ==> forall|k: int| total <= k < KERNEL_AREA_SECTORS ==> #[trigger] sectors(t6, 1 + k, 1) == zero_sector()
            &&& total >= KERNEL_AREA_SECTORS ==> t6 == t5
        }),
        t7.subrange(0, PART_SYSTEM_START * 512) == t6.subrange(0, PART_SYSTEM_START * 512),
        fin.subrange(0, PART_USERDATA_START * 512) == t7.subrange(0, PART_USERDATA_START * 512),
    ensures
        ({
            let s2: int = ((stage2.len() + 511) / 512) as int;
            let rb: int = ((ramboot.len() + 511) / 512) as int;
            let kstart = 1 + s2 + rb;
            s2 + rb + ks <= KERNEL_AREA_SECTORS ==> {
                &&& fin.subrange(512, 512 + padded(stage2).len() as int) == padded(stage2)
                &&& fin.subrange(512 * (1 + s2), 512 * (1 + s2) + padded(ramboot).len() as int) == padded(ramboot)
                &&& forall|i: int| 0 <= i < ks ==> #[trigger] sectors(fin, kstart + i, 1) == sectors(src, kstart + i, 1)
                &&& forall|k: int| s2 + rb + ks <= k < KERNEL_AREA_SECTORS ==> #[trigger] sectors(fin, 1 + k, 1) == zero_sector()
            }
        }),
{
    let s2: int = ((stage2.len() + 511) / 512) as int;
    let rb: int = ((ramboot.len() + 511) / 512) as int;
    let kstart = 1 + s2 + rb;
    let total = s2 + rb + ks;
    if total <= KERNEL_AREA_SECTORS {
        let lim = (1 + KERNEL_AREA_SECTORS) * 512;
        // every region below lim is the same in fin and t6
        assert forall|a: int, b: int| 0 <= a <= b <= lim implies #[trigger] fin.subrange(a, b) == t6.subrange(a, b) by {
            assert(fin.subrange(a, b) =~= fin.subrange(0, PART_USERDATA_START * 512).subrange(a, b));
            assert(t7.subrange(a, b) =~= t7.subrange(0, PART_USERDATA_START * 512).subrange(a, b));
            assert(t7.subrange(a, b) =~= t7.subrange(0, PART_SYSTEM_START * 512).subrange(a, b));
            assert(t6.subrange(a, b) =~= t6.subrange(0, PART_SYSTEM_START * 512).subrange(a, b));
        }
        // and below the end of the kernel, t6 is t5
        assert forall|a: int, b: int| 0 <= a <= b <= (1 + total) * 512 implies #[trigger] t6.subrange(a, b) == t5.subrange(a, b) by {
            if total < KERNEL_AREA_SECTORS {
                assert(t6.subrange(a, b) =~= t6.subrange(0, (1 + total) * 512).subrange(a, b));
                assert(t5.subrange(a, b) =~= t5.subrange(0, (1 + total) * 512).subrange(a, b));
            }
        }
        assert forall|a: int, b: int| 0 <= a <= b <= kstart * 512 implies #[trigger] t5.subrange(a, b) == t4.subrange(a, b) by {
            assert(t5.subrange(a, b) =~= t5.subrange(0, kstart * 512).subrange(a, b));
            assert(t4.subrange(a, b) =~= t4.subrange(0, kstart * 512).subrange(a, b));
        }
        assert(fin.subrange(512, 512 + padded(stage2).len() as int) == t6.subrange(512, 512 + padded(stage2).len() as int));
        assert(t6.subrange(512, 512 + padded(stage2).len() as int) == t5.subrange(512, 512 + padded(stage2).len() as int));
        let ro = 512 * (1 + s2);
        assert(fin.subrange(ro, ro + padded(ramboot).len() as int) == t6.subrange(ro, ro + padded(ramboot).len() as int));
        assert(t6.subrange(ro, ro + padded(ramboot).len() as int) == t5.subrange(ro, ro + padded(ramboot).len() as int));
        assert forall|i: int| 0 <= i < ks implies #[trigger] sectors(fin, kstart + i, 1) == sectors(src, kstart + i, 1) by {
            assert(fin.subrange((kstart + i) * 512, (kstart + i + 1) * 512) == t6.subrange((kstart + i) * 512, (kstart + i + 1) * 512));
            assert(t6.subrange((kstart + i) * 512, (kstart + i + 1) * 512) == t5.subrange((kstart + i) * 512, (kstart + i + 1) * 512));
            assert(sectors(t5, kstart + i, 1) == sectors(src, kstart + i, 1));
        }
        assert forall|k: int| total <= k < KERNEL_AREA_SECTORS implies #[trigger] sectors(fin, 1 + k, 1) == zero_sector() by {
            assert(fin.subrange((1 + k) * 512, (1 + k + 1) * 512) == t6.subrange((1 + k) * 512, (1 + k + 1) * 512));
            assert(sectors(t6, 1 + k, 1) == zero_sector());
        }
    }
}

/// Bytes of a kernel area cleared sector: 512 zeros.
pub open spec fn zero_sector() -> Seq<u8> {
    Seq::new(512, |i: int| 0u8)
}

/// A data run padded to whole sectors takes `(len + 511) / 512` sectors.
pub proof fn lemma_padded_len(d: Seq<u8>)
    ensures
        padded(d).len() == (d.len() + 511) / 512 * 512,
{
    assert((d.len() + 511) / 512 * 512 >= d.len()) by (nonlinear_arith);
}

/// Writes the installed image onto `target`: the MBR over `boot_sector`,
/// a cleared marker sector 4095, the second stage and the RAM-disk
/// loader, `kernel_sectors` kernel sectors and the /system partition
/// copied from `source`, zeros up to the end of the kernel area, and the
/// /userdata volume. Errors of the sector writes are passed on; the
/// /system copy skips sectors that fail. When the boot images fit the
/// kernel area, they are found where they were written.
#[verifier::spinoff_prover]
#[verifier::rlimit(60)]
pub fn write_image_to(
    target: &mut RamDisk,
    source: &RamDisk,
    boot_sector: &[u8],
    stage2: &[u8],
    ramboot: &[u8],
    kernel_sectors: u32,
) -> (r: Result<(), ()>)
    requires
        old(target).wf(),
        source.wf(),
        stage2@.len() <= 0x100_0000,
        ramboot@.len() <= 0x100_0000,
        kernel_sectors <= 0x100_0000,
    ensures
        final(target).wf(),
        r is Ok ==> crate::ext2::formatted(final(target)@),
        r is Ok ==> vol_block(final(target)@, PART_USERDATA_START as int, 1) == superblock_layout(704, 2816, 2721, 693, 0x6000_0000),
        1 + (stage2@.len() + 511) / 512 + (ramboot@.len() + 511) / 512 + kernel_sectors <= RAMDISK_SECTORS ==> r is Ok,
        r is Ok ==> final(target)@.subrange(0, 512) == mbr_layout(boot_sector@),
        r is Ok ==> forall|j: int| 0 <= j < PART_SYSTEM_SECTORS ==> #[trigger] sectors(final(target)@, PART_SYSTEM_START + j, 1)
            == sectors(source@, PART_SYSTEM_START + j, 1),
        ({
            let s2: int = ((stage2@.len() + 511) / 512) as int;
            let rb: int = ((ramboot@.len() + 511) / 512) as int;
            let kstart = 1 + s2 + rb;
            r is Ok && s2 + rb + kernel_sectors <= KERNEL_AREA_SECTORS ==> {
                &&& final(target)@.subrange(512, 512 + padded(stage2@).len() as int) == padded(stage2@)
                &&& final(target)@.subrange(512 * (1 + s2), 512 * (1 + s2) + padded(ramboot@).len() as int) == padded(ramboot@)
                &&& forall|i: int| 0 <= i < kernel_sectors ==> #[trigger] sectors(final(target)@, kstart + i, 1) == sectors(
                    source@,
                    kstart + i,
                    1,
                )
                &&& forall|k: int| s2 + rb + kernel_sectors <= k < KERNEL_AREA_SECTORS ==> #[trigger] sectors(
                    final(target)@,
                    1 + k,
                    1,
                ) == zero_sector()
            }
        }),
{
    let ghost fits = 1 + (stage2@.len() + 511) / 512 + (ramboot@.len() + 511) / 512 + kernel_sectors <= RAMDISK_SECTORS;
    let ghost len: int = crate::ramdisk::RAMDISK_SIZE as int;
    let mbr: Vec<u8> = build_mbr(boot_sector);
    target.write_sectors(0, 1, mbr.as_slice())?;
    proof {
        assert(mbr@.subrange(0, 512) =~= mbr@);
        assert(target@.subrange(0, 512) =~= mbr@);
    }
    let zero: Vec<u8> = crate::bytes::zeros(512);
    let ghost t1 = target@;
    target.write_sectors(4095, 1, zero.as_slice())?;
    proof {
        lemma_splice_keeps(t1, 4095int * 512, zero@.subrange(0, 512), 0, 512);
    }
    let stage2_sectors: u32 = sectors_for(stage2.len());
    let ghost t2 = target@;
    proof {
        lemma_padded_len(stage2@);
        lemma_padded_len(ramboot@);
    }
    write_padded(target, 1, stage2)?;
    proof {
        if stage2@.len() > 0 {
            lemma_splice_keeps(t2, 512, padded(stage2@), 0, 512);
            lemma_splice_holds(t2, 512, padded(stage2@));
        } else {
            assert(padded(stage2@).len() == 0);
            assert(target@.subrange(512, 512) =~= padded(stage2@));
        }
    }
    let rbs: u32 = sectors_for(ramboot.len());
    let ghost t3 = target@;
    let ghost p2 = padded(stage2@);
    let ghost pr = padded(ramboot@);
    let ghost ro: int = 512 * (1 + stage2_sectors);
    write_padded(target, 1 + stage2_sectors, ramboot)?;
    proof {
        if ramboot@.len() > 0 {
            lemma_splice_keeps(t3, ro, pr, 0, 512);
            lemma_splice_keeps(t3, ro, pr, 512, 512 + p2.len() as int);
            lemma_splice_holds(t3, ro, pr);
        } else {
            assert(target@.subrange(ro, ro) =~= pr);
        }
    }
    let kstart: u32 = kernel_start_lba(stage2.len(), ramboot.len());
    let ghost t4 = target@;
    let mut buf: Vec<u8> = crate::bytes::zeros(512);
    let mut i: u32 = 0;
    while i < kernel_sectors
        invariant
            target.wf(),
            source.wf(),
            buf@.len() == 512,
            kstart <= 0x10_0000,
            kernel_sectors <= 0x100_0000,
            i <= kernel_sectors,
            fits == (kstart + kernel_sectors <= RAMDISK_SECTORS),
            fits == (1 + (stage2@.len() + 511) / 512 + (ramboot@.len() + 511) / 512 + kernel_sectors <= RAMDISK_SECTORS),
            kstart * 512 == ro + pr.len(),
            ro == 512 + p2.len(),
            target@.subrange(0, kstart * 512) == t4.subrange(0, kstart * 512),
            forall|ii: int| 0 <= ii < i ==> #[trigger] sectors(target@, kstart + ii, 1) == sectors(source@, kstart + ii, 1),
        decreases kernel_sectors - i,
    {
        let ghost b0 = buf@;
        source.read_sectors(kstart + i, 1, &mut buf)?;
        let ghost c0 = target@;
        target.write_sectors(kstart + i, 1, buf.as_slice())?;
        proof {
            let sec = sectors(source@, kstart + i, 1);
            assert(buf@.subrange(0, 512) =~= sec);
            lemma_splice_keeps(c0, (kstart + i) * 512, sec, 0, kstart * 512);
            lemma_splice_holds(c0, (kstart + i) * 512, sec);
            assert forall|ii: int| 0 <= ii < i + 1 implies #[trigger] sectors(target@, kstart + ii, 1) == sectors(
                source@,
                kstart + ii,
                1,
            ) by {
                if ii < i {
                    assert(sectors(c0, kstart + ii, 1) == sectors(source@, kstart + ii, 1));
                    lemma_splice_keeps(c0, (kstart + i) * 512, sec, (kstart + ii) * 512, (kstart + ii + 1) * 512);
                } else {
                    assert(sec.len() == 512);
                }
            }
        }
        i = i + 1;
    }
    let total: u32 = stage2_sectors + rbs + kernel_sectors;
    let ghost t5 = target@;
    if total < KERNEL_AREA_SECTORS {
        let mut k: u32 = total;
        while k < KERNEL_AREA_SECTORS
            invariant
                target.wf(),
                zero@.len() == 512,
                zero@ == zero_sector(),
                total <= k <= KERNEL_AREA_SECTORS,
                total == stage2_sectors + rbs + kernel_sectors,
                kstart == 1 + stage2_sectors + rbs,
                target@.subrange(0, (1 + total) * 512) == t5.subrange(0, (1 + total) * 512),
                forall|kk: int| total <= kk < k ==> #[trigger] sectors(target@, 1 + kk, 1) == zero_sector(),
            decreases KERNEL_AREA_SECTORS - k,
        {
            let ghost c0 = target@;
            target.write_sectors(1 + k, 1, zero.as_slice())?;
            proof {
                assert(zero@.subrange(0, 512) =~= zero@);
                lemma_splice_keeps(c0, (1 + k) * 512, zero@, 0, (1 + total) * 512);
                lemma_splice_holds(c0, (1 + k) * 512, zero@);
                assert forall|kk: int| total <= kk < k + 1 implies #[trigger] sectors(target@, 1 + kk, 1) == zero_sector() by {
                    if kk < k {
                        assert(sectors(c0, 1 + kk, 1) == zero_sector());
                        lemma_splice_keeps(c0, (1 + k) * 512, zero@, (1 + kk) * 512, (1 + kk + 1) * 512);
                    } else {
                        assert(zero@.len() == 512);
                    }
                }
            }
            k = k + 1;
        }
    }
    let ghost t6 = target@;
    let mut sbuf: Vec<u8> = crate::bytes::zeros(512);
    let mut j: u32 = 0;
    while j < PART_SYSTEM_SECTORS
        invariant
            target.wf(),
            source.wf(),
            sbuf@.len() == 512,
            j <= PART_SYSTEM_SECTORS,
            target@.subrange(0, PART_SYSTEM_START * 512) == t6.subrange(0, PART_SYSTEM_START * 512),
            forall|jj: int| 0 <= jj < j ==> #[trigger] sectors(target@, PART_SYSTEM_START + jj, 1) == sectors(
                source@,
                PART_SYSTEM_START + jj,
                1,
            ),
        decreases PART_SYSTEM_SECTORS - j,
    {
        let ghost c0 = target@;
        if source.read_sectors(PART_SYSTEM_START + j, 1, &mut sbuf).is_ok() {
            let _ = target.write_sectors(PART_SYSTEM_START + j, 1, sbuf.as_slice());
        }
        proof {
            let sec = sectors(source@, PART_SYSTEM_START + j, 1);
            let o = (PART_SYSTEM_START + j) * 512;
            assert(sbuf@.subrange(0, 512) =~= sec);
            lemma_splice_keeps(c0, o, sec, 0, PART_SYSTEM_START * 512);
            lemma_splice_holds(c0, o, sec);
            assert forall|jj: int| 0 <= jj < j + 1 implies #[trigger] sectors(target@, PART_SYSTEM_START + jj, 1) == sectors(
                source@,
                PART_SYSTEM_START + jj,
                1,
            ) by {
                if jj < j {
                    assert(sectors(c0, PART_SYSTEM_START + jj, 1) == sectors(source@, PART_SYSTEM_START + jj, 1));
                    lemma_splice_keeps(c0, o, sec, (PART_SYSTEM_START + jj) * 512, (PART_SYSTEM_START + jj + 1) * 512);
                } else {
                    assert(sec.len() == 512);
                }
            }
        }
        j = j + 1;
    }
    let ghost t7 = target@;
    write_userdata_ext2(target);
    proof {
        assert(target@.subrange(0, 512) =~= target@.subrange(0, PART_USERDATA_START * 512).subrange(0, 512));
        assert(t7.subrange(0, 512) =~= t7.subrange(0, PART_USERDATA_START * 512).subrange(0, 512));
        assert(t7.subrange(0, 512) =~= t7.subrange(0, PART_SYSTEM_START * 512).subrange(0, 512));
        assert(t6.subrange(0, 512) =~= t6.subrange(0, PART_SYSTEM_START * 512).subrange(0, 512));
        assert forall|jj: int| 0 <= jj < PART_SYSTEM_SECTORS implies #[trigger] sectors(target@, PART_SYSTEM_START + jj, 1)
            == sectors(source@, PART_SYSTEM_START + jj, 1) by {
            let lo = (PART_SYSTEM_START + jj) * 512;
            assert(sectors(t7, PART_SYSTEM_START + jj, 1) == sectors(source@, PART_SYSTEM_START + jj, 1));
            assert(target@.subrange(lo, lo + 512) =~= target@.subrange(0, PART_USERDATA_START * 512).subrange(lo, lo + 512));
            assert(t7.subrange(lo, lo + 512) =~= t7.subrange(0, PART_USERDATA_START * 512).subrange(lo, lo + 512));
        }
        lemma_image_boot_kept(stage2@, ramboot@, kernel_sectors as int, t4, t5, t6, t7, target@, source@);
    }
    Ok(())
}
} // verus!
