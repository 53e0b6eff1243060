//! The RAM disk: the disk image the boot loader copied into memory, read
//! and written sector by sector.
use vstd::prelude::*;
use crate::bytes::splice;

verus! {

pub const RAMDISK_BASE: usize = 0x2000000;
pub const RAMDISK_SECTORS: u32 = 20480;
pub const RAMDISK_SIZE: usize = 20480 * 512;
pub const SECTOR_SIZE: usize = 512;

/// The image (`RAMDISK_SIZE` bytes) and whether it was recognised as a
/// disk (an MBR signature at the end of its first sector).
pub struct RamDisk {
    image: Vec<u8>,
    active: bool,
}

impl View for RamDisk {
    type V = Seq<u8>;

    closed spec fn view(&self) -> Seq<u8> {
        self.image@
    }
}

/// Bytes of sector `lba` of an image.
pub open spec fn sector(img: Seq<u8>, lba: int) -> Seq<u8> {
    img.subrange(lba * 512, lba * 512 + 512)
}

/// Bytes of sectors `lba .. lba + n`.
pub open spec fn sectors(img: Seq<u8>, lba: int, n: int) -> Seq<u8> {
    if n <= 0 {
        Seq::empty()
    } else {
        img.subrange(lba * 512, (lba + n) * 512)
    }
}

impl RamDisk {
    pub open spec fn wf(&self) -> bool {
        self@.len() == RAMDISK_SIZE
    }

    pub closed spec fn spec_active(&self) -> bool {
        self.active
    }

    /// A RAM disk over `image`, not yet checked.
    pub fn new(image: Vec<u8>) -> (r: RamDisk)
        requires
            image@.len() == RAMDISK_SIZE,
        ensures
            r.wf(),
            r@ == image@,
            !r.spec_active(),
    {
        RamDisk { image, active: false }
    }

    /// Checks the MBR signature 0x55 0xAA at bytes 510 and 511 and records
    /// whether the RAM disk is in use.
    pub fn init(&mut self) -> (r: bool)
        requires
            old(self).wf(),
        ensures
            final(self).wf(),
            final(self)@ == old(self)@,
            r == (old(self)@[510] == 0x55 && old(self)@[511] == 0xAA),
            final(self).spec_active() == r,
    {
        let ok: bool = self.image[510] == 0x55 && self.image[511] == 0xAA;
        self.active = ok;
        ok
    }

    pub fn is_active(&self) -> (r: bool)
        ensures
            r == self.spec_active(),
    {
        self.active
    }

    /// Copies sector `lba` into the first 512 bytes of `buf`.
    pub fn read_sector(&self, lba: u32, buf: &mut Vec<u8>) -> (r: Result<(), ()>)
        requires
            self.wf(),
        ensures
            r is Ok <==> (old(buf)@.len() >= SECTOR_SIZE && lba < RAMDISK_SECTORS),
            r is Ok ==> final(buf)@ == splice(old(buf)@, 0, sector(self@, lba as int)),
            r is Err ==> final(buf)@ == old(buf)@,
    {
        self.read_sector_at(lba, buf, 0)
    }

    fn read_sector_at(&self, lba: u32, buf: &mut Vec<u8>, off: usize) -> (r: Result<(), ()>)
        requires
            self.wf(),
        ensures
            r is Ok <==> (old(buf)@.len() >= off + SECTOR_SIZE && lba < RAMDISK_SECTORS),
            r is Ok ==> final(buf)@ == splice(old(buf)@, off as int, sector(self@, lba as int)),
            r is Err ==> final(buf)@ == old(buf)@,
    {
        if buf.len() < SECTOR_SIZE || buf.len() - SECTOR_SIZE < off {
            return Err(());
        }
        if lba >= RAMDISK_SECTORS {
            return Err(());
        }
        let src: usize = lba as usize * SECTOR_SIZE;
        let _n: usize = buf.len();
        let ghost b0 = buf@;
        let mut i: usize = 0;
        while i < SECTOR_SIZE
            invariant
                self.wf(),
                lba < RAMDISK_SECTORS,
                src == lba * 512,
                off + SECTOR_SIZE <= b0.len(),
                b0.len() == _n,
                buf@.len() == b0.len(),
                i <= SECTOR_SIZE,
                buf@ == splice(b0, off as int, self@.subrange(src as int, src + i)),
            decreases SECTOR_SIZE - i,
        {
            let b: u8 = self.image[src + i];
            buf.set(off + i, b);
            i = i + 1;
            assert(buf@ =~= splice(b0, off as int, self@.subrange(src as int, src + i)));
        }
        Ok(())
    }

    /// Reads `count` sectors from `lba` into `buf`, stopping at the first
    /// sector that cannot be read.
    pub fn read_sectors(&self, lba: u32, count: u8, buf: &mut Vec<u8>) -> (r: Result<(), ()>)
        requires
            self.wf(),
        ensures
            r is Ok <==> (old(buf)@.len() >= count * SECTOR_SIZE && (count == 0 || lba + count
                <= RAMDISK_SECTORS)),
            r is Ok ==> final(buf)@ == splice(old(buf)@, 0, sectors(self@, lba as int, count as int)),
            final(buf)@.len() == old(buf)@.len(),
    {
        if buf.len() < count as usize * SECTOR_SIZE {
            return Err(());
        }
        let ghost b0 = buf@;
        proof {
            crate::bytes::lemma_splice_empty(b0, 0);
            assert(sectors(self@, lba as int, 0) =~= Seq::<u8>::empty());
        }
        let mut i: u32 = 0;
        while i < count as u32
            invariant
                self.wf(),
                b0 == old(buf)@,
                b0.len() >= count * SECTOR_SIZE,
                buf@.len() == b0.len(),
                i <= count,
                i > 0 ==> lba + i <= RAMDISK_SECTORS,
                buf@ == splice(b0, 0, sectors(self@, lba as int, i as int)),
            decreases count - i,
        {
            let off: usize = (i as usize) * SECTOR_SIZE;
            if lba >= RAMDISK_SECTORS - i {
                return Err(());
            }
            let ghost before = buf@;
            match self.read_sector_at(lba + i, buf, off) {
                Ok(()) => {},
                Err(()) => {
                    return Err(());
                },
            }
            assert(sectors(self@, lba as int, i + 1) =~= sectors(self@, lba as int, i as int) + sector(self@, lba + i));
            proof {
                crate::bytes::lemma_splice_append(b0, 0, sectors(self@, lba as int, i as int), sector(self@, lba + i));
            }
            assert(buf@ =~= splice(b0, 0, sectors(self@, lba as int, i + 1)));
            i = i + 1;
        }
        Ok(())
    }

    /// Writes the first 512 bytes of `data` to sector `lba`.
    pub fn write_sector(&mut self, lba: u32, data: &[u8]) -> (r: Result<(), ()>)
        requires
            old(self).wf(),
        ensures
            final(self).wf(),
            final(self).spec_active() == old(self).spec_active(),
            r is Ok <==> (data@.len() >= SECTOR_SIZE && lba < RAMDISK_SECTORS),
            r is Ok ==> final(self)@ == splice(old(self)@, lba * 512, data@.subrange(0, 512)),
            r is Err ==> final(self)@ == old(self)@,
    {
        self.write_sector_from(lba, data, 0)
    }

    fn write_sector_from(&mut self, lba: u32, data: &[u8], off: usize) -> (r: Result<(), ()>)
        requires
            old(self).wf(),
        ensures
            final(self).wf(),
            final(self).spec_active() == old(self).spec_active(),
            r is Ok <==> (data@.len() >= off + SECTOR_SIZE && lba < RAMDISK_SECTORS),
            r is Ok ==> final(self)@ == splice(old(self)@, lba * 512, data@.subrange(off as int, off + 512)),
            r is Err ==> final(self)@ == old(self)@,
    {
        if data.len() < SECTOR_SIZE || data.len() - SECTOR_SIZE < off {
            return Err(());
        }
        if lba >= RAMDISK_SECTORS {
            return Err(());
        }
        let dst: usize = lba as usize * SECTOR_SIZE;
        let _n: usize = data.len();
        let ghost i0 = self@;
        let mut i: usize = 0;
        while i < SECTOR_SIZE
            invariant
                self.image@.len() == RAMDISK_SIZE,
                i0.len() == RAMDISK_SIZE,
                self.active == old(self).active,
                i0 == old(self)@,
                lba < RAMDISK_SECTORS,
                dst == lba * 512,
                off + SECTOR_SIZE <= data@.len(),
                data@.len() == _n,
                i <= SECTOR_SIZE,
                self@ == splice(i0, dst as int, data@.subrange(off as int, off + i)),
            decreases SECTOR_SIZE - i,
        {
            self.image.set(dst + i, data[off + i]);
            i = i + 1;
            assert(self@ =~= splice(i0, dst as int, data@.subrange(off as int, off + i)));
        }
        Ok(())
    }

    /// Writes `count` sectors from `data` starting at `lba`, stopping at the
    /// first sector that cannot be written.
    pub fn write_sectors(&mut self, lba: u32, count: u8, data: &[u8]) -> (r: Result<(), ()>)
        requires
            old(self).wf(),
        ensures
            final(self).wf(),
            final(self).spec_active() == old(self).spec_active(),
            r is Ok <==> (data@.len() >= count * SECTOR_SIZE && (count == 0 || lba + count
                <= RAMDISK_SECTORS)),
            r is Ok && count > 0 ==> final(self)@ == splice(old(self)@, lba * 512, data@.subrange(0, count * 512)),
            count == 0 ==> final(self)@ == old(self)@,
    {
        if data.len() < count as usize * SECTOR_SIZE {
            return Err(());
        }
        let ghost i0 = self@;
        let mut i: u32 = 0;
        while i < count as u32
            invariant
                self.wf(),
                self.spec_active() == old(self).spec_active(),
                i0 == old(self)@,
                i0.len() == RAMDISK_SIZE,
                data@.len() >= count * SECTOR_SIZE,
                i <= count,
                i > 0 ==> lba + i <= RAMDISK_SECTORS,
                i == 0 ==> self@ == i0,
                i > 0 ==> self@ == splice(i0, lba * 512, data@.subrange(0, i * 512)),
            decreases count - i,
        {
            let off: usize = (i as usize) * SECTOR_SIZE;
            if lba >= RAMDISK_SECTORS - i {
                return Err(());
            }
            match self.write_sector_from(lba + i, data, off) {
                Ok(()) => {},
                Err(()) => {
                    return Err(());
                },
            }
            proof {
                assert(off == i * 512);
                assert(lba + i < RAMDISK_SECTORS);
                assert(data@.subrange(0, (i + 1) * 512) =~= data@.subrange(0, i * 512) + data@.subrange(off as int, off + 512));
                if i == 0 {
                    assert(data@.subrange(0, 512) =~= data@.subrange(off as int, off + 512));
                } else {
                    assert(data@.subrange(0, i * 512).len() == i * 512);
                    crate::bytes::lemma_splice_append(i0, lba * 512, data@.subrange(0, i * 512), data@.subrange(off as int, off + 512));
                }
            }
            i = i + 1;
        }
        Ok(())
    }
}

} // verus!
