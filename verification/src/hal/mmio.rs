//! Memory-mapped device registers, modelled as the bytes of the region.
use vstd::prelude::*;
use crate::bytes::{le32, le32_bytes, splice};

verus! {

/// A register window of `size` bytes at physical address `base`; `regs`
/// holds the current contents of the window.
pub struct MmioRegion {
    base: u64,
    size: u64,
    regs: Vec<u8>,
}

impl View for MmioRegion {
    type V = Seq<u8>;

    closed spec fn view(&self) -> Seq<u8> {
        self.regs@
    }
}

impl MmioRegion {
    pub open spec fn wf(&self) -> bool {
        self@.len() == self.spec_size()
    }

    pub closed spec fn spec_base(&self) -> u64 {
        self.base
    }

    pub closed spec fn spec_size(&self) -> u64 {
        self.size
    }

    /// A window over `size` bytes of registers that all read as zero.
    pub fn new(base: u64, size: u64) -> (r: MmioRegion)
        requires
            size <= usize::MAX,
        ensures
            r.wf(),
            r.spec_base() == base,
            r.spec_size() == size,
            r@ == Seq::new(size as nat, |i: int| 0u8),
    {
        let regs: Vec<u8> = crate::bytes::zeros(size as usize);
        MmioRegion { base, size, regs }
    }

    pub fn base(&self) -> (r: u64)
        ensures
            r == self.spec_base(),
    {
        self.base
    }

    pub fn size(&self) -> (r: u64)
        ensures
            r == self.spec_size(),
    {
        self.size
    }

    fn check(&self, offset: u64, width: u64) -> (r: bool)
        ensures
            r == (offset + width <= self.spec_size()),
    {
        match offset.checked_add(width) {
            Some(end) => end <= self.size,
            None => false,
        }
    }

    /// The 32-bit register at `offset`, if it lies inside the window.
    pub fn read32(&self, offset: u64) -> (r: Option<u32>)
        requires
            self.wf(),
        ensures
            offset + 4 <= self.spec_size() ==> r == Some(le32(self@, offset as int) as u32),
            offset + 4 > self.spec_size() ==> r is None,
    {
        if !self.check(offset, 4) {
            return None;
        }
        let _n: usize = self.regs.len();
        assert(offset + 4 <= self.regs@.len());
        let o: usize = offset as usize;
        assert(o == offset);
        Some(crate::bytes::rd_le32(self.regs.as_slice(), o))
    }

    /// Writes the 32-bit register at `offset`; false if outside the window.
    pub fn write32(&mut self, offset: u64, value: u32) -> (r: bool)
        requires
            old(self).wf(),
        ensures
            final(self).wf(),
            final(self).spec_base() == old(self).spec_base(),
            final(self).spec_size() == old(self).spec_size(),
            r == (offset + 4 <= old(self).spec_size()),
            r ==> final(self)@ == splice(old(self)@, offset as int, le32_bytes(value)),
            !r ==> final(self)@ == old(self)@,
    {
        if !self.check(offset, 4) {
            return false;
        }
        let _n: usize = self.regs.len();
        assert(offset + 4 <= self.regs@.len());
        let o: usize = offset as usize;
        assert(o == offset);
        crate::bytes::put_le32(&mut self.regs, o, value);
        true
    }

    /// Clears the bits of `mask` in the register at `offset` and sets those
    /// of `value` (`reg = (reg & !mask) | value`); false if outside the
    /// window.
    pub fn modify32(&mut self, offset: u64, mask: u32, value: u32) -> (r: bool)
        requires
            old(self).wf(),
        ensures
            final(self).wf(),
            final(self).spec_base() == old(self).spec_base(),
            final(self).spec_size() == old(self).spec_size(),
            r == (offset + 4 <= old(self).spec_size()),
            r ==> final(self)@ == splice(
                old(self)@,
                offset as int,
                le32_bytes((le32(old(self)@, offset as int) as u32 & !mask) | value),
            ),
            !r ==> final(self)@ == old(self)@,
    {
        match self.read32(offset) {
            Some(cur) => self.write32(offset, (cur & !mask) | value),
            None => false,
        }
    }

    /// Polls the register at `offset` until its `mask` bits equal
    /// `expected`, waiting 10 µs between reads, for at most `timeout_us`.
    /// The window holds its contents between reads, so the first read
    /// decides.
    pub fn wait_for(&self, offset: u64, mask: u32, expected: u32, timeout_us: u64) -> (r: bool)
        requires
            self.wf(),
            timeout_us <= u64::MAX - 10,
        ensures
            r == (offset + 4 <= self.spec_size() && (le32(self@, offset as int) as u32 & mask)
                == expected),
    {
        let mut waited: u64 = 0;
        loop
            invariant
                self.wf(),
                waited <= timeout_us + 10,
                timeout_us <= u64::MAX - 10,
            decreases timeout_us + 10 - waited,
        {
            match self.read32(offset) {
                Some(v) => {
                    if v & mask == expected {
                        return true;
                    }
                },
                None => {},
            }
            if waited >= timeout_us {
                return false;
            }
            crate::hal::udelay(10);
            waited = waited + 10;
        }
    }
}

} // verus!
