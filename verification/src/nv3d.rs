//! NVIDIA architectures, their 3D classes, and the PGRAPH push buffer,
//! written against a model of the card's BAR0 registers.
use vstd::prelude::*;
use crate::hal::mmio::MmioRegion;
use crate::pci::PciDevice;
use crate::bytes::{le32, le32_bytes, splice};

verus! {

pub const NV_PMC_BOOT_0: u64 = 0x000000;
pub const NV_PFB_CSTATUS: u64 = 0x10020C;
pub const NV_PGRAPH_CTX_CONTROL: u64 = 0x400224;
pub const NV_PGRAPH_CTX_USER: u64 = 0x400228;
pub const NV_PGRAPH_ABS_UCLIP_XMIN: u64 = 0x4002BC;
pub const NV_PGRAPH_ABS_UCLIP_YMIN: u64 = 0x4002C0;
pub const NV_PGRAPH_ABS_UCLIP_XMAX: u64 = 0x4002C4;
pub const NV_PGRAPH_ABS_UCLIP_YMAX: u64 = 0x4002C8;
pub const NV_PGRAPH_DEBUG3: u64 = 0x400308;
pub const NV_PGRAPH_STATE: u64 = 0x400320;
pub const NV_PGRAPH_STATUS: u64 = 0x400700;
pub const NV_PGRAPH_FIFO: u64 = 0x400720;

#[derive(Debug, Clone, Copy, PartialEq, Eq, Structural)]
pub enum NvArch {
    NV04,
    NV10,
    NV20,
    NV30,
    NV40,
    NV50,
    NVC0,
    NVE0,
    NV110,
    NV130,
    NV160,
    Unknown,
}

pub open spec fn arch_name(a: NvArch) -> Seq<char> {
    match a {
        NvArch::NV04 => "NV04 (Riva TNT / GeForce 256)"@,
        NvArch::NV10 => "NV10 (GeForce 2)"@,
        NvArch::NV20 => "NV20 (GeForce 3/4)"@,
        NvArch::NV30 => "NV30 (GeForce FX 5xxx)"@,
        NvArch::NV40 => "NV40 (GeForce 6xxx/7xxx)"@,
        NvArch::NV50 => "NV50 (Tesla — GeForce 8xxx/9xxx)"@,
        NvArch::NVC0 => "NVC0 (Fermi — GeForce 4xx/5xx)"@,
        NvArch::NVE0 => "NVE0 (Kepler — GeForce 6xx/7xx)"@,
        NvArch::NV110 => "NV110 (Maxwell — GeForce 7xx/9xx)"@,
        NvArch::NV130 => "NV130 (Pascal — GeForce 10xx)"@,
        NvArch::NV160 => "NV160 (Turing — GeForce 20xx)"@,
        NvArch::Unknown => "Unknown NVIDIA architecture"@,
    }
}

/// NV04 through NV40: the pre-Tesla families.
pub open spec fn is_legacy(a: NvArch) -> bool {
    a == NvArch::NV04 || a == NvArch::NV10 || a == NvArch::NV20 || a == NvArch::NV30 || a
        == NvArch::NV40
}

pub open spec fn d3d_class_spec(a: NvArch) -> Option<u32> {
    match a {
        NvArch::NV04 => Some(0x4Au32),
        NvArch::NV10 => Some(0x56u32),
        NvArch::NV20 => Some(0x62u32),
        NvArch::NV30 => Some(0x76u32),
        NvArch::NV40 => Some(0x4097u32),
        _ => None,
    }
}

impl NvArch {
    pub fn name(&self) -> (r: &'static str)
        ensures
            r@ == arch_name(*self),
    {
        match self {
            NvArch::NV04 => "NV04 (Riva TNT / GeForce 256)",
            NvArch::NV10 => "NV10 (GeForce 2)",
            NvArch::NV20 => "NV20 (GeForce 3/4)",
            NvArch::NV30 => "NV30 (GeForce FX 5xxx)",
            NvArch::NV40 => "NV40 (GeForce 6xxx/7xxx)",
            NvArch::NV50 => "NV50 (Tesla — GeForce 8xxx/9xxx)",
            NvArch::NVC0 => "NVC0 (Fermi — GeForce 4xx/5xx)",
            NvArch::NVE0 => "NVE0 (Kepler — GeForce 6xx/7xx)",
            NvArch::NV110 => "NV110 (Maxwell — GeForce 7xx/9xx)",
            NvArch::NV130 => "NV130 (Pascal — GeForce 10xx)",
            NvArch::NV160 => "NV160 (Turing — GeForce 20xx)",
            NvArch::Unknown => "Unknown NVIDIA architecture",
        }
    }

    pub fn has_legacy_modesetting(&self) -> (r: bool)
        ensures
            r == is_legacy(*self),
    {
        match self {
            NvArch::NV04 | NvArch::NV10 | NvArch::NV20 | NvArch::NV30 | NvArch::NV40 => true,
            _ => false,
        }
    }

    /// Tesla and later need signed firmware blobs.
    pub fn needs_signed_firmware(&self) -> (r: bool)
        ensures
            r == !(is_legacy(*self) || *self == NvArch::Unknown),
    {
        match self {
            NvArch::NV50 | NvArch::NVC0 | NvArch::NVE0 | NvArch::NV110 | NvArch::NV130
            | NvArch::NV160 => true,
            _ => false,
        }
    }

    pub fn has_open_3d_engine(&self) -> (r: bool)
        ensures
            r == is_legacy(*self),
    {
        match self {
            NvArch::NV04 | NvArch::NV10 | NvArch::NV20 | NvArch::NV30 | NvArch::NV40 => true,
            _ => false,
        }
    }

    /// The 3D object class of the architecture's open engine.
    pub fn d3d_class(&self) -> (r: Option<u32>)
        ensures
            r == d3d_class_spec(*self),
    {
        match self {
            NvArch::NV04 => Some(0x4A),
            NvArch::NV10 => Some(0x56),
            NvArch::NV20 => Some(0x62),
            NvArch::NV30 => Some(0x76),
            NvArch::NV40 => Some(0x4097),
            _ => None,
        }
    }
}

/// Architecture of a chipset id (bits 20..28 of PMC_BOOT_0).
pub open spec fn arch_of(id: u32) -> NvArch {
    if 0x04 <= id <= 0x09 {
        NvArch::NV04
    } else if 0x10 <= id <= 0x1F {
        NvArch::NV10
    } else if 0x20 <= id <= 0x2F {
        NvArch::NV20
    } else if 0x30 <= id <= 0x3F {
        NvArch::NV30
    } else if 0x40 <= id <= 0x4F {
        NvArch::NV40
    } else if 0x50 <= id <= 0xAF {
        NvArch::NV50
    } else if 0xC0 <= id <= 0xDF {
        NvArch::NVC0
    } else if 0xE0 <= id <= 0xFF {
        NvArch::NVE0
    } else if 0x110 <= id <= 0x12F {
        NvArch::NV110
    } else if 0x130 <= id <= 0x15F {
        NvArch::NV130
    } else if 0x160 <= id <= 0x17F {
        NvArch::NV160
    } else {
        NvArch::Unknown
    }
}

pub fn classify(id: u32) -> (r: NvArch)
    ensures
        r == arch_of(id),
{
    if 0x04 <= id && id <= 0x09 {
        NvArch::NV04
    } else if 0x10 <= id && id <= 0x1F {
        NvArch::NV10
    } else if 0x20 <= id && id <= 0x2F {
        NvArch::NV20
    } else if 0x30 <= id && id <= 0x3F {
        NvArch::NV30
    } else if 0x40 <= id && id <= 0x4F {
        NvArch::NV40
    } else if 0x50 <= id && id <= 0xAF {
        NvArch::NV50
    } else if 0xC0 <= id && id <= 0xDF {
        NvArch::NVC0
    } else if 0xE0 <= id && id <= 0xFF {
        NvArch::NVE0
    } else if 0x110 <= id && id <= 0x12F {
        NvArch::NV110
    } else if 0x130 <= id && id <= 0x15F {
        NvArch::NV130
    } else if 0x160 <= id && id <= 0x17F {
        NvArch::NV160
    } else {
        NvArch::Unknown
    }
}

/// Video memory size coded in bits 4..8 of PFB_CSTATUS.
pub open spec fn vram_size_of(cstatus: u32) -> nat {
    let a = (cstatus >> 4u32) & 0xFu32;
    if a == 0 {
        4 * 1024 * 1024
    } else if a == 1 {
        8 * 1024 * 1024
    } else if a == 2 {
        16 * 1024 * 1024
    } else if a == 3 {
        32 * 1024 * 1024
    } else if a == 4 {
        64 * 1024 * 1024
    } else if a == 5 {
        128 * 1024 * 1024
    } else {
        256 * 1024 * 1024
    }
}

pub fn vram_size(cstatus: u32) -> (r: usize)
    ensures
        r == vram_size_of(cstatus),
{
    let a: u32 = (cstatus >> 4) & 0xF;
    if a == 0 {
        4 * 1024 * 1024
    } else if a == 1 {
        8 * 1024 * 1024
    } else if a == 2 {
        16 * 1024 * 1024
    } else if a == 3 {
        32 * 1024 * 1024
    } else if a == 4 {
        64 * 1024 * 1024
    } else if a == 5 {
        128 * 1024 * 1024
    } else {
        256 * 1024 * 1024
    }
}

pub struct NvDevice {
    pub pci: PciDevice,
    pub architecture: NvArch,
    pub chipset_id: u32,
    pub mmio_base: usize,
    pub vram_size: usize,
    pub has_firmware: bool,
}

/// The device record built from BAR0 and the PMC_BOOT_0 and PFB_CSTATUS
/// register values.
pub fn describe_device(dev: PciDevice, bar0: u32, boot0: u32, cstatus: u32) -> (r: NvDevice)
    ensures
        r.pci == dev,
        r.mmio_base == bar0,
        r.chipset_id == (boot0 >> 20u32) & 0xFFu32,
        r.architecture == arch_of(r.chipset_id),
        r.vram_size == vram_size_of(cstatus),
        !r.has_firmware,
{
    let chipset_id: u32 = (boot0 >> 20) & 0x0FF;
    NvDevice {
        pci: dev,
        architecture: classify(chipset_id),
        chipset_id,
        mmio_base: bar0 as usize,
        vram_size: vram_size(cstatus),
        has_firmware: false,
    }
}

/// A push buffer for the PGRAPH engine of a card with an open 3D engine.
pub struct Nv3D {
    pub device: NvDevice,
    pub d3d_class: u32,
    pub push_buffer: Vec<u32>,
    pub fb_base: u32,
    pub fb_pitch: u32,
    pub fb_width: u32,
    pub fb_height: u32,
}

/// The register window with each of `writes` applied in order (writes
/// outside the window change nothing).
pub open spec fn written(regs: Seq<u8>, writes: Seq<(u64, u32)>) -> Seq<u8>
    decreases writes.len(),
{
    if writes.len() == 0 {
        regs
    } else {
        let r = written(regs, writes.drop_last());
        let (o, v) = writes.last();
        if o + 4 <= r.len() {
            splice(r, o as int, le32_bytes(v))
        } else {
            r
        }
    }
}

/// The engine reports busy (bit 12 of PGRAPH_STATUS).
pub open spec fn engine_busy(regs: Seq<u8>) -> bool {
    NV_PGRAPH_STATUS + 4 <= regs.len() && (le32(regs, NV_PGRAPH_STATUS as int) as u32 & 0x1000u32) != 0
}

/// A write to the FIFO register leaves the status register alone, and a
/// later write replaces an earlier one.
proof fn lemma_fifo_write(r0: Seq<u8>, before: Seq<u8>, w: u32)
    requires
        NV_PGRAPH_FIFO + 4 <= r0.len(),
        before.len() == r0.len(),
        before == r0 || exists|v: u32| before == splice(r0, NV_PGRAPH_FIFO as int, le32_bytes(v)),
    ensures
        splice(before, NV_PGRAPH_FIFO as int, le32_bytes(w)) == splice(r0, NV_PGRAPH_FIFO as int, le32_bytes(w)),
        engine_busy(splice(before, NV_PGRAPH_FIFO as int, le32_bytes(w))) == engine_busy(before),
        splice(before, NV_PGRAPH_FIFO as int, le32_bytes(w)).len() == before.len(),
{
    let f = NV_PGRAPH_FIFO as int;
    let t = splice(before, f, le32_bytes(w));
    assert(t =~= splice(r0, f, le32_bytes(w)));
    let st = NV_PGRAPH_STATUS as int;
    assert(t[st] == before[st] && t[st + 1] == before[st + 1] && t[st + 2] == before[st + 2] && t[st + 3] == before[st + 3]);
}

impl Nv3D {
    /// Sets up PGRAPH (clip rectangle, context, state bit) and an empty push
    /// buffer; `None` for a card without an open 3D engine.
    pub fn init(device: NvDevice, width: u32, height: u32, regs: &mut MmioRegion) -> (r: Option<Nv3D>)
        requires
            old(regs).wf(),
            width <= u32::MAX / 4,
        ensures
            final(regs).wf(),
            d3d_class_spec(device.architecture) is None ==> r is None && final(regs)@ == old(regs)@,
            d3d_class_spec(device.architecture) matches Some(c) ==> (r matches Some(n) && n.d3d_class == c
                && n.push_buffer@.len() == 0 && n.fb_pitch == width * 4 && n.fb_width == width
                && n.fb_height == height && n.fb_base == 0),
    {
        let d3d_class: u32 = match device.architecture.d3d_class() {
            Some(c) => c,
            None => {
                return None;
            },
        };
        if !device.architecture.has_open_3d_engine() {
            return None;
        }
        regs.write32(NV_PGRAPH_DEBUG3, 0);
        regs.write32(NV_PGRAPH_CTX_CONTROL, 1);
        regs.write32(NV_PGRAPH_CTX_USER, 0);
        regs.write32(NV_PGRAPH_ABS_UCLIP_XMIN, 0);
        regs.write32(NV_PGRAPH_ABS_UCLIP_YMIN, 0);
        regs.write32(NV_PGRAPH_ABS_UCLIP_XMAX, width);
        regs.write32(NV_PGRAPH_ABS_UCLIP_YMAX, height);
        match regs.read32(NV_PGRAPH_STATE) {
            Some(state) => {
                regs.write32(NV_PGRAPH_STATE, state | 1);
            },
            None => {},
        }
        Some(
            Nv3D {
                device,
                d3d_class,
                push_buffer: Vec::new(),
                fb_base: 0,
                fb_pitch: width * 4,
                fb_width: width,
                fb_height: height,
            },
        )
    }

    /// Appends one word to the push buffer.
    pub fn emit(&mut self, word: u32)
        ensures
            final(self).push_buffer@ == old(self).push_buffer@.push(word),
            final(self).d3d_class == old(self).d3d_class,
            final(self).fb_width == old(self).fb_width,
            final(self).fb_height == old(self).fb_height,
    {
        self.push_buffer.push(word);
    }

    /// Sends the push buffer to the PGRAPH FIFO register, waiting before
    /// each word while the engine reports busy (bit 12 of PGRAPH_STATUS)
    /// and giving up after 100000 polls; the buffer is emptied.
    pub fn flush(&mut self, regs: &mut MmioRegion)
        requires
            old(regs).wf(),
        ensures
            final(regs).wf(),
            final(regs).spec_size() == old(regs).spec_size(),
            final(self).push_buffer@.len() == 0,
            final(self).d3d_class == old(self).d3d_class,
            final(self).fb_width == old(self).fb_width,
            final(self).fb_height == old(self).fb_height,
            ({
                let n = old(self).push_buffer@.len();
                if n == 0 || engine_busy(old(regs)@) || NV_PGRAPH_FIFO + 4 > old(regs)@.len() {
                    final(regs)@ == old(regs)@
                } else {
                    final(regs)@ == splice(old(regs)@, NV_PGRAPH_FIFO as int, le32_bytes(old(self).push_buffer@[n - 1]))
                }
            }),
    {
        if self.push_buffer.len() == 0 {
            return;
        }
        let ghost r0 = regs@;
        let ghost busy0 = engine_busy(r0);
        let mut i: usize = 0;
        while i < self.push_buffer.len()
            invariant
                regs.wf(),
                regs.spec_size() == old(regs).spec_size(),
                regs@.len() == r0.len(),
                i <= self.push_buffer@.len(),
                self.push_buffer@ == old(self).push_buffer@,
                r0 == old(regs)@,
                busy0 == engine_busy(r0),
                engine_busy(regs@) == busy0,
                i == 0 || NV_PGRAPH_FIFO + 4 > r0.len() ==> regs@ == r0,
                i > 0 && NV_PGRAPH_FIFO + 4 <= r0.len() ==> regs@ == splice(r0, NV_PGRAPH_FIFO as int, le32_bytes(self.push_buffer@[i - 1])),
                i > 0 ==> !busy0,
            ensures
                regs.wf(),
                regs.spec_size() == old(regs).spec_size(),
                self.push_buffer@ == old(self).push_buffer@,
                i <= self.push_buffer@.len(),
                i < self.push_buffer@.len() ==> busy0,
                busy0 == engine_busy(old(regs)@),
                i == 0 || NV_PGRAPH_FIFO + 4 > r0.len() ==> regs@ == r0,
                i > 0 && NV_PGRAPH_FIFO + 4 <= r0.len() ==> regs@ == splice(r0, NV_PGRAPH_FIFO as int, le32_bytes(self.push_buffer@[i - 1])),
                i > 0 ==> !busy0,
            decreases self.push_buffer@.len() - i,
        {
            let word: u32 = self.push_buffer[i];
            let mut timeout: u32 = 100000;
            let mut ready: bool = false;
            while timeout > 0
                invariant
                    regs.wf(),
                    timeout <= 100000,
                    ready ==> !engine_busy(regs@),
                    !ready && timeout < 100000 ==> engine_busy(regs@),
                ensures
                    regs.wf(),
                    ready ==> !engine_busy(regs@),
                    !ready ==> engine_busy(regs@),
                decreases timeout,
            {
                let st: Option<u32> = regs.read32(NV_PGRAPH_STATUS);
                let status: u32 = match st {
                    Some(v) => v,
                    None => 0,
                };
                assert(0u32 & 0x1000u32 == 0u32) by (bit_vector);
                if status & 0x1000 == 0 {
                    ready = true;
                    break;
                }
                timeout = timeout - 1;
            }
            if !ready {
                break;
            }
            let ghost before = regs@;
            regs.write32(NV_PGRAPH_FIFO, word);
            proof {
                if NV_PGRAPH_FIFO + 4 <= before.len() {
                    lemma_fifo_write(r0, before, word);
                }
            }
            i = i + 1;
        }
        self.push_buffer.clear();
    }

    /// Queues a RECT fill of the whole framebuffer with `color` and flushes.
    pub fn clear_screen(&mut self, color: u32, regs: &mut MmioRegion)
        requires
            old(regs).wf(),
        ensures
            final(regs).wf(),
            final(self).push_buffer@.len() == 0,
            ({
                if engine_busy(old(regs)@) || NV_PGRAPH_FIFO + 4 > old(regs)@.len() {
                    final(regs)@ == old(regs)@
                } else {
                    final(regs)@ == splice(old(regs)@, NV_PGRAPH_FIFO as int, le32_bytes(color))
                }
            }),
    {
        let cls: u32 = self.d3d_class;
        self.emit(cls << 6);
        self.emit(0x2000_0000 | (0x0000_1234 & 0x1FFF));
        self.emit(0x1000_0000 | (0x0100 & 0xFFFF));
        self.emit(0);
        self.emit(0);
        let w: u32 = self.fb_width;
        let h: u32 = self.fb_height;
        self.emit(w);
        self.emit(h);
        self.emit(color);
        self.flush(regs);
    }
}

} // verus!
