//! NVIDIA chipset detection from the PMC_BOOT_0 register.
use vstd::prelude::*;
use crate::pci::{self, ConfigSpace, PciDevice};

verus! {

#[derive(Debug, Clone, Copy, PartialEq, Eq, Structural)]
pub enum Architecture {
    Nv04,
    Nv10,
    Nv20,
    Nv30,
    Nv40,
    ModernUnsupported,
    Unknown,
}

pub open spec fn architecture_name(a: Architecture) -> Seq<char> {
    match a {
        Architecture::Nv04 => "NV04 (RIVA TNT/TNT2 class)"@,
        Architecture::Nv10 => "NV10-NV1F (GeForce 256 .. GeForce4 MX class)"@,
        Architecture::Nv20 => "NV20-NV2F (GeForce3/4 Ti class)"@,
        Architecture::Nv30 => "NV30-NV3F (GeForce FX class)"@,
        Architecture::Nv40 => "NV40-NV4F (GeForce 6/7 class)"@,
        Architecture::ModernUnsupported => "G80+ (GeForce 8xxx and newer, incl. Fermi/Kepler/Turing+)"@,
        Architecture::Unknown => "unrecognized"@,
    }
}

impl Architecture {
    pub fn name(&self) -> (r: &'static str)
        ensures
            r@ == architecture_name(*self),
    {
        match self {
            Architecture::Nv04 => "NV04 (RIVA TNT/TNT2 class)",
            Architecture::Nv10 => "NV10-NV1F (GeForce 256 .. GeForce4 MX class)",
            Architecture::Nv20 => "NV20-NV2F (GeForce3/4 Ti class)",
            Architecture::Nv30 => "NV30-NV3F (GeForce FX class)",
            Architecture::Nv40 => "NV40-NV4F (GeForce 6/7 class)",
            Architecture::ModernUnsupported => "G80+ (GeForce 8xxx and newer, incl. Fermi/Kepler/Turing+)",
            Architecture::Unknown => "unrecognized",
        }
    }

    /// NV04 through NV40 can be driven through the legacy CRTC registers.
    pub fn supports_legacy_modesetting(&self) -> (r: bool)
        ensures
            r == !(*self == Architecture::ModernUnsupported || *self == Architecture::Unknown),
    {
        match self {
            Architecture::Nv04 | Architecture::Nv10 | Architecture::Nv20 | Architecture::Nv30
            | Architecture::Nv40 => true,
            _ => false,
        }
    }
}

pub struct NouveauInfo {
    pub device: PciDevice,
    pub chipset_id: u8,
    pub architecture: Architecture,
    pub bar0_mmio: u32,
}

/// The architecture family of a chipset id.
pub open spec fn classify_spec(id: u8) -> Architecture {
    if id == 0 {
        Architecture::Unknown
    } else if id == 4 || id == 5 {
        Architecture::Nv04
    } else if 0x10 <= id <= 0x1F {
        Architecture::Nv10
    } else if 0x20 <= id <= 0x2F {
        Architecture::Nv20
    } else if 0x30 <= id <= 0x3F {
        Architecture::Nv30
    } else if 0x40 <= id <= 0x4F {
        Architecture::Nv40
    } else {
        Architecture::ModernUnsupported
    }
}

pub fn classify_chipset(id: u8) -> (r: Architecture)
    ensures
        r == classify_spec(id),
{
    if id == 0 {
        Architecture::Unknown
    } else if id == 4 || id == 5 {
        Architecture::Nv04
    } else if 0x10 <= id && id <= 0x1F {
        Architecture::Nv10
    } else if 0x20 <= id && id <= 0x2F {
        Architecture::Nv20
    } else if 0x30 <= id && id <= 0x3F {
        Architecture::Nv30
    } else if 0x40 <= id && id <= 0x4F {
        Architecture::Nv40
    } else {
        Architecture::ModernUnsupported
    }
}

/// Enables memory decoding on the card, reads BAR0, and classifies the
/// chipset from `boot0`, the PMC_BOOT_0 register read through BAR0 (bits
/// 20..28); with no BAR0 the chipset id is 0.
pub fn detect(cs: &mut ConfigSpace, device: PciDevice, boot0: u32) -> (r: NouveauInfo)
    ensures
        final(cs).read_at(device.bus, device.slot, device.function, 4) == old(cs).read_at(device.bus, device.slot, device.function, 4) | 2u32,
        forall|a: u32|
            a != pci::spec_config_address(device.bus, device.slot, device.function, 4) ==> final(cs).read(a) == old(cs).read(a),
        r.device == device,
        r.bar0_mmio == final(cs).read_at(device.bus, device.slot, device.function, 0x10) & 0xFFFF_FFF0u32,
        r.chipset_id == (if r.bar0_mmio != 0 { ((boot0 >> 20u32) & 0xFFu32) as u8 } else { 0 }),
        r.architecture == classify_spec(r.chipset_id),
{
    pci::enable_memory_space(cs, device.bus, device.slot, device.function);
    let bar0: u32 = pci::read_bar_mmio(cs, device.bus, device.slot, device.function, 0);
    let chipset_id: u8 = if bar0 != 0 { ((boot0 >> 20) & 0xFF) as u8 } else { 0 };
    let architecture = classify_chipset(chipset_id);
    NouveauInfo { device, chipset_id, architecture, bar0_mmio: bar0 }
}

/// Outcome of a legacy mode change.
pub enum LegacyModesetResult {
    RegistersWritten,
    UnsupportedArchitecture,
}

} // verus!
