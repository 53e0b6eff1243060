//! Driver-facing layer over PCI configuration, register windows and delays.
use vstd::prelude::*;
use crate::pci::{self, ConfigSpace, spec_read_u16};

pub mod mmio;

verus! {

/// A device as a driver sees it.
#[derive(Clone, Copy, Debug, PartialEq, Eq, Structural)]
pub struct Device {
    pub vendor_id: u16,
    pub device_id: u16,
    pub bus: u8,
    pub slot: u8,
    pub function: u8,
    pub irq_line: u8,
}

/// Physical address held in BAR `index`, flag bits masked; a 64-bit memory
/// BAR also takes the next register as its high half.
pub open spec fn bar_value(cs: &ConfigSpace, d: Device, index: u8) -> Option<u64> {
    if index > 5 {
        None
    } else {
        let low = cs.read_at(d.bus, d.slot, d.function, (0x10 + index * 4) as u8);
        if low == 0 {
            None
        } else if low & 1 != 0 {
            Some((low & !3u32) as u64)
        } else if (low >> 1u32) & 3 == 2 && index < 5 {
            let high = cs.read_at(d.bus, d.slot, d.function, (0x10 + index * 4 + 4) as u8);
            Some(((low & !0xFu32) as u64) | ((high as u64) << 32u64))
        } else {
            Some((low & !0xFu32) as u64)
        }
    }
}

impl Device {
    /// Turns on bus mastering so the device can do DMA.
    pub fn enable_bus_master(&self, cs: &mut ConfigSpace)
        ensures
            final(cs).read_at(self.bus, self.slot, self.function, 4) == old(cs).read_at(
                self.bus,
                self.slot,
                self.function,
                4,
            ) | 4u32,
            forall|a: u32|
                a != pci::spec_config_address(self.bus, self.slot, self.function, 4) ==> final(cs).read(a) == old(cs).read(a),
    {
        pci::enable_bus_mastering(cs, self.bus, self.slot, self.function);
    }

    /// Turns on decoding of the device's memory space.
    pub fn enable_memory(&self, cs: &mut ConfigSpace)
        ensures
            final(cs).read_at(self.bus, self.slot, self.function, 4) == old(cs).read_at(
                self.bus,
                self.slot,
                self.function,
                4,
            ) | 2u32,
            forall|a: u32|
                a != pci::spec_config_address(self.bus, self.slot, self.function, 4) ==> final(cs).read(a) == old(cs).read(a),
    {
        pci::enable_memory_space(cs, self.bus, self.slot, self.function);
    }

    pub fn config_read32(&self, cs: &ConfigSpace, offset: u8) -> (r: u32)
        ensures
            r == cs.read_at(self.bus, self.slot, self.function, offset),
    {
        pci::read_config_u32(cs, self.bus, self.slot, self.function, offset)
    }

    pub fn config_write32(&self, cs: &mut ConfigSpace, offset: u8, value: u32)
        ensures
            final(cs).read(pci::spec_config_address(self.bus, self.slot, self.function, offset))
                == value,
            forall|a: u32|
                a != pci::spec_config_address(self.bus, self.slot, self.function, offset) ==> final(cs).read(a) == old(cs).read(a),
    {
        pci::write_config_u32(cs, self.bus, self.slot, self.function, offset, value);
    }

    /// Base address in BAR `index` (0..=5), or `None` for an unused BAR.
    pub fn bar_address(&self, cs: &ConfigSpace, index: u8) -> (r: Option<u64>)
        ensures
            r == bar_value(cs, *self, index),
    {
        if index > 5 {
            return None;
        }
        let offset: u8 = 0x10 + index * 4;
        let low: u32 = self.config_read32(cs, offset);
        if low == 0 {
            return None;
        }
        if low & 1 != 0 {
            return Some((low & !0x3) as u64);
        }
        let is_64bit: bool = (low >> 1) & 0x3 == 0x2;
        let base: u64 = (low & !0xF) as u64;
        if is_64bit && index < 5 {
            let high: u64 = self.config_read32(cs, offset + 4) as u64;
            Some(base | (high << 32))
        } else {
            Some(base)
        }
    }
}

/// The device with the given ids, with its interrupt line.
pub fn find_device(cs: &ConfigSpace, vendor_id: u16, device_id: u16) -> (r: Option<Device>)
    ensures
        match pci::scan_buses(cs, pci::Criterion::Ids(vendor_id, device_id), 0) {
            None => r is None,
            Some(d) => r == Some(
                Device {
                    vendor_id,
                    device_id,
                    bus: d.bus,
                    slot: d.slot,
                    function: d.function,
                    irq_line: (cs.read_at(d.bus, d.slot, d.function, 0x3C) & 0xFFu32) as u8,
                },
            ),
        },
{
    match pci::find_device(cs, vendor_id, device_id) {
        Some(d) => Some(
            Device {
                vendor_id,
                device_id,
                bus: d.bus,
                slot: d.slot,
                function: d.function,
                irq_line: pci::read_interrupt_line(cs, d.bus, d.slot, d.function),
            },
        ),
        None => None,
    }
}

/// Class and subclass bytes of function 0 of a slot match.
pub open spec fn class_hit(cs: &ConfigSpace, vendor_id: u16, class: u8, subclass: u8, bus: u8, slot: u8) -> bool {
    let id = cs.read_at(bus, slot, 0, 0);
    let cr = cs.read_at(bus, slot, 0, 8);
    id != 0xFFFF_FFFFu32 && (id & 0xFFFFu32) as u16 == vendor_id && ((cr >> 24u32) & 0xFFu32) as u8
        == class && ((cr >> 16u32) & 0xFFu32) as u8 == subclass
}

/// Position `k` of the search order: bus `k / 32`, slot `k % 32`.
pub open spec fn first_class_hit(cs: &ConfigSpace, vendor_id: u16, class: u8, subclass: u8, k: int) -> Option<int>
    decreases 256 * 32 - k,
{
    if k < 0 || k >= 256 * 32 {
        None
    } else if class_hit(cs, vendor_id, class, subclass, (k / 32) as u8, (k % 32) as u8) {
        Some(k)
    } else {
        first_class_hit(cs, vendor_id, class, subclass, k + 1)
    }
}

/// First function 0 of vendor `vendor_id` with the given class and subclass,
/// scanning every bus and slot.
pub fn find_by_class(cs: &ConfigSpace, vendor_id: u16, class: u8, subclass: u8) -> (r: Option<Device>)
    ensures
        match first_class_hit(cs, vendor_id, class, subclass, 0) {
            None => r is None,
            Some(k) => r == Some(
                Device {
                    vendor_id,
                    device_id: ((cs.read_at((k / 32) as u8, (k % 32) as u8, 0, 0) >> 16u32) & 0xFFFFu32) as u16,
                    bus: (k / 32) as u8,
                    slot: (k % 32) as u8,
                    function: 0,
                    irq_line: (cs.read_at((k / 32) as u8, (k % 32) as u8, 0, 0x3C) & 0xFFu32) as u8,
                },
            ),
        },
{
    let mut bus: u16 = 0;
    while bus <= 255
        invariant
            bus <= 256,
            first_class_hit(cs, vendor_id, class, subclass, 0) == first_class_hit(cs, vendor_id, class, subclass, bus * 32),
        decreases 256 - bus,
    {
        let mut slot: u8 = 0;
        while slot < 32
            invariant
                bus <= 255,
                slot <= 32,
                first_class_hit(cs, vendor_id, class, subclass, 0) == first_class_hit(cs, vendor_id, class, subclass, bus * 32 + slot),
            decreases 32 - slot,
        {
            let b: u8 = bus as u8;
            let k: Ghost<int> = Ghost(bus * 32 + slot);
            assert(k@ / 32 == bus && k@ % 32 == slot);
            let id: u32 = pci::read_config_u32(cs, b, slot, 0, 0x00);
            if id != 0xFFFF_FFFF && (id & 0xFFFF) as u16 == vendor_id {
                let class_reg: u32 = pci::read_config_u32(cs, b, slot, 0, 0x08);
                if ((class_reg >> 24) & 0xFF) as u8 == class && ((class_reg >> 16) & 0xFF) as u8 == subclass {
                    return Some(
                        Device {
                            vendor_id: (id & 0xFFFF) as u16,
                            device_id: ((id >> 16) & 0xFFFF) as u16,
                            bus: b,
                            slot,
                            function: 0,
                            irq_line: pci::read_interrupt_line(cs, b, slot, 0),
                        },
                    );
                }
            }
            slot = slot + 1;
        }
        bus = bus + 1;
    }
    None
}

/// Busy-waits about `usec` microseconds (the calibrated idle loop used
/// before the kernel timer runs).
pub fn udelay(usec: u64) {
    let n: u64 = if usec <= u64::MAX / 100 { usec * 100 } else { u64::MAX };
    let mut i: u64 = 0;
    while i < n
        invariant
            i <= n,
        decreases n - i,
    {
        i = i + 1;
    }
}

} // verus!
