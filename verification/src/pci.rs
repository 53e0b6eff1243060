use vstd::prelude::*;

verus! {

pub const CONFIG_ADDRESS: u16 = 0xCF8;
pub const CONFIG_DATA: u16 = 0xCFC;

/// A function found on the PCI bus.
#[derive(Clone, Copy, Debug, PartialEq, Eq, Structural)]
pub struct PciDevice {
    pub bus: u8,
    pub slot: u8,
    pub function: u8,
    pub vendor_id: u16,
    pub device_id: u16,
}

/// The value written to port 0xCF8 to select a configuration register.
pub open spec fn spec_config_address(bus: u8, slot: u8, function: u8, offset: u8) -> u32 {
    (1u32 << 31u32) | ((bus as u32) << 16u32) | ((slot as u32) << 11u32) | ((function as u32)
        << 8u32) | ((offset as u32) & 0xFCu32)
}

pub fn config_address(bus: u8, slot: u8, function: u8, offset: u8) -> (r: u32)
    ensures
        r == spec_config_address(bus, slot, function, offset),
{
    (1u32 << 31u32) | ((bus as u32) << 16u32) | ((slot as u32) << 11u32) | ((function as u32)
        << 8u32) | ((offset as u32) & 0xFCu32)
}

/// The configuration space as seen through ports 0xCF8/0xCFC: each
/// implemented register is listed with its configuration address; an
/// address that no device implements reads as all ones.
pub struct ConfigSpace {
    pub regs: Vec<(u32, u32)>,
}

/// What a read of configuration address `addr` returns.
pub open spec fn reg_value(regs: Seq<(u32, u32)>, addr: u32) -> u32
    decreases regs.len(),
{
    if regs.len() == 0 {
        0xFFFF_FFFFu32
    } else if regs[0].0 == addr {
        regs[0].1
    } else {
        reg_value(regs.drop_first(), addr)
    }
}

impl ConfigSpace {
    pub open spec fn read(&self, addr: u32) -> u32 {
        reg_value(self.regs@, addr)
    }

    pub open spec fn read_at(&self, bus: u8, slot: u8, function: u8, offset: u8) -> u32 {
        self.read(spec_config_address(bus, slot, function, offset))
    }

    pub fn new() -> (r: ConfigSpace)
        ensures
            forall|a: u32| r.read(a) == 0xFFFF_FFFFu32,
    {
        ConfigSpace { regs: Vec::new() }
    }

    fn lookup(&self, addr: u32) -> (r: u32)
        ensures
            r == self.read(addr),
    {
        let mut i: usize = 0;
        assert(self.regs@.skip(0) =~= self.regs@);
        while i < self.regs.len()
            invariant
                i <= self.regs@.len(),
                reg_value(self.regs@, addr) == reg_value(self.regs@.skip(i as int), addr),
            decreases self.regs@.len() - i,
        {
            assert(self.regs@.skip(i as int).drop_first() =~= self.regs@.skip(i + 1));
            if self.regs[i].0 == addr {
                return self.regs[i].1;
            }
            i = i + 1;
        }
        proof {
            r_empty(self.regs@.skip(i as int), addr);
        }
        0xFFFF_FFFFu32
    }

    fn store(&mut self, addr: u32, value: u32)
        ensures
            final(self).read(addr) == value,
            forall|a: u32| a != addr ==> final(self).read(a) == old(self).read(a),
    {
        let mut i: usize = 0;
        while i < self.regs.len()
            invariant
                i <= self.regs@.len(),
                self.regs@ == old(self).regs@,
                forall|j: int| 0 <= j < i ==> self.regs@[j].0 != addr,
            decreases self.regs@.len() - i,
        {
            if self.regs[i].0 == addr {
                let ghost before = self.regs@;
                self.regs.set(i, (addr, value));
                proof {
                    lemma_update_at_first_match(before, i as int, addr, value, addr);
                    assert forall|a: u32| a != addr implies reg_value(self.regs@, a) == reg_value(
                        before,
                        a,
                    ) by {
                        lemma_update_at_first_match(before, i as int, addr, value, a);
                    }
                }
                return;
            }
            i = i + 1;
        }
        let ghost before = self.regs@;
        self.regs.push((addr, value));
        proof {
            lemma_push_absent(before, addr, value, addr);
            assert forall|a: u32| a != addr implies reg_value(self.regs@, a) == reg_value(before, a) by {
                lemma_push_absent(before, addr, value, a);
            }
        }
    }
}

proof fn r_empty(s: Seq<(u32, u32)>, addr: u32)
    requires
        s.len() == 0,
    ensures
        reg_value(s, addr) == 0xFFFF_FFFFu32,
{
}

proof fn lemma_update_at_first_match(s: Seq<(u32, u32)>, i: int, addr: u32, value: u32, a: u32)
    requires
        0 <= i < s.len(),
        s[i].0 == addr,
        forall|j: int| 0 <= j < i ==> s[j].0 != addr,
    ensures
        reg_value(s.update(i, (addr, value)), addr) == value,
        a != addr ==> reg_value(s.update(i, (addr, value)), a) == reg_value(s, a),
    decreases i,
{
    if i > 0 {
        lemma_update_at_first_match(s.drop_first(), i - 1, addr, value, a);
        assert(s.update(i, (addr, value)).drop_first() =~= s.drop_first().update(i - 1, (addr, value)));
    } else {
        assert(s.update(i, (addr, value)).drop_first() =~= s.drop_first());
    }
}

proof fn lemma_push_absent(s: Seq<(u32, u32)>, addr: u32, value: u32, a: u32)
    requires
        forall|j: int| 0 <= j < s.len() ==> s[j].0 != addr,
    ensures
        reg_value(s.push((addr, value)), addr) == value,
        a != addr ==> reg_value(s.push((addr, value)), a) == reg_value(s, a),
    decreases s.len(),
{
    if s.len() > 0 {
        lemma_push_absent(s.drop_first(), addr, value, a);
        assert(s.push((addr, value)).drop_first() =~= s.drop_first().push((addr, value)));
    } else {
        assert(s.push((addr, value)).drop_first() =~= s);
    }
}

/// Reads a 32-bit configuration register.
pub fn read_config_u32(cs: &ConfigSpace, bus: u8, slot: u8, function: u8, offset: u8) -> (r: u32)
    ensures
        r == cs.read_at(bus, slot, function, offset),
{
    cs.lookup(config_address(bus, slot, function, offset))
}

/// Writes a 32-bit configuration register.
pub fn write_config_u32(cs: &mut ConfigSpace, bus: u8, slot: u8, function: u8, offset: u8, value: u32)
    ensures
        final(cs).read(spec_config_address(bus, slot, function, offset)) == value,
        forall|a: u32|
            a != spec_config_address(bus, slot, function, offset) ==> final(cs).read(a) == old(
                cs,
            ).read(a),
{
    cs.store(config_address(bus, slot, function, offset), value)
}

/// The 16-bit half of the dword at `offset & 0xFC` that `offset` selects.
pub open spec fn spec_read_u16(cs: &ConfigSpace, bus: u8, slot: u8, function: u8, offset: u8) -> u16 {
    ((cs.read_at(bus, slot, function, offset & 0xFCu8) >> (((offset & 2u8) as u32) * 8)) & 0xFFFFu32) as u16
}

fn read_config_u16(cs: &ConfigSpace, bus: u8, slot: u8, function: u8, offset: u8) -> (r: u16)
    ensures
        r == spec_read_u16(cs, bus, slot, function, offset),
{
    let dword: u32 = read_config_u32(cs, bus, slot, function, offset & 0xFC);
    let shift: u32 = ((offset & 2) as u32) * 8;
    assert((offset & 2u8) <= 2u8) by (bit_vector);
    ((dword >> shift) & 0xFFFF) as u16
}

/// The I/O port base in BAR0, if BAR0 is an I/O BAR.
pub fn read_bar0_io(cs: &ConfigSpace, bus: u8, slot: u8, function: u8) -> (r: Option<u16>)
    ensures
        ({
            let bar0 = cs.read_at(bus, slot, function, 0x10);
            if bar0 & 1u32 == 1u32 {
                r == Some((bar0 & 0xFFFCu32) as u16)
            } else {
                r is None
            }
        }),
{
    let bar0: u32 = read_config_u32(cs, bus, slot, function, 0x10);
    if bar0 & 0x1 == 1 {
        Some((bar0 & 0xFFFC) as u16)
    } else {
        None
    }
}

pub fn read_interrupt_line(cs: &ConfigSpace, bus: u8, slot: u8, function: u8) -> (r: u8)
    ensures
        r == (cs.read_at(bus, slot, function, 0x3C) & 0xFFu32) as u8,
{
    (read_config_u32(cs, bus, slot, function, 0x3C) & 0xFF) as u8
}

/// Sets bit `bit` of the command register (offset 4).
fn set_command_bit(cs: &mut ConfigSpace, bus: u8, slot: u8, function: u8, bit: u32)
    requires
        bit < 32,
    ensures
        final(cs).read_at(bus, slot, function, 4) == old(cs).read_at(bus, slot, function, 4) | (1u32 << bit),
        forall|a: u32|
            a != spec_config_address(bus, slot, function, 4) ==> final(cs).read(a) == old(cs).read(a),
{
    let command: u32 = read_config_u32(cs, bus, slot, function, 0x04);
    write_config_u32(cs, bus, slot, function, 0x04, command | (1u32 << bit));
}

/// Turns on bus mastering (command register bit 2).
pub fn enable_bus_mastering(cs: &mut ConfigSpace, bus: u8, slot: u8, function: u8)
    ensures
        final(cs).read_at(bus, slot, function, 4) == old(cs).read_at(bus, slot, function, 4) | 4u32,
        forall|a: u32|
            a != spec_config_address(bus, slot, function, 4) ==> final(cs).read(a) == old(cs).read(a),
{
    set_command_bit(cs, bus, slot, function, 2);
    assert(1u32 << 2u32 == 4u32) by (bit_vector);
}

/// Turns on memory-space decoding (command register bit 1).
pub fn enable_memory_space(cs: &mut ConfigSpace, bus: u8, slot: u8, function: u8)
    ensures
        final(cs).read_at(bus, slot, function, 4) == old(cs).read_at(bus, slot, function, 4) | 2u32,
        forall|a: u32|
            a != spec_config_address(bus, slot, function, 4) ==> final(cs).read(a) == old(cs).read(a),
{
    set_command_bit(cs, bus, slot, function, 1);
    assert(1u32 << 1u32 == 2u32) by (bit_vector);
}

pub fn read_vendor_id(cs: &ConfigSpace, bus: u8, slot: u8, function: u8) -> (r: u16)
    ensures
        r == spec_read_u16(cs, bus, slot, function, 0),
{
    read_config_u16(cs, bus, slot, function, 0x00)
}

pub fn read_device_id(cs: &ConfigSpace, bus: u8, slot: u8, function: u8) -> (r: u16)
    ensures
        r == spec_read_u16(cs, bus, slot, function, 2),
{
    read_config_u16(cs, bus, slot, function, 0x02)
}

/// The memory base in BAR `bar_index` with the flag bits cleared.
pub fn read_bar_mmio(cs: &ConfigSpace, bus: u8, slot: u8, function: u8, bar_index: u8) -> (r: u32)
    requires
        0x10 + bar_index * 4 <= u8::MAX,
    ensures
        r == cs.read_at(bus, slot, function, (0x10 + bar_index * 4) as u8) & 0xFFFF_FFF0u32,
{
    let offset: u8 = 0x10 + bar_index * 4;
    let bar: u32 = read_config_u32(cs, bus, slot, function, offset);
    bar & 0xFFFF_FFF0
}


/// What a device search looks for.
pub enum Criterion {
    Ids(u16, u16),
    Class(u8),
    ClassSub(u8, u8),
}

pub open spec fn class_of(cs: &ConfigSpace, bus: u8, slot: u8, f: u8) -> u8 {
    ((cs.read_at(bus, slot, f, 8) >> 24u32) & 0xFFu32) as u8
}

pub open spec fn subclass_of(cs: &ConfigSpace, bus: u8, slot: u8, f: u8) -> u8 {
    ((cs.read_at(bus, slot, f, 8) >> 16u32) & 0xFFu32) as u8
}

pub open spec fn present(cs: &ConfigSpace, bus: u8, slot: u8, f: u8) -> bool {
    spec_read_u16(cs, bus, slot, f, 0) != 0xFFFF
}

pub open spec fn meets(cs: &ConfigSpace, bus: u8, slot: u8, f: u8, c: Criterion) -> bool {
    match c {
        Criterion::Ids(v, d) => spec_read_u16(cs, bus, slot, f, 0) == v && spec_read_u16(
            cs,
            bus,
            slot,
            f,
            2,
        ) == d,
        Criterion::Class(k) => class_of(cs, bus, slot, f) == k,
        Criterion::ClassSub(k, sub) => class_of(cs, bus, slot, f) == k && subclass_of(
            cs,
            bus,
            slot,
            f,
        ) == sub,
    }
}

/// Functions probed in a slot: eight for a multi-function device, else one.
pub open spec fn function_count(cs: &ConfigSpace, bus: u8, slot: u8) -> int {
    if (((cs.read_at(bus, slot, 0, 0x0C) >> 16u32) & 0xFFu32) & 0x80u32) != 0 {
        8
    } else {
        1
    }
}

pub open spec fn device_at(cs: &ConfigSpace, bus: u8, slot: u8, f: u8) -> PciDevice {
    PciDevice {
        bus,
        slot,
        function: f,
        vendor_id: spec_read_u16(cs, bus, slot, f, 0),
        device_id: spec_read_u16(cs, bus, slot, f, 2),
    }
}

/// First matching function of a slot, from function `f` on.
pub open spec fn scan_functions(cs: &ConfigSpace, c: Criterion, bus: u8, slot: u8, f: int) -> Option<
    PciDevice,
>
    decreases 8 - f,
{
    if f < 0 || f >= function_count(cs, bus, slot) || f >= 8 {
        None
    } else if present(cs, bus, slot, f as u8) && meets(cs, bus, slot, f as u8, c) {
        Some(device_at(cs, bus, slot, f as u8))
    } else {
        scan_functions(cs, c, bus, slot, f + 1)
    }
}

/// First matching function on a bus, from slot `slot` on.
pub open spec fn scan_slots(cs: &ConfigSpace, c: Criterion, bus: u8, slot: int) -> Option<PciDevice>
    decreases 32 - slot,
{
    if slot < 0 || slot >= 32 {
        None
    } else if !present(cs, bus, slot as u8, 0) {
        scan_slots(cs, c, bus, slot + 1)
    } else {
        match scan_functions(cs, c, bus, slot as u8, 0) {
            Some(d) => Some(d),
            None => scan_slots(cs, c, bus, slot + 1),
        }
    }
}

/// No slot of the bus answers.
pub open spec fn bus_empty(cs: &ConfigSpace, bus: u8) -> bool {
    forall|s: u8| s < 32 ==> !#[trigger] present(cs, bus, s, 0)
}

/// First matching function on buses `bus..8`; the search stops after the
/// first empty bus other than bus 0.
pub open spec fn scan_buses(cs: &ConfigSpace, c: Criterion, bus: int) -> Option<PciDevice>
    decreases 8 - bus,
{
    if bus < 0 || bus >= 8 {
        None
    } else {
        match scan_slots(cs, c, bus as u8, 0) {
            Some(d) => Some(d),
            None => if bus > 0 && bus_empty(cs, bus as u8) {
                None
            } else {
                scan_buses(cs, c, bus + 1)
            },
        }
    }
}

fn meets_exec(cs: &ConfigSpace, bus: u8, slot: u8, f: u8, c: &Criterion) -> (r: bool)
    ensures
        r == meets(cs, bus, slot, f, *c),
{
    match c {
        Criterion::Ids(v, d) => read_config_u16(cs, bus, slot, f, 0) == *v && read_config_u16(
            cs,
            bus,
            slot,
            f,
            2,
        ) == *d,
        Criterion::Class(k) => {
            let class_reg: u32 = read_config_u32(cs, bus, slot, f, 0x08);
            ((class_reg >> 24) & 0xFF) as u8 == *k
        },
        Criterion::ClassSub(k, sub) => {
            let class_reg: u32 = read_config_u32(cs, bus, slot, f, 0x08);
            ((class_reg >> 24) & 0xFF) as u8 == *k && ((class_reg >> 16) & 0xFF) as u8 == *sub
        },
    }
}

fn scan_slot(cs: &ConfigSpace, c: &Criterion, bus: u8, slot: u8) -> (r: Option<PciDevice>)
    requires
        slot < 32,
    ensures
        r == scan_functions(cs, *c, bus, slot, 0),
{
    let header_type: u32 = (read_config_u32(cs, bus, slot, 0, 0x0C) >> 16) & 0xFF;
    let max_function: u8 = if header_type & 0x80 != 0 { 8 } else { 1 };
    let mut f: u8 = 0;
    while f < max_function
        invariant
            max_function == function_count(cs, bus, slot),
            f <= max_function <= 8,
            scan_functions(cs, *c, bus, slot, 0) == scan_functions(cs, *c, bus, slot, f as int),
        decreases max_function - f,
    {
        let v: u16 = read_config_u16(cs, bus, slot, f, 0x00);
        if v != 0xFFFF && meets_exec(cs, bus, slot, f, c) {
            let d: u16 = read_config_u16(cs, bus, slot, f, 0x02);
            return Some(PciDevice { bus, slot, function: f, vendor_id: v, device_id: d });
        }
        f = f + 1;
    }
    None
}

/// Searches buses 0..8 in order for the first function that meets `c`.
pub fn find_where(cs: &ConfigSpace, c: &Criterion) -> (r: Option<PciDevice>)
    ensures
        r == scan_buses(cs, *c, 0),
{
    let mut bus: u8 = 0;
    while bus < 8
        invariant
            bus <= 8,
            scan_buses(cs, *c, 0) == scan_buses(cs, *c, bus as int),
        decreases 8 - bus,
    {
        let mut empty: bool = true;
        let mut slot: u8 = 0;
        while slot < 32
            invariant
                bus < 8,
                slot <= 32,
                scan_buses(cs, *c, 0) == scan_buses(cs, *c, bus as int),
                scan_slots(cs, *c, bus, 0) == scan_slots(cs, *c, bus, slot as int),
                empty == forall|s: u8| s < slot ==> !#[trigger] present(cs, bus, s, 0),
            decreases 32 - slot,
        {
            let vendor: u16 = read_config_u16(cs, bus, slot, 0, 0x00);
            if vendor != 0xFFFF {
                empty = false;
                match scan_slot(cs, c, bus, slot) {
                    Some(d) => {
                        return Some(d);
                    },
                    None => {},
                }
            }
            slot = slot + 1;
        }
        if empty && bus > 0 {
            return None;
        }
        bus = bus + 1;
    }
    None
}

/// First function with the given vendor and device ids.
pub fn find_device(cs: &ConfigSpace, vendor_id: u16, device_id: u16) -> (r: Option<PciDevice>)
    ensures
        r == scan_buses(cs, Criterion::Ids(vendor_id, device_id), 0),
{
    find_where(cs, &Criterion::Ids(vendor_id, device_id))
}

/// First function of the given class (byte 0x0B of its configuration space).
pub fn find_device_by_class(cs: &ConfigSpace, class_code: u8) -> (r: Option<PciDevice>)
    ensures
        r == scan_buses(cs, Criterion::Class(class_code), 0),
{
    find_where(cs, &Criterion::Class(class_code))
}

/// First function of the given class and subclass.
pub fn find_device_by_class_subclass(cs: &ConfigSpace, class_code: u8, subclass_code: u8) -> (r:
    Option<PciDevice>)
    ensures
        r == scan_buses(cs, Criterion::ClassSub(class_code, subclass_code), 0),
{
    find_where(cs, &Criterion::ClassSub(class_code, subclass_code))
}

} // verus!
