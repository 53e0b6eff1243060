//! Interrupt setup that is pure computation: the stack frame layout and
//! unmasking the network card's IRQ line in the two 8259 controllers.
use vstd::prelude::*;

verus! {

/// No IRQ line registered.
pub const NO_IRQ: u8 = 0xFF;

/// What the CPU pushes on an interrupt.
pub struct InterruptStackFrame {
    pub instruction_pointer: u64,
    pub code_segment: u64,
    pub cpu_flags: u64,
    pub stack_pointer: u64,
    pub stack_segment: u64,
}

/// The interrupt mask registers of the master and slave 8259 (a set bit
/// masks its line).
pub struct PicMasks {
    pub master: u8,
    pub slave: u8,
}

/// Records the network card's IRQ line (0 to 15) and unmasks it; a line
/// of the slave also unmasks the cascade input, line 2 of the master.
pub fn register_network_irq(network_irq: &mut u8, pic: &mut PicMasks, irq_line: u8)
    requires
        irq_line < 16,
    ensures
        *final(network_irq) == irq_line,
        irq_line < 8 ==> final(pic).master == old(pic).master & !((1u8 << irq_line) as u8) && final(pic).slave
            == old(pic).slave,
        irq_line >= 8 ==> final(pic).slave == old(pic).slave & !((1u8 << ((irq_line - 8) as u8)) as u8)
            && final(pic).master == old(pic).master & !(4u8),
{
    *network_irq = irq_line;
    if irq_line < 8 {
        pic.master = pic.master & !(1u8 << irq_line);
    } else {
        pic.slave = pic.slave & !(1u8 << (irq_line - 8));
        let m: u8 = pic.master;
        pic.master = m & !(1u8 << 2u8);
        assert(m & !(1u8 << 2u8) == m & !(4u8)) by (bit_vector);
    }
}

} // verus!
