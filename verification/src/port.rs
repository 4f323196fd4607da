//! The port I/O that programs the legacy devices: the interrupt controllers,
//! the interval timer and the first serial port. Each routine here computes
//! the port writes to perform, and the decisions that depend on values read
//! back from ports; performing them is left to the caller.
use vstd::prelude::*;

use crate::error::KernelError;

verus! {

/// One byte written to one I/O port.
#[derive(Debug, Clone, Copy, PartialEq, Eq, Structural)]
pub struct PortWrite {
    pub port: u16,
    pub value: u8,
}

/// The command port of the master interrupt controller.
pub const PIC1: u16 = 0x20;

/// The command port of the slave interrupt controller.
pub const PIC2: u16 = 0xA0;

/// The first serial port.
pub const COM1: u16 = 0x3f8;

/// The input frequency of the interval timer, in Hz.
pub const PIT_BASE_HZ: u32 = 1193182;

/// The divisor that the timer is programmed with.
pub const PIT_DIVISOR: u16 = 0x2E9C;

/// The writes that initialise the two interrupt controllers: start the
/// initialisation sequence on both, place their vectors at 0x20 and 0x28,
/// chain the slave to line 2 of the master, select 8086 mode, and mask every
/// line.
pub fn pic_init() -> (writes: Vec<PortWrite>)
    ensures
        writes@ == seq![
            PortWrite { port: 0x20, value: 0x11 },
            PortWrite { port: 0xA0, value: 0x11 },
            PortWrite { port: 0x21, value: 0x20 },
            PortWrite { port: 0xA1, value: 0x28 },
            PortWrite { port: 0x21, value: 4 },
            PortWrite { port: 0xA1, value: 2 },
            PortWrite { port: 0x21, value: 0x01 },
            PortWrite { port: 0xA1, value: 0x01 },
            PortWrite { port: 0x21, value: 0xFF },
            PortWrite { port: 0xA1, value: 0xFF },
        ],
{
    let mut w = Vec::new();
    w.push(PortWrite { port: PIC1, value: 0x11 });
    w.push(PortWrite { port: PIC2, value: 0x11 });
    w.push(PortWrite { port: PIC1 + 1, value: 0x20 });
    w.push(PortWrite { port: PIC2 + 1, value: 0x28 });
    w.push(PortWrite { port: PIC1 + 1, value: 4 });
    w.push(PortWrite { port: PIC2 + 1, value: 2 });
    w.push(PortWrite { port: PIC1 + 1, value: 0x01 });
    w.push(PortWrite { port: PIC2 + 1, value: 0x01 });
    w.push(PortWrite { port: PIC1 + 1, value: 0xFF });
    w.push(PortWrite { port: PIC2 + 1, value: 0xFF });
    assert(w@ =~= seq![
        PortWrite { port: 0x20, value: 0x11 },
        PortWrite { port: 0xA0, value: 0x11 },
        PortWrite { port: 0x21, value: 0x20 },
        PortWrite { port: 0xA1, value: 0x28 },
        PortWrite { port: 0x21, value: 4 },
        PortWrite { port: 0xA1, value: 2 },
        PortWrite { port: 0x21, value: 0x01 },
        PortWrite { port: 0xA1, value: 0x01 },
        PortWrite { port: 0x21, value: 0xFF },
        PortWrite { port: 0xA1, value: 0xFF },
    ]);
    w
}

/// The same initialisation of the two interrupt controllers, under its
/// platform name.
pub fn pic_remap() -> (writes: Vec<PortWrite>)
    ensures
        writes@ == seq![
            PortWrite { port: 0x20, value: 0x11 },
            PortWrite { port: 0xA0, value: 0x11 },
            PortWrite { port: 0x21, value: 0x20 },
            PortWrite { port: 0xA1, value: 0x28 },
            PortWrite { port: 0x21, value: 4 },
            PortWrite { port: 0xA1, value: 2 },
            PortWrite { port: 0x21, value: 1 },
            PortWrite { port: 0xA1, value: 1 },
            PortWrite { port: 0x21, value: 0xFF },
            PortWrite { port: 0xA1, value: 0xFF },
        ],
{
    pic_init()
}

/// The data (mask) port of the controller that serves interrupt line
/// `which`: the master for lines 0 to 7, the slave above.
pub fn pic_mask_port(which: u8) -> (port: u16)
    ensures
        port == if which < 8 {
            0x21u16
        } else {
            0xA1u16
        },
{
    (if which < 8 {
        PIC1
    } else {
        PIC2
    }) + 1
}

/// Bit `k` of a byte.
pub open spec fn bit_of(v: u8, k: u8) -> bool {
    (v >> k) & 1u8 == 1u8
}

/// `mask` with the bit of line `which` (within its controller) cleared,
/// which unmasks that line.
pub fn pic_clear_mask_value(mask: u8, which: u8) -> (r: u8)
    ensures
        r == mask & !(1u8 << (which & 7u8)),
        forall|k: u8| k < 8 ==> bit_of(r, k) == (bit_of(mask, k) && k != (which & 7u8)),
{
    assert(which & 7u8 < 8) by (bit_vector);
    let r = mask & !(1u8 << (which & 7));
    assert(forall|k: u8| k < 8 ==> (((mask & !(1u8 << (which & 7u8))) >> k) & 1u8 == 1u8) == (((
    mask >> k) & 1u8 == 1u8) && k != (which & 7u8))) by (bit_vector);
    r
}

/// The lines whose mask bits unmasking line `which` clears, in order: a
/// slave line first unmasks the cascade line 2 of the master. Each line's bit
/// is cleared in the mask read from `pic_mask_port` of that line.
pub fn pic_clear_mask_lines(which: u8) -> (lines: Vec<u8>)
    ensures
        which >= 8 ==> lines@ == seq![2u8, which],
        which < 8 ==> lines@ == seq![which],
{
    let mut lines = Vec::new();
    if which >= 8 {
        lines.push(2);
    }
    lines.push(which);
    proof {
        if which >= 8 {
            assert(lines@ =~= seq![2u8, which]);
        } else {
            assert(lines@ =~= seq![which]);
        }
    }
    lines
}

/// The new mask values that enabling interrupt line `which` writes, given
/// the masks read from the master and the slave: a slave line also unmasks
/// the cascade line 2 of the master. The result is the master's mask and,
/// for a slave line, the slave's mask.
pub fn pic_irq_enable(master_mask: u8, slave_mask: u8, which: u8) -> (r: (u8, Option<u8>))
    requires
        which < 16,
    ensures
        which >= 8 ==> r == (master_mask & 0xFBu8, Some(slave_mask & !(1u8 << ((which - 8) as u8)))),
        which < 8 ==> r == (master_mask & !(1u8 << which), None::<u8>),
{
    if which >= 8 {
        (master_mask & 0xFB, Some(slave_mask & !(1u8 << (which - 8))))
    } else {
        (master_mask & !(1u8 << which), None)
    }
}

/// The new mask value that disabling interrupt line `which` writes to its
/// controller, given the mask read from it.
pub fn pic_irq_disable(mask: u8, which: u8) -> (r: u8)
    requires
        which < 16,
    ensures
        which >= 8 ==> r == mask | (1u8 << ((which - 8) as u8)),
        which < 8 ==> r == mask | (1u8 << which),
{
    if which >= 8 {
        mask | (1u8 << (which - 8))
    } else {
        mask | (1u8 << which)
    }
}

/// Enabling a line clears its bit and disabling it sets it; no other bit of
/// that controller's mask changes.
pub proof fn lemma_irq_mask_bits(mask: u8, which: u8)
    requires
        which < 8,
    ensures
        !bit_of(mask & !(1u8 << which), which),
        bit_of(mask | (1u8 << which), which),
        forall|k: u8|
            k < 8 && k != which ==> bit_of(mask & !(1u8 << which), k) == bit_of(mask, k) && bit_of(
                mask | (1u8 << which),
                k,
            ) == bit_of(mask, k),
{
    assert(which < 8 ==> ((mask & !(1u8 << which)) >> which) & 1u8 != 1u8) by (bit_vector);
    assert(which < 8 ==> ((mask | (1u8 << which)) >> which) & 1u8 == 1u8) by (bit_vector);
    assert(forall|k: u8|
        k < 8 && k != which && which < 8 ==> ((((mask & !(1u8 << which)) >> k) & 1u8 == 1u8) == ((
        mask >> k) & 1u8 == 1u8) && (((mask | (1u8 << which)) >> k) & 1u8 == 1u8) == ((mask >> k)
        & 1u8 == 1u8))) by (bit_vector);
}

/// The end-of-interrupt writes for line `which`: the slave is acknowledged
/// too for its lines.
pub fn pic_eoi(which: u8) -> (writes: Vec<PortWrite>)
    ensures
        which >= 8 ==> writes@ == seq![
            PortWrite { port: 0xA0, value: 0x20 },
            PortWrite { port: 0x20, value: 0x20 },
        ],
        which < 8 ==> writes@ == seq![PortWrite { port: 0x20, value: 0x20 }],
{
    let mut w = Vec::new();
    if which >= 8 {
        w.push(PortWrite { port: 0xA0, value: 0x20 });
    }
    w.push(PortWrite { port: 0x20, value: 0x20 });
    proof {
        if which >= 8 {
            assert(w@ =~= seq![
                PortWrite { port: 0xA0, value: 0x20 },
                PortWrite { port: 0x20, value: 0x20 },
            ]);
        } else {
            assert(w@ =~= seq![PortWrite { port: 0x20, value: 0x20 }]);
        }
    }
    w
}

/// The writes that program the interval timer: channel 0, low and high
/// divisor bytes, rate generator, then the divisor low byte first.
pub fn pit_init() -> (writes: Vec<PortWrite>)
    ensures
        writes@ == seq![
            PortWrite { port: 0x43, value: 0x34 },
            PortWrite { port: 0x40, value: 0x9C },
            PortWrite { port: 0x40, value: 0x2E },
        ],
{
    let mut w = Vec::new();
    w.push(PortWrite { port: 0x43, value: 0x34 });
    w.push(PortWrite { port: 0x40, value: 0x9C });
    w.push(PortWrite { port: 0x40, value: 0x2E });
    assert(w@ =~= seq![
        PortWrite { port: 0x43, value: 0x34 },
        PortWrite { port: 0x40, value: 0x9C },
        PortWrite { port: 0x40, value: 0x2E },
    ]);
    w
}

/// The timer fires at 100 Hz, to the nearest hertz: the two divisor bytes
/// that `pit_init` writes make up `PIT_DIVISOR`, and the base frequency
/// divided by it, rounded to the nearest whole number, is 100.
pub proof fn lemma_pit_at_100_hz()
    ensures
        0x9Cu16 + 0x2Eu16 * 256 == PIT_DIVISOR,
        (PIT_BASE_HZ as int + PIT_DIVISOR as int / 2) / (PIT_DIVISOR as int) == 100,
{
}

/// The first writes of the serial initialisation: interrupts off, divisor
/// latch on, divisor 3 (38400 baud), 8 bits without parity and one stop bit,
/// FIFO on, and loopback mode with a test byte 0xAE sent.
pub fn serial_init_writes() -> (writes: Vec<PortWrite>)
    ensures
        writes@ == seq![
            PortWrite { port: 0x3f9, value: 0 },
            PortWrite { port: 0x3fb, value: 0x80 },
            PortWrite { port: 0x3f8, value: 0x03 },
            PortWrite { port: 0x3f9, value: 0 },
            PortWrite { port: 0x3fb, value: 0x03 },
            PortWrite { port: 0x3fa, value: 0xC7 },
            PortWrite { port: 0x3fc, value: 0x03 },
            PortWrite { port: 0x3fc, value: 0x1E },
            PortWrite { port: 0x3f8, value: 0xAE },
        ],
{
    let mut w = Vec::new();
    w.push(PortWrite { port: COM1 + 1, value: 0 });
    w.push(PortWrite { port: COM1 + 3, value: 0x80 });
    w.push(PortWrite { port: COM1, value: 0x03 });
    w.push(PortWrite { port: COM1 + 1, value: 0 });
    w.push(PortWrite { port: COM1 + 3, value: 0x03 });
    w.push(PortWrite { port: COM1 + 2, value: 0xC7 });
    w.push(PortWrite { port: COM1 + 4, value: 0x03 });
    w.push(PortWrite { port: COM1 + 4, value: 0x1E });
    w.push(PortWrite { port: COM1, value: 0xAE });
    assert(w@ =~= seq![
        PortWrite { port: 0x3f9, value: 0 },
        PortWrite { port: 0x3fb, value: 0x80 },
        PortWrite { port: 0x3f8, value: 0x03 },
        PortWrite { port: 0x3f9, value: 0 },
        PortWrite { port: 0x3fb, value: 0x03 },
        PortWrite { port: 0x3fa, value: 0xC7 },
        PortWrite { port: 0x3fc, value: 0x03 },
        PortWrite { port: 0x3fc, value: 0x1E },
        PortWrite { port: 0x3f8, value: 0xAE },
    ]);
    w
}

/// The end of the serial initialisation, given the byte read back from the
/// port in loopback mode: a faulty port, which does not return the test byte,
/// fails with `SerialInit`; otherwise the port is put in normal mode.
pub fn serial_init_finish(loopback: u8) -> (r: Result<PortWrite, KernelError>)
    ensures
        loopback != 0xAE ==> r == Err::<PortWrite, KernelError>(KernelError::SerialInit),
        loopback == 0xAE ==> r == Ok::<PortWrite, KernelError>(PortWrite { port: 0x3fc, value: 0x03 }),
{
    if loopback != 0xAE {
        return Err(KernelError::SerialInit);
    }
    Ok(PortWrite { port: COM1 + 4, value: 0x03 })
}

/// Whether the serial port can take another byte, given its line status: the
/// transmit holding register is empty.
pub fn serial_transmit_ready(line_status: u8) -> (ready: bool)
    ensures
        ready == (line_status & 0x20u8 != 0),
{
    line_status & 0x20 != 0
}

} // verus!
