use object_kernel::error::KernelError;
use object_kernel::port::{
    pic_clear_mask_lines, pic_clear_mask_value, pic_eoi, pic_init, pic_irq_disable,
    pic_irq_enable, pic_mask_port, pic_remap, pit_init, serial_init_finish, serial_init_writes,
    serial_transmit_ready, PortWrite, PIT_BASE_HZ, PIT_DIVISOR,
};

fn w(port: u16, value: u8) -> PortWrite {
    PortWrite { port, value }
}

#[test]
fn pic_init_sequence() {
    let expected = vec![
        w(0x20, 0x11),
        w(0xA0, 0x11),
        w(0x21, 0x20),
        w(0xA1, 0x28),
        w(0x21, 4),
        w(0xA1, 2),
        w(0x21, 1),
        w(0xA1, 1),
        w(0x21, 0xFF),
        w(0xA1, 0xFF),
    ];
    assert_eq!(pic_init(), expected);
    assert_eq!(pic_remap(), expected);
}

#[test]
fn pic_mask_ports() {
    assert_eq!(pic_mask_port(0), 0x21);
    assert_eq!(pic_mask_port(7), 0x21);
    assert_eq!(pic_mask_port(8), 0xA1);
    assert_eq!(pic_mask_port(15), 0xA1);
}

#[test]
fn pic_clear_mask_clears_one_bit() {
    assert_eq!(pic_clear_mask_value(0xFF, 0), 0xFE);
    assert_eq!(pic_clear_mask_value(0xFF, 3), 0xF7);
    assert_eq!(pic_clear_mask_value(0xFF, 10), 0xFB);
    assert_eq!(pic_clear_mask_value(0x00, 5), 0x00);
    assert_eq!(pic_clear_mask_lines(1), vec![1]);
    assert_eq!(pic_clear_mask_lines(12), vec![2, 12]);
}

#[test]
fn pic_irq_enable_and_disable() {
    assert_eq!(pic_irq_enable(0xFF, 0xFF, 0), (0xFE, None));
    assert_eq!(pic_irq_enable(0xFF, 0xFF, 9), (0xFB, Some(0xFD)));
    assert_eq!(pic_irq_enable(0xFF, 0x0F, 15), (0xFB, Some(0x0F)));
    assert_eq!(pic_irq_disable(0x00, 1), 0x02);
    assert_eq!(pic_irq_disable(0x00, 14), 0x40);
    assert_eq!(pic_irq_disable(0xFF, 4), 0xFF);
}

#[test]
fn pic_eoi_acknowledges_slave_lines_on_both() {
    assert_eq!(pic_eoi(0), vec![w(0x20, 0x20)]);
    assert_eq!(pic_eoi(7), vec![w(0x20, 0x20)]);
    assert_eq!(pic_eoi(8), vec![w(0xA0, 0x20), w(0x20, 0x20)]);
}

#[test]
fn pit_runs_at_about_100_hz() {
    assert_eq!(pit_init(), vec![w(0x43, 0x34), w(0x40, 0x9C), w(0x40, 0x2E)]);
    assert_eq!(PIT_DIVISOR, 0x9C + 0x2E * 256);
    let hz = PIT_BASE_HZ as f64 / PIT_DIVISOR as f64;
    assert!((hz - 100.0).abs() < 0.5);
}

#[test]
fn serial_init_sequence_and_loopback_check() {
    assert_eq!(
        serial_init_writes(),
        vec![
            w(0x3f9, 0),
            w(0x3fb, 0x80),
            w(0x3f8, 0x03),
            w(0x3f9, 0),
            w(0x3fb, 0x03),
            w(0x3fa, 0xC7),
            w(0x3fc, 0x03),
            w(0x3fc, 0x1E),
            w(0x3f8, 0xAE),
        ]
    );
    assert_eq!(serial_init_finish(0xAE), Ok(w(0x3fc, 0x03)));
    assert_eq!(serial_init_finish(0x00), Err(KernelError::SerialInit));
    assert_eq!(serial_init_finish(0xAF), Err(KernelError::SerialInit));
}

#[test]
fn serial_transmit_ready_bit() {
    assert!(serial_transmit_ready(0x20));
    assert!(serial_transmit_ready(0x60));
    assert!(!serial_transmit_ready(0x00));
    assert!(!serial_transmit_ready(0xDF));
}
