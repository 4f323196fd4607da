use object_kernel::interrupts::{
    exception_message, pushes_error_code, interrupt_action, register_handler, unhandled_interrupt_message,
    HandlerTable, InterruptAction,
};

fn name(isr: u8) -> Option<String> {
    exception_message(isr)
}

#[test]
fn exception_names() {
    assert_eq!(name(0).as_deref(), Some("Divide error"));
    assert_eq!(name(3).as_deref(), Some("Breakpoint"));
    assert_eq!(name(13).as_deref(), Some("General protection fault"));
    // the page fault is reported under the name of vector 10
    assert_eq!(name(14).as_deref(), Some("Invalid TSS"));
    assert_eq!(name(16).as_deref(), Some("x87 Floating point"));
    assert_eq!(name(30).as_deref(), Some("Security exception"));
    assert_eq!(name(32).as_deref(), Some("Interrupt #32"));
    assert_eq!(name(100).as_deref(), Some("Interrupt #100"));
    assert_eq!(name(255).as_deref(), Some("Interrupt #255"));
    assert_eq!(name(8), None);
    assert_eq!(name(9), None);
    assert_eq!(name(15), None);
    assert_eq!(name(18), None);
    assert_eq!(name(31), None);
}

#[test]
fn registered_handlers_are_called() {
    let mut table = HandlerTable::new();
    assert_eq!(table.handler(33), None);
    register_handler(&mut table, 33, 0xFFFF_8000_0010_0000);
    assert_eq!(table.handler(33), Some(0xFFFF_8000_0010_0000));
    assert_eq!(table.handler(34), None);
    match interrupt_action(&table, 33) {
        InterruptAction::CallHandler(h) => assert_eq!(h, 0xFFFF_8000_0010_0000),
        _ => panic!("expected a handler call"),
    }
    register_handler(&mut table, 33, 0x1234);
    assert_eq!(table.handler(33), Some(0x1234));
}

#[test]
fn unregistered_vectors_are_reported() {
    let table = HandlerTable::new();
    match interrupt_action(&table, 6) {
        InterruptAction::Report(m) => assert_eq!(m, "Invalid opcode"),
        _ => panic!("expected a report"),
    }
    match interrupt_action(&table, 40) {
        InterruptAction::Report(m) => assert_eq!(m, "Interrupt #40"),
        _ => panic!("expected a report"),
    }
}

#[test]
fn fatal_exceptions_halt_even_with_a_handler() {
    let mut table = HandlerTable::new();
    register_handler(&mut table, 8, 0x1000);
    match interrupt_action(&table, 8) {
        InterruptAction::Halt(m) => assert_eq!(m, "Double fault"),
        _ => panic!("expected a halt"),
    }
    match interrupt_action(&table, 18) {
        InterruptAction::Halt(m) => assert_eq!(m, "Machine check"),
        _ => panic!("expected a halt"),
    }
}

#[test]
fn unhandled_interrupt_messages() {
    assert_eq!(
        unhandled_interrupt_message(13, Some(0), 0xffffffff80001a2f, 0x7ffffff000),
        "Unhandled interrupt #13: 0 @ ripffffffff80001a2f; rsp7ffffff000"
    );
    assert_eq!(
        unhandled_interrupt_message(3, None, 0x80000, 0),
        "Unhandled interrupt #3 @ rip80000; rsp0"
    );
    assert_eq!(
        unhandled_interrupt_message(255, Some(18446744073709551615), 0xa, 0x10),
        "Unhandled interrupt #255: 18446744073709551615 @ ripa; rsp10"
    );
}

#[test]
fn vectors_with_error_codes() {
    let with: Vec<u8> = (0..=255u8).filter(|v| pushes_error_code(*v)).collect();
    assert_eq!(with, vec![8, 10, 11, 12, 13, 14, 17, 21, 29, 30]);
}
