use morb_os::interrupts::{
    init_idt, IdtHandler, InterruptIndex, DOUBLE_FAULT_IST_INDEX, PIC_1_OFFSET, PIC_2_OFFSET,
};

#[test]
fn controller_offsets() {
    assert_eq!(PIC_1_OFFSET, 32);
    assert_eq!(PIC_2_OFFSET, 40);
}

#[test]
fn interrupt_vectors() {
    assert_eq!(InterruptIndex::Timer.as_vector(), 32);
    assert_eq!(InterruptIndex::Keyboard.as_vector(), 33);
}

#[test]
fn idt_layout_installs_all_five_handlers() {
    let t = init_idt();
    assert_eq!(t.len(), 5);
    assert_eq!(t[0].vector, 3);
    assert!(matches!(t[0].handler, IdtHandler::Breakpoint));
    assert!(!t[0].uses_ist);
    assert_eq!(t[1].vector, 8);
    assert!(matches!(t[1].handler, IdtHandler::DoubleFault));
    assert!(t[1].uses_ist);
    assert_eq!(t[1].ist_index, DOUBLE_FAULT_IST_INDEX);
    assert_eq!(t[2].vector, 32);
    assert!(matches!(t[2].handler, IdtHandler::Timer));
    assert_eq!(t[3].vector, 33);
    assert!(matches!(t[3].handler, IdtHandler::Keyboard));
    assert_eq!(t[4].vector, 14);
    assert!(matches!(t[4].handler, IdtHandler::PageFault));
}
