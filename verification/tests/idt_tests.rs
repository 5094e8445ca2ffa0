use kernelcore::config::TOTAL_INTERRUPTS;
use kernelcore::idt::{Idt, IdtDesc, IdtrDesc};

#[test]
fn descriptor_splits_the_handler_address() {
    let mut d = IdtDesc::default();
    assert_eq!(d.selector, 0x08);
    assert_eq!(d.type_attributes, 0x8E);
    d.set(0xdead_beef_1234_5678).unwrap();
    assert_eq!(d.offset_1, 0x5678);
    assert_eq!(d.offset_2, 0x1234);
    assert_eq!(d.offset_3, 0xdead_beef);
    assert_eq!(d.selector, 0x08);
    assert_eq!(d.type_attributes, 0x8E);
    assert_eq!(d.ist, 0);
    assert_eq!(d.zero, 0);
}

#[test]
fn idtr_describes_the_full_table() {
    let r = IdtrDesc::new(0x7c00).unwrap();
    assert_eq!(r.limit, 4095);
    assert_eq!(r.base, 0x7c00);
}

#[test]
fn table_points_every_vector_at_the_default_handler() {
    let no_interrupt = 0x1111_2222_3333_4444u64;
    let int20h = 0x5555_6666_7777_8888u64;
    let idt = Idt::new(no_interrupt, int20h).unwrap();
    for i in 0..TOTAL_INTERRUPTS {
        let d = idt.descriptor(i);
        if i == 0x20 {
            assert_eq!(d.offset_1, 0x8888);
            assert_eq!(d.offset_2, 0x7777);
            assert_eq!(d.offset_3, 0x5555_6666);
        } else {
            assert_eq!(d.offset_1, 0x4444);
            assert_eq!(d.offset_2, 0x3333);
            assert_eq!(d.offset_3, 0x1111_2222);
        }
        assert_eq!(d.selector, 0x08);
        assert_eq!(d.type_attributes, 0x8E);
    }
}
