use kernel_schemes::error::SchemeError;
use kernel_schemes::irq::{IrqScheme, WORD_BYTES};

#[test]
fn open_parses_the_line_index() {
    let irq = IrqScheme::new(16);
    assert_eq!(irq.lines(), 16);
    assert_eq!(irq.open(b"0", 0), Ok(0));
    assert_eq!(irq.open(b"15", 0), Ok(15));
    assert_eq!(irq.open(b"+3", 0), Ok(3));
    assert_eq!(irq.open(b"007", 0), Ok(7));
    assert_eq!(irq.open(b"16", 0), Err(SchemeError::NotFound));
    assert_eq!(irq.open(b"", 0), Err(SchemeError::NotFound));
    assert_eq!(irq.open(b"+", 0), Err(SchemeError::NotFound));
    assert_eq!(irq.open(b"3a", 0), Err(SchemeError::NotFound));
    assert_eq!(irq.open(b"-1", 0), Err(SchemeError::NotFound));
    assert_eq!(irq.open(b"99999999999999999999999", 0), Err(SchemeError::NotFound));
    assert_eq!(irq.open(&[0xff, 0x31], 0), Err(SchemeError::NotFound));
}

#[test]
fn new_interrupt_is_read_once_acknowledged() {
    let mut irq = IrqScheme::new(16);
    let mut buf = [0u8; 8];
    assert_eq!(irq.read(3, &mut buf), Ok(0));
    assert!(irq.trigger(3));
    assert_eq!(irq.read(3, &mut buf), Ok(WORD_BYTES));
    assert_eq!(buf, 1u64.to_le_bytes());
    assert_eq!(irq.write(3, &buf), Ok(WORD_BYTES));
    let mut again = [9u8; 8];
    assert_eq!(irq.read(3, &mut again), Ok(0));
    assert_eq!(again, [9u8; 8]);
}

#[test]
fn read_without_acknowledgement_reports_again() {
    let mut irq = IrqScheme::new(4);
    assert!(irq.trigger(1));
    let mut buf = [0u8; 8];
    assert_eq!(irq.read(1, &mut buf), Ok(8));
    assert_eq!(irq.read(1, &mut buf), Ok(8));
    assert_eq!(buf, 1u64.to_le_bytes());
}

#[test]
fn stale_acknowledgement_is_a_no_op() {
    let mut irq = IrqScheme::new(4);
    assert!(irq.trigger(2));
    let mut buf = [0u8; 8];
    assert_eq!(irq.read(2, &mut buf), Ok(8));
    assert!(irq.trigger(2));
    assert_eq!(irq.write(2, &buf), Ok(0));
    let mut now = [0u8; 8];
    assert_eq!(irq.read(2, &mut now), Ok(8));
    assert_eq!(now, 2u64.to_le_bytes());
    assert_eq!(irq.write(2, &now), Ok(8));
    assert_eq!(irq.read(2, &mut now), Ok(0));
}

#[test]
fn longer_buffers_keep_their_tail() {
    let mut irq = IrqScheme::new(4);
    assert!(irq.trigger(0));
    assert!(irq.trigger(0));
    assert!(irq.trigger(0));
    let mut buf = [7u8; 10];
    assert_eq!(irq.read(0, &mut buf), Ok(8));
    assert_eq!(buf, [3, 0, 0, 0, 0, 0, 0, 0, 7, 7]);
    assert_eq!(irq.write(0, &buf), Ok(8));
}

#[test]
fn undersized_buffers_are_invalid() {
    let mut irq = IrqScheme::new(4);
    assert!(irq.trigger(0));
    let mut small = [5u8; 7];
    assert_eq!(irq.read(0, &mut small), Err(SchemeError::InvalidArgument));
    assert_eq!(small, [5u8; 7]);
    assert_eq!(irq.write(0, &[1, 0, 0, 0, 0, 0, 0]), Err(SchemeError::InvalidArgument));
    assert_eq!(irq.read(0, &mut []), Err(SchemeError::InvalidArgument));
    let mut buf = [0u8; 8];
    assert_eq!(irq.read(0, &mut buf), Ok(8));
}

#[test]
fn unknown_lines_are_bad_descriptors() {
    let mut irq = IrqScheme::new(4);
    let mut buf = [0u8; 8];
    assert_eq!(irq.read(4, &mut buf), Err(SchemeError::BadDescriptor));
    assert_eq!(irq.write(4, &buf), Err(SchemeError::BadDescriptor));
    assert!(!irq.trigger(4));
}

#[test]
fn trivial_irq_operations() {
    let irq = IrqScheme::new(4);
    assert_eq!(irq.dup(2), Ok(2));
    assert_eq!(irq.fsync(2), Ok(0));
    assert_eq!(irq.close(2), Ok(0));
}
