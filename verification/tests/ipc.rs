//! The shared-memory header: the message length and the ready/error flags.

use espresso_logic::ipc::ShmLayout;

#[test]
fn test_shm_layout() {
    let mut mem = vec![0u8; 1024];

    ShmLayout::write_len(&mut mem, 42);
    assert_eq!(ShmLayout::read_len(&mem), 42);

    ShmLayout::set_flag(&mut mem, ShmLayout::FLAG_REQUEST_READY);
    assert!(ShmLayout::has_flag(&mem, ShmLayout::FLAG_REQUEST_READY));
    assert!(!ShmLayout::has_flag(&mem, ShmLayout::FLAG_RESPONSE_READY));

    ShmLayout::set_flag(&mut mem, ShmLayout::FLAG_RESPONSE_READY);
    assert!(ShmLayout::has_flag(&mem, ShmLayout::FLAG_REQUEST_READY));
    assert!(ShmLayout::has_flag(&mem, ShmLayout::FLAG_RESPONSE_READY));

    ShmLayout::clear_flag(&mut mem, ShmLayout::FLAG_REQUEST_READY);
    assert!(!ShmLayout::has_flag(&mem, ShmLayout::FLAG_REQUEST_READY));
    assert!(ShmLayout::has_flag(&mem, ShmLayout::FLAG_RESPONSE_READY));
}

#[test]
fn header_fields_are_little_endian_and_independent() {
    let mut mem = vec![0u8; ShmLayout::HEADER_SIZE + 4];
    ShmLayout::write_len(&mut mem, 0x0102);
    assert_eq!(&mem[0..8], &[2, 1, 0, 0, 0, 0, 0, 0]);
    ShmLayout::write_flags(&mut mem, ShmLayout::FLAG_WORKER_ERROR | ShmLayout::FLAG_REQUEST_READY);
    assert_eq!(ShmLayout::read_flags(&mem), 5);
    assert_eq!(ShmLayout::read_len(&mem), 0x0102);
    assert_eq!(&mem[ShmLayout::HEADER_SIZE..], &[0, 0, 0, 0]);
}
