use secko::messages::{frame, length_prefix, read_prefix, Announced};

#[test]
fn length_is_written_most_significant_byte_first() {
    assert_eq!(length_prefix(0), [0, 0, 0, 0, 0, 0, 0, 0]);
    assert_eq!(length_prefix(5), [0, 0, 0, 0, 0, 0, 0, 5]);
    assert_eq!(length_prefix(0x0102), [0, 0, 0, 0, 0, 0, 1, 2]);
    assert_eq!(length_prefix(0x0102_0304_0506_0708), [1, 2, 3, 4, 5, 6, 7, 8]);
    assert_eq!(length_prefix(usize::MAX), 0xffff_ffff_ffff_ffffu64.to_be_bytes());
}

#[test]
fn frame_is_length_then_payload() {
    assert_eq!(frame(&[9, 8, 7]), vec![0, 0, 0, 0, 0, 0, 0, 3, 9, 8, 7]);
    assert_eq!(frame(&[]), vec![0, 0, 0, 0, 0, 0, 0, 0]);
    let long = vec![1u8; 300];
    let framed = frame(&long);
    assert_eq!(framed.len(), 308);
    assert_eq!(&framed[..8], &[0, 0, 0, 0, 0, 0, 1, 44]);
    assert_eq!(&framed[8..], &long[..]);
}

#[test]
fn zero_length_reads_as_closed() {
    assert_eq!(read_prefix(&[0; 8]), Announced::Closed);
}

#[test]
fn prefix_reads_back_as_the_length() {
    assert_eq!(read_prefix(&[0, 0, 0, 0, 0, 0, 0, 1]), Announced::Payload(1));
    assert_eq!(read_prefix(&[0, 0, 0, 0, 0, 0, 1, 0]), Announced::Payload(256));
    for len in [1usize, 2, 255, 256, 65_535, 65_536, 1 << 40, usize::MAX] {
        assert_eq!(read_prefix(&length_prefix(len)), Announced::Payload(len));
    }
}
