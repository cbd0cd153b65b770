use soundcheck::bytes::{bytes4, u32_at};

#[test]
fn a_number_written_as_bytes_reads_back() {
    assert_eq!(u32_at(&bytes4(0x0403_0201), 0), Some(0x0403_0201));
    assert_eq!(u32_at(&[1, 2, 3], 0), None);
}
