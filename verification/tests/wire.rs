use ngram::wire::{get_u64, put_u64};

#[test]
fn put_u64_writes_most_significant_byte_first() {
    let mut out = vec![0xaau8];
    put_u64(&mut out, 0x0102_0304_0506_0708);
    assert_eq!(out, vec![0xaa, 1, 2, 3, 4, 5, 6, 7, 8]);
}

#[test]
fn put_u64_of_zero_and_max() {
    let mut out = Vec::new();
    put_u64(&mut out, 0);
    put_u64(&mut out, u64::MAX);
    assert_eq!(out, vec![0, 0, 0, 0, 0, 0, 0, 0, 255, 255, 255, 255, 255, 255, 255, 255]);
}

#[test]
fn get_u64_reads_at_an_offset() {
    let bytes = [9u8, 9, 0, 0, 0, 0, 0, 0, 1, 2, 7];
    assert_eq!(get_u64(&bytes, 2), 258);
    assert_eq!(get_u64(&bytes, 0), 0x0909_0000_0000_0000);
}

#[test]
fn get_u64_undoes_put_u64() {
    for x in [0u64, 1, 255, 256, 65_535, 1 << 32, (1 << 63) + 12_345, u64::MAX] {
        let mut out = Vec::new();
        put_u64(&mut out, x);
        assert_eq!(out.len(), 8);
        assert_eq!(out, x.to_be_bytes().to_vec());
        assert_eq!(get_u64(&out, 0), x);
    }
}
