use windexer_core::codec::{compress_bytes, decompress_bytes};
use windexer_core::error::ErrorKind;

#[test]
fn rle_round_trip_plain() {
    let cases: Vec<Vec<u8>> = vec![
        vec![],
        vec![0],
        vec![1, 2, 3, 4, 5],
        vec![9; 1000],
        vec![1, 1, 2, 2, 2, 3],
        (0..=255u8).collect(),
    ];
    for raw in cases {
        let payload = compress_bytes(&raw);
        let back = decompress_bytes(&payload).unwrap();
        assert_eq!(back, raw);
    }
}

#[test]
fn rle_exact_encoding() {
    assert_eq!(compress_bytes(&vec![7, 7, 7]), vec![3, 7]);
    assert_eq!(compress_bytes(&vec![]), Vec::<u8>::new());
    assert_eq!(compress_bytes(&vec![5]), vec![1, 5]);
    assert_eq!(compress_bytes(&vec![1, 2, 2]), vec![1, 1, 2, 2]);
    // A run longer than one count byte can carry splits at 255.
    assert_eq!(compress_bytes(&vec![0; 300]), vec![255, 0, 45, 0]);
}

#[test]
fn rle_rejects_dangling_count() {
    assert_eq!(decompress_bytes(&vec![3]), Err(ErrorKind::Compression));
    assert_eq!(decompress_bytes(&vec![2, 9, 1]), Err(ErrorKind::Compression));
}

#[test]
fn rle_rejects_zero_count() {
    assert_eq!(decompress_bytes(&vec![0, 9]), Err(ErrorKind::Compression));
    assert_eq!(decompress_bytes(&vec![1, 4, 0, 0]), Err(ErrorKind::Compression));
}

#[test]
fn rle_decode_valid_payload() {
    assert_eq!(decompress_bytes(&vec![2, 8, 1, 3]), Ok(vec![8, 8, 3]));
    assert_eq!(decompress_bytes(&vec![]), Ok(vec![]));
}
