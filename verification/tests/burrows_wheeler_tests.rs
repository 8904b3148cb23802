use compress_lab::burrows_wheeler::BurroughsWheelerEncode;

#[test]
fn test_table_creation() {
    const CHUNK_SIZE: usize = 10;

    let bytes: Vec<u8> = (0..100).map(|_| rand::random::<u8>()).collect();
    let chunks = bytes.chunks_exact(CHUNK_SIZE);

    for word in chunks {
        let word: [u8; CHUNK_SIZE] = word.try_into().unwrap();
        let (code, pos) = BurroughsWheelerEncode::encode(&word);
        let decoded_bytes = BurroughsWheelerEncode::decode(&code, pos);

        assert_eq!(&word, &decoded_bytes);
    }
}

#[test]
fn bwt_known_value() {
    let (code, pos) = BurroughsWheelerEncode::encode(b"banana");
    assert_eq!(&code, b"nnbaaa");
    assert_eq!(pos, 3);
    assert_eq!(&BurroughsWheelerEncode::decode(&code, pos), b"banana");
}

#[test]
fn bwt_periodic_block_roundtrip() {
    let block = *b"abababab";
    let (code, pos) = BurroughsWheelerEncode::encode(&block);
    assert_eq!(&code, b"bbbbaaaa");
    assert_eq!(&BurroughsWheelerEncode::decode(&code, pos), &block);
}

#[test]
fn bwt_encode_block_empty_and_full() {
    assert!(BurroughsWheelerEncode::encode_block(&[0u8; 0]).is_none());
    let (code, pos) = BurroughsWheelerEncode::encode_block(b"abc").unwrap();
    assert_eq!(&code, b"cab");
    assert_eq!(pos, 0);
}

#[test]
fn bwt_roundtrip_full_chunks() {
    let bytes: Vec<u8> = (0..320u32).map(|i| (i * 37 % 7) as u8).collect();
    for word in bytes.chunks_exact(32) {
        let word: [u8; 32] = word.try_into().unwrap();
        let (code, pos) = BurroughsWheelerEncode::encode(&word);
        assert_eq!(BurroughsWheelerEncode::decode(&code, pos), word);
    }
}

#[test]
fn bwt_encode_block_agrees_with_encode() {
    let blocks: [[u8; 8]; 4] = [*b"abababab", *b"zzzzzzzz", *b"mississi", [7, 0, 255, 3, 3, 0, 9, 1]];
    for block in blocks.iter() {
        assert_eq!(BurroughsWheelerEncode::encode_block(block), Some(BurroughsWheelerEncode::encode(block)));
    }
}
