use compress_lab::move_to_front::{MoveToFrontDecoder, MoveToFrontEncoder};

#[test]
fn test_move_to_front_encoder() {
    for size in 10..100 {
        let bytes = std::iter::repeat_with(|| rand::random::<u8>())
            .take(size)
            .collect::<Vec<_>>();

        let mut encoder = MoveToFrontEncoder::default();
        let mut decoder = MoveToFrontDecoder::default();

        let code = encoder.encode(&bytes);
        let decoded_bytes = decoder.decode(&code);

        assert_eq!(bytes, decoded_bytes);
    }
}

#[test]
fn test_move_to_front_encoder_for_parts() {
    for size in 10..100 {
        let bytes = std::iter::repeat_with(|| rand::random::<u8>())
            .take(size)
            .collect::<Vec<_>>();

        let mut encoder = MoveToFrontEncoder::default();
        let mut decoder = MoveToFrontDecoder::default();

        let mut code = Vec::new();
        let chunks = bytes.chunks_exact(16);
        let remainder = chunks.remainder();
        for chunk in chunks {
            code.append(&mut encoder.encode(chunk));
        }

        code.append(&mut encoder.encode(remainder));

        let decoded_bytes = decoder.decode(&code);

        assert_eq!(bytes, decoded_bytes);
    }
}

#[test]
fn move_to_front_known_code() {
    let mut encoder = MoveToFrontEncoder::default();
    assert_eq!(encoder.encode(&[1, 1, 0, 2, 2]), vec![1, 0, 1, 2, 0]);
    let mut decoder = MoveToFrontDecoder::default();
    assert_eq!(decoder.decode(&[1, 0, 1, 2, 0]), vec![1, 1, 0, 2, 2]);
}

#[test]
fn move_to_front_list_carries_over() {
    let mut encoder = MoveToFrontEncoder::default();
    assert_eq!(encoder.encode(&[5]), vec![5]);
    assert_eq!(encoder.encode(&[5]), vec![0]);
    assert_eq!(encoder.encode(&[0]), vec![1]);
}
