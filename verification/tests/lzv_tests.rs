use compress_lab::lzv::algorithms::{LzvDecoder, LzvEncoder, LzvHeader};
use compress_lab::lzv::cli::{decode_file, encode_file, Options};
use compress_lab::lzv::dictionary::{Dictionary, DictionaryOptions};
use compress_lab::lzv::error::LzvError;

#[test]
fn header_bytes_roundtrip() {
    let h = LzvHeader { excess: 3, word_length: 0x0102_0304, clear_on_overflow: true };
    let b = h.to_bytes();
    assert_eq!(b, vec![3, 4, 3, 2, 1, 1]);
    assert_eq!(LzvHeader::byte_length(), 6);
    let back = LzvHeader::from_bytes(&b).unwrap();
    assert_eq!(back.excess, 3);
    assert_eq!(back.word_length, 0x0102_0304);
    assert!(back.clear_on_overflow);
    assert!(matches!(LzvHeader::from_bytes(&b[..5]), Err(LzvError::InvalidInput)));
}

#[test]
fn lzv_known_encoding() {
    let out = encode_file(b"abab");
    assert_eq!(out, vec![0, 16, 0, 0, 0, 0, 97, 0, 98, 0, 0, 1]);
    assert_eq!(decode_file(out).unwrap(), b"abab".to_vec());
}

#[test]
fn lzv_empty_input() {
    let out = encode_file(b"");
    assert_eq!(out, vec![0, 16, 0, 0, 0, 0]);
    assert_eq!(decode_file(out).unwrap(), Vec::<u8>::new());
}

#[test]
fn lzv_roundtrip_repetitive_and_random() {
    let mut data: Vec<u8> = Vec::new();
    for i in 0..5000u32 {
        data.push((i % 13) as u8);
    }
    let enc = encode_file(&data);
    assert!(enc.len() < data.len());
    assert_eq!(decode_file(enc).unwrap(), data);

    let random: Vec<u8> = (0..3000).map(|_| rand::random::<u8>()).collect();
    assert_eq!(decode_file(encode_file(&random)).unwrap(), random);
}

#[test]
fn lzv_kwkwk_case() {
    let out = encode_file(b"aaa");
    assert_eq!(out, vec![0, 16, 0, 0, 0, 0, 97, 0, 0, 1]);
    assert_eq!(decode_file(out).unwrap(), b"aaa".to_vec());
}

#[test]
fn lzv_encoder_in_parts() {
    let mut enc = LzvEncoder::new();
    enc.process(b"ab").unwrap();
    enc.process(b"ab").unwrap();
    assert_eq!(enc.finish().unwrap(), 0);
    assert_eq!(enc.into_bytes(), encode_file(b"abab"));
}

#[test]
fn lzv_decode_errors() {
    assert!(matches!(decode_file(vec![0, 16, 0]), Err(LzvError::InvalidInput)));
    let bad_first = vec![0, 16, 0, 0, 0, 0, 0, 1];
    assert!(matches!(decode_file(bad_first), Err(LzvError::InvalidFirstIndex { index: 256 })));
    let kwkwk = vec![0, 16, 0, 0, 0, 0, 97, 0, 0x58, 2];
    assert_eq!(decode_file(kwkwk).unwrap(), b"aaa".to_vec());
    let unknown = vec![0, 16, 0, 0, 0, 0, 97, 0, 0x58, 2, 0xbc, 2];
    assert!(matches!(decode_file(unknown), Err(LzvError::InvalidInput)));
    let wide = vec![0, 40, 0, 0, 0, 0, 1, 2, 3, 4, 5];
    assert!(matches!(decode_file(wide), Err(LzvError::InvalidInput)));
}

#[test]
fn lzv_decoder_steps() {
    let mut dec = LzvDecoder::new(vec![0, 16, 0, 0, 0, 0]).unwrap();
    dec.process(97).unwrap();
    dec.process(256).unwrap();
    assert_eq!(dec.into_bytes(), b"aaa".to_vec());
}

#[test]
fn lzv_narrow_indices() {
    // 9-bit indices 97 and 98; the six bits left over read as a last index 0.
    let mut data = vec![0, 9, 0, 0, 0, 0];
    data.extend_from_slice(&[97, 196, 0]);
    assert_eq!(decode_file(data).unwrap(), b"ab\0".to_vec());
}

#[test]
fn lzv_options() {
    assert!(matches!(Options::parse("encode"), Ok(Options::Encode)));
    assert!(matches!(Options::parse("decode"), Ok(Options::Decode)));
    assert!(matches!(Options::parse("other"), Err(LzvError::InvalidInput)));
    assert_eq!(Options::Encode.name(), "encode");
    assert_eq!(Options::Decode.name(), "decode");
}

#[test]
fn dictionary_records() {
    let mut d = Dictionary::default();
    assert_eq!(d.word_bit_length(), 16);
    assert_eq!(d.current_len(), 256);
    d.add(b'b', 97);
    d.add(b'c', 256);
    assert_eq!(d.current_len(), 258);
    assert_eq!(d.index_of_record(97, b'b'), Some(256));
    assert_eq!(d.index_of_record(97, b'c'), None);
    assert_eq!(d.index_of(None, b'x'), Some(120));
    assert_eq!(d.index_of(Some(256), b'c'), Some(257));
    assert_eq!(d.get_record(257), Some(b"abc".to_vec()));
    assert_eq!(d.get_record(65), Some(b"A".to_vec()));
    assert_eq!(d.get_record(258), None);
    assert_eq!(d.index_of_symbol(7), 7);
}

#[test]
fn dictionary_full() {
    let mut d = Dictionary::with_options(DictionaryOptions::new(9, false));
    for i in 0..300u32 {
        d.add(0, i);
    }
    assert_eq!(d.current_len(), 512);
    let mut c = Dictionary::with_options(DictionaryOptions::new(9, true));
    for i in 0..257u32 {
        c.add(0, i);
    }
    assert_eq!(c.current_len(), 256);
}

#[test]
fn test_cli_algorithm() {
    // A table-like document: rows of numbers and names, then some noise.
    let mut input: Vec<u8> = Vec::new();
    for row in 0..600u32 {
        let line = format!("{};item-{};{};{}\n", row, row % 37, row * 7919 % 1000, ["red", "green", "blue"][(row % 3) as usize]);
        input.extend_from_slice(line.as_bytes());
    }
    input.extend((0..4000).map(|_| rand::random::<u8>()));

    let encoded = encode_file(&input);
    let decoded = decode_file(encoded).unwrap();
    assert_eq!(decoded, input);
}

#[test]
fn dictionary_chain_to_missing_record() {
    let mut d = Dictionary::default();
    d.add(b'x', 300);
    d.add(b'y', 256);
    assert_eq!(d.get_record(256), None);
    assert_eq!(d.get_record(257), None);
}
