use base64::prelude::BASE64_STANDARD;
use base64::Engine;
use compress_lab::base64::algorithms::{decode, encode};
use compress_lab::base64::error::Base64Error;
use compress_lab::base64::cli::{decode_file, encode_file, Options, BASE64_EXTENSION};
use compress_lab::text::name_or_default;

#[test]
fn test_encode() {
    let data = "hello world".as_bytes();

    for i in 0..data.len() {
        assert_eq!(&data[0..i], decode(&encode(&data[0..i])).unwrap());
        assert_eq!(encode(&data[0..i]), BASE64_STANDARD.encode(&data[0..i]));

        let e = encode(&data[0..i]);
        assert_eq!(decode(&e).unwrap(), BASE64_STANDARD.decode(&e).unwrap());
    }
}

#[test]
fn base64_known_values() {
    assert_eq!(encode(b""), "");
    assert_eq!(encode(b"M"), "TQ==");
    assert_eq!(encode(b"Ma"), "TWE=");
    assert_eq!(encode(b"Man"), "TWFu");
    assert_eq!(decode("TWFu").unwrap(), b"Man".to_vec());
    assert_eq!(decode("").unwrap(), Vec::<u8>::new());
}

#[test]
fn base64_last_symbol_is_slash() {
    assert_eq!(encode(&[0xff]), "/w==");
    assert_eq!(encode(&[0xff]), BASE64_STANDARD.encode([0xffu8]));
    assert_eq!(decode("/w==").unwrap(), vec![0xff]);
    assert_eq!(encode(&[0xff, 0xff, 0xff]), "////");
    assert_eq!(decode("////").unwrap(), vec![0xff, 0xff, 0xff]);
    assert_eq!(encode(&[0xfb, 0xff]), "+/8=");
    assert!(matches!(decode(r"\\\\"), Err(Base64Error::InvalidInputCharacter { line: 0, pos: 0 })));
}

#[test]
fn base64_matches_standard_engine_on_all_bytes() {
    let data: Vec<u8> = (0..=255u8).rev().collect();
    for n in 0..data.len() {
        let expected = BASE64_STANDARD.encode(&data[..n]);
        assert_eq!(encode(&data[..n]), expected);
        assert_eq!(decode(&expected).unwrap(), BASE64_STANDARD.decode(&expected).unwrap());
    }
}

#[test]
fn base64_roundtrip_all_lengths() {
    let data: Vec<u8> = (0..=255u8).collect();
    for n in 0..data.len() {
        assert_eq!(decode(&encode(&data[..n])).unwrap(), data[..n].to_vec());
    }
}

#[test]
fn base64_error_incorrect_length() {
    assert!(matches!(decode("abc"), Err(Base64Error::IncorrectStringLength { line: 0, len: 3 })));
}

#[test]
fn base64_error_invalid_character() {
    assert!(matches!(decode("TW!u"), Err(Base64Error::InvalidInputCharacter { line: 0, pos: 2 })));
    assert!(matches!(decode("TWFuTW*u"), Err(Base64Error::InvalidInputCharacter { line: 0, pos: 6 })));
}

#[test]
fn base64_error_padding() {
    assert!(matches!(decode("T=Fu"), Err(Base64Error::IncorrectUseOfPadding { line: 0, pos: 1 })));
    assert!(matches!(decode("TQ==TWFu"), Err(Base64Error::IncorrectUseOfPadding { line: 0, pos: 2 })));
    assert!(matches!(decode("TW=u"), Err(Base64Error::IncorrectUseOfPadding { line: 0, pos: 3 })));
}

#[test]
fn base64_set_line() {
    let mut e = Base64Error::InvalidInputCharacter { line: 0, pos: 5 };
    e.set_line(7);
    assert!(matches!(e, Base64Error::InvalidInputCharacter { line: 7, pos: 5 }));
    let mut e = Base64Error::IncorrectStringLength { line: 1, len: 3 };
    e.set_line(9);
    assert!(matches!(e, Base64Error::IncorrectStringLength { line: 9, len: 3 }));
    let mut e = Base64Error::UnknownOption;
    e.set_line(9);
    assert!(matches!(e, Base64Error::UnknownOption));
}

#[test]
fn base64_file_lines_encode() {
    let (text, r) = encode_file(b"Man\nMa\n\nM");
    assert!(r.is_ok());
    assert_eq!(text, "TWFu\nTWE=\n\nTQ==");
    let (text, r) = encode_file(b"ab\n");
    assert!(r.is_ok());
    assert_eq!(text, "YWI=");
    let (text, r) = encode_file(b"");
    assert!(r.is_ok());
    assert_eq!(text, "");
}

#[test]
fn base64_file_line_too_long() {
    let mut input = b"ok\n".to_vec();
    input.extend_from_slice(&[b'x'; 77]);
    let (text, r) = encode_file(&input);
    assert_eq!(text, "b2s=");
    assert!(matches!(r, Err(Base64Error::IncorrectStringLength { line: 2, len: 77 })));
}

#[test]
fn base64_file_lines_decode() {
    let lines = vec!["TWFu".to_string(), "-comment".to_string(), "TWE=".to_string()];
    let (bytes, r) = decode_file(&lines);
    assert!(r.is_ok());
    assert_eq!(bytes, b"Man\nMa".to_vec());
    let lines = vec!["-skip".to_string(), "TQ==".to_string()];
    let (bytes, r) = decode_file(&lines);
    assert!(r.is_ok());
    assert_eq!(bytes, b"\nM".to_vec());
}

#[test]
fn base64_file_decode_error_line() {
    let lines = vec!["TWFu".to_string(), "TW!u".to_string()];
    let (bytes, r) = decode_file(&lines);
    assert_eq!(bytes, b"Man\n".to_vec());
    assert!(matches!(r, Err(Base64Error::InvalidInputCharacter { line: 1, pos: 2 })));
    let long = vec!["A".repeat(80)];
    let (bytes, r) = decode_file(&long);
    assert!(bytes.is_empty());
    assert!(matches!(r, Err(Base64Error::IncorrectStringLength { line: 0, len: 80 })));
}

#[test]
fn base64_options() {
    assert!(matches!(Options::parse("encode"), Ok(Options::Encode)));
    assert!(matches!(Options::parse("decode"), Ok(Options::Decode)));
    assert!(matches!(Options::parse("x"), Err(Base64Error::UnknownOption)));
    assert_eq!(Options::Decode.name(), "decode");
}

#[test]
fn output_name_defaults_to_input_with_extension() {
    assert_eq!(name_or_default("notes.txt", "", BASE64_EXTENSION), "notes.txt.base64");
    assert_eq!(name_or_default("notes.txt", "out.b64", BASE64_EXTENSION), "out.b64");
    assert_eq!(name_or_default("", "", "x"), ".x");
}

#[test]
fn base64_whole_file_roundtrip() {
    let text = b"first line\n\nthird line, a little longer than the others\n-dash\nend".to_vec();
    let (encoded, result) = encode_file(&text);
    assert!(result.is_ok());
    let lines: Vec<String> = encoded.lines().map(|l| l.to_string()).collect();
    let (decoded, result) = decode_file(&lines);
    assert!(result.is_ok());
    assert_eq!(decoded, text);
}
