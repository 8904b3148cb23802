use compress_lab::burrows_wheeler::BurroughsWheelerEncode;
use compress_lab::cli::commands::{
    apply_bft_extension_decode, apply_bft_extension_encode, apply_mtf_extension_decode,
    apply_mtf_extension_encode, parse_input, split_whitespace, Algorithm, Config, EncodeOption,
    Extension,
};
use compress_lab::cli::plan::{
    apply_extensions, command_steps, remove_extensions, Action, Step,
};
use compress_lab::cli::error::CliError;
use compress_lab::huffman::algorithms::{decode as huffman_decode, encode as huffman_encode};
use compress_lab::lzv::cli::{decode_file as lzv_decode, encode_file as lzv_encode};
use compress_lab::move_to_front::MoveToFrontEncoder;

#[test]
fn parse_full_command() {
    let c = parse_input("encode test.txt test.enc lzv bwt mtf".to_string()).unwrap();
    assert_eq!(c.action, EncodeOption::Encode);
    assert_eq!(c.input_file, "test.txt");
    assert_eq!(c.output_file, "test.enc");
    assert_eq!(c.algorithm, Algorithm::LZV);
    assert_eq!(c.extensions, vec![Extension::BWT, Extension::MTF]);
}

#[test]
fn parse_default_output() {
    let c = parse_input("  decode\tin.bin default   huffman ".to_string()).unwrap();
    assert_eq!(c.action, EncodeOption::Decode);
    assert_eq!(c.output_file, "in.bin.dec");
    assert_eq!(c.algorithm, Algorithm::Huffman);
    assert!(c.extensions.is_empty());
    let c = parse_input("encode a default lzv".to_string()).unwrap();
    assert_eq!(c.output_file, "a.enc");
}

#[test]
fn parse_errors() {
    assert!(matches!(parse_input("compress a b lzv".to_string()), Err(CliError::UnknownCommand(t)) if t == "compress"));
    assert!(matches!(parse_input("oops".to_string()), Err(CliError::UnknownCommand(t)) if t == "oops"));
    assert!(matches!(parse_input("encode a b zip".to_string()), Err(CliError::UnknownAlgorithm(t)) if t == "zip"));
    assert!(matches!(parse_input("encode a b lzv mtf rle".to_string()), Err(CliError::UnknownExtension(t)) if t == "rle"));
}

#[test]
fn split_on_unicode_white_space() {
    let words = split_whitespace("a\u{3000}b  c\n");
    assert_eq!(words, vec!["a".to_string(), "b".to_string(), "c".to_string()]);
    assert!(split_whitespace(" \t ").is_empty());
}

#[test]
fn mtf_extension_roundtrip() {
    let data: Vec<u8> = (0..100u32).map(|i| (i * 7 % 11) as u8).collect();
    let enc = apply_mtf_extension_encode(&data);
    let mut whole = MoveToFrontEncoder::default();
    assert_eq!(enc, whole.encode(&data));
    assert_eq!(apply_mtf_extension_decode(&enc), data);
}

#[test]
fn bwt_extension_layout() {
    let data: Vec<u8> = (0..70u32).map(|i| (i * 5 % 9) as u8).collect();
    let enc = apply_bft_extension_encode(&data);
    assert_eq!(enc.len(), 33 * 2 + 6);
    let first: [u8; 32] = data[..32].try_into().unwrap();
    let (code, pos) = BurroughsWheelerEncode::encode(&first);
    assert_eq!(&enc[..32], &code);
    assert_eq!(enc[32] as usize, pos);
    assert_eq!(&enc[66..], &data[64..]);
    assert_eq!(apply_bft_extension_decode(&enc), data);
}

fn config(action: EncodeOption, input: &str, output: &str, algorithm: Algorithm, extensions: Vec<Extension>) -> Config {
    Config {
        action,
        input_file: input.to_string(),
        output_file: output.to_string(),
        algorithm,
        extensions,
    }
}

fn step_parts(steps: &[Step]) -> Vec<(Action, &str, &str)> {
    steps
        .iter()
        .map(|s| (s.action, s.input_file.as_str(), s.output_file.as_str()))
        .collect()
}

#[test]
fn encoding_steps_chain_through_numbered_files() {
    let c = config(EncodeOption::Encode, "in.txt", "out.enc", Algorithm::LZV, vec![Extension::BWT, Extension::MTF]);
    let steps = command_steps(&c);
    assert_eq!(
        step_parts(&steps),
        vec![
            (Action::ApplyExtension(Extension::BWT), "in.txt", "out.enc.tmp-0"),
            (Action::ApplyExtension(Extension::MTF), "out.enc.tmp-0", "out.enc.tmp-1"),
            (Action::Encode(Algorithm::LZV), "out.enc.tmp-1", "out.enc"),
        ]
    );
}

#[test]
fn decoding_steps_remove_extensions_in_reverse() {
    let c = config(EncodeOption::Decode, "out.enc", "out.dec", Algorithm::Huffman, vec![Extension::BWT, Extension::MTF]);
    let steps = command_steps(&c);
    assert_eq!(
        step_parts(&steps),
        vec![
            (Action::Decode(Algorithm::Huffman), "out.enc", "out.dec.tmp-0"),
            (Action::RemoveExtension(Extension::MTF), "out.dec.tmp-0", "out.dec.tmp-0.dec.tmp-1"),
            (Action::RemoveExtension(Extension::BWT), "out.dec.tmp-0.dec.tmp-1", "out.dec"),
        ]
    );
}

#[test]
fn steps_without_extensions() {
    let e = config(EncodeOption::Encode, "a", "b", Algorithm::Huffman, vec![]);
    assert_eq!(step_parts(&command_steps(&e)), vec![(Action::Encode(Algorithm::Huffman), "a", "b")]);
    let d = config(EncodeOption::Decode, "b", "c", Algorithm::LZV, vec![]);
    assert_eq!(step_parts(&command_steps(&d)), vec![(Action::Decode(Algorithm::LZV), "b", "c")]);
}

#[test]
fn intermediate_files_numbered_in_decimal() {
    let mut c = config(EncodeOption::Encode, "x", "y", Algorithm::LZV, vec![Extension::MTF; 12]);
    let steps = apply_extensions(&mut c);
    assert_eq!(steps.len(), 12);
    assert_eq!(steps[9].output_file, "y.tmp-9");
    assert_eq!(steps[10].input_file, "y.tmp-9");
    assert_eq!(steps[10].output_file, "y.tmp-10");
    assert_eq!(steps[11].output_file, "y.tmp-11");
    assert_eq!(c.input_file, "y.tmp-11");
    assert_eq!(c.output_file, "y");

    let mut d = config(EncodeOption::Decode, "t", "u", Algorithm::LZV, vec![Extension::BWT; 12]);
    let steps = remove_extensions(&mut d);
    assert_eq!(steps[0].input_file, "t");
    assert_eq!(steps[9].output_file, "t.dec.tmp-10");
    assert_eq!(steps[11].input_file, "t.dec.tmp-11");
    assert_eq!(steps[11].output_file, "u");
    assert_eq!(d.input_file, "u");
}

#[test]
fn command_roundtrip_on_buffers() {
    let mut data: Vec<u8> = Vec::new();
    for i in 0..3000u32 {
        data.push(b"the quick brown fox "[(i % 20) as usize]);
        if i % 7 == 0 {
            data.push((i % 251) as u8);
        }
    }
    // encode: bwt, then mtf, then the algorithm; decode: the algorithm, then mtf, then bwt.
    let stage1 = apply_bft_extension_encode(&data);
    let stage2 = apply_mtf_extension_encode(&stage1);

    let h = huffman_encode(&stage2);
    let back2 = huffman_decode(h).unwrap();
    assert_eq!(back2, stage2);
    let l = lzv_encode(&stage2);
    assert_eq!(lzv_decode(l).unwrap(), stage2);

    let back1 = apply_mtf_extension_decode(&back2);
    assert_eq!(back1, stage1);
    assert_eq!(apply_bft_extension_decode(&back1), data);
}
