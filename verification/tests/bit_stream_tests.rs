use compress_lab::bit_stream::{BitReader, BitStreamReader, BitStreamWriter};

#[test]
fn test_all() {
    // example from task
    let a1 = [0xE1, 0x01];
    let a2 = [0xEE, 0x00];

    let mut writer = BitStreamWriter::new();
    writer.write_bit_sequence(&a1, 9);
    writer.write_bit_sequence(&a2, 9);

    let mut reader = BitStreamReader::open(writer.finish());
    assert_eq!(reader.read_bit_sequence(11), [0xE1, 0x05],);
    assert_eq!(reader.read_bit_sequence(7), [0x3B],);

    // empty write
    let a1 = [0xE1, 0x01];
    let a2 = [0xEE, 0x00];

    let mut writer = BitStreamWriter::new();
    writer.write_bit_sequence(&a1, 0);
    writer.write_bit_sequence(&a2, 0);

    let mut reader = BitStreamReader::open(writer.finish());
    assert_eq!(reader.read_bit_sequence(64), Vec::<u8>::new());

    // Read bytes
    let a1 = [0xE1, 0x01];
    let a2 = [0xEE, 0x77];

    let mut writer = BitStreamWriter::new();
    writer.write_bit_sequence(&a1, 8);
    writer.write_bit_sequence(&a2, 16);

    let mut reader = BitStreamReader::open(writer.finish());
    assert_eq!(reader.read_bit_sequence(16), [0xE1, 0xEE],);
    assert_eq!(reader.read_bit_sequence(8), [0x77],);
}

#[test]
fn writer_positions_and_excess() {
    let mut writer = BitStreamWriter::new();
    writer.write_bit_sequence(&[0xff], 3);
    assert_eq!(writer.bytes_written(), 0);
    assert_eq!(writer.bit_count(), 3);
    assert_eq!(writer.excess(), 3);
    writer.write_bit_sequence(&[0x00, 0xff], 13);
    assert_eq!(writer.bytes_written(), 2);
    assert_eq!(writer.excess(), 0);
    assert_eq!(writer.finish(), vec![0x07, 0xf8]);
}

#[test]
fn writer_takes_no_more_bits_than_given() {
    let mut writer = BitStreamWriter::new();
    writer.write_bit_sequence(&[0xab], 100);
    assert_eq!(writer.bytes_written(), 1);
    assert_eq!(writer.finish(), vec![0xab]);
}

#[test]
fn writer_skip_and_overwrite() {
    let mut writer = BitStreamWriter::new();
    writer.skip_bytes(2);
    writer.write_bit_sequence(&[0x5a], 8);
    writer.write_byte_sequence_unchecked_at(&[1, 2], 0);
    assert_eq!(writer.finish(), vec![1, 2, 0x5a]);
}

#[test]
fn reader_stops_at_the_end() {
    let mut reader = BitStreamReader::open(vec![0xff, 0x01]);
    assert_eq!(reader.bit_len(), 16);
    assert_eq!(reader.byte_len(), 2);
    assert_eq!(reader.read_bit_sequence(4), vec![0x0f]);
    assert_eq!(reader.read_bit_sequence(20), vec![0x1f, 0x00]);
    assert_eq!(reader.read_bit_sequence(8), Vec::<u8>::new());
}

#[test]
fn bit_reader_yields_bits_lowest_first() {
    let data = [0b0000_0101u8, 0x80];
    let mut bits = BitReader::new(&data);
    let mut got = Vec::new();
    while let Some(b) = bits.next() {
        got.push(b);
    }
    assert_eq!(got.len(), 16);
    assert_eq!(&got[..3], &[true, false, true]);
    assert!(got[15]);
    assert!(!got[14]);
    assert_eq!(bits.next(), None);
}

#[test]
fn written_bits_read_back() {
    let mut writer = BitStreamWriter::new();
    let parts: [(u8, usize); 5] = [(0b101, 3), (0xff, 8), (0, 1), (0x3c, 6), (0x01, 1)];
    for (v, n) in parts.iter() {
        writer.write_bit_sequence(&[*v], *n);
    }
    let mut reader = BitStreamReader::open(writer.finish());
    for (v, n) in parts.iter() {
        let mask = if *n == 8 { 0xff } else { (1u8 << n) - 1 };
        assert_eq!(reader.read_bit_sequence(*n), vec![v & mask]);
    }
}

#[test]
fn bit_reader_whole_run() {
    let bytes = [0x05u8, 0x80];
    let mut reader = BitReader::new(&bytes);
    let mut got = Vec::new();
    for _ in 0..20 {
        got.push(reader.next());
    }
    let mut expected: Vec<Option<bool>> = (0..16).map(|k| Some((bytes[k / 8] >> (k % 8)) & 1 == 1)).collect();
    expected.extend([None, None, None, None]);
    assert_eq!(got, expected);
    assert_eq!(&got[..8], &[Some(true), Some(false), Some(true), Some(false), Some(false), Some(false), Some(false), Some(false)]);
}
