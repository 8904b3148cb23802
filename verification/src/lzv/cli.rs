//! Whole-buffer encoding and decoding, and the choice between them.
use vstd::prelude::*;
use crate::bit_stream::{BitStreamReader, bits_of, lemma_aligned_packing, lemma_packing_unique};
use crate::bit_stream::zero_ext;
use crate::lzv::algorithms::{
    LzvDecoder,
    LzvEncoder,
    codes_bytes,
    enc_run,
    header_bytes,
    last_code_bytes,
    lemma_codes_bytes_append,
    lemma_enc_run_append,
    lemma_enc_run_len,
    lzv_decodable,
    lzv_decode_run,
    lzv_decoded,
    lzv_encoded,
    lzw_codes,
};
use crate::lzv::error::LzvError;
use crate::text::str_eq;

verus! {

/// Extension given to encoded files.
pub const DEFAULT_ENCODED_FILE_EXTENSION: &'static str = "lzv_enc";

/// Extension given to decoded files.
pub const DEFAULT_DECODED_FILE_EXTENSION: &'static str = "lzv_dec";

/// Encodes `input`, read in windows of 2048 bytes.
pub fn encode_file(input: &[u8]) -> (out: Vec<u8>)
    requires
        8 * input@.len() + 64 <= usize::MAX,
    ensures
        out@ == lzv_encoded(input@),
{
    let buffer_size: usize = 2048;
    let ghost c = input@;
    let mut reader = BitStreamReader::open(vstd::slice::slice_to_vec(input));
    let mut encoder = LzvEncoder::new();
    let ghost mut q: int = 0;
    let mut buffer = reader.read_bit_sequence(8 * buffer_size);
    proof {
        let m = if 2048 < c.len() { 2048 } else { c.len() as int };
        lemma_aligned_packing(c, 0, m);
        assert(bits_of(c, 8 * m) =~= bits_of(c, 0 + 8 * m));
        lemma_packing_unique(buffer@, c.subrange(0, m), bits_of(c, 8 * m).skip(0));
        q = m;
        assert(c.take(0) =~= Seq::<u8>::empty());
        assert(zero_ext(Seq::<u8>::empty(), 6) + codes_bytes(Seq::<u32>::empty()) =~= zero_ext(
            Seq::<u8>::empty(),
            6,
        ));
    }
    while buffer.len() > 0
        invariant
            0 <= q <= c.len(),
            buffer_size == 2048,
            8 * c.len() + 64 <= usize::MAX,
            buffer@.len() <= q,
            buffer@ == c.subrange(q - buffer@.len(), q),
            reader.contents() == c,
            reader.spec_read_pos() == 8 * q,
            buffer@.len() == 0 ==> q == c.len(),
            encoder.well_formed(),
            encoder.state() == enc_run(None, c.take(q - buffer@.len()), 65536, false).0,
            zero_ext(encoder.out().contents(), encoder.out().spec_bytes_written()) == zero_ext(
                Seq::<u8>::empty(),
                6,
            ) + codes_bytes(enc_run(None, c.take(q - buffer@.len()), 65536, false).1),
            encoder.out().spec_bytes_written() == 6 + 2 * enc_run(
                None,
                c.take(q - buffer@.len()),
                65536,
                false,
            ).1.len(),
        decreases c.len() - q + buffer@.len(),
    {
        let ghost q0 = q - buffer@.len();
        let ghost st0 = enc_run(None, c.take(q0), 65536, false);
        proof {
            lemma_enc_run_len(None, c.take(q0), 65536, false);
        }
        let _ = encoder.process(&buffer);
        proof {
            lemma_enc_run_append(None, c.take(q0), buffer@, 65536, false);
            assert(c.take(q0) + buffer@ =~= c.take(q));
            lemma_codes_bytes_append(st0.1, enc_run(st0.0, buffer@, 65536, false).1);
            assert(zero_ext(Seq::<u8>::empty(), 6) + codes_bytes(st0.1) + codes_bytes(
                enc_run(st0.0, buffer@, 65536, false).1,
            ) =~= zero_ext(Seq::<u8>::empty(), 6) + (codes_bytes(st0.1) + codes_bytes(
                enc_run(st0.0, buffer@, 65536, false).1,
            )));
        }
        buffer = reader.read_bit_sequence(8 * buffer_size);
        proof {
            let m = if 2048 < c.len() - q { 2048 } else { c.len() - q };
            assert((8 * q + 8 * m - 1) / 8 == q + m - 1 || m == 0);
            lemma_aligned_packing(c, q, q + m);
            lemma_packing_unique(buffer@, c.subrange(q, q + m), bits_of(c, 8 * (q + m)).skip(8 * q));
            q = q + m;
        }
    }
    proof {
        lemma_enc_run_len(None, c, 65536, false);
        assert(c.take(q) =~= c);
    }
    let _ = encoder.finish();
    proof {
        let codes = enc_run(None, c, 65536, false).1;
        assert(zero_ext(Seq::<u8>::empty(), 6) + codes_bytes(codes) =~= zero_ext(Seq::<u8>::empty(), 6)
            + codes_bytes(codes));
        assert((zero_ext(Seq::<u8>::empty(), 6) + codes_bytes(codes)).skip(6) =~= codes_bytes(codes));
        match enc_run(None, c, 65536, false).0 {
            Some((i, _)) => {
                assert(codes.push(i).drop_last() =~= codes);
            },
            None => {},
        }
        assert(header_bytes(0, 16, false) + codes_bytes(codes) + last_code_bytes(enc_run(None, c, 65536, false).0)
            =~= lzv_encoded(c));
    }
    encoder.into_bytes()
}

/// Decodes `input`.
pub fn decode_file(input: Vec<u8>) -> (r: Result<Vec<u8>, LzvError>)
    requires
        lzv_decodable(input@),
    ensures
        match lzv_decoded(input@) {
            Ok(o) => r matches Ok(v) && v@ == o,
            Err(e) => r == Err::<Vec<u8>, LzvError>(e),
        },
{
    let ghost c = input@;
    let mut decoder = match LzvDecoder::new(input) {
        Ok(d) => d,
        Err(e) => {
            return Err(e);
        },
    };
    match decoder.process_all() {
        Ok(()) => Ok(decoder.into_bytes()),
        Err(e) => Err(e),
    }
}

/// What the program is asked to do.
#[derive(Debug, Clone, Copy, PartialEq, Eq, Structural)]
pub enum Options {
    Encode,
    Decode,
}

impl Options {
    /// The name of the option.
    pub fn name(&self) -> (s: &'static str)
        ensures
            s@ == match self {
                Options::Encode => "encode"@,
                Options::Decode => "decode"@,
            },
    {
        match self {
            Options::Encode => "encode",
            Options::Decode => "decode",
        }
    }

    /// The option named `s`.
    pub fn parse(s: &str) -> (r: Result<Options, LzvError>)
        ensures
            s@ == "encode"@ ==> r == Ok::<Options, LzvError>(Options::Encode),
            s@ == "decode"@ ==> r == Ok::<Options, LzvError>(Options::Decode),
            s@ != "encode"@ && s@ != "decode"@ ==> r == Err::<Options, LzvError>(LzvError::InvalidInput),
    {
        proof {
            reveal_strlit("encode");
            reveal_strlit("decode");
            assert("encode"@[0] != "decode"@[0]);
        }
        if str_eq(s, "encode") {
            Ok(Options::Encode)
        } else if str_eq(s, "decode") {
            Ok(Options::Decode)
        } else {
            Err(LzvError::InvalidInput)
        }
    }
}

} // verus!
