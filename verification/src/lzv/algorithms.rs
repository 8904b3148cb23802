//! LZW compression with fixed-width indices.
//!
//! The encoded output is a 6-byte header followed by the indices, each
//! written with the low `word_length` bits of its value, lowest bit first.
use vstd::prelude::*;
use crate::bit_stream::{
    lemma_packed,
    packed,
    lemma_aligned_packing,
    BitStreamReader,
    BitStreamWriter,
    bits_of,
    bit_at,
    is_packing,
    lemma_packing_unique,
    overwrites,
    taken_bits,
    zero_ext,
};
use vstd::arithmetic::power2::pow2;
use crate::lzv::dictionary::{
    Dictionary,
    DictionaryOptions,
    dict_add,
    record_chain,
    find_record,
    record_of,
    record_loops,
};
use crate::lzv::error::LzvError;

verus! {

/// The four bytes of `x`, least significant first.
pub open spec fn le4(x: u32) -> Seq<u8> {
    seq![(x % 256) as u8, (x / 256 % 256) as u8, (x / 65536 % 256) as u8, (x / 16777216) as u8]
}

/// The number whose little-endian bytes are `b0 b1 b2 b3`.
pub open spec fn from_le4(b0: u8, b1: u8, b2: u8, b3: u8) -> u32 {
    (b0 + 256 * b1 + 65536 * b2 + 16777216 * b3) as u32
}

pub(crate) fn u32_to_le(x: u32) -> (b: [u8; 4])
    ensures
        b@ == le4(x),
{
    let b0 = (x & 0xff) as u8;
    let b1 = ((x >> 8) & 0xff) as u8;
    let b2 = ((x >> 16) & 0xff) as u8;
    let b3 = ((x >> 24) & 0xff) as u8;
    assert(b0 == x % 256 && b1 == x / 256 % 256 && b2 == x / 65536 % 256 && b3 == x / 16777216) by (bit_vector)
        requires
            b0 == (x & 0xff) as u8,
            b1 == ((x >> 8) & 0xff) as u8,
            b2 == ((x >> 16) & 0xff) as u8,
            b3 == ((x >> 24) & 0xff) as u8,
    ;
    let b = [b0, b1, b2, b3];
    assert(b@ =~= le4(x));
    b
}

pub(crate) fn u32_from_le(b0: u8, b1: u8, b2: u8, b3: u8) -> (x: u32)
    ensures
        x == from_le4(b0, b1, b2, b3),
{
    let x = (b0 as u32) | ((b1 as u32) << 8) | ((b2 as u32) << 16) | ((b3 as u32) << 24);
    assert(x == b0 + 256 * b1 + 65536 * b2 + 16777216 * b3) by (bit_vector)
        requires
            x == (b0 as u32) | ((b1 as u32) << 8) | ((b2 as u32) << 16) | ((b3 as u32) << 24),
    ;
    x
}

/// The header stored in front of the indices.
pub struct LzvHeader {
    pub excess: u8,
    pub word_length: u32,
    pub clear_on_overflow: bool,
}

/// The six bytes of a header: `excess`, `word_length` (little endian) and
/// `clear_on_overflow` as 0 or 1.
pub open spec fn header_bytes(excess: u8, word_length: u32, clear_on_overflow: bool) -> Seq<u8> {
    seq![excess] + le4(word_length) + seq![if clear_on_overflow { 1u8 } else { 0u8 }]
}

impl LzvHeader {
    /// Size of a header in bytes.
    pub fn byte_length() -> (n: usize)
        ensures
            n == 6,
    {
        6
    }

    /// The bytes of the header.
    pub fn to_bytes(&self) -> (bytes: Vec<u8>)
        ensures
            bytes@ == header_bytes(self.excess, self.word_length, self.clear_on_overflow),
    {
        let mut bytes = vec![self.excess];
        let le = u32_to_le(self.word_length);
        bytes.push(le[0]);
        bytes.push(le[1]);
        bytes.push(le[2]);
        bytes.push(le[3]);
        bytes.push(if self.clear_on_overflow { 1u8 } else { 0u8 });
        assert(bytes@ =~= header_bytes(self.excess, self.word_length, self.clear_on_overflow));
        bytes
    }

    /// Reads a header; the input must be exactly six bytes long.
    pub fn from_bytes(bytes: &[u8]) -> (r: Result<LzvHeader, LzvError>)
        ensures
            bytes@.len() != 6 ==> r matches Err(LzvError::InvalidInput),
            bytes@.len() == 6 ==> (r matches Ok(h) && h.excess == bytes@[0] && h.word_length
                == from_le4(bytes@[1], bytes@[2], bytes@[3], bytes@[4]) && h.clear_on_overflow == (
            bytes@[5] != 0)),
    {
        if bytes.len() != 6 {
            return Err(LzvError::InvalidInput);
        }
        let excess = bytes[0];
        let word_length = u32_from_le(bytes[1], bytes[2], bytes[3], bytes[4]);
        let clear_on_overflow = bytes[5] != 0;
        Ok(LzvHeader { excess, word_length, clear_on_overflow })
    }
}

/// Reading back the bytes of a header gives the same header.
pub proof fn lemma_header_roundtrip(excess: u8, word_length: u32, clear_on_overflow: bool)
    ensures
        ({
            let b = header_bytes(excess, word_length, clear_on_overflow);
            &&& b.len() == 6
            &&& b[0] == excess
            &&& from_le4(b[1], b[2], b[3], b[4]) == word_length
            &&& (b[5] != 0) == clear_on_overflow
        }),
{
    let b = header_bytes(excess, word_length, clear_on_overflow);
    let x = word_length;
    assert(b[1] == (x % 256) as u8);
    assert(((x % 256) as u8) + 256 * ((x / 256 % 256) as u8) + 65536 * ((x / 65536 % 256) as u8)
        + 16777216 * ((x / 16777216) as u8) == x) by (nonlinear_arith);
}

/// Reading back the four little-endian bytes of `x` gives `x`.
pub proof fn lemma_le4_roundtrip(x: u32)
    ensures
        le4(x).len() == 4,
        from_le4(le4(x)[0], le4(x)[1], le4(x)[2], le4(x)[3]) == x,
{
    assert(((x % 256) as u8) + 256 * ((x / 256 % 256) as u8) + 65536 * ((x / 65536 % 256) as u8)
        + 16777216 * ((x / 16777216) as u8) == x) by (nonlinear_arith);
}

/// Encoder state: the index of the phrase being extended and the records.
pub type EncState = Option<(u32, Seq<(u8, u32)>)>;

/// One input byte through the encoder: the new state and the indices emitted.
pub open spec fn enc_char(st: EncState, c: u8, limit: nat, clear: bool) -> (EncState, Seq<u32>) {
    match st {
        None => (Some((c as u32, Seq::empty())), seq![]),
        Some((i, e)) => match find_record(e, i, c) {
            Some(j) => (Some((j, e)), seq![]),
            None => (Some((c as u32, dict_add(e, limit, clear, c, i))), seq![i]),
        },
    }
}

/// The input through the encoder: the final state and the indices emitted.
pub open spec fn enc_run(st: EncState, input: Seq<u8>, limit: nat, clear: bool) -> (EncState, Seq<u32>)
    decreases input.len(),
{
    if input.len() == 0 {
        (st, seq![])
    } else {
        let (s1, o1) = enc_char(st, input[0], limit, clear);
        let (s2, o2) = enc_run(s1, input.drop_first(), limit, clear);
        (s2, o1 + o2)
    }
}

/// The indices the encoder writes for `input`, the last phrase included.
pub open spec fn lzw_codes(input: Seq<u8>) -> Seq<u32> {
    let (st, codes) = enc_run(None, input, 65536, false);
    match st {
        Some((i, _)) => codes.push(i),
        None => codes,
    }
}

/// The bits of indices written `w` bits each.
pub open spec fn codes_bits(codes: Seq<u32>, w: int) -> Seq<bool>
    decreases codes.len(),
{
    if codes.len() == 0 {
        seq![]
    } else {
        codes_bits(codes.drop_last(), w) + bits_of(le4(codes.last()), taken_bits(4, w as usize))
    }
}

/// The bytes of 16-bit indices, least significant byte first.
pub open spec fn codes_bytes(codes: Seq<u32>) -> Seq<u8>
    decreases codes.len(),
{
    if codes.len() == 0 {
        seq![]
    } else {
        codes_bytes(codes.drop_last()) + le4(codes.last()).take(2)
    }
}

/// The encoded form of `input`.
pub open spec fn lzv_encoded(input: Seq<u8>) -> Seq<u8> {
    header_bytes(0, 16, false) + codes_bytes(lzw_codes(input))
}

/// The bytes of the index still held by the encoder, if any.
pub open spec fn last_code_bytes(st: EncState) -> Seq<u8> {
    match st {
        Some((i, _)) => le4(i).take(2),
        None => Seq::empty(),
    }
}

/// Running the encoder over `a + b` runs it over `a`, then over `b`.
pub proof fn lemma_enc_run_append(st: EncState, a: Seq<u8>, b: Seq<u8>, limit: nat, clear: bool)
    ensures
        enc_run(st, a + b, limit, clear).0 == enc_run(enc_run(st, a, limit, clear).0, b, limit, clear).0,
        enc_run(st, a + b, limit, clear).1 == enc_run(st, a, limit, clear).1 + enc_run(
            enc_run(st, a, limit, clear).0,
            b,
            limit,
            clear,
        ).1,
    decreases a.len(),
{
    if a.len() == 0 {
        assert(a + b =~= b);
        assert(Seq::<u32>::empty() + enc_run(st, b, limit, clear).1 =~= enc_run(st, b, limit, clear).1);
    } else {
        let (s1, o1) = enc_char(st, a[0], limit, clear);
        assert((a + b)[0] == a[0]);
        assert((a + b).drop_first() =~= a.drop_first() + b);
        lemma_enc_run_append(s1, a.drop_first(), b, limit, clear);
        let o2 = enc_run(s1, a.drop_first(), limit, clear).1;
        let o3 = enc_run(enc_run(s1, a.drop_first(), limit, clear).0, b, limit, clear).1;
        assert(o1 + (o2 + o3) =~= (o1 + o2) + o3);
    }
}

/// The encoder emits at most one index per input byte.
pub proof fn lemma_enc_run_len(st: EncState, a: Seq<u8>, limit: nat, clear: bool)
    ensures
        enc_run(st, a, limit, clear).1.len() <= a.len(),
    decreases a.len(),
{
    if a.len() > 0 {
        let (s1, o1) = enc_char(st, a[0], limit, clear);
        lemma_enc_run_len(s1, a.drop_first(), limit, clear);
    }
}

/// The bytes of `a + b` are those of `a`, then those of `b`.
pub proof fn lemma_codes_bytes_append(a: Seq<u32>, b: Seq<u32>)
    ensures
        codes_bytes(a + b) == codes_bytes(a) + codes_bytes(b),
    decreases b.len(),
{
    if b.len() == 0 {
        assert(a + b =~= a);
        assert(codes_bytes(a) + Seq::<u8>::empty() =~= codes_bytes(a));
    } else {
        assert((a + b).drop_last() =~= a + b.drop_last());
        assert((a + b).last() == b.last());
        lemma_codes_bytes_append(a, b.drop_last());
        assert(codes_bytes(a) + codes_bytes(b.drop_last()) + le4(b.last()).take(2) =~= codes_bytes(a)
            + (codes_bytes(b.drop_last()) + le4(b.last()).take(2)));
    }
}

/// Encoder state between two input bytes.
pub struct EncodeStepData {
    pub(crate) big_i: u32,
    pub(crate) dict: Dictionary,
}

impl EncodeStepData {
    /// Index of the phrase being extended.
    pub closed spec fn spec_big_i(self) -> u32 {
        self.big_i
    }

    /// The dictionary.
    pub closed spec fn spec_dict(self) -> Dictionary {
        self.dict
    }
}

impl Default for EncodeStepData {
    fn default() -> (d: Self)
        ensures
            d.spec_big_i() == 0,
            d.spec_dict().entries() == Seq::<(u8, u32)>::empty(),
            d.spec_dict().spec_options().spec_word_length() == 16,
            !d.spec_dict().spec_options().spec_clear_on_overflow(),
            d.spec_dict().spec_options().spec_index_limit() == 65536,
    {
        EncodeStepData { big_i: 0, dict: Dictionary::default() }
    }
}

/// LZW encoder writing into a byte buffer.
pub struct LzvEncoder {
    pub(crate) step_data: Option<EncodeStepData>,
    pub(crate) output: BitStreamWriter,
}

impl LzvEncoder {
    /// The encoder state.
    pub closed spec fn state(self) -> EncState {
        match self.step_data {
            Some(sd) => Some((sd.big_i, sd.dict.entries())),
            None => None,
        }
    }

    /// The output written so far.
    pub closed spec fn out(self) -> BitStreamWriter {
        self.output
    }

    /// The dictionary has the default options, the header room is kept and
    /// the output is at a byte boundary.
    pub closed spec fn well_formed(self) -> bool {
        &&& (self.step_data matches Some(sd) ==> {
            &&& sd.dict.spec_options().spec_word_length() == 16
            &&& !sd.dict.spec_options().spec_clear_on_overflow()
            &&& sd.dict.spec_options().spec_index_limit() == 65536
        })
        &&& self.output.spec_bytes_written() >= 6
        &&& self.output.spec_bit_count() == 0
        &&& (self.output.contents().len() == self.output.spec_bytes_written() || (
        self.output.contents().len() == 0 && self.output.spec_bytes_written() == 6))
        &&& (self.step_data is None ==> self.output.contents().len() == 0
            && self.output.spec_bytes_written() == 6)
    }

    /// A fresh encoder; the first six bytes are left for the header.
    pub fn new() -> (e: Self)
        ensures
            e.well_formed(),
            e.state() is None,
            e.out().contents() == Seq::<u8>::empty(),
            e.out().spec_bytes_written() == 6,
    {
        let mut output = BitStreamWriter::new();
        output.skip_bytes(LzvHeader::byte_length());
        LzvEncoder { step_data: None, output }
    }

    fn write_code(output: &mut BitStreamWriter, code: u32)
        requires
            old(output).spec_bit_count() == 0,
            old(output).spec_bytes_written() + 4 <= usize::MAX,
            old(output).contents().len() <= old(output).spec_bytes_written(),
        ensures
            final(output).spec_bit_count() == 0,
            final(output).spec_bytes_written() == old(output).spec_bytes_written() + 2,
            final(output).contents().len() == final(output).spec_bytes_written(),
            final(output).contents() == zero_ext(old(output).contents(), old(output).spec_bytes_written())
                + le4(code).take(2),
    {
        let le = u32_to_le(code);
        let ghost before = *output;
        output.write_bit_sequence(&le, 16);
        proof {
            assert(taken_bits(4, 16) == 16);
            before.lemma_no_pending_bits();
            let bits = before.pending_bits() + bits_of(le@, 16);
            assert(bits =~= bits_of(le@, 16));
            let buf = choose|buf: Seq<u8>|
                is_packing(buf, bits) && overwrites(
                    before.contents(),
                    output.contents(),
                    before.spec_bytes_written(),
                    buf,
                );
            let two = le@.take(2);
            assert(is_packing(two, bits)) by {
                assert forall|i: int| 0 <= i < 16 implies #[trigger] bit_at(two, i) == bits[i] by {
                    assert(two[i / 8] == le@[i / 8]);
                }
            }
            lemma_packing_unique(buf, two, bits);
            assert(output.contents() =~= zero_ext(before.contents(), before.spec_bytes_written())
                + le4(code).take(2));
        }
    }

    /// Feeds `input` to the encoder; an index is written each time a phrase ends.
    pub fn process(&mut self, input: &[u8]) -> (r: Result<(), LzvError>)
        requires
            old(self).well_formed(),
            old(self).out().spec_bytes_written() + 2 * input@.len() + 8 <= usize::MAX,
        ensures
            r is Ok,
            final(self).well_formed(),
            final(self).state() == enc_run(old(self).state(), input@, 65536, false).0,
            zero_ext(final(self).out().contents(), final(self).out().spec_bytes_written()) == zero_ext(
                old(self).out().contents(),
                old(self).out().spec_bytes_written(),
            ) + codes_bytes(enc_run(old(self).state(), input@, 65536, false).1),
            final(self).out().spec_bytes_written() == old(self).out().spec_bytes_written() + 2
                * enc_run(old(self).state(), input@, 65536, false).1.len(),
    {
        let ghost st0 = self.state();
        let ghost bw0 = self.output.spec_bytes_written();
        let ghost f0 = zero_ext(self.output.contents(), bw0);
        let mut i: usize = 0;
        let ghost mut emitted: Seq<u32> = seq![];
        assert(input@.skip(0) =~= input@);
        assert(f0 + codes_bytes(emitted) =~= f0);
        while i < input.len()
            invariant
                i <= input@.len(),
                self.well_formed(),
                enc_run(st0, input@, 65536, false) == ({
                    let (s, o) = enc_run(self.state(), input@.skip(i as int), 65536, false);
                    (s, emitted + o)
                }),
                emitted.len() <= i,
                self.output.spec_bytes_written() == bw0 + 2 * emitted.len(),
                bw0 + 2 * input@.len() + 8 <= usize::MAX,
                zero_ext(self.output.contents(), self.output.spec_bytes_written()) == f0 + codes_bytes(
                    emitted,
                ),
            decreases input@.len() - i,
        {
            let c = input[i];
            let ghost rest = input@.skip(i as int);
            let ghost st = self.state();
            assert(rest[0] == c);
            assert(rest.drop_first() =~= input@.skip(i + 1));
            let ghost step = enc_char(st, c, 65536, false);
            if let Some(step_data) = &mut self.step_data {
                let seq_i = step_data.dict.index_of_record(step_data.big_i, c);
                if let Some(seq_i) = seq_i {
                    step_data.big_i = seq_i;
                } else {
                    let code = step_data.big_i;
                    let ghost zbefore = zero_ext(self.output.contents(), self.output.spec_bytes_written());
                    Self::write_code(&mut self.output, code);
                    step_data.dict.add(c, code);
                    step_data.big_i = step_data.dict.index_of_symbol(c);
                    proof {
                        let old_emitted = emitted;
                        emitted = emitted.push(code);
                        assert(emitted.drop_last() =~= old_emitted);
                        assert(zero_ext(self.output.contents(), self.output.spec_bytes_written())
                            =~= self.output.contents());
                        assert(codes_bytes(emitted) == codes_bytes(old_emitted) + le4(code).take(2));
                        assert(f0 + codes_bytes(emitted) =~= (f0 + codes_bytes(old_emitted)) + le4(code).take(2));
                    }
                }
            } else {
                let mut step_data = EncodeStepData::default();
                step_data.big_i = step_data.dict.index_of_symbol(c);
                self.step_data = Some(step_data);
            }
            proof {
                assert(self.state() == step.0);
                let (s2, o2) = enc_run(step.0, input@.skip(i + 1), 65536, false);
                assert(enc_run(st, rest, 65536, false) == (s2, step.1 + o2));
                if step.1.len() > 0 {
                    assert(emitted + o2 =~= (emitted.drop_last() + step.1) + o2) by {
                        assert(step.1 =~= seq![emitted.last()]);
                    }
                } else {
                    assert(step.1 =~= Seq::<u32>::empty());
                    assert(step.1 + o2 =~= o2);
                }
            }
            i = i + 1;
        }
        assert(input@.skip(i as int) =~= Seq::<u8>::empty());
        assert(emitted + Seq::<u32>::empty() =~= emitted);
        Ok(())
    }

    /// Writes the index of the last phrase, then the header at the start of
    /// the output; returns the number of bits in the partial last byte.
    pub fn finish(&mut self) -> (r: Result<u8, LzvError>)
        requires
            old(self).well_formed(),
            old(self).out().spec_bytes_written() + 8 <= usize::MAX,
        ensures
            r matches Ok(x) && x == 0,
            final(self).out().contents() == header_bytes(0, 16, false) + zero_ext(
                old(self).out().contents(),
                old(self).out().spec_bytes_written(),
            ).skip(6) + last_code_bytes(old(self).state()),
    {
        let ghost z0 = zero_ext(self.output.contents(), self.output.spec_bytes_written());
        if let Some(step_data) = &self.step_data {
            Self::write_code(&mut self.output, step_data.big_i);
        } else {
            assert(z0 =~= zero_ext(self.output.contents(), 6));
        }
        let ghost mid = self.output.contents();
        proof {
            if self.step_data is Some {
                assert(mid == z0 + last_code_bytes(self.state()));
            } else {
                assert(mid == Seq::<u8>::empty());
            }
        }
        let excess = self.output.excess();
        let header = LzvHeader { excess, word_length: 16, clear_on_overflow: false };
        let hb = header.to_bytes();
        self.output.write_byte_sequence_unchecked_at(&hb, 0);
        proof {
            let fin = self.output.contents();
            let want = header_bytes(0, 16, false) + z0.skip(6) + last_code_bytes(self.state());
            assert(z0.len() >= 6);
            assert(fin.len() == want.len());
            assert forall|k: int| 0 <= k < fin.len() implies fin[k] == want[k] by {
                if k >= 6 {
                    assert(fin[k] == mid[k]);
                }
            }
            assert(fin =~= want);
        }
        Ok(excess)
    }

    /// The output, once `finish` has been called.
    pub fn into_bytes(self) -> (bytes: Vec<u8>)
        ensures
            bytes@ == self.out().contents(),
    {
        self.output.finish()
    }
}


/// Decoder state: the previous index and the first byte of its phrase.
pub type DecState = Option<(u32, u8)>;

/// One index through the decoder: the new state, the new records and the
/// bytes written, or the error that stops decoding.
pub open spec fn dec_step(st: DecState, entries: Seq<(u8, u32)>, index: u32, limit: nat, clear: bool) -> Result<
    (DecState, Seq<(u8, u32)>, Seq<u8>),
    LzvError,
> {
    match st {
        None => if index > 255 {
            Err(LzvError::InvalidFirstIndex { index })
        } else {
            Ok((Some((index, index as u8)), entries, seq![index as u8]))
        },
        Some((old_i, s0)) => {
            let phrase = match record_of(entries, index) {
                Some(p) => Some(p),
                None => match record_of(entries, old_i) {
                    Some(t) => Some(t.push(s0)),
                    None => None,
                },
            };
            match phrase {
                Some(o) => Ok((Some((index, o[0])), dict_add(entries, limit, clear, o[0], old_i), o)),
                None => Err(LzvError::InvalidInput),
            }
        },
    }
}

/// `b` padded with zero bytes to four bytes.
pub open spec fn pad4(b: Seq<u8>) -> Seq<u8> {
    if b.len() < 4 {
        b + Seq::new((4 - b.len()) as nat, |k: int| 0u8)
    } else {
        b
    }
}

/// Number of bits a read of `w` bits at bit `p` of `c` takes.
pub open spec fn read_len(c: Seq<u8>, p: int, w: int) -> int {
    let left = 8 * c.len() - p;
    if w < left {
        w
    } else {
        left
    }
}

/// The index read from `n` bits at bit `p` of `c`, if they fit in four bytes.
pub open spec fn read_index(c: Seq<u8>, p: int, n: int) -> Option<u32> {
    let b = pad4(packed(bits_of(c, p + n).skip(p)));
    if b.len() == 4 {
        Some(from_le4(b[0], b[1], b[2], b[3]))
    } else {
        None
    }
}

/// Decoding the indices of `w` bits from bit `p` of `c` on: the bytes
/// written and how decoding ends.
pub open spec fn dec_all(
    st: DecState,
    entries: Seq<(u8, u32)>,
    c: Seq<u8>,
    p: int,
    w: int,
    limit: nat,
    clear: bool,
) -> (Seq<u8>, Result<(), LzvError>)
    decreases 8 * c.len() - p,
{
    let n = read_len(c, p, w);
    if n <= 0 {
        (seq![], Ok(()))
    } else {
        match read_index(c, p, n) {
            None => (seq![], Err(LzvError::InvalidInput)),
            Some(index) => match dec_step(st, entries, index, limit, clear) {
                Err(e) => (seq![], Err(e)),
                Ok((st2, e2, o)) => {
                    let (o2, r) = dec_all(st2, e2, c, p + n, w, limit, clear);
                    (o + o2, r)
                },
            },
        }
    }
}

/// The lookups of one decoding step end: the chain of records of `index`
/// does not go round a cycle, nor, when `index` has no phrase, that of the
/// previous index.
pub open spec fn dec_step_halts(st: DecState, entries: Seq<(u8, u32)>, index: u32) -> bool {
    match st {
        None => true,
        Some((old_i, _)) => {
            &&& !record_loops(entries, index)
            &&& record_of(entries, index) is None ==> !record_loops(entries, old_i)
        },
    }
}

/// Every step of decoding the indices of `w` bits from bit `p` of `c` on
/// ends (see `dec_step_halts`).
pub open spec fn dec_all_halts(
    st: DecState,
    entries: Seq<(u8, u32)>,
    c: Seq<u8>,
    p: int,
    w: int,
    limit: nat,
    clear: bool,
) -> bool
    decreases 8 * c.len() - p,
{
    let n = read_len(c, p, w);
    if n <= 0 {
        true
    } else {
        match read_index(c, p, n) {
            None => true,
            Some(index) => {
                &&& dec_step_halts(st, entries, index)
                &&& match dec_step(st, entries, index, limit, clear) {
                    Err(_) => true,
                    Ok((st2, e2, o)) => dec_all_halts(st2, e2, c, p + n, w, limit, clear),
                }
            },
        }
    }
}

/// The word length stored in a header.
pub open spec fn header_word_length(c: Seq<u8>) -> u32 {
    from_le4(c[1], c[2], c[3], c[4])
}

/// The result of decoding the bytes `c`: the bytes written and how decoding ends.
pub open spec fn lzv_decode_run(c: Seq<u8>) -> (Seq<u8>, Result<(), LzvError>) {
    if c.len() < 6 {
        (seq![], Err(LzvError::InvalidInput))
    } else {
        let w = header_word_length(c);
        dec_all(None, Seq::empty(), c, 48, w as int, pow2(w as nat), c[5] != 0)
    }
}

/// The decoded form of `c`.
pub open spec fn lzv_decoded(c: Seq<u8>) -> Result<Seq<u8>, LzvError> {
    match lzv_decode_run(c).1 {
        Ok(_) => Ok(lzv_decode_run(c).0),
        Err(e) => Err(e),
    }
}

/// The inputs on which decoding `c` can run: the word length gives a
/// number of indices that fits in `usize`, the output fits in memory, and
/// no lookup goes round a cycle of records (on which decoding never ends).
pub open spec fn lzv_decodable(c: Seq<u8>) -> bool {
    &&& 8 * c.len() + 16 <= usize::MAX
    &&& c.len() >= 6 ==> {
        let w = header_word_length(c);
        &&& pow2(w as nat) <= usize::MAX
        &&& 8 * lzv_decode_run(c).0.len() + 16 <= usize::MAX
        &&& dec_all_halts(None, Seq::empty(), c, 48, w as int, pow2(w as nat), c[5] != 0)
    }
}

/// A phrase has at least one byte.
pub proof fn lemma_record_nonempty(entries: Seq<(u8, u32)>, index: u32, fuel: nat)
    ensures
        record_chain(entries, index, fuel) matches Some(s) ==> s.len() >= 1,
    decreases fuel,
{
    if index >= 256 && fuel > 0 && index - 256 < entries.len() {
        lemma_record_nonempty(entries, entries[index - 256].1, (fuel - 1) as nat);
    }
}

/// Decoder state between two indices.
pub struct DecodeStepData {
    old_i: u32,
    s: Vec<u8>,
}

impl DecodeStepData {
    /// The previous index.
    pub closed spec fn spec_old_i(self) -> u32 {
        self.old_i
    }

    /// The first byte of the previous phrase.
    pub closed spec fn spec_s(self) -> Seq<u8> {
        self.s@
    }
}

impl Default for DecodeStepData {
    fn default() -> (d: Self)
        ensures
            d.spec_old_i() == 0,
            d.spec_s() == Seq::<u8>::empty(),
    {
        DecodeStepData { old_i: 0, s: Vec::new() }
    }
}

/// LZW decoder reading indices from a byte buffer and writing the phrases
/// into another.
pub struct LzvDecoder {
    pub(crate) step_data: Option<DecodeStepData>,
    pub(crate) input: BitStreamReader,
    pub(crate) output: BitStreamWriter,
    pub(crate) dict: Dictionary,
}

impl LzvDecoder {
    /// The decoder state.
    pub closed spec fn state(self) -> DecState {
        match self.step_data {
            Some(sd) => Some((sd.old_i, sd.s@[0])),
            None => None,
        }
    }

    /// The records of the dictionary.
    pub closed spec fn entries(self) -> Seq<(u8, u32)> {
        self.dict.entries()
    }

    /// Width of an index in bits.
    pub closed spec fn word_length(self) -> u32 {
        self.dict.spec_options().spec_word_length()
    }

    /// Number of indices of the dictionary.
    pub closed spec fn index_limit(self) -> nat {
        self.dict.spec_options().spec_index_limit()
    }

    /// Whether the records are dropped when the dictionary is full.
    pub closed spec fn clear_on_overflow(self) -> bool {
        self.dict.spec_options().spec_clear_on_overflow()
    }

    /// The encoded input.
    pub closed spec fn input(self) -> Seq<u8> {
        self.input.contents()
    }

    /// Number of bits of the input read so far.
    pub closed spec fn position(self) -> int {
        self.input.spec_read_pos()
    }

    /// The bytes decoded so far.
    pub closed spec fn out(self) -> Seq<u8> {
        self.output.contents()
    }

    /// The previous phrase is known, and the output is whole bytes.
    pub closed spec fn well_formed(self) -> bool {
        &&& (self.step_data matches Some(sd) ==> sd.s@.len() >= 1)
        &&& self.output.spec_bit_count() == 0
        &&& self.output.contents().len() == self.output.spec_bytes_written()
        &&& 8 * self.input.contents().len() + 16 <= usize::MAX
        &&& 0 <= self.input.spec_read_pos() <= 8 * self.input.contents().len()
        &&& self.dict.spec_options().spec_word_length() < 64
    }

    fn write_bytes(output: &mut BitStreamWriter, bytes: &[u8])
        requires
            old(output).spec_bit_count() == 0,
            old(output).contents().len() == old(output).spec_bytes_written(),
            8 * (old(output).spec_bytes_written() + bytes@.len()) + 16 <= usize::MAX,
        ensures
            final(output).spec_bit_count() == 0,
            final(output).contents() == old(output).contents() + bytes@,
            final(output).spec_bytes_written() == final(output).contents().len(),
    {
        let ghost before = *output;
        output.write_bit_sequence(bytes, bytes.len() * 8);
        proof {
            let len = bytes@.len();
            before.lemma_no_pending_bits();
            assert(taken_bits(len, (8 * len) as usize) == 8 * len);
            let bits = before.pending_bits() + bits_of(bytes@, 8 * len as int);
            assert(bits =~= bits_of(bytes@, 8 * len as int));
            let buf = choose|buf: Seq<u8>|
                is_packing(buf, bits) && overwrites(
                    before.contents(),
                    output.contents(),
                    before.spec_bytes_written(),
                    buf,
                );
            lemma_aligned_packing(bytes@, 0, len as int);
            assert(bytes@.subrange(0, len as int) =~= bytes@);
            assert(bits_of(bytes@, 8 * len as int).skip(0) =~= bits_of(bytes@, 8 * len as int));
            lemma_packing_unique(buf, bytes@, bits);
            assert(output.contents() =~= before.contents() + bytes@);
        }
    }

    /// Pads a non-empty index read to four bytes.
    fn fit_ful_u32_if_need(input: &mut Vec<u8>) -> (r: Result<(), LzvError>)
        ensures
            old(input)@.len() == 0 ==> r == Err::<(), LzvError>(LzvError::InvalidInput) && final(input)@
                == old(input)@,
            old(input)@.len() > 0 ==> r is Ok && final(input)@ == pad4(old(input)@),
    {
        if input.len() == 0 {
            return Err(LzvError::InvalidInput);
        } else {
            let ghost orig = input@;
            while input.len() < 4
                invariant
                    orig.len() > 0,
                    input@.len() <= 4 || input@ == orig,
                    input@.len() >= orig.len(),
                    input@.subrange(0, orig.len() as int) == orig,
                    forall|k: int| orig.len() <= k < input@.len() ==> input@[k] == 0u8,
                decreases 4 - input@.len(),
            {
                input.push(0);
            }
            proof {
                if orig.len() < 4 {
                    assert(input@ =~= pad4(orig));
                } else {
                    assert(input@ =~= orig);
                }
            }
        }
        Ok(())
    }

    fn first_decoding_step(output: &mut BitStreamWriter, index: u32) -> (r: Result<DecodeStepData, LzvError>)
        requires
            old(output).spec_bit_count() == 0,
            old(output).contents().len() == old(output).spec_bytes_written(),
            index <= 255 ==> 8 * (old(output).spec_bytes_written() + 1) + 16 <= usize::MAX,
        ensures
            final(output).spec_bit_count() == 0,
            final(output).spec_bytes_written() == final(output).contents().len(),
            match dec_step(None, Seq::empty(), index, 0, false) {
                Ok((st, _, o)) => r matches Ok(sd) && sd.s@.len() >= 1 && st == Some((sd.old_i, sd.s@[0]))
                    && final(output).contents() == old(output).contents() + o,
                Err(e) => r == Err::<DecodeStepData, LzvError>(e) && *final(output) == *old(output),
            },
    {
        if index > u8::MAX as u32 {
            return Err(LzvError::InvalidFirstIndex { index });
        }
        let s = index as u8;
        let one = [s];
        Self::write_bytes(output, &one);
        assert(one@ =~= seq![s]);
        Ok(DecodeStepData { old_i: index, s: vec![s] })
    }

    fn decoding_step(
        output: &mut BitStreamWriter,
        index: u32,
        step_data: &mut DecodeStepData,
        dict: &mut Dictionary,
    ) -> (r: Result<(), LzvError>)
        requires
            old(output).spec_bit_count() == 0,
            old(output).contents().len() == old(output).spec_bytes_written(),
            old(step_data).s@.len() >= 1,
            dec_step_halts(Some((old(step_data).old_i, old(step_data).s@[0])), old(dict).entries(), index),
            match dec_step(
                Some((old(step_data).old_i, old(step_data).s@[0])),
                old(dict).entries(),
                index,
                old(dict).spec_options().spec_index_limit(),
                old(dict).spec_options().spec_clear_on_overflow(),
            ) {
                Ok((_, _, o)) => 8 * (old(output).spec_bytes_written() + o.len()) + 16 <= usize::MAX,
                Err(_) => true,
            },
        ensures
            final(output).spec_bit_count() == 0,
            final(output).spec_bytes_written() == final(output).contents().len(),
            final(step_data).s@.len() >= 1,
            final(dict).spec_options() == old(dict).spec_options(),
            match dec_step(
                Some((old(step_data).old_i, old(step_data).s@[0])),
                old(dict).entries(),
                index,
                old(dict).spec_options().spec_index_limit(),
                old(dict).spec_options().spec_clear_on_overflow(),
            ) {
                Ok((st, e2, o)) => r is Ok && st == Some((final(step_data).old_i, final(step_data).s@[0]))
                    && final(dict).entries() == e2 && final(output).contents() == old(output).contents() + o,
                Err(e) => r == Err::<(), LzvError>(e) && *final(output) == *old(output) && *final(step_data)
                    == *old(step_data) && *final(dict) == *old(dict),
            },
    {
        let s_phrase = dict.get_record(index);
        let out_string = if let Some(s_phrase) = s_phrase {
            proof {
                lemma_record_nonempty(dict.entries(), index, dict.entries().len());
            }
            s_phrase
        } else {
            let t = dict.get_record(step_data.old_i);
            match t {
                Some(tmp) => {
                    let mut tmp = tmp;
                    tmp.push(step_data.s[0]);
                    tmp
                },
                None => {
                    return Err(LzvError::InvalidInput);
                },
            }
        };
        Self::write_bytes(output, &out_string);
        let first = out_string[0];
        step_data.s = vec![first];
        dict.add(first, step_data.old_i);
        step_data.old_i = index;
        Ok(())
    }

    /// Decodes one index: the first must be a single byte; later ones are
    /// looked up, an unknown one standing for the previous phrase extended
    /// by its own first byte.
    pub fn process(&mut self, index: u32) -> (r: Result<(), LzvError>)
        requires
            old(self).well_formed(),
            dec_step_halts(old(self).state(), old(self).entries(), index),
            match dec_step(old(self).state(), old(self).entries(), index, old(self).index_limit(), old(self).clear_on_overflow()) {
                Ok((_, _, o)) => 8 * (old(self).out().len() + o.len()) + 16 <= usize::MAX,
                Err(_) => true,
            },
        ensures
            final(self).well_formed(),
            final(self).input() == old(self).input(),
            final(self).position() == old(self).position(),
            final(self).word_length() == old(self).word_length(),
            final(self).index_limit() == old(self).index_limit(),
            final(self).clear_on_overflow() == old(self).clear_on_overflow(),
            match dec_step(old(self).state(), old(self).entries(), index, old(self).index_limit(), old(self).clear_on_overflow()) {
                Ok((st, e2, o)) => r is Ok && final(self).state() == st && final(self).entries() == e2
                    && final(self).out() == old(self).out() + o,
                Err(e) => r == Err::<(), LzvError>(e) && final(self).state() == old(self).state()
                    && final(self).entries() == old(self).entries() && final(self).out() == old(self).out(),
            },
    {
        if let Some(step_data) = &mut self.step_data {
            Self::decoding_step(&mut self.output, index, step_data, &mut self.dict)
        } else {
            match Self::first_decoding_step(&mut self.output, index) {
                Ok(sd) => {
                    self.step_data = Some(sd);
                    Ok(())
                },
                Err(e) => Err(e),
            }
        }
    }

    /// Reads and decodes indices until the input is used up or an index
    /// cannot be decoded.
    pub fn process_all(&mut self) -> (r: Result<(), LzvError>)
        requires
            old(self).well_formed(),
            dec_all_halts(
                old(self).state(),
                old(self).entries(),
                old(self).input(),
                old(self).position(),
                old(self).word_length() as int,
                old(self).index_limit(),
                old(self).clear_on_overflow(),
            ),
            8 * (old(self).out().len() + dec_all(
                old(self).state(),
                old(self).entries(),
                old(self).input(),
                old(self).position(),
                old(self).word_length() as int,
                old(self).index_limit(),
                old(self).clear_on_overflow(),
            ).0.len()) + 16 <= usize::MAX,
        ensures
            final(self).out() == old(self).out() + dec_all(
                old(self).state(),
                old(self).entries(),
                old(self).input(),
                old(self).position(),
                old(self).word_length() as int,
                old(self).index_limit(),
                old(self).clear_on_overflow(),
            ).0,
            r == dec_all(
                old(self).state(),
                old(self).entries(),
                old(self).input(),
                old(self).position(),
                old(self).word_length() as int,
                old(self).index_limit(),
                old(self).clear_on_overflow(),
            ).1,
    {
        let ghost c = self.input();
        let ghost w = self.word_length() as int;
        let ghost limit = self.index_limit();
        let ghost clear = self.clear_on_overflow();
        let ghost total = dec_all(self.state(), self.entries(), c, self.position(), w, limit, clear);
        let ghost out0 = self.out();
        loop
            invariant
                self.well_formed(),
                self.input() == c,
                self.word_length() as int == w,
                self.index_limit() == limit,
                self.clear_on_overflow() == clear,
                0 <= self.position() <= 8 * c.len(),
                out0 + total.0 == self.out() + dec_all(self.state(), self.entries(), c, self.position(), w, limit, clear).0,
                total.1 == dec_all(self.state(), self.entries(), c, self.position(), w, limit, clear).1,
                dec_all_halts(self.state(), self.entries(), c, self.position(), w, limit, clear),
                8 * (out0.len() + total.0.len()) + 16 <= usize::MAX,
                out0 == old(self).out(),
                c == old(self).input(),
                w == old(self).word_length() as int,
                limit == old(self).index_limit(),
                clear == old(self).clear_on_overflow(),
                total == dec_all(old(self).state(), old(self).entries(), c, old(self).position(), w, limit, clear),
            decreases 8 * c.len() - self.position(),
        {
            let ghost st = self.state();
            let ghost en = self.entries();
            let ghost p = self.position();
            let ghost n = read_len(c, p, w);
            let ghost here = dec_all(st, en, c, p, w, limit, clear);
            let mut bytes = self.input.read_bit_sequence(self.dict.word_bit_length() as usize);
            proof {
                lemma_packed(bytes@, bits_of(c, p + n).skip(p));
            }
            let ghost raw = bytes@;
            if Self::fit_ful_u32_if_need(&mut bytes).is_err() {
                assert(n <= 0);
                assert(self.out() + here.0 =~= self.out());
                return Ok(());
            }
            let index = if bytes.len() == 4 {
                u32_from_le(bytes[0], bytes[1], bytes[2], bytes[3])
            } else {
                assert(read_index(c, p, n) is None);
                assert(self.out() + here.0 =~= self.out());
                return Err(LzvError::InvalidInput);
            };
            assert(read_index(c, p, n) == Some(index));
            proof {
                match dec_step(st, en, index, limit, clear) {
                    Ok((st2, e2, o)) => {
                        let rest = dec_all(st2, e2, c, p + n, w, limit, clear);
                        assert(here.0 == o + rest.0);
                        assert(self.out() + here.0 == self.out() + o + rest.0);
                    },
                    Err(_) => {},
                }
            }
            match self.process(index) {
                Ok(()) => {},
                Err(e) => {
                    assert(self.out() + here.0 =~= self.out());
                    return Err(e);
                },
            }
        }
    }

    /// The bytes decoded so far.
    pub fn into_bytes(self) -> (bytes: Vec<u8>)
        ensures
            bytes@ == self.out(),
    {
        self.output.finish()
    }

    /// A decoder for `bytes`: reads the header and sets up the dictionary it describes.
    pub fn new(bytes: Vec<u8>) -> (r: Result<Self, LzvError>)
        requires
            8 * bytes@.len() + 16 <= usize::MAX,
            bytes@.len() >= 6 ==> pow2(header_word_length(bytes@) as nat) <= usize::MAX,
        ensures
            bytes@.len() < 6 ==> r == Err::<Self, LzvError>(LzvError::InvalidInput),
            bytes@.len() >= 6 ==> (r matches Ok(d) && {
                &&& d.well_formed()
                &&& d.state() is None
                &&& d.entries() == Seq::<(u8, u32)>::empty()
                &&& d.word_length() == header_word_length(bytes@)
                &&& d.index_limit() == pow2(header_word_length(bytes@) as nat)
                &&& d.clear_on_overflow() == (bytes@[5] != 0)
                &&& d.input() == bytes@
                &&& d.position() == 48
                &&& d.out() == Seq::<u8>::empty()
            }),
    {
        let ghost c = bytes@;
        let mut input = BitStreamReader::open(bytes);
        let header_bytes = input.read_bit_sequence(LzvHeader::byte_length() * 8);
        proof {
            let n = if 48 < 8 * c.len() { 48 } else { 8 * c.len() as int };
            if c.len() >= 6 {
                lemma_aligned_packing(c, 0, 6);
                assert(bits_of(c, 48).skip(0) =~= bits_of(c, 48));
                lemma_packing_unique(header_bytes@, c.subrange(0, 6), bits_of(c, 48));
            } else {
                assert(header_bytes@.len() == (8 * c.len() + 7) / 8);
            }
        }
        let header = match LzvHeader::from_bytes(&header_bytes) {
            Ok(h) => h,
            Err(e) => {
                return Err(e);
            },
        };
        proof {
            if header.word_length >= 64 {
                vstd::arithmetic::power2::lemma2_to64();
                if header.word_length > 64 {
                    vstd::arithmetic::power2::lemma_pow2_strictly_increases(64, header.word_length as nat);
                }
            }
        }
        let dict = Dictionary::with_options(DictionaryOptions::new(header.word_length, header.clear_on_overflow));
        let output = BitStreamWriter::new();
        Ok(LzvDecoder { step_data: None, input, output, dict })
    }
}

} // verus!
