//! Base64 encoding of byte strings, with `=` padding.
//!
//! The 64 symbols are `A`-`Z`, `a`-`z`, `0`-`9`, `+` and `/`, in this
//! order: the standard alphabet of RFC 4648.
use vstd::prelude::*;
use crate::text::push_char;
use crate::base64::error::Base64Error;
use vstd::string::StringSliceAdditionalSpecFns;

verus! {

/// The padding symbol `=`.
pub const PADDING: u8 = 61;

/// The symbol that stands for the 6-bit value `v`.
pub open spec fn sextet_symbol(v: int) -> u8 {
    if v < 26 {
        (65 + v) as u8
    } else if v < 52 {
        (97 + v - 26) as u8
    } else if v < 62 {
        (48 + v - 52) as u8
    } else if v == 62 {
        43u8
    } else {
        47u8
    }
}

/// The 6-bit value of a symbol, or `None` for a byte that is not one of the 64 symbols.
pub open spec fn sextet_value(c: u8) -> Option<u8> {
    if 65 <= c <= 90 {
        Some((c - 65) as u8)
    } else if 97 <= c <= 122 {
        Some((c - 71) as u8)
    } else if 48 <= c <= 57 {
        Some((c + 4) as u8)
    } else if c == 43 {
        Some(62u8)
    } else if c == 47 {
        Some(63u8)
    } else {
        None
    }
}

/// The four symbols for one group of `n` input bytes (`1 <= n <= 3`); the
/// missing bytes count as zero and the missing symbols are padding.
pub open spec fn encode_group(b0: u8, b1: u8, b2: u8, n: int) -> Seq<u8> {
    seq![
        sextet_symbol((b0 / 4) as int),
        sextet_symbol((b0 % 4) * 16 + b1 / 16),
        if n > 1 { sextet_symbol((b1 % 16) * 4 + b2 / 64) } else { PADDING },
        if n > 2 { sextet_symbol((b2 % 64) as int) } else { PADDING },
    ]
}

/// The base64 text (as bytes) of `data`.
pub open spec fn encode_spec(data: Seq<u8>) -> Seq<u8>
    decreases data.len(),
{
    if data.len() == 0 {
        seq![]
    } else {
        let b1 = if data.len() > 1 { data[1] } else { 0u8 };
        let b2 = if data.len() > 2 { data[2] } else { 0u8 };
        let n = if data.len() > 3 { 3 } else { data.len() as int };
        encode_group(data[0], b1, b2, n) + if data.len() > 3 {
            encode_spec(data.skip(3))
        } else {
            seq![]
        }
    }
}

/// The base64 text of `data` as characters.
pub open spec fn encode_chars(data: Seq<u8>) -> Seq<char> {
    encode_spec(data).map_values(|b: u8| b as char)
}

/// The three bytes packed in four 6-bit values.
pub open spec fn join_sextets(v0: u8, v1: u8, v2: u8, v3: u8) -> Seq<u8> {
    seq![(v0 * 4 + v1 / 16) as u8, ((v1 % 16) * 16 + v2 / 4) as u8, ((v2 % 4) * 64 + v3) as u8]
}

/// A symbol outside the final group: padding or a foreign byte is an error at `pos`.
pub open spec fn check_symbol(c: u8, pos: int) -> Result<u8, Base64Error> {
    if c == PADDING {
        Err(Base64Error::IncorrectUseOfPadding { line: 0, pos: pos as u64 })
    } else {
        match sextet_value(c) {
            Some(v) => Ok(v),
            None => Err(Base64Error::InvalidInputCharacter { line: 0, pos: pos as u64 }),
        }
    }
}

/// Decoding of the group of four symbols at `i` that is not the last one.
#[verifier::opaque]
pub open spec fn decode_body_group(b: Seq<u8>, i: int) -> Result<Seq<u8>, Base64Error> {
    match check_symbol(b[i], i) {
        Err(e) => Err(e),
        Ok(v0) => match check_symbol(b[i + 1], i + 1) {
            Err(e) => Err(e),
            Ok(v1) => match check_symbol(b[i + 2], i + 2) {
                Err(e) => Err(e),
                Ok(v2) => match check_symbol(b[i + 3], i + 3) {
                    Err(e) => Err(e),
                    Ok(v3) => Ok(join_sextets(v0, v1, v2, v3)),
                },
            },
        },
    }
}

/// Decoding of the last group of four symbols, at `i`, where the last one or
/// two symbols may be padding.
#[verifier::opaque]
pub open spec fn decode_last_group(b: Seq<u8>, i: int) -> Result<Seq<u8>, Base64Error> {
    match check_symbol(b[i], i) {
        Err(e) => Err(e),
        Ok(v0) => match check_symbol(b[i + 1], i + 1) {
            Err(e) => Err(e),
            Ok(v1) => if b[i + 2] == PADDING {
                if b[i + 3] == PADDING {
                    Ok(join_sextets(v0, v1, 0, 0).take(1))
                } else if sextet_value(b[i + 3]) is Some {
                    Err(Base64Error::IncorrectUseOfPadding { line: 0, pos: (i + 3) as u64 })
                } else {
                    Err(Base64Error::InvalidInputCharacter { line: 0, pos: (i + 3) as u64 })
                }
            } else {
                match sextet_value(b[i + 2]) {
                    None => Err(Base64Error::InvalidInputCharacter { line: 0, pos: (i + 2) as u64 }),
                    Some(v2) => if b[i + 3] == PADDING {
                        Ok(join_sextets(v0, v1, v2, 0).take(2))
                    } else {
                        match sextet_value(b[i + 3]) {
                            None => Err(
                                Base64Error::InvalidInputCharacter { line: 0, pos: (i + 3) as u64 },
                            ),
                            Some(v3) => Ok(join_sextets(v0, v1, v2, v3)),
                        }
                    },
                }
            },
        },
    }
}

/// `Ok(prefix + rest)` for a success, the error otherwise.
pub open spec fn prepend(prefix: Seq<u8>, r: Result<Seq<u8>, Base64Error>) -> Result<
    Seq<u8>,
    Base64Error,
> {
    match r {
        Ok(rest) => Ok(prefix + rest),
        Err(e) => Err(e),
    }
}

/// Decoding of the groups from position `i` on (`i` a multiple of four).
pub open spec fn decode_from(b: Seq<u8>, i: int) -> Result<Seq<u8>, Base64Error>
    decreases b.len() - i,
{
    if b.len() - i <= 4 {
        decode_last_group(b, i)
    } else {
        match decode_body_group(b, i) {
            Err(e) => Err(e),
            Ok(q) => prepend(q, decode_from(b, i + 4)),
        }
    }
}

/// The result of decoding the base64 text `b`: the bytes, or the first error
/// met when the text is read from left to right.
pub open spec fn decode_spec(b: Seq<u8>) -> Result<Seq<u8>, Base64Error> {
    if b.len() % 4 != 0 {
        Err(Base64Error::IncorrectStringLength { line: 0, len: b.len() as u64 })
    } else if b.len() == 0 {
        Ok(seq![])
    } else {
        decode_from(b, 0)
    }
}

fn sextet_to_symbol(v: u64) -> (c: u8)
    requires
        v < 64,
    ensures
        c == sextet_symbol(v as int),
        c < 128,
{
    if v < 26 {
        (65 + v) as u8
    } else if v < 52 {
        (97 + v - 26) as u8
    } else if v < 62 {
        (48 + v - 52) as u8
    } else if v == 62 {
        43
    } else {
        47
    }
}

fn symbol_to_sextet(c: u8) -> (v: Option<u8>)
    ensures
        v == sextet_value(c),
{
    if 65 <= c && c <= 90 {
        Some(c - 65)
    } else if 97 <= c && c <= 122 {
        Some(c - 71)
    } else if 48 <= c && c <= 57 {
        Some(c + 4)
    } else if c == 43 {
        Some(62)
    } else if c == 47 {
        Some(63)
    } else {
        None
    }
}

proof fn lemma_split_triplet(b0: u64, b1: u64, b2: u64, t: u64)
    requires
        b0 < 256,
        b1 < 256,
        b2 < 256,
        t == (b0 << 16) + (b1 << 8) + b2,
    ensures
        (t >> 18) & 0x3F == b0 / 4,
        (t >> 12) & 0x3F == (b0 % 4) * 16 + b1 / 16,
        (t >> 6) & 0x3F == (b1 % 16) * 4 + b2 / 64,
        t & 0x3F == b2 % 64,
{
    assert((t >> 18) & 0x3F == b0 / 4 && (t >> 12) & 0x3F == (b0 % 4) * 16 + b1 / 16 && (t >> 6)
        & 0x3F == (b1 % 16) * 4 + b2 / 64 && t & 0x3F == b2 % 64) by (bit_vector)
        requires
            b0 < 256,
            b1 < 256,
            b2 < 256,
            t == (b0 << 16) + (b1 << 8) + b2,
    ;
}

/// Encodes `data` as base64 text; an empty input gives an empty text.
pub fn encode(data: &[u8]) -> (text: String)
    ensures
        text@ == encode_chars(data@),
{
    let mut output = String::new();
    let len = data.len();
    let mut i: usize = 0;
    assert(data@.skip(0) =~= data@);
    while i < len
        invariant
            len == data@.len(),
            i <= len,
            i % 3 == 0 || i == len,
            output@ + encode_chars(data@.skip(i as int)) == encode_chars(data@),
        decreases len - i,
    {
        let ghost rest = data@.skip(i as int);
        let b0 = data[i] as u64;
        let b1: u64 = if i + 1 < len {
            data[i + 1] as u64
        } else {
            0
        };
        let b2: u64 = if i + 2 < len {
            data[i + 2] as u64
        } else {
            0
        };
        assert(b0 << 16 <= 0xFF0000 && b1 << 8 <= 0xFF00) by (bit_vector)
            requires
                b0 < 256,
                b1 < 256,
        ;
        let triplet: u64 = (b0 << 16) + (b1 << 8) + b2;
        proof {
            lemma_split_triplet(b0, b1, b2, triplet);
        }
        let c0 = sextet_to_symbol((triplet >> 18) & 0x3F);
        let c1 = sextet_to_symbol((triplet >> 12) & 0x3F);
        let c2 = if i + 1 < len {
            sextet_to_symbol((triplet >> 6) & 0x3F)
        } else {
            PADDING
        };
        let c3 = if i + 2 < len {
            sextet_to_symbol(triplet & 0x3F)
        } else {
            PADDING
        };
        let ghost before = output@;
        push_char(&mut output, c0 as char);
        push_char(&mut output, c1 as char);
        push_char(&mut output, c2 as char);
        push_char(&mut output, c3 as char);
        let ghost group = seq![c0, c1, c2, c3];
        let ghost n = if rest.len() > 3 {
            3
        } else {
            rest.len() as int
        };
        assert(group =~= encode_group(rest[0], b1 as u8, b2 as u8, n)) by {
            if i + 1 < len {
                assert(rest[1] == data@[i + 1]);
            }
            if i + 2 < len {
                assert(rest[2] == data@[i + 2]);
            }
        }
        let ghost tail = if rest.len() > 3 {
            encode_spec(rest.skip(3))
        } else {
            seq![]
        };
        assert(encode_spec(rest) == group + tail) by {
            if rest.len() > 1 {
                assert(rest[1] == b1);
            }
            if rest.len() > 2 {
                assert(rest[2] == b2);
            }
        }
        assert(encode_chars(rest) =~= group.map_values(|b: u8| b as char) + tail.map_values(
            |b: u8| b as char,
        ));
        assert(output@ =~= before + group.map_values(|b: u8| b as char));
        if len - i > 3 {
            assert(rest.skip(3) =~= data@.skip(i + 3));
            i = i + 3;
        } else {
            assert(tail =~= Seq::<u8>::empty());
            assert(data@.skip(len as int) =~= Seq::<u8>::empty());
            assert(encode_chars(data@.skip(len as int)) =~= Seq::<char>::empty());
            i = len;
        }
    }
    assert(data@.skip(i as int) =~= Seq::<u8>::empty());
    assert(encode_chars(data@.skip(i as int)) =~= Seq::<char>::empty());
    assert(output@ + Seq::<char>::empty() =~= output@);
    output
}

proof fn lemma_join_triplet(v0: u64, v1: u64, v2: u64, v3: u64, t: u64)
    requires
        v0 < 64,
        v1 < 64,
        v2 < 64,
        v3 < 64,
        t == (v0 << 18) + (v1 << 12) + (v2 << 6) + v3,
    ensures
        (t >> 16) & 0xFF == v0 * 4 + v1 / 16,
        (t >> 8) & 0xFF == (v1 % 16) * 16 + v2 / 4,
        t & 0xFF == (v2 % 4) * 64 + v3,
{
    assert((t >> 16) & 0xFF == v0 * 4 + v1 / 16 && (t >> 8) & 0xFF == (v1 % 16) * 16 + v2 / 4 && t
        & 0xFF == (v2 % 4) * 64 + v3) by (bit_vector)
        requires
            v0 < 64,
            v1 < 64,
            v2 < 64,
            v3 < 64,
            t == (v0 << 18) + (v1 << 12) + (v2 << 6) + v3,
    ;
}

fn join(v0: u8, v1: u8, v2: u8, v3: u8) -> (bytes: (u8, u8, u8))
    requires
        v0 < 64,
        v1 < 64,
        v2 < 64,
        v3 < 64,
    ensures
        seq![bytes.0, bytes.1, bytes.2] == join_sextets(v0, v1, v2, v3),
{
    let (w0, w1, w2, w3) = (v0 as u64, v1 as u64, v2 as u64, v3 as u64);
    assert(w0 << 18 <= 0xFC0000 && w1 << 12 <= 0x3F000 && w2 << 6 <= 0xFC0) by (bit_vector)
        requires
            w0 < 64,
            w1 < 64,
            w2 < 64,
    ;
    let triplet: u64 = (w0 << 18) + (w1 << 12) + (w2 << 6) + w3;
    proof {
        lemma_join_triplet(w0, w1, w2, w3, triplet);
    }
    (((triplet >> 16) & 0xFF) as u8, ((triplet >> 8) & 0xFF) as u8, (triplet & 0xFF) as u8)
}

fn symbol_at(bytes: &[u8], pos: usize) -> (r: Result<u8, Base64Error>)
    requires
        pos < bytes@.len(),
    ensures
        r == check_symbol(bytes@[pos as int], pos as int),
        r matches Ok(v) ==> v < 64,
{
    let c = bytes[pos];
    if c == PADDING {
        return Err(Base64Error::IncorrectUseOfPadding { line: 0, pos: pos as u64 });
    }
    match symbol_to_sextet(c) {
        Some(v) => Ok(v),
        None => Err(Base64Error::InvalidInputCharacter { line: 0, pos: pos as u64 }),
    }
}

fn decode_last(bytes: &[u8], i: usize, out: &mut Vec<u8>) -> (r: Result<(), Base64Error>)
    requires
        i + 4 == bytes@.len(),
    ensures
        match decode_last_group(bytes@, i as int) {
            Ok(q) => r is Ok && final(out)@ == old(out)@ + q,
            Err(e) => r == Err::<(), Base64Error>(e),
        },
{
    reveal(decode_last_group);
    let len = bytes.len();
    let v0 = match symbol_at(bytes, i) {
        Ok(v) => v,
        Err(e) => return Err(e),
    };
    let v1 = match symbol_at(bytes, i + 1) {
        Ok(v) => v,
        Err(e) => return Err(e),
    };
    let c2 = bytes[i + 2];
    let c3 = bytes[i + 3];
    if c2 == PADDING {
        if c3 == PADDING {
            let (x, _, _) = join(v0, v1, 0, 0);
            out.push(x);
            assert(join_sextets(v0, v1, 0, 0).take(1) =~= seq![x]);
            Ok(())
        } else if symbol_to_sextet(c3).is_some() {
            Err(Base64Error::IncorrectUseOfPadding { line: 0, pos: (i + 3) as u64 })
        } else {
            Err(Base64Error::InvalidInputCharacter { line: 0, pos: (i + 3) as u64 })
        }
    } else {
        match symbol_to_sextet(c2) {
            None => Err(Base64Error::InvalidInputCharacter { line: 0, pos: (i + 2) as u64 }),
            Some(v2) => {
                if c3 == PADDING {
                    let (x, y, _) = join(v0, v1, v2, 0);
                    out.push(x);
                    out.push(y);
                    assert(join_sextets(v0, v1, v2, 0).take(2) =~= seq![x, y]);
                    Ok(())
                } else {
                    match symbol_to_sextet(c3) {
                        None => Err(
                            Base64Error::InvalidInputCharacter { line: 0, pos: (i + 3) as u64 },
                        ),
                        Some(v3) => {
                            let (x, y, z) = join(v0, v1, v2, v3);
                            out.push(x);
                            out.push(y);
                            out.push(z);
                            assert(join_sextets(v0, v1, v2, v3) =~= seq![x, y, z]);
                            Ok(())
                        },
                    }
                }
            },
        }
    }
}

fn decode_group(bytes: &[u8], i: usize) -> (r: Result<(u8, u8, u8), Base64Error>)
    requires
        i + 4 <= bytes@.len(),
    ensures
        match decode_body_group(bytes@, i as int) {
            Ok(q) => r matches Ok(t) && seq![t.0, t.1, t.2] == q,
            Err(e) => r == Err::<(u8, u8, u8), Base64Error>(e),
        },
{
    reveal(decode_body_group);
    let len = bytes.len();
    let v0 = match symbol_at(bytes, i) {
        Ok(v) => v,
        Err(e) => return Err(e),
    };
    let v1 = match symbol_at(bytes, i + 1) {
        Ok(v) => v,
        Err(e) => return Err(e),
    };
    let v2 = match symbol_at(bytes, i + 2) {
        Ok(v) => v,
        Err(e) => return Err(e),
    };
    let v3 = match symbol_at(bytes, i + 3) {
        Ok(v) => v,
        Err(e) => return Err(e),
    };
    Ok(join(v0, v1, v2, v3))
}

/// Decodes base64 text. The length must be a multiple of four; padding may
/// only end the last group of four.
pub fn decode(data: &str) -> (r: Result<Vec<u8>, Base64Error>)
    ensures
        match decode_spec(data.spec_bytes()) {
            Ok(bytes) => r matches Ok(out) && out@ == bytes,
            Err(e) => r == Err::<Vec<u8>, Base64Error>(e),
        },
{
    let bytes = data.as_bytes();
    let len = bytes.len();
    if len % 4 != 0 {
        return Err(Base64Error::IncorrectStringLength { line: 0, len: len as u64 });
    }
    if len == 0 {
        return Ok(Vec::new());
    }
    let ghost b = bytes@;
    let mut out: Vec<u8> = Vec::new();
    let mut i: usize = 0;
    while i < len - 4
        invariant
            len == b.len(),
            b == bytes@,
            len % 4 == 0,
            len >= 4,
            i % 4 == 0,
            i <= len - 4,
            decode_spec(data.spec_bytes()) == decode_from(b, 0),
            decode_from(b, 0) == prepend(out@, decode_from(b, i as int)),
        decreases len - i,
    {
        assert(b.len() - i > 4);
        let (x, y, z) = match decode_group(bytes, i) {
            Ok(t) => t,
            Err(e) => {
                assert(decode_from(b, i as int) == Err::<Seq<u8>, Base64Error>(e));
                return Err(e);
            },
        };
        let ghost before = out@;
        out.push(x);
        out.push(y);
        out.push(z);
        proof {
            let q = seq![x, y, z];
            assert(out@ =~= before + q);
            assert(decode_from(b, i as int) == prepend(q, decode_from(b, i + 4)));
            match decode_from(b, i + 4) {
                Ok(rest) => {
                    assert(before + (q + rest) =~= (before + q) + rest);
                },
                Err(_) => {},
            }
        }
        i = i + 4;
    }
    let ghost before = out@;
    match decode_last(bytes, i, &mut out) {
        Ok(()) => Ok(out),
        Err(e) => Err(e),
    }
}

/// Every symbol stands for the value it was made from.
pub proof fn lemma_sextet_roundtrip(v: int)
    requires
        0 <= v < 64,
    ensures
        sextet_value(sextet_symbol(v)) == Some(v as u8),
        sextet_symbol(v) != PADDING,
        sextet_symbol(v) < 128,
{
}

proof fn lemma_group_roundtrip(b0: u8, b1: u8, b2: u8)
    ensures
        join_sextets(
            (b0 / 4) as u8,
            ((b0 % 4) * 16 + b1 / 16) as u8,
            ((b1 % 16) * 4 + b2 / 64) as u8,
            (b2 % 64) as u8,
        ) == seq![b0, b1, b2],
        join_sextets((b0 / 4) as u8, ((b0 % 4) * 16 + b1 / 16) as u8, 0, 0)[0] == b0,
        join_sextets((b0 / 4) as u8, ((b0 % 4) * 16 + b1 / 16) as u8, ((b1 % 16) * 4) as u8, 0)[1]
            == b1,
{
    assert(join_sextets(
        (b0 / 4) as u8,
        ((b0 % 4) * 16 + b1 / 16) as u8,
        ((b1 % 16) * 4 + b2 / 64) as u8,
        (b2 % 64) as u8,
    ) =~= seq![b0, b1, b2]);
}

/// The text made by the encoder is all ASCII.
pub proof fn lemma_encode_ascii(data: Seq<u8>)
    ensures
        forall|k: int| 0 <= k < encode_spec(data).len() ==> #[trigger] encode_spec(data)[k] < 128,
        encode_spec(data).len() % 4 == 0,
    decreases data.len(),
{
    if data.len() > 0 {
        if data.len() > 3 {
            lemma_encode_ascii(data.skip(3));
        }
    }
}

/// Decoding, from position `i` on, a text that is `prefix + encode_spec(data)`.
#[verifier::spinoff_prover]
#[verifier::rlimit(40)]
proof fn lemma_decode_encoded(prefix: Seq<u8>, data: Seq<u8>)
    requires
        prefix.len() % 4 == 0,
        data.len() > 0,
    ensures
        decode_from(prefix + encode_spec(data), prefix.len() as int) == Ok::<
            Seq<u8>,
            Base64Error,
        >(data),
    decreases data.len(),
{
    reveal(decode_body_group);
    reveal(decode_last_group);
    let b = prefix + encode_spec(data);
    let i = prefix.len() as int;
    let b0 = data[0];
    let b1 = if data.len() > 1 { data[1] } else { 0u8 };
    let b2 = if data.len() > 2 { data[2] } else { 0u8 };
    let s0 = (b0 / 4) as int;
    let s1 = ((b0 % 4) * 16 + b1 / 16) as int;
    let s2 = ((b1 % 16) * 4 + b2 / 64) as int;
    let s3 = (b2 % 64) as int;
    lemma_sextet_roundtrip(s0);
    lemma_sextet_roundtrip(s1);
    lemma_sextet_roundtrip(s2);
    lemma_sextet_roundtrip(s3);
    lemma_group_roundtrip(b0, b1, b2);
    lemma_encode_ascii(data);
    let n = if data.len() > 3 { 3 } else { data.len() as int };
    let tail = if data.len() > 3 { encode_spec(data.skip(3)) } else { seq![] };
    assert(encode_spec(data) == encode_group(b0, b1, b2, n) + tail);
    assert(b[i] == sextet_symbol(s0));
    assert(b[i + 1] == sextet_symbol(s1));
    assert(b[i + 2] == encode_group(b0, b1, b2, n)[2]);
    assert(b[i + 3] == encode_group(b0, b1, b2, n)[3]);
    if data.len() > 3 {
        let prefix2 = prefix + encode_group(b0, b1, b2, n);
        assert(b =~= prefix2 + encode_spec(data.skip(3)));
        lemma_decode_encoded(prefix2, data.skip(3));
        lemma_encode_ascii(data.skip(3));
        assert(b.len() - i > 4);
        assert(decode_body_group(b, i) == Ok::<Seq<u8>, Base64Error>(seq![b0, b1, b2]));
        assert(data =~= seq![b0, b1, b2] + data.skip(3));
    } else {
        assert(b.len() - i == 4);
        if data.len() == 1 {
            assert(data =~= seq![b0]);
            assert(decode_last_group(b, i) == Ok::<Seq<u8>, Base64Error>(
                join_sextets(s0 as u8, s1 as u8, 0, 0).take(1),
            ));
            assert(join_sextets(s0 as u8, s1 as u8, 0, 0).take(1) =~= seq![b0]);
        } else if data.len() == 2 {
            assert(data =~= seq![b0, b1]);
            assert(b2 == 0);
            assert(s2 == (b1 % 16) * 4);
            assert(join_sextets(s0 as u8, s1 as u8, s2 as u8, 0).take(2) =~= seq![b0, b1]);
        } else {
            assert(data =~= seq![b0, b1, b2]);
        }
    }
}

/// Decoding the text made by the encoder gives back the input.
pub proof fn lemma_base64_roundtrip(data: Seq<u8>)
    ensures
        decode_spec(encode_spec(data)) == Ok::<Seq<u8>, Base64Error>(data),
{
    lemma_encode_ascii(data);
    if data.len() > 0 {
        lemma_decode_encoded(seq![], data);
        assert(Seq::<u8>::empty() + encode_spec(data) =~= encode_spec(data));
    } else {
        assert(data =~= Seq::<u8>::empty());
    }
}

/// Decoding the string made by the encoder gives back the input.
pub proof fn lemma_base64_text_roundtrip(data: Seq<u8>)
    ensures
        decode_spec(vstd::utf8::encode_utf8(encode_chars(data))) == Ok::<Seq<u8>, Base64Error>(
            data,
        ),
{
    let chars = encode_chars(data);
    lemma_encode_ascii(data);
    assert(vstd::utf8::is_ascii_chars(chars));
    vstd::utf8::is_ascii_chars_encode_utf8(chars);
    assert(vstd::utf8::encode_utf8(chars) =~= encode_spec(data));
    lemma_base64_roundtrip(data);
}

} // verus!
