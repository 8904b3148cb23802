//! Commands of the form `<encode | decode> <input> <output> <algorithm> [extensions...]`,
//! and the extensions applied to whole buffers in chunks.
use vstd::prelude::*;
use crate::cli::error::CliError;
use crate::text::{concat_str, push_char, str_eq};
use crate::move_to_front::{
    MoveToFrontDecoder,
    MoveToFrontEncoder,
    identity_order,
    lemma_mtf_decode_in_parts,
    lemma_mtf_encode_in_parts,
    mtf_decode_seq,
    mtf_encode_seq,
};
use crate::burrows_wheeler::{
    BurroughsWheelerEncode,
    decode_word_spec,
    is_stable_symbol_order,
    is_transform_of,
    lemma_bwt_roundtrip,
};
use crate::move_to_front::{lemma_identity_order_is_alphabet, lemma_mtf_roundtrip};

verus! {

/// Size of the chunks the extensions work on.
pub const CHUNK_SIZE: usize = 32;

/// Whether to encode or to decode.
#[derive(Debug, Clone, Copy, PartialEq, Eq, Structural)]
pub enum EncodeOption {
    Encode,
    Decode,
}

/// The compression algorithm.
#[derive(Debug, Clone, Copy, PartialEq, Eq, Structural)]
pub enum Algorithm {
    LZV,
    Huffman,
}

/// A transform applied before compressing and undone after decompressing.
#[derive(Debug, Clone, Copy, PartialEq, Eq, Structural)]
pub enum Extension {
    MTF,
    BWT,
}

/// A parsed command.
#[derive(Debug)]
pub struct Config {
    pub action: EncodeOption,
    pub input_file: String,
    pub output_file: String,
    pub algorithm: Algorithm,
    pub extensions: Vec<Extension>,
}

/// Whether `c` is white space (the Unicode `White_Space` property).
pub open spec fn is_ws(c: char) -> bool {
    ||| ('\u{9}' <= c && c <= '\u{d}')
    ||| c == ' '
    ||| c == '\u{85}'
    ||| c == '\u{a0}'
    ||| c == '\u{1680}'
    ||| ('\u{2000}' <= c && c <= '\u{200a}')
    ||| c == '\u{2028}'
    ||| c == '\u{2029}'
    ||| c == '\u{202f}'
    ||| c == '\u{205f}'
    ||| c == '\u{3000}'
}

/// The words of `s`, `cur` being the part of a word read before `s`.
pub open spec fn words_from(s: Seq<char>, cur: Seq<char>) -> Seq<Seq<char>>
    decreases s.len(),
{
    if s.len() == 0 {
        if cur.len() > 0 {
            seq![cur]
        } else {
            Seq::empty()
        }
    } else if is_ws(s[0]) {
        (if cur.len() > 0 {
            seq![cur]
        } else {
            Seq::empty()
        }) + words_from(s.drop_first(), Seq::empty())
    } else {
        words_from(s.drop_first(), cur.push(s[0]))
    }
}

/// The maximal runs of characters of `s` that are not white space.
pub open spec fn words(s: Seq<char>) -> Seq<Seq<char>> {
    words_from(s, Seq::empty())
}

/// The code points with the Unicode `White_Space` property, as the Unicode
/// Character Database lists them in PropList.txt.
pub open spec fn unicode_white_space() -> Set<u32> {
    set![
        0x0009u32, 0x000Au32, 0x000Bu32, 0x000Cu32, 0x000Du32, 0x0020u32, 0x0085u32, 0x00A0u32,
        0x1680u32, 0x2000u32, 0x2001u32, 0x2002u32, 0x2003u32, 0x2004u32, 0x2005u32, 0x2006u32,
        0x2007u32, 0x2008u32, 0x2009u32, 0x200Au32, 0x2028u32, 0x2029u32, 0x202Fu32, 0x205Fu32,
        0x3000u32
    ]
}

/// The characters that separate words are exactly those with the Unicode
/// `White_Space` property.
pub proof fn lemma_white_space_is_unicode(c: char)
    ensures
        is_ws(c) <==> unicode_white_space().contains(c as u32),
{
}

proof fn lemma_words_trailing_ws(s: Seq<char>, cur: Seq<char>, c: char)
    requires
        is_ws(c),
    ensures
        words_from(s.push(c), cur) == words_from(s, cur),
    decreases s.len(),
{
    let t = s.push(c);
    if s.len() == 0 {
        assert(t.drop_first() =~= Seq::<char>::empty());
        assert(words_from(Seq::<char>::empty(), Seq::<char>::empty()) == Seq::<Seq<char>>::empty());
        if cur.len() > 0 {
            assert(seq![cur] + Seq::<Seq<char>>::empty() =~= seq![cur]);
        } else {
            assert(Seq::<Seq<char>>::empty() + Seq::<Seq<char>>::empty() =~= Seq::<Seq<char>>::empty());
        }
    } else {
        assert(t[0] == s[0]);
        assert(t.drop_first() =~= s.drop_first().push(c));
        if is_ws(s[0]) {
            lemma_words_trailing_ws(s.drop_first(), Seq::empty(), c);
        } else {
            lemma_words_trailing_ws(s.drop_first(), cur.push(s[0]), c);
        }
    }
}

/// White space at the end of a command changes nothing: in particular a
/// carriage return left by a terminal that ends lines with CR LF gives the
/// same words, so the same parse.
pub proof fn lemma_trailing_white_space(s: Seq<char>, c: char)
    requires
        unicode_white_space().contains(c as u32),
    ensures
        words(s.push(c)) == words(s),
        words(s.push('\r')) == words(s),
{
    lemma_white_space_is_unicode(c);
    lemma_white_space_is_unicode('\r');
    assert(unicode_white_space().contains('\r' as u32));
    lemma_words_trailing_ws(s, Seq::empty(), c);
    lemma_words_trailing_ws(s, Seq::empty(), '\r');
}

fn is_whitespace(c: char) -> (b: bool)
    ensures
        b == is_ws(c),
{
    ('\u{9}' <= c && c <= '\u{d}') || c == ' ' || c == '\u{85}' || c == '\u{a0}' || c == '\u{1680}'
        || ('\u{2000}' <= c && c <= '\u{200a}') || c == '\u{2028}' || c == '\u{2029}' || c
        == '\u{202f}' || c == '\u{205f}' || c == '\u{3000}'
}

/// The words of `s`.
pub fn split_whitespace(s: &str) -> (tokens: Vec<String>)
    ensures
        tokens@.len() == words(s@).len(),
        forall|k: int| 0 <= k < tokens@.len() ==> #[trigger] tokens@[k]@ == words(s@)[k],
{
    let n = s.unicode_len();
    let mut tokens: Vec<String> = Vec::new();
    let mut cur = String::new();
    let mut i: usize = 0;
    let ghost mut done: Seq<Seq<char>> = Seq::empty();
    assert(s@.skip(0) =~= s@);
    while i < n
        invariant
            n == s@.len(),
            i <= n,
            tokens@.len() == done.len(),
            forall|k: int| 0 <= k < tokens@.len() ==> #[trigger] tokens@[k]@ == done[k],
            done + words_from(s@.skip(i as int), cur@) == words(s@),
        decreases n - i,
    {
        let c = s.get_char(i);
        let ghost rest = s@.skip(i as int);
        assert(rest[0] == c);
        assert(rest.drop_first() =~= s@.skip(i + 1));
        if is_whitespace(c) {
            if cur.unicode_len() > 0 {
                let ghost w = cur@;
                tokens.push(cur);
                proof {
                    done = done.push(w);
                    assert(done.drop_last() + (seq![w] + words_from(s@.skip(i + 1), Seq::empty())) =~= done
                        + words_from(s@.skip(i + 1), Seq::empty()));
                }
                cur = String::new();
            } else {
                assert(Seq::<Seq<char>>::empty() + words_from(s@.skip(i + 1), Seq::empty()) =~= words_from(
                    s@.skip(i + 1),
                    Seq::empty(),
                ));
                cur = String::new();
            }
        } else {
            push_char(&mut cur, c);
        }
        i = i + 1;
    }
    if cur.unicode_len() > 0 {
        let ghost w = cur@;
        tokens.push(cur);
        proof {
            done = done.push(w);
        }
    }
    assert(s@.skip(n as int) =~= Seq::<char>::empty());
    assert(done + Seq::<Seq<char>>::empty() =~= done);
    tokens
}

/// The action named `t`.
pub open spec fn action_of(t: Seq<char>) -> Option<EncodeOption> {
    if t == "encode"@ {
        Some(EncodeOption::Encode)
    } else if t == "decode"@ {
        Some(EncodeOption::Decode)
    } else {
        None
    }
}

/// The algorithm named `t`.
pub open spec fn algorithm_of(t: Seq<char>) -> Option<Algorithm> {
    if t == "lzv"@ {
        Some(Algorithm::LZV)
    } else if t == "huffman"@ {
        Some(Algorithm::Huffman)
    } else {
        None
    }
}

/// The extension named `t`.
pub open spec fn extension_of(t: Seq<char>) -> Option<Extension> {
    if t == "mtf"@ {
        Some(Extension::MTF)
    } else if t == "bwt"@ {
        Some(Extension::BWT)
    } else {
        None
    }
}

/// The extensions named by `toks`, or the first name that is not one.
pub open spec fn extensions_of(toks: Seq<Seq<char>>) -> Result<Seq<Extension>, Seq<char>>
    decreases toks.len(),
{
    if toks.len() == 0 {
        Ok(Seq::empty())
    } else {
        match extension_of(toks[0]) {
            None => Err(toks[0]),
            Some(e) => match extensions_of(toks.drop_first()) {
                Ok(rest) => Ok(seq![e] + rest),
                Err(t) => Err(t),
            },
        }
    }
}

/// The default output name: the input name with `.enc` or `.dec` added.
pub open spec fn default_output(input: Seq<char>, action: EncodeOption) -> Seq<char> {
    input + "."@ + match action {
        EncodeOption::Encode => "enc"@,
        EncodeOption::Decode => "dec"@,
    }
}

/// The commands that can be parsed: there is a first word, and a known
/// action is followed by at least three more words.
pub open spec fn parsable(s: Seq<char>) -> bool {
    &&& words(s).len() >= 1
    &&& action_of(words(s)[0]) is Some ==> words(s).len() >= 4
}

fn extension_named(t: &str) -> (r: Option<Extension>)
    ensures
        r == extension_of(t@),
{
    proof {
        reveal_strlit("mtf");
        reveal_strlit("bwt");
        assert("mtf"@[0] != "bwt"@[0]);
    }
    if str_eq(t, "mtf") {
        Some(Extension::MTF)
    } else if str_eq(t, "bwt") {
        Some(Extension::BWT)
    } else {
        None
    }
}

/// Parses a command line.
pub fn parse_input(s: String) -> (r: Result<Config, CliError>)
    requires
        parsable(s@),
    ensures
        ({
            let toks = words(s@);
            match action_of(toks[0]) {
                None => r matches Err(CliError::UnknownCommand(t)) && t@ == toks[0],
                Some(a) => match algorithm_of(toks[3]) {
                    None => r matches Err(CliError::UnknownAlgorithm(t)) && t@ == toks[3],
                    Some(alg) => match extensions_of(toks.skip(4)) {
                        Err(bad) => r matches Err(CliError::UnknownExtension(t)) && t@ == bad,
                        Ok(exts) => r matches Ok(c) && c.action == a && c.input_file@ == toks[1]
                            && c.output_file@ == (if toks[2] == "default"@ {
                            default_output(toks[1], a)
                        } else {
                            toks[2]
                        }) && c.algorithm == alg && c.extensions@ == exts,
                    },
                },
            }
        }),
{
    let tokens = split_whitespace(s.as_str());
    let ghost toks = words(s@);
    proof {
        reveal_strlit("encode");
        reveal_strlit("decode");
        reveal_strlit("lzv");
        reveal_strlit("huffman");
        assert("encode"@[0] != "decode"@[0]);
        assert("lzv"@[0] != "huffman"@[0]);
    }
    let action = if str_eq(tokens[0].as_str(), "encode") {
        EncodeOption::Encode
    } else if str_eq(tokens[0].as_str(), "decode") {
        EncodeOption::Decode
    } else {
        return Err(CliError::UnknownCommand(tokens[0].clone()));
    };
    let input_file = tokens[1].clone();
    let output_file = if str_eq(tokens[2].as_str(), "default") {
        let ext = match action {
            EncodeOption::Encode => "enc",
            EncodeOption::Decode => "dec",
        };
        let with_dot = concat_str(tokens[1].as_str(), ".");
        concat_str(with_dot.as_str(), ext)
    } else {
        tokens[2].clone()
    };
    let algorithm = if str_eq(tokens[3].as_str(), "lzv") {
        Algorithm::LZV
    } else if str_eq(tokens[3].as_str(), "huffman") {
        Algorithm::Huffman
    } else {
        return Err(CliError::UnknownAlgorithm(tokens[3].clone()));
    };
    let mut extensions: Vec<Extension> = Vec::new();
    let mut k: usize = 4;
    let ghost tail = toks.skip(4);
    while k < tokens.len()
        invariant
            4 <= k <= tokens@.len(),
            tokens@.len() == toks.len(),
            forall|j: int| 0 <= j < tokens@.len() ==> #[trigger] tokens@[j]@ == toks[j],
            tail == toks.skip(4),
            toks == words(s@),
            action_of(toks[0]) == Some(action),
            algorithm_of(toks[3]) == Some(algorithm),
            extensions_of(tail) == match extensions_of(toks.skip(k as int)) {
                Ok(rest) => Ok::<Seq<Extension>, Seq<char>>(extensions@ + rest),
                Err(t) => Err(t),
            },
        decreases tokens@.len() - k,
    {
        let ghost rest = toks.skip(k as int);
        assert(rest[0] == toks[k as int]);
        assert(rest.drop_first() =~= toks.skip(k + 1));
        match extension_named(tokens[k].as_str()) {
            Some(e) => {
                proof {
                    match extensions_of(toks.skip(k + 1)) {
                        Ok(r2) => {
                            assert(extensions@.push(e) + r2 =~= extensions@ + (seq![e] + r2));
                        },
                        Err(_) => {},
                    }
                }
                extensions.push(e);
            },
            None => {
                return Err(CliError::UnknownExtension(tokens[k].clone()));
            },
        }
        k = k + 1;
    }
    proof {
        assert(toks.skip(k as int) =~= Seq::<Seq<char>>::empty());
        assert(extensions@ + Seq::<Extension>::empty() =~= extensions@);
    }
    Ok(Config { action, input_file, output_file, algorithm, extensions })
}


/// Chunk `k` of `size` elements of `s`.
pub open spec fn chunk(s: Seq<u8>, k: int, size: int) -> Seq<u8> {
    s.subrange(size * k, size * k + size)
}

/// `out` is the move-to-front code of `data`, carried over from chunk to chunk.
pub fn apply_mtf_extension_encode(data: &[u8]) -> (out: Vec<u8>)
    ensures
        out@ == mtf_encode_seq(identity_order(), data@),
{
    let mut encoder = MoveToFrontEncoder::default();
    let mut out: Vec<u8> = Vec::new();
    let mut i: usize = 0;
    let n = data.len();
    assert(data@.take(0) =~= Seq::<u8>::empty());
    while i < n
        invariant
            n == data@.len(),
            i <= n,
            out@ == mtf_encode_seq(identity_order(), data@.take(i as int)),
            encoder@ == crate::move_to_front::mtf_encode_order(identity_order(), data@.take(i as int)),
        decreases n - i,
    {
        let end = if n - i < CHUNK_SIZE {
            n
        } else {
            i + CHUNK_SIZE
        };
        let part = vstd::slice::slice_subrange(data, i, end);
        let mut code = encoder.encode(part);
        proof {
            lemma_mtf_encode_in_parts(identity_order(), data@.take(i as int), part@);
            assert(data@.take(i as int) + part@ =~= data@.take(end as int));
        }
        out.append(&mut code);
        i = end;
    }
    assert(data@.take(n as int) =~= data@);
    out
}

/// `out` is the move-to-front decoding of `data`, carried over from chunk to chunk.
pub fn apply_mtf_extension_decode(data: &[u8]) -> (out: Vec<u8>)
    ensures
        out@ == mtf_decode_seq(identity_order(), data@),
{
    let mut decoder = MoveToFrontDecoder::default();
    let mut out: Vec<u8> = Vec::new();
    let mut i: usize = 0;
    let n = data.len();
    assert(data@.take(0) =~= Seq::<u8>::empty());
    while i < n
        invariant
            n == data@.len(),
            i <= n,
            out@ == mtf_decode_seq(identity_order(), data@.take(i as int)),
            decoder@ == crate::move_to_front::mtf_decode_order(identity_order(), data@.take(i as int)),
        decreases n - i,
    {
        let end = if n - i < CHUNK_SIZE {
            n
        } else {
            i + CHUNK_SIZE
        };
        let part = vstd::slice::slice_subrange(data, i, end);
        let mut word = decoder.decode(part);
        proof {
            lemma_mtf_decode_in_parts(identity_order(), data@.take(i as int), part@);
            assert(data@.take(i as int) + part@ =~= data@.take(end as int));
        }
        out.append(&mut word);
        i = end;
    }
    assert(data@.take(n as int) =~= data@);
    out
}

/// `out` holds, for each whole chunk of 32 bytes of `data`, its
/// Burrows-Wheeler transform and the row of the chunk (one byte), then the
/// bytes of a shorter last chunk as they are.
pub open spec fn bwt_stream_encoded(data: Seq<u8>, out: Seq<u8>) -> bool {
    let nb = (data.len() / 32) as int;
    &&& out.len() == 33 * nb + data.len() % 32
    &&& forall|k: int|
        0 <= k < nb ==> is_transform_of(
            #[trigger] chunk(data, k, 32),
            out.subrange(33 * k, 33 * k + 32),
            out[33 * k + 32] as int,
        )
    &&& out.skip(33 * nb) == data.skip(32 * nb)
}

/// Every group of 33 bytes ends with a row number below 32.
pub open spec fn bwt_stream_decodable(data: Seq<u8>) -> bool {
    forall|k: int| 0 <= k < data.len() / 33 ==> #[trigger] data[33 * k + 32] < 32
}

/// Chunk `k` of 32 bytes of `out` is rebuilt from group `k` of 33 bytes of
/// `data`: its first 32 bytes are the transform, the last one the row.
pub open spec fn group_decoded(data: Seq<u8>, out: Seq<u8>, k: int) -> bool {
    exists|perm: Seq<int>|
        is_stable_symbol_order(chunk(data, k, 33).take(32), perm) && chunk(out, k, 32) == decode_word_spec(
            chunk(data, k, 33).take(32),
            perm,
            data[33 * k + 32] as int,
        )
}

/// `out` holds, for each whole group of 33 bytes of `data`, the chunk of 32
/// bytes rebuilt from its transform and row, then the bytes of a shorter last
/// group as they are.
pub open spec fn bwt_stream_decoded(data: Seq<u8>, out: Seq<u8>) -> bool {
    let nb = (data.len() / 33) as int;
    &&& out.len() == 32 * nb + data.len() % 33
    &&& forall|k: int| 0 <= k < nb ==> #[trigger] group_decoded(data, out, k)
    &&& out.skip(32 * nb) == data.skip(33 * nb)
}

/// Applies the Burrows-Wheeler transform to each whole chunk of 32 bytes.
pub fn apply_bft_extension_encode(data: &[u8]) -> (out: Vec<u8>)
    ensures
        bwt_stream_encoded(data@, out@),
{
    let n = data.len();
    let mut out: Vec<u8> = Vec::new();
    let mut i: usize = 0;
    let ghost mut k: int = 0;
    while n - i >= CHUNK_SIZE
        invariant
            n == data@.len(),
            i == 32 * k,
            i <= n,
            out@.len() == 33 * k,
            forall|j: int|
                0 <= j < k ==> is_transform_of(
                    #[trigger] chunk(data@, j, 32),
                    out@.subrange(33 * j, 33 * j + 32),
                    out@[33 * j + 32] as int,
                ),
        decreases n - i,
    {
        let mut block = [0u8; 32];
        let mut j: usize = 0;
        while j < 32
            invariant
                j <= 32,
                i + 32 <= n,
                n == data@.len(),
                forall|m: int| 0 <= m < j ==> block@[m] == data@[i + m],
            decreases 32 - j,
        {
            block[j] = data[i + j];
            j = j + 1;
        }
        assert(block@ =~= chunk(data@, k, 32));
        let (code, size) = BurroughsWheelerEncode::encode(&block);
        let ghost before = out@;
        let mut m: usize = 0;
        while m < 32
            invariant
                m <= 32,
                out@ == before + code@.take(m as int),
            decreases 32 - m,
        {
            out.push(code[m]);
            assert(code@.take(m + 1) =~= code@.take(m as int).push(code@[m as int]));
            m = m + 1;
        }
        out.push(size as u8);
        proof {
            assert(code@.take(32) =~= code@);
            assert(out@.subrange(33 * k, 33 * k + 32) =~= code@);
            assert forall|j: int| 0 <= j < k + 1 implies is_transform_of(
                #[trigger] chunk(data@, j, 32),
                out@.subrange(33 * j, 33 * j + 32),
                out@[33 * j + 32] as int,
            ) by {
                if j < k {
                    assert(out@.subrange(33 * j, 33 * j + 32) =~= before.subrange(33 * j, 33 * j + 32));
                    assert(out@[33 * j + 32] == before[33 * j + 32]);
                }
            }
            k = k + 1;
        }
        i = i + CHUNK_SIZE;
    }
    let ghost before = out@;
    let mut m: usize = i;
    while m < n
        invariant
            i <= m <= n,
            n == data@.len(),
            out@ == before + data@.subrange(i as int, m as int),
        decreases n - m,
    {
        out.push(data[m]);
        assert(data@.subrange(i as int, m + 1) =~= data@.subrange(i as int, m as int).push(data@[m as int]));
        m = m + 1;
    }
    proof {
        assert(k == n / 32);
        assert(out@.skip(33 * k) =~= data@.skip(32 * k));
        assert forall|j: int| 0 <= j < k implies is_transform_of(
            #[trigger] chunk(data@, j, 32),
            out@.subrange(33 * j, 33 * j + 32),
            out@[33 * j + 32] as int,
        ) by {
            assert(out@.subrange(33 * j, 33 * j + 32) =~= before.subrange(33 * j, 33 * j + 32));
            assert(out@[33 * j + 32] == before[33 * j + 32]);
        }
    }
    out
}

/// Rebuilds each whole chunk of 32 bytes from its transform and row.
pub fn apply_bft_extension_decode(data: &[u8]) -> (out: Vec<u8>)
    requires
        bwt_stream_decodable(data@),
    ensures
        bwt_stream_decoded(data@, out@),
{
    let n = data.len();
    let mut out: Vec<u8> = Vec::new();
    let mut i: usize = 0;
    let ghost mut k: int = 0;
    while n - i >= CHUNK_SIZE + 1
        invariant
            n == data@.len(),
            i == 33 * k,
            i <= n,
            bwt_stream_decodable(data@),
            out@.len() == 32 * k,
            forall|j: int| 0 <= j < k ==> #[trigger] group_decoded(data@, out@, j),
        decreases n - i,
    {
        let mut block = [0u8; 32];
        let mut j: usize = 0;
        while j < 32
            invariant
                j <= 32,
                i + 33 <= n,
                n == data@.len(),
                forall|m: int| 0 <= m < j ==> block@[m] == data@[i + m],
            decreases 32 - j,
        {
            block[j] = data[i + j];
            j = j + 1;
        }
        assert(block@ =~= chunk(data@, k, 33).take(32));
        let pos = data[i + 32];
        assert(k < n / 33);
        assert(data@[33 * k + 32] < 32);
        let word = BurroughsWheelerEncode::decode(&block, pos as usize);
        let ghost before = out@;
        let mut m: usize = 0;
        while m < 32
            invariant
                m <= 32,
                out@ == before + word@.take(m as int),
            decreases 32 - m,
        {
            out.push(word[m]);
            assert(word@.take(m + 1) =~= word@.take(m as int).push(word@[m as int]));
            m = m + 1;
        }
        proof {
            assert(word@.take(32) =~= word@);
            assert(chunk(out@, k, 32) =~= word@);
            assert forall|j: int| 0 <= j < k + 1 implies #[trigger] group_decoded(data@, out@, j) by {
                if j < k {
                    assert(group_decoded(data@, before, j));
                    assert(chunk(out@, j, 32) =~= chunk(before, j, 32));
                    let perm = choose|perm: Seq<int>|
                        is_stable_symbol_order(chunk(data@, j, 33).take(32), perm) && chunk(before, j, 32)
                            == decode_word_spec(chunk(data@, j, 33).take(32), perm, data@[33 * j + 32] as int);
                    assert(is_stable_symbol_order(chunk(data@, j, 33).take(32), perm));
                } else {
                    let perm = choose|perm: Seq<int>|
                        #![trigger is_stable_symbol_order(block@, perm)]
                        is_stable_symbol_order(block@, perm) && word@ == decode_word_spec(block@, perm, pos as int);
                    assert(is_stable_symbol_order(chunk(data@, j, 33).take(32), perm));
                }
            }
            k = k + 1;
        }
        i = i + CHUNK_SIZE + 1;
    }
    let ghost before = out@;
    let mut m: usize = i;
    while m < n
        invariant
            i <= m <= n,
            n == data@.len(),
            out@ == before + data@.subrange(i as int, m as int),
        decreases n - m,
    {
        out.push(data[m]);
        assert(data@.subrange(i as int, m + 1) =~= data@.subrange(i as int, m as int).push(data@[m as int]));
        m = m + 1;
    }
    proof {
        assert(k == n / 33);
        assert(out@.skip(32 * k) =~= data@.skip(33 * k));
        assert forall|j: int| 0 <= j < k implies #[trigger] group_decoded(data@, out@, j) by {
            assert(group_decoded(data@, before, j));
            assert(chunk(out@, j, 32) =~= chunk(before, j, 32));
            let perm = choose|perm: Seq<int>|
                is_stable_symbol_order(chunk(data@, j, 33).take(32), perm) && chunk(before, j, 32)
                    == decode_word_spec(chunk(data@, j, 33).take(32), perm, data@[33 * j + 32] as int);
            assert(is_stable_symbol_order(chunk(data@, j, 33).take(32), perm));
        }
    }
    out
}


/// Undoing the move-to-front extension gives back the data.
pub proof fn lemma_mtf_extension_roundtrip(data: Seq<u8>)
    ensures
        mtf_decode_seq(identity_order(), mtf_encode_seq(identity_order(), data)) == data,
{
    lemma_identity_order_is_alphabet();
    lemma_mtf_roundtrip(identity_order(), data);
}

/// What the Burrows-Wheeler extension writes can be undone, and undoing it
/// gives back the data.
pub proof fn lemma_bwt_extension_roundtrip(data: Seq<u8>, enc: Seq<u8>, dec: Seq<u8>)
    requires
        bwt_stream_encoded(data, enc),
    ensures
        bwt_stream_decodable(enc),
        bwt_stream_decoded(enc, dec) ==> dec == data,
{
    let nb = (data.len() / 32) as int;
    let r = (data.len() % 32) as int;
    assert(enc.len() / 33 == nb && enc.len() % 33 == r) by (nonlinear_arith)
        requires
            enc.len() == 33 * nb + r,
            0 <= r < 32,
            0 <= nb,
    ;
    assert(data.len() == 32 * nb + r) by (nonlinear_arith)
        requires
            nb == data.len() / 32,
            r == data.len() % 32,
    ;
    assert forall|k: int| 0 <= k < enc.len() / 33 implies #[trigger] enc[33 * k + 32] < 32 by {
        assert(is_transform_of(chunk(data, k, 32), enc.subrange(33 * k, 33 * k + 32), enc[33 * k + 32] as int));
    }
    if bwt_stream_decoded(enc, dec) {
        assert forall|i: int| 0 <= i < data.len() implies dec[i] == data[i] by {
            if i < 32 * nb {
                let k = i / 32;
                assert(0 <= k < nb && 32 * k <= i < 32 * k + 32) by (nonlinear_arith)
                    requires
                        0 <= i < 32 * nb,
                        k == i / 32,
                ;
                assert(group_decoded(enc, dec, k));
                let perm = choose|perm: Seq<int>|
                    is_stable_symbol_order(chunk(enc, k, 33).take(32), perm) && chunk(dec, k, 32)
                        == decode_word_spec(chunk(enc, k, 33).take(32), perm, enc[33 * k + 32] as int);
                assert(chunk(enc, k, 33).take(32) =~= enc.subrange(33 * k, 33 * k + 32));
                assert(is_transform_of(chunk(data, k, 32), enc.subrange(33 * k, 33 * k + 32), enc[33 * k + 32] as int));
                lemma_bwt_roundtrip(chunk(data, k, 32), chunk(enc, k, 33).take(32), enc[33 * k + 32] as int, perm);
                assert(dec[i] == chunk(dec, k, 32)[i - 32 * k]);
                assert(data[i] == chunk(data, k, 32)[i - 32 * k]);
            } else {
                assert(dec[i] == dec.skip(32 * nb)[i - 32 * nb]);
                assert(data[i] == data.skip(32 * nb)[i - 32 * nb]);
                assert(enc.skip(33 * nb)[i - 32 * nb] == data.skip(32 * nb)[i - 32 * nb]);
            }
        }
        assert(dec =~= data);
    }
}

} // verus!
