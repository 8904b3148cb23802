//! Line-by-line base64 of whole texts, and the choice between encoding and decoding.
//!
//! A text is encoded line by line, each line of at most 76 bytes giving one
//! line of base64; lines that start with `-` are skipped when decoding.
use vstd::prelude::*;
use vstd::string::StringSliceAdditionalSpecFns;
use crate::base64::algorithms::{decode, decode_spec, encode, encode_chars};
use crate::base64::error::{Base64Error, with_line};
use crate::text::{push_char, str_eq};

verus! {

/// Extension of encoded files.
pub const BASE64_EXTENSION: &'static str = "base64";

/// Extension of decoded files.
pub const DEBASE64_EXTENSION: &'static str = "txt";

/// Longest line, in bytes, that is encoded or decoded.
pub const MAX_LINE_LEN: usize = 76;

/// Position of the first newline byte of `s` at or after `i`.
pub open spec fn newline_from(s: Seq<u8>, i: int) -> Option<int>
    decreases s.len() - i,
{
    if i < 0 || i >= s.len() {
        None
    } else if s[i] == 10 {
        Some(i)
    } else {
        newline_from(s, i + 1)
    }
}

/// The lines of `s`: the parts between newline bytes; a newline at the end
/// starts no further line.
pub open spec fn byte_lines(s: Seq<u8>) -> Seq<Seq<u8>>
    decreases s.len(),
{
    if s.len() == 0 {
        Seq::empty()
    } else {
        match newline_from(s, 0) {
            Some(k) => {
                proof {
                    lemma_newline_from(s, 0);
                }
                seq![s.take(k)] + byte_lines(s.skip(k + 1))
            },
            None => seq![s],
        }
    }
}

/// Where `newline_from` finds a newline, and that none comes before it.
pub proof fn lemma_newline_from(s: Seq<u8>, i: int)
    requires
        0 <= i,
    ensures
        newline_from(s, i) matches Some(k) ==> i <= k < s.len() && s[k] == 10 && forall|m: int|
            i <= m < k ==> s[m] != 10,
        newline_from(s, i) is None ==> forall|m: int| i <= m < s.len() ==> s[m] != 10,
    decreases s.len() - i,
{
    if i < s.len() && s[i] != 10 {
        lemma_newline_from(s, i + 1);
    }
}

/// Encoding the lines from line `k` on (numbered from 1 in errors): the text
/// written, each line after the first preceded by a newline, and how it ends.
pub open spec fn encode_lines(lines: Seq<Seq<u8>>, k: int) -> (Seq<char>, Result<(), Base64Error>)
    decreases lines.len() - k,
{
    if k < 0 || k >= lines.len() {
        (Seq::empty(), Ok(()))
    } else if lines[k].len() > 76 {
        (Seq::empty(), Err(Base64Error::IncorrectStringLength { line: (k + 1) as u64, len: lines[k].len() as u64 }))
    } else {
        let sep = if k == 0 {
            Seq::<char>::empty()
        } else {
            seq!['\n']
        };
        let (rest, r) = encode_lines(lines, k + 1);
        (sep + encode_chars(lines[k]) + rest, r)
    }
}

/// Decoding the lines from line `k` on (numbered from 0 in errors): the bytes
/// written, a newline before each decoded line but the first one of the
/// text, and how it ends.
pub open spec fn decode_lines(lines: Seq<Seq<char>>, k: int) -> (Seq<u8>, Result<(), Base64Error>)
    decreases lines.len() - k,
{
    if k < 0 || k >= lines.len() {
        (Seq::empty(), Ok(()))
    } else {
        let b = vstd::utf8::encode_utf8(lines[k]);
        if b.len() > 76 {
            (Seq::empty(), Err(Base64Error::IncorrectStringLength { line: k as u64, len: b.len() as u64 }))
        } else if lines[k].len() > 0 && lines[k][0] == '-' {
            decode_lines(lines, k + 1)
        } else {
            let sep = if k != 0 {
                seq![10u8]
            } else {
                Seq::<u8>::empty()
            };
            match decode_spec(b) {
                Ok(d) => {
                    let (rest, r) = decode_lines(lines, k + 1);
                    (sep + d + rest, r)
                },
                Err(e) => (sep, Err(with_line(e, k as u64))),
            }
        }
    }
}

/// Encodes each line of `input`: the text written, and an error for the
/// first line longer than 76 bytes (lines counted from 1), after which
/// nothing more is written.
pub fn encode_file(input: &[u8]) -> (r: (String, Result<(), Base64Error>))
    requires
        input@.len() < usize::MAX,
    ensures
        r.0@ == encode_lines(byte_lines(input@), 0).0,
        r.1 == encode_lines(byte_lines(input@), 0).1,
{
    let n = input.len();
    let mut out = String::new();
    let mut start: usize = 0;
    let mut line_number: u64 = 1;
    let ghost all = byte_lines(input@);
    proof {
        assert(input@.skip(0) =~= input@);
        lemma_lines_suffix(input@, 0);
    }
    while start < n
        invariant
            n == input@.len(),
            n < usize::MAX,
            start <= n,
            line_number >= 1,
            line_number <= start + 1,
            all == byte_lines(input@),
            ({
                let k = line_number - 1;
                &&& all.skip(k) == byte_lines(input@.skip(start as int))
                &&& 0 <= k <= all.len()
                &&& encode_lines(all, 0) == ({
                    let (rest, res) = encode_lines(all, k);
                    (out@ + rest, res)
                })
            }),
        decreases n - start,
    {
        let ghost k = (line_number - 1) as int;
        let ghost s = input@.skip(start as int);
        let mut end = start;
        while end < n && input[end] != 10
            invariant
                start <= end <= n,
                n == input@.len(),
                forall|m: int| start <= m < end ==> input@[m] != 10,
            decreases n - end,
        {
            end = end + 1;
        }
        let line = vstd::slice::slice_subrange(input, start, end);
        proof {
            lemma_newline_from(s, 0);
            assert(line@ =~= s.take(end - start));
            if end < n {
                assert(s[end - start] == 10);
                if newline_from(s, 0) != Some(end - start) {
                    let k2 = newline_from(s, 0)->0;
                    assert(s[k2] == input@[start + k2]);
                }
                assert(newline_from(s, 0) == Some(end - start));
                assert(s.skip(end - start + 1) =~= input@.skip(end + 1));
            } else {
                assert(newline_from(s, 0) is None) by {
                    if newline_from(s, 0) is Some {
                        let k2 = newline_from(s, 0)->0;
                        assert(s[k2] == input@[start + k2]);
                    }
                }
                assert(line@ =~= s);
            }
            assert(all.skip(k)[0] == line@);
            assert(all.skip(k).drop_first() =~= all.skip(k + 1));
        }
        if line.len() > MAX_LINE_LEN {
            proof {
                assert(all[k] == line@);
                assert(out@ + Seq::<char>::empty() =~= out@);
            }
            return (out, Err(Base64Error::IncorrectStringLength { line: line_number, len: line.len() as u64 }));
        }
        let encoded_line = encode(line);
        let ghost before = out@;
        if line_number != 1 {
            push_char(&mut out, '\n');
        }
        out.append(encoded_line.as_str());
        proof {
            assert(all[k] == line@);
            let sep = if k == 0 { Seq::<char>::empty() } else { seq!['\n'] };
            let (rest, res) = encode_lines(all, k + 1);
            assert(out@ =~= before + sep + encode_chars(line@));
            assert(before + (sep + encode_chars(line@) + rest) =~= out@ + rest);
        }
        line_number = line_number + 1;
        start = if end < n { end + 1 } else { n };
        proof {
            if end >= n {
                assert(input@.skip(n as int) =~= Seq::<u8>::empty());
                assert(all.skip(k + 1).len() == 0);
            }
        }
    }
    proof {
        let k = (line_number - 1) as int;
        assert(input@.skip(n as int) =~= Seq::<u8>::empty());
        assert(all.skip(k).len() == 0);
        assert(out@ + Seq::<char>::empty() =~= out@);
    }
    (out, Ok(()))
}

proof fn lemma_lines_suffix(s: Seq<u8>, i: int)
    requires
        0 <= i <= s.len(),
    ensures
        byte_lines(s.skip(i)).len() <= s.len() - i + 1,
    decreases s.len() - i,
{
    let t = s.skip(i);
    if t.len() > 0 {
        lemma_newline_from(t, 0);
        match newline_from(t, 0) {
            Some(k) => {
                assert(t.skip(k + 1) =~= s.skip(i + k + 1));
                lemma_lines_suffix(s, i + k + 1);
            },
            None => {},
        }
    }
}

/// Decodes each line: lines that start with `-` are skipped, a newline is
/// written before each decoded line but the first line of the text. Returns
/// the bytes written and the first error, with its line (counted from 0):
/// a line longer than 76 bytes, or one that does not decode.
pub fn decode_file(lines: &Vec<String>) -> (r: (Vec<u8>, Result<(), Base64Error>))
    requires
        forall|k: int| 0 <= k < lines@.len() ==> vstd::utf8::encode_utf8(#[trigger] lines@[k]@).len() <= usize::MAX,
    ensures
        r.0@ == decode_lines(lines@.map_values(|l: String| l@), 0).0,
        r.1 == decode_lines(lines@.map_values(|l: String| l@), 0).1,
{
    let ghost ls = lines@.map_values(|l: String| l@);
    let mut out: Vec<u8> = Vec::new();
    let mut i: usize = 0;
    while i < lines.len()
        invariant
            i <= lines@.len(),
            ls == lines@.map_values(|l: String| l@),
            forall|k: int| 0 <= k < lines@.len() ==> vstd::utf8::encode_utf8(#[trigger] lines@[k]@).len() <= usize::MAX,
            decode_lines(ls, 0) == ({
                let (rest, res) = decode_lines(ls, i as int);
                (out@ + rest, res)
            }),
        decreases lines@.len() - i,
    {
        let line = lines[i].as_str();
        assert(ls[i as int] == line@);
        let ghost b = vstd::utf8::encode_utf8(ls[i as int]);
        assert(line.spec_bytes() == b);
        assert(b.len() <= usize::MAX) by {
            assert(vstd::utf8::encode_utf8(lines@[i as int]@).len() <= usize::MAX);
        }
        if line.len() > MAX_LINE_LEN {
            assert(out@ + Seq::<u8>::empty() =~= out@);
            return (out, Err(Base64Error::IncorrectStringLength { line: i as u64, len: line.len() as u64 }));
        }
        if line.unicode_len() > 0 && line.get_char(0) == '-' {
            assert(decode_lines(ls, i as int) == decode_lines(ls, i + 1));
            i = i + 1;
            continue;
        }
        let ghost sep = if i != 0 { seq![10u8] } else { Seq::<u8>::empty() };
        assert(decode_lines(ls, i as int) == match decode_spec(b) {
            Ok(d) => {
                let (rest, r) = decode_lines(ls, i + 1);
                (sep + d + rest, r)
            },
            Err(e) => (sep, Err(with_line(e, i as u64))),
        });
        let ghost before = out@;
        if i != 0 {
            out.push(10);
        }
        match decode(line) {
            Ok(mut decoded_line) => {
                proof {
                    let (rest, res) = decode_lines(ls, i + 1);
                    assert(before + (sep + decoded_line@ + rest) =~= (before + sep) + decoded_line@ + rest);
                }
                out.append(&mut decoded_line);
            },
            Err(mut error) => {
                error.set_line(i as u64);
                assert(out@ + Seq::<u8>::empty() =~= out@);
                return (out, Err(error));
            },
        }
        i = i + 1;
    }
    assert(out@ + Seq::<u8>::empty() =~= out@);
    (out, Ok(()))
}

/// What the program is asked to do.
#[derive(Debug, Clone, Copy, PartialEq, Eq, Structural)]
pub enum Options {
    Encode,
    Decode,
}

impl Options {
    /// The name of the option.
    pub fn name(&self) -> (s: &'static str)
        ensures
            s@ == match self {
                Options::Encode => "encode"@,
                Options::Decode => "decode"@,
            },
    {
        match self {
            Options::Encode => "encode",
            Options::Decode => "decode",
        }
    }

    /// The option named `s`.
    pub fn parse(s: &str) -> (r: Result<Options, Base64Error>)
        ensures
            s@ == "encode"@ ==> r == Ok::<Options, Base64Error>(Options::Encode),
            s@ == "decode"@ ==> r == Ok::<Options, Base64Error>(Options::Decode),
            s@ != "encode"@ && s@ != "decode"@ ==> r == Err::<Options, Base64Error>(Base64Error::UnknownOption),
    {
        proof {
            reveal_strlit("encode");
            reveal_strlit("decode");
            assert("encode"@[0] != "decode"@[0]);
        }
        if str_eq(s, "encode") {
            Ok(Options::Encode)
        } else if str_eq(s, "decode") {
            Ok(Options::Decode)
        } else {
            Err(Base64Error::UnknownOption)
        }
    }
}

} // verus!
