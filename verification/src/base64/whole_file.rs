//! Decoding the lines of an encoded text gives back the text it was made of.
use vstd::prelude::*;
use crate::base64::algorithms::{
    PADDING,
    encode_chars,
    encode_group,
    encode_spec,
    lemma_base64_text_roundtrip,
    lemma_encode_ascii,
};
use crate::base64::cli::{byte_lines, decode_lines, encode_lines, lemma_newline_from, newline_from};
use crate::base64::error::Base64Error;

verus! {

/// `ls` with `sep` between each line and the next.
pub open spec fn join_lines<T>(ls: Seq<Seq<T>>, sep: T) -> Seq<T>
    decreases ls.len(),
{
    if ls.len() == 0 {
        Seq::empty()
    } else if ls.len() == 1 {
        ls[0]
    } else {
        ls[0] + seq![sep] + join_lines(ls.drop_first(), sep)
    }
}

/// Position of the first `'\n'` of `t` at or after `i`.
pub open spec fn char_newline_from(t: Seq<char>, i: int) -> Option<int>
    decreases t.len() - i,
{
    if i < 0 || i >= t.len() {
        None
    } else if t[i] == '\n' {
        Some(i)
    } else {
        char_newline_from(t, i + 1)
    }
}

/// Where `char_newline_from` finds a `'\n'`, and that none comes before it.
pub proof fn lemma_char_newline_from(t: Seq<char>, i: int)
    requires
        0 <= i,
    ensures
        char_newline_from(t, i) matches Some(k) ==> i <= k < t.len() && t[k] == '\n' && forall|m: int|
            i <= m < k ==> t[m] != '\n',
        char_newline_from(t, i) is None ==> forall|m: int| i <= m < t.len() ==> t[m] != '\n',
    decreases t.len() - i,
{
    if i < t.len() && t[i] != '\n' {
        lemma_char_newline_from(t, i + 1);
    }
}

/// The lines of a text as `BufRead::lines` splits a text that holds no
/// carriage return: the parts between `'\n'`, a `'\n'` at the end starting
/// no further line.
pub open spec fn text_lines(t: Seq<char>) -> Seq<Seq<char>>
    decreases t.len(),
{
    if t.len() == 0 {
        Seq::empty()
    } else {
        match char_newline_from(t, 0) {
            Some(k) => {
                proof {
                    lemma_char_newline_from(t, 0);
                }
                seq![t.take(k)] + text_lines(t.skip(k + 1))
            },
            None => seq![t],
        }
    }
}

/// No byte of an encoding is a newline, a carriage return or `-`, and it
/// takes four symbols for each three bytes or part of them.
proof fn lemma_encoded_symbols(data: Seq<u8>)
    ensures
        encode_spec(data).len() == 4 * ((data.len() + 2) / 3),
        forall|k: int|
            0 <= k < encode_spec(data).len() ==> {
                let c = #[trigger] encode_spec(data)[k];
                c != 10 && c != 13 && c != 45
            },
    decreases data.len(),
{
    if data.len() > 0 {
        let b1 = if data.len() > 1 { data[1] } else { 0u8 };
        let b2 = if data.len() > 2 { data[2] } else { 0u8 };
        let n = if data.len() > 3 { 3 } else { data.len() as int };
        let g = encode_group(data[0], b1, b2, n);
        assert forall|k: int| 0 <= k < 4 implies {
            let c = #[trigger] g[k];
            c != 10 && c != 13 && c != 45
        } by {
            assert(PADDING == 61);
        }
        if data.len() > 3 {
            lemma_encoded_symbols(data.skip(3));
            let rest = encode_spec(data.skip(3));
            assert(encode_spec(data) == g + rest);
            assert forall|k: int| 0 <= k < encode_spec(data).len() implies {
                let c = #[trigger] encode_spec(data)[k];
                c != 10 && c != 13 && c != 45
            } by {
                if k >= 4 {
                    assert(encode_spec(data)[k] == rest[k - 4]);
                } else {
                    assert(encode_spec(data)[k] == g[k]);
                }
            }
        } else {
            assert(encode_spec(data) == g + seq![]);
            assert(encode_spec(data) =~= g);
        }
    }
}

/// The encoded text of a line has no `'\n'` and does not start with `-`;
/// it is empty only for an empty line, and its UTF-8 bytes are its symbols.
proof fn lemma_encoded_line(data: Seq<u8>)
    ensures
        encode_chars(data).len() == 4 * ((data.len() + 2) / 3),
        forall|k: int| 0 <= k < encode_chars(data).len() ==> #[trigger] encode_chars(data)[k] != '\n',
        encode_chars(data).len() > 0 ==> encode_chars(data)[0] != '-',
        vstd::utf8::encode_utf8(encode_chars(data)) == encode_spec(data),
{
    lemma_encoded_symbols(data);
    lemma_encode_ascii(data);
    let chars = encode_chars(data);
    assert forall|k: int| 0 <= k < chars.len() implies #[trigger] chars[k] != '\n' by {
        assert(chars[k] == encode_spec(data)[k] as char);
    }
    if chars.len() > 0 {
        assert(chars[0] == encode_spec(data)[0] as char);
    }
    assert(vstd::utf8::is_ascii_chars(chars));
    vstd::utf8::is_ascii_chars_encode_utf8(chars);
    assert(vstd::utf8::encode_utf8(chars) =~= encode_spec(data));
}

/// A line with no `'\n'`, a `'\n'`, then more: the line is the first one.
proof fn lemma_text_lines_first(a: Seq<char>, rest: Seq<char>)
    requires
        forall|k: int| 0 <= k < a.len() ==> a[k] != '\n',
    ensures
        text_lines(a + seq!['\n'] + rest) == seq![a] + text_lines(rest),
{
    let t = a + seq!['\n'] + rest;
    lemma_char_newline_from(t, 0);
    match char_newline_from(t, 0) {
        Some(k) => {
            if k < a.len() {
                assert(t[k] == a[k]);
            }
            if k > a.len() {
                assert(t[a.len() as int] == '\n');
            }
            assert(t.take(k) =~= a);
            assert(t.skip(k + 1) =~= rest);
        },
        None => {
            assert(t[a.len() as int] == '\n');
        },
    }
}

/// Splitting joined lines gives them back, when no line holds a `'\n'` and
/// the last one is not empty.
proof fn lemma_text_lines_join(ls: Seq<Seq<char>>)
    requires
        forall|i: int, k: int| 0 <= i < ls.len() && 0 <= k < ls[i].len() ==> #[trigger] ls[i][k] != '\n',
        ls.len() > 0 ==> ls.last().len() > 0,
    ensures
        text_lines(join_lines(ls, '\n')) == ls,
    decreases ls.len(),
{
    if ls.len() == 1 {
        let t = ls[0];
        lemma_char_newline_from(t, 0);
        if let Some(k) = char_newline_from(t, 0) {
            assert(t[k] == '\n');
        }
        assert(seq![t] =~= ls);
    } else if ls.len() > 1 {
        let tail = ls.drop_first();
        assert forall|i: int, k: int| 0 <= i < tail.len() && 0 <= k < tail[i].len() implies #[trigger] tail[i][k]
            != '\n' by {
            assert(tail[i] == ls[i + 1]);
        }
        lemma_text_lines_join(tail);
        assert forall|k: int| 0 <= k < ls[0].len() implies ls[0][k] != '\n' by {
            assert(ls[0][k] == ls[0][k]);
        }
        lemma_text_lines_first(ls[0], join_lines(tail, '\n'));
        assert(seq![ls[0]] + tail =~= ls);
    }
}

/// The encoded lines of `lines`.
pub open spec fn encoded_lines(lines: Seq<Seq<u8>>) -> Seq<Seq<char>> {
    lines.map_values(|l: Seq<u8>| encode_chars(l))
}

/// What `encode_lines` writes from line `k` on, when no line is longer than
/// 76 bytes: the encoded lines joined by newlines, after a newline when
/// `k` is not the first line.
proof fn lemma_encode_lines_joined(lines: Seq<Seq<u8>>, k: int)
    requires
        0 <= k <= lines.len(),
        forall|i: int| 0 <= i < lines.len() ==> (#[trigger] lines[i]).len() <= 76,
    ensures
        encode_lines(lines, k).1 == Ok::<(), Base64Error>(()),
        encode_lines(lines, k).0 == (if 0 < k < lines.len() {
            seq!['\n']
        } else {
            Seq::<char>::empty()
        }) + join_lines(encoded_lines(lines).skip(k), '\n'),
    decreases lines.len() - k,
{
    let e = encoded_lines(lines);
    if k < lines.len() {
        lemma_encode_lines_joined(lines, k + 1);
        assert(e.skip(k).drop_first() =~= e.skip(k + 1));
        assert(e.skip(k)[0] == encode_chars(lines[k]));
        if k + 1 == lines.len() {
            assert(e.skip(k + 1).len() == 0);
        }
    } else {
        assert(e.skip(k).len() == 0);
    }
}

/// What `decode_lines` gives from line `k` on for the encoded lines of
/// `lines`, each of at most 57 bytes: the lines joined by newlines, after a
/// newline when `k` is not the first line.
proof fn lemma_decode_lines_joined(lines: Seq<Seq<u8>>, k: int)
    requires
        0 <= k <= lines.len(),
        forall|i: int| 0 <= i < lines.len() ==> (#[trigger] lines[i]).len() <= 57,
    ensures
        decode_lines(encoded_lines(lines), k).1 == Ok::<(), Base64Error>(()),
        decode_lines(encoded_lines(lines), k).0 == (if 0 < k < lines.len() {
            seq![10u8]
        } else {
            Seq::<u8>::empty()
        }) + join_lines(lines.skip(k), 10u8),
    decreases lines.len() - k,
{
    let e = encoded_lines(lines);
    if k < lines.len() {
        lemma_decode_lines_joined(lines, k + 1);
        let l = lines[k];
        assert(e[k] == encode_chars(l));
        lemma_encoded_line(l);
        lemma_base64_text_roundtrip(l);
        assert(4 * ((l.len() + 2) / 3) <= 76);
        assert(lines.skip(k).drop_first() =~= lines.skip(k + 1));
        assert(lines.skip(k)[0] == l);
        if k + 1 == lines.len() {
            assert(lines.skip(k + 1).len() == 0);
        }
    } else {
        assert(lines.skip(k).len() == 0);
    }
}

/// Joining the lines of `s` gives `s` back when it does not end with a newline;
/// then no line is empty at the end.
proof fn lemma_byte_lines_join(s: Seq<u8>)
    requires
        s.len() == 0 || s.last() != 10,
    ensures
        join_lines(byte_lines(s), 10u8) == s,
        byte_lines(s).len() > 0 ==> byte_lines(s).last().len() > 0,
    decreases s.len(),
{
    if s.len() > 0 {
        lemma_newline_from(s, 0);
        match newline_from(s, 0) {
            Some(k) => {
                let rest = s.skip(k + 1);
                assert(rest.len() > 0) by {
                    if rest.len() == 0 {
                        assert(k == s.len() - 1);
                    }
                }
                assert(rest.last() == s.last());
                lemma_byte_lines_join(rest);
                let ls = byte_lines(s);
                assert(ls == seq![s.take(k)] + byte_lines(rest));
                lemma_newline_from(rest, 0);
                assert(byte_lines(rest).len() > 0) by {
                    match newline_from(rest, 0) {
                        Some(_) => {},
                        None => {},
                    }
                }
                assert(ls.drop_first() =~= byte_lines(rest));
                assert(s =~= s.take(k) + seq![10u8] + rest);
            },
            None => {
                assert(byte_lines(s) == seq![s]);
            },
        }
    }
}

/// A text that does not end with a newline and whose lines have at most 57
/// bytes is encoded line by line without error; splitting the encoded text
/// into lines and decoding them gives the text back, without error.
pub proof fn lemma_file_roundtrip(x: Seq<u8>)
    requires
        x.len() == 0 || x.last() != 10,
        forall|i: int| 0 <= i < byte_lines(x).len() ==> (#[trigger] byte_lines(x)[i]).len() <= 57,
    ensures
        encode_lines(byte_lines(x), 0).1 == Ok::<(), Base64Error>(()),
        decode_lines(text_lines(encode_lines(byte_lines(x), 0).0), 0) == (x, Ok::<(), Base64Error>(())),
{
    let lines = byte_lines(x);
    let e = encoded_lines(lines);
    lemma_encode_lines_joined(lines, 0);
    assert(e.skip(0) =~= e);
    assert(lines.skip(0) =~= lines);
    lemma_byte_lines_join(x);
    assert forall|i: int, k: int| 0 <= i < e.len() && 0 <= k < e[i].len() implies #[trigger] e[i][k] != '\n' by {
        lemma_encoded_line(lines[i]);
    }
    if e.len() > 0 {
        lemma_encoded_line(lines.last());
        assert(e.last() == encode_chars(lines.last()));
    }
    lemma_text_lines_join(e);
    assert(Seq::<char>::empty() + join_lines(e, '\n') =~= join_lines(e, '\n'));
    lemma_decode_lines_joined(lines, 0);
    assert(Seq::<u8>::empty() + join_lines(lines, 10u8) =~= join_lines(lines, 10u8));
}

} // verus!
