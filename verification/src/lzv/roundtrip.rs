//! Decoding what the encoder wrote gives back the input.
//!
//! The encoder adds a record one index ahead of the decoder: after each
//! index it writes, the encoder already knows the record that extends that
//! index by the next byte, while the decoder learns it only from the first
//! byte of the next phrase. `lzw_sync` states how the two stay in step.
use vstd::prelude::*;
use crate::lzv::dictionary::{chain_loops, dict_add, find_from, find_record, record_chain, record_loops, record_of};
use crate::lzv::algorithms::{
    DecState,
    EncState,
    codes_bytes,
    dec_all,
    dec_all_halts,
    dec_step,
    dec_step_halts,
    enc_char,
    enc_run,
    header_bytes,
    header_word_length,
    le4,
    lemma_enc_run_len,
    lemma_le4_roundtrip,
    lzv_decodable,
    lzv_decode_run,
    lzv_decoded,
    lzv_encoded,
    lzw_codes,
    pad4,
    read_index,
    read_len,
};
use crate::bit_stream::{bits_of, lemma_aligned_packing, lemma_packed, packed};
use vstd::arithmetic::power2::pow2;
use crate::lzv::error::LzvError;

verus! {

/// Every record extends an index below its own.
pub open spec fn dict_wf(e: Seq<(u8, u32)>) -> bool {
    forall|k: int| 0 <= k < e.len() ==> (#[trigger] e[k]).1 < 256 + k
}

/// The phrase of index `j`, following the records down to a single byte.
pub open spec fn phrase(e: Seq<(u8, u32)>, j: u32) -> Seq<u8>
    decreases j,
{
    if j < 256 {
        seq![j as u8]
    } else if j - 256 >= e.len() || e[j - 256].1 >= j {
        Seq::empty()
    } else {
        phrase(e, e[j - 256].1).push(e[j - 256].0)
    }
}

proof fn lemma_record_chain(e: Seq<(u8, u32)>, j: u32, f: nat)
    requires
        dict_wf(e),
        j < 256 + e.len(),
        f >= j - 255,
    ensures
        record_chain(e, j, f) == Some(phrase(e, j)),
    decreases j,
{
    if j >= 256 {
        let prev = e[j - 256].1;
        assert(e[j - 256].1 < 256 + (j - 256));
        lemma_record_chain(e, prev, (f - 1) as nat);
    }
}

/// In a well-formed dictionary every index in use has its phrase.
pub proof fn lemma_record_of(e: Seq<(u8, u32)>, j: u32)
    requires
        dict_wf(e),
    ensures
        j < 256 + e.len() ==> record_of(e, j) == Some(phrase(e, j)),
        j >= 256 + e.len() ==> record_of(e, j) is None,
{
    if j < 256 + e.len() {
        lemma_record_chain(e, j, e.len());
    }
}

proof fn lemma_chain_ends(e: Seq<(u8, u32)>, j: u32, f: nat)
    requires
        dict_wf(e),
        j < 256 + e.len() ==> f >= j - 255,
    ensures
        !chain_loops(e, j, f),
    decreases j,
{
    if j >= 256 && j - 256 < e.len() {
        assert(e[j - 256].1 < 256 + (j - 256));
        lemma_chain_ends(e, e[j - 256].1, (f - 1) as nat);
    }
}

/// In a well-formed dictionary no chain of records goes round a cycle.
pub proof fn lemma_no_loops(e: Seq<(u8, u32)>, j: u32)
    requires
        dict_wf(e),
    ensures
        !record_loops(e, j),
{
    lemma_chain_ends(e, j, e.len());
}

/// A phrase has at least one byte, and a record's phrase starts as the
/// phrase it extends.
pub proof fn lemma_phrase_shape(e: Seq<(u8, u32)>, j: u32)
    requires
        dict_wf(e),
        j < 256 + e.len(),
    ensures
        phrase(e, j).len() >= 1,
        j >= 256 ==> phrase(e, j) == phrase(e, e[j - 256].1).push(e[j - 256].0),
    decreases j,
{
    if j >= 256 {
        assert(e[j - 256].1 < 256 + (j - 256));
        lemma_phrase_shape(e, e[j - 256].1);
    }
}

/// Adding a record leaves the phrases of the indices in use unchanged.
pub proof fn lemma_phrase_push(e: Seq<(u8, u32)>, x: (u8, u32), j: u32)
    requires
        dict_wf(e),
        j < 256 + e.len(),
    ensures
        phrase(e.push(x), j) == phrase(e, j),
    decreases j,
{
    if j >= 256 {
        assert(e[j - 256].1 < 256 + (j - 256));
        assert(e.push(x)[j - 256] == e[j - 256]);
        lemma_phrase_push(e, x, e[j - 256].1);
    }
}

/// Adding a record that extends an index in use keeps the dictionary well formed.
pub proof fn lemma_dict_add_wf(e: Seq<(u8, u32)>, limit: nat, c: u8, prev: u32)
    requires
        dict_wf(e),
        prev < 256 + e.len(),
    ensures
        dict_wf(dict_add(e, limit, false, c, prev)),
{
    let e2 = dict_add(e, limit, false, c, prev);
    if e.len() + 256 < limit {
        assert forall|k: int| 0 <= k < e2.len() implies (#[trigger] e2[k]).1 < 256 + k by {
            if k < e.len() {
                assert(e2[k] == e[k]);
            }
        }
    }
}

proof fn lemma_find_from(e: Seq<(u8, u32)>, prev: u32, c: u8, from: int)
    requires
        0 <= from,
    ensures
        find_from(e, prev, c, from) matches Some(k) ==> from <= k < e.len() && e[k] == (c, prev),
    decreases e.len() - from,
{
    if from < e.len() && e[from] != (c, prev) {
        lemma_find_from(e, prev, c, from + 1);
    }
}

/// A record found for `(prev, c)` sits at an index in use, and holds `(c, prev)`.
pub proof fn lemma_find_record(e: Seq<(u8, u32)>, prev: u32, c: u8)
    requires
        e.len() + 256 <= 65536,
    ensures
        find_record(e, prev, c) matches Some(j) ==> 256 <= j < 256 + e.len() && e[j - 256] == (c, prev),
{
    lemma_find_from(e, prev, c, 0);
}


/// The index of the phrase the encoder holds.
pub open spec fn phrase_index(st: EncState) -> u32 {
    match st {
        Some((i, _)) => i,
        None => 0,
    }
}

/// Decoding a sequence of indices: the bytes written and how decoding ends.
pub open spec fn dec_codes(
    st: DecState,
    entries: Seq<(u8, u32)>,
    codes: Seq<u32>,
    limit: nat,
    clear: bool,
) -> (Seq<u8>, Result<(), LzvError>)
    decreases codes.len(),
{
    if codes.len() == 0 {
        (Seq::empty(), Ok(()))
    } else {
        match dec_step(st, entries, codes[0], limit, clear) {
            Err(e) => (Seq::empty(), Err(e)),
            Ok((st2, e2, o)) => {
                let (o2, r) = dec_codes(st2, e2, codes.drop_first(), limit, clear);
                (o + o2, r)
            },
        }
    }
}

/// Every step of decoding a sequence of indices ends.
pub open spec fn dec_codes_halts(
    st: DecState,
    entries: Seq<(u8, u32)>,
    codes: Seq<u32>,
    limit: nat,
    clear: bool,
) -> bool
    decreases codes.len(),
{
    if codes.len() == 0 {
        true
    } else {
        &&& dec_step_halts(st, entries, codes[0])
        &&& match dec_step(st, entries, codes[0], limit, clear) {
            Err(_) => true,
            Ok((st2, e2, o)) => dec_codes_halts(st2, e2, codes.drop_first(), limit, clear),
        }
    }
}

/// The encoder, at phrase `i` with records `ee`, and the decoder, in state
/// `dst` with records `ed`, are in step: the decoder has the encoder's
/// records but the last one, which extends the index it read last by the
/// first byte of the encoder's phrase.
pub open spec fn lzw_sync(i: u32, ee: Seq<(u8, u32)>, dst: DecState, ed: Seq<(u8, u32)>) -> bool {
    &&& dict_wf(ee)
    &&& dict_wf(ed)
    &&& ee.len() + 256 <= 65536
    &&& ed.len() + 256 <= 65536
    &&& i < 256 + ee.len()
    &&& match dst {
        None => ee.len() == 0 && ed.len() == 0 && i < 256,
        Some((old, s0)) => {
            &&& old < 256 + ed.len()
            &&& phrase(ed, old)[0] == s0
            &&& ee == dict_add(ed, 65536, false, phrase(ee, i)[0], old)
        },
    }
}

/// In step, the decoder reads the encoder's index `i` as the encoder's phrase,
/// and ends up with the encoder's records.
proof fn lemma_sync_step(i: u32, ee: Seq<(u8, u32)>, dst: DecState, ed: Seq<(u8, u32)>)
    requires
        lzw_sync(i, ee, dst, ed),
    ensures
        dec_step(dst, ed, i, 65536, false) == Ok::<(DecState, Seq<(u8, u32)>, Seq<u8>), LzvError>(
            (Some((i, phrase(ee, i)[0])), ee, phrase(ee, i)),
        ),
        dec_step_halts(dst, ed, i),
{
    lemma_phrase_shape(ee, i);
    lemma_no_loops(ed, i);
    if let Some((old, s0)) = dst {
        lemma_no_loops(ed, old);
    }
    match dst {
        None => {
            assert(ed =~= ee);
        },
        Some((old, s0)) => {
            let p = phrase(ee, i);
            lemma_record_of(ed, i);
            lemma_record_of(ed, old);
            lemma_phrase_shape(ed, old);
            if ed.len() + 256 < 65536 {
                assert(ee == ed.push((p[0], old)));
                if i < 256 + ed.len() {
                    lemma_phrase_push(ed, (p[0], old), i);
                } else {
                    assert(i == 256 + ed.len());
                    lemma_phrase_push(ed, (p[0], old), old);
                    assert(ee[i - 256] == (p[0], old));
                    assert(p == phrase(ed, old).push(p[0]));
                    assert(p[0] == phrase(ed, old)[0]);
                }
            } else {
                assert(ee == ed);
            }
        },
    }
}

/// From states in step, decoding what the encoder writes for `rest`, its
/// last index included, gives the encoder's phrase followed by `rest`; every
/// index written is below 65536.
pub proof fn lemma_lzw_sync_run(i: u32, ee: Seq<(u8, u32)>, dst: DecState, ed: Seq<(u8, u32)>, rest: Seq<u8>)
    requires
        lzw_sync(i, ee, dst, ed),
    ensures
        enc_run(Some((i, ee)), rest, 65536, false).0 is Some,
        ({
            let (st, codes) = enc_run(Some((i, ee)), rest, 65536, false);
            let all = codes.push(phrase_index(st));
            &&& dec_codes(dst, ed, all, 65536, false) == (phrase(ee, i) + rest, Ok::<(), LzvError>(()))
            &&& dec_codes_halts(dst, ed, all, 65536, false)
            &&& forall|k: int| 0 <= k < all.len() ==> #[trigger] all[k] < 65536
        }),
    decreases rest.len(),
{
    lemma_phrase_shape(ee, i);
    let p = phrase(ee, i);
    if rest.len() == 0 {
        lemma_sync_step(i, ee, dst, ed);
        assert(enc_run(Some((i, ee)), rest, 65536, false) == (Some((i, ee)), Seq::<u32>::empty()));
        let all = Seq::<u32>::empty().push(i);
        assert(all[0] == i);
        assert(all.drop_first() =~= Seq::<u32>::empty());
        let dst2: DecState = Some((i, p[0]));
        assert(dec_codes(dst2, ee, Seq::<u32>::empty(), 65536, false) == (Seq::<u8>::empty(), Ok::<(), LzvError>(())));
        assert(dec_codes_halts(dst2, ee, Seq::<u32>::empty(), 65536, false));
        assert(p + Seq::<u8>::empty() =~= p);
        assert(p + rest =~= p);
        assert(dec_codes(dst, ed, all, 65536, false) == (p + Seq::<u8>::empty(), Ok::<(), LzvError>(())));
    } else {
        let ch = rest[0];
        let r = rest.drop_first();
        lemma_find_record(ee, i, ch);
        match find_record(ee, i, ch) {
            Some(j) => {
                lemma_phrase_shape(ee, j);
                assert(ee[j - 256] == (ch, i));
                assert(phrase(ee, j) == p.push(ch));
                assert(phrase(ee, j)[0] == p[0]);
                lemma_lzw_sync_run(j, ee, dst, ed, r);
                assert(p.push(ch) + r =~= p + rest);
                let (s2, o2) = enc_run(Some((j, ee)), r, 65536, false);
                assert(Seq::<u32>::empty() + o2 =~= o2);
            },
            None => {
                lemma_sync_step(i, ee, dst, ed);
                let ee2 = dict_add(ee, 65536, false, ch, i);
                lemma_dict_add_wf(ee, 65536, ch, i);
                let dst2: DecState = Some((i, p[0]));
                assert(phrase(ee2, ch as u32) == seq![ch]);
                assert(lzw_sync(ch as u32, ee2, dst2, ee));
                lemma_lzw_sync_run(ch as u32, ee2, dst2, ee, r);
                let (s2, o2) = enc_run(Some((ch as u32, ee2)), r, 65536, false);
                let all2 = o2.push(phrase_index(s2));
                let all = (seq![i] + o2).push(phrase_index(s2));
                assert(all =~= seq![i] + all2);
                assert(all[0] == i);
                assert(all.drop_first() =~= all2);
                assert(p + (seq![ch] + r) =~= p + rest);
                assert forall|k: int| 0 <= k < all.len() implies #[trigger] all[k] < 65536 by {
                    if k > 0 {
                        assert(all[k] == all2[k - 1]);
                    }
                }
            },
        }
    }
}


proof fn lemma_codes_bytes_index(codes: Seq<u32>, t: int)
    requires
        0 <= t < codes.len(),
    ensures
        codes_bytes(codes).len() == 2 * codes.len(),
        codes_bytes(codes)[2 * t] == le4(codes[t])[0],
        codes_bytes(codes)[2 * t + 1] == le4(codes[t])[1],
    decreases codes.len(),
{
    lemma_codes_bytes_len(codes);
    lemma_codes_bytes_len(codes.drop_last());
    if t < codes.len() - 1 {
        lemma_codes_bytes_index(codes.drop_last(), t);
    }
}

proof fn lemma_codes_bytes_len(codes: Seq<u32>)
    ensures
        codes_bytes(codes).len() == 2 * codes.len(),
    decreases codes.len(),
{
    if codes.len() > 0 {
        lemma_codes_bytes_len(codes.drop_last());
    }
}

/// Reading 16-bit indices from the encoded bytes is decoding the indices.
proof fn lemma_read_codes(st: DecState, e: Seq<(u8, u32)>, codes: Seq<u32>, t: int)
    requires
        0 <= t <= codes.len(),
        forall|k: int| 0 <= k < codes.len() ==> #[trigger] codes[k] < 65536,
    ensures
        dec_all(st, e, header_bytes(0, 16, false) + codes_bytes(codes), 48 + 16 * t, 16, 65536, false)
            == dec_codes(st, e, codes.skip(t), 65536, false),
        dec_all_halts(st, e, header_bytes(0, 16, false) + codes_bytes(codes), 48 + 16 * t, 16, 65536, false)
            == dec_codes_halts(st, e, codes.skip(t), 65536, false),
    decreases codes.len() - t,
{
    let c = header_bytes(0, 16, false) + codes_bytes(codes);
    lemma_codes_bytes_len(codes);
    let p = 48 + 16 * t;
    if t == codes.len() {
        assert(read_len(c, p, 16) == 0);
        assert(codes.skip(t) =~= Seq::<u32>::empty());
    } else {
        assert(read_len(c, p, 16) == 16);
        let x = codes[t];
        lemma_codes_bytes_index(codes, t);
        lemma_aligned_packing(c, 6 + 2 * t, 8 + 2 * t);
        lemma_packed(c.subrange(6 + 2 * t, 8 + 2 * t), bits_of(c, p + 16).skip(p));
        let two = c.subrange(6 + 2 * t, 8 + 2 * t);
        assert(two[0] == le4(x)[0]);
        assert(two[1] == le4(x)[1]);
        lemma_le4_roundtrip(x);
        assert(pad4(two) =~= le4(x));
        assert(read_index(c, p, 16) == Some(x));
        lemma_read_codes(st, e, codes, t + 1);
        match dec_step(st, e, x, 65536, false) {
            Ok((st2, e2, o)) => {
                lemma_read_codes(st2, e2, codes, t + 1);
            },
            Err(_) => {},
        }
        assert(codes.skip(t)[0] == x);
        assert(codes.skip(t).drop_first() =~= codes.skip(t + 1));
        assert(p + 16 == 48 + 16 * (t + 1));
    }
}

/// Decoding what the encoder wrote gives back the input; for inputs whose
/// encoded form fits in memory, the decoder can be run on it.
pub proof fn lemma_lzv_roundtrip(x: Seq<u8>)
    ensures
        lzv_decoded(lzv_encoded(x)) == Ok::<Seq<u8>, LzvError>(x),
        16 * x.len() + 80 <= usize::MAX ==> lzv_decodable(lzv_encoded(x)),
{
    let c = lzv_encoded(x);
    let codes = lzw_codes(x);
    lemma_le4_roundtrip(16);
    lemma_codes_bytes_len(codes);
    assert(c.len() >= 6);
    assert(header_word_length(c) == 16);
    vstd::arithmetic::power2::lemma2_to64();
    assert(c[5] == 0);
    lemma_enc_run_len(None, x, 65536, false);
    if x.len() == 0 {
        assert(codes =~= Seq::<u32>::empty());
        assert(dec_codes(None, Seq::empty(), codes, 65536, false) == (Seq::<u8>::empty(), Ok::<(), LzvError>(())));
        lemma_read_codes(None, Seq::empty(), codes, 0);
        assert(codes.skip(0) =~= codes);
        assert(x =~= Seq::<u8>::empty());
    } else {
        let x0 = x[0];
        let r = x.drop_first();
        let e0 = Seq::<(u8, u32)>::empty();
        assert(lzw_sync(x0 as u32, e0, None, e0));
        lemma_lzw_sync_run(x0 as u32, e0, None, e0, r);
        let (s2, o2) = enc_run(Some((x0 as u32, e0)), r, 65536, false);
        assert(enc_run(None, x, 65536, false) == (s2, Seq::<u32>::empty() + o2));
        assert(Seq::<u32>::empty() + o2 =~= o2);
        assert(codes == o2.push(phrase_index(s2)));
        lemma_read_codes(None, e0, codes, 0);
        assert(codes.skip(0) =~= codes);
        assert(phrase(e0, x0 as u32) + r =~= x);
    }
}

} // verus!
