//! Move-to-front transform over the byte alphabet.
//!
//! Both sides keep an ordered list of all 256 byte values. The encoder emits
//! the position of each symbol in the list and moves that symbol to the front;
//! the decoder reads a position, emits the symbol found there and performs the
//! same move, so both lists stay in step.
use vstd::prelude::*;

verus! {

/// Number of symbols in the alphabet (every byte value).
pub const ALPHABET_SIZE: usize = 256;

/// `order` lists every byte value exactly once.
pub open spec fn is_alphabet_order(order: Seq<u8>) -> bool {
    &&& order.len() == 256
    &&& order.no_duplicates()
    &&& forall|s: u8| #[trigger] order.contains(s)
}

/// The list in which every byte stands at the position equal to its value.
pub open spec fn identity_order() -> Seq<u8> {
    Seq::new(256, |i: int| i as u8)
}

/// The list after the symbol at position `index` has been moved to the front.
pub open spec fn mtf_move(order: Seq<u8>, index: int) -> Seq<u8> {
    seq![order[index]] + order.take(index) + order.skip(index + 1)
}

/// Positions emitted when `word` is encoded starting from the list `order`.
pub open spec fn mtf_encode_seq(order: Seq<u8>, word: Seq<u8>) -> Seq<u8>
    decreases word.len(),
{
    if word.len() == 0 {
        seq![]
    } else {
        let i = order.index_of(word[0]);
        seq![i as u8] + mtf_encode_seq(mtf_move(order, i), word.drop_first())
    }
}

/// The list after `word` has been encoded starting from `order`.
pub open spec fn mtf_encode_order(order: Seq<u8>, word: Seq<u8>) -> Seq<u8>
    decreases word.len(),
{
    if word.len() == 0 {
        order
    } else {
        mtf_encode_order(mtf_move(order, order.index_of(word[0])), word.drop_first())
    }
}

/// Symbols emitted when `code` is decoded starting from the list `order`.
pub open spec fn mtf_decode_seq(order: Seq<u8>, code: Seq<u8>) -> Seq<u8>
    decreases code.len(),
{
    if code.len() == 0 {
        seq![]
    } else {
        seq![order[code[0] as int]] + mtf_decode_seq(
            mtf_move(order, code[0] as int),
            code.drop_first(),
        )
    }
}

/// The list after `code` has been decoded starting from `order`.
pub open spec fn mtf_decode_order(order: Seq<u8>, code: Seq<u8>) -> Seq<u8>
    decreases code.len(),
{
    if code.len() == 0 {
        order
    } else {
        mtf_decode_order(mtf_move(order, code[0] as int), code.drop_first())
    }
}

/// In a list without duplicates, the position of the element at `i` is `i`.
pub proof fn lemma_index_of_no_dup(order: Seq<u8>, i: int)
    requires
        order.no_duplicates(),
        0 <= i < order.len(),
    ensures
        order.index_of(order[i]) == i,
{
    assert(order.contains(order[i]));
    let k = order.index_of(order[i]);
    assert(0 <= k < order.len() && order[k] == order[i]);
}

/// Moving any position to the front keeps a full alphabet list.
pub proof fn lemma_mtf_move_keeps_alphabet(order: Seq<u8>, index: int)
    requires
        is_alphabet_order(order),
        0 <= index < 256,
    ensures
        is_alphabet_order(mtf_move(order, index)),
{
    let m = mtf_move(order, index);
    assert(m.len() == 256);
    assert forall|a: int, b: int| 0 <= a < b < 256 implies m[a] != m[b] by {
        let oa = if a == 0 { index } else if a <= index { a - 1 } else { a };
        let ob = if b == 0 { index } else if b <= index { b - 1 } else { b };
        assert(m[a] == order[oa]);
        assert(m[b] == order[ob]);
        assert(oa != ob);
    }
    assert forall|s: u8| #[trigger] m.contains(s) by {
        assert(order.contains(s));
        let k = choose|k: int| 0 <= k < 256 && order[k] == s;
        let mk = if k == index { 0 } else if k < index { k + 1 } else { k };
        assert(m[mk] == s);
    }
}

/// An encoder and a decoder holding the same full list stay in step: the
/// position of `s` (what `Alphabet::index_of` returns) is one that
/// `Alphabet::symbol_of` maps back to `s`, and both then move the same
/// position to the front, leaving a full list.
pub proof fn lemma_alphabet_in_step(order: Seq<u8>, s: u8)
    requires
        is_alphabet_order(order),
    ensures
        0 <= order.index_of(s) < 256,
        order[order.index_of(s)] == s,
        is_alphabet_order(mtf_move(order, order.index_of(s))),
{
    assert(order.contains(s));
    lemma_mtf_move_keeps_alphabet(order, order.index_of(s));
}

/// Moving position `index` to the front: the symbol there comes first, the
/// symbols before it each move one place back, and those after it stay.
pub proof fn lemma_move_to_front_shape(order: Seq<u8>, index: int)
    requires
        0 <= index < order.len(),
    ensures
        mtf_move(order, index).len() == order.len(),
        mtf_move(order, index)[0] == order[index],
        forall|i: int| 0 <= i < index ==> #[trigger] mtf_move(order, index)[i + 1] == order[i],
        forall|i: int| index < i < order.len() ==> #[trigger] mtf_move(order, index)[i] == order[i],
{
    let m = mtf_move(order, index);
    assert forall|i: int| 0 <= i < index implies #[trigger] m[i + 1] == order[i] by {
        assert(m[i + 1] == order.take(index)[i]);
    }
    assert forall|i: int| index < i < order.len() implies #[trigger] m[i] == order[i] by {
        assert(m[i] == order.skip(index + 1)[i - index - 1]);
    }
}

/// A symbol's code is its position in the list, and a symbol coded right
/// after itself is coded 0: it stands at the front once it has been coded.
pub proof fn lemma_mtf_code_positions(order: Seq<u8>, s: u8, word: Seq<u8>)
    requires
        is_alphabet_order(order),
    ensures
        order[mtf_encode_seq(order, seq![s] + word)[0] as int] == s,
        mtf_encode_seq(order, seq![s, s] + word)[1] == 0,
{
    lemma_alphabet_in_step(order, s);
    let i = order.index_of(s);
    let m = mtf_move(order, i);
    lemma_move_to_front_shape(order, i);
    lemma_index_of_no_dup(m, 0);
    let w1 = seq![s] + word;
    assert(w1[0] == s);
    assert(w1.drop_first() =~= word);
    let w2 = seq![s, s] + word;
    assert(w2[0] == s);
    assert(w2.drop_first() =~= seq![s] + word);
    assert((seq![s] + word)[0] == s);
    assert(mtf_encode_seq(m, seq![s] + word)[0] == m.index_of(s) as u8);
}

/// The ordered list of symbols shared by the encoder and the decoder.
pub struct Alphabet {
    index_of_symbol: [usize; ALPHABET_SIZE],
    symbol_at_index: [u8; ALPHABET_SIZE],
}

impl View for Alphabet {
    type V = Seq<u8>;

    closed spec fn view(&self) -> Seq<u8> {
        self.symbol_at_index@
    }
}

impl Alphabet {
    /// The two tables are inverse to each other.
    #[verifier::type_invariant]
    closed spec fn well_formed(self) -> bool {
        &&& forall|j: int|
            0 <= j < 256 ==> self.index_of_symbol@[#[trigger] self.symbol_at_index@[j] as int] == j
        &&& forall|s: u8|
            #![trigger self.index_of_symbol@[s as int]]
            self.index_of_symbol@[s as int] < 256 && self.symbol_at_index@[self.index_of_symbol@[s
                as int] as int] == s
    }

    proof fn lemma_well_formed_order(self)
        requires
            self.well_formed(),
        ensures
            is_alphabet_order(self@),
    {
        let o = self.symbol_at_index@;
        assert forall|a: int, b: int| 0 <= a < o.len() && 0 <= b < o.len() && a != b implies o[a]
            != o[b] by {
            assert(self.index_of_symbol@[o[a] as int] == a);
            assert(self.index_of_symbol@[o[b] as int] == b);
        }
        assert forall|s: u8| #[trigger] o.contains(s) by {
            let k = self.index_of_symbol@[s as int] as int;
            assert(o[k] == s);
        }
    }

    /// Moves the symbol at position `index` (which is `symbol`) to the front.
    pub fn update_alpha(&mut self, index: u8, symbol: u8)
        requires
            old(self)@[index as int] == symbol,
        ensures
            final(self)@ == mtf_move(old(self)@, index as int),
            is_alphabet_order(final(self)@),
    {
        proof {
            use_type_invariant(&*self);
        }
        let ghost o = self.symbol_at_index@;
        let ghost oi = self.index_of_symbol@;
        let mut idx = self.index_of_symbol;
        let mut sym = self.symbol_at_index;
        let mut i: usize = index as usize;
        while i > 0
            invariant
                i <= index,
                o.len() == 256,
                oi.len() == 256,
                o[index as int] == symbol,
                forall|j: int| 0 <= j < 256 ==> oi[#[trigger] o[j] as int] == j,
                forall|s: u8|
                    #![trigger oi[s as int]]
                    oi[s as int] < 256 && o[oi[s as int] as int] == s,
                forall|j: int| 0 <= j <= i ==> #[trigger] sym@[j] == o[j],
                forall|j: int| i < j <= index ==> #[trigger] sym@[j] == o[j - 1],
                forall|j: int| index < j < 256 ==> #[trigger] sym@[j] == o[j],
                forall|j: int|
                    0 <= j < 256 ==> #[trigger] idx@[o[j] as int] == if i <= j < index {
                        j + 1
                    } else {
                        j
                    },
            decreases i,
        {
            i = i - 1;
            let s = sym[i];
            assert(s == o[i as int]);
            assert(idx@[s as int] == i);
            idx[s as usize] = idx[s as usize] + 1;
            sym[i + 1] = s;
            assert forall|j: int| 0 <= j < 256 implies #[trigger] idx@[o[j] as int] == if i <= j
                < index {
                j + 1
            } else {
                j
            } by {
                if j != i {
                    assert(o[j] != o[i as int]) by {
                        assert(oi[o[j] as int] == j);
                        assert(oi[o[i as int] as int] == i);
                    }
                }
            }
        }
        idx[symbol as usize] = 0;
        sym[0] = symbol;
        let ghost m = mtf_move(o, index as int);
        assert(sym@ =~= m) by {
            assert forall|j: int| 0 <= j < 256 implies sym@[j] == m[j] by {
                if j == 0 {
                } else if j <= index {
                } else {
                }
            }
        }
        assert forall|s: u8|
            #![trigger idx@[s as int]]
            idx@[s as int] < 256 && sym@[idx@[s as int] as int] == s by {
            let k = oi[s as int] as int;
            assert(o[k] == s);
            if s != symbol {
                assert(k != index);
            }
        }
        assert forall|j: int| 0 <= j < 256 implies idx@[#[trigger] sym@[j] as int] == j by {
            if j == 0 {
            } else if j <= index {
                assert(sym@[j] == o[j - 1]);
                assert(o[j - 1] != symbol) by {
                    assert(oi[o[j - 1] as int] == j - 1);
                }
            } else {
                assert(o[j] != symbol) by {
                    assert(oi[o[j] as int] == j);
                }
            }
        }
        *self = Alphabet { index_of_symbol: idx, symbol_at_index: sym };
        proof {
            self.lemma_well_formed_order();
        }
    }

    /// Returns the current position of `symbol` and moves it to the front.
    pub fn index_of(&mut self, symbol: u8) -> (index: u8)
        ensures
            index as int == old(self)@.index_of(symbol),
            old(self)@[index as int] == symbol,
            final(self)@ == mtf_move(old(self)@, index as int),
            is_alphabet_order(final(self)@),
    {
        proof {
            use_type_invariant(&*self);
            self.lemma_well_formed_order();
        }
        let position = self.index_of_symbol[symbol as usize];
        let index = position as u8;
        proof {
            lemma_index_of_no_dup(self@, position as int);
        }
        self.update_alpha(index, symbol);
        index
    }

    /// Returns the symbol at position `index` and moves it to the front.
    pub fn symbol_of(&mut self, index: u8) -> (symbol: u8)
        ensures
            symbol == old(self)@[index as int],
            final(self)@ == mtf_move(old(self)@, index as int),
            is_alphabet_order(final(self)@),
    {
        proof {
            use_type_invariant(&*self);
        }
        let symbol = self.symbol_at_index[index as usize];
        self.update_alpha(index, symbol);
        symbol
    }
}

impl Default for Alphabet {
    fn default() -> (alphabet: Self)
        ensures
            alphabet@ == identity_order(),
    {
        let mut idx = [0usize; ALPHABET_SIZE];
        let mut sym = [0u8; ALPHABET_SIZE];
        let mut i: usize = 0;
        while i < ALPHABET_SIZE
            invariant
                i <= 256,
                forall|j: int| 0 <= j < i ==> #[trigger] idx@[j] == j,
                forall|j: int| 0 <= j < i ==> #[trigger] sym@[j] == j,
            decreases 256 - i,
        {
            idx[i] = i;
            sym[i] = i as u8;
            i = i + 1;
        }
        assert(sym@ =~= identity_order());
        Alphabet { index_of_symbol: idx, symbol_at_index: sym }
    }
}

/// Encoder side of the transform.
pub struct MoveToFrontEncoder {
    pub(crate) alphabet: Alphabet,
}

impl View for MoveToFrontEncoder {
    type V = Seq<u8>;

    closed spec fn view(&self) -> Seq<u8> {
        self.alphabet@
    }
}

impl Default for MoveToFrontEncoder {
    fn default() -> (encoder: Self)
        ensures
            encoder@ == identity_order(),
    {
        MoveToFrontEncoder { alphabet: Alphabet::default() }
    }
}

impl MoveToFrontEncoder {
    /// Replaces every symbol of `word` by its position in the list, moving it
    /// to the front each time; the list carries over to the next call.
    pub fn encode(&mut self, word: &[u8]) -> (code: Vec<u8>)
        ensures
            code@ == mtf_encode_seq(old(self)@, word@),
            final(self)@ == mtf_encode_order(old(self)@, word@),
            is_alphabet_order(final(self)@),
    {
        proof {
            use_type_invariant(&self.alphabet);
            self.alphabet.lemma_well_formed_order();
        }
        let ghost start = self@;
        let mut code: Vec<u8> = Vec::new();
        let mut i: usize = 0;
        assert(word@.skip(0) =~= word@);
        while i < word.len()
            invariant
                i <= word@.len(),
                is_alphabet_order(self@),
                code@ + mtf_encode_seq(self@, word@.skip(i as int)) == mtf_encode_seq(start, word@),
                mtf_encode_order(self@, word@.skip(i as int)) == mtf_encode_order(start, word@),
            decreases word@.len() - i,
        {
            let ghost before = self@;
            let index = self.alphabet.index_of(word[i]);
            assert(word@.skip(i as int).drop_first() =~= word@.skip(i + 1));
            assert(word@.skip(i as int)[0] == word@[i as int]);
            code.push(index);
            assert(code@ + mtf_encode_seq(self@, word@.skip(i + 1)) =~= code@.drop_last() + (seq![
                index,
            ] + mtf_encode_seq(self@, word@.skip(i + 1))));
            i = i + 1;
        }
        assert(word@.skip(i as int) =~= Seq::<u8>::empty());
        assert(code@ + Seq::<u8>::empty() =~= code@);
        code
    }
}

/// Decoder side of the transform.
pub struct MoveToFrontDecoder {
    pub(crate) alphabet: Alphabet,
}

impl View for MoveToFrontDecoder {
    type V = Seq<u8>;

    closed spec fn view(&self) -> Seq<u8> {
        self.alphabet@
    }
}

impl Default for MoveToFrontDecoder {
    fn default() -> (decoder: Self)
        ensures
            decoder@ == identity_order(),
    {
        MoveToFrontDecoder { alphabet: Alphabet::default() }
    }
}

impl MoveToFrontDecoder {
    /// Replaces every position of `code` by the symbol found there, moving it
    /// to the front each time; the list carries over to the next call.
    pub fn decode(&mut self, code: &[u8]) -> (word: Vec<u8>)
        ensures
            word@ == mtf_decode_seq(old(self)@, code@),
            final(self)@ == mtf_decode_order(old(self)@, code@),
            is_alphabet_order(final(self)@),
    {
        proof {
            use_type_invariant(&self.alphabet);
            self.alphabet.lemma_well_formed_order();
        }
        let ghost start = self@;
        let mut word: Vec<u8> = Vec::new();
        let mut i: usize = 0;
        assert(code@.skip(0) =~= code@);
        while i < code.len()
            invariant
                i <= code@.len(),
                is_alphabet_order(self@),
                word@ + mtf_decode_seq(self@, code@.skip(i as int)) == mtf_decode_seq(start, code@),
                mtf_decode_order(self@, code@.skip(i as int)) == mtf_decode_order(start, code@),
            decreases code@.len() - i,
        {
            let symbol = self.alphabet.symbol_of(code[i]);
            assert(code@.skip(i as int).drop_first() =~= code@.skip(i + 1));
            assert(code@.skip(i as int)[0] == code@[i as int]);
            word.push(symbol);
            assert(word@ + mtf_decode_seq(self@, code@.skip(i + 1)) =~= word@.drop_last() + (seq![
                symbol,
            ] + mtf_decode_seq(self@, code@.skip(i + 1))));
            i = i + 1;
        }
        assert(code@.skip(i as int) =~= Seq::<u8>::empty());
        assert(word@ + Seq::<u8>::empty() =~= word@);
        word
    }
}

/// Decoding what was encoded from the same list gives back the word, and
/// both sides end with the same list.
pub proof fn lemma_mtf_roundtrip(order: Seq<u8>, word: Seq<u8>)
    requires
        is_alphabet_order(order),
    ensures
        mtf_decode_seq(order, mtf_encode_seq(order, word)) == word,
        mtf_decode_order(order, mtf_encode_seq(order, word)) == mtf_encode_order(order, word),
    decreases word.len(),
{
    if word.len() > 0 {
        let i = order.index_of(word[0]);
        assert(order.contains(word[0]));
        assert(0 <= i < 256 && order[i] == word[0]);
        let code = mtf_encode_seq(order, word);
        let rest = mtf_encode_seq(mtf_move(order, i), word.drop_first());
        assert(code[0] == i as u8);
        assert(code.drop_first() =~= rest);
        lemma_mtf_move_keeps_alphabet(order, i);
        lemma_mtf_roundtrip(mtf_move(order, i), word.drop_first());
        assert(word =~= seq![word[0]] + word.drop_first());
    }
}

/// Encoding a word in two parts, with the list carried over, gives the same
/// code and the same final list as encoding it in one call.
pub proof fn lemma_mtf_encode_in_parts(order: Seq<u8>, a: Seq<u8>, b: Seq<u8>)
    ensures
        mtf_encode_seq(order, a + b) == mtf_encode_seq(order, a) + mtf_encode_seq(
            mtf_encode_order(order, a),
            b,
        ),
        mtf_encode_order(order, a + b) == mtf_encode_order(mtf_encode_order(order, a), b),
    decreases a.len(),
{
    if a.len() == 0 {
        assert(a + b =~= b);
    } else {
        let i = order.index_of(a[0]);
        assert((a + b)[0] == a[0]);
        assert((a + b).drop_first() =~= a.drop_first() + b);
        lemma_mtf_encode_in_parts(mtf_move(order, i), a.drop_first(), b);
        assert(mtf_encode_seq(order, a + b) =~= mtf_encode_seq(order, a) + mtf_encode_seq(
            mtf_encode_order(order, a),
            b,
        ));
    }
}

/// Decoding a code in two parts, with the list carried over, gives the same
/// word and the same final list as decoding it in one call.
pub proof fn lemma_mtf_decode_in_parts(order: Seq<u8>, a: Seq<u8>, b: Seq<u8>)
    ensures
        mtf_decode_seq(order, a + b) == mtf_decode_seq(order, a) + mtf_decode_seq(
            mtf_decode_order(order, a),
            b,
        ),
        mtf_decode_order(order, a + b) == mtf_decode_order(mtf_decode_order(order, a), b),
    decreases a.len(),
{
    if a.len() == 0 {
        assert(a + b =~= b);
    } else {
        assert((a + b)[0] == a[0]);
        assert((a + b).drop_first() =~= a.drop_first() + b);
        lemma_mtf_decode_in_parts(mtf_move(order, a[0] as int), a.drop_first(), b);
        assert(mtf_decode_seq(order, a + b) =~= mtf_decode_seq(order, a) + mtf_decode_seq(
            mtf_decode_order(order, a),
            b,
        ));
    }
}

/// A fresh list holds every byte once.
pub proof fn lemma_identity_order_is_alphabet()
    ensures
        is_alphabet_order(identity_order()),
{
    let o = identity_order();
    assert forall|s: u8| #[trigger] o.contains(s) by {
        assert(o[s as int] == s);
    }
}

} // verus!
