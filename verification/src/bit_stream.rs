//! Bit-level writing and reading of byte buffers.
//!
//! Bits are numbered from the least significant bit of each byte: bit `i` of
//! a buffer is bit `i % 8` of byte `i / 8`. The writer keeps the contents of
//! the output as bytes, the reader the contents of its input; moving them to
//! and from files is left to the caller.
use vstd::prelude::*;

verus! {

/// Bit `k` (0 = least significant) of `b`.
pub open spec fn get_bit(b: u8, k: int) -> bool {
    (b >> (k as u8)) & 1u8 == 1u8
}

/// Bit `i` of a byte buffer.
pub open spec fn bit_at(bytes: Seq<u8>, i: int) -> bool {
    get_bit(bytes[i / 8], i % 8)
}

/// The first `n` bits of `bytes`.
pub open spec fn bits_of(bytes: Seq<u8>, n: int) -> Seq<bool> {
    Seq::new(n as nat, |i: int| bit_at(bytes, i))
}

/// Number of bytes needed for `n` bits.
pub open spec fn bytes_for(n: int) -> int {
    (n + 7) / 8
}

/// `bytes` holds exactly `bits` followed by zero bits up to a whole byte.
pub open spec fn is_packing(bytes: Seq<u8>, bits: Seq<bool>) -> bool {
    &&& bytes.len() == bytes_for(bits.len() as int)
    &&& forall|i: int| 0 <= i < bits.len() ==> #[trigger] bit_at(bytes, i) == bits[i]
    &&& forall|i: int| bits.len() <= i < 8 * bytes.len() ==> !#[trigger] bit_at(bytes, i)
}

/// `new_file` is `old_file` with `buf` written from byte `start` on; a gap
/// between the old end and `start` is filled with zeros.
pub open spec fn overwrites(old_file: Seq<u8>, new_file: Seq<u8>, start: int, buf: Seq<u8>) -> bool {
    &&& new_file.len() == if old_file.len() > start + buf.len() {
        old_file.len() as int
    } else {
        start + buf.len()
    }
    &&& forall|k: int|
        0 <= k < new_file.len() ==> #[trigger] new_file[k] == if start <= k < start + buf.len() {
            buf[k - start]
        } else if k < old_file.len() {
            old_file[k]
        } else {
            0u8
        }
}

/// The first `n` bytes of `file`, with zeros past its end.
pub open spec fn zero_ext(file: Seq<u8>, n: int) -> Seq<u8> {
    Seq::new(n as nat, |k: int| if k < file.len() { file[k] } else { 0u8 })
}

/// Writing the packing of `all` at byte `bw` keeps the bits before it and
/// puts the whole bytes of `all` after them.
pub proof fn lemma_stream_after_write(f: Seq<u8>, f2: Seq<u8>, bw: int, buf: Seq<u8>, all: Seq<bool>)
    requires
        bw >= 0,
        is_packing(buf, all),
        overwrites(f, f2, bw, buf),
    ensures
        bits_of(zero_ext(f2, bw + all.len() / 8), 8 * (bw + all.len() / 8)) == bits_of(
            zero_ext(f, bw),
            8 * bw,
        ) + all.take((8 * (all.len() / 8)) as int),
{
    let n2 = bw + all.len() / 8;
    let lhs = bits_of(zero_ext(f2, n2), 8 * n2);
    let rhs = bits_of(zero_ext(f, bw), 8 * bw) + all.take((8 * (all.len() / 8)) as int);
    assert forall|i: int| 0 <= i < 8 * n2 implies lhs[i] == rhs[i] by {
        let k = i / 8;
        assert(k < f2.len());
        if k < bw {
            assert(zero_ext(f2, n2)[k] == zero_ext(f, bw)[k]);
        } else {
            assert(f2[k] == buf[k - bw]);
            assert(i - 8 * bw < all.len());
            assert((i - 8 * bw) / 8 == k - bw);
            assert((i - 8 * bw) % 8 == i % 8);
            assert(bit_at(buf, i - 8 * bw) == all[i - 8 * bw]);
        }
    }
    assert(lhs =~= rhs);
}

/// Writing whole bytes inside the written part replaces their bits.
pub proof fn lemma_stream_after_overwrite(f: Seq<u8>, f2: Seq<u8>, bw: int, start: int, bytes: Seq<u8>)
    requires
        0 <= start,
        start + bytes.len() <= bw,
        overwrites(f, f2, start, bytes),
    ensures
        bits_of(zero_ext(f2, bw), 8 * bw) == bits_of(zero_ext(f, bw), 8 * bw).take(8 * start)
            + bits_of(bytes, (8 * bytes.len()) as int) + bits_of(zero_ext(f, bw), 8 * bw).skip(
            8 * (start + bytes.len()),
        ),
{
    let old_bits = bits_of(zero_ext(f, bw), 8 * bw);
    let lhs = bits_of(zero_ext(f2, bw), 8 * bw);
    let rhs = old_bits.take(8 * start) + bits_of(bytes, (8 * bytes.len()) as int) + old_bits.skip(
        8 * (start + bytes.len()),
    );
    assert forall|i: int| 0 <= i < 8 * bw implies lhs[i] == rhs[i] by {
        let k = i / 8;
        if start <= k < start + bytes.len() {
            assert((i - 8 * start) / 8 == k - start);
            assert((i - 8 * start) % 8 == i % 8);
        }
    }
    assert(lhs =~= rhs);
}

proof fn lemma_byte_from_bits(x: u8, y: u8)
    requires
        forall|j: int| 0 <= j < 8 ==> #[trigger] get_bit(x, j) == get_bit(y, j),
    ensures
        x == y,
{
    assert(get_bit(x, 0) == get_bit(y, 0));
    assert(get_bit(x, 1) == get_bit(y, 1));
    assert(get_bit(x, 2) == get_bit(y, 2));
    assert(get_bit(x, 3) == get_bit(y, 3));
    assert(get_bit(x, 4) == get_bit(y, 4));
    assert(get_bit(x, 5) == get_bit(y, 5));
    assert(get_bit(x, 6) == get_bit(y, 6));
    assert(get_bit(x, 7) == get_bit(y, 7));
    assert(x == y) by (bit_vector)
        requires
            ((x >> 0u8) & 1u8 == 1u8) == ((y >> 0u8) & 1u8 == 1u8),
            ((x >> 1u8) & 1u8 == 1u8) == ((y >> 1u8) & 1u8 == 1u8),
            ((x >> 2u8) & 1u8 == 1u8) == ((y >> 2u8) & 1u8 == 1u8),
            ((x >> 3u8) & 1u8 == 1u8) == ((y >> 3u8) & 1u8 == 1u8),
            ((x >> 4u8) & 1u8 == 1u8) == ((y >> 4u8) & 1u8 == 1u8),
            ((x >> 5u8) & 1u8 == 1u8) == ((y >> 5u8) & 1u8 == 1u8),
            ((x >> 6u8) & 1u8 == 1u8) == ((y >> 6u8) & 1u8 == 1u8),
            ((x >> 7u8) & 1u8 == 1u8) == ((y >> 7u8) & 1u8 == 1u8),
    ;
}

/// Bits determine bytes: two buffers of the same length with the same bits are equal.
pub proof fn lemma_bits_determine_bytes(a: Seq<u8>, b: Seq<u8>)
    requires
        a.len() == b.len(),
        forall|i: int| 0 <= i < 8 * a.len() ==> #[trigger] bit_at(a, i) == bit_at(b, i),
    ensures
        a == b,
{
    assert forall|k: int| 0 <= k < a.len() implies a[k] == b[k] by {
        assert forall|j: int| 0 <= j < 8 implies #[trigger] get_bit(a[k], j) == get_bit(b[k], j) by {
            assert(bit_at(a, 8 * k + j) == bit_at(b, 8 * k + j));
            assert((8 * k + j) / 8 == k);
            assert((8 * k + j) % 8 == j);
        }
        lemma_byte_from_bits(a[k], b[k]);
    }
    assert(a =~= b);
}

/// A sequence of bits has a single packing.
pub proof fn lemma_packing_unique(a: Seq<u8>, b: Seq<u8>, bits: Seq<bool>)
    requires
        is_packing(a, bits),
        is_packing(b, bits),
    ensures
        a == b,
{
    assert forall|i: int| 0 <= i < 8 * a.len() implies #[trigger] bit_at(a, i) == bit_at(b, i) by {
        if i < bits.len() {
            assert(bit_at(a, i) == bits[i]);
            assert(bit_at(b, i) == bits[i]);
        }
    }
    lemma_bits_determine_bytes(a, b);
}

/// The bits of whole bytes `a..b` of a buffer are packed by those bytes.
pub proof fn lemma_aligned_packing(c: Seq<u8>, a: int, b: int)
    requires
        0 <= a <= b <= c.len(),
    ensures
        is_packing(c.subrange(a, b), bits_of(c, 8 * b).skip(8 * a)),
{
    let sub = c.subrange(a, b);
    let bits = bits_of(c, 8 * b).skip(8 * a);
    assert forall|i: int| 0 <= i < bits.len() implies #[trigger] bit_at(sub, i) == bits[i] by {
        assert((8 * a + i) / 8 == a + i / 8);
        assert((8 * a + i) % 8 == i % 8);
    }
}

/// The bytes that pack `bits`.
pub open spec fn packed(bits: Seq<bool>) -> Seq<u8> {
    choose|b: Seq<u8>| is_packing(b, bits)
}

/// The packing of some bits is the one found by `packed`.
pub proof fn lemma_packed(b: Seq<u8>, bits: Seq<bool>)
    requires
        is_packing(b, bits),
    ensures
        packed(bits) == b,
{
    lemma_packing_unique(packed(bits), b, bits);
}

/// The bits of `a + b` are those of `a`, then those of `b`.
pub proof fn lemma_bits_of_concat(a: Seq<u8>, b: Seq<u8>)
    ensures
        bits_of(a + b, (8 * (a.len() + b.len())) as int) == bits_of(a, (8 * a.len()) as int) + bits_of(b, (8 * b.len()) as int),
{
    let l = bits_of(a + b, (8 * (a.len() + b.len())) as int);
    let r = bits_of(a, (8 * a.len()) as int) + bits_of(b, (8 * b.len()) as int);
    assert forall|i: int| 0 <= i < l.len() implies l[i] == r[i] by {
        if i >= 8 * a.len() {
            assert((i - (8 * a.len()) as int) / 8 == i / 8 - a.len());
            assert((i - (8 * a.len()) as int) % 8 == i % 8);
        }
    }
    assert(l =~= r);
}

/// Whole bytes followed by a packing pack their bits followed by the packed bits.
pub proof fn lemma_packing_concat(a: Seq<u8>, b: Seq<u8>, bs: Seq<bool>)
    requires
        is_packing(b, bs),
    ensures
        is_packing(a + b, bits_of(a, (8 * a.len()) as int) + bs),
{
    let all = bits_of(a, (8 * a.len()) as int) + bs;
    let c = a + b;
    assert forall|i: int| 0 <= i < all.len() implies #[trigger] bit_at(c, i) == all[i] by {
        if i >= 8 * a.len() {
            assert((i - (8 * a.len()) as int) / 8 == i / 8 - a.len());
            assert((i - (8 * a.len()) as int) % 8 == i % 8);
            assert(bit_at(b, i - (8 * a.len()) as int) == bs[i - 8 * a.len()]);
        }
    }
    assert forall|i: int| all.len() <= i < 8 * c.len() implies !#[trigger] bit_at(c, i) by {
        assert((i - (8 * a.len()) as int) / 8 == i / 8 - a.len());
        assert((i - (8 * a.len()) as int) % 8 == i % 8);
        assert(!bit_at(b, i - (8 * a.len()) as int));
    }
}

/// A packing of bits that start with `m` whole bytes' worth splits there.
pub proof fn lemma_packing_split(c: Seq<u8>, pre: Seq<bool>, bs: Seq<bool>, m: int)
    requires
        is_packing(c, pre + bs),
        pre.len() == 8 * m,
        0 <= m,
    ensures
        is_packing(c.skip(m), bs),
        m <= c.len(),
        bits_of(c.take(m), 8 * m) == pre,
{
    let all = pre + bs;
    let t = c.skip(m);
    assert forall|i: int| 0 <= i < bs.len() implies #[trigger] bit_at(t, i) == bs[i] by {
        assert((8 * m + i) / 8 == m + i / 8);
        assert((8 * m + i) % 8 == i % 8);
        assert(bit_at(c, 8 * m + i) == all[8 * m + i]);
    }
    assert forall|i: int| bs.len() <= i < 8 * t.len() implies !#[trigger] bit_at(t, i) by {
        assert((8 * m + i) / 8 == m + i / 8);
        assert((8 * m + i) % 8 == i % 8);
        assert(!bit_at(c, 8 * m + i));
    }
    let h = c.take(m);
    assert forall|i: int| 0 <= i < 8 * m implies bits_of(h, 8 * m)[i] == pre[i] by {
        assert(bit_at(c, i) == all[i]);
    }
    assert(bits_of(h, 8 * m) =~= pre);
}

/// Bits read back from a packing are the bits packed: reading `n` bits at
/// bit `p` of bytes that pack `s` gives bits `p..p + n` of `s`.
pub proof fn lemma_read_back(c: Seq<u8>, s: Seq<bool>, p: int, n: int)
    requires
        is_packing(c, s),
        0 <= p,
        0 <= n,
        p + n <= s.len(),
    ensures
        bits_of(c, p + n).skip(p) == s.subrange(p, p + n),
{
    assert(bits_of(c, p + n).skip(p) =~= s.subrange(p, p + n));
}

/// The byte whose bit `j` is `bj`.
pub open spec fn byte_of_bits(b0: bool, b1: bool, b2: bool, b3: bool, b4: bool, b5: bool, b6: bool, b7: bool) -> u8 {
    (if b0 { 1u8 } else { 0u8 }) | (if b1 { 2u8 } else { 0u8 }) | (if b2 { 4u8 } else { 0u8 }) | (if b3 {
        8u8
    } else {
        0u8
    }) | (if b4 { 16u8 } else { 0u8 }) | (if b5 { 32u8 } else { 0u8 }) | (if b6 { 64u8 } else { 0u8 }) | (
    if b7 {
        128u8
    } else {
        0u8
    })
}

/// Bit `i` of `bits`, or zero past its end.
pub open spec fn bit_or_zero(bits: Seq<bool>, i: int) -> bool {
    0 <= i < bits.len() && bits[i]
}

proof fn lemma_byte_of_bits(b0: bool, b1: bool, b2: bool, b3: bool, b4: bool, b5: bool, b6: bool, b7: bool)
    ensures
        get_bit(byte_of_bits(b0, b1, b2, b3, b4, b5, b6, b7), 0) == b0,
        get_bit(byte_of_bits(b0, b1, b2, b3, b4, b5, b6, b7), 1) == b1,
        get_bit(byte_of_bits(b0, b1, b2, b3, b4, b5, b6, b7), 2) == b2,
        get_bit(byte_of_bits(b0, b1, b2, b3, b4, b5, b6, b7), 3) == b3,
        get_bit(byte_of_bits(b0, b1, b2, b3, b4, b5, b6, b7), 4) == b4,
        get_bit(byte_of_bits(b0, b1, b2, b3, b4, b5, b6, b7), 5) == b5,
        get_bit(byte_of_bits(b0, b1, b2, b3, b4, b5, b6, b7), 6) == b6,
        get_bit(byte_of_bits(b0, b1, b2, b3, b4, b5, b6, b7), 7) == b7,
{
    let x = byte_of_bits(b0, b1, b2, b3, b4, b5, b6, b7);
    assert(((x >> 0u8) & 1u8 == 1u8) == b0 && ((x >> 1u8) & 1u8 == 1u8) == b1 && ((x >> 2u8) & 1u8 == 1u8)
        == b2 && ((x >> 3u8) & 1u8 == 1u8) == b3 && ((x >> 4u8) & 1u8 == 1u8) == b4 && ((x >> 5u8) & 1u8
        == 1u8) == b5 && ((x >> 6u8) & 1u8 == 1u8) == b6 && ((x >> 7u8) & 1u8 == 1u8) == b7) by (bit_vector)
        requires
            x == (if b0 { 1u8 } else { 0u8 }) | (if b1 { 2u8 } else { 0u8 }) | (if b2 { 4u8 } else { 0u8 })
                | (if b3 { 8u8 } else { 0u8 }) | (if b4 { 16u8 } else { 0u8 }) | (if b5 { 32u8 } else { 0u8 })
                | (if b6 { 64u8 } else { 0u8 }) | (if b7 { 128u8 } else { 0u8 }),
    ;
}

/// Every sequence of bits has a packing, and `packed` finds it.
pub proof fn lemma_packing_exists(bits: Seq<bool>)
    ensures
        is_packing(packed(bits), bits),
{
    let c = Seq::new(
        bytes_for(bits.len() as int) as nat,
        |k: int|
            byte_of_bits(
                bit_or_zero(bits, 8 * k),
                bit_or_zero(bits, 8 * k + 1),
                bit_or_zero(bits, 8 * k + 2),
                bit_or_zero(bits, 8 * k + 3),
                bit_or_zero(bits, 8 * k + 4),
                bit_or_zero(bits, 8 * k + 5),
                bit_or_zero(bits, 8 * k + 6),
                bit_or_zero(bits, 8 * k + 7),
            ),
    );
    assert forall|i: int| 0 <= i < 8 * c.len() implies #[trigger] bit_at(c, i) == bit_or_zero(bits, i) by {
        let k = i / 8;
        lemma_byte_of_bits(
            bit_or_zero(bits, 8 * k),
            bit_or_zero(bits, 8 * k + 1),
            bit_or_zero(bits, 8 * k + 2),
            bit_or_zero(bits, 8 * k + 3),
            bit_or_zero(bits, 8 * k + 4),
            bit_or_zero(bits, 8 * k + 5),
            bit_or_zero(bits, 8 * k + 6),
            bit_or_zero(bits, 8 * k + 7),
        );
        assert(i == 8 * k + i % 8);
    }
    assert(is_packing(c, bits));
    lemma_packed(c, bits);
}

/// Number of bits taken from a buffer of `len` bytes when `amount` are asked for.
pub open spec fn taken_bits(len: nat, amount: usize) -> int {
    if amount < len * 8 {
        amount as int
    } else {
        (len * 8) as int
    }
}

/// The low `n` bits of `b`.
pub open spec fn low_bits(b: u8, n: int) -> Seq<bool> {
    Seq::new(n as nat, |j: int| get_bit(b, j))
}

proof fn lemma_set_bit(b: u8, k: u8)
    requires
        k < 8,
        b < (1u8 << k),
    ensures
        forall|j: int| 0 <= j < 8 ==> #[trigger] get_bit(b | (1u8 << k), j) == (j == k as int || get_bit(b, j)),
        forall|j: int| k <= j < 8 ==> !#[trigger] get_bit(b, j),
        k < 7 ==> (b | (1u8 << k)) < (1u8 << ((k + 1) as u8)),
        k < 7 ==> b < (1u8 << ((k + 1) as u8)),
{
    assert(k < 7 ==> (b | (1u8 << k)) < (1u8 << ((k + 1) as u8)) && b < (1u8 << ((k + 1) as u8))) by (bit_vector)
        requires k < 8, b < (1u8 << k);
    assert forall|j: int| 0 <= j < 8 implies #[trigger] get_bit(b | (1u8 << k), j) == (j == k as int || get_bit(b, j)) by {
        let ju = j as u8;
        assert(((((b | (1u8 << k)) >> ju) & 1u8 == 1u8) == (ju == k || (b >> ju) & 1u8 == 1u8))) by (bit_vector)
            requires k < 8, ju < 8, b < (1u8 << k);
    }
    assert forall|j: int| k <= j < 8 implies !#[trigger] get_bit(b, j) by {
        let ju = j as u8;
        assert((b >> ju) & 1u8 != 1u8) by (bit_vector)
            requires k < 8, k <= ju, ju < 8, b < (1u8 << k);
    }
}

proof fn lemma_zero_bits()
    ensures
        forall|j: int| 0 <= j < 8 ==> !get_bit(0u8, j),
        forall|k: u8| k < 8 ==> 0u8 < (1u8 << k),
{
    assert(forall|j: u8| j < 8 ==> (0u8 >> j) & 1u8 != 1u8) by (bit_vector);
    assert(forall|k: u8| k < 8 ==> 0u8 < (1u8 << k)) by (bit_vector);
    assert forall|j: int| 0 <= j < 8 implies !get_bit(0u8, j) by {
        assert((0u8 >> (j as u8)) & 1u8 != 1u8);
    }
}

/// Writes bits into a byte buffer that stands for the contents of a file.
pub struct BitStreamWriter {
    pub(crate) file: Vec<u8>,
    pub(crate) bytes_written: usize,
    pub(crate) current_byte: u8,
    pub(crate) bit_count: usize,
}

impl BitStreamWriter {
    /// The partial byte holds only its `bit_count` low bits.
    #[verifier::type_invariant]
    spec fn well_formed(self) -> bool {
        &&& self.bit_count < 8
        &&& self.current_byte < (1u8 << (self.bit_count as u8))
    }

    /// Contents of the output.
    pub closed spec fn contents(self) -> Seq<u8> {
        self.file@
    }

    /// Number of whole bytes written (or skipped) so far.
    pub closed spec fn spec_bytes_written(self) -> int {
        self.bytes_written as int
    }

    /// Number of bits in the partial byte after the whole ones.
    pub closed spec fn spec_bit_count(self) -> int {
        self.bit_count as int
    }

    /// Bits of the partial byte.
    pub closed spec fn pending_bits(self) -> Seq<bool> {
        low_bits(self.current_byte, self.bit_count as int)
    }

    /// With no partial byte there are no pending bits.
    pub proof fn lemma_no_pending_bits(self)
        requires
            self.spec_bit_count() == 0,
        ensures
            self.pending_bits() == Seq::<bool>::empty(),
    {
        assert(self.pending_bits() =~= Seq::<bool>::empty());
    }

    /// The bits of the output up to the current position: the whole bytes
    /// before it (zero where the output has no byte yet), then the partial byte.
    pub open spec fn stream(self) -> Seq<bool> {
        bits_of(zero_ext(self.contents(), self.spec_bytes_written()), 8 * self.spec_bytes_written())
            + self.pending_bits()
    }

    /// The output bytes, zero-extended to the bytes the stream takes, hold
    /// exactly the bits of the stream.
    pub open spec fn packs_stream(self) -> bool {
        let n = bytes_for(self.stream().len() as int);
        self.contents().len() <= n && is_packing(zero_ext(self.contents(), n), self.stream())
    }

    /// The partial byte holds `bit_count` bits.
    pub proof fn lemma_pending_len(self)
        ensures
            self.pending_bits().len() == self.spec_bit_count(),
            self.stream().len() == 8 * self.spec_bytes_written() + self.spec_bit_count(),
    {
    }

    /// With no partial byte and no byte past the position, the output packs the stream.
    pub proof fn lemma_packs_whole_bytes(self)
        requires
            self.spec_bit_count() == 0,
            self.contents().len() <= self.spec_bytes_written(),
            self.spec_bytes_written() >= 0,
        ensures
            self.packs_stream(),
    {
        self.lemma_no_pending_bits();
        let bw = self.spec_bytes_written();
        assert(self.stream() =~= bits_of(zero_ext(self.contents(), bw), 8 * bw));
        assert(bytes_for(8 * bw) == bw);
    }

    /// A write keeps the output packing the stream, and leaves it exactly as
    /// long as the stream's bytes.
    pub proof fn lemma_packs_after_write(w: Self, w2: Self, d: Seq<bool>, buf: Seq<u8>)
        requires
            w.packs_stream(),
            w.spec_bit_count() < 8,
            w.spec_bytes_written() >= 0,
            w2.stream() == w.stream() + d,
            is_packing(buf, w.pending_bits() + d),
            overwrites(w.contents(), w2.contents(), w.spec_bytes_written(), buf),
        ensures
            w2.packs_stream(),
            w2.contents().len() == bytes_for(w2.stream().len() as int),
    {
        let s = w.stream();
        let s2 = w2.stream();
        let bw = w.spec_bytes_written();
        let p = w.pending_bits();
        let c = w.contents();
        let c2 = w2.contents();
        let n = bytes_for(s.len() as int);
        let n2 = bytes_for(s2.len() as int);
        assert(p.len() == w.spec_bit_count());
        assert(s.len() == 8 * bw + p.len());
        assert(n == bw + bytes_for(p.len() as int));
        assert(n2 == bw + bytes_for((p.len() + d.len()) as int));
        assert(c2.len() == n2);
        let z = zero_ext(c, n);
        let z2 = zero_ext(c2, n2);
        assert(z2 =~= c2);
        assert forall|i: int| 0 <= i < s2.len() implies #[trigger] bit_at(z2, i) == s2[i] by {
            let k = i / 8;
            if i < 8 * bw {
                assert(k < bw);
                assert(c2[k] == (if k < c.len() { c[k] } else { 0u8 }));
                assert(z[k] == c2[k]);
                assert(bit_at(z, i) == s[i]);
            } else {
                assert((i - 8 * bw) / 8 == k - bw);
                assert((i - 8 * bw) % 8 == i % 8);
                assert(c2[k] == buf[k - bw]);
                assert(bit_at(buf, i - 8 * bw) == (p + d)[i - 8 * bw]);
            }
        }
        assert forall|i: int| s2.len() <= i < 8 * z2.len() implies !#[trigger] bit_at(z2, i) by {
            let k = i / 8;
            assert((i - 8 * bw) / 8 == k - bw);
            assert((i - 8 * bw) % 8 == i % 8);
            assert(c2[k] == buf[k - bw]);
            assert(!bit_at(buf, i - 8 * bw));
        }
    }

    /// The output of a writer holds the bits written to it: its bytes, up to
    /// those the stream takes, pack the stream.
    pub proof fn lemma_output_holds_stream(self)
        requires
            self.packs_stream(),
            self.contents().len() == bytes_for(self.stream().len() as int),
        ensures
            is_packing(self.contents(), self.stream()),
    {
        assert(zero_ext(self.contents(), bytes_for(self.stream().len() as int)) =~= self.contents());
    }

    /// An empty output.
    pub fn new() -> (w: Self)
        ensures
            w.contents() == Seq::<u8>::empty(),
            w.spec_bytes_written() == 0,
            w.spec_bit_count() == 0,
            w.pending_bits() == Seq::<bool>::empty(),
    {
        proof {
            lemma_zero_bits();
        }
        let w = BitStreamWriter { file: Vec::new(), bytes_written: 0, current_byte: 0, bit_count: 0 };
        assert(w.pending_bits() =~= Seq::<bool>::empty());
        w
    }

    /// Appends the first `bits_amount` bits of `data` (no more than it holds)
    /// after the bits written so far. The partial last byte is written too,
    /// and is written again by the next call.
    #[verifier::spinoff_prover]
    #[verifier::rlimit(40)]
    pub fn write_bit_sequence(&mut self, data: &[u8], bits_amount: usize)
        requires
            data@.len() * 8 <= usize::MAX,
            old(self).spec_bytes_written() + bytes_for(
                old(self).spec_bit_count() + taken_bits(data@.len(), bits_amount),
            ) + 1 <= usize::MAX,
        ensures
            ({
                let all = old(self).pending_bits() + bits_of(data@, taken_bits(data@.len(), bits_amount));
                final(self).spec_bytes_written() == old(self).spec_bytes_written() + all.len() / 8
            }),
            ({
                let all = old(self).pending_bits() + bits_of(data@, taken_bits(data@.len(), bits_amount));
                final(self).spec_bit_count() == all.len() % 8
            }),
            ({
                let all = old(self).pending_bits() + bits_of(data@, taken_bits(data@.len(), bits_amount));
                final(self).pending_bits() == all.skip(all.len() - all.len() % 8)
            }),
            final(self).stream() == old(self).stream() + bits_of(data@, taken_bits(data@.len(), bits_amount)),
            exists|buf: Seq<u8>|
                is_packing(buf, old(self).pending_bits() + bits_of(data@, taken_bits(data@.len(), bits_amount))) && overwrites(
                    old(self).contents(),
                    final(self).contents(),
                    old(self).spec_bytes_written(),
                    buf,
                ),
    {
        proof {
            use_type_invariant(&*self);
        }
        let ghost pending = self.pending_bits();
        let to_take = if bits_amount < data.len() * 8 {
            bits_amount
        } else {
            data.len() * 8
        };
        let ghost all = pending + bits_of(data@, to_take as int);
        let mut current = self.current_byte;
        let mut count = self.bit_count;
        let ghost c0 = count as int;
        let mut buffer: Vec<u8> = Vec::new();
        let mut i: usize = 0;
        proof {
            lemma_zero_bits();
        }
        assert(forall|j: int| 0 <= j < c0 ==> #[trigger] get_bit(current, j) == all[j]);
        assert forall|j: int| c0 <= j < 8 implies !#[trigger] get_bit(current, j) by {
            lemma_set_bit(current, count as u8);
            assert(get_bit(current, (j as u8) as int) == ((j as u8) < count as u8 && get_bit(current, (j as u8) as int)));
        }
        while i < to_take
            invariant
                to_take <= data@.len() * 8,
                all == pending + bits_of(data@, to_take as int),
                pending.len() == c0,
                0 <= c0 < 8,
                i <= to_take,
                count < 8,
                current < (1u8 << (count as u8)),
                8 * buffer@.len() + count == c0 + i,
                forall|j: int|
                    0 <= j < 8 * buffer@.len() ==> #[trigger] bit_at(buffer@, j) == all[j],
                forall|j: int| 0 <= j < count ==> #[trigger] get_bit(current, j) == all[8 * buffer@.len() + j],
                forall|j: int| count <= j < 8 ==> !#[trigger] get_bit(current, j),
                self.bytes_written + bytes_for(c0 + to_take) + 1 <= usize::MAX,
            decreases to_take - i,
        {
            let src_byte = i / 8;
            let src_bit = i % 8;
            let d = data[src_byte];
            let sh = src_bit as u8;
            let bit = (d >> sh) & 1;
            assert(bit <= 1u8) by (bit_vector)
                requires
                    bit == (d >> sh) & 1u8,
            ;
            proof {
                lemma_zero_bits();
            }
            assert(all[c0 + i] == bit_at(data@, i as int));
            let ghost prev = current;
            proof {
                lemma_set_bit(current, count as u8);
            }
            assert(bit_at(data@, i as int) == (bit == 1u8));
            if bit != 0 {
                current = current | (1u8 << (count as u8));
            }
            assert forall|j: int| 0 <= j <= count implies #[trigger] get_bit(current, j) == all[8
                * buffer@.len() + j] by {
                if bit != 0 {
                    assert(get_bit(prev | (1u8 << (count as u8)), j) == (j == count as int || get_bit(prev, j)));
                }
            }
            assert forall|j: int| count < j < 8 implies !#[trigger] get_bit(current, j) by {
                if bit != 0 {
                    assert(get_bit(prev | (1u8 << (count as u8)), j) == (j == count as int || get_bit(prev, j)));
                }
            }
            count = count + 1;
            if count == 8 {
                let ghost before = buffer@;
                buffer.push(current);
                assert forall|j: int| 0 <= j < 8 * buffer@.len() implies #[trigger] bit_at(
                    buffer@,
                    j,
                ) == all[j] by {
                    if j >= 8 * before.len() {
                        assert(j / 8 == before.len());
                        assert(get_bit(current, j % 8) == all[8 * before.len() + j % 8]);
                    } else {
                        assert(bit_at(before, j) == all[j]);
                        assert(buffer@[j / 8] == before[j / 8]);
                    }
                }
                current = 0;
                count = 0;
            }
            i = i + 1;
        }
        let ghost whole = buffer@;
        let whole_len = buffer.len();
        if count != 0 {
            buffer.push(current);
        }
        let ghost total = c0 + to_take;
        assert(total / 8 == whole.len() && total % 8 == count);
        proof {
            lemma_zero_bits();
            let buf = buffer@;
            assert forall|j: int| 0 <= j < total implies #[trigger] bit_at(buf, j) == all[j] by {
                if j < 8 * whole.len() {
                    assert(bit_at(whole, j) == all[j]);
                    assert(buf[j / 8] == whole[j / 8]);
                } else {
                    assert(j / 8 == whole.len());
                    assert(get_bit(current, j % 8) == all[8 * whole.len() + j % 8]);
                }
            }
            assert forall|j: int| total <= j < 8 * buf.len() implies !#[trigger] bit_at(buf, j) by {
                assert(j / 8 == whole.len());
                assert(j % 8 >= count);
            }
            assert(is_packing(buf, all));
        }
        let ghost old_file = self.file@;
        let start = self.bytes_written;
        let mut file = Vec::new();
        std::mem::swap(&mut file, &mut self.file);
        let mut k: usize = 0;
        let blen = buffer.len();
        while file.len() < start
            invariant
                old_file.len() <= file@.len(),
                file@.len() <= start || file@.len() == old_file.len(),
                forall|m: int| 0 <= m < file@.len() ==> #[trigger] file@[m] == if m < old_file.len() {
                    old_file[m]
                } else {
                    0u8
                },
            decreases start - file@.len(),
        {
            file.push(0);
        }
        while k < blen
            invariant
                blen == buffer@.len(),
                k <= blen,
                start + blen + 1 <= usize::MAX,
                file@.len() == if old_file.len() > start + k { old_file.len() as int } else {
                    start + k
                },
                forall|m: int| 0 <= m < file@.len() ==> #[trigger] file@[m] == if start <= m < start + k {
                    buffer@[m - start]
                } else if m < old_file.len() {
                    old_file[m]
                } else {
                    0u8
                },
            decreases blen - k,
        {
            if start + k < file.len() {
                file.set(start + k, buffer[k]);
            } else {
                file.push(buffer[k]);
            }
            k = k + 1;
        }
        proof {
            assert(overwrites(old_file, file@, start as int, buffer@));
            lemma_set_bit(current, count as u8);
        }
        let pending_byte = if count != 0 { current } else { 0 };
        *self = BitStreamWriter {
            file,
            bytes_written: start + whole_len,
            current_byte: pending_byte,
            bit_count: count,
        };
        assert(is_packing(buffer@, all));
        assert(overwrites(old_file, self.contents(), start as int, buffer@));
        proof {
            lemma_stream_after_write(old_file, self.contents(), start as int, buffer@, all);
            assert(all =~= all.take(total - total % 8) + all.skip(total - total % 8));
        }
        assert(self.spec_bytes_written() == start + total / 8);
        assert(self.spec_bit_count() == total % 8);
        assert(self.pending_bits() =~= all.skip(total - total % 8)) by {
            assert forall|j: int| 0 <= j < count implies self.pending_bits()[j] == all.skip(total - total % 8)[j] by {
                assert(get_bit(current, j) == all[8 * whole.len() + j]);
            }
        }
    }

    /// Writes `bytes` at byte position `start`, leaving the bit position as it is.
    pub fn write_byte_sequence_unchecked_at(&mut self, bytes: &[u8], start: u64)
        requires
            start + bytes@.len() + 1 <= usize::MAX,
        ensures
            overwrites(old(self).contents(), final(self).contents(), start as int, bytes@),
            start + bytes@.len() <= old(self).spec_bytes_written() ==> final(self).stream() == old(
                self,
            ).stream().take(8 * start) + bits_of(bytes@, (8 * bytes@.len()) as int) + old(self).stream().skip(
                8 * (start + bytes@.len()),
            ),
            final(self).spec_bytes_written() == old(self).spec_bytes_written(),
            final(self).spec_bit_count() == old(self).spec_bit_count(),
            final(self).pending_bits() == old(self).pending_bits(),
    {
        proof {
            use_type_invariant(&*self);
        }
        let ghost old_file = self.file@;
        let start = start as usize;
        let mut file = Vec::new();
        std::mem::swap(&mut file, &mut self.file);
        let blen = bytes.len();
        while file.len() < start
            invariant
                old_file.len() <= file@.len(),
                file@.len() <= start || file@.len() == old_file.len(),
                forall|m: int| 0 <= m < file@.len() ==> #[trigger] file@[m] == if m < old_file.len() {
                    old_file[m]
                } else {
                    0u8
                },
            decreases start - file@.len(),
        {
            file.push(0);
        }
        let mut k: usize = 0;
        while k < blen
            invariant
                blen == bytes@.len(),
                k <= blen,
                start + blen + 1 <= usize::MAX,
                file@.len() == if old_file.len() > start + k { old_file.len() as int } else {
                    start + k
                },
                forall|m: int| 0 <= m < file@.len() ==> #[trigger] file@[m] == if start <= m < start + k {
                    bytes@[m - start]
                } else if m < old_file.len() {
                    old_file[m]
                } else {
                    0u8
                },
            decreases blen - k,
        {
            if start + k < file.len() {
                file.set(start + k, bytes[k]);
            } else {
                file.push(bytes[k]);
            }
            k = k + 1;
        }
        self.file = file;
        proof {
            let bw = self.bytes_written as int;
            if start + bytes@.len() <= bw {
                lemma_stream_after_overwrite(old_file, file@, bw, start as int, bytes@);
                let ob = bits_of(zero_ext(old_file, bw), 8 * bw);
                let p = self.pending_bits();
                assert((ob + p).take(8 * start) =~= ob.take(8 * start));
                assert((ob + p).skip(8 * (start + bytes@.len())) =~= ob.skip(8 * (start + bytes@.len())) + p);
            }
        }
    }

    /// Moves the byte position `amount` bytes on without writing.
    pub fn skip_bytes(&mut self, amount: usize)
        requires
            old(self).spec_bytes_written() + amount <= usize::MAX,
        ensures
            final(self).contents() == old(self).contents(),
            final(self).spec_bytes_written() == old(self).spec_bytes_written() + amount,
            final(self).spec_bit_count() == old(self).spec_bit_count(),
            final(self).pending_bits() == old(self).pending_bits(),
    {
        proof {
            use_type_invariant(&*self);
        }
        self.bytes_written = self.bytes_written + amount;
    }

    /// Number of bits in the partial last byte (from 0 to 7).
    pub fn excess(&self) -> (n: u8)
        ensures
            n == self.spec_bit_count(),
    {
        proof {
            use_type_invariant(self);
        }
        self.bit_count as u8
    }

    /// Number of whole bytes written (or skipped) so far.
    pub fn bytes_written(&self) -> (n: usize)
        ensures
            n == self.spec_bytes_written(),
    {
        self.bytes_written
    }

    /// Number of bits in the partial last byte.
    pub fn bit_count(&self) -> (n: usize)
        ensures
            n == self.spec_bit_count(),
            n < 8,
    {
        proof {
            use_type_invariant(self);
        }
        self.bit_count
    }

    /// The contents of the output.
    pub fn finish(self) -> (bytes: Vec<u8>)
        ensures
            bytes@ == self.contents(),
    {
        self.file
    }
}

proof fn lemma_or_bit(b: u8, k: u8)
    requires
        k < 8,
    ensures
        forall|j: int| 0 <= j < 8 ==> #[trigger] get_bit(b | (1u8 << k), j) == (j == k as int || get_bit(b, j)),
{
    assert forall|j: int| 0 <= j < 8 implies #[trigger] get_bit(b | (1u8 << k), j) == (j == k as int || get_bit(b, j)) by {
        let ju = j as u8;
        assert(((((b | (1u8 << k)) >> ju) & 1u8 == 1u8) == (ju == k || (b >> ju) & 1u8 == 1u8))) by (bit_vector)
            requires k < 8, ju < 8;
    }
}

/// Reads bits, in order, from a byte buffer that stands for the contents of a file.
pub struct BitStreamReader {
    file: Vec<u8>,
    bit_len: usize,
    read_pos: usize,
}

impl BitStreamReader {
    #[verifier::type_invariant]
    spec fn well_formed(self) -> bool {
        &&& self.bit_len == self.file@.len() * 8
        &&& self.read_pos <= self.bit_len
    }

    /// Contents of the input.
    pub closed spec fn contents(self) -> Seq<u8> {
        self.file@
    }

    /// Number of bits read so far.
    pub closed spec fn spec_read_pos(self) -> int {
        self.read_pos as int
    }

    /// A reader at the start of `bytes`.
    pub fn open(bytes: Vec<u8>) -> (r: Self)
        requires
            bytes@.len() * 8 <= usize::MAX,
        ensures
            r.contents() == bytes@,
            r.spec_read_pos() == 0,
    {
        let bit_len = bytes.len() * 8;
        BitStreamReader { file: bytes, bit_len, read_pos: 0 }
    }

    /// Reads the next `bits_amount` bits, or as many as are left, packed from
    /// the lowest bit of the first byte on.
    pub fn read_bit_sequence(&mut self, bits_amount: usize) -> (out: Vec<u8>)
        requires
            bits_amount + 7 <= usize::MAX,
        ensures
            ({
                let left = old(self).contents().len() * 8 - old(self).spec_read_pos();
                let n = if bits_amount < left { bits_amount as int } else { left };
                let p = old(self).spec_read_pos();
                &&& is_packing(out@, bits_of(old(self).contents(), p + n).skip(p))
                &&& final(self).spec_read_pos() == p + n
                &&& final(self).contents() == old(self).contents()
            }),
    {
        proof {
            use_type_invariant(&*self);
        }
        let available = self.bit_len - self.read_pos;
        let to_read = if bits_amount < available {
            bits_amount
        } else {
            available
        };
        let p = self.read_pos;
        let ghost src = bits_of(self.file@, p + to_read).skip(p as int);
        let mut out: Vec<u8> = Vec::new();
        let nbytes = (to_read + 7) / 8;
        while out.len() < nbytes
            invariant
                out@.len() <= nbytes,
                forall|k: int| 0 <= k < out@.len() ==> #[trigger] out@[k] == 0u8,
            decreases nbytes - out@.len(),
        {
            out.push(0);
        }
        proof {
            lemma_zero_bits();
        }
        let mut i: usize = 0;
        while i < to_read
            invariant
                i <= to_read,
                p + to_read <= self.bit_len,
                self.bit_len == self.file@.len() * 8,
                src == bits_of(self.file@, p + to_read).skip(p as int),
                out@.len() == nbytes,
                nbytes == (to_read + 7) / 8,
                forall|j: int| 0 <= j < i ==> #[trigger] bit_at(out@, j) == src[j],
                forall|j: int| i <= j < 8 * out@.len() ==> !#[trigger] bit_at(out@, j),
            decreases to_read - i,
        {
            let absolute_bit = p + i;
            let byte = self.file[absolute_bit / 8];
            let sh = (absolute_bit % 8) as u8;
            let bit = (byte >> sh) & 1;
            assert(bit <= 1u8) by (bit_vector)
                requires
                    bit == (byte >> sh) & 1u8,
            ;
            assert(src[i as int] == (bit == 1u8));
            if bit != 0 {
                let k = i / 8;
                let old_byte = out[k];
                let ghost before = out@;
                proof {
                    lemma_or_bit(old_byte, (i % 8) as u8);
                }
                out.set(k, old_byte | (1u8 << ((i % 8) as u8)));
                assert forall|j: int| 0 <= j < 8 * out@.len() implies #[trigger] bit_at(out@, j) == if j == i {
                    true
                } else {
                    bit_at(before, j)
                } by {
                    if j / 8 == k as int {
                        assert(get_bit(old_byte | (1u8 << ((i % 8) as u8)), j % 8) == (j % 8 == (i % 8) as int || get_bit(old_byte, j % 8)));
                    }
                }
            }
            i = i + 1;
        }
        self.read_pos = p + to_read;
        assert(is_packing(out@, src));
        out
    }

    /// Number of bits in the input.
    pub fn bit_len(&self) -> (n: usize)
        ensures
            n == self.contents().len() * 8,
    {
        proof {
            use_type_invariant(self);
        }
        self.bit_len
    }

    /// Number of bytes in the input.
    pub fn byte_len(&self) -> (n: usize)
        ensures
            n == self.contents().len(),
    {
        proof {
            use_type_invariant(self);
        }
        (self.bit_len + 7) / 8
    }
}

/// Iterates over the bits of a byte buffer, lowest bit of each byte first.
pub struct BitReader<'a> {
    bytes: &'a [u8],
    current_byte: usize,
    current_bit: u8,
}

impl<'a> BitReader<'a> {
    #[verifier::type_invariant]
    spec fn well_formed(self) -> bool {
        &&& self.current_bit < 8
        &&& self.current_byte <= self.bytes@.len()
        &&& self.current_byte == self.bytes@.len() ==> self.current_bit == 0
    }

    /// The bits read so far.
    pub closed spec fn position(self) -> int {
        8 * self.current_byte + self.current_bit
    }

    /// The buffer read.
    pub closed spec fn source(self) -> Seq<u8> {
        self.bytes@
    }

    /// A reader at the first bit of `bytes`.
    pub fn new(bytes: &'a [u8]) -> (r: Self)
        ensures
            r.source() == bytes@,
            r.position() == 0,
    {
        BitReader { bytes, current_byte: 0, current_bit: 0 }
    }

    /// The next bit, or `None` after the last one.
    pub fn next(&mut self) -> (bit: Option<bool>)
        ensures
            final(self).source() == old(self).source(),
            old(self).position() < 8 * old(self).source().len() ==> bit == Some(
                bit_at(old(self).source(), old(self).position()),
            ) && final(self).position() == old(self).position() + 1,
            old(self).position() >= 8 * old(self).source().len() ==> bit is None
                && final(self).position() == old(self).position(),
            0 <= final(self).position() <= 8 * final(self).source().len(),
            seq![bit] == bit_run(old(self).source(), old(self).position(), 1),
    {
        proof {
            use_type_invariant(&*self);
        }
        if self.current_byte >= self.bytes.len() {
            let ghost p = self.position();
            assert(p >= 8 * self.bytes@.len());
            assert(bit_run(self.bytes@, p, 0) =~= Seq::<Option<bool>>::empty());
            assert(bit_run(self.bytes@, p, 1) =~= seq![None::<bool>]);
            return None;
        }
        let byte = self.bytes[self.current_byte];
        let sh = self.current_bit;
        let bit = (byte >> sh) & 1;
        assert(bit <= 1u8) by (bit_vector)
            requires
                bit == (byte >> sh) & 1u8,
        ;
        let ghost pos = 8 * self.current_byte + self.current_bit;
        assert(pos / 8 == self.current_byte && pos % 8 == self.current_bit);
        if self.current_bit == 7 {
            self.current_bit = 0;
            self.current_byte = self.current_byte + 1;
        } else {
            self.current_bit = self.current_bit + 1;
        }
        assert(pos < 8 * self.bytes@.len());
        assert(bit_run(self.bytes@, pos + 1, 0) =~= Seq::<Option<bool>>::empty());
        assert(bit_run(self.bytes@, pos, 1) =~= seq![Some(bit_at(self.bytes@, pos))]);
        Some(bit == 1)
    }
}

/// What `m` successive calls of `BitReader::next` yield from position `p`
/// of `source`, each call as its contract gives it.
pub open spec fn bit_run(source: Seq<u8>, p: int, m: nat) -> Seq<Option<bool>>
    decreases m,
{
    if m == 0 {
        Seq::empty()
    } else if p < 8 * source.len() {
        seq![Some(bit_at(source, p))] + bit_run(source, p + 1, (m - 1) as nat)
    } else {
        seq![None] + bit_run(source, p, (m - 1) as nat)
    }
}

/// A reader made by `BitReader::new` yields every bit of its buffer once, in
/// order, lowest bit of each byte first, and then `None` on every later call.
pub proof fn lemma_bit_reader_run(source: Seq<u8>, p: int, m: nat)
    requires
        0 <= p <= 8 * source.len(),
    ensures
        bit_run(source, p, m).len() == m,
        forall|k: int|
            0 <= k < m ==> #[trigger] bit_run(source, p, m)[k] == if p + k < 8 * source.len() {
                Some(get_bit(source[(p + k) / 8], (p + k) % 8))
            } else {
                None
            },
    decreases m,
{
    if m > 0 {
        if p < 8 * source.len() {
            lemma_bit_reader_run(source, p + 1, (m - 1) as nat);
            let r = bit_run(source, p, m);
            assert forall|k: int| 0 <= k < m implies #[trigger] r[k] == if p + k < 8 * source.len() {
                Some(get_bit(source[(p + k) / 8], (p + k) % 8))
            } else {
                None
            } by {
                if k > 0 {
                    assert(r[k] == bit_run(source, p + 1, (m - 1) as nat)[k - 1]);
                }
            }
        } else {
            lemma_bit_reader_run(source, p, (m - 1) as nat);
            let r = bit_run(source, p, m);
            assert forall|k: int| 0 <= k < m implies #[trigger] r[k] == if p + k < 8 * source.len() {
                Some(get_bit(source[(p + k) / 8], (p + k) % 8))
            } else {
                None
            } by {
                if k > 0 {
                    assert(r[k] == bit_run(source, p, (m - 1) as nat)[k - 1]);
                }
            }
        }
    }
}

} // verus!
