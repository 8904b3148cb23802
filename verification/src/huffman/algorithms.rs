//! Huffman coding of whole buffers.
//!
//! An encoded buffer holds the number of code bits (8 bytes, little endian),
//! the weight of each of the 256 byte values (4 bytes each, little endian),
//! then the code of each input byte, lowest bit first.
use vstd::prelude::*;
use std::collections::HashMap;
use crate::bit_stream::{
    BitReader,
    BitStreamReader,
    BitStreamWriter,
    bits_of,
    bit_at,
    bytes_for,
    is_packing,
    lemma_bits_of_concat,
    lemma_packing_concat,
    lemma_packing_unique,
    lemma_aligned_packing,
    lemma_packed,
    lemma_packing_exists,
    get_bit,
    lemma_packing_split,
    lemma_bits_determine_bytes,
    overwrites,
    packed,
    taken_bits,
    zero_ext,
};
use crate::huffman::tree::{
    Node,
    code_map,
    leaf_vals,
    lemma_code_map_dom,
    lemma_huffman_vals,
    huffman_spec,
    seq_vals,
    tree_depth,
    weight_sum,
    Direction,
    code_pair,
    bits_num,
    dir_bit,
    leaf_at,
    lemma_bits_num_bound,
    lemma_path_map,
    lemma_two_values_inner,
    path_map,
    path_to,
};
use crate::lzv::algorithms::{from_le4, le4, lemma_le4_roundtrip, u32_from_le, u32_to_le};

verus! {

/// Number of times `b` occurs in `s`.
pub open spec fn count_of(s: Seq<u8>, b: u8) -> nat
    decreases s.len(),
{
    if s.len() == 0 {
        0
    } else {
        count_of(s.drop_last(), b) + if s.last() == b {
            1nat
        } else {
            0nat
        }
    }
}

/// Number of occurrences of each byte value in `s`.
pub open spec fn byte_counts(s: Seq<u8>) -> Seq<u32> {
    Seq::new(256, |b: int| count_of(s, b as u8) as u32)
}

/// A leaf for each of the first `k` byte values whose weight is not zero.
pub open spec fn leaves_upto(w: Seq<u32>, k: int) -> Seq<Node>
    decreases k,
{
    if k <= 0 {
        Seq::empty()
    } else if w[k - 1] != 0 {
        leaves_upto(w, k - 1).push(Node::Leaf { value: (k - 1) as u8, weight: w[k - 1] })
    } else {
        leaves_upto(w, k - 1)
    }
}

/// A leaf for each byte value whose weight is not zero.
pub open spec fn leaves_of(w: Seq<u32>) -> Seq<Node> {
    leaves_upto(w, w.len() as int)
}

/// Sum of the first `k` weights.
pub open spec fn sum_upto(w: Seq<u32>, k: int) -> int
    decreases k,
{
    if k <= 0 {
        0
    } else {
        sum_upto(w, k - 1) + w[k - 1]
    }
}

/// The weights as 4-byte little-endian numbers.
pub open spec fn weights_bytes(w: Seq<u32>) -> Seq<u8>
    decreases w.len(),
{
    if w.len() == 0 {
        Seq::empty()
    } else {
        weights_bytes(w.drop_last()) + le4(w.last())
    }
}

/// The codes of the bytes of `s`, one after the other.
pub open spec fn code_bits(s: Seq<u8>, codes: Map<u8, (u32, u32)>) -> Seq<bool>
    decreases s.len(),
{
    if s.len() == 0 {
        Seq::empty()
    } else {
        code_bits(s.drop_last(), codes) + bits_of(le4(codes[s.last()].0), codes[s.last()].1 as int)
    }
}

/// The Huffman tree of the bytes of `s`.
pub open spec fn huffman_root(s: Seq<u8>) -> Node {
    huffman_spec(leaves_of(byte_counts(s)))->0
}

/// The code of each byte of `s`.
pub open spec fn huffman_codes(s: Seq<u8>) -> Map<u8, (u32, u32)> {
    code_map(huffman_root(s), Seq::empty())
}

/// The encoded form of `s`.
pub open spec fn huffman_encoded(s: Seq<u8>) -> Seq<u8> {
    let cb = code_bits(s, huffman_codes(s));
    vstd::bytes::spec_u64_to_le_bytes(cb.len() as u64) + weights_bytes(byte_counts(s)) + packed(cb)
}

/// The inputs that can be encoded: not empty, counts that fit in 32 bits,
/// codes of at most 32 bits, and an output that fits in memory.
pub open spec fn huffman_encodable(s: Seq<u8>) -> bool {
    &&& 0 < s.len() <= u32::MAX
    &&& 8 * (1032 + 4 * s.len()) + 64 <= usize::MAX
    &&& tree_depth(huffman_root(s)) <= 32
}

proof fn lemma_count_le(s: Seq<u8>, b: u8)
    ensures
        count_of(s, b) <= s.len(),
    decreases s.len(),
{
    if s.len() > 0 {
        lemma_count_le(s.drop_last(), b);
    }
}

proof fn lemma_count_pos(s: Seq<u8>, i: int)
    requires
        0 <= i < s.len(),
    ensures
        count_of(s, s[i]) > 0,
    decreases s.len(),
{
    if i < s.len() - 1 {
        lemma_count_pos(s.drop_last(), i);
    }
}

proof fn lemma_sum_update(w: Seq<u32>, b: int, k: int)
    requires
        0 <= b < w.len(),
        w[b] < u32::MAX,
        k <= w.len(),
    ensures
        sum_upto(w.update(b, (w[b] + 1) as u32), k) == sum_upto(w, k) + if b < k {
            1int
        } else {
            0int
        },
    decreases k,
{
    if k > 0 {
        lemma_sum_update(w, b, k - 1);
    }
}

proof fn lemma_counts_push(s: Seq<u8>, b: u8)
    requires
        s.len() < u32::MAX,
    ensures
        byte_counts(s.push(b)) == byte_counts(s).update(b as int, (byte_counts(s)[b as int] + 1) as u32),
{
    assert(s.push(b).drop_last() =~= s);
    lemma_count_le(s, b);
    assert(byte_counts(s.push(b)) =~= byte_counts(s).update(b as int, (byte_counts(s)[b as int] + 1) as u32));
}

/// The counts of `s` add up to its length.
proof fn lemma_counts_sum(s: Seq<u8>)
    requires
        s.len() <= u32::MAX,
    ensures
        sum_upto(byte_counts(s), 256) == s.len(),
    decreases s.len(),
{
    if s.len() == 0 {
        assert forall|k: int| 0 <= k <= 256 implies sum_upto(byte_counts(s), k) == 0 by {
            lemma_sum_zero(byte_counts(s), k);
        }
    } else {
        let t = s.drop_last();
        lemma_counts_sum(t);
        lemma_count_le(t, s.last());
        lemma_counts_push(t, s.last());
        assert(t.push(s.last()) =~= s);
        lemma_sum_update(byte_counts(t), s.last() as int, 256);
    }
}

proof fn lemma_sum_zero(w: Seq<u32>, k: int)
    requires
        k <= w.len(),
        forall|j: int| 0 <= j < w.len() ==> w[j] == 0,
    ensures
        sum_upto(w, k) == 0,
    decreases k,
{
    if k > 0 {
        lemma_sum_zero(w, k - 1);
    }
}

proof fn lemma_leaves_sum(w: Seq<u32>, k: int)
    requires
        0 <= k <= w.len(),
    ensures
        weight_sum(leaves_upto(w, k)) == sum_upto(w, k),
    decreases k,
{
    if k > 0 {
        lemma_leaves_sum(w, k - 1);
        let prev = leaves_upto(w, k - 1);
        if w[k - 1] != 0 {
            let x = Node::Leaf { value: (k - 1) as u8, weight: w[k - 1] };
            assert(prev.push(x).drop_last() =~= prev);
        }
    }
}

proof fn lemma_leaves_vals(w: Seq<u32>, k: int)
    requires
        0 <= k <= w.len(),
        k <= 256,
    ensures
        forall|b: u8| #[trigger] seq_vals(leaves_upto(w, k)).contains(b) <==> (b < k && w[b as int] != 0),
    decreases k,
{
    if k > 0 {
        lemma_leaves_vals(w, k - 1);
        let prev = leaves_upto(w, k - 1);
        if w[k - 1] != 0 {
            let x = Node::Leaf { value: (k - 1) as u8, weight: w[k - 1] };
            assert(prev.push(x).drop_last() =~= prev);
            assert(seq_vals(prev.push(x)) == seq_vals(prev) + leaf_vals(x));
            assert(leaf_vals(x) == set![(k - 1) as u8]);
        }
    }
}

/// Every byte of a non-empty `s` has a code.
proof fn lemma_every_byte_has_code(s: Seq<u8>, i: int)
    requires
        s.len() <= u32::MAX,
        0 <= i < s.len(),
    ensures
        huffman_spec(leaves_of(byte_counts(s))) is Some,
        huffman_codes(s).dom().contains(s[i]),
{
    let w = byte_counts(s);
    lemma_count_pos(s, i);
    lemma_count_le(s, s[i]);
    lemma_leaves_vals(w, 256);
    assert(seq_vals(leaves_of(w)).contains(s[i]));
    lemma_huffman_vals(leaves_of(w));
    lemma_code_map_dom(huffman_root(s), Seq::empty());
}

/// A code is no longer than the path to the deepest leaf.
proof fn lemma_code_len(n: Node, path: Seq<Direction>, v: u8)
    requires
        code_map(n, path).dom().contains(v),
        path.len() + tree_depth(n) <= 32,
    ensures
        code_map(n, path)[v].1 <= 32,
    decreases n,
{
    match n {
        Node::Leaf { .. } => {},
        Node::Inner { l, r, .. } => {
            lemma_code_map_dom(*l, path.push(Direction::Left));
            lemma_code_map_dom(*r, path.push(Direction::Right));
            if code_map(*r, path.push(Direction::Right)).dom().contains(v) {
                lemma_code_len(*r, path.push(Direction::Right), v);
            } else {
                lemma_code_len(*l, path.push(Direction::Left), v);
            }
        },
    }
}

proof fn lemma_weights_bytes_len(w: Seq<u32>)
    ensures
        weights_bytes(w).len() == 4 * w.len(),
    decreases w.len(),
{
    if w.len() > 0 {
        lemma_weights_bytes_len(w.drop_last());
    }
}

fn count_bytes(input: &[u8]) -> (w: Vec<u32>)
    requires
        input@.len() <= u32::MAX,
    ensures
        w@ == byte_counts(input@),
        w@.len() == 256,
{
    let ghost s = input@;
    let n = input.len();
    let mut node_weights: Vec<u32> = vec![0u32; 256];
    let mut i: usize = 0;
    assert(s.take(0) =~= Seq::<u8>::empty());
    assert(node_weights@ =~= byte_counts(s.take(0)));
    while i < n
        invariant
            n == s.len(),
            s == input@,
            i <= n,
            n <= u32::MAX,
            node_weights@ == byte_counts(s.take(i as int)),
        decreases n - i,
    {
        let b = input[i];
        proof {
            lemma_count_le(s.take(i as int), b);
            lemma_counts_push(s.take(i as int), b);
            assert(s.take(i as int).push(b) =~= s.take(i + 1));
        }
        let c = node_weights[b as usize];
        node_weights.set(b as usize, c + 1);
        i = i + 1;
    }
    assert(s.take(n as int) =~= s);
    node_weights
}

fn leaves(node_weights: &Vec<u32>) -> (nodes: Vec<Node>)
    requires
        node_weights@.len() == 256,
    ensures
        nodes@ == leaves_of(node_weights@),
{
    let ghost w = node_weights@;
    let mut non_zero_nodes: Vec<Node> = Vec::new();
    let mut byte: usize = 0;
    while byte < 256
        invariant
            byte <= 256,
            w == node_weights@,
            w.len() == 256,
            non_zero_nodes@ == leaves_upto(w, byte as int),
        decreases 256 - byte,
    {
        let weight = node_weights[byte];
        if weight != 0 {
            non_zero_nodes.push(Node::Leaf { value: byte as u8, weight });
        }
        byte = byte + 1;
    }
    non_zero_nodes
}

fn depth_exceeds(n: &Node, limit: u32) -> (b: bool)
    ensures
        b == (tree_depth(*n) > limit),
    decreases n,
{
    match n {
        Node::Leaf { .. } => false,
        Node::Inner { l, r, .. } => {
            if limit == 0 {
                true
            } else {
                let a = depth_exceeds(&**l, limit - 1);
                let b = depth_exceeds(&**r, limit - 1);
                a || b
            }
        },
    }
}

/// Whether `encode` can take `input`: it is not empty, its counts fit in 32
/// bits, no code is longer than 32 bits, and the output fits in memory.
pub fn encodable(input: &[u8]) -> (b: bool)
    ensures
        b == huffman_encodable(input@),
{
    let n = input.len();
    if n == 0 || n > 0xffff_ffff {
        return false;
    }
    if n > (usize::MAX - 64 - 8 * 1032) / 32 {
        return false;
    }
    let w = count_bytes(input);
    let nodes = leaves(&w);
    proof {
        lemma_leaves_sum(w@, 256);
        lemma_counts_sum(input@);
        lemma_every_byte_has_code(input@, 0);
    }
    let root = Node::huffman_tree(nodes).unwrap();
    !depth_exceeds(&root, 32)
}

/// Whether `decode` can take `input`: where it holds the bit count, its
/// weights are whole and add up to a number that is neither zero nor
/// beyond 32 bits; and the input fits in memory.
pub fn decodable(input: &[u8]) -> (b: bool)
    ensures
        b == huffman_decodable(input@),
{
    let ghost c = input@;
    let n = input.len();
    if n > (usize::MAX - 16) / 8 {
        return false;
    }
    if n < 8 {
        return true;
    }
    let m = if n - 8 < 1024 { n - 8 } else { 1024 };
    assert(m == dict_len(c));
    if m % 4 != 0 {
        return false;
    }
    let mut total: u64 = 0;
    let mut i: usize = 0;
    while i < 256
        invariant
            i <= 256,
            n == c.len(),
            n >= 8,
            m == dict_len(c),
            m % 4 == 0,
            0 <= m <= 1024,
            input@ == c,
            total == sum_upto(weights_read(c), i as int),
            total <= 0xffff_ffff * i,
        decreases 256 - i,
    {
        let x: u32 = if 4 * i + 4 <= m {
            u32_from_le(input[8 + 4 * i], input[9 + 4 * i], input[10 + 4 * i], input[11 + 4 * i])
        } else {
            0
        };
        assert(x == weights_read(c)[i as int]);
        total = total + x as u64;
        i = i + 1;
    }
    0 < total && total <= 0xffff_ffff
}

/// Encodes `input`: its byte weights, then the Huffman code of each byte.
pub fn encode(input: &[u8]) -> (out: Vec<u8>)
    requires
        huffman_encodable(input@),
    ensures
        out@ == huffman_encoded(input@),
{
    broadcast use vstd::std_specs::hash::group_hash_axioms;
    let ghost s = input@;
    let n = input.len();
    let node_weights = count_bytes(input);
    let ghost w = node_weights@;
    let non_zero_nodes = leaves(&node_weights);
    proof {
        lemma_leaves_sum(w, 256);
        lemma_counts_sum(s);
        lemma_every_byte_has_code(s, 0);
    }
    let root = Node::huffman_tree(non_zero_nodes).unwrap();
    let mut writer = BitStreamWriter::new();
    writer.skip_bytes(8);
    let ghost z8 = Seq::new(8, |k: int| 0u8);
    proof {
        writer.lemma_packs_whole_bytes();
        writer.lemma_no_pending_bits();
        assert(writer.stream() =~= bits_of(z8, 64));
        assert(w.take(0) =~= Seq::<u32>::empty());
        assert(z8 + weights_bytes(w.take(0)) =~= z8);
    }
    let mut k: usize = 0;
    while k < 256
        invariant
            k <= 256,
            w == node_weights@,
            w.len() == 256,
            z8 == Seq::new(8, |j: int| 0u8),
            writer.stream() == bits_of(z8 + weights_bytes(w.take(k as int)), 8 * (8 + 4 * k)),
            writer.packs_stream(),
            writer.spec_bit_count() == 0,
            writer.spec_bytes_written() == 8 + 4 * k,
            k > 0 ==> writer.contents().len() == bytes_for(writer.stream().len() as int),
        decreases 256 - k,
    {
        let le = u32_to_le(node_weights[k]);
        let ghost before = writer;
        writer.write_bit_sequence(&le, 32);
        proof {
            before.lemma_no_pending_bits();
            let d = bits_of(le@, 32);
            assert(taken_bits(4, 32) == 32);
            assert(before.pending_bits() + d =~= d);
            let buf = choose|buf: Seq<u8>|
                is_packing(buf, before.pending_bits() + d) && overwrites(
                    before.contents(),
                    writer.contents(),
                    before.spec_bytes_written(),
                    buf,
                );
            BitStreamWriter::lemma_packs_after_write(before, writer, d, buf);
            assert(w.take(k + 1).drop_last() =~= w.take(k as int));
            assert(weights_bytes(w.take(k + 1)) == weights_bytes(w.take(k as int)) + le4(w[k as int]));
            lemma_weights_bytes_len(w.take(k as int));
            let a = z8 + weights_bytes(w.take(k as int));
            assert(a.len() == 8 + 4 * k);
            assert(le@ == le4(w[k as int]));
            lemma_bits_of_concat(a, le4(w[k as int]));
            assert(writer.stream() == bits_of(a, 8 * (8 + 4 * k)) + bits_of(le4(w[k as int]), 32));
            assert(z8 + weights_bytes(w.take(k as int)) + le4(w[k as int]) =~= z8 + weights_bytes(
                w.take(k + 1),
            ));
        }
        k = k + 1;
    }
    let ghost head = z8 + weights_bytes(w);
    proof {
        assert(w.take(256) =~= w);
        lemma_weights_bytes_len(w);
    }
    let dictionary = root.generate_dict();
    let ghost codes = dictionary@;
    let mut i: usize = 0;
    proof {
        assert(s.take(0) =~= Seq::<u8>::empty());
        assert(writer.stream() =~= bits_of(head, 8256) + code_bits(s.take(0), codes));
        writer.lemma_pending_len();
    }
    while i < n
        invariant
            n == s.len(),
            s == input@,
            i <= n,
            huffman_encodable(s),
            codes == huffman_codes(s),
            codes == dictionary@,
            head.len() == 1032,
            writer.stream() == bits_of(head, 8256) + code_bits(s.take(i as int), codes),
            writer.packs_stream(),
            writer.spec_bit_count() < 8,
            writer.contents().len() == bytes_for(writer.stream().len() as int),
            code_bits(s.take(i as int), codes).len() <= 32 * i,
            writer.stream().len() == 8 * writer.spec_bytes_written() + writer.spec_bit_count(),
        decreases n - i,
    {
        let b = input[i];
        proof {
            lemma_every_byte_has_code(s, i as int);
            lemma_code_len(huffman_root(s), Seq::empty(), b);
        }
        let (numeric, bit_len) = *dictionary.get(&b).unwrap();
        let le = u32_to_le(numeric);
        let ghost before = writer;
        writer.write_bit_sequence(&le, bit_len as usize);
        proof {
            let d = bits_of(le@, bit_len as int);
            assert(taken_bits(4, bit_len as usize) == bit_len);
            let buf = choose|buf: Seq<u8>|
                is_packing(buf, before.pending_bits() + d) && overwrites(
                    before.contents(),
                    writer.contents(),
                    before.spec_bytes_written(),
                    buf,
                );
            BitStreamWriter::lemma_packs_after_write(before, writer, d, buf);
            writer.lemma_pending_len();
            assert(s.take(i + 1).drop_last() =~= s.take(i as int));
            assert(s.take(i + 1).last() == b);
            assert(code_bits(s.take(i + 1), codes) == code_bits(s.take(i as int), codes) + d);
            assert(writer.stream() =~= bits_of(head, 8256) + code_bits(s.take(i + 1), codes));
        }
        i = i + 1;
    }
    let ghost cb = code_bits(s, codes);
    proof {
        assert(s.take(n as int) =~= s);
    }
    let data_length = (writer.bytes_written() - 8 - 1024) * 8 + writer.bit_count();
    assert(data_length == cb.len());
    let ghost c = writer.contents();
    let header = vstd::bytes::u64_to_le_bytes(data_length as u64);
    writer.write_byte_sequence_unchecked_at(&header, 0);
    proof {
        let st = bits_of(head, 8256) + cb;
        assert(zero_ext(c, bytes_for(st.len() as int)) =~= c);
        assert(is_packing(c, st));
        lemma_packing_split(c, bits_of(head, 8256), cb, 1032);
        lemma_packed(c.skip(1032), cb);
        assert forall|i: int| 0 <= i < 8 * c.take(1032).len() implies #[trigger] bit_at(c.take(1032), i)
            == bit_at(head, i) by {
            assert(bits_of(c.take(1032), 8256)[i] == bits_of(head, 8256)[i]);
        }
        lemma_bits_determine_bytes(c.take(1032), head);
        assert(c =~= head + packed(cb));
        let out = writer.contents();
        assert(out =~= vstd::bytes::spec_u64_to_le_bytes(data_length as u64) + weights_bytes(w) + packed(cb));
    }
    writer.finish()
}


/// One bit through the decoder at node `cur`: the node it moves to and the
/// byte it writes, if it reaches a leaf (then it goes back to `root`).
pub open spec fn walk_step(root: Node, cur: Node, bit: bool) -> (Node, Seq<u8>) {
    match cur {
        Node::Inner { l, r, .. } => {
            let c = if bit {
                *r
            } else {
                *l
            };
            match c {
                Node::Leaf { value, .. } => (root, seq![value]),
                Node::Inner { .. } => (c, Seq::empty()),
            }
        },
        Node::Leaf { .. } => (cur, Seq::empty()),
    }
}

/// The bits through the decoder from node `cur`: the node it ends at and the bytes written.
pub open spec fn walk(root: Node, cur: Node, bits: Seq<bool>) -> (Node, Seq<u8>)
    decreases bits.len(),
{
    if bits.len() == 0 {
        (cur, Seq::empty())
    } else {
        let (c1, o1) = walk(root, cur, bits.drop_last());
        let (c2, o2) = walk_step(root, c1, bits.last());
        (c2, o1 + o2)
    }
}

/// The payload bits the decoder walks, given the bit count `dl` of the
/// header: it stops after bit `dl`, but only until the end of the window of
/// 16384 bits that holds it; with `dl` zero or beyond the payload it walks all.
pub open spec fn walked_bits(p: Seq<bool>, dl: int) -> Seq<bool> {
    if 1 <= dl <= p.len() {
        let end = (dl + 16383) / 16384 * 16384;
        p.take(dl) + p.skip(
            if end < p.len() {
                end
            } else {
                p.len() as int
            },
        )
    } else {
        p
    }
}

/// Number of weight bytes in an encoded buffer `c`.
pub open spec fn dict_len(c: Seq<u8>) -> int {
    if c.len() - 8 < 1024 {
        c.len() - 8
    } else {
        1024
    }
}

/// The weights read from an encoded buffer `c`.
pub open spec fn weights_read(c: Seq<u8>) -> Seq<u32> {
    Seq::new(
        256,
        |i: int|
            if 4 * i + 4 <= dict_len(c) {
                from_le4(c[8 + 4 * i], c[9 + 4 * i], c[10 + 4 * i], c[11 + 4 * i])
            } else {
                0u32
            },
    )
}

/// The code bits of an encoded buffer `c`.
pub open spec fn payload_bits(c: Seq<u8>) -> Seq<bool> {
    bits_of(c, (8 * c.len()) as int).skip(8 * (8 + dict_len(c)))
}

/// The Huffman tree an encoded buffer `c` describes.
pub open spec fn decoded_root(c: Seq<u8>) -> Node {
    huffman_spec(leaves_of(weights_read(c)))->0
}

/// The bytes decoded from `c`, which holds at least the 8-byte bit count.
pub open spec fn huffman_decoded(c: Seq<u8>) -> Seq<u8> {
    let root = decoded_root(c);
    walk(root, root, walked_bits(payload_bits(c), vstd::bytes::spec_u64_from_le_bytes(c.take(8)) as int)).1
}

/// The buffers that can be decoded: whole weights, with a total that is
/// neither zero nor beyond 32 bits.
pub open spec fn huffman_decodable(c: Seq<u8>) -> bool {
    &&& 8 * c.len() + 16 <= usize::MAX
    &&& c.len() >= 8 ==> {
        &&& dict_len(c) % 4 == 0
        &&& 0 < sum_upto(weights_read(c), 256) <= u32::MAX
    }
}

proof fn lemma_walk_push(root: Node, cur: Node, bits: Seq<bool>, b: bool)
    ensures
        walk(root, cur, bits.push(b)) == ({
            let (c1, o1) = walk(root, cur, bits);
            let (c2, o2) = walk_step(root, c1, b);
            (c2, o1 + o2)
        }),
{
    assert(bits.push(b).drop_last() =~= bits);
}

proof fn lemma_leaves_nonempty(w: Seq<u32>, k: int)
    requires
        0 <= k <= w.len(),
        sum_upto(w, k) > 0,
    ensures
        leaves_upto(w, k).len() > 0,
    decreases k,
{
    if k > 0 && w[k - 1] == 0 {
        lemma_leaves_nonempty(w, k - 1);
    }
}

proof fn lemma_window_read(c: Seq<u8>, a: int, out: Seq<u8>)
    requires
        0 <= a <= c.len(),
        is_packing(
            out,
            bits_of(c, 8 * a + (if 16384 < 8 * c.len() - 8 * a { 16384 } else { 8 * c.len() - 8 * a })).skip(8 * a),
        ),
    ensures
        out == c.subrange(a, a + out.len()),
        8 * out.len() == if 16384 < 8 * c.len() - 8 * a { 16384 } else { 8 * c.len() - 8 * a },
{
    let k = if 2048 < c.len() - a { 2048 } else { c.len() - a };
    lemma_aligned_packing(c, a, a + k);
    assert(8 * a + 8 * k == 8 * (a + k));
    lemma_packing_unique(out, c.subrange(a, a + k), bits_of(c, 8 * (a + k)).skip(8 * a));
}

proof fn lemma_window_bit(c: Seq<u8>, start: int, bytes: Seq<u8>, j: int)
    requires
        start % 8 == 0,
        0 <= start,
        bytes == c.subrange(start / 8, start / 8 + bytes.len()),
        start / 8 + bytes.len() <= c.len(),
        0 <= j < 8 * bytes.len(),
    ensures
        bit_at(bytes, j) == bits_of(c, (8 * c.len()) as int).skip(start)[j],
{
    assert((start + j) / 8 == start / 8 + j / 8);
    assert((start + j) % 8 == j % 8);
}

proof fn lemma_roundup(t: int, dl: int)
    requires
        t % 16384 == 0,
        0 <= t,
        1 <= dl,
    ensures
        dl <= t ==> (dl + 16383) / 16384 * 16384 <= t,
        t < dl <= t + 16384 ==> (dl + 16383) / 16384 * 16384 == t + 16384,
{
    let q = t / 16384;
    assert(t == 16384 * q);
    if dl <= t {
        assert((dl + 16383) / 16384 <= q);
        assert((dl + 16383) / 16384 * 16384 <= q * 16384) by (nonlinear_arith)
            requires
                (dl + 16383) / 16384 <= q,
        ;
    }
    if t < dl <= t + 16384 {
        assert((dl + 16383) / 16384 == q + 1);
    }
}

proof fn lemma_walked_window(p: Seq<bool>, t: int, wlen: int, j: int, dl: int)
    requires
        0 <= t,
        t % 16384 == 0,
        0 < wlen <= 16384,
        t + wlen <= p.len(),
        wlen < 16384 ==> t + wlen == p.len(),
        0 <= j <= wlen,
        j == wlen || (dl > t && j == dl - t),
        dl > t ==> t + j <= dl,
    ensures
        walked_bits(p.take(t), dl) + p.subrange(t, t + j) == walked_bits(p.take(t + wlen), dl),
{
    let a = p.take(t);
    let b = p.take(t + wlen);
    if 1 <= dl {
        lemma_roundup(t, dl);
    }
    if 1 <= dl && dl <= t {
        let end = (dl + 16383) / 16384 * 16384;
        assert(walked_bits(a, dl) == a.take(dl) + a.skip(end));
        assert(walked_bits(b, dl) == b.take(dl) + b.skip(end));
        assert(a.take(dl) + a.skip(end) + p.subrange(t, t + wlen) =~= b.take(dl) + b.skip(end));
    } else if 1 <= dl && dl <= t + wlen {
        let end = (dl + 16383) / 16384 * 16384;
        assert(end == t + 16384);
        assert(walked_bits(a, dl) == a);
        assert(walked_bits(b, dl) == b.take(dl) + b.skip(b.len() as int));
        assert(a + p.subrange(t, t + j) =~= b.take(dl) + b.skip(b.len() as int));
    } else {
        assert(walked_bits(a, dl) == a);
        assert(walked_bits(b, dl) == b);
        assert(a + p.subrange(t, t + wlen) =~= b);
    }
}

/// Decodes `input`; `None` when it is too short to hold the bit count.
pub fn decode(input: Vec<u8>) -> (r: Option<Vec<u8>>)
    requires
        huffman_decodable(input@),
    ensures
        input@.len() < 8 ==> r is None,
        input@.len() >= 8 ==> (r matches Some(v) && v@ == huffman_decoded(input@)),
{
    let ghost c = input@;
    let mut reader = BitStreamReader::open(input);
    let length_bytes = reader.read_bit_sequence(64);
    proof {
        let m = if 8 < c.len() { 8 } else { c.len() as int };
        lemma_aligned_packing(c, 0, m);
        assert(bits_of(c, 8 * m).skip(0) =~= bits_of(c, 8 * m));
        lemma_packing_unique(length_bytes@, c.subrange(0, m), bits_of(c, 8 * m));
    }
    if length_bytes.len() != 8 {
        return None;
    }
    let data_length = vstd::bytes::u64_from_le_bytes(length_bytes.as_slice());
    assert(length_bytes@ =~= c.take(8));
    let dict_files_bytes = reader.read_bit_sequence(1024 * 8);
    let ghost m = dict_len(c);
    proof {
        lemma_aligned_packing(c, 8, 8 + m);
        lemma_packing_unique(dict_files_bytes@, c.subrange(8, 8 + m), bits_of(c, 8 * (8 + m)).skip(64));
    }
    let mut byte_weights: Vec<u32> = vec![0u32; 256];
    let mut ctr: usize = 0;
    let mut i: usize = 0;
    while ctr < dict_files_bytes.len()
        invariant
            dict_files_bytes@ == c.subrange(8, 8 + m),
            m == dict_len(c),
            m % 4 == 0,
            0 <= m <= 1024,
            ctr == 4 * i,
            ctr <= m,
            byte_weights@.len() == 256,
            forall|j: int| 0 <= j < 256 ==> #[trigger] byte_weights@[j] == if j < i {
                weights_read(c)[j]
            } else {
                0u32
            },
        decreases m - ctr,
    {
        let x = u32_from_le(
            dict_files_bytes[ctr],
            dict_files_bytes[ctr + 1],
            dict_files_bytes[ctr + 2],
            dict_files_bytes[ctr + 3],
        );
        byte_weights.set(i, x);
        ctr = ctr + 4;
        i = i + 1;
    }
    assert(byte_weights@ =~= weights_read(c));
    let ghost w = byte_weights@;
    let nodes = leaves(&byte_weights);
    proof {
        lemma_leaves_sum(w, 256);
        lemma_leaves_nonempty(w, 256);
        lemma_huffman_vals(leaves_of(w));
    }
    let root = Node::huffman_tree(nodes).unwrap();
    let ghost p = payload_bits(c);
    let ghost dl = data_length as int;
    let ghost base = 8 * (8 + m);
    let mut out: Vec<u8> = Vec::new();
    let mut current_node: &Node = &root;
    let mut processed_bits: u64 = 0;
    let read_window: usize = 8 * 2048;
    let ghost mut t: int = 0;
    let ghost mut done: Seq<bool> = Seq::empty();
    let mut bytes = reader.read_bit_sequence(read_window);
    proof {
        assert(p.take(0) =~= Seq::<bool>::empty());
        assert(walked_bits(p.take(0), dl) =~= Seq::<bool>::empty());
        lemma_window_read(c, 8 + m, bytes@);
    }
    while bytes.len() > 0
        invariant
            p == payload_bits(c),
            m == dict_len(c),
            0 <= m <= 1024,
            base == 8 * (8 + m),
            c.len() >= 8 + m,
            reader.contents() == c,
            8 * c.len() + 16 <= usize::MAX,
            p.len() == 8 * c.len() - base,
            0 <= t <= p.len(),
            t % 8 == 0,
            t < p.len() ==> t % 16384 == 0,
            reader.spec_read_pos() == base + t + 8 * bytes@.len(),
            bytes@ == c.subrange((base + t) / 8, (base + t) / 8 + bytes@.len()),
            bytes@.len() == 0 ==> t == p.len(),
            8 * bytes@.len() == if t + 16384 <= p.len() { 16384 } else { p.len() - t },
            read_window == 16384,
            done == walked_bits(p.take(t), dl),
            processed_bits == done.len(),
            done.len() <= t,
            1 <= dl && dl <= t ==> processed_bits >= dl,
            *current_node == walk(root, root, done).0,
            out@ == walk(root, root, done).1,
            dl == data_length,
        decreases p.len() - t,
    {
        let ghost wlen: int = (8 * bytes@.len()) as int;
        let mut bits = BitReader::new(&bytes);
        let ghost mut j: int = 0;
        proof {
            assert(p.subrange(t, t) =~= Seq::<bool>::empty());
            assert(done + p.subrange(t, t) =~= done);
        }
        loop
            invariant_except_break
                dl > t ==> t + j < dl,
            invariant
                p == payload_bits(c),
                m == dict_len(c),
                0 <= m,
                base == 8 * (8 + m),
                bytes@ == c.subrange((base + t) / 8, (base + t) / 8 + bytes@.len()),
                (base + t) / 8 + bytes@.len() <= c.len(),
                (base + t) % 8 == 0,
                wlen == 8 * bytes@.len(),
                0 <= t,
                t + wlen <= p.len(),
                t % 16384 == 0,
                wlen == if t + 16384 <= p.len() { 16384 } else { p.len() - t },
                0 <= j <= wlen,
                bits.position() == j,
                bits.source() == bytes@,
                done == walked_bits(p.take(t), dl) + p.subrange(t, t + j),
                processed_bits == done.len(),
                1 <= dl && dl <= t ==> processed_bits >= dl,
                (dl == 0 || dl > t) ==> processed_bits == t + j,
                *current_node == walk(root, root, done).0,
                out@ == walk(root, root, done).1,
                p.len() <= 8 * c.len(),
                8 * c.len() + 16 <= usize::MAX,
                dl == data_length,
            ensures
                j == wlen || (dl > t && t + j == dl),
                dl > t ==> t + j <= dl,
            decreases wlen - j,
        {
            let next = bits.next();
            match next {
                None => {
                    break;
                },
                Some(bit) => {
                    let dir = if bit {
                        Direction::Right
                    } else {
                        Direction::Left
                    };
                    let ghost before = done;
                    proof {
                        lemma_window_bit(c, base + t, bytes@, j);
                        assert(bit == p[t + j]);
                    }
                    if let Some(potential_leaf) = current_node.get_child(dir) {
                        if potential_leaf.is_leaf() {
                            out.push(potential_leaf.value().unwrap());
                            current_node = &root;
                        } else {
                            current_node = potential_leaf;
                        }
                    }
                    proof {
                        done = done.push(bit);
                        lemma_walk_push(root, root, before, bit);
                        assert(p.subrange(t, t + j).push(bit) =~= p.subrange(t, t + j + 1));
                        j = j + 1;
                    }
                    processed_bits = processed_bits + 1;
                    if processed_bits == data_length {
                        break;
                    }
                },
            }
        }
        proof {
            lemma_walked_window(p, t, wlen, j, dl);
        }
        bytes = reader.read_bit_sequence(read_window);
        proof {
            t = t + wlen;
            lemma_window_read(c, (base + t) / 8, bytes@);
        }
    }
    proof {
        assert(p.take(t) =~= p);
    }
    Some(out)
}


/// The bits of a path: 1 for a step to the right.
pub open spec fn dir_bits(p: Seq<Direction>) -> Seq<bool> {
    Seq::new(p.len(), |i: int| p[i] == Direction::Right)
}

proof fn lemma_walk_concat(root: Node, cur: Node, a: Seq<bool>, b: Seq<bool>)
    ensures
        walk(root, cur, a + b) == ({
            let (c1, o1) = walk(root, cur, a);
            let (c2, o2) = walk(root, c1, b);
            (c2, o1 + o2)
        }),
    decreases b.len(),
{
    if b.len() == 0 {
        assert(a + b =~= a);
        let (c1, o1) = walk(root, cur, a);
        assert(o1 + Seq::<u8>::empty() =~= o1);
    } else {
        lemma_walk_concat(root, cur, a, b.drop_last());
        assert((a + b).drop_last() =~= a + b.drop_last());
        assert((a + b).last() == b.last());
        let (c1, o1) = walk(root, cur, a);
        let (c2, o2) = walk(root, c1, b.drop_last());
        let (c3, o3) = walk_step(root, c2, b.last());
        assert(o1 + o2 + o3 =~= o1 + (o2 + o3));
    }
}

/// Walking the steps to a leaf outputs its byte and returns to the root.
proof fn lemma_walk_to_leaf(root: Node, t: Node, q: Seq<Direction>, v: u8)
    requires
        leaf_at(t, q, v),
        q.len() >= 1,
    ensures
        walk(root, t, dir_bits(q)) == (root, seq![v]),
    decreases q.len(),
{
    let bits = dir_bits(q);
    let first = seq![bits[0]];
    let rest = dir_bits(q.drop_first());
    assert(bits =~= first + rest);
    lemma_walk_concat(root, t, first, rest);
    assert(first.drop_last() =~= Seq::<bool>::empty());
    match t {
        Node::Inner { l, r, .. } => {
            let c = if q[0] == Direction::Left {
                *l
            } else {
                *r
            };
            assert(walk(root, t, Seq::<bool>::empty()) == (t, Seq::<u8>::empty()));
            assert(Seq::<u8>::empty() + walk_step(root, t, bits[0]).1 =~= walk_step(root, t, bits[0]).1);
            assert(walk(root, t, first) == walk_step(root, t, bits[0]));
            assert(path_to(t, q) == path_to(c, q.drop_first()));
            assert(leaf_at(c, q.drop_first(), v));
            if q.len() == 1 {
                assert(q.drop_first() =~= Seq::<Direction>::empty());
                assert(rest =~= Seq::<bool>::empty());
                assert(seq![v] + Seq::<u8>::empty() =~= seq![v]);
            } else {
                assert(c is Inner);
                lemma_walk_to_leaf(root, c, q.drop_first(), v);
                assert(Seq::<u8>::empty() + seq![v] =~= seq![v]);
            }
        },
        Node::Leaf { .. } => {},
    }
}

proof fn lemma_le4_bit(x: u32, i: int)
    requires
        0 <= i < 32,
    ensures
        bit_at(le4(x), i) == ((x >> (i as u32)) & 1u32 == 1u32),
{
    let j = (i % 8) as u32;
    let k = i / 8;
    assert(i == 8 * k + i % 8);
    let ju = j as u8;
    if k == 0 {
        assert(((((x % 256) as u8) >> ju) & 1u8 == 1u8) == ((x >> j) & 1u32 == 1u32)) by (bit_vector)
            requires
                j < 8,
                ju == j as u8,
        ;
    } else if k == 1 {
        assert(((((x / 256 % 256) as u8) >> ju) & 1u8 == 1u8) == ((x >> (8 + j)) & 1u32 == 1u32)) by (bit_vector)
            requires
                j < 8,
                ju == j as u8,
        ;
    } else if k == 2 {
        assert(((((x / 65536 % 256) as u8) >> ju) & 1u8 == 1u8) == ((x >> (16 + j)) & 1u32 == 1u32)) by (bit_vector)
            requires
                j < 8,
                ju == j as u8,
        ;
    } else {
        assert(((((x / 16777216) as u8) >> ju) & 1u8 == 1u8) == ((x >> (24 + j)) & 1u32 == 1u32)) by (bit_vector)
            requires
                j < 8,
                ju == j as u8,
        ;
    }
}

proof fn lemma_bits_num_bit(p: Seq<Direction>, i: int)
    requires
        p.len() <= 32,
        0 <= i < p.len(),
    ensures
        bits_num(p) < 0x1_0000_0000,
        ((bits_num(p) as u32) >> (i as u32)) & 1u32 == dir_bit(p[i]),
    decreases p.len(),
{
    let m = (p.len() - 1) as nat;
    let q = p.drop_last();
    lemma_bits_num_bound(q);
    lemma_bits_num_bound(p);
    vstd::arithmetic::power2::lemma2_to64();
    if p.len() < 32 {
        vstd::arithmetic::power2::lemma_pow2_strictly_increases(p.len(), 32);
    }
    if m < 31 {
        vstd::arithmetic::power2::lemma_pow2_strictly_increases(m, 31);
    }
    let a = bits_num(q) as u32;
    let d = dir_bit(p.last());
    let mu = m as u32;
    vstd::bits::lemma_u32_shl_is_mul(1, mu);
    vstd::bits::lemma_u32_shl_is_mul(d, mu);
    let pw = 1u32 << mu;
    assert(bits_num(p) == a + d * pw);
    let v = (a + d * pw) as u32;
    assert(v == a | (d << mu)) by (bit_vector)
        requires
            a < pw,
            pw == 1u32 << mu,
            mu < 32,
            d <= 1,
            v == a + d * pw,
            d * pw == d << mu,
    ;
    if i < m {
        lemma_bits_num_bit(q, i);
        assert(q[i] == p[i]);
        let iu = i as u32;
        assert(((a | (d << mu)) >> iu) & 1u32 == (a >> iu) & 1u32) by (bit_vector)
            requires
                iu < mu,
                mu < 32,
                d <= 1,
        ;
    } else {
        assert(((a | (d << mu)) >> mu) & 1u32 == d) by (bit_vector)
            requires
                a < pw,
                pw == 1u32 << mu,
                mu < 32,
                d <= 1,
        ;
    }
}

/// The code written for a byte is the path to its leaf, one bit per step.
proof fn lemma_code_is_path(p: Seq<Direction>)
    requires
        p.len() <= 32,
    ensures
        bits_of(le4(code_pair(p).0), code_pair(p).1 as int) == dir_bits(p),
{
    let x = code_pair(p).0;
    assert forall|i: int| 0 <= i < p.len() implies bits_of(le4(x), p.len() as int)[i] == dir_bits(p)[i] by {
        lemma_le4_bit(x, i);
        lemma_bits_num_bit(p, i);
    }
    assert(bits_of(le4(x), p.len() as int) =~= dir_bits(p));
}

/// Walking the codes of a text from the root gives back the text.
proof fn lemma_walk_codes(root: Node, s: Seq<u8>)
    requires
        root is Inner,
        tree_depth(root) <= 32,
        forall|i: int| 0 <= i < s.len() ==> code_map(root, Seq::empty()).dom().contains(#[trigger] s[i]),
    ensures
        walk(root, root, code_bits(s, code_map(root, Seq::empty()))) == (root, s),
        s.len() > 0 ==> code_bits(s, code_map(root, Seq::empty())).len() >= 1,
    decreases s.len(),
{
    let codes = code_map(root, Seq::empty());
    if s.len() == 0 {
        assert(code_bits(s, codes) =~= Seq::<bool>::empty());
        assert(s =~= Seq::<u8>::empty());
    } else {
        let t = s.drop_last();
        let v = s.last();
        lemma_walk_codes(root, t);
        lemma_path_map(root, Seq::empty());
        assert(codes.dom().contains(v));
        let p = path_map(root, Seq::empty())[v];
        assert(p.skip(0) =~= p);
        match root {
            Node::Inner { l, r, .. } => {
                lemma_path_map(*l, seq![Direction::Left]);
                lemma_path_map(*r, seq![Direction::Right]);
                assert(Seq::<Direction>::empty().push(Direction::Left) =~= seq![Direction::Left]);
                assert(Seq::<Direction>::empty().push(Direction::Right) =~= seq![Direction::Right]);
            },
            Node::Leaf { .. } => {},
        }
        assert(p.len() >= 1);
        lemma_code_is_path(p);
        lemma_walk_to_leaf(root, root, p, v);
        let cb = code_bits(t, codes);
        let code = bits_of(le4(codes[v].0), codes[v].1 as int);
        assert(code == dir_bits(p));
        lemma_walk_concat(root, root, cb, code);
        assert(t.push(v) =~= s);
        assert(code_bits(s, codes) == cb + code);
    }
}

/// Decoding what `encode` wrote gives back the input, when the input holds
/// at least two different bytes (a single repeated byte gets codes of no
/// bits, and decodes to nothing).
pub proof fn lemma_huffman_roundtrip(s: Seq<u8>, i: int, j: int)
    requires
        huffman_encodable(s),
        0 <= i < s.len(),
        0 <= j < s.len(),
        s[i] != s[j],
    ensures
        huffman_encoded(s).len() >= 8,
        huffman_decodable(huffman_encoded(s)),
        huffman_decoded(huffman_encoded(s)) == s,
{
    let w = byte_counts(s);
    let root = huffman_root(s);
    let codes = huffman_codes(s);
    let cb = code_bits(s, codes);
    let c = huffman_encoded(s);
    // the tree and its codes
    lemma_every_byte_has_code(s, i);
    lemma_every_byte_has_code(s, j);
    lemma_code_map_dom(root, Seq::empty());
    lemma_two_values_inner(root, s[i], s[j]);
    assert forall|k: int| 0 <= k < s.len() implies codes.dom().contains(#[trigger] s[k]) && codes[s[k]].1 <= 32 by {
        lemma_every_byte_has_code(s, k);
        lemma_code_len(root, Seq::empty(), s[k]);
    }
    lemma_walk_codes(root, s);
    lemma_code_bits_len(s, codes);
    // layout of the output
    lemma_packing_exists(cb);
    let pk = packed(cb);
    let h8 = vstd::bytes::spec_u64_to_le_bytes(cb.len() as u64);
    vstd::bytes::lemma_auto_spec_u64_to_from_le_bytes();
    lemma_weights_bytes_len(w);
    let wb = weights_bytes(w);
    assert(c == h8 + wb + pk);
    assert(c.len() == 1032 + pk.len());
    assert(c.take(8) =~= h8);
    assert(dict_len(c) == 1024);
    // the weights read back
    assert forall|k: int| 0 <= k < 256 implies #[trigger] weights_read(c)[k] == w[k] by {
        lemma_weights_bytes_index(w, k);
        lemma_le4_roundtrip(w[k]);
        assert(c[8 + 4 * k] == wb[4 * k]);
        assert(c[9 + 4 * k] == wb[4 * k + 1]);
        assert(c[10 + 4 * k] == wb[4 * k + 2]);
        assert(c[11 + 4 * k] == wb[4 * k + 3]);
    }
    assert(weights_read(c) =~= w);
    lemma_leaves_sum(w, 256);
    lemma_counts_sum(s);
    // the code bits read back
    let p = payload_bits(c);
    assert(c.skip(1032) =~= pk);
    assert forall|k: int| 0 <= k < p.len() implies p[k] == bits_of(pk, (8 * pk.len()) as int)[k] by {
        assert((8256 + k) / 8 == 1032 + k / 8);
        assert((8256 + k) % 8 == k % 8);
    }
    assert(p =~= bits_of(pk, (8 * pk.len()) as int));
    assert(p.take(cb.len() as int) =~= cb);
    lemma_walked_all(p, cb.len() as int);
    assert(walked_bits(p, cb.len() as int) =~= cb);
}

proof fn lemma_walked_all(p: Seq<bool>, d: int)
    requires
        1 <= d <= p.len(),
        p.len() == 8 * ((d + 7) / 8),
    ensures
        walked_bits(p, d) == p.take(d),
{
    let end = (d + 16383) / 16384 * 16384;
    let q = (d + 16383) / 16384;
    let pb = (d + 7) / 8;
    assert(end >= p.len()) by (nonlinear_arith)
        requires
            end == q * 16384,
            q == (d + 16383) / 16384,
            pb == (d + 7) / 8,
            p.len() == 8 * pb,
            1 <= d,
    ;
    assert(p.skip(p.len() as int) =~= Seq::<bool>::empty());
    assert(p.take(d) + p.skip(p.len() as int) =~= p.take(d));
}

proof fn lemma_code_bits_len(s: Seq<u8>, codes: Map<u8, (u32, u32)>)
    requires
        forall|k: int| 0 <= k < s.len() ==> codes[#[trigger] s[k]].1 <= 32,
    ensures
        code_bits(s, codes).len() <= 32 * s.len(),
    decreases s.len(),
{
    if s.len() > 0 {
        assert(codes[s[s.len() - 1]].1 <= 32);
        lemma_code_bits_len(s.drop_last(), codes);
    }
}

proof fn lemma_weights_bytes_index(w: Seq<u32>, k: int)
    requires
        0 <= k < w.len(),
    ensures
        weights_bytes(w).len() == 4 * w.len(),
        weights_bytes(w)[4 * k] == le4(w[k])[0],
        weights_bytes(w)[4 * k + 1] == le4(w[k])[1],
        weights_bytes(w)[4 * k + 2] == le4(w[k])[2],
        weights_bytes(w)[4 * k + 3] == le4(w[k])[3],
    decreases w.len(),
{
    lemma_weights_bytes_len(w);
    lemma_weights_bytes_len(w.drop_last());
    if k < w.len() - 1 {
        lemma_weights_bytes_index(w.drop_last(), k);
    }
}

} // verus!
