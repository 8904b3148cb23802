//! Huffman trees: building them from weighted leaves, and reading the code
//! of each leaf off its path from the root.
use vstd::prelude::*;
use vstd::std_specs::convert::FromSpecImpl;
use std::collections::HashMap;
use vstd::multiset::Multiset;

verus! {

/// A step from a node to one of its children.
#[derive(Debug, Clone, Copy, PartialEq, Eq, Hash, Structural)]
pub enum Direction {
    Left,
    Right,
}

impl Direction {
    /// The opposite direction.
    pub fn other(&self) -> (d: Self)
        ensures
            d != *self,
    {
        match self {
            Direction::Left => Direction::Right,
            Direction::Right => Direction::Left,
        }
    }
}

/// The bit of a direction: 0 for left, 1 for right.
pub open spec fn dir_bit(d: Direction) -> u32 {
    match d {
        Direction::Left => 0,
        Direction::Right => 1,
    }
}

impl From<Direction> for u32 {
    fn from(dir: Direction) -> (b: u32) {
        match dir {
            Direction::Left => 0,
            Direction::Right => 1,
        }
    }
}

impl FromSpecImpl<Direction> for u32 {
    open spec fn obeys_from_spec() -> bool {
        true
    }

    open spec fn from_spec(v: Direction) -> u32 {
        dir_bit(v)
    }
}

impl From<u32> for Direction {
    fn from(a: u32) -> (d: Direction) {
        match a {
            0 => Direction::Left,
            _ => Direction::Right,
        }
    }
}

impl FromSpecImpl<u32> for Direction {
    open spec fn obeys_from_spec() -> bool {
        true
    }

    open spec fn from_spec(v: u32) -> Direction {
        if v == 0 {
            Direction::Left
        } else {
            Direction::Right
        }
    }
}

/// A node of a Huffman tree: a leaf holds a byte, an inner node two children.
/// Each carries a weight; that of an inner node is the sum of its children's.
#[derive(Debug, PartialEq, Eq, Hash)]
pub enum Node {
    Leaf { value: u8, weight: u32 },
    Inner { l: Box<Node>, r: Box<Node>, weight: u32 },
}

/// `s`, sorted by non-increasing weight, with `x` put after the last node
/// that weighs at least as much.
pub open spec fn insert_desc(s: Seq<Node>, x: Node) -> Seq<Node>
    decreases s.len(),
{
    if s.len() == 0 {
        seq![x]
    } else if s.last().spec_weight() >= x.spec_weight() {
        s.push(x)
    } else {
        insert_desc(s.drop_last(), x).push(s.last())
    }
}

/// `s` sorted by non-increasing weight; nodes of equal weight keep their order.
pub open spec fn sort_desc(s: Seq<Node>) -> Seq<Node>
    decreases s.len(),
{
    if s.len() == 0 {
        s
    } else {
        insert_desc(sort_desc(s.drop_last()), s.last())
    }
}

/// The sum of the weights of `s`.
pub open spec fn weight_sum(s: Seq<Node>) -> int
    decreases s.len(),
{
    if s.len() == 0 {
        0
    } else {
        weight_sum(s.drop_last()) + s.last().spec_weight()
    }
}

/// A sum of weights is not negative.
pub proof fn lemma_weight_sum_nonneg(s: Seq<Node>)
    ensures
        weight_sum(s) >= 0,
    decreases s.len(),
{
    if s.len() > 0 {
        lemma_weight_sum_nonneg(s.drop_last());
    }
}

/// Inserting adds one node and its weight.
pub proof fn lemma_insert_desc(s: Seq<Node>, x: Node)
    ensures
        insert_desc(s, x).len() == s.len() + 1,
        weight_sum(insert_desc(s, x)) == weight_sum(s) + x.spec_weight(),
    decreases s.len(),
{
    if s.len() == 0 {
        assert(seq![x].drop_last() =~= Seq::<Node>::empty());
        assert(weight_sum(seq![x]) == weight_sum(seq![x].drop_last()) + seq![x].last().spec_weight());
    } else if s.last().spec_weight() >= x.spec_weight() {
        assert(s.push(x).drop_last() =~= s);
        assert(weight_sum(s.push(x)) == weight_sum(s.push(x).drop_last()) + s.push(x).last().spec_weight());
    } else {
        lemma_insert_desc(s.drop_last(), x);
        let t = insert_desc(s.drop_last(), x);
        assert(t.push(s.last()).drop_last() =~= t);
        assert(weight_sum(t.push(s.last())) == weight_sum(t) + s.last().spec_weight());
        assert(weight_sum(s) == weight_sum(s.drop_last()) + s.last().spec_weight());
    }
}

/// Sorting keeps the number of nodes and their total weight.
pub proof fn lemma_sort_desc(s: Seq<Node>)
    ensures
        sort_desc(s).len() == s.len(),
        weight_sum(sort_desc(s)) == weight_sum(s),
    decreases s.len(),
{
    if s.len() > 0 {
        lemma_sort_desc(s.drop_last());
        lemma_insert_desc(sort_desc(s.drop_last()), s.last());
    }
}

/// The tree built from `nodes`: sort by non-increasing weight, join the last
/// two (the lighter one on the right) and repeat until one node is left.
pub open spec fn huffman_spec(nodes: Seq<Node>) -> Option<Node>
    decreases nodes.len(),
{
    let s = sort_desc(nodes);
    proof {
        lemma_sort_desc(nodes);
    }
    if s.len() == 0 {
        None
    } else if s.len() == 1 {
        Some(s[0])
    } else {
        huffman_spec(s.take(s.len() - 2).push(Node::merged(s[s.len() - 2], s[s.len() - 1])))
    }
}

fn insert_by_weight(out: &mut Vec<Node>, x: Node)
    ensures
        final(out)@ == insert_desc(old(out)@, x),
{
    let mut j = out.len();
    let ghost o = out@;
    assert(o.take(o.len() as int) =~= o);
    assert(o + o.skip(o.len() as int) =~= o);
    while j > 0 && out[j - 1].weight() < x.weight()
        invariant
            j <= o.len(),
            out@ == o,
            insert_desc(o, x) == insert_desc(o.take(j as int), x) + o.skip(j as int),
        decreases j,
    {
        proof {
            let t = o.take(j as int);
            assert(t.last() == o[j - 1]);
            assert(t.drop_last() =~= o.take(j - 1));
            assert(insert_desc(t, x) == insert_desc(o.take(j - 1), x).push(o[j - 1]));
            assert(insert_desc(o.take(j - 1), x).push(o[j - 1]) + o.skip(j as int) =~= insert_desc(
                o.take(j - 1),
                x,
            ) + o.skip(j - 1));
        }
        j = j - 1;
    }
    proof {
        let t = o.take(j as int);
        if j == 0 {
            assert(t =~= Seq::<Node>::empty());
        } else {
            assert(t.last() == o[j - 1]);
        }
        assert(insert_desc(t, x) == t.push(x));
        assert(t.push(x) + o.skip(j as int) =~= o.insert(j as int, x));
    }
    out.insert(j, x);
}

fn sort_by_weight(v: Vec<Node>) -> (r: Vec<Node>)
    ensures
        r@ == sort_desc(v@),
{
    let ghost orig = v@;
    let mut v = v;
    let mut out: Vec<Node> = Vec::new();
    let ghost mut k: int = 0;
    assert(orig.take(0) =~= Seq::<Node>::empty());
    assert(orig.skip(0) =~= orig);
    while v.len() > 0
        invariant
            0 <= k <= orig.len(),
            v@ == orig.skip(k),
            out@ == sort_desc(orig.take(k)),
        decreases v@.len(),
    {
        let x = v.remove(0);
        proof {
            assert(orig.take(k + 1).drop_last() =~= orig.take(k));
            assert(orig.take(k + 1).last() == x);
            assert(orig.skip(k).remove(0) =~= orig.skip(k + 1));
        }
        insert_by_weight(&mut out, x);
        proof {
            k = k + 1;
        }
    }
    assert(orig.take(k) =~= orig);
    out
}

/// The number whose bit `i` is the bit of the `i`-th direction of `path`.
pub open spec fn bits_num(path: Seq<Direction>) -> nat
    decreases path.len(),
{
    if path.len() == 0 {
        0
    } else {
        (bits_num(path.drop_last()) + dir_bit(path.last()) * vstd::arithmetic::power2::pow2(
            (path.len() - 1) as nat,
        )) as nat
    }
}

/// The code of a path: its directions as a number, and its length.
pub open spec fn code_pair(path: Seq<Direction>) -> (u32, u32) {
    (bits_num(path) as u32, path.len() as u32)
}

/// The code of each byte at a leaf of `n`, `path` leading to `n`; where a
/// byte is at several leaves, the last in left-to-right order counts.
pub open spec fn code_map(n: Node, path: Seq<Direction>) -> Map<u8, (u32, u32)>
    decreases n,
{
    match n {
        Node::Leaf { value, .. } => map![value => code_pair(path)],
        Node::Inner { l, r, .. } => code_map(*l, path.push(Direction::Left)).union_prefer_right(
            code_map(*r, path.push(Direction::Right)),
        ),
    }
}

/// Length of the longest path from `n` down to a leaf.
pub open spec fn tree_depth(n: Node) -> nat
    decreases n,
{
    match n {
        Node::Leaf { .. } => 0,
        Node::Inner { l, r, .. } => {
            let a = tree_depth(*l);
            let b = tree_depth(*r);
            1 + if a >= b { a } else { b }
        },
    }
}

/// A path of `k` directions gives a number below `2^k`.
pub proof fn lemma_bits_num_bound(path: Seq<Direction>)
    ensures
        bits_num(path) < vstd::arithmetic::power2::pow2(path.len()),
    decreases path.len(),
{
    if path.len() > 0 {
        lemma_bits_num_bound(path.drop_last());
        vstd::arithmetic::power2::lemma_pow2_unfold(path.len());
        let p = vstd::arithmetic::power2::pow2((path.len() - 1) as nat);
        if dir_bit(path.last()) == 0 {
            assert(dir_bit(path.last()) * p == 0);
        } else {
            assert(dir_bit(path.last()) == 1);
            assert(1 * p == p);
        }
    } else {
        vstd::arithmetic::power2::lemma2_to64();
    }
}

fn collect_codes(n: &Node, numeric: u32, depth: u32, dict: &mut HashMap<u8, (u32, u32)>, Ghost(path): Ghost<Seq<Direction>>)
    requires
        depth == path.len(),
        depth + tree_depth(*n) <= 32,
        numeric == bits_num(path),
    ensures
        final(dict)@ == old(dict)@.union_prefer_right(code_map(*n, path)),
    decreases n,
{
    broadcast use vstd::std_specs::hash::group_hash_axioms;
    match n {
        Node::Leaf { value, .. } => {
            dict.insert(*value, (numeric, depth));
            proof {
                vstd::arithmetic::power2::lemma2_to64();
                lemma_bits_num_bound(path);
                if depth < 32 {
                    vstd::arithmetic::power2::lemma_pow2_strictly_increases(depth as nat, 32);
                }
                assert(old(dict)@.insert(*value, (numeric, depth)) =~= old(dict)@.union_prefer_right(
                    map![*value => code_pair(path)],
                ));
            }
        },
        Node::Inner { l, r, .. } => {
            proof {
                lemma_bits_num_bound(path);
                vstd::arithmetic::power2::lemma2_to64();
                if depth < 31 {
                    vstd::arithmetic::power2::lemma_pow2_strictly_increases(depth as nat, 31);
                }
                vstd::bits::lemma_u32_shl_is_mul(1, depth);
                assert(path.push(Direction::Left).drop_last() =~= path);
                assert(path.push(Direction::Right).drop_last() =~= path);
            }
            let pow: u32 = 1u32 << depth;
            let left_bit = u32::from(Direction::Left) << depth;
            let right_bit = u32::from(Direction::Right) << depth;
            assert(left_bit == 0u32 && numeric | left_bit == numeric) by (bit_vector)
                requires
                    left_bit == 0u32 << depth,
                    depth < 32,
            ;
            assert(numeric | right_bit == numeric + pow) by (bit_vector)
                requires
                    numeric < pow,
                    pow == 1u32 << depth,
                    right_bit == 1u32 << depth,
                    depth < 32,
            ;
            assert(path.push(Direction::Left).last() == Direction::Left);
            assert(path.push(Direction::Right).last() == Direction::Right);
            assert(0 * vstd::arithmetic::power2::pow2(path.len()) == 0);
            assert(1 * vstd::arithmetic::power2::pow2(path.len()) == pow);
            assert(bits_num(path.push(Direction::Left)) == numeric);
            assert(bits_num(path.push(Direction::Right)) == numeric + pow);
            collect_codes(&**l, numeric | left_bit, depth + 1, dict, Ghost(path.push(Direction::Left)));
            collect_codes(&**r, numeric | right_bit, depth + 1, dict, Ghost(path.push(Direction::Right)));
            proof {
                assert(old(dict)@.union_prefer_right(code_map(**l, path.push(Direction::Left))).union_prefer_right(
                    code_map(**r, path.push(Direction::Right)),
                ) =~= old(dict)@.union_prefer_right(code_map(*n, path)));
            }
        },
    }
}

/// The bytes at the leaves of `n`.
pub open spec fn leaf_vals(n: Node) -> Set<u8>
    decreases n,
{
    match n {
        Node::Leaf { value, .. } => set![value],
        Node::Inner { l, r, .. } => leaf_vals(*l) + leaf_vals(*r),
    }
}

/// The bytes at the leaves of the nodes of `s`.
pub open spec fn seq_vals(s: Seq<Node>) -> Set<u8>
    decreases s.len(),
{
    if s.len() == 0 {
        Set::empty()
    } else {
        seq_vals(s.drop_last()) + leaf_vals(s.last())
    }
}

/// The bytes with a code are those at the leaves.
pub proof fn lemma_code_map_dom(n: Node, path: Seq<Direction>)
    ensures
        code_map(n, path).dom() == leaf_vals(n),
    decreases n,
{
    match n {
        Node::Leaf { value, .. } => {
            assert(code_map(n, path).dom() =~= set![value]);
        },
        Node::Inner { l, r, .. } => {
            lemma_code_map_dom(*l, path.push(Direction::Left));
            lemma_code_map_dom(*r, path.push(Direction::Right));
            assert(code_map(n, path).dom() =~= leaf_vals(n));
        },
    }
}

proof fn lemma_insert_vals(s: Seq<Node>, x: Node)
    ensures
        seq_vals(insert_desc(s, x)) == seq_vals(s) + leaf_vals(x),
    decreases s.len(),
{
    if s.len() == 0 {
        assert(seq![x].drop_last() =~= Seq::<Node>::empty());
        assert(seq_vals(seq![x]) == seq_vals(seq![x].drop_last()) + leaf_vals(seq![x].last()));
        assert(seq_vals(seq![x]) =~= seq_vals(s) + leaf_vals(x));
    } else if s.last().spec_weight() >= x.spec_weight() {
        assert(s.push(x).drop_last() =~= s);
    } else {
        lemma_insert_vals(s.drop_last(), x);
        let t = insert_desc(s.drop_last(), x);
        assert(t.push(s.last()).drop_last() =~= t);
        assert(seq_vals(t.push(s.last())) =~= seq_vals(s) + leaf_vals(x));
    }
}

proof fn lemma_sort_vals(s: Seq<Node>)
    ensures
        seq_vals(sort_desc(s)) == seq_vals(s),
    decreases s.len(),
{
    if s.len() > 0 {
        lemma_sort_vals(s.drop_last());
        lemma_insert_vals(sort_desc(s.drop_last()), s.last());
    }
}

/// The tree built from a non-empty list has the bytes of its nodes at its leaves.
pub proof fn lemma_huffman_vals(s: Seq<Node>)
    requires
        s.len() > 0,
    ensures
        huffman_spec(s) is Some,
        leaf_vals(huffman_spec(s)->0) == seq_vals(s),
    decreases s.len(),
{
    let t = sort_desc(s);
    lemma_sort_desc(s);
    lemma_sort_vals(s);
    if t.len() == 1 {
        assert(t.drop_last() =~= Seq::<Node>::empty());
        assert(seq_vals(t) == seq_vals(t.drop_last()) + leaf_vals(t.last()));
        assert(seq_vals(t) =~= leaf_vals(t[0]));
    } else {
        let n = t.len();
        let m = Node::merged(t[n - 2], t[n - 1]);
        let u = t.take(n - 2).push(m);
        lemma_huffman_vals(u);
        assert(u.drop_last() =~= t.take(n - 2));
        assert(t.drop_last().drop_last() =~= t.take(n - 2));
        assert(t.drop_last().last() == t[n - 2]);
        assert(seq_vals(u) == seq_vals(t.take(n - 2)) + leaf_vals(m));
        assert(leaf_vals(m) == leaf_vals(t[n - 2]) + leaf_vals(t[n - 1]));
        assert(seq_vals(t) == seq_vals(t.drop_last()) + leaf_vals(t[n - 1]));
        assert(seq_vals(t.drop_last()) == seq_vals(t.take(n - 2)) + leaf_vals(t[n - 2]));
        assert(seq_vals(u) =~= seq_vals(t));
    }
}

impl Clone for Node {
    fn clone(&self) -> (res: Self)
        ensures
            res == *self,
        decreases self,
    {
        match self {
            Node::Leaf { value, weight } => Node::Leaf { value: *value, weight: *weight },
            Node::Inner { l, r, weight } => {
                let lc = (**l).clone();
                let rc = (**r).clone();
                Node::Inner { l: Box::new(lc), r: Box::new(rc), weight: *weight }
            },
        }
    }
}

impl Node {
    /// The weight of the node.
    pub open spec fn spec_weight(self) -> u32 {
        match self {
            Node::Leaf { weight, .. } => weight,
            Node::Inner { weight, .. } => weight,
        }
    }

    /// The inner node over `l` and `r`.
    pub open spec fn merged(l: Node, r: Node) -> Node {
        Node::Inner { l: Box::new(l), r: Box::new(r), weight: (l.spec_weight() + r.spec_weight()) as u32 }
    }

    /// Builds the Huffman tree of `nodes`; `None` when there are none.
    #[verifier::loop_isolation(false)]
    pub fn huffman_tree(nodes: Vec<Node>) -> (r: Option<Self>)
        requires
            weight_sum(nodes@) <= u32::MAX,
        ensures
            r == huffman_spec(nodes@),
    {
        let ghost orig = nodes@;
        let mut nodes = nodes;
        loop
            invariant
                weight_sum(nodes@) <= u32::MAX,
                huffman_spec(nodes@) == huffman_spec(orig),
            decreases nodes@.len(),
        {
            let ghost before = nodes@;
            proof {
                lemma_sort_desc(before);
            }
            nodes = sort_by_weight(nodes);
            let ghost s = nodes@;
            match (nodes.pop(), nodes.pop()) {
                (Some(right), Some(left)) => {
                    proof {
                        assert(s.drop_last().drop_last() =~= s.take(s.len() - 2));
                        assert(s.drop_last().last() == s[s.len() - 2]);
                        assert(weight_sum(s) == weight_sum(s.drop_last()) + right.spec_weight());
                        assert(weight_sum(s.drop_last()) == weight_sum(s.drop_last().drop_last())
                            + left.spec_weight());
                        lemma_weight_sum_nonneg(s.take(s.len() - 2));
                        let m = Node::merged(left, right);
                        assert(s.take(s.len() - 2).push(m).drop_last() =~= s.take(s.len() - 2));
                    }
                    nodes.push(Node::from_children(left, right));
                },
                (Some(root), None) => {
                    assert(huffman_spec(before) == Some(s[0]));
                    return Some(root);
                },
                _ => {
                    assert(huffman_spec(before) == None::<Node>);
                    return None;
                },
            }
        }
    }

    /// The code of each byte in the tree: its path from the root as a
    /// number (bit `i` for the `i`-th step, 1 for right) and the path's length.
    pub fn generate_dict(&self) -> (d: HashMap<u8, (u32, u32)>)
        requires
            tree_depth(*self) <= 32,
        ensures
            d@ == code_map(*self, Seq::empty()),
    {
        broadcast use vstd::std_specs::hash::group_hash_axioms;
        let mut encoding_dictionary = HashMap::<u8, (u32, u32)>::new();
        collect_codes(self, 0, 0, &mut encoding_dictionary, Ghost(Seq::empty()));
        assert(Map::<u8, (u32, u32)>::empty().union_prefer_right(code_map(*self, Seq::empty())) =~= code_map(
            *self,
            Seq::empty(),
        ));
        encoding_dictionary
    }

    /// Joins two nodes under a new inner node.
    pub fn from_children(l: Node, r: Node) -> (n: Self)
        requires
            l.spec_weight() + r.spec_weight() <= u32::MAX,
        ensures
            n == Node::merged(l, r),
            n.spec_weight() == l.spec_weight() + r.spec_weight(),
    {
        let weight = l.weight() + r.weight();
        Node::Inner { l: Box::new(l), r: Box::new(r), weight }
    }

    /// The byte of a leaf.
    pub fn value(&self) -> (v: Option<u8>)
        ensures
            v == match self {
                Node::Leaf { value, .. } => Some(*value),
                Node::Inner { .. } => None::<u8>,
            },
    {
        match self {
            Node::Inner { .. } => None,
            Node::Leaf { value, .. } => Some(*value),
        }
    }

    /// The weight of the node.
    pub fn weight(&self) -> (w: u32)
        ensures
            w == self.spec_weight(),
    {
        match self {
            Node::Inner { weight, .. } => *weight,
            Node::Leaf { weight, .. } => *weight,
        }
    }

    /// The child in direction `dir`; a leaf has none.
    pub fn get_child(&self, dir: Direction) -> (c: Option<&Self>)
        ensures
            c == match self {
                Node::Inner { l, r, .. } => match dir {
                    Direction::Left => Some(&**l),
                    Direction::Right => Some(&**r),
                },
                Node::Leaf { .. } => None::<&Node>,
            },
    {
        match self {
            Node::Inner { l, r, .. } => match dir {
                Direction::Left => Some(&**l),
                Direction::Right => Some(&**r),
            },
            Node::Leaf { .. } => None,
        }
    }

    /// Whether the node is a leaf.
    pub fn is_leaf(&self) -> (b: bool)
        ensures
            b == (self is Leaf),
    {
        match self {
            Node::Leaf { .. } => true,
            Node::Inner { .. } => false,
        }
    }
}


/// The nodes under `n` in preorder (a node, then the nodes under its left
/// child, then those under its right child), each with the (node, direction)
/// steps that lead to it, after the steps `anc` that lead to `n`.
pub open spec fn preorder<'a>(n: &'a Node, anc: Seq<(&'a Node, Direction)>) -> Seq<(&'a Node, Seq<(&'a Node, Direction)>)>
    decreases n,
{
    seq![(n, anc)] + match n {
        Node::Inner { l, r, .. } => preorder(&**l, anc.push((n, Direction::Left))) + preorder(
            &**r,
            anc.push((n, Direction::Right)),
        ),
        Node::Leaf { .. } => Seq::empty(),
    }
}

/// The nodes still to visit once the subtree at the end of the steps
/// `stack` is done: for each step to the left, from the last one back, the
/// right subtree of its node.
pub open spec fn after_stack<'a>(stack: Seq<(&'a Node, Direction)>) -> Seq<(&'a Node, Seq<(&'a Node, Direction)>)>
    decreases stack.len(),
{
    if stack.len() == 0 {
        Seq::empty()
    } else {
        let (p, d) = stack.last();
        let rest = stack.drop_last();
        match p {
            Node::Inner { r, .. } => if d == Direction::Right {
                after_stack(rest)
            } else {
                preorder(&**r, rest.push((p, Direction::Right))) + after_stack(rest)
            },
            Node::Leaf { .. } => after_stack(rest),
        }
    }
}

/// Walks a tree in preorder, yielding each node with the steps that lead to it.
#[derive(Debug, Clone)]
pub struct NodeIter<'a> {
    pub current_node: Option<&'a Node>,
    pub path: Vec<(&'a Node, Direction)>,
}

impl<'a> NodeIter<'a> {
    /// The nodes still to be yielded, in order.
    pub open spec fn remaining(self) -> Seq<(&'a Node, Seq<(&'a Node, Direction)>)> {
        match self.current_node {
            Some(c) => preorder(c, self.path@) + after_stack(self.path@),
            None => Seq::empty(),
        }
    }

    /// A walk over the tree under `root`.
    pub fn new(root: &'a Node) -> (it: Self)
        ensures
            it.remaining() == preorder(root, Seq::empty()),
    {
        let it = NodeIter { current_node: Some(root), path: Vec::new() };
        assert(preorder(root, Seq::empty()) + Seq::empty() =~= preorder(root, Seq::empty()));
        it
    }

    /// The next node and the steps that lead to it.
    #[verifier::loop_isolation(false)]
    pub fn next(&mut self) -> (item: Option<(&'a Node, Vec<(&'a Node, Direction)>)>)
        ensures
            old(self).remaining().len() == 0 ==> item is None && final(self).remaining().len() == 0,
            old(self).remaining().len() > 0 ==> (item matches Some((n, p)) && old(self).remaining()[0] == (n, p@)
                && final(self).remaining() == old(self).remaining().drop_first()),
            seq![
                match item {
                    Some((n, p)) => Some((n, p@)),
                    None => None,
                },
            ] == iter_run(old(self).remaining(), 1),
    {
        proof {
            let rem = self.remaining();
            if rem.len() > 0 {
                assert(iter_run(rem.drop_first(), 0) =~= Seq::<Option<(&'a Node, Seq<(&'a Node, Direction)>)>>::empty());
            } else {
                assert(iter_run(rem, 0) =~= Seq::<Option<(&'a Node, Seq<(&'a Node, Direction)>)>>::empty());
            }
        }
        if let Some(current_node) = self.current_node {
            let ghost rem = self.remaining();
            let ghost st = self.path@;
            let mut copy: Vec<(&'a Node, Direction)> = Vec::new();
            let mut i: usize = 0;
            while i < self.path.len()
                invariant
                    i <= self.path@.len(),
                    copy@ == self.path@.take(i as int),
                decreases self.path@.len() - i,
            {
                copy.push(self.path[i]);
                i = i + 1;
            }
            assert(self.path@.take(i as int) =~= self.path@);
            let return_item = (current_node, copy);
            assert(rem[0] == (current_node, st));
            match current_node {
                Node::Inner { l, .. } => {
                    self.path.push((current_node, Direction::Left));
                    self.current_node = Some(&**l);
                    proof {
                        let ls = preorder(&**l, st.push((current_node, Direction::Left)));
                        let rs = match current_node {
                            Node::Inner { r, .. } => preorder(&**r, st.push((current_node, Direction::Right))),
                            Node::Leaf { .. } => Seq::empty(),
                        };
                        assert(st.push((current_node, Direction::Left)).drop_last() =~= st);
                        assert(after_stack(self.path@) == rs + after_stack(st));
                        assert(rem =~= seq![(current_node, st)] + (ls + rs) + after_stack(st));
                        assert(rem.drop_first() =~= ls + (rs + after_stack(st)));
                    }
                },
                Node::Leaf { .. } => {
                    assert(rem =~= seq![(current_node, st)] + after_stack(st));
                    assert(rem.drop_first() =~= after_stack(st));
                    let ghost target = after_stack(st);
                    loop
                        invariant
                            after_stack(self.path@) == target,
                        decreases self.path@.len(),
                    {
                        if let Some((parent, last_direction)) = self.path.pop() {
                            let ghost rest = self.path@;
                            if let Node::Inner { .. } = parent {
                                if last_direction == Direction::Right {
                                    self.current_node = Some(parent);
                                } else if last_direction == Direction::Left {
                                    self.path.push((parent, Direction::Right));
                                    self.current_node = parent.get_child(Direction::Right);
                                    proof {
                                        assert(self.path@.drop_last() =~= rest);
                                        match parent {
                                            Node::Inner { r, .. } => {
                                                assert(self.current_node == Some(&**r));
                                            },
                                            Node::Leaf { .. } => {},
                                        }
                                        assert(self.remaining() == target);
                                    }
                                    break;
                                }
                            }
                        } else {
                            self.current_node = None;
                            return Some(return_item);
                        }
                    }
                },
            }
            return Some(return_item);
        }
        None
    }
}


/// The node reached from `n` by the steps `p`; `None` if a step leaves a leaf.
pub open spec fn path_to(n: Node, p: Seq<Direction>) -> Option<Node>
    decreases p.len(),
{
    if p.len() == 0 {
        Some(n)
    } else {
        match n {
            Node::Inner { l, r, .. } => path_to(
                if p[0] == Direction::Left {
                    *l
                } else {
                    *r
                },
                p.drop_first(),
            ),
            Node::Leaf { .. } => None,
        }
    }
}

/// The steps `q` lead from `n` to a leaf that holds `v`.
pub open spec fn leaf_at(n: Node, q: Seq<Direction>, v: u8) -> bool {
    path_to(n, q) matches Some(Node::Leaf { value, .. }) && value == v
}

/// The path to the leaf of each byte of `n`, after the steps `prefix`; where a
/// byte is at several leaves, the last in left-to-right order counts.
pub open spec fn path_map(n: Node, prefix: Seq<Direction>) -> Map<u8, Seq<Direction>>
    decreases n,
{
    match n {
        Node::Leaf { value, .. } => map![value => prefix],
        Node::Inner { l, r, .. } => path_map(*l, prefix.push(Direction::Left)).union_prefer_right(
            path_map(*r, prefix.push(Direction::Right)),
        ),
    }
}

/// The code of each byte is the code of its path, and the path leads to a
/// leaf holding the byte.
pub proof fn lemma_path_map(n: Node, prefix: Seq<Direction>)
    ensures
        path_map(n, prefix).dom() == code_map(n, prefix).dom(),
        forall|v: u8| #[trigger] path_map(n, prefix).dom().contains(v) ==> {
            &&& code_map(n, prefix)[v] == code_pair(path_map(n, prefix)[v])
            &&& prefix.len() <= path_map(n, prefix)[v].len() <= prefix.len() + tree_depth(n)
            &&& path_map(n, prefix)[v].take(prefix.len() as int) == prefix
            &&& leaf_at(n, path_map(n, prefix)[v].skip(prefix.len() as int), v)
        },
    decreases n,
{
    match n {
        Node::Leaf { value, .. } => {
            assert(path_map(n, prefix).dom() =~= code_map(n, prefix).dom());
            assert(prefix.take(prefix.len() as int) =~= prefix);
            assert(prefix.skip(prefix.len() as int) =~= Seq::<Direction>::empty());
        },
        Node::Inner { l, r, .. } => {
            let pl = prefix.push(Direction::Left);
            let pr = prefix.push(Direction::Right);
            lemma_path_map(*l, pl);
            lemma_path_map(*r, pr);
            assert(path_map(n, prefix).dom() =~= code_map(n, prefix).dom());
            assert forall|v: u8| #[trigger] path_map(n, prefix).dom().contains(v) implies {
                &&& code_map(n, prefix)[v] == code_pair(path_map(n, prefix)[v])
                &&& prefix.len() <= path_map(n, prefix)[v].len() <= prefix.len() + tree_depth(n)
                &&& path_map(n, prefix)[v].take(prefix.len() as int) == prefix
                &&& leaf_at(n, path_map(n, prefix)[v].skip(prefix.len() as int), v)
            } by {
                let k = prefix.len() as int;
                if path_map(*r, pr).dom().contains(v) {
                    let p = path_map(*r, pr)[v];
                    assert(p.take(k + 1) == pr);
                    assert(p.take(k) =~= prefix) by {
                        assert forall|i: int| 0 <= i < k implies p[i] == prefix[i] by {
                            assert(p.take(k + 1)[i] == pr[i]);
                        }
                    }
                    let q = p.skip(k);
                    assert(q[0] == Direction::Right) by {
                        assert(p.take(k + 1)[k] == pr[k]);
                    }
                    assert(q.drop_first() =~= p.skip(k + 1));
                } else {
                    let p = path_map(*l, pl)[v];
                    assert(p.take(k + 1) == pl);
                    assert(p.take(k) =~= prefix) by {
                        assert forall|i: int| 0 <= i < k implies p[i] == prefix[i] by {
                            assert(p.take(k + 1)[i] == pl[i]);
                        }
                    }
                    let q = p.skip(k);
                    assert(q[0] == Direction::Left) by {
                        assert(p.take(k + 1)[k] == pl[k]);
                    }
                    assert(q.drop_first() =~= p.skip(k + 1));
                }
            }
        },
    }
}

/// A tree whose leaves hold two different bytes is an inner node.
pub proof fn lemma_two_values_inner(n: Node, a: u8, b: u8)
    requires
        leaf_vals(n).contains(a),
        leaf_vals(n).contains(b),
        a != b,
    ensures
        n is Inner,
{
}

/// What `m` successive calls of `NodeIter::next` yield while `rem` remains,
/// each call as its contract gives it (the steps taken by their view).
pub open spec fn iter_run<'a>(rem: Seq<(&'a Node, Seq<(&'a Node, Direction)>)>, m: nat) -> Seq<
    Option<(&'a Node, Seq<(&'a Node, Direction)>)>,
>
    decreases m,
{
    if m == 0 {
        Seq::empty()
    } else if rem.len() == 0 {
        seq![None] + iter_run(rem, (m - 1) as nat)
    } else {
        seq![Some(rem[0])] + iter_run(rem.drop_first(), (m - 1) as nat)
    }
}

/// An iterator yields what remains, in order, each item once, and then
/// `None` on every later call; from `NodeIter::new(root)` that is every node
/// of the tree in preorder, with the steps from the root to it.
pub proof fn lemma_node_iter_run<'a>(rem: Seq<(&'a Node, Seq<(&'a Node, Direction)>)>, m: nat)
    ensures
        iter_run(rem, m).len() == m,
        forall|k: int|
            0 <= k < m ==> #[trigger] iter_run(rem, m)[k] == if k < rem.len() {
                Some(rem[k])
            } else {
                None
            },
    decreases m,
{
    if m > 0 {
        let r = iter_run(rem, m);
        if rem.len() == 0 {
            lemma_node_iter_run(rem, (m - 1) as nat);
            assert forall|k: int| 0 <= k < m implies #[trigger] r[k] == if k < rem.len() {
                Some(rem[k])
            } else {
                None
            } by {
                if k > 0 {
                    assert(r[k] == iter_run(rem, (m - 1) as nat)[k - 1]);
                }
            }
        } else {
            lemma_node_iter_run(rem.drop_first(), (m - 1) as nat);
            assert forall|k: int| 0 <= k < m implies #[trigger] r[k] == if k < rem.len() {
                Some(rem[k])
            } else {
                None
            } by {
                if k > 0 {
                    assert(r[k] == iter_run(rem.drop_first(), (m - 1) as nat)[k - 1]);
                }
            }
        }
    }
}

/// `s` is ordered by non-increasing weight.
pub open spec fn weights_desc(s: Seq<Node>) -> bool {
    forall|i: int, j: int| 0 <= i < j < s.len() ==> (#[trigger] s[i]).spec_weight() >= (#[trigger] s[j]).spec_weight()
}

proof fn lemma_insert_desc_order(s: Seq<Node>, x: Node)
    requires
        weights_desc(s),
    ensures
        weights_desc(insert_desc(s, x)),
        insert_desc(s, x).to_multiset() =~= s.to_multiset().insert(x),
    decreases s.len(),
{
    broadcast use vstd::seq_lib::group_to_multiset_ensures;

    if s.len() == 0 {
        assert(seq![x] =~= Seq::<Node>::empty().push(x));
    } else if s.last().spec_weight() >= x.spec_weight() {
        let r = s.push(x);
        assert forall|i: int, j: int| 0 <= i < j < r.len() implies (#[trigger] r[i]).spec_weight()
            >= (#[trigger] r[j]).spec_weight() by {
            if j == s.len() {
                if i < s.len() - 1 {
                    assert(s[i].spec_weight() >= s[s.len() - 1].spec_weight());
                }
            } else {
                assert(r[i] == s[i] && r[j] == s[j]);
            }
        }
    } else {
        let d = s.drop_last();
        let l = s.last();
        assert(weights_desc(d)) by {
            assert forall|i: int, j: int| 0 <= i < j < d.len() implies (#[trigger] d[i]).spec_weight()
                >= (#[trigger] d[j]).spec_weight() by {
                assert(d[i] == s[i] && d[j] == s[j]);
            }
        }
        lemma_insert_desc_order(d, x);
        let q = insert_desc(d, x);
        let r = q.push(l);
        assert forall|i: int| 0 <= i < q.len() implies (#[trigger] q[i]).spec_weight() >= l.spec_weight() by {
            assert(q.contains(q[i]));
            assert(q.to_multiset().count(q[i]) > 0);
            if q[i] != x {
                assert(d.to_multiset().count(q[i]) > 0);
                assert(d.contains(q[i]));
                let k = choose|k: int| 0 <= k < d.len() && d[k] == q[i];
                assert(s[k] == d[k]);
                assert(s[k].spec_weight() >= s[s.len() - 1].spec_weight());
            }
        }
        assert forall|i: int, j: int| 0 <= i < j < r.len() implies (#[trigger] r[i]).spec_weight()
            >= (#[trigger] r[j]).spec_weight() by {
            assert(r[i] == q[i]);
            if j < q.len() {
                assert(r[j] == q[j]);
            }
        }
        assert(s =~= d.push(l));
        assert(q.to_multiset().insert(l) =~= d.to_multiset().insert(l).insert(x));
    }
}

/// Sorting orders the nodes by non-increasing weight and keeps them all.
pub proof fn lemma_sort_desc_order(s: Seq<Node>)
    ensures
        weights_desc(sort_desc(s)),
        sort_desc(s).to_multiset() =~= s.to_multiset(),
    decreases s.len(),
{
    broadcast use vstd::seq_lib::group_to_multiset_ensures;

    if s.len() > 0 {
        lemma_sort_desc_order(s.drop_last());
        lemma_insert_desc_order(sort_desc(s.drop_last()), s.last());
        assert(s =~= s.drop_last().push(s.last()));
    }
}

/// One round of Huffman's construction on the nodes `m`: two nodes that
/// weigh no more than any other node left are taken out and replaced by the
/// node that joins them, the heavier (or equal) one `a` on the left.
pub open spec fn greedy_round(m: Multiset<Node>, next: Multiset<Node>) -> bool {
    exists|a: Node, b: Node|
        #![trigger m.remove(a).remove(b)]
        {
            &&& m.count(a) > 0
            &&& m.remove(a).count(b) > 0
            &&& a.spec_weight() >= b.spec_weight()
            &&& forall|c: Node|
                m.remove(a).remove(b).count(c) > 0 ==> a.spec_weight() <= c.spec_weight()
                    && b.spec_weight() <= c.spec_weight()
            &&& next == m.remove(a).remove(b).insert(Node::merged(a, b))
        }
}

/// `trace` is a run of Huffman's construction: each collection of nodes
/// comes from the one before it by a greedy round, down to a single node.
pub open spec fn greedy_trace(trace: Seq<Multiset<Node>>) -> bool {
    &&& trace.len() >= 1
    &&& forall|k: int| 0 <= k < trace.len() - 1 ==> greedy_round(#[trigger] trace[k], trace[k + 1])
    &&& trace.last().len() == 1
}

/// The tree built from `nodes` is the outcome of Huffman's construction:
/// starting from the nodes, each round joins two nodes no heavier than any
/// other node left, until one is left, and that one is the tree.
pub proof fn lemma_huffman_greedy(nodes: Seq<Node>)
    requires
        nodes.len() >= 1,
    ensures
        huffman_spec(nodes) is Some,
        exists|trace: Seq<Multiset<Node>>|
            greedy_trace(trace) && trace[0] == nodes.to_multiset() && trace.last() == Multiset::singleton(
                huffman_spec(nodes)->0,
            ),
    decreases nodes.len(),
{
    broadcast use vstd::seq_lib::group_to_multiset_ensures;

    let s = sort_desc(nodes);
    lemma_sort_desc(nodes);
    lemma_sort_desc_order(nodes);
    let n = s.len() as int;
    if n == 1 {
        assert(s =~= Seq::<Node>::empty().push(s[0]));
        assert(nodes.to_multiset() =~= Multiset::singleton(s[0]));
        let trace = seq![nodes.to_multiset()];
        assert(trace.last() == trace[0]);
        assert(greedy_trace(trace));
    } else {
        let a = s[n - 2];
        let b = s[n - 1];
        let x = s.take(n - 2);
        let t = x.push(Node::merged(a, b));
        assert(huffman_spec(nodes) == huffman_spec(t));
        lemma_huffman_greedy(t);
        let trace2 = choose|trace: Seq<Multiset<Node>>|
            greedy_trace(trace) && trace[0] == t.to_multiset() && trace.last() == Multiset::singleton(
                huffman_spec(t)->0,
            );
        let m = nodes.to_multiset();
        assert(s =~= x.push(a).push(b));
        assert(m =~= x.to_multiset().insert(a).insert(b));
        assert(m.remove(a) =~= x.to_multiset().insert(b));
        assert(m.remove(a).remove(b) =~= x.to_multiset());
        assert forall|c: Node| m.remove(a).remove(b).count(c) > 0 implies a.spec_weight() <= c.spec_weight()
            && b.spec_weight() <= c.spec_weight() by {
            assert(x.contains(c));
            let k = choose|k: int| 0 <= k < x.len() && x[k] == c;
            assert(s[k] == c);
            assert(s[k].spec_weight() >= s[n - 2].spec_weight());
            assert(s[k].spec_weight() >= s[n - 1].spec_weight());
        }
        assert(s[n - 2].spec_weight() >= s[n - 1].spec_weight());
        assert(t.to_multiset() =~= m.remove(a).remove(b).insert(Node::merged(a, b)));
        assert(greedy_round(m, t.to_multiset()));
        let trace = seq![m] + trace2;
        assert forall|k: int| 0 <= k < trace.len() - 1 implies greedy_round(#[trigger] trace[k], trace[k + 1]) by {
            if k > 0 {
                assert(trace[k] == trace2[k - 1]);
                assert(trace[k + 1] == trace2[k]);
            } else {
                assert(trace[1] == trace2[0]);
            }
        }
        assert(trace.last() == trace2.last());
        assert(greedy_trace(trace));
    }
}

} // verus!
