//! Burrows-Wheeler transform of fixed-size blocks.
//!
//! A block is encoded as the last column of the table of its rotations sorted
//! lexicographically, together with the row at which the block itself stands.
//! Rows that are equal are kept in the order of their rotation amount, which
//! is the order a stable sort of the rotations gives.
use vstd::prelude::*;
use rdxsort::RdxSort;
use crate::text::push_char;

verus! {

/// Longest block the transform sorts; its rows are sorted as arrays of this size.
pub const MAX_BLOCK_LEN: usize = 32;

/// `a` comes strictly before `b` in lexicographic order (as a proper
/// prefix, or at the first position where they differ).
pub open spec fn lex_lt(a: Seq<u8>, b: Seq<u8>) -> bool
    decreases a.len(),
{
    if b.len() == 0 {
        false
    } else if a.len() == 0 {
        true
    } else if a[0] != b[0] {
        a[0] < b[0]
    } else {
        lex_lt(a.drop_first(), b.drop_first())
    }
}

/// Order of (row, tag) pairs: by row, then by tag.
pub open spec fn row_pair_lt(a: Seq<u8>, x: int, b: Seq<u8>, y: int) -> bool {
    lex_lt(a, b) || (a == b && x < y)
}

/// The block rotated left by `i`.
pub open spec fn rotation(block: Seq<u8>, i: int) -> Seq<u8> {
    Seq::new(block.len(), |j: int| block[(i + j) % (block.len() as int)])
}

/// `idx` lists each of `0..n` exactly once.
pub open spec fn is_index_perm(idx: Seq<int>, n: int) -> bool {
    &&& idx.len() == n
    &&& forall|k: int| 0 <= k < n ==> 0 <= #[trigger] idx[k] < n
    &&& forall|k: int, l: int| 0 <= k < n && 0 <= l < n && k != l ==> idx[k] != idx[l]
    &&& forall|i: int| 0 <= i < n ==> #[trigger] takes_value(idx, n, i)
}

/// Some entry among the first `n` of `idx` is `i`.
pub open spec fn takes_value(idx: Seq<int>, n: int, i: int) -> bool {
    exists|k: int| 0 <= k < n && idx[k] == i
}

/// The entries of an index table as mathematical integers.
pub open spec fn int_seq(s: Seq<usize>) -> Seq<int> {
    s.map_values(|x: usize| x as int)
}

/// `idx[k]` is the rotation amount of row `k` of the sorted table of rotations
/// of `block`.
pub open spec fn is_sorted_rotation_order(block: Seq<u8>, idx: Seq<int>) -> bool {
    &&& is_index_perm(idx, block.len() as int)
    &&& forall|k: int, l: int|
        0 <= k < l < block.len() ==> row_pair_lt(
            rotation(block, #[trigger] idx[k]),
            idx[k],
            rotation(block, #[trigger] idx[l]),
            idx[l],
        )
}

/// `perm` lists the positions of `word` sorted by their symbol, equal symbols
/// in the order of their positions.
pub open spec fn is_stable_symbol_order(word: Seq<u8>, perm: Seq<int>) -> bool {
    &&& is_index_perm(perm, word.len() as int)
    &&& forall|k: int, l: int|
        0 <= k < l < word.len() ==> word[#[trigger] perm[k]] < word[#[trigger] perm[l]] || (
        word[perm[k]] == word[perm[l]] && perm[k] < perm[l])
}

/// `pos` after `steps` lookups in `perm`.
pub open spec fn follow(perm: Seq<int>, pos: int, steps: nat) -> int
    decreases steps,
{
    if steps == 0 {
        pos
    } else {
        perm[follow(perm, pos, (steps - 1) as nat)]
    }
}

/// The block rebuilt from the last column `word`, its stable symbol order
/// `perm` and the start row `pos`.
pub open spec fn decode_word_spec(word: Seq<u8>, perm: Seq<int>, pos: int) -> Seq<u8> {
    Seq::new(word.len(), |i: int| word[follow(perm, pos, (i + 1) as nat)])
}

/// Last column of the sorted rotation table given by `idx`.
pub open spec fn last_column(block: Seq<u8>, idx: Seq<int>) -> Seq<u8> {
    Seq::new(block.len(), |k: int| block[(idx[k] + block.len() - 1) % (block.len() as int)])
}

/// `last` and `pos` are the transform of `block`: the last column of its
/// sorted rotation table and the row holding the rotation by zero.
pub open spec fn is_transform_of(block: Seq<u8>, last: Seq<u8>, pos: int) -> bool {
    exists|idx: Seq<int>|
        #![trigger is_sorted_rotation_order(block, idx)]
        is_sorted_rotation_order(block, idx) && last == last_column(block, idx) && 0 <= pos
            < block.len() && idx[pos] == 0
}

/// Rows of a square table, each by its view.
pub open spec fn table_rows<const N: usize>(table: [[u8; N]; N]) -> Seq<Seq<u8>> {
    Seq::new(N as nat, |k: int| table@[k]@)
}

/// A symbol of a block together with its position.
pub struct EnumeratedItem {
    pub(crate) value: u8,
    pub(crate) index: usize,
}

/// Pairs ordered by row, then by tag.
pub open spec fn tagged_rows_sorted(rows: Seq<([u8; MAX_BLOCK_LEN], usize)>) -> bool {
    forall|i: int, j: int|
        0 <= i < j < rows.len() ==> row_pair_lt(
            (#[trigger] rows[i]).0@,
            rows[i].1 as int,
            (#[trigger] rows[j]).0@,
            rows[j].1 as int,
        ) || rows[i] == rows[j]
}

/// Sorts (row, tag) pairs with `rdxsort`: its template for pairs sorts by the
/// first component and then the second, its template for arrays compares the
/// element at index 0 first, and for `u8` and `usize` it sorts by value. The
/// result is a rearrangement of the input.
#[verifier::external_body]
fn sort_tagged_rows(rows: &mut Vec<([u8; MAX_BLOCK_LEN], usize)>)
    ensures
        final(rows)@.to_multiset() == old(rows)@.to_multiset(),
        tagged_rows_sorted(final(rows)@),
{
    rows.rdxsort();
}

/// Items ordered by value, then by index.
spec fn items_sorted(items: Seq<EnumeratedItem>) -> bool {
    forall|i: int, j: int|
        0 <= i < j < items.len() ==> (#[trigger] items[i]).value < (#[trigger] items[j]).value || (
        items[i].value == items[j].value && items[i].index <= items[j].index)
}

/// Sorts the items with `rdxsort` as (value, index) pairs, which its template
/// for pairs orders by value and then by index. The result is a rearrangement
/// of the input.
#[verifier::external_body]
fn sort_items(items: &mut Vec<EnumeratedItem>)
    ensures
        final(items)@.to_multiset() == old(items)@.to_multiset(),
        items_sorted(final(items)@),
{
    let mut pairs: Vec<(u8, usize)> = items.iter().map(|it| (it.value, it.index)).collect();
    pairs.rdxsort();
    *items = pairs.into_iter().map(|(value, index)| EnumeratedItem { value, index }).collect();
}

/// `lex_lt` is irreflexive.
pub proof fn lemma_lex_lt_irreflexive(a: Seq<u8>)
    ensures
        !lex_lt(a, a),
    decreases a.len(),
{
    if a.len() > 0 {
        lemma_lex_lt_irreflexive(a.drop_first());
    }
}

/// Appending the same tail to two rows of equal length keeps their order.
pub proof fn lemma_lex_lt_common_tail(a: Seq<u8>, b: Seq<u8>, z: Seq<u8>)
    requires
        a.len() == b.len(),
    ensures
        lex_lt(a + z, b + z) == lex_lt(a, b),
    decreases a.len(),
{
    if a.len() == 0 {
        assert(a + z =~= z);
        assert(b + z =~= z);
        lemma_lex_lt_irreflexive(z);
    } else {
        assert((a + z).drop_first() =~= a.drop_first() + z);
        assert((b + z).drop_first() =~= b.drop_first() + z);
        lemma_lex_lt_common_tail(a.drop_first(), b.drop_first(), z);
    }
}

spec fn tag_present(rows: Seq<([u8; MAX_BLOCK_LEN], usize)>, i: int) -> bool {
    exists|k: int| 0 <= k < rows.len() && rows[k].1 == i
}

/// The zero bytes that fill a row of length `n` up to `MAX_BLOCK_LEN`.
spec fn padding(n: int) -> Seq<u8> {
    Seq::new((MAX_BLOCK_LEN - n) as nat, |i: int| 0u8)
}

fn gen_shift_table<const N: usize>(block: &[u8; N]) -> (table: [[u8; N]; N])
    requires
        N <= MAX_BLOCK_LEN,
    ensures
        forall|i: int| 0 <= i < N ==> #[trigger] table@[i]@ == rotation(block@, i),
{
    let mut table = [[0u8; N]; N];
    let mut i: usize = 0;
    while i < N
        invariant
            i <= N,
            N <= MAX_BLOCK_LEN,
            forall|k: int| 0 <= k < i ==> #[trigger] table@[k]@ == rotation(block@, k),
        decreases N - i,
    {
        let mut row = [0u8; N];
        let mut j: usize = 0;
        while j < N
            invariant
                i < N,
                j <= N,
                N <= MAX_BLOCK_LEN,
                forall|m: int| 0 <= m < j ==> #[trigger] row@[m] == block@[(i + m) % (N as int)],
            decreases N - j,
        {
            row[j] = block[(i + j) % N];
            j = j + 1;
        }
        assert(row@ =~= rotation(block@, i as int));
        table[i] = row;
        i = i + 1;
    }
    table
}

/// Sorts the rows of `table` by content; equal rows keep their earlier
/// order. Returns, for each new row, the index it had before.
fn sort_table<const N: usize>(table: &mut [[u8; N]; N]) -> (order: Ghost<Seq<int>>)
    requires
        N <= MAX_BLOCK_LEN,
    ensures
        is_index_perm(order@, N as int),
        forall|k: int| 0 <= k < N ==> #[trigger] final(table)@[k] == old(table)@[order@[k]],
        forall|k: int, l: int|
            0 <= k < l < N ==> row_pair_lt(
                final(table)@[k]@,
                #[trigger] order@[k],
                final(table)@[l]@,
                #[trigger] order@[l],
            ),
{
    let ghost old_rows = table@;
    let mut rows: Vec<([u8; MAX_BLOCK_LEN], usize)> = Vec::new();
    let mut i: usize = 0;
    while i < N
        invariant
            i <= N,
            N <= MAX_BLOCK_LEN,
            table@ == old_rows,
            rows@.len() == i,
            forall|k: int|
                0 <= k < i ==> (#[trigger] rows@[k]).1 == k && rows@[k].0@ == table@[k]@ + padding(
                    N as int,
                ),
        decreases N - i,
    {
        let row = table[i];
        let mut padded = [0u8; MAX_BLOCK_LEN];
        let mut j: usize = 0;
        while j < N
            invariant
                j <= N,
                N <= MAX_BLOCK_LEN,
                forall|m: int| 0 <= m < j ==> #[trigger] padded@[m] == row@[m],
                forall|m: int| j <= m < MAX_BLOCK_LEN ==> #[trigger] padded@[m] == 0,
            decreases N - j,
        {
            padded[j] = row[j];
            j = j + 1;
        }
        assert(padded@ =~= row@ + padding(N as int));
        rows.push((padded, i));
        i = i + 1;
    }
    let ghost input = rows@;
    proof {
        assert(input.no_duplicates()) by {
            assert forall|a: int, b: int|
                0 <= a < input.len() && 0 <= b < input.len() && a != b implies input[a]
                != input[b] by {
                assert(input[a].1 == a);
                assert(input[b].1 == b);
            }
        }
        input.lemma_multiset_has_no_duplicates();
    }
    sort_tagged_rows(&mut rows);
    let ghost sorted = rows@;
    proof {
        assert(sorted.len() == N) by {
            vstd::seq_lib::to_multiset_len(input);
            vstd::seq_lib::to_multiset_len(sorted);
        }
        assert forall|x: ([u8; MAX_BLOCK_LEN], usize)|
            sorted.to_multiset().contains(x) implies sorted.to_multiset().count(x) == 1 by {
        }
        sorted.lemma_multiset_has_no_duplicates_conv();
        assert forall|k: int| 0 <= k < N implies (#[trigger] sorted[k]).1 < N
            && sorted[k].0@ == old_rows[sorted[k].1 as int]@ + padding(N as int) by {
            vstd::seq_lib::to_multiset_contains(sorted, sorted[k]);
            vstd::seq_lib::to_multiset_contains(input, sorted[k]);
            let a = choose|a: int| 0 <= a < input.len() && input[a] == sorted[k];
            assert(input[a].1 == a);
        }
        assert forall|i: int| 0 <= i < N implies #[trigger] tag_present(sorted, i) by {
            assert(input.contains(input[i]));
            vstd::seq_lib::to_multiset_contains(input, input[i]);
            vstd::seq_lib::to_multiset_contains(sorted, input[i]);
            let k = choose|k: int| 0 <= k < sorted.len() && sorted[k] == input[i];
            assert(sorted[k].1 == i);
        }
    }
    let ghost order = Seq::new(N as nat, |k: int| sorted[k].1 as int);
    let mut k: usize = 0;
    while k < N
        invariant
            k <= N,
            N <= MAX_BLOCK_LEN,
            rows@ == sorted,
            sorted.len() == N,
            order.len() == N,
            forall|m: int| 0 <= m < N ==> #[trigger] order[m] == sorted[m].1 as int,
            forall|m: int| 0 <= m < k ==> #[trigger] table@[m]@ == old_rows[order[m]]@,
            forall|m: int|
                0 <= m < N ==> (#[trigger] sorted[m]).1 < N && sorted[m].0@ == old_rows[sorted[m].1 as int]@
                    + padding(N as int),
        decreases N - k,
    {
        let padded = rows[k].0;
        let mut row = [0u8; N];
        let mut j: usize = 0;
        while j < N
            invariant
                j <= N,
                N <= MAX_BLOCK_LEN,
                forall|m: int| 0 <= m < j ==> #[trigger] row@[m] == padded@[m],
            decreases N - j,
        {
            row[j] = padded[j];
            j = j + 1;
        }
        assert(row@ =~= old_rows[order[k as int]]@) by {
            assert forall|m: int| 0 <= m < N implies row@[m] == old_rows[order[k as int]]@[m] by {
                assert(padded@[m] == (old_rows[order[k as int]]@ + padding(N as int))[m]);
            }
        }
        table[k] = row;
        k = k + 1;
    }
    proof {
        assert forall|a: int, b: int| 0 <= a < N && 0 <= b < N && a != b implies order[a]
            != order[b] by {
            if order[a] == order[b] {
                assert(sorted[a].0@ =~= sorted[b].0@);
                assert(sorted[a] == sorted[b]);
            }
        }
        assert forall|i: int| 0 <= i < N implies #[trigger] takes_value(order, N as int, i) by {
            assert(tag_present(sorted, i));
            let k = choose|k: int| 0 <= k < sorted.len() && sorted[k].1 == i;
            assert(order[k] == i);
        }
        assert forall|k: int| 0 <= k < N implies #[trigger] table@[k] == old_rows[order[k]] by {
            assert(table@[k]@ =~= old_rows[order[k]]@);
        }
        assert forall|a: int, b: int| 0 <= a < b < N implies row_pair_lt(
            table@[a]@,
            #[trigger] order[a],
            table@[b]@,
            #[trigger] order[b],
        ) by {
            assert(sorted[a] != sorted[b]);
            let ra = old_rows[order[a]]@;
            let rb = old_rows[order[b]]@;
            lemma_lex_lt_common_tail(ra, rb, padding(N as int));
            if sorted[a].0@ == sorted[b].0@ {
                assert(ra =~= sorted[a].0@.take(N as int));
                assert(rb =~= sorted[b].0@.take(N as int));
            }
        }
    }
    Ghost(order)
}

fn rows_equal<const N: usize>(a: &[u8; N], b: &[u8; N]) -> (eq: bool)
    ensures
        eq == (a@ == b@),
{
    let mut j: usize = 0;
    while j < N
        invariant
            j <= N,
            forall|m: int| 0 <= m < j ==> a@[m] == b@[m],
        decreases N - j,
    {
        if a[j] != b[j] {
            return false;
        }
        j = j + 1;
    }
    assert(a@ =~= b@);
    true
}

/// The Burrows-Wheeler transform of fixed-size blocks.
/// One row of a rotation table.
pub struct TableLine<const N: usize> {
    line: [u8; N],
}

/// A square table of bytes, such as the rotations of a block.
pub struct Table<const N: usize> {
    table: [[u8; N]; N],
}

/// The decimal digits of `x`.
pub open spec fn decimal(x: u8) -> Seq<char> {
    if x < 10 {
        seq![(48 + x) as char]
    } else if x < 100 {
        seq![(48 + x / 10) as char, (48 + x % 10) as char]
    } else {
        seq![(48 + x / 100) as char, (48 + x / 10 % 10) as char, (48 + x % 10) as char]
    }
}

/// The numbers of `row` in decimal, separated by single spaces.
pub open spec fn line_text(row: Seq<u8>) -> Seq<char>
    decreases row.len(),
{
    if row.len() == 0 {
        Seq::empty()
    } else if row.len() == 1 {
        decimal(row[0])
    } else {
        line_text(row.drop_last()) + seq![' '] + decimal(row.last())
    }
}

/// Each row on a line of its own.
pub open spec fn table_text(rows: Seq<Seq<u8>>) -> Seq<char>
    decreases rows.len(),
{
    if rows.len() == 0 {
        Seq::empty()
    } else {
        table_text(rows.drop_last()) + line_text(rows.last()) + seq!['\n']
    }
}

fn push_decimal(s: &mut String, x: u8)
    ensures
        final(s)@ == old(s)@ + decimal(x),
{
    if x < 10 {
        push_char(s, (48 + x) as char);
    } else if x < 100 {
        push_char(s, (48 + x / 10) as char);
        push_char(s, (48 + x % 10) as char);
    } else {
        push_char(s, (48 + x / 100) as char);
        push_char(s, (48 + x / 10 % 10) as char);
        push_char(s, (48 + x % 10) as char);
    }
}

impl<const N: usize> Table<N> {
    /// The rows of the table.
    pub closed spec fn rows(self) -> Seq<Seq<u8>> {
        table_rows(self.table)
    }

    /// The table as text: each row on a line, its numbers in decimal
    /// separated by spaces.
    pub fn to_string(&self) -> (text: String)
        ensures
            text@ == table_text(self.rows()),
    {
        let mut text = String::new();
        let mut i: usize = 0;
        let ghost rows = table_rows(self.table);
        while i < N
            invariant
                i <= N,
                rows == table_rows(self.table),
                text@ == table_text(rows.take(i as int)),
            decreases N - i,
        {
            let line = self.table[i];
            let ghost before = text@;
            let mut j: usize = 0;
            while j < N
                invariant
                    j <= N,
                    text@ == before + line_text(line@.take(j as int)),
                decreases N - j,
            {
                if j > 0 {
                    push_char(&mut text, ' ');
                }
                push_decimal(&mut text, line[j]);
                proof {
                    let t = line@.take(j + 1);
                    assert(t.drop_last() =~= line@.take(j as int));
                    assert(t.last() == line@[j as int]);
                    if j == 0 {
                        assert(line@.take(0) =~= Seq::<u8>::empty());
                        assert(line_text(t) == decimal(line@[0]));
                    }
                }
                j = j + 1;
            }
            push_char(&mut text, '\n');
            proof {
                assert(line@.take(N as int) =~= line@);
                let r = rows.take(i + 1);
                assert(r.drop_last() =~= rows.take(i as int));
                assert(r.last() == line@);
            }
            i = i + 1;
        }
        assert(rows.take(N as int) =~= rows);
        text
    }
}

pub struct BurroughsWheelerEncode {}

impl Default for BurroughsWheelerEncode {
    fn default() -> (r: Self) {
        BurroughsWheelerEncode {  }
    }
}

/// The rotation by zero is the block itself.
proof fn lemma_rotation_zero(block: Seq<u8>)
    requires
        block.len() > 0,
    ensures
        rotation(block, 0) == block,
{
    assert forall|j: int| 0 <= j < block.len() implies rotation(block, 0)[j] == block[j] by {
        vstd::arithmetic::div_mod::lemma_small_mod(j as nat, block.len());
    }
    assert(rotation(block, 0) =~= block);
}

impl BurroughsWheelerEncode {
    fn get_last_row<const N: usize>(table: &[[u8; N]; N]) -> (row: [u8; N])
        ensures
            forall|k: int| 0 <= k < N ==> #[trigger] row@[k] == table@[k]@[N - 1],
    {
        let mut result = [0u8; N];
        let mut i: usize = 0;
        while i < N
            invariant
                i <= N,
                forall|k: int| 0 <= k < i ==> #[trigger] result@[k] == table@[k]@[N - 1],
            decreases N - i,
        {
            let line = table[i];
            result[i] = line[N - 1];
            i = i + 1;
        }
        result
    }

    /// Sorted rotation table, its last column and the row of the block.
    fn transform<const N: usize>(block: &[u8; N]) -> (r: ([u8; N], usize, Ghost<Seq<int>>))
        requires
            0 < N <= MAX_BLOCK_LEN,
        ensures
            is_sorted_rotation_order(block@, r.2@),
            r.0@ == last_column(block@, r.2@),
            r.1 < N,
            r.2@[r.1 as int] == 0,
    {
        let mut table = Self::gen_shift_table(block);
        let ghost rotated = table@;
        let Ghost(order) = sort_table(&mut table);
        assert forall|k: int| 0 <= k < N implies #[trigger] table@[k]@ == rotation(
            block@,
            order[k],
        ) by {
            assert(table@[k] == rotated[order[k]]);
        }
        let last = Self::get_last_row(&table);
        assert(last@ =~= last_column(block@, order)) by {
            assert forall|k: int| 0 <= k < N implies last@[k] == last_column(block@, order)[k] by {
                assert(table@[k]@ == rotation(block@, order[k]));
            }
        }
        proof {
            assert(takes_value(order, N as int, 0));
        }
        let ghost home = choose|k: int| 0 <= k < N && order[k] == 0;
        proof {
            lemma_rotation_zero(block@);
            assert(table@[home]@ == block@);
        }
        let mut pos: usize = 0;
        while pos < N && !rows_equal(&table[pos], block)
            invariant
                pos <= N,
                0 <= home < N,
                table@[home]@ == block@,
                forall|m: int| 0 <= m < pos ==> table@[m]@ != block@,
            decreases N - pos,
        {
            pos = pos + 1;
        }
        proof {
            if pos as int != home {
                assert(pos < home);
                lemma_lex_lt_irreflexive(block@);
                assert(row_pair_lt(table@[pos as int]@, order[pos as int], table@[home]@, order[home]));
            }
        }
        (last, pos, Ghost(order))
    }

    /// Encodes a block; `None` only if the block is not found among its sorted
    /// rotations, which happens for the empty block alone.
    pub fn encode_block<const N: usize>(block: &[u8; N]) -> (r: Option<([u8; N], usize)>)
        requires
            N <= MAX_BLOCK_LEN,
        ensures
            N == 0 ==> r is None,
            N > 0 ==> (r matches Some(res) && is_transform_of(block@, res.0@, res.1 as int)),
    {
        if N == 0 {
            return None;
        }
        let (last, pos, Ghost(order)) = Self::transform(block);
        Some((last, pos))
    }

    /// Encodes a non-empty block: the last column of its sorted rotation
    /// table and the row at which the block stands.
    pub fn encode<const N: usize>(bytes: &[u8; N]) -> (r: ([u8; N], usize))
        requires
            0 < N <= MAX_BLOCK_LEN,
        ensures
            is_transform_of(bytes@, r.0@, r.1 as int),
    {
        let (last, pos, Ghost(order)) = Self::transform(bytes);
        (last, pos)
    }

    fn gen_shift_table<const N: usize>(block: &[u8; N]) -> (table: [[u8; N]; N])
        requires
            N <= MAX_BLOCK_LEN,
        ensures
            forall|i: int| 0 <= i < N ==> #[trigger] table@[i]@ == rotation(block@, i),
    {
        gen_shift_table(block)
    }

    fn get_permutation_table<const N: usize>(block: &[u8; N]) -> (perm: [usize; N])
        ensures
            is_stable_symbol_order(block@, int_seq(perm@)),
    {
        let mut items: Vec<EnumeratedItem> = Vec::new();
        let mut i: usize = 0;
        while i < N
            invariant
                i <= N,
                items@.len() == i,
                forall|k: int|
                    0 <= k < i ==> (#[trigger] items@[k]).index == k && items@[k].value
                        == block@[k],
            decreases N - i,
        {
            items.push(EnumeratedItem { value: block[i], index: i });
            i = i + 1;
        }
        let ghost input = items@;
        proof {
            assert(input.no_duplicates()) by {
                assert forall|a: int, b: int|
                    0 <= a < input.len() && 0 <= b < input.len() && a != b implies input[a]
                    != input[b] by {
                    assert(input[a].index == a);
                    assert(input[b].index == b);
                }
            }
            input.lemma_multiset_has_no_duplicates();
        }
        sort_items(&mut items);
        let ghost sorted = items@;
        proof {
            assert(sorted.len() == N) by {
                vstd::seq_lib::to_multiset_len(input);
                vstd::seq_lib::to_multiset_len(sorted);
            }
            assert forall|x: EnumeratedItem|
                sorted.to_multiset().contains(x) implies sorted.to_multiset().count(x) == 1 by {}
            sorted.lemma_multiset_has_no_duplicates_conv();
            assert forall|k: int| 0 <= k < N implies (#[trigger] sorted[k]).index < N
                && sorted[k].value == block@[sorted[k].index as int] by {
                vstd::seq_lib::to_multiset_contains(sorted, sorted[k]);
                vstd::seq_lib::to_multiset_contains(input, sorted[k]);
                let a = choose|a: int| 0 <= a < input.len() && input[a] == sorted[k];
                assert(input[a].index == a);
            }
        }
        let mut perm = [0usize; N];
        let mut k: usize = 0;
        while k < N
            invariant
                k <= N,
                items@ == sorted,
                sorted.len() == N,
                forall|m: int| 0 <= m < k ==> #[trigger] perm@[m] == sorted[m].index,
            decreases N - k,
        {
            perm[k] = items[k].index;
            k = k + 1;
        }
        proof {
            let p = int_seq(perm@);
            assert forall|a: int, b: int| 0 <= a < N && 0 <= b < N && a != b implies p[a]
                != p[b] by {
                if p[a] == p[b] {
                    assert(sorted[a] == sorted[b]);
                }
            }
            assert forall|i: int| 0 <= i < N implies #[trigger] takes_value(p, N as int, i) by {
                assert(input.contains(input[i]));
                vstd::seq_lib::to_multiset_contains(input, input[i]);
                vstd::seq_lib::to_multiset_contains(sorted, input[i]);
                let k = choose|k: int| 0 <= k < sorted.len() && sorted[k] == input[i];
                assert(p[k] == i);
            }
            assert forall|a: int, b: int| 0 <= a < b < N implies block@[#[trigger] p[a]]
                < block@[#[trigger] p[b]] || (block@[p[a]] == block@[p[b]] && p[a] < p[b]) by {
                assert(sorted[a] != sorted[b]);
            }
        }
        perm
    }

    /// Decodes a block from its last column and the row of the block.
    pub fn decode<const N: usize>(encoded_word: &[u8; N], pos: usize) -> (word: [u8; N])
        requires
            N == 0 || pos < N,
        ensures
            exists|perm: Seq<int>|
                #![trigger is_stable_symbol_order(encoded_word@, perm)]
                is_stable_symbol_order(encoded_word@, perm) && word@ == decode_word_spec(
                    encoded_word@,
                    perm,
                    pos as int,
                ),
    {
        let permutation_table = Self::get_permutation_table(encoded_word);
        assert forall|k: int| 0 <= k < N implies #[trigger] permutation_table@[k] < N by {
            assert(int_seq(permutation_table@)[k] == permutation_table@[k]);
        }
        let word = Self::decode_word(encoded_word, permutation_table, pos);
        assert(is_stable_symbol_order(encoded_word@, int_seq(permutation_table@)));
        word
    }

    fn decode_word<const N: usize>(word: &[u8; N], permutation_table: [usize; N], pos: usize) -> (res: [u8; N])
        requires
            N == 0 || pos < N,
            forall|k: int| 0 <= k < N ==> #[trigger] permutation_table@[k] < N,
        ensures
            res@ == decode_word_spec(word@, int_seq(permutation_table@), pos as int),
    {
        let ghost perm = int_seq(permutation_table@);
        let ghost start = pos as int;
        let mut res = [0u8; N];
        let mut pos = pos;
        let mut i: usize = 0;
        while i < N
            invariant
                i <= N,
                forall|k: int| 0 <= k < N ==> #[trigger] permutation_table@[k] < N,
                perm == int_seq(permutation_table@),
                N == 0 || pos < N,
                pos as int == follow(perm, start, i as nat),
                forall|m: int|
                    0 <= m < i ==> #[trigger] res@[m] == word@[follow(perm, start, (m + 1) as nat)],
            decreases N - i,
        {
            pos = permutation_table[pos];
            res[i] = word[pos];
            i = i + 1;
        }
        assert(res@ =~= decode_word_spec(word@, perm, start));
        res
    }
}


proof fn lemma_mod_small(x: int, n: int)
    requires
        0 < n,
        0 <= x < 2 * n,
    ensures
        x % n == if x < n {
            x
        } else {
            x - n
        },
{
    if x < n {
        vstd::arithmetic::div_mod::lemma_small_mod(x as nat, n as nat);
    } else {
        vstd::arithmetic::div_mod::lemma_small_mod((x - n) as nat, n as nat);
        vstd::arithmetic::div_mod::lemma_mod_add_multiples_vanish(x - n, n);
    }
}

/// `lex_lt` is transitive.
proof fn lemma_lex_lt_transitive(a: Seq<u8>, b: Seq<u8>, c: Seq<u8>)
    requires
        lex_lt(a, b),
        lex_lt(b, c),
    ensures
        lex_lt(a, c),
    decreases a.len(),
{
    if a.len() > 0 && a[0] == c[0] {
        assert(a[0] == b[0] && b[0] == c[0]);
        lemma_lex_lt_transitive(a.drop_first(), b.drop_first(), c.drop_first());
    }
}

/// `lex_lt` is asymmetric.
proof fn lemma_lex_lt_asymmetric(a: Seq<u8>, b: Seq<u8>)
    requires
        lex_lt(a, b),
    ensures
        !lex_lt(b, a),
    decreases a.len(),
{
    if a.len() > 0 && a[0] == b[0] {
        lemma_lex_lt_asymmetric(a.drop_first(), b.drop_first());
    }
}

/// Rows ordered by their last byte, then lexicographically.
spec fn last_first_lt(x: Seq<u8>, y: Seq<u8>) -> bool {
    x.last() < y.last() || (x.last() == y.last() && lex_lt(x, y))
}

spec fn last_first_le(x: Seq<u8>, y: Seq<u8>) -> bool {
    last_first_lt(x, y) || x == y
}

spec fn sorted_last_first(s: Seq<Seq<u8>>) -> bool {
    forall|i: int, j: int| 0 <= i < j < s.len() ==> last_first_le(#[trigger] s[i], #[trigger] s[j])
}

proof fn lemma_last_first_antisymmetric(x: Seq<u8>, y: Seq<u8>)
    requires
        last_first_le(x, y),
        last_first_le(y, x),
    ensures
        x == y,
{
    if x != y {
        if x.last() == y.last() {
            lemma_lex_lt_asymmetric(x, y);
        }
    }
}

/// Two sequences of rows sorted by `last_first_le`, one a rearrangement of
/// the other by `beta`, are equal.
proof fn lemma_sorted_rearrangement_equal(s1: Seq<Seq<u8>>, s2: Seq<Seq<u8>>, beta: Seq<int>)
    requires
        s1.len() == s2.len(),
        is_index_perm(beta, s1.len() as int),
        forall|i: int| 0 <= i < s1.len() ==> s1[i] == s2[#[trigger] beta[i]],
        sorted_last_first(s1),
        sorted_last_first(s2),
    ensures
        s1 == s2,
    decreases s1.len(),
{
    let m = s1.len() as int;
    if m > 0 {
        assert(takes_value(beta, m, m - 1));
        let t = choose|t: int| 0 <= t < m && beta[t] == m - 1;
        assert(s1[t] == s2[m - 1]);
        if t < m - 1 {
            assert(last_first_le(s1[t], s1[m - 1]));
        }
        if beta[m - 1] < m - 1 {
            assert(last_first_le(s2[beta[m - 1]], s2[m - 1]));
        }
        lemma_last_first_antisymmetric(s1[m - 1], s2[m - 1]);
        let b2 = Seq::new((m - 1) as nat, |i: int| if beta[i] == m - 1 { beta[m - 1] } else { beta[i] });
        assert forall|i: int| 0 <= i < m - 1 implies 0 <= #[trigger] b2[i] < m - 1 by {
            if beta[i] == m - 1 {
                assert(beta[m - 1] != m - 1);
            } else {
                assert(beta[i] != beta[m - 1] || i == m - 1);
            }
        }
        assert forall|i: int, j: int| 0 <= i < m - 1 && 0 <= j < m - 1 && i != j implies b2[i] != b2[j] by {
            assert(beta[i] != beta[j]);
        }
        assert forall|u: int| 0 <= u < m - 1 implies #[trigger] takes_value(b2, m - 1, u) by {
            assert(takes_value(beta, m, u));
            let k = choose|k: int| 0 <= k < m && beta[k] == u;
            if k < m - 1 {
                assert(b2[k] == u);
            } else {
                assert(b2[t] == u);
            }
        }
        let t1 = s1.drop_last();
        let t2 = s2.drop_last();
        assert forall|i: int| 0 <= i < m - 1 implies t1[i] == t2[#[trigger] b2[i]] by {
            if beta[i] == m - 1 {
                assert(s1[i] == s2[m - 1]);
                assert(s1[m - 1] == s2[beta[m - 1]]);
            }
        }
        lemma_sorted_rearrangement_equal(t1, t2, b2);
        assert forall|i: int| 0 <= i < m implies s1[i] == s2[i] by {
            if i < m - 1 {
                assert(t1[i] == t2[i]);
            }
        }
        assert(s1 =~= s2);
    }
}

/// The block rotated left by one more position.
spec fn rotl1(x: Seq<u8>) -> Seq<u8> {
    x.drop_first().push(x[0])
}

proof fn lemma_rotation_step(block: Seq<u8>, r: int)
    requires
        0 <= r < block.len(),
    ensures
        rotation(block, (r + 1) % (block.len() as int)) == rotl1(rotation(block, r)),
{
    let n = block.len() as int;
    lemma_mod_small(r + 1, n);
    let a = rotation(block, (r + 1) % n);
    let b = rotl1(rotation(block, r));
    assert forall|m: int| 0 <= m < n implies a[m] == b[m] by {
        lemma_mod_small((r + 1) % n + m, n);
        lemma_mod_small(r + m + 1, n);
        if m < n - 1 {
            lemma_mod_small(r + m + 1, n);
        } else {
            lemma_mod_small(r, n);
            lemma_mod_small(r + 0, n);
        }
    }
    assert(a =~= b);
}

/// Each row of a sorted rotation table is followed, in the stable order of
/// the last column, by the row rotated one further: the row at `perm[j]` is
/// row `j` rotated left by one.
proof fn lemma_stable_order_rotates(block: Seq<u8>, idx: Seq<int>, perm: Seq<int>)
    requires
        block.len() > 0,
        is_sorted_rotation_order(block, idx),
        is_stable_symbol_order(last_column(block, idx), perm),
    ensures
        forall|j: int|
            0 <= j < block.len() ==> rotation(block, idx[#[trigger] perm[j]]) == rotl1(rotation(block, idx[j])),
{
    let n = block.len() as int;
    let last = last_column(block, idx);
    assert forall|k: int| 0 <= k < n implies #[trigger] last[k] == rotation(block, idx[k]).last() by {
        lemma_mod_small(idx[k] + n - 1, n);
    }
    let sigma = Seq::new(
        n as nat,
        |j: int| choose|k: int| 0 <= k < n && idx[k] == (idx[j] + 1) % n,
    );
    assert forall|j: int| 0 <= j < n implies 0 <= #[trigger] sigma[j] < n && idx[sigma[j]] == (idx[j] + 1)
        % n by {
        lemma_mod_small(idx[j] + 1, n);
        assert(takes_value(idx, n, (idx[j] + 1) % n));
    }
    assert forall|j: int| 0 <= j < n implies rotation(block, idx[#[trigger] sigma[j]]) == rotl1(
        rotation(block, idx[j]),
    ) by {
        lemma_rotation_step(block, idx[j]);
    }
    let beta = Seq::new(
        n as nat,
        |i: int| choose|j: int| 0 <= j < n && sigma[j] == perm[i],
    );
    assert forall|i: int| 0 <= i < n implies 0 <= #[trigger] beta[i] < n && sigma[beta[i]] == perm[i] by {
        let k = perm[i];
        lemma_mod_small(idx[k] + n - 1, n);
        assert(takes_value(idx, n, (idx[k] + n - 1) % n));
        let j = choose|j: int| 0 <= j < n && idx[j] == (idx[k] + n - 1) % n;
        lemma_mod_small(idx[j] + 1, n);
        assert(idx[sigma[j]] == idx[k]);
        assert(sigma[j] == k);
    }
    assert forall|i: int, i2: int| 0 <= i < n && 0 <= i2 < n && i != i2 implies beta[i] != beta[i2] by {
        assert(perm[i] != perm[i2]);
    }
    assert forall|j: int| 0 <= j < n implies #[trigger] takes_value(beta, n, j) by {
        assert(takes_value(perm, n, sigma[j]));
        let i = choose|i: int| 0 <= i < n && perm[i] == sigma[j];
        let j2 = beta[i];
        if j2 != j {
            assert(idx[sigma[j2]] == idx[sigma[j]]);
            lemma_mod_small(idx[j] + 1, n);
            lemma_mod_small(idx[j2] + 1, n);
            assert(idx[j] == idx[j2]);
        }
        assert(beta[i] == j);
    }
    let s1 = Seq::new(n as nat, |i: int| rotation(block, idx[perm[i]]));
    let s2 = Seq::new(n as nat, |j: int| rotl1(rotation(block, idx[j])));
    assert forall|i: int| 0 <= i < n implies s1[i] == s2[#[trigger] beta[i]] by {
        assert(rotation(block, idx[sigma[beta[i]]]) == rotl1(rotation(block, idx[beta[i]])));
    }
    assert forall|i: int, i2: int| 0 <= i < i2 < n implies last_first_le(#[trigger] s1[i], #[trigger] s1[i2]) by {
        let k = perm[i];
        let l = perm[i2];
        assert(last[k] < last[l] || (last[k] == last[l] && k < l));
        if last[k] == last[l] {
            assert(row_pair_lt(rotation(block, idx[k]), idx[k], rotation(block, idx[l]), idx[l]));
        }
    }
    assert forall|j: int, j2: int| 0 <= j < j2 < n implies last_first_le(#[trigger] s2[j], #[trigger] s2[j2]) by {
        let x = rotation(block, idx[j]);
        let y = rotation(block, idx[j2]);
        assert(row_pair_lt(x, idx[j], y, idx[j2]));
        if x != y {
            assert(lex_lt(x, y));
            assert(x[0] <= y[0]);
            if x[0] == y[0] {
                lemma_lex_lt_common_tail(x.drop_first(), y.drop_first(), seq![x[0]]);
                assert(x.drop_first() + seq![x[0]] =~= rotl1(x));
                assert(y.drop_first() + seq![y[0]] =~= rotl1(y));
            }
        }
    }
    lemma_sorted_rearrangement_equal(s1, s2, beta);
    assert forall|j: int| 0 <= j < n implies rotation(block, idx[#[trigger] perm[j]]) == rotl1(
        rotation(block, idx[j]),
    ) by {
        assert(s1[j] == s2[j]);
    }
}

/// Decoding a transform with the stable order of its last column gives back
/// the block.
pub proof fn lemma_bwt_roundtrip(block: Seq<u8>, last: Seq<u8>, pos: int, perm: Seq<int>)
    requires
        is_transform_of(block, last, pos),
        is_stable_symbol_order(last, perm),
    ensures
        decode_word_spec(last, perm, pos) == block,
{
    let idx = choose|idx: Seq<int>|
        #![trigger is_sorted_rotation_order(block, idx)]
        is_sorted_rotation_order(block, idx) && last == last_column(block, idx) && 0 <= pos < block.len()
            && idx[pos] == 0;
    let n = block.len() as int;
    lemma_stable_order_rotates(block, idx, perm);
    assert forall|m: nat| m <= n implies 0 <= #[trigger] follow(perm, pos, m) < n && rotation(
        block,
        idx[follow(perm, pos, m)],
    ) == rotation(block, (m as int) % n) by {
        lemma_follow(block, idx, perm, pos, m);
    }
    let d = decode_word_spec(last, perm, pos);
    assert forall|i: int| 0 <= i < n implies d[i] == block[i] by {
        let k = follow(perm, pos, (i + 1) as nat);
        assert(rotation(block, idx[k]) == rotation(block, (i + 1) % n));
        lemma_mod_small(i + 1, n);
        lemma_mod_small((i + 1) % n + n - 1, n);
        lemma_mod_small(idx[k] + n - 1, n);
        assert(last[k] == block[(idx[k] + n - 1) % n]);
        assert(rotation(block, idx[k])[n - 1] == block[(idx[k] + n - 1) % n]);
        assert(rotation(block, (i + 1) % n)[n - 1] == block[((i + 1) % n + n - 1) % n]);
    }
    assert(d =~= block);
}

proof fn lemma_follow(block: Seq<u8>, idx: Seq<int>, perm: Seq<int>, pos: int, m: nat)
    requires
        block.len() > 0,
        m <= block.len(),
        is_sorted_rotation_order(block, idx),
        is_index_perm(perm, block.len() as int),
        0 <= pos < block.len(),
        idx[pos] == 0,
        forall|j: int|
            0 <= j < block.len() ==> rotation(block, idx[#[trigger] perm[j]]) == rotl1(rotation(block, idx[j])),
    ensures
        0 <= follow(perm, pos, m) < block.len(),
        rotation(block, idx[follow(perm, pos, m)]) == rotation(block, (m as int) % (block.len() as int)),
    decreases m,
{
    let n = block.len() as int;
    if m == 0 {
        lemma_mod_small(0, n);
    } else {
        lemma_follow(block, idx, perm, pos, (m - 1) as nat);
        let f = follow(perm, pos, (m - 1) as nat);
        lemma_mod_small(m - 1, n);
        lemma_rotation_step(block, m - 1);
        lemma_mod_small(m as int, n);
        if m == n {
            assert(rotation(block, 0) =~= rotation(block, (m as int) % n));
        }
    }
}

/// `row_pair_lt` never holds both ways.
proof fn lemma_row_pair_lt_asymmetric(a: Seq<u8>, x: int, b: Seq<u8>, y: int)
    requires
        row_pair_lt(a, x, b, y),
    ensures
        !row_pair_lt(b, y, a, x),
{
    lemma_lex_lt_irreflexive(a);
    lemma_lex_lt_irreflexive(b);
    if lex_lt(a, b) {
        lemma_lex_lt_asymmetric(a, b);
    }
}

/// Two sorted rotation orders of one block agree on their first `k` rows.
proof fn lemma_sorted_orders_agree(block: Seq<u8>, idx1: Seq<int>, idx2: Seq<int>, k: int)
    requires
        is_sorted_rotation_order(block, idx1),
        is_sorted_rotation_order(block, idx2),
        0 <= k <= block.len(),
    ensures
        forall|j: int| 0 <= j < k ==> #[trigger] idx1[j] == idx2[j],
    decreases k,
{
    if k > 0 {
        let n = block.len() as int;
        let m = k - 1;
        lemma_sorted_orders_agree(block, idx1, idx2, m);
        let a = idx1[m];
        let b = idx2[m];
        if a != b {
            assert(takes_value(idx1, n, b));
            let l = choose|l: int| 0 <= l < n && idx1[l] == b;
            assert(takes_value(idx2, n, a));
            let l2 = choose|l2: int| 0 <= l2 < n && idx2[l2] == a;
            if l < m {
                assert(idx2[l] == b);
            }
            if l2 < m {
                assert(idx1[l2] == a);
            }
            assert(l > m && l2 > m);
            assert(row_pair_lt(rotation(block, idx1[m]), idx1[m], rotation(block, idx1[l]), idx1[l]));
            assert(row_pair_lt(rotation(block, idx2[m]), idx2[m], rotation(block, idx2[l2]), idx2[l2]));
            lemma_row_pair_lt_asymmetric(rotation(block, a), a, rotation(block, b), b);
        }
    }
}

/// The transform of a block is unique: its last column and row are
/// determined by the block. So every function whose result is stated as a
/// transform of a block (`encode`, and `encode_block` on a non-empty block)
/// returns the same last column and row.
pub proof fn lemma_transform_unique(block: Seq<u8>, last1: Seq<u8>, pos1: int, last2: Seq<u8>, pos2: int)
    requires
        is_transform_of(block, last1, pos1),
        is_transform_of(block, last2, pos2),
    ensures
        last1 == last2,
        pos1 == pos2,
{
    let idx1 = choose|idx: Seq<int>|
        #![trigger is_sorted_rotation_order(block, idx)]
        is_sorted_rotation_order(block, idx) && last1 == last_column(block, idx) && 0 <= pos1 < block.len()
            && idx[pos1] == 0;
    let idx2 = choose|idx: Seq<int>|
        #![trigger is_sorted_rotation_order(block, idx)]
        is_sorted_rotation_order(block, idx) && last2 == last_column(block, idx) && 0 <= pos2 < block.len()
            && idx[pos2] == 0;
    lemma_sorted_orders_agree(block, idx1, idx2, block.len() as int);
    assert(idx1 =~= idx2);
    assert(last1 =~= last2);
}

} // verus!
