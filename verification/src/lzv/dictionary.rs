//! The LZW dictionary: the 256 single bytes, then records that each extend
//! an earlier phrase by one byte.
use vstd::prelude::*;
use vstd::arithmetic::power2::pow2;

verus! {

/// Number of single-byte phrases, which take the indices below it.
pub const DEFAULT_DICTIONARY_SIZE: usize = 256;

/// Bits of a single byte.
pub const DEFAULT_WORD_LEN: usize = 8;

/// Width of an index, what happens when the dictionary is full, and the
/// number of indices (`2^word_length`).
pub struct DictionaryOptions {
    word_length: u32,
    clear_on_overflow: bool,
    index_limit: usize,
}

impl DictionaryOptions {
    #[verifier::type_invariant]
    spec fn well_formed(self) -> bool {
        self.index_limit == pow2(self.word_length as nat)
    }

    /// Width of an index in bits.
    pub closed spec fn spec_word_length(self) -> u32 {
        self.word_length
    }

    /// Whether the records are dropped when the dictionary is full.
    pub closed spec fn spec_clear_on_overflow(self) -> bool {
        self.clear_on_overflow
    }

    /// Number of indices.
    pub closed spec fn spec_index_limit(self) -> nat {
        self.index_limit as nat
    }

    /// Options for indices of `word_length` bits.
    pub fn new(word_length: u32, clear_on_overflow: bool) -> (o: Self)
        requires
            pow2(word_length as nat) <= usize::MAX,
        ensures
            o.spec_word_length() == word_length,
            o.spec_clear_on_overflow() == clear_on_overflow,
            o.spec_index_limit() == pow2(word_length as nat),
    {
        let mut index_limit: usize = 1;
        let mut i: u32 = 0;
        proof {
            vstd::arithmetic::power2::lemma2_to64();
        }
        while i < word_length
            invariant
                i <= word_length,
                index_limit == pow2(i as nat),
                pow2(word_length as nat) <= usize::MAX,
            decreases word_length - i,
        {
            proof {
                vstd::arithmetic::power2::lemma_pow2_unfold((i + 1) as nat);
                if i + 1 < word_length {
                    vstd::arithmetic::power2::lemma_pow2_strictly_increases((i + 1) as nat, word_length as nat);
                }
            }
            index_limit = index_limit * 2;
            i = i + 1;
        }
        DictionaryOptions { word_length, clear_on_overflow, index_limit }
    }
}

impl Default for DictionaryOptions {
    /// 16-bit indices, records kept when the dictionary is full.
    fn default() -> (o: Self)
        ensures
            o.spec_word_length() == 16,
            !o.spec_clear_on_overflow(),
            o.spec_index_limit() == 65536,
    {
        proof {
            vstd::arithmetic::power2::lemma2_to64();
        }
        DictionaryOptions { word_length: 16, clear_on_overflow: false, index_limit: 65536 }
    }
}

/// Records after `entries` receives the record `(c, prev)`: nothing is added
/// once there are `limit` indices, and then the records are dropped if `clear` is set.
pub open spec fn dict_add(entries: Seq<(u8, u32)>, limit: nat, clear: bool, c: u8, prev: u32) -> Seq<(u8, u32)> {
    if entries.len() + 256 >= limit {
        if clear {
            Seq::empty()
        } else {
            entries
        }
    } else {
        entries.push((c, prev))
    }
}

/// Position of the first record `(c, prev)` at or after `from`.
pub open spec fn find_from(entries: Seq<(u8, u32)>, prev: u32, c: u8, from: int) -> Option<int>
    decreases entries.len() - from,
{
    if from < 0 || from >= entries.len() {
        None
    } else if entries[from] == (c, prev) {
        Some(from)
    } else {
        find_from(entries, prev, c, from + 1)
    }
}

/// Index of the record that extends `prev` by `c`, if there is one.
pub open spec fn find_record(entries: Seq<(u8, u32)>, prev: u32, c: u8) -> Option<u32> {
    match find_from(entries, prev, c, 0) {
        Some(k) => Some((k + 256) as u32),
        None => None,
    }
}

/// The phrase of `index`, following at most `fuel` records; `None` for an
/// index with no record, or when the chain of records is longer than `fuel`.
pub open spec fn record_chain(entries: Seq<(u8, u32)>, index: u32, fuel: nat) -> Option<Seq<u8>>
    decreases fuel,
{
    if index < 256 {
        Some(seq![index as u8])
    } else if fuel == 0 || index - 256 >= entries.len() {
        None
    } else {
        match record_chain(entries, entries[index - 256].1, (fuel - 1) as nat) {
            Some(s) => Some(s.push(entries[index - 256].0)),
            None => None,
        }
    }
}

/// The phrase of `index`, or `None` when the chain of records reaches an
/// index that has no record (a chain that goes round a cycle, see
/// `record_loops`, has no phrase either).
pub open spec fn record_of(entries: Seq<(u8, u32)>, index: u32) -> Option<Seq<u8>> {
    record_chain(entries, index, entries.len())
}

/// Following the records from `index` for `fuel` steps never reaches a
/// single byte nor an index without a record.
pub open spec fn chain_loops(entries: Seq<(u8, u32)>, index: u32, fuel: nat) -> bool
    decreases fuel,
{
    if index < 256 || index - 256 >= entries.len() {
        false
    } else if fuel == 0 {
        true
    } else {
        chain_loops(entries, entries[index - 256].1, (fuel - 1) as nat)
    }
}

/// The chain of records from `index` goes round a cycle: after as many
/// steps as there are records it still stands at a record, so some record
/// came twice and the chain never ends.
pub open spec fn record_loops(entries: Seq<(u8, u32)>, index: u32) -> bool {
    chain_loops(entries, index, entries.len())
}

/// The records and the options of an LZW dictionary.
pub struct Dictionary {
    pub(crate) dict: Vec<(u8, u32)>,
    pub(crate) options: DictionaryOptions,
}

impl Dictionary {
    #[verifier::type_invariant]
    spec fn well_formed(self) -> bool {
        self.dict@.len() == 0 || self.dict@.len() + 256 <= self.options.spec_index_limit()
    }

    /// The records, in the order they were added.
    pub closed spec fn entries(self) -> Seq<(u8, u32)> {
        self.dict@
    }

    /// The options.
    pub closed spec fn spec_options(self) -> DictionaryOptions {
        self.options
    }

    /// An empty dictionary with the given options.
    pub fn with_options(options: DictionaryOptions) -> (d: Self)
        ensures
            d.entries() == Seq::<(u8, u32)>::empty(),
            d.spec_options() == options,
    {
        Dictionary { dict: Vec::new(), options }
    }

    /// Width of an index in bits.
    pub fn word_bit_length(&self) -> (w: u32)
        ensures
            w == self.spec_options().spec_word_length(),
    {
        self.options.word_length
    }

    /// Number of indices in use: the 256 bytes and the records.
    pub fn current_len(&self) -> (n: usize)
        ensures
            n == self.entries().len() + 256,
    {
        proof {
            use_type_invariant(self);
            use_type_invariant(&self.options);
        }
        self.dict.len() + DEFAULT_DICTIONARY_SIZE
    }

    /// Adds the record `(char, prev_pos)` if there is room.
    pub fn add(&mut self, char: u8, prev_pos: u32)
        ensures
            final(self).spec_options() == old(self).spec_options(),
            final(self).entries() == dict_add(
                old(self).entries(),
                old(self).spec_options().spec_index_limit(),
                old(self).spec_options().spec_clear_on_overflow(),
                char,
                prev_pos,
            ),
    {
        proof {
            use_type_invariant(&*self);
            use_type_invariant(&self.options);
        }
        if self.current_len() >= self.options.index_limit {
            if self.options.clear_on_overflow {
                self.dict = Vec::new();
            }
        } else {
            let mut d: Vec<(u8, u32)> = Vec::new();
            std::mem::swap(&mut d, &mut self.dict);
            d.push((char, prev_pos));
            self.dict = d;
        }
    }

    /// Index of the single-byte phrase `c`.
    pub fn index_of_symbol(&self, c: u8) -> (i: u32)
        ensures
            i == c as u32,
    {
        c as u32
    }

    /// Index of the record that extends `s_prev` by `c_char`, if there is one.
    pub fn index_of_record(&self, s_prev: u32, c_char: u8) -> (r: Option<u32>)
        ensures
            r == find_record(self.entries(), s_prev, c_char),
    {
        proof {
            use_type_invariant(self);
            use_type_invariant(&self.options);
        }
        let n = self.dict.len();
        let mut k: usize = 0;
        while k < n
            invariant
                n == self.dict@.len(),
                n == 0 || n + 256 <= usize::MAX,
                k <= n,
                find_from(self.dict@, s_prev, c_char, 0) == find_from(self.dict@, s_prev, c_char, k as int),
            decreases n - k,
        {
            let (c, s) = self.dict[k];
            if c == c_char && s == s_prev {
                return Some(#[verifier::truncate] ((k + DEFAULT_DICTIONARY_SIZE) as u32));
            }
            k = k + 1;
        }
        None
    }

    /// The phrase of `index`: `None` if the chain of records reaches an index
    /// that has no record. On a chain that goes round a cycle the lookup
    /// never ends, so such an index is left out.
    pub fn get_record(&self, index: u32) -> (r: Option<Vec<u8>>)
        requires
            !record_loops(self.entries(), index),
        ensures
            match record_of(self.entries(), index) {
                Some(s) => r matches Some(v) && v@ == s,
                None => r is None,
            },
    {
        let n = self.dict.len();
        let ghost e = self.dict@;
        let mut output: Vec<u8> = Vec::new();
        let mut idx = index;
        let mut steps: usize = 0;
        while idx >= DEFAULT_DICTIONARY_SIZE as u32
            invariant
                n == e.len(),
                e == self.dict@,
                steps <= n,
                steps == output@.len(),
                !chain_loops(e, idx, (n - steps) as nat),
                match record_chain(e, index, n as nat) {
                    Some(s) => record_chain(e, idx, (n - steps) as nat) matches Some(t) && s == t + output@.reverse(),
                    None => record_chain(e, idx, (n - steps) as nat) is None,
                },
            decreases n - steps,
        {
            let k = (idx - DEFAULT_DICTIONARY_SIZE as u32) as usize;
            if k >= n {
                return None;
            }
            let (c, prev) = self.dict[k];
            let ghost before = output@;
            output.push(c);
            proof {
                assert(output@.reverse() =~= seq![c] + before.reverse());
                match record_chain(e, prev, (n - steps - 1) as nat) {
                    Some(t) => {
                        assert(t.push(c) + before.reverse() =~= t + output@.reverse());
                    },
                    None => {},
                }
            }
            idx = prev;
            steps = steps + 1;
        }
        output.push(idx as u8);
        let mut result: Vec<u8> = Vec::new();
        let mut j = output.len();
        while j > 0
            invariant
                j <= output@.len(),
                result@ == output@.skip(j as int).reverse(),
            decreases j,
        {
            j = j - 1;
            result.push(output[j]);
            assert(output@.skip(j as int).reverse() =~= output@.skip(j + 1).reverse().push(output@[j as int]));
        }
        proof {
            assert(output@.skip(0) =~= output@);
            let before = output@.drop_last();
            assert(output@.reverse() =~= seq![idx as u8] + before.reverse());
        }
        Some(result)
    }

    /// Index of the phrase `s` extended by `c`, or of the byte `c` alone when
    /// there is no `s`.
    pub fn index_of(&self, s: Option<u32>, c: u8) -> (r: Option<u32>)
        ensures
            r == match s {
                Some(s) => find_record(self.entries(), s, c),
                None => Some(c as u32),
            },
    {
        if let Some(s) = s {
            self.index_of_record(s, c)
        } else {
            Some(self.index_of_symbol(c))
        }
    }
}

impl Default for Dictionary {
    /// An empty dictionary with the default options.
    fn default() -> (d: Self)
        ensures
            d.entries() == Seq::<(u8, u32)>::empty(),
            d.spec_options().spec_word_length() == 16,
            !d.spec_options().spec_clear_on_overflow(),
            d.spec_options().spec_index_limit() == 65536,
    {
        Dictionary { dict: Vec::new(), options: DictionaryOptions::default() }
    }
}

proof fn lemma_find_from_all(entries: Seq<(u8, u32)>, prev: u32, c: u8, from: int)
    requires
        0 <= from,
    ensures
        find_from(entries, prev, c, from) matches Some(k) ==> from <= k < entries.len() && entries[k] == (c, prev)
            && forall|m: int| from <= m < k ==> entries[m] != (c, prev),
        find_from(entries, prev, c, from) is None ==> forall|m: int|
            from <= m < entries.len() ==> entries[m] != (c, prev),
    decreases entries.len() - from,
{
    if from < entries.len() && entries[from] != (c, prev) {
        lemma_find_from_all(entries, prev, c, from + 1);
    }
}

/// A lookup finds every record there is: it gives an index exactly when some
/// record extends `prev` by `c`, and then the index of the first such record.
pub proof fn lemma_find_record_exact(entries: Seq<(u8, u32)>, prev: u32, c: u8)
    requires
        entries.len() + 256 <= u32::MAX,
    ensures
        (exists|k: int| 0 <= k < entries.len() && entries[k] == (c, prev)) <==> find_record(entries, prev, c) is Some,
        find_record(entries, prev, c) matches Some(j) ==> {
            &&& 256 <= j < 256 + entries.len()
            &&& entries[j - 256] == (c, prev)
            &&& forall|m: int| 0 <= m < j - 256 ==> entries[m] != (c, prev)
        },
{
    lemma_find_from_all(entries, prev, c, 0);
    if let Some(k) = find_from(entries, prev, c, 0) {
        assert(0 <= k < entries.len() && entries[k] == (c, prev));
    }
}

} // verus!
