//! A command decodes what the same command encoded: removing the extensions
//! in reverse order undoes applying them, and each algorithm undoes itself.
use vstd::prelude::*;
use crate::cli::commands::{
    Algorithm,
    Extension,
    bwt_stream_decodable,
    bwt_stream_decoded,
    bwt_stream_encoded,
    lemma_bwt_extension_roundtrip,
    lemma_mtf_extension_roundtrip,
};
use crate::huffman::algorithms::{
    huffman_decodable,
    huffman_decoded,
    huffman_encodable,
    huffman_encoded,
    lemma_huffman_roundtrip,
};
use crate::lzv::algorithms::{lzv_decodable, lzv_decoded, lzv_encoded};
use crate::lzv::error::LzvError;
use crate::lzv::roundtrip::lemma_lzv_roundtrip;
use crate::move_to_front::{identity_order, mtf_decode_seq, mtf_encode_seq};

verus! {

/// `y` is `x` with the extension `e` applied, as `apply_mtf_extension_encode`
/// and `apply_bft_extension_encode` compute it.
pub open spec fn extension_applied(e: Extension, x: Seq<u8>, y: Seq<u8>) -> bool {
    match e {
        Extension::MTF => y == mtf_encode_seq(identity_order(), x),
        Extension::BWT => bwt_stream_encoded(x, y),
    }
}

/// `y` can be handed to the function that removes `e`.
pub open spec fn extension_removable(e: Extension, y: Seq<u8>) -> bool {
    match e {
        Extension::MTF => true,
        Extension::BWT => bwt_stream_decodable(y),
    }
}

/// `x` is `y` with the extension `e` removed, as `apply_mtf_extension_decode`
/// and `apply_bft_extension_decode` compute it.
pub open spec fn extension_removed(e: Extension, y: Seq<u8>, x: Seq<u8>) -> bool {
    match e {
        Extension::MTF => x == mtf_decode_seq(identity_order(), y),
        Extension::BWT => bwt_stream_decoded(y, x),
    }
}

/// `stages[i + 1]` is `stages[i]` with `exts[i]` applied: the files an
/// encoding writes, from its input to what the algorithm reads.
pub open spec fn applied_chain(exts: Seq<Extension>, stages: Seq<Seq<u8>>) -> bool {
    &&& stages.len() == exts.len() + 1
    &&& forall|i: int|
        0 <= i < exts.len() ==> extension_applied(exts[i], #[trigger] stages[i], stages[i + 1])
}

/// The first `k` removal steps of a decoding: `stages[i + 1]` is `stages[i]`
/// with `exts[n - 1 - i]` removed, the last extension first.
pub open spec fn removed_upto(exts: Seq<Extension>, stages: Seq<Seq<u8>>, k: int) -> bool {
    let n = exts.len() as int;
    &&& 0 <= k <= n
    &&& stages.len() > k
    &&& forall|i: int|
        0 <= i < k ==> extension_removed(exts[n - 1 - i], #[trigger] stages[i], stages[i + 1])
}

/// `c` is what `alg` writes for `x`.
pub open spec fn compressed_by(alg: Algorithm, x: Seq<u8>, c: Seq<u8>) -> bool {
    match alg {
        Algorithm::LZV => c == lzv_encoded(x),
        Algorithm::Huffman => c == huffman_encoded(x),
    }
}

/// The inputs whose compression `alg` can undo: for LZV those whose encoded
/// form fits in memory; for Huffman those it can code that hold at least two
/// different bytes.
pub open spec fn algorithm_roundtrips(alg: Algorithm, x: Seq<u8>) -> bool {
    match alg {
        Algorithm::LZV => 16 * x.len() + 80 <= usize::MAX,
        Algorithm::Huffman => huffman_encodable(x) && exists|i: int, j: int|
            0 <= i < x.len() && 0 <= j < x.len() && x[i] != x[j],
    }
}

/// The decoder of `alg` accepts `c` and gives `x` back.
pub open spec fn decompressed(alg: Algorithm, c: Seq<u8>, x: Seq<u8>) -> bool {
    match alg {
        Algorithm::LZV => lzv_decodable(c) && lzv_decoded(c) == Ok::<Seq<u8>, LzvError>(x),
        Algorithm::Huffman => huffman_decodable(c) && c.len() >= 8 && huffman_decoded(c) == x,
    }
}

/// Removing an extension undoes applying it, and what applying it writes can
/// be handed to the removal.
pub proof fn lemma_extension_roundtrip(e: Extension, x: Seq<u8>, y: Seq<u8>, z: Seq<u8>)
    requires
        extension_applied(e, x, y),
    ensures
        extension_removable(e, y),
        extension_removed(e, y, z) ==> z == x,
{
    match e {
        Extension::MTF => {
            lemma_mtf_extension_roundtrip(x);
        },
        Extension::BWT => {
            lemma_bwt_extension_roundtrip(x, y, z);
        },
    }
}

/// Removing the extensions in reverse order undoes applying them: after `k`
/// removal steps from the last stage of an encoding, the decoding holds the
/// stage from `k` steps before it, and the next removal can run on it.
pub proof fn lemma_extensions_undone(exts: Seq<Extension>, enc: Seq<Seq<u8>>, dec: Seq<Seq<u8>>, k: int)
    requires
        applied_chain(exts, enc),
        removed_upto(exts, dec, k),
        dec[0] == enc[exts.len() as int],
    ensures
        dec[k] == enc[exts.len() - k],
        k < exts.len() ==> extension_removable(exts[exts.len() - 1 - k], dec[k]),
    decreases k,
{
    let n = exts.len() as int;
    if k > 0 {
        lemma_extensions_undone(exts, enc, dec, k - 1);
        let m = n - k;
        assert(extension_applied(exts[m], enc[m], enc[m + 1]));
        assert(extension_removed(exts[n - 1 - (k - 1)], dec[k - 1], dec[k]));
        lemma_extension_roundtrip(exts[m], enc[m], enc[m + 1], dec[k]);
    }
    if k < n {
        let m = n - 1 - k;
        assert(extension_applied(exts[m], enc[m], enc[m + 1]));
        lemma_extension_roundtrip(exts[m], enc[m], enc[m + 1], enc[m]);
    }
}

/// A command's decoding gives back its encoding's input. The encoding
/// applies `exts` (stages `enc`) and compresses the last stage into `c` with
/// `alg`; the decoding accepts `c`, gives back that last stage, and then its
/// removal steps (stages `dec`, starting there) can each run and end with
/// the encoding's input.
pub proof fn lemma_command_roundtrip(
    exts: Seq<Extension>,
    alg: Algorithm,
    enc: Seq<Seq<u8>>,
    c: Seq<u8>,
    dec: Seq<Seq<u8>>,
    k: int,
)
    requires
        applied_chain(exts, enc),
        compressed_by(alg, enc[exts.len() as int], c),
        algorithm_roundtrips(alg, enc[exts.len() as int]),
        removed_upto(exts, dec, k),
        dec[0] == enc[exts.len() as int],
    ensures
        decompressed(alg, c, enc[exts.len() as int]),
        k < exts.len() ==> extension_removable(exts[exts.len() - 1 - k], dec[k]),
        k == exts.len() ==> dec[k] == enc[0],
{
    let x = enc[exts.len() as int];
    match alg {
        Algorithm::LZV => {
            lemma_lzv_roundtrip(x);
        },
        Algorithm::Huffman => {
            let (i, j) = choose|i: int, j: int| 0 <= i < x.len() && 0 <= j < x.len() && x[i] != x[j];
            lemma_huffman_roundtrip(x, i, j);
        },
    }
    lemma_extensions_undone(exts, enc, dec, k);
}

} // verus!
