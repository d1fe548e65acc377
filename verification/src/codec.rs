//! Persistence: the index is serialized to a stream of 64-bit words (then
//! little-endian bytes) holding a header — format version, dimension, metric
//! id, the neighbor bounds, the construction beam width, the node count and
//! the entry point with its layer — followed by one fixed-size record per
//! node: its id, its layer, its vector's components, and per layer a
//! zero-padded neighbor list. Fixed-size records make the encoding of an
//! index unique, which is what lets a load reproduce exactly the index that
//! was saved.

use crate::errors::Error;
use crate::graph::layer_bound;
use crate::graph::NavigableGraph;
use crate::graph::Node;
use crate::index::cfg_wf;
use crate::index::Config;
use crate::index::Index;
use crate::index::RNG_SEED;
use crate::level::MAX_LEVEL;
use crate::store::VectorStore;
use vstd::prelude::*;

verus! {

/// The format version this library writes and understands.
pub const FORMAT_VERSION: u64 = 1;

/// The identifier of the one supported metric (squared Euclidean distance).
pub const METRIC_SQUARED_EUCLIDEAN: u64 = 0;

/// Words taken by one zero-padded neighbor-list block of layer `l`.
pub open spec fn block_len(l: int, m: nat, m0: nat) -> nat {
    1 + layer_bound(l, m, m0)
}

/// Words taken by the layer blocks of one record: one block per layer from 0
/// to the cap, present or not.
pub open spec fn layers_len(m: nat, m0: nat) -> nat {
    blocks_len((MAX_LEVEL + 1) as nat, m, m0)
}

/// Words taken by the first `count` layer blocks.
pub open spec fn blocks_len(count: nat, m: nat, m0: nat) -> nat
    decreases count,
{
    if count == 0 {
        0
    } else {
        blocks_len((count - 1) as nat, m, m0) + block_len(count - 1, m, m0)
    }
}

/// Words taken by one node record: id, layer, the vector, the layer blocks.
pub open spec fn record_len(dim: nat, m: nat, m0: nat) -> nat {
    2 + dim + layers_len(m, m0)
}

/// The component words of a vector, one per component, bit-preserving.
pub open spec fn vec_words(v: Seq<i32>) -> Seq<u64> {
    Seq::new(v.len(), |i: int| v[i] as u32 as u64)
}

/// The block of layer `l` of a node with `level` layers and lists `ls`: the
/// list's length, its entries, zero padding up to the layer's bound; all
/// zeros for a layer the node does not reach.
pub open spec fn layer_block(ls: Seq<Seq<usize>>, level: nat, l: int, m: nat, m0: nat) -> Seq<
    u64,
> {
    if 0 <= l <= level {
        seq![ls[l].len() as u64] + Seq::new(
            layer_bound(l, m, m0),
            |j: int|
                if j < ls[l].len() {
                    ls[l][j] as u64
                } else {
                    0
                },
        )
    } else {
        Seq::new(block_len(l, m, m0) as nat, |j: int| 0)
    }
}

/// The first `count` layer blocks of one node, concatenated.
pub open spec fn layer_blocks(
    ls: Seq<Seq<usize>>,
    level: nat,
    count: nat,
    m: nat,
    m0: nat,
) -> Seq<u64>
    decreases count,
{
    if count == 0 {
        Seq::empty()
    } else {
        layer_blocks(ls, level, (count - 1) as nat, m, m0) + layer_block(
            ls,
            level,
            count - 1,
            m,
            m0,
        )
    }
}

/// The record of one node: id, layer, vector, layer blocks.
pub open spec fn record_words(
    id: u32,
    v: Seq<i32>,
    level: nat,
    ls: Seq<Seq<usize>>,
    m: nat,
    m0: nat,
) -> Seq<u64> {
    seq![id as u64, level as u64] + vec_words(v) + layer_blocks(
        ls,
        level,
        (MAX_LEVEL + 1) as nat,
        m,
        m0,
    )
}

/// The record of slot `s` of an index.
pub open spec fn slot_words(ix: Index, s: int) -> Seq<u64> {
    record_words(
        ix.store.ids@[s],
        ix.store.vecs@[s]@,
        ix.graph.nodes@[s].level as nat,
        Seq::new(ix.graph.nodes@[s].lists@.len(), |l: int| ix.graph.nodes@[s].lists@[l]@),
        ix.config.m as nat,
        ix.config.m0 as nat,
    )
}

/// The records of the first `i` slots, in slot order.
pub open spec fn slots_words(ix: Index, i: int) -> Seq<u64>
    decreases i,
{
    if i <= 0 {
        Seq::empty()
    } else {
        slots_words(ix, i - 1) + slot_words(ix, i - 1)
    }
}

/// The header: version, dimension, metric, bounds, beam width, node count,
/// entry slot and entry layer (zeros while the index is empty).
pub open spec fn header_words(ix: Index) -> Seq<u64> {
    seq![
        FORMAT_VERSION,
        ix.config.dim as u64,
        METRIC_SQUARED_EUCLIDEAN,
        ix.config.m as u64,
        ix.config.m0 as u64,
        ix.config.ef_construction as u64,
        ix.store.ids@.len() as u64,
        (match ix.graph.entry {
            Some(e) => e as u64,
            None => 0,
        }),
        (match ix.graph.entry {
            Some(e) => ix.graph.nodes@[e as int].level as u64,
            None => 0,
        }),
    ]
}

/// The whole persisted form of an index, as words.
pub open spec fn index_words(ix: Index) -> Seq<u64> {
    header_words(ix) + slots_words(ix, ix.store.ids@.len() as int)
}

/// The eight little-endian bytes of one word.
pub open spec fn le8(x: u64) -> Seq<u8> {
    seq![
        x as u8,
        (x >> 8) as u8,
        (x >> 16) as u8,
        (x >> 24) as u8,
        (x >> 32) as u8,
        (x >> 40) as u8,
        (x >> 48) as u8,
        (x >> 56) as u8,
    ]
}

/// A word recombined from eight little-endian bytes.
pub open spec fn combine8(
    b0: u8,
    b1: u8,
    b2: u8,
    b3: u8,
    b4: u8,
    b5: u8,
    b6: u8,
    b7: u8,
) -> u64 {
    (b0 as u64) | (b1 as u64) << 8 | (b2 as u64) << 16 | (b3 as u64) << 24 | (b4 as u64) << 32 | (
    b5 as u64) << 40 | (b6 as u64) << 48 | (b7 as u64) << 56
}

/// A word stream as little-endian bytes.
pub open spec fn words_bytes(ws: Seq<u64>) -> Seq<u8>
    decreases ws.len(),
{
    if ws.len() == 0 {
        Seq::empty()
    } else {
        words_bytes(ws.drop_last()) + le8(ws.last())
    }
}

/// The `i`-th word read back out of a byte stream.
pub open spec fn word_at(bs: Seq<u8>, i: int) -> u64 {
    combine8(
        bs[8 * i],
        bs[8 * i + 1],
        bs[8 * i + 2],
        bs[8 * i + 3],
        bs[8 * i + 4],
        bs[8 * i + 5],
        bs[8 * i + 6],
        bs[8 * i + 7],
    )
}

/// A byte stream read back as words.
pub open spec fn bytes_words(bs: Seq<u8>) -> Seq<u64> {
    Seq::new((bs.len() / 8) as nat, |i: int| word_at(bs, i))
}

/// Splitting a word into bytes and recombining them gives the word back.
pub proof fn lemma_le8_combine(x: u64)
    ensures
        combine8(
            x as u8,
            (x >> 8) as u8,
            (x >> 16) as u8,
            (x >> 24) as u8,
            (x >> 32) as u8,
            (x >> 40) as u8,
            (x >> 48) as u8,
            (x >> 56) as u8,
        ) == x,
{
    assert(((x as u8) as u64) | (((x >> 8) as u8) as u64) << 8 | (((x >> 16) as u8) as u64) << 16
        | (((x >> 24) as u8) as u64) << 24 | (((x >> 32) as u8) as u64) << 32 | (((x
        >> 40) as u8) as u64) << 40 | (((x >> 48) as u8) as u64) << 48 | (((x >> 56) as u8) as u64)
        << 56 == x) by (bit_vector);
}

/// A word stream takes exactly eight bytes per word.
pub proof fn lemma_words_bytes_len(ws: Seq<u64>)
    ensures
        words_bytes(ws).len() == 8 * ws.len(),
    decreases ws.len(),
{
    if ws.len() > 0 {
        lemma_words_bytes_len(ws.drop_last());
    }
}

/// Reading a word stream back out of its bytes gives the stream back.
pub proof fn lemma_bytes_words_round_trip(ws: Seq<u64>)
    ensures
        bytes_words(words_bytes(ws)) == ws,
    decreases ws.len(),
{
    lemma_words_bytes_len(ws);
    let bs = words_bytes(ws);
    if ws.len() == 0 {
        assert(bytes_words(bs) =~= ws);
    } else {
        let prefix = ws.drop_last();
        lemma_bytes_words_round_trip(prefix);
        lemma_words_bytes_len(prefix);
        let pb = words_bytes(prefix);
        assert forall|i: int| 0 <= i < ws.len() implies word_at(bs, i) == ws[i] by {
            if i < ws.len() - 1 {
                assert(8 * i + 7 < pb.len()) by {
                    assert(8 * i <= 8 * (ws.len() - 2)) by (nonlinear_arith)
                        requires
                            i <= ws.len() - 2,
                    ;
                }
                assert(word_at(bs, i) == word_at(pb, i));
                assert(word_at(pb, i) == prefix[i]);
            } else {
                let x = ws.last();
                assert(forall|k: int| 0 <= k < 8 ==> bs[pb.len() + k] == le8(x)[k]);
                assert(8 * i == pb.len());
                lemma_le8_combine(x);
            }
        }
        assert(bytes_words(bs) =~= ws);
    }
}

/// Serializes a word stream to little-endian bytes.
fn words_to_bytes(words: &Vec<u64>) -> (out: Vec<u8>)
    ensures
        out@ == words_bytes(words@),
{
    let n = words.len();
    let mut out: Vec<u8> = Vec::new();
    let mut i: usize = 0;
    while i < n
        invariant
            n == words@.len(),
            0 <= i <= n,
            out@ == words_bytes(words@.take(i as int)),
        decreases n - i,
    {
        let w = words[i];
        out.push(w as u8);
        out.push((w >> 8) as u8);
        out.push((w >> 16) as u8);
        out.push((w >> 24) as u8);
        out.push((w >> 32) as u8);
        out.push((w >> 40) as u8);
        out.push((w >> 48) as u8);
        out.push((w >> 56) as u8);
        proof {
            assert(words@.take(i + 1).drop_last() =~= words@.take(i as int));
            assert(words@.take(i + 1).last() == words@[i as int]);
            assert(out@ =~= words_bytes(words@.take(i + 1)));
        }
        i = i + 1;
    }
    proof {
        assert(words@.take(n as int) =~= words@);
    }
    out
}

/// Reads a byte stream back as words.
fn bytes_to_words(bytes: &Vec<u8>) -> (out: Vec<u64>)
    requires
        bytes@.len() % 8 == 0,
    ensures
        out@ == bytes_words(bytes@),
{
    let total = bytes.len();
    let n = total / 8;
    let mut out: Vec<u64> = Vec::new();
    let mut i: usize = 0;
    while i < n
        invariant
            total == bytes@.len(),
            bytes@.len() % 8 == 0,
            n == bytes@.len() / 8,
            0 <= i <= n,
            out@.len() == i,
            forall|t: int| 0 <= t < i ==> out@[t] == word_at(bytes@, t),
        decreases n - i,
    {
        proof {
            assert(8 * (i as int) + 7 < bytes@.len()) by (nonlinear_arith)
                requires
                    0 <= i < n,
                    n == bytes@.len() / 8,
                    bytes@.len() % 8 == 0,
            ;
            assert(8 * (i as int) + 7 < total);
        }
        let base = 8 * i;
        let w = (bytes[base] as u64) | (bytes[base + 1] as u64) << 8 | (bytes[base + 2] as u64)
            << 16 | (bytes[base + 3] as u64) << 24 | (bytes[base + 4] as u64) << 32 | (bytes[base
            + 5] as u64) << 40 | (bytes[base + 6] as u64) << 48 | (bytes[base + 7] as u64) << 56;
        out.push(w);
        i = i + 1;
    }
    proof {
        assert(out@ =~= bytes_words(bytes@));
    }
    out
}

/// Whether two word streams are identical.
fn words_eq(a: &Vec<u64>, b: &Vec<u64>) -> (r: bool)
    ensures
        r <==> a@ == b@,
{
    let n = a.len();
    if n != b.len() {
        proof {
            assert(a@ != b@);
        }
        return false;
    }
    let mut i: usize = 0;
    while i < n
        invariant
            n == a@.len() == b@.len(),
            0 <= i <= n,
            forall|t: int| 0 <= t < i ==> a@[t] == b@[t],
        decreases n - i,
    {
        if a[i] != b[i] {
            proof {
                assert(a@[i as int] != b@[i as int]);
            }
            return false;
        }
        i = i + 1;
    }
    proof {
        assert(a@ =~= b@);
    }
    true
}

impl Index {
    /// Serializes the whole index — header, vectors and graph — to a byte
    /// stream that `load` accepts.
    pub fn save(&self) -> (out: Vec<u8>)
        requires
            self.wf(),
        ensures
            out@ == words_bytes(index_words(*self)),
    {
        let words = encode_words(self);
        words_to_bytes(&words)
    }

    /// Restores an index from a byte stream, replacing this one's contents.
    /// The header is validated before anything else: an unknown version
    /// fails with `UnsupportedVersion` and a dimension other than this
    /// index's with `DimensionMismatch` — each exactly on the streams its
    /// clause below describes — and anything else that is not the canonical
    /// encoding of a well-formed index fails with `CorruptFormat`. Success
    /// is owed: every byte stream `save` can produce for an index of this
    /// dimension loads. A failed load leaves the index exactly as it was; a
    /// successful one leaves exactly the index the stream describes.
    pub fn load(&mut self, bytes: &Vec<u8>) -> (r: Result<(), Error>)
        requires
            old(self).wf(),
        ensures
            final (self).wf(),
            final (self).config.dim == old(self).config.dim,
            forall|ix2: Index|
                ix2.wf() && ix2.config.dim == old(self).config.dim && ix2.config.dim
                    <= 0xFFFF_FFFF && ix2.store.ids@.len() <= 0xFFFF_FFFF && bytes@ == words_bytes(
                    #[trigger] index_words(ix2),
                ) ==> r is Ok,
            match r {
                Ok(()) => bytes@.len() % 8 == 0 && index_words(*final (self)) == bytes_words(
                    bytes@,
                ) && final (self).rng == RNG_SEED,
                Err(e) => {
                    &&& *final (self) == *old(self)
                    &&& (e == Error::UnsupportedVersion <==> bytes@.len() % 8 == 0
                        && version_rejected(bytes_words(bytes@)))
                    &&& (e == Error::DimensionMismatch <==> bytes@.len() % 8 == 0
                        && dimension_rejected(bytes_words(bytes@), old(self).config.dim))
                    &&& (e == Error::CorruptFormat || e == Error::UnsupportedVersion || e
                        == Error::DimensionMismatch)
                },
            },
    {
        let ghost dim = self.config.dim;
        if bytes.len() % 8 != 0 {
            proof {
                assert forall|ix2: Index|
                    ix2.wf() && ix2.config.dim == dim && ix2.config.dim <= 0xFFFF_FFFF
                        && ix2.store.ids@.len() <= 0xFFFF_FFFF && bytes@ == words_bytes(
                        #[trigger] index_words(ix2),
                    ) implies false by {
                    lemma_words_bytes_len(index_words(ix2));
                }
            }
            return Err(Error::CorruptFormat);
        }
        let words = bytes_to_words(bytes);
        proof {
            assert forall|ix2: Index|
                ix2.wf() && ix2.config.dim == dim && ix2.config.dim <= 0xFFFF_FFFF
                    && ix2.store.ids@.len() <= 0xFFFF_FFFF && bytes@ == words_bytes(
                    #[trigger] index_words(ix2),
                ) implies words@ == index_words(ix2) by {
                lemma_bytes_words_round_trip(index_words(ix2));
            }
        }
        match decode_index(&words, self.config.dim) {
            Ok(ix) => {
                *self = ix;
                Ok(())
            },
            Err(e) => {
                proof {
                    assert forall|ix2: Index|
                        ix2.wf() && ix2.config.dim == dim && ix2.config.dim <= 0xFFFF_FFFF
                            && ix2.store.ids@.len() <= 0xFFFF_FFFF && bytes@ == words_bytes(
                            #[trigger] index_words(ix2),
                        ) implies false by {
                        assert(words@ == index_words(ix2));
                        assert(encodes_index(words@, dim));
                    }
                }
                Err(e)
            },
        }
    }
}

/// A layer block takes exactly its layer's bound plus one words.
proof fn lemma_layer_block_len(ls: Seq<Seq<usize>>, level: nat, l: int, m: nat, m0: nat)
    ensures
        layer_block(ls, level, l, m, m0).len() == block_len(l, m, m0),
{
}

/// The first `count` layer blocks take exactly `blocks_len(count)` words.
proof fn lemma_layer_blocks_len(ls: Seq<Seq<usize>>, level: nat, count: nat, m: nat, m0: nat)
    ensures
        layer_blocks(ls, level, count, m, m0).len() == blocks_len(count, m, m0),
    decreases count,
{
    if count > 0 {
        lemma_layer_blocks_len(ls, level, (count - 1) as nat, m, m0);
        lemma_layer_block_len(ls, level, count - 1, m, m0);
    }
}

/// A record takes exactly `record_len` words.
proof fn lemma_record_words_len(
    id: u32,
    v: Seq<i32>,
    level: nat,
    ls: Seq<Seq<usize>>,
    dim: nat,
    m: nat,
    m0: nat,
)
    requires
        v.len() == dim,
    ensures
        record_words(id, v, level, ls, m, m0).len() == record_len(dim, m, m0),
{
    lemma_layer_blocks_len(ls, level, (MAX_LEVEL + 1) as nat, m, m0);
}

/// Two equal concatenations whose right parts have the same length are equal
/// part by part.
proof fn lemma_concat_cancel(x1: Seq<u64>, y1: Seq<u64>, x2: Seq<u64>, y2: Seq<u64>)
    requires
        x1 + y1 == x2 + y2,
        y1.len() == y2.len(),
    ensures
        x1 == x2,
        y1 == y2,
{
    assert((x1 + y1).len() == x1.len() + y1.len());
    assert((x2 + y2).len() == x2.len() + y2.len());
    assert(x1.len() == x2.len());
    assert(x1 =~= x2) by {
        assert(forall|i: int| 0 <= i < x1.len() ==> (x1 + y1)[i] == x1[i] && (x2 + y2)[i] == x2[i]);
    }
    assert(y1 =~= y2) by {
        assert(forall|i: int|
            0 <= i < y1.len() ==> (x1 + y1)[x1.len() + i] == y1[i] && (x2 + y2)[x2.len() + i]
                == y2[i]);
    }
}

/// Equal layer blocks of two nodes of the same layer mean equal neighbor
/// lists on every layer both blocks cover.
proof fn lemma_layer_blocks_inj(
    ls1: Seq<Seq<usize>>,
    ls2: Seq<Seq<usize>>,
    level: nat,
    count: nat,
    m: nat,
    m0: nat,
)
    requires
        layer_blocks(ls1, level, count, m, m0) == layer_blocks(ls2, level, count, m, m0),
        m <= m0 <= 0xFFFF,
        forall|l: int| 0 <= l <= level ==> (#[trigger] ls1[l]).len() <= layer_bound(l, m, m0),
        forall|l: int| 0 <= l <= level ==> (#[trigger] ls2[l]).len() <= layer_bound(l, m, m0),
    ensures
        forall|l: int| 0 <= l < count && l <= level ==> ls1[l] == ls2[l],
    decreases count,
{
    if count > 0 {
        let l = count - 1;
        lemma_layer_block_len(ls1, level, l, m, m0);
        lemma_layer_block_len(ls2, level, l, m, m0);
        lemma_concat_cancel(
            layer_blocks(ls1, level, (count - 1) as nat, m, m0),
            layer_block(ls1, level, l, m, m0),
            layer_blocks(ls2, level, (count - 1) as nat, m, m0),
            layer_block(ls2, level, l, m, m0),
        );
        lemma_layer_blocks_inj(ls1, ls2, level, (count - 1) as nat, m, m0);
        if l <= level {
            let b1 = layer_block(ls1, level, l, m, m0);
            let b2 = layer_block(ls2, level, l, m, m0);
            assert(b1 == b2);
            assert(b1[0] == ls1[l].len() as u64) by {
                assert(b1 == seq![ls1[l].len() as u64] + Seq::new(
                    layer_bound(l, m, m0),
                    |j: int|
                        if j < ls1[l].len() {
                            ls1[l][j] as u64
                        } else {
                            0
                        },
                ));
            }
            assert(b2[0] == ls2[l].len() as u64) by {
                assert(b2 == seq![ls2[l].len() as u64] + Seq::new(
                    layer_bound(l, m, m0),
                    |j: int|
                        if j < ls2[l].len() {
                            ls2[l][j] as u64
                        } else {
                            0
                        },
                ));
            }
            assert(ls1[l].len() <= layer_bound(l, m, m0));
            assert(ls2[l].len() <= layer_bound(l, m, m0));
            assert(ls1[l].len() == ls2[l].len());
            assert(ls1[l] =~= ls2[l]) by {
                assert forall|j: int| 0 <= j < ls1[l].len() implies ls1[l][j] == ls2[l][j] by {
                    assert(b1[1 + j] == ls1[l][j] as u64);
                    assert(b2[1 + j] == ls2[l][j] as u64);
                }
            }
        }
    }
}

/// Equal records under one configuration mean equal id, vector, layer and
/// neighbor lists.
proof fn lemma_record_inj(
    id1: u32,
    v1: Seq<i32>,
    level1: nat,
    ls1: Seq<Seq<usize>>,
    id2: u32,
    v2: Seq<i32>,
    level2: nat,
    ls2: Seq<Seq<usize>>,
    dim: nat,
    m: nat,
    m0: nat,
)
    requires
        record_words(id1, v1, level1, ls1, m, m0) == record_words(id2, v2, level2, ls2, m, m0),
        m <= m0 <= 0xFFFF,
        v1.len() == dim,
        v2.len() == dim,
        level1 <= MAX_LEVEL,
        level2 <= MAX_LEVEL,
        forall|l: int| 0 <= l <= level1 ==> (#[trigger] ls1[l]).len() <= layer_bound(l, m, m0),
        forall|l: int| 0 <= l <= level2 ==> (#[trigger] ls2[l]).len() <= layer_bound(l, m, m0),
    ensures
        id1 == id2,
        level1 == level2,
        v1 == v2,
        forall|l: int| 0 <= l <= level1 ==> ls1[l] == ls2[l],
{
    let r1 = record_words(id1, v1, level1, ls1, m, m0);
    let r2 = record_words(id2, v2, level2, ls2, m, m0);
    lemma_layer_blocks_len(ls1, level1, (MAX_LEVEL + 1) as nat, m, m0);
    lemma_layer_blocks_len(ls2, level2, (MAX_LEVEL + 1) as nat, m, m0);
    lemma_concat_cancel(
        seq![id1 as u64, level1 as u64] + vec_words(v1),
        layer_blocks(ls1, level1, (MAX_LEVEL + 1) as nat, m, m0),
        seq![id2 as u64, level2 as u64] + vec_words(v2),
        layer_blocks(ls2, level2, (MAX_LEVEL + 1) as nat, m, m0),
    );
    let h1 = seq![id1 as u64, level1 as u64] + vec_words(v1);
    let h2 = seq![id2 as u64, level2 as u64] + vec_words(v2);
    assert(h1[0] == id1 as u64 && h2[0] == id2 as u64);
    assert(h1[1] == level1 as u64 && h2[1] == level2 as u64);
    assert(id1 == id2);
    assert(level1 == level2);
    assert(v1 =~= v2) by {
        assert forall|i: int| 0 <= i < dim implies v1[i] == v2[i] by {
            assert(h1[2 + i] == v1[i] as u32 as u64);
            assert(h2[2 + i] == v2[i] as u32 as u64);
            let c1 = v1[i];
            let c2 = v2[i];
            assert(c1 as u32 == c2 as u32 ==> c1 == c2) by (bit_vector);
        }
    }
    lemma_layer_blocks_inj(ls1, ls2, level1, (MAX_LEVEL + 1) as nat, m, m0);
}

/// The records of the first `i` slots take `i` records' worth of words.
proof fn lemma_slots_words_len(ix: Index, i: int)
    requires
        ix.wf(),
        0 <= i <= ix.store.ids@.len(),
    ensures
        slots_words(ix, i).len() == i * record_len(
            ix.config.dim as nat,
            ix.config.m as nat,
            ix.config.m0 as nat,
        ),
    decreases i,
{
    let rl = record_len(ix.config.dim as nat, ix.config.m as nat, ix.config.m0 as nat);
    if i > 0 {
        lemma_slots_words_len(ix, i - 1);
        lemma_record_words_len(
            ix.store.ids@[i - 1],
            ix.store.vecs@[i - 1]@,
            ix.graph.nodes@[i - 1].level as nat,
            Seq::new(
                ix.graph.nodes@[i - 1].lists@.len(),
                |l: int| ix.graph.nodes@[i - 1].lists@[l]@,
            ),
            ix.config.dim as nat,
            ix.config.m as nat,
            ix.config.m0 as nat,
        );
        assert(i * rl == (i - 1) * rl + rl) by (nonlinear_arith);
    } else {
        assert(0 * rl == 0) by (nonlinear_arith);
    }
}

/// The records of the first `i` slots of two indexes under one configuration
/// determine those slots: same ids, same vectors, same node shapes.
proof fn lemma_slots_inj(a: Index, b: Index, i: int)
    requires
        a.wf(),
        b.wf(),
        a.config == b.config,
        0 <= i <= a.store.ids@.len(),
        i <= b.store.ids@.len(),
        slots_words(a, i) == slots_words(b, i),
    ensures
        forall|t: int|
            0 <= t < i ==> a.store.ids@[t] == b.store.ids@[t] && a.store.vecs@[t]@
                == b.store.vecs@[t]@ && a.graph.nodes@[t].shape() == b.graph.nodes@[t].shape(),
    decreases i,
{
    if i > 0 {
        let t = i - 1;
        let dim = a.config.dim as nat;
        let m = a.config.m as nat;
        let m0 = a.config.m0 as nat;
        let ls_a = Seq::new(a.graph.nodes@[t].lists@.len(), |l: int| a.graph.nodes@[t].lists@[l]@);
        let ls_b = Seq::new(b.graph.nodes@[t].lists@.len(), |l: int| b.graph.nodes@[t].lists@[l]@);
        assert(a.graph.node_valid(t) && a.graph.node_bounded(t, m, m0));
        assert(b.graph.node_valid(t) && b.graph.node_bounded(t, m, m0));
        lemma_record_words_len(
            a.store.ids@[t],
            a.store.vecs@[t]@,
            a.graph.nodes@[t].level as nat,
            ls_a,
            dim,
            m,
            m0,
        );
        lemma_record_words_len(
            b.store.ids@[t],
            b.store.vecs@[t]@,
            b.graph.nodes@[t].level as nat,
            ls_b,
            dim,
            m,
            m0,
        );
        lemma_concat_cancel(
            slots_words(a, t),
            slot_words(a, t),
            slots_words(b, t),
            slot_words(b, t),
        );
        lemma_slots_inj(a, b, t);
        lemma_record_inj(
            a.store.ids@[t],
            a.store.vecs@[t]@,
            a.graph.nodes@[t].level as nat,
            ls_a,
            b.store.ids@[t],
            b.store.vecs@[t]@,
            b.graph.nodes@[t].level as nat,
            ls_b,
            dim,
            m,
            m0,
        );
        assert(a.graph.nodes@[t].shape() == b.graph.nodes@[t].shape()) by {
            assert(a.graph.nodes@[t].shape().lists =~~= b.graph.nodes@[t].shape().lists) by {
                assert forall|l: int|
                    0 <= l < a.graph.nodes@[t].lists@.len() implies ls_a[l] == ls_b[l] by {}
            }
        }
    }
}

/// The persisted bytes determine the index: two well-formed indexes whose
/// saved byte streams are identical agree on configuration, stored contents
/// (id and vector of every slot, in order), graph shape and entry point.
/// With the contracts of `save` and `load`, loading what `save` wrote
/// therefore restores an index that behaves exactly as the saved one: every
/// operation of the library reads only what this lemma equates.
pub proof fn lemma_persisted_bytes_determine_index(a: Index, b: Index)
    requires
        a.wf(),
        b.wf(),
        words_bytes(index_words(a)) == words_bytes(index_words(b)),
    ensures
        a.config == b.config,
        a.store.entries() =~~= b.store.entries(),
        a.graph.shape() =~~= b.graph.shape(),
        a.graph.entry == b.graph.entry,
{
    lemma_bytes_words_round_trip(index_words(a));
    lemma_bytes_words_round_trip(index_words(b));
    assert(index_words(a) == index_words(b));
    let ha = header_words(a);
    let hb = header_words(b);
    let n_a = a.store.ids@.len() as int;
    let n_b = b.store.ids@.len() as int;
    assert(ha[6] == n_a as u64 && hb[6] == n_b as u64) by {
        assert(index_words(a)[6] == ha[6]);
        assert(index_words(b)[6] == hb[6]);
    }
    assert forall|i: int| 0 <= i < 9 implies ha[i] == hb[i] by {
        assert(index_words(a)[i] == ha[i]);
        assert(index_words(b)[i] == hb[i]);
    }
    assert(a.config.dim == b.config.dim && a.config.m == b.config.m && a.config.m0 == b.config.m0
        && a.config.ef_construction == b.config.ef_construction);
    lemma_concat_cancel_front(ha, slots_words(a, n_a), hb, slots_words(b, n_b));
    let rl = record_len(a.config.dim as nat, a.config.m as nat, a.config.m0 as nat);
    lemma_slots_words_len(a, n_a);
    lemma_slots_words_len(b, n_b);
    assert(n_a * rl == n_b * rl);
    assert(n_a == n_b) by (nonlinear_arith)
        requires
            n_a * rl == n_b * rl,
            rl >= 2,
            n_a >= 0,
            n_b >= 0,
    ;
    assert(slots_words(a, n_a) == slots_words(b, n_a));
    lemma_slots_inj(a, b, n_a);
    match a.graph.entry {
        Some(ea) => {
            assert(n_a > 0);
            match b.graph.entry {
                Some(eb) => {
                    assert(ha[7] == ea as u64 && hb[7] == eb as u64);
                    assert(ea == eb);
                },
                None => {
                    assert(false);
                },
            }
        },
        None => {
            assert(n_a == 0);
            assert(b.graph.entry is None);
        },
    }
    assert(a.store.entries() =~~= b.store.entries()) by {
        assert forall|t: int| 0 <= t < n_a implies a.store.entries()[t] == b.store.entries()[t] by {
            assert(a.store.ids@[t] == b.store.ids@[t]);
            assert(a.store.vecs@[t]@ == b.store.vecs@[t]@);
        }
    }
    assert(a.graph.shape() =~~= b.graph.shape()) by {
        assert forall|t: int| 0 <= t < n_a implies a.graph.shape()[t] == b.graph.shape()[t] by {
            assert(a.store.ids@[t] == b.store.ids@[t]);
            assert(a.graph.nodes@[t].shape() == b.graph.nodes@[t].shape());
        }
    }
}

/// Two equal concatenations whose left parts have the same length are equal
/// part by part.
proof fn lemma_concat_cancel_front(x1: Seq<u64>, y1: Seq<u64>, x2: Seq<u64>, y2: Seq<u64>)
    requires
        x1 + y1 == x2 + y2,
        x1.len() == x2.len(),
    ensures
        x1 == x2,
        y1 == y2,
{
    assert(y1.len() == y2.len()) by {
        assert((x1 + y1).len() == x1.len() + y1.len());
        assert((x2 + y2).len() == x2.len() + y2.len());
    }
    lemma_concat_cancel(x1, y1, x2, y2);
}

/// `words` is the canonical persisted form of some well-formed index of
/// dimension `dim` whose dimension and id count fit the format's 32-bit
/// fields. Exactly these streams are the ones `save` can produce, and the
/// ones a load is owed to accept.
pub open spec fn encodes_index(words: Seq<u64>, dim: usize) -> bool {
    exists|ix2: Index|
        ix2.wf() && ix2.config.dim == dim && ix2.config.dim <= 0xFFFF_FFFF
            && ix2.store.ids@.len() <= 0xFFFF_FFFF && words == #[trigger] index_words(ix2)
}

/// A word stream a load refuses as `UnsupportedVersion`: long enough to
/// carry a header, but with a version word this library does not write.
pub open spec fn version_rejected(words: Seq<u64>) -> bool {
    words.len() >= 9 && words[0] != FORMAT_VERSION
}

/// A word stream a load into an index of dimension `dim` refuses as
/// `DimensionMismatch`: version and metric in order, a representable
/// dimension word, but not the dimension of this index.
pub open spec fn dimension_rejected(words: Seq<u64>, dim: usize) -> bool {
    &&& words.len() >= 9
    &&& words[0] == FORMAT_VERSION
    &&& words[2] == METRIC_SQUARED_EUCLIDEAN
    &&& words[1] <= 0xFFFF_FFFF
    &&& words[1] != dim as u64
}

/// The `k`-th word of record `i` in a stream of the given record length.
pub open spec fn rec_word(words: Seq<u64>, rl: int, i: int, k: int) -> u64 {
    words[9 + i * rl + k]
}

/// Within the records of the first `j` slots, slot `i` occupies the window
/// from `i` record lengths to `i + 1` record lengths.
proof fn lemma_slots_words_window(ix: Index, i: int, j: int)
    requires
        ix.wf(),
        0 <= i < j <= ix.store.ids@.len(),
    ensures
        slots_words(ix, j).subrange(
            i * record_len(ix.config.dim as nat, ix.config.m as nat, ix.config.m0 as nat),
            (i + 1) * record_len(ix.config.dim as nat, ix.config.m as nat, ix.config.m0 as nat),
        ) == slot_words(ix, i),
    decreases j,
{
    let rl = record_len(ix.config.dim as nat, ix.config.m as nat, ix.config.m0 as nat) as int;
    lemma_slots_words_len(ix, i);
    lemma_record_words_len(
        ix.store.ids@[i],
        ix.store.vecs@[i]@,
        ix.graph.nodes@[i].level as nat,
        Seq::new(ix.graph.nodes@[i].lists@.len(), |l: int| ix.graph.nodes@[i].lists@[l]@),
        ix.config.dim as nat,
        ix.config.m as nat,
        ix.config.m0 as nat,
    );
    assert((i + 1) * rl == i * rl + rl && 0 <= i * rl) by (nonlinear_arith)
        requires
            0 <= i,
            rl >= 0,
    ;
    if j == i + 1 {
        assert(slots_words(ix, j) == slots_words(ix, i) + slot_words(ix, i));
        assert(slots_words(ix, j).subrange(i * rl, (i + 1) * rl) =~= slot_words(ix, i));
    } else {
        lemma_slots_words_window(ix, i, j - 1);
        lemma_slots_words_len(ix, j - 1);
        lemma_record_words_len(
            ix.store.ids@[j - 1],
            ix.store.vecs@[j - 1]@,
            ix.graph.nodes@[j - 1].level as nat,
            Seq::new(
                ix.graph.nodes@[j - 1].lists@.len(),
                |l: int| ix.graph.nodes@[j - 1].lists@[l]@,
            ),
            ix.config.dim as nat,
            ix.config.m as nat,
            ix.config.m0 as nat,
        );
        assert((i + 1) * rl <= (j - 1) * rl) by (nonlinear_arith)
            requires
                i + 1 <= j - 1,
                rl >= 0,
        ;
        assert(slots_words(ix, j) == slots_words(ix, j - 1) + slot_words(ix, j - 1));
        assert(slots_words(ix, j).subrange(i * rl, (i + 1) * rl) =~= slots_words(
            ix,
            j - 1,
        ).subrange(i * rl, (i + 1) * rl));
    }
}

/// Every word of record `i`, read from the whole stream of an index.
proof fn lemma_index_word_at(ix: Index, i: int, k: int)
    requires
        ix.wf(),
        0 <= i < ix.store.ids@.len(),
        0 <= k < record_len(ix.config.dim as nat, ix.config.m as nat, ix.config.m0 as nat),
    ensures
        index_words(ix)[9 + i * record_len(
            ix.config.dim as nat,
            ix.config.m as nat,
            ix.config.m0 as nat,
        ) + k] == slot_words(ix, i)[k],
{
    let rl = record_len(ix.config.dim as nat, ix.config.m as nat, ix.config.m0 as nat) as int;
    let n = ix.store.ids@.len() as int;
    lemma_slots_words_window(ix, i, n);
    lemma_slots_words_len(ix, n);
    assert(0 <= i * rl && (i + 1) * rl <= n * rl) by (nonlinear_arith)
        requires
            0 <= i < n,
            rl >= 0,
    ;
    assert(i * rl + k < (i + 1) * rl) by (nonlinear_arith)
        requires
            k < rl,
    ;
    assert(slots_words(ix, n)[i * rl + k] == slots_words(ix, n).subrange(i * rl, (i + 1) * rl)[k]);
    assert(index_words(ix)[9 + i * rl + k] == slots_words(ix, n)[i * rl + k]);
}

/// Within one record's layer area, the block of layer `l` occupies the
/// window from `blocks_len(l)` to `blocks_len(l + 1)`.
proof fn lemma_layer_blocks_window(
    ls: Seq<Seq<usize>>,
    level: nat,
    l: int,
    count: nat,
    m: nat,
    m0: nat,
)
    requires
        0 <= l < count,
    ensures
        layer_blocks(ls, level, count, m, m0).subrange(
            blocks_len(l as nat, m, m0) as int,
            blocks_len((l + 1) as nat, m, m0) as int,
        ) == layer_block(ls, level, l, m, m0),
    decreases count,
{
    lemma_layer_blocks_len(ls, level, l as nat, m, m0);
    lemma_layer_block_len(ls, level, l, m, m0);
    if l == count - 1 {
        assert(layer_blocks(ls, level, count, m, m0).subrange(
            blocks_len(l as nat, m, m0) as int,
            blocks_len((l + 1) as nat, m, m0) as int,
        ) =~= layer_block(ls, level, l, m, m0));
    } else {
        lemma_layer_blocks_window(ls, level, l, (count - 1) as nat, m, m0);
        lemma_layer_blocks_len(ls, level, (count - 1) as nat, m, m0);
        assert(blocks_len((l + 1) as nat, m, m0) <= blocks_len((count - 1) as nat, m, m0)) by {
            lemma_blocks_len_monotone((l + 1) as nat, (count - 1) as nat, m, m0);
        }
        assert(layer_blocks(ls, level, count, m, m0).subrange(
            blocks_len(l as nat, m, m0) as int,
            blocks_len((l + 1) as nat, m, m0) as int,
        ) =~= layer_blocks(ls, level, (count - 1) as nat, m, m0).subrange(
            blocks_len(l as nat, m, m0) as int,
            blocks_len((l + 1) as nat, m, m0) as int,
        ));
    }
}

/// Block offsets grow with the layer.
proof fn lemma_blocks_len_monotone(a: nat, b: nat, m: nat, m0: nat)
    requires
        a <= b,
    ensures
        blocks_len(a, m, m0) <= blocks_len(b, m, m0),
    decreases b,
{
    if a < b {
        lemma_blocks_len_monotone(a, (b - 1) as nat, m, m0);
    }
}

/// A word below 2^32 survives the trip through a 32-bit component.
proof fn lemma_u32_round(x: u64)
    requires
        x <= 0xFFFF_FFFF,
    ensures
        (((x as u32) as i32) as u32) as u64 == x,
{
    assert(x <= 0xFFFF_FFFF ==> (((x as u32) as i32) as u32) as u64 == x) by (bit_vector);
}

/// From a canonical stream, a witness index together with everything its
/// header words say: field values, bounds, the exact stream length, and the
/// entry-point words.
proof fn lemma_canonical_basics(words: Seq<u64>, dim: usize) -> (w: Index)
    requires
        encodes_index(words, dim),
    ensures
        w.wf(),
        words == index_words(w),
        w.config.dim == dim,
        dim <= 0xFFFF_FFFF,
        words.len() >= 9,
        words[0] == FORMAT_VERSION,
        words[1] == dim as u64,
        words[2] == METRIC_SQUARED_EUCLIDEAN,
        words[3] == w.config.m as u64,
        words[4] == w.config.m0 as u64,
        words[5] == w.config.ef_construction as u64,
        2 <= w.config.m <= w.config.m0 <= 0xFFFF,
        1 <= w.config.ef_construction <= 0xFFFF,
        words[6] == w.store.ids@.len() as u64,
        w.store.ids@.len() <= 0xFFFF_FFFF,
        w.store.vecs@.len() == w.store.ids@.len(),
        w.graph.nodes@.len() == w.store.ids@.len(),
        words.len() == 9 + w.store.ids@.len() * record_len(
            dim as nat,
            w.config.m as nat,
            w.config.m0 as nat,
        ),
        match w.graph.entry {
            Some(e) => w.store.ids@.len() > 0 && e < w.store.ids@.len() && words[7] == e as u64
                && words[8] == w.graph.nodes@[e as int].level as u64,
            None => w.store.ids@.len() == 0 && words[7] == 0 && words[8] == 0,
        },
{
    let w = choose|ix2: Index|
        ix2.wf() && ix2.config.dim == dim && ix2.config.dim <= 0xFFFF_FFFF
            && ix2.store.ids@.len() <= 0xFFFF_FFFF && words == #[trigger] index_words(ix2);
    let n = w.store.ids@.len() as int;
    lemma_slots_words_len(w, n);
    assert(forall|k: int| 0 <= k < 9 ==> words[k] == header_words(w)[k]);
    w
}

/// The id, layer and component words of record `i` of an index.
proof fn lemma_canonical_record(w: Index, i: int)
    requires
        w.wf(),
        0 <= i < w.store.ids@.len(),
    ensures
        ({
            let rl = record_len(w.config.dim as nat, w.config.m as nat, w.config.m0 as nat) as int;
            &&& index_words(w)[9 + i * rl] == w.store.ids@[i] as u64
            &&& index_words(w)[9 + i * rl + 1] == w.graph.nodes@[i].level as u64
            &&& forall|c: int|
                0 <= c < w.config.dim ==> index_words(w)[9 + i * rl + 2 + c]
                    == w.store.vecs@[i]@[c] as u32 as u64
        }),
{
    let rl = record_len(w.config.dim as nat, w.config.m as nat, w.config.m0 as nat) as int;
    let sw = slot_words(w, i);
    lemma_index_word_at(w, i, 0);
    lemma_index_word_at(w, i, 1);
    assert(sw[0] == w.store.ids@[i] as u64);
    assert(sw[1] == w.graph.nodes@[i].level as u64);
    assert forall|c: int|
        0 <= c < w.config.dim implies index_words(w)[9 + i * rl + 2 + c]
        == w.store.vecs@[i]@[c] as u32 as u64 by {
        lemma_index_word_at(w, i, 2 + c);
        assert(sw[2 + c] == vec_words(w.store.vecs@[i]@)[c]);
    }
}

/// The layer-block words of record `i` at layer `l`: length, entries and
/// zero padding where the node reaches the layer, all zeros where it does
/// not.
#[verifier::rlimit(60)]
proof fn lemma_canonical_block(w: Index, i: int, l: int)
    requires
        w.wf(),
        0 <= i < w.store.ids@.len(),
        0 <= l <= MAX_LEVEL,
    ensures
        ({
            let rl = record_len(w.config.dim as nat, w.config.m as nat, w.config.m0 as nat) as int;
            let m = w.config.m as nat;
            let m0 = w.config.m0 as nat;
            let off = 2 + w.config.dim + blocks_len(l as nat, m, m0);
            let nd = w.graph.nodes@[i];
            &&& (l <= nd.level ==> {
                &&& index_words(w)[9 + i * rl + off] == nd.lists@[l]@.len() as u64
                &&& forall|j: int|
                    0 <= j < nd.lists@[l]@.len() ==> #[trigger] index_words(w)[9 + i * rl + off + 1
                        + j] == nd.lists@[l]@[j] as u64
                &&& forall|j: int|
                    nd.lists@[l]@.len() <= j < layer_bound(l, m, m0) ==> #[trigger] index_words(
                        w,
                    )[9 + i * rl + off + 1 + j] == 0
            })
            &&& (l > nd.level ==> forall|j: int|
                0 <= j < 1 + layer_bound(l, m, m0) ==> #[trigger] index_words(w)[9 + i * rl + off
                    + j] == 0)
        }),
{
    let rl = record_len(w.config.dim as nat, w.config.m as nat, w.config.m0 as nat) as int;
    let m = w.config.m as nat;
    let m0 = w.config.m0 as nat;
    let dim = w.config.dim as nat;
    let off = (2 + dim + blocks_len(l as nat, m, m0)) as int;
    let nd = w.graph.nodes@[i];
    let ls = Seq::new(nd.lists@.len(), |t: int| nd.lists@[t]@);
    let level = nd.level as nat;
    let blocks = layer_blocks(ls, level, (MAX_LEVEL + 1) as nat, m, m0);
    let sw = slot_words(w, i);
    lemma_layer_blocks_len(ls, level, (MAX_LEVEL + 1) as nat, m, m0);
    lemma_blocks_len_monotone((l + 1) as nat, (MAX_LEVEL + 1) as nat, m, m0);
    lemma_layer_blocks_window(ls, level, l, (MAX_LEVEL + 1) as nat, m, m0);
    lemma_layer_block_len(ls, level, l, m, m0);
    assert(w.graph.node_valid(i));
    assert(w.graph.node_bounded(i, m, m0));
    let block = layer_block(ls, level, l, m, m0);
    let b0 = blocks_len(l as nat, m, m0) as int;
    let window = blocks.subrange(b0, blocks_len((l + 1) as nat, m, m0) as int);
    assert(window == block);
    if l <= nd.level {
        assert(index_words(w)[9 + i * rl + off] == nd.lists@[l]@.len() as u64) by {
            lemma_index_word_at(w, i, off);
            assert(sw[off] == blocks[b0]);
            assert(blocks[b0] == window[0]);
            assert(block[0] == ls[l].len() as u64);
        }
        assert forall|j: int|
            0 <= j < nd.lists@[l]@.len() implies #[trigger] index_words(w)[9 + i * rl + off + 1
            + j] == nd.lists@[l]@[j] as u64 by {
            lemma_index_word_at(w, i, off + 1 + j);
            assert(sw[off + 1 + j] == blocks[b0 + 1 + j]);
            assert(blocks[b0 + 1 + j] == window[1 + j]);
            assert(block[1 + j] == ls[l][j] as u64);
        }
        assert forall|j: int|
            nd.lists@[l]@.len() <= j < layer_bound(l, m, m0) implies #[trigger] index_words(w)[9 + i
            * rl + off + 1 + j] == 0 by {
            lemma_index_word_at(w, i, off + 1 + j);
            assert(sw[off + 1 + j] == blocks[b0 + 1 + j]);
            assert(blocks[b0 + 1 + j] == window[1 + j]);
            assert(block[1 + j] == 0);
        }
    } else {
        assert forall|j: int|
            0 <= j < 1 + layer_bound(l, m, m0) implies #[trigger] index_words(w)[9 + i * rl + off
            + j] == 0 by {
            lemma_index_word_at(w, i, off + j);
            assert(sw[off + j] == blocks[b0 + j]);
            assert(blocks[b0 + j] == window[j]);
            assert(block[j] == 0);
        }
    }
}

/// What the first decoding pass guarantees of one parsed node, before the
/// layer levels of its neighbors are known: layer within the cap, one list
/// per layer, lists within their bounds, entries within the node count.
pub open spec fn pre_node_ok(nodes: Seq<Node>, s: int, n: nat, m: nat, m0: nat) -> bool {
    let nd = nodes[s];
    &&& nd.level <= MAX_LEVEL
    &&& nd.lists@.len() == nd.level + 1
    &&& forall|l: int|
        0 <= l <= nd.level ==> (#[trigger] nd.lists@[l])@.len() <= layer_bound(l, m, m0)
    &&& forall|l: int, j: int|
        0 <= l <= nd.level && 0 <= j < nd.lists@[l]@.len() ==> (#[trigger] nd.lists@[l]@[j]) < n
}

/// The word offset of layer `l`'s block within one record.
pub open spec fn block_off(dim: usize, m: usize, m0: usize, l: int) -> int {
    2 + dim + blocks_len(l as nat, m as nat, m0 as nat)
}

/// The header facts a decoder has established once its header checks passed.
pub open spec fn header_ctx(words: Seq<u64>, dim: usize, m: usize, m0: usize, efc: usize, n: usize) -> bool {
    &&& words.len() >= 9
    &&& words[0] == FORMAT_VERSION
    &&& words[1] == dim as u64
    &&& words[2] == METRIC_SQUARED_EUCLIDEAN
    &&& words[3] == m as u64
    &&& words[4] == m0 as u64
    &&& words[5] == efc as u64
    &&& words[6] == n as u64
    &&& dim <= 0xFFFF_FFFF
    &&& 2 <= m <= m0 <= 0xFFFF
    &&& 1 <= efc <= 0xFFFF
    &&& n <= 0xFFFF_FFFF
}

/// From a canonical stream whose header a decoder already parsed, a witness
/// index whose configuration and count are exactly the parsed values.
proof fn lemma_canonical_match(
    words: Seq<u64>,
    dim: usize,
    m: usize,
    m0: usize,
    efc: usize,
    n: usize,
) -> (w: Index)
    requires
        encodes_index(words, dim),
        header_ctx(words, dim, m, m0, efc, n),
    ensures
        w.wf(),
        words == index_words(w),
        w.config.dim == dim,
        w.config.m == m,
        w.config.m0 == m0,
        w.store.ids@.len() == n,
        w.store.vecs@.len() == n,
        w.graph.nodes@.len() == n,
        words.len() == 9 + n * record_len(dim as nat, m as nat, m0 as nat),
        match w.graph.entry {
            Some(e) => n > 0 && e < n && words[7] == e as u64 && words[8]
                == w.graph.nodes@[e as int].level as u64,
            None => n == 0 && words[7] == 0 && words[8] == 0,
        },
{
    let w = lemma_canonical_basics(words, dim);
    assert(w.config.m == m);
    assert(w.config.m0 == m0);
    assert(w.store.ids@.len() == n);
    w
}

/// Two indexes with the same configuration, contents, graph shape and entry
/// point have the same persisted words.
proof fn lemma_slots_congruence(a: Index, b: Index, i: int)
    requires
        a.config == b.config,
        0 <= i <= a.store.ids@.len(),
        i <= b.store.ids@.len(),
        i <= a.store.vecs@.len(),
        i <= b.store.vecs@.len(),
        i <= a.graph.nodes@.len(),
        i <= b.graph.nodes@.len(),
        forall|t: int| 0 <= t < i ==> a.store.ids@[t] == b.store.ids@[t],
        forall|t: int| 0 <= t < i ==> a.store.vecs@[t]@ == b.store.vecs@[t]@,
        forall|t: int|
            0 <= t < i ==> (#[trigger] a.graph.nodes@[t].level) == b.graph.nodes@[t].level,
        forall|t: int|
            0 <= t < i ==> (#[trigger] a.graph.nodes@[t].lists@.len())
                == b.graph.nodes@[t].lists@.len(),
        forall|t: int, l: int|
            0 <= t < i && 0 <= l < a.graph.nodes@[t].lists@.len() ==> (
            #[trigger] a.graph.nodes@[t].lists@[l])@ == b.graph.nodes@[t].lists@[l]@,
    ensures
        slots_words(a, i) == slots_words(b, i),
    decreases i,
{
    if i > 0 {
        lemma_slots_congruence(a, b, i - 1);
        let t = i - 1;
        let ls_a = Seq::new(a.graph.nodes@[t].lists@.len(), |l: int| a.graph.nodes@[t].lists@[l]@);
        let ls_b = Seq::new(b.graph.nodes@[t].lists@.len(), |l: int| b.graph.nodes@[t].lists@[l]@);
        assert(ls_a =~= ls_b);
        assert(slot_words(a, t) == slot_words(b, t));
    }
}

/// Parses a word stream into a well-formed index of the expected dimension,
/// or says why it cannot: `UnsupportedVersion` for a format this library
/// does not write, `DimensionMismatch` when the stream's dimension differs
/// from the expected one, `CorruptFormat` for anything truncated, malformed
/// or not in the canonical form the encoder writes. Exactly the canonical
/// streams of well-formed indexes of the expected dimension are accepted,
/// and acceptance returns precisely the index the stream encodes.
#[verifier::rlimit(100)]
pub(crate) fn decode_index(words: &Vec<u64>, dim_expected: usize) -> (r: Result<Index, Error>)
    ensures
        match r {
            Ok(ix) => ix.wf() && ix.config.dim == dim_expected && ix.rng == RNG_SEED
                && index_words(ix) == words@,
            Err(e) => {
                &&& !encodes_index(words@, dim_expected)
                &&& (e == Error::UnsupportedVersion <==> version_rejected(words@))
                &&& (e == Error::DimensionMismatch <==> dimension_rejected(words@, dim_expected))
                &&& (e == Error::CorruptFormat || e == Error::UnsupportedVersion || e
                    == Error::DimensionMismatch)
            },
        },
{
    let total = words.len();
    if total < 9 {
        proof {
            if encodes_index(words@, dim_expected) {
                let w = lemma_canonical_basics(words@, dim_expected);
            }
        }
        return Err(Error::CorruptFormat);
    }
    if words[0] != FORMAT_VERSION {
        proof {
            if encodes_index(words@, dim_expected) {
                let w = lemma_canonical_basics(words@, dim_expected);
            }
        }
        return Err(Error::UnsupportedVersion);
    }
    if words[2] != METRIC_SQUARED_EUCLIDEAN {
        proof {
            if encodes_index(words@, dim_expected) {
                let w = lemma_canonical_basics(words@, dim_expected);
            }
        }
        return Err(Error::CorruptFormat);
    }
    let dim64 = words[1];
    if dim64 > 0xFFFF_FFFF {
        proof {
            if encodes_index(words@, dim_expected) {
                let w = lemma_canonical_basics(words@, dim_expected);
            }
        }
        return Err(Error::CorruptFormat);
    }
    let dim = dim64 as usize;
    if dim != dim_expected {
        proof {
            if encodes_index(words@, dim_expected) {
                let w = lemma_canonical_basics(words@, dim_expected);
            }
        }
        return Err(Error::DimensionMismatch);
    }
    let m64 = words[3];
    let m064 = words[4];
    let ef64 = words[5];
    if m64 < 2 || m064 < m64 || m064 > 0xFFFF || ef64 < 1 || ef64 > 0xFFFF {
        proof {
            if encodes_index(words@, dim_expected) {
                let w = lemma_canonical_basics(words@, dim_expected);
            }
        }
        return Err(Error::CorruptFormat);
    }
    let m = m64 as usize;
    let m0 = m064 as usize;
    let ef_construction = ef64 as usize;
    let n64 = words[6];
    if n64 > 0xFFFF_FFFF {
        proof {
            if encodes_index(words@, dim_expected) {
                let w = lemma_canonical_basics(words@, dim_expected);
            }
        }
        return Err(Error::CorruptFormat);
    }
    let n = n64 as usize;
    let ghost rl = record_len(dim_expected as nat, m as nat, m0 as nat) as int;
    proof {
        assert(header_ctx(words@, dim_expected, m, m0, ef_construction, n));
    }
    let entry_slot64 = words[7];
    let entry_level64 = words[8];
    let mut store = VectorStore::new(dim);
    let mut nodes: Vec<Node> = Vec::new();
    let mut pos: usize = 9;
    let mut i: usize = 0;
    while i < n
        invariant
            total == words@.len(),
            header_ctx(words@, dim_expected, m, m0, ef_construction, n),
            dim == dim_expected,
            rl == record_len(dim_expected as nat, m as nat, m0 as nat) as int,
            n64 == n as u64,
            dim == store.dim,
            store.wf(),
            store.ids@.len() == i,
            store.vecs@.len() == i,
            nodes@.len() == i,
            0 <= i <= n,
            pos == 9 + i * rl,
            forall|s: int| 0 <= s < i ==> pre_node_ok(nodes@, s, n as nat, m as nat, m0 as nat),
            forall|t: int|
                0 <= t < i ==> rec_word(words@, rl, t, 0) == (#[trigger] store.ids@[t]) as u64,
            forall|t: int|
                0 <= t < i ==> rec_word(words@, rl, t, 1) == (#[trigger] nodes@[t].level) as u64,
            forall|t: int, c: int|
                0 <= t < i && 0 <= c < dim_expected ==> rec_word(words@, rl, t, 2 + c) == (
                #[trigger] store.vecs@[t]@[c]) as u32 as u64,
            forall|t: int, l: int|
                0 <= t < i && 0 <= l < nodes@[t].lists@.len() ==> rec_word(
                    words@,
                    rl,
                    t,
                    block_off(dim_expected, m, m0, l),
                ) == (#[trigger] nodes@[t].lists@[l])@.len() as u64,
            forall|t: int, l: int, j: int|
                0 <= t < i && 0 <= l < nodes@[t].lists@.len() && 0 <= j
                    < nodes@[t].lists@[l]@.len() ==> rec_word(
                    words@,
                    rl,
                    t,
                    block_off(dim_expected, m, m0, l) + 1 + j,
                ) == (#[trigger] nodes@[t].lists@[l]@[j]) as u64,
        decreases n - i,
    {
        proof {
            assert((i + 1) * rl == i * rl + rl && 0 <= i * rl && (i + 1) * rl <= n * rl)
                by (nonlinear_arith)
                requires
                    0 <= i < n,
                    rl >= 0,
            ;
            if encodes_index(words@, dim_expected) {
                let w = lemma_canonical_match(words@, dim_expected, m, m0, ef_construction, n);
                assert(total == 9 + n * rl);
            }
        }
        if pos >= total {
            return Err(Error::CorruptFormat);
        }
        let id64 = words[pos];
        pos = pos + 1;
        if id64 > 0xFFFF_FFFF {
            proof {
                if encodes_index(words@, dim_expected) {
                    let w = lemma_canonical_match(words@, dim_expected, m, m0, ef_construction, n);
                    lemma_canonical_record(w, i as int);
                    assert(index_words(w)[9 + i * rl] == w.store.ids@[i as int] as u64);
                    assert(id64 == words@[9 + i * rl]);
                    assert(false);
                }
            }
            return Err(Error::CorruptFormat);
        }
        if pos >= total {
            proof {
                if encodes_index(words@, dim_expected) {
                    let w = lemma_canonical_match(words@, dim_expected, m, m0, ef_construction, n);
                    assert(false);
                }
            }
            return Err(Error::CorruptFormat);
        }
        let lvl64 = words[pos];
        pos = pos + 1;
        if lvl64 > MAX_LEVEL as u64 {
            proof {
                if encodes_index(words@, dim_expected) {
                    let w = lemma_canonical_match(words@, dim_expected, m, m0, ef_construction, n);
                    lemma_canonical_record(w, i as int);
                    assert(index_words(w)[9 + i * rl + 1] == w.graph.nodes@[i as int].level as u64);
                    assert(lvl64 == words@[9 + i * rl + 1]);
                    assert(w.graph.nodes@[i as int].level <= MAX_LEVEL);
                    assert(false);
                }
            }
            return Err(Error::CorruptFormat);
        }
        let lvl = lvl64 as usize;
        let mut v: Vec<i32> = Vec::new();
        let mut c: usize = 0;
        while c < dim
            invariant
                total == words@.len(),
                header_ctx(words@, dim_expected, m, m0, ef_construction, n),
                dim == dim_expected,
                rl == record_len(dim_expected as nat, m as nat, m0 as nat) as int,
                0 <= i < n,
                pos == 9 + i * rl + 2 + c,
                v@.len() == c,
                0 <= c <= dim,
                forall|cc: int|
                    0 <= cc < c ==> rec_word(words@, rl, i as int, 2 + cc) == (#[trigger] v@[cc]) as u32
                        as u64,
            decreases dim - c,
        {
            proof {
                assert(2 + dim_expected <= rl);
                assert((i + 1) * rl == i * rl + rl && 0 <= i * rl && (i + 1) * rl <= n * rl)
                    by (nonlinear_arith)
                    requires
                        0 <= i < n,
                        rl >= 0,
                ;
            }
            if pos >= total {
                proof {
                    if encodes_index(words@, dim_expected) {
                        let w = lemma_canonical_match(
                            words@,
                            dim_expected,
                            m,
                            m0,
                            ef_construction,
                            n,
                        );
                        assert(false);
                    }
                }
                return Err(Error::CorruptFormat);
            }
            let cw = words[pos];
            pos = pos + 1;
            if cw > 0xFFFF_FFFF {
                proof {
                    if encodes_index(words@, dim_expected) {
                        let w = lemma_canonical_match(
                            words@,
                            dim_expected,
                            m,
                            m0,
                            ef_construction,
                            n,
                        );
                        lemma_canonical_record(w, i as int);
                        assert(index_words(w)[9 + i * rl + 2 + c] == w.store.vecs@[i as int]@[c as int] as u32 as u64);
                        assert(cw == words@[9 + i * rl + 2 + c]);
                        assert(false);
                    }
                }
                return Err(Error::CorruptFormat);
            }
            v.push(cw as u32 as i32);
            proof {
                lemma_u32_round(cw);
            }
            c = c + 1;
        }
        let ghost id_u32 = id64 as u32;
        match store.put(id64 as u32, v) {
            Ok(()) => {},
            Err(_) => {
                proof {
                    if encodes_index(words@, dim_expected) {
                        let w = lemma_canonical_match(
                            words@,
                            dim_expected,
                            m,
                            m0,
                            ef_construction,
                            n,
                        );
                        lemma_canonical_record(w, i as int);
                        assert(index_words(w)[9 + i * rl] == w.store.ids@[i as int] as u64);
                        assert(id64 == words@[9 + i * rl]);
                        assert(id64 == w.store.ids@[i as int] as u64);
                        assert forall|t: int| 0 <= t < i implies store.ids@[t] != id_u32 by {
                            lemma_canonical_record(w, t);
                            assert(index_words(w)[9 + t * rl] == w.store.ids@[t] as u64);
                            assert(rec_word(words@, rl, t, 0) == store.ids@[t] as u64);
                            assert(store.ids@[t] == w.store.ids@[t]);
                            assert(w.store.ids@[t] != w.store.ids@[i as int]);
                        }
                        assert(!store.spec_contains(id_u32));
                        assert(false);
                    }
                }
                return Err(Error::CorruptFormat);
            },
        }
        let mut lists: Vec<Vec<usize>> = Vec::new();
        let mut l: usize = 0;
        while l < MAX_LEVEL + 1
            invariant
                total == words@.len(),
                header_ctx(words@, dim_expected, m, m0, ef_construction, n),
                dim == dim_expected,
                rl == record_len(dim_expected as nat, m as nat, m0 as nat) as int,
                0 <= i < n,
                n64 == n as u64,
                lvl <= MAX_LEVEL,
                lvl64 == lvl as u64,
                rec_word(words@, rl, i as int, 1) == lvl as u64,
                0 <= l <= MAX_LEVEL + 1,
                pos == 9 + i * rl + block_off(dim_expected, m, m0, l as int),
                lists@.len() == (if l <= lvl + 1 {
                    l as int
                } else {
                    lvl + 1
                }),
                forall|t: int|
                    0 <= t < lists@.len() ==> (#[trigger] lists@[t])@.len() <= layer_bound(
                        t,
                        m as nat,
                        m0 as nat,
                    ),
                forall|t: int, j: int|
                    0 <= t < lists@.len() && 0 <= j < lists@[t]@.len() ==> (
                    #[trigger] lists@[t]@[j]) < n,
                forall|t: int|
                    0 <= t < lists@.len() ==> rec_word(
                        words@,
                        rl,
                        i as int,
                        block_off(dim_expected, m, m0, t),
                    ) == (#[trigger] lists@[t])@.len() as u64,
                forall|t: int, j: int|
                    0 <= t < lists@.len() && 0 <= j < lists@[t]@.len() ==> rec_word(
                        words@,
                        rl,
                        i as int,
                        block_off(dim_expected, m, m0, t) + 1 + j,
                    ) == (#[trigger] lists@[t]@[j]) as u64,
            decreases MAX_LEVEL + 1 - l,
        {
            let bound = if l == 0 {
                m0
            } else {
                m
            };
            proof {
                assert(layer_bound(l as int, m as nat, m0 as nat) == bound);
                assert(blocks_len((l + 1) as nat, m as nat, m0 as nat) == blocks_len(
                    l as nat,
                    m as nat,
                    m0 as nat,
                ) + 1 + bound);
                lemma_blocks_len_monotone((l + 1) as nat, (MAX_LEVEL + 1) as nat, m as nat, m0 as nat);
                assert(block_off(dim_expected, m, m0, l as int) + 1 + bound <= rl);
                assert((i + 1) * rl == i * rl + rl && 0 <= i * rl && (i + 1) * rl <= n * rl)
                    by (nonlinear_arith)
                    requires
                        0 <= i < n,
                        rl >= 0,
                ;
            }
            if l <= lvl {
                if pos >= total {
                    proof {
                        if encodes_index(words@, dim_expected) {
                            let w = lemma_canonical_match(
                                words@,
                                dim_expected,
                                m,
                                m0,
                                ef_construction,
                                n,
                            );
                            assert(false);
                        }
                    }
                    return Err(Error::CorruptFormat);
                }
                let len64 = words[pos];
                pos = pos + 1;
                if len64 > bound as u64 {
                    proof {
                        if encodes_index(words@, dim_expected) {
                            let w = lemma_canonical_match(
                                words@,
                                dim_expected,
                                m,
                                m0,
                                ef_construction,
                                n,
                            );
                            lemma_canonical_record(w, i as int);
                            assert(index_words(w)[9 + i * rl + 1] == w.graph.nodes@[i as int].level as u64);
                            assert(lvl == w.graph.nodes@[i as int].level);
                            lemma_canonical_block(w, i as int, l as int);
                            assert(index_words(w)[9 + i * rl + block_off(dim_expected, m, m0, l as int)]
                                == w.graph.nodes@[i as int].lists@[l as int]@.len() as u64);
                            assert(len64 == words@[9 + i * rl + block_off(dim_expected, m, m0, l as int)]);
                            assert(w.graph.node_bounded(i as int, m as nat, m0 as nat));
                            assert(false);
                        }
                    }
                    return Err(Error::CorruptFormat);
                }
                let len = len64 as usize;
                let mut list: Vec<usize> = Vec::new();
                let mut j: usize = 0;
                while j < bound
                    invariant
                        total == words@.len(),
                        header_ctx(words@, dim_expected, m, m0, ef_construction, n),
                        dim == dim_expected,
                        rl == record_len(dim_expected as nat, m as nat, m0 as nat) as int,
                        0 <= i < n,
                        lvl <= MAX_LEVEL,
                        rec_word(words@, rl, i as int, 1) == lvl as u64,
                        0 <= l as int <= lvl,
                        bound == layer_bound(l as int, m as nat, m0 as nat),
                        block_off(dim_expected, m, m0, l as int) + 1 + bound <= rl,
                        len <= bound,
                        n64 == n as u64,
                        rec_word(words@, rl, i as int, block_off(dim_expected, m, m0, l as int))
                            == len as u64,
                        0 <= j <= bound,
                        pos == 9 + i * rl + block_off(dim_expected, m, m0, l as int) + 1 + j,
                        list@.len() == (if j <= len {
                            j as int
                        } else {
                            len as int
                        }),
                        forall|t: int| 0 <= t < list@.len() ==> (#[trigger] list@[t]) < n,
                        forall|t: int|
                            0 <= t < list@.len() ==> rec_word(
                                words@,
                                rl,
                                i as int,
                                block_off(dim_expected, m, m0, l as int) + 1 + t,
                            ) == (#[trigger] list@[t]) as u64,
                    decreases bound - j,
                {
                    proof {
                        assert((i + 1) * rl == i * rl + rl && 0 <= i * rl && (i + 1) * rl <= n
                            * rl) by (nonlinear_arith)
                            requires
                                0 <= i < n,
                                rl >= 0,
                        ;
                    }
                    if pos >= total {
                        proof {
                            if encodes_index(words@, dim_expected) {
                                let w = lemma_canonical_match(
                                    words@,
                                    dim_expected,
                                    m,
                                    m0,
                                    ef_construction,
                                    n,
                                );
                                assert(false);
                            }
                        }
                        return Err(Error::CorruptFormat);
                    }
                    let ew = words[pos];
                    pos = pos + 1;
                    if j < len {
                        if ew >= n64 {
                            proof {
                                if encodes_index(words@, dim_expected) {
                                    let w = lemma_canonical_match(
                                        words@,
                                        dim_expected,
                                        m,
                                        m0,
                                        ef_construction,
                                        n,
                                    );
                                    lemma_canonical_record(w, i as int);
                                    assert(index_words(w)[9 + i * rl + 1]
                                        == w.graph.nodes@[i as int].level as u64);
                                    assert(lvl == w.graph.nodes@[i as int].level);
                                    lemma_canonical_block(w, i as int, l as int);
                                    assert(index_words(w)[9 + i * rl + block_off(dim_expected, m, m0, l as int) + 1 + j]
                                        == w.graph.nodes@[i as int].lists@[l as int]@[j as int] as u64);
                                    assert(ew == words@[9 + i * rl + block_off(dim_expected, m, m0, l as int) + 1 + j]);
                                    assert(w.graph.node_valid(i as int));
                                    assert(w.graph.nodes@[i as int].lists@[l as int]@[j as int] < n);
                                    assert(false);
                                }
                            }
                            return Err(Error::CorruptFormat);
                        }
                        list.push(ew as usize);
                    }
                    j = j + 1;
                }
                lists.push(list);
            } else {
                let mut j: usize = 0;
                while j < bound + 1
                    invariant
                        total == words@.len(),
                        header_ctx(words@, dim_expected, m, m0, ef_construction, n),
                        rl == record_len(dim_expected as nat, m as nat, m0 as nat) as int,
                        0 <= i < n,
                        bound <= 0xFFFF,
                        0 <= j <= bound + 1,
                        pos == 9 + i * rl + block_off(dim_expected, m, m0, l as int) + j,
                        block_off(dim_expected, m, m0, l as int) + 1 + bound <= rl,
                    decreases bound + 1 - j,
                {
                    proof {
                        assert((i + 1) * rl == i * rl + rl && 0 <= i * rl && (i + 1) * rl <= n
                            * rl) by (nonlinear_arith)
                            requires
                                0 <= i < n,
                                rl >= 0,
                        ;
                    }
                    if pos >= total {
                        proof {
                            if encodes_index(words@, dim_expected) {
                                let w = lemma_canonical_match(
                                    words@,
                                    dim_expected,
                                    m,
                                    m0,
                                    ef_construction,
                                    n,
                                );
                                assert(false);
                            }
                        }
                        return Err(Error::CorruptFormat);
                    }
                    pos = pos + 1;
                    j = j + 1;
                }
            }
            l = l + 1;
        }
        let ghost nodes_before = nodes@;
        nodes.push(Node { level: lvl, lists });
        proof {
            assert forall|s: int|
                0 <= s < i + 1 implies pre_node_ok(nodes@, s, n as nat, m as nat, m0 as nat) by {
                if s < i {
                    assert(pre_node_ok(nodes_before, s, n as nat, m as nat, m0 as nat));
                    assert(nodes@[s] == nodes_before[s]);
                }
            }
            assert(blocks_len((MAX_LEVEL + 1) as nat, m as nat, m0 as nat) == layers_len(
                m as nat,
                m0 as nat,
            ));
            assert(pos == 9 + (i + 1) * rl) by (nonlinear_arith)
                requires
                    pos == 9 + i * rl + rl,
                    true,
            ;
        }
        i = i + 1;
    }
    if pos != total {
        proof {
            if encodes_index(words@, dim_expected) {
                let w = lemma_canonical_match(words@, dim_expected, m, m0, ef_construction, n);
                assert(false);
            }
        }
        return Err(Error::CorruptFormat);
    }
    let entry: Option<usize> = if n == 0 {
        if entry_slot64 != 0 || entry_level64 != 0 {
            proof {
                if encodes_index(words@, dim_expected) {
                    let w = lemma_canonical_match(words@, dim_expected, m, m0, ef_construction, n);
                    assert(false);
                }
            }
            return Err(Error::CorruptFormat);
        }
        None
    } else {
        if entry_slot64 >= n64 {
            proof {
                if encodes_index(words@, dim_expected) {
                    let w = lemma_canonical_match(words@, dim_expected, m, m0, ef_construction, n);
                    assert(false);
                }
            }
            return Err(Error::CorruptFormat);
        }
        let e = entry_slot64 as usize;
        let mut s: usize = 0;
        while s < n
            invariant
                total == words@.len(),
                header_ctx(words@, dim_expected, m, m0, ef_construction, n),
                rl == record_len(dim_expected as nat, m as nat, m0 as nat) as int,
                n > 0,
                nodes@.len() == n,
                entry_slot64 == words@[7],
                entry_slot64 == e as u64,
                e < n,
                0 <= s <= n,
                forall|t: int|
                    0 <= t < n ==> rec_word(words@, rl, t, 1) == (#[trigger] nodes@[t].level) as u64,
                forall|t: int|
                    0 <= t < s ==> (#[trigger] nodes@[t].level) <= nodes@[e as int].level,
            decreases n - s,
        {
            if nodes[s].level > nodes[e].level {
                proof {
                    if encodes_index(words@, dim_expected) {
                        let w = lemma_canonical_match(
                            words@,
                            dim_expected,
                            m,
                            m0,
                            ef_construction,
                            n,
                        );
                        let we = match w.graph.entry {
                            Some(we) => we,
                            None => 0,
                        };
                        lemma_canonical_record(w, s as int);
                        lemma_canonical_record(w, we as int);
                        lemma_canonical_record(w, e as int);
                        assert(index_words(w)[9 + (s as int) * rl + 1]
                            == w.graph.nodes@[s as int].level as u64);
                        assert(index_words(w)[9 + (e as int) * rl + 1]
                            == w.graph.nodes@[e as int].level as u64);
                        assert(rec_word(words@, rl, s as int, 1) == nodes@[s as int].level as u64);
                        assert(rec_word(words@, rl, e as int, 1) == nodes@[e as int].level as u64);
                        assert(nodes@[s as int].level == w.graph.nodes@[s as int].level);
                        assert(e == we);
                        assert(w.graph.nodes@[s as int].level <= w.graph.nodes@[we as int].level);
                        assert(false);
                    }
                }
                return Err(Error::CorruptFormat);
            }
            s = s + 1;
        }
        if entry_level64 != nodes[e].level as u64 {
            proof {
                if encodes_index(words@, dim_expected) {
                    let w = lemma_canonical_match(words@, dim_expected, m, m0, ef_construction, n);
                    let we = match w.graph.entry {
                        Some(we) => we,
                        None => 0,
                    };
                    lemma_canonical_record(w, we as int);
                    assert(index_words(w)[9 + (we as int) * rl + 1]
                        == w.graph.nodes@[we as int].level as u64);
                    assert(e == we);
                    assert(rec_word(words@, rl, e as int, 1) == nodes@[e as int].level as u64);
                    assert(nodes@[e as int].level == w.graph.nodes@[e as int].level);
                    assert(false);
                }
            }
            return Err(Error::CorruptFormat);
        }
        Some(e)
    };
    let graph = NavigableGraph { nodes, entry };
    let mut s: usize = 0;
    while s < n
        invariant
            total == words@.len(),
            header_ctx(words@, dim_expected, m, m0, ef_construction, n),
            rl == record_len(dim_expected as nat, m as nat, m0 as nat) as int,
            graph.nodes@.len() == n,
            forall|t: int|
                0 <= t < n ==> pre_node_ok(graph.nodes@, t, n as nat, m as nat, m0 as nat),
            forall|t: int|
                0 <= t < n ==> rec_word(words@, rl, t, 1) == (#[trigger] graph.nodes@[t].level) as u64,
            forall|t: int, l: int, j: int|
                0 <= t < n && 0 <= l < graph.nodes@[t].lists@.len() && 0 <= j
                    < graph.nodes@[t].lists@[l]@.len() ==> rec_word(
                    words@,
                    rl,
                    t,
                    block_off(dim_expected, m, m0, l) + 1 + j,
                ) == (#[trigger] graph.nodes@[t].lists@[l]@[j]) as u64,
            forall|t: int, l: int|
                0 <= t < n && 0 <= l < graph.nodes@[t].lists@.len() ==> rec_word(
                    words@,
                    rl,
                    t,
                    block_off(dim_expected, m, m0, l),
                ) == (#[trigger] graph.nodes@[t].lists@[l])@.len() as u64,
            0 <= s <= n,
            forall|t: int| 0 <= t < s ==> graph.node_valid(t),
        decreases n - s,
    {
        let lvl = graph.level_of(s);
        proof {
            assert(pre_node_ok(graph.nodes@, s as int, n as nat, m as nat, m0 as nat));
        }
        let mut l: usize = 0;
        while l < lvl + 1
            invariant
                total == words@.len(),
                header_ctx(words@, dim_expected, m, m0, ef_construction, n),
                rl == record_len(dim_expected as nat, m as nat, m0 as nat) as int,
                graph.nodes@.len() == n,
                s < n,
                lvl <= MAX_LEVEL,
                forall|t: int|
                    0 <= t < n ==> pre_node_ok(graph.nodes@, t, n as nat, m as nat, m0 as nat),
                forall|t: int|
                    0 <= t < n ==> rec_word(words@, rl, t, 1) == (
                    #[trigger] graph.nodes@[t].level) as u64,
                forall|t: int, ll: int, j: int|
                    0 <= t < n && 0 <= ll < graph.nodes@[t].lists@.len() && 0 <= j
                        < graph.nodes@[t].lists@[ll]@.len() ==> rec_word(
                        words@,
                        rl,
                        t,
                        block_off(dim_expected, m, m0, ll) + 1 + j,
                    ) == (#[trigger] graph.nodes@[t].lists@[ll]@[j]) as u64,
                forall|t: int, ll: int|
                    0 <= t < n && 0 <= ll < graph.nodes@[t].lists@.len() ==> rec_word(
                        words@,
                        rl,
                        t,
                        block_off(dim_expected, m, m0, ll),
                    ) == (#[trigger] graph.nodes@[t].lists@[ll])@.len() as u64,
                lvl == graph.nodes@[s as int].level,
                0 <= l <= lvl + 1,
                forall|ll: int, j: int|
                    0 <= ll < l && 0 <= j < graph.nodes@[s as int].lists@[ll]@.len() ==> (
                    graph.nodes@[#[trigger] graph.nodes@[s as int].lists@[ll]@[j] as int].level)
                        >= ll,
            decreases lvl + 1 - l,
        {
            proof {
                assert(pre_node_ok(graph.nodes@, s as int, n as nat, m as nat, m0 as nat));
            }
            let list = graph.list_at(s, l);
            let len = list.len();
            let mut j: usize = 0;
            while j < len
                invariant
                    total == words@.len(),
                    header_ctx(words@, dim_expected, m, m0, ef_construction, n),
                    rl == record_len(dim_expected as nat, m as nat, m0 as nat) as int,
                    graph.nodes@.len() == n,
                    s < n,
                    l <= graph.nodes@[s as int].level,
                    forall|t: int|
                        0 <= t < n ==> pre_node_ok(graph.nodes@, t, n as nat, m as nat, m0 as nat),
                    forall|t: int|
                        0 <= t < n ==> rec_word(words@, rl, t, 1) == (
                        #[trigger] graph.nodes@[t].level) as u64,
                    forall|t: int, ll: int, jj: int|
                        0 <= t < n && 0 <= ll < graph.nodes@[t].lists@.len() && 0 <= jj
                            < graph.nodes@[t].lists@[ll]@.len() ==> rec_word(
                            words@,
                            rl,
                            t,
                            block_off(dim_expected, m, m0, ll) + 1 + jj,
                        ) == (#[trigger] graph.nodes@[t].lists@[ll]@[jj]) as u64,
                    forall|t: int, ll: int|
                        0 <= t < n && 0 <= ll < graph.nodes@[t].lists@.len() ==> rec_word(
                            words@,
                            rl,
                            t,
                            block_off(dim_expected, m, m0, ll),
                        ) == (#[trigger] graph.nodes@[t].lists@[ll])@.len() as u64,
                    list@ == graph.nodes@[s as int].lists@[l as int]@,
                    len == list@.len(),
                    0 <= j <= len,
                    forall|t: int|
                        0 <= t < j ==> (graph.nodes@[#[trigger] list@[t] as int].level) >= l,
                decreases len - j,
            {
                let e2 = list[j];
                proof {
                    assert(pre_node_ok(graph.nodes@, s as int, n as nat, m as nat, m0 as nat));
                    assert(graph.nodes@[s as int].lists@[l as int]@[j as int] == e2);
                }
                if graph.level_of(e2) < l {
                    proof {
                        if encodes_index(words@, dim_expected) {
                            let w = lemma_canonical_match(
                                words@,
                                dim_expected,
                                m,
                                m0,
                                ef_construction,
                                n,
                            );
                            lemma_canonical_record(w, s as int);
                            assert(index_words(w)[9 + (s as int) * rl + 1]
                                == w.graph.nodes@[s as int].level as u64);
                            assert(rec_word(words@, rl, s as int, 1)
                                == graph.nodes@[s as int].level as u64);
                            assert(graph.nodes@[s as int].level == w.graph.nodes@[s as int].level);
                            lemma_canonical_block(w, s as int, l as int);
                            assert(index_words(w)[9 + (s as int) * rl + block_off(dim_expected, m, m0, l as int)]
                                == w.graph.nodes@[s as int].lists@[l as int]@.len() as u64);
                            assert(pre_node_ok(graph.nodes@, s as int, n as nat, m as nat, m0 as nat));
                            assert(rec_word(words@, rl, s as int, block_off(dim_expected, m, m0, l as int))
                                == graph.nodes@[s as int].lists@[l as int]@.len() as u64);
                            assert(w.graph.node_bounded(s as int, m as nat, m0 as nat));
                            assert(w.graph.nodes@[s as int].lists@[l as int]@.len() <= layer_bound(
                                l as int,
                                m as nat,
                                m0 as nat,
                            ));
                            assert(graph.nodes@[s as int].lists@[l as int]@.len() <= layer_bound(
                                l as int,
                                m as nat,
                                m0 as nat,
                            ));
                            assert(graph.nodes@[s as int].lists@[l as int]@.len()
                                == w.graph.nodes@[s as int].lists@[l as int]@.len());
                            assert(0 <= j < w.graph.nodes@[s as int].lists@[l as int]@.len());
                            let we2 = w.graph.nodes@[s as int].lists@[l as int]@[j as int];
                            assert(w.graph.node_valid(s as int));
                            assert(we2 < n && w.graph.nodes@[we2 as int].level >= l);
                            assert(index_words(w)[9 + (s as int) * rl + block_off(dim_expected, m, m0, l as int) + 1 + j]
                                == we2 as u64);
                            assert(rec_word(words@, rl, s as int, block_off(dim_expected, m, m0, l as int) + 1 + j)
                                == e2 as u64);
                            assert(e2 == we2);
                            lemma_canonical_record(w, we2 as int);
                            assert(index_words(w)[9 + (we2 as int) * rl + 1]
                                == w.graph.nodes@[we2 as int].level as u64);
                            assert(rec_word(words@, rl, e2 as int, 1)
                                == graph.nodes@[e2 as int].level as u64);
                            assert(graph.nodes@[e2 as int].level == w.graph.nodes@[we2 as int].level);
                            assert(false);
                        }
                    }
                    return Err(Error::CorruptFormat);
                }
                j = j + 1;
            }
            l = l + 1;
        }
        proof {
            assert(pre_node_ok(graph.nodes@, s as int, n as nat, m as nat, m0 as nat));
            assert(graph.node_valid(s as int));
        }
        s = s + 1;
    }
    let config = Config { dim, m, m0, ef_construction };
    let ix = Index { config, store, graph, rng: RNG_SEED };
    proof {
        assert(cfg_wf(ix.config));
        assert forall|t: int|
            0 <= t < n implies ix.graph.node_bounded(t, m as nat, m0 as nat) by {
            assert(pre_node_ok(ix.graph.nodes@, t, n as nat, m as nat, m0 as nat));
        }
        assert forall|t: int|
            0 <= t < ix.graph.nodes@.len() implies (#[trigger] ix.graph.nodes@[t].level)
            <= MAX_LEVEL by {
            assert(pre_node_ok(ix.graph.nodes@, t, n as nat, m as nat, m0 as nat));
        }
        assert(ix.graph.valid(n as nat));
        assert(ix.wf());
    }
    let reencoded = encode_words(&ix);
    if !words_eq(&reencoded, words) {
        proof {
            if encodes_index(words@, dim_expected) {
                let w = lemma_canonical_match(words@, dim_expected, m, m0, ef_construction, n);
                assert forall|t: int| 0 <= t < n implies ix.store.ids@[t] == w.store.ids@[t] by {
                    lemma_canonical_record(w, t);
                    assert(index_words(w)[9 + t * rl] == w.store.ids@[t] as u64);
                    assert(rec_word(words@, rl, t, 0) == ix.store.ids@[t] as u64);
                }
                assert forall|t: int| 0 <= t < n implies ix.store.vecs@[t]@ == w.store.vecs@[t]@ by {
                    lemma_canonical_record(w, t);
                    assert(ix.store.vecs@[t]@.len() == dim_expected);
                    assert(w.store.vecs@[t]@.len() == dim_expected);
                    assert forall|cc: int|
                        0 <= cc < dim_expected implies ix.store.vecs@[t]@[cc]
                        == w.store.vecs@[t]@[cc] by {
                        assert(index_words(w)[9 + t * rl + 2 + cc] == w.store.vecs@[t]@[cc] as u32
                            as u64);
                        assert(rec_word(words@, rl, t, 2 + cc) == ix.store.vecs@[t]@[cc] as u32
                            as u64);
                        assert(rec_word(words@, rl, t, 2 + cc) == w.store.vecs@[t]@[cc] as u32
                            as u64);
                        let c1 = ix.store.vecs@[t]@[cc];
                        let c2 = w.store.vecs@[t]@[cc];
                        assert(c1 as u32 == c2 as u32 ==> c1 == c2) by (bit_vector);
                    }
                    assert(ix.store.vecs@[t]@ =~= w.store.vecs@[t]@);
                }
                assert forall|t: int|
                    0 <= t < n implies (#[trigger] ix.graph.nodes@[t].level)
                    == w.graph.nodes@[t].level by {
                    lemma_canonical_record(w, t);
                    assert(index_words(w)[9 + t * rl + 1] == w.graph.nodes@[t].level as u64);
                    assert(rec_word(words@, rl, t, 1) == ix.graph.nodes@[t].level as u64);
                }
                assert forall|t: int|
                    0 <= t < n implies (#[trigger] ix.graph.nodes@[t].lists@.len())
                    == w.graph.nodes@[t].lists@.len() by {
                    assert(pre_node_ok(ix.graph.nodes@, t, n as nat, m as nat, m0 as nat));
                    assert(w.graph.node_valid(t));
                    lemma_canonical_record(w, t);
                    assert(index_words(w)[9 + t * rl + 1] == w.graph.nodes@[t].level as u64);
                    assert(rec_word(words@, rl, t, 1) == ix.graph.nodes@[t].level as u64);
                    assert(ix.graph.nodes@[t].level == w.graph.nodes@[t].level);
                }
                assert forall|t: int, l: int|
                    0 <= t < n && 0 <= l < ix.graph.nodes@[t].lists@.len() implies (
                #[trigger] ix.graph.nodes@[t].lists@[l])@ == w.graph.nodes@[t].lists@[l]@ by {
                    lemma_canonical_record(w, t);
                    assert(index_words(w)[9 + t * rl + 1] == w.graph.nodes@[t].level as u64);
                    assert(pre_node_ok(ix.graph.nodes@, t, n as nat, m as nat, m0 as nat));
                    assert(rec_word(words@, rl, t, 1) == ix.graph.nodes@[t].level as u64);
                    assert(ix.graph.nodes@[t].level == w.graph.nodes@[t].level);
                    assert(0 <= l <= MAX_LEVEL);
                    lemma_canonical_block(w, t, l);
                    assert(index_words(w)[9 + t * rl + block_off(dim_expected, m, m0, l)]
                        == w.graph.nodes@[t].lists@[l]@.len() as u64);
                    assert(rec_word(words@, rl, t, block_off(dim_expected, m, m0, l)) == (
                    ix.graph.nodes@[t].lists@[l])@.len() as u64);
                    assert(w.graph.node_bounded(t, m as nat, m0 as nat));
                    assert(w.graph.nodes@[t].lists@[l]@.len() <= layer_bound(
                        l,
                        m as nat,
                        m0 as nat,
                    ));
                    assert(ix.graph.nodes@[t].lists@[l]@.len() <= layer_bound(
                        l,
                        m as nat,
                        m0 as nat,
                    ));
                    assert(ix.graph.nodes@[t].lists@[l]@.len()
                        == w.graph.nodes@[t].lists@[l]@.len());
                    assert forall|j: int|
                        0 <= j < ix.graph.nodes@[t].lists@[l]@.len() implies ix.graph.nodes@[t].lists@[l]@[j]
                        == w.graph.nodes@[t].lists@[l]@[j] by {
                        assert(index_words(w)[9 + t * rl + block_off(dim_expected, m, m0, l) + 1
                            + j] == w.graph.nodes@[t].lists@[l]@[j] as u64);
                        assert(rec_word(words@, rl, t, block_off(dim_expected, m, m0, l) + 1 + j)
                            == ix.graph.nodes@[t].lists@[l]@[j] as u64);
                        assert(rec_word(words@, rl, t, block_off(dim_expected, m, m0, l) + 1 + j)
                            == w.graph.nodes@[t].lists@[l]@[j] as u64);
                    }
                    assert(ix.graph.nodes@[t].lists@[l]@ =~= w.graph.nodes@[t].lists@[l]@);
                }
                assert(ix.graph.entry == w.graph.entry) by {
                    match w.graph.entry {
                        Some(we) => {
                            assert(n > 0);
                            assert(entry_slot64 == we as u64);
                            assert(ix.graph.entry == Some(entry_slot64 as usize));
                        },
                        None => {
                            assert(n == 0);
                        },
                    }
                }
                lemma_slots_congruence(ix, w, n as int);
                assert(header_words(ix) =~= header_words(w));
                assert(index_words(ix) == index_words(w));
                assert(reencoded@ == words@);
                assert(false);
            }
        }
        return Err(Error::CorruptFormat);
    }
    proof {
        assert(index_words(ix) =~= words@);
    }
    Ok(ix)
}


/// Serializes an index to its word stream.
pub(crate) fn encode_words(ix: &Index) -> (out: Vec<u64>)
    requires
        ix.wf(),
    ensures
        out@ == index_words(*ix),
{
    let n = ix.store.len();
    let mut out: Vec<u64> = Vec::new();
    out.push(FORMAT_VERSION);
    out.push(ix.config.dim as u64);
    out.push(METRIC_SQUARED_EUCLIDEAN);
    out.push(ix.config.m as u64);
    out.push(ix.config.m0 as u64);
    out.push(ix.config.ef_construction as u64);
    out.push(n as u64);
    match ix.graph.entry {
        Some(e) => {
            out.push(e as u64);
            out.push(ix.graph.level_of(e) as u64);
        },
        None => {
            out.push(0);
            out.push(0);
        },
    }
    proof {
        assert(out@ =~= header_words(*ix));
    }
    let mut i: usize = 0;
    while i < n
        invariant
            ix.wf(),
            n == ix.store.ids@.len(),
            0 <= i <= n,
            out@ == header_words(*ix) + slots_words(*ix, i as int),
        decreases n - i,
    {
        let ghost base_slot = out@;
        out.push(ix.store.id_at(i) as u64);
        out.push(ix.graph.level_of(i) as u64);
        let v = ix.store.vec_at(i);
        let dim = v.len();
        let mut c: usize = 0;
        while c < dim
            invariant
                ix.wf(),
                i < ix.store.ids@.len(),
                v@ == ix.store.vecs@[i as int]@,
                dim == v@.len(),
                0 <= c <= dim,
                out@ == base_slot + seq![
                    ix.store.ids@[i as int] as u64,
                    ix.graph.nodes@[i as int].level as u64,
                ] + vec_words(v@).take(c as int),
            decreases dim - c,
        {
            out.push(v[c] as u32 as u64);
            proof {
                assert(vec_words(v@).take(c + 1) =~= vec_words(v@).take(c as int).push(
                    v@[c as int] as u32 as u64,
                ));
            }
            c = c + 1;
        }
        let ghost ls = Seq::new(
            ix.graph.nodes@[i as int].lists@.len(),
            |l: int| ix.graph.nodes@[i as int].lists@[l]@,
        );
        let ghost level = ix.graph.nodes@[i as int].level as nat;
        let ghost m = ix.config.m as nat;
        let ghost m0 = ix.config.m0 as nat;
        let ghost base_layers = out@;
        proof {
            assert(vec_words(v@).take(dim as int) =~= vec_words(v@));
        }
        let node_level = ix.graph.level_of(i);
        let mut l: usize = 0;
        while l < MAX_LEVEL + 1
            invariant
                ix.wf(),
                i < ix.store.ids@.len(),
                node_level == ix.graph.nodes@[i as int].level,
                ls == Seq::new(
                    ix.graph.nodes@[i as int].lists@.len(),
                    |t: int| ix.graph.nodes@[i as int].lists@[t]@,
                ),
                level == ix.graph.nodes@[i as int].level as nat,
                m == ix.config.m as nat,
                m0 == ix.config.m0 as nat,
                0 <= l <= MAX_LEVEL + 1,
                out@ == base_layers + layer_blocks(ls, level, l as nat, m, m0),
            decreases MAX_LEVEL + 1 - l,
        {
            let ghost base_block = out@;
            let bound = if l == 0 {
                ix.config.m0
            } else {
                ix.config.m
            };
            proof {
                assert(layer_bound(l as int, m, m0) == bound);
                assert(ix.graph.node_valid(i as int));
                assert(ix.graph.node_bounded(i as int, m, m0));
            }
            if l <= node_level {
                let list = ix.graph.list_at(i, l);
                let len = list.len();
                out.push(len as u64);
                let mut j: usize = 0;
                while j < bound
                    invariant
                        list@ == ls[l as int],
                        len == list@.len(),
                        len <= bound,
                        0 <= j <= bound,
                        0 <= l as int <= level,
                        bound == layer_bound(l as int, m, m0),
                        out@ == base_block + seq![len as u64] + Seq::new(
                            bound as nat,
                            |t: int|
                                if t < ls[l as int].len() {
                                    ls[l as int][t] as u64
                                } else {
                                    0
                                },
                        ).take(j as int),
                    decreases bound - j,
                {
                    if j < len {
                        out.push(list[j] as u64);
                    } else {
                        out.push(0);
                    }
                    proof {
                        let f = Seq::new(
                            bound as nat,
                            |t: int|
                                if t < ls[l as int].len() {
                                    ls[l as int][t] as u64
                                } else {
                                    0
                                },
                        );
                        assert(f.take(j + 1) =~= f.take(j as int).push(f[j as int]));
                    }
                    j = j + 1;
                }
                proof {
                    let f = Seq::new(
                        bound as nat,
                        |t: int|
                            if t < ls[l as int].len() {
                                ls[l as int][t] as u64
                            } else {
                                0
                            },
                    );
                    assert(f.take(bound as int) =~= f);
                    assert(out@ =~= base_block + layer_block(ls, level, l as int, m, m0));
                }
            } else {
                let mut j: usize = 0;
                while j < bound + 1
                    invariant
                        0 <= j <= bound + 1,
                        bound <= 0xFFFF,
                        out@ == base_block + Seq::new(j as nat, |t: int| 0u64),
                    decreases bound + 1 - j,
                {
                    out.push(0);
                    proof {
                        assert(Seq::new((j + 1) as nat, |t: int| 0u64) =~= Seq::new(
                            j as nat,
                            |t: int| 0u64,
                        ).push(0));
                    }
                    j = j + 1;
                }
                proof {
                    assert(out@ =~= base_block + layer_block(ls, level, l as int, m, m0));
                }
            }
            proof {
                assert(layer_blocks(ls, level, (l + 1) as nat, m, m0) =~= layer_blocks(
                    ls,
                    level,
                    l as nat,
                    m,
                    m0,
                ) + layer_block(ls, level, l as int, m, m0));
            }
            l = l + 1;
        }
        proof {
            assert(out@ =~= base_slot + slot_words(*ix, i as int));
            assert(slots_words(*ix, i + 1) =~= slots_words(*ix, i as int) + slot_words(
                *ix,
                i as int,
            ));
            assert(out@ =~= header_words(*ix) + slots_words(*ix, i + 1));
        }
        i = i + 1;
    }
    out
}

} // verus!
