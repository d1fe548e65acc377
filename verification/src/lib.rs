//! An approximate nearest-neighbor index over fixed-dimensional integer
//! vectors: a multi-layer proximity graph is built as vectors are inserted,
//! queries walk the graph from a sparse top layer down to a dense bottom
//! layer, and the whole index can be serialized to and restored from a byte
//! stream.

use vstd::prelude::*;

mod codec;
mod distance;
mod errors;
mod graph;
mod index;
mod level;
mod order;
mod search;
mod store;

pub use codec::bytes_words;
pub use codec::dimension_rejected;
pub use codec::encodes_index;
pub use codec::index_words;
pub use codec::version_rejected;
pub use codec::lemma_bytes_words_round_trip;
pub use codec::lemma_persisted_bytes_determine_index;
pub use codec::words_bytes;
pub use distance::lemma_distance_nonneg;
pub use distance::lemma_distance_self_zero;
pub use distance::lemma_distance_symmetric;
pub use distance::lemma_distance_zero_only_on_equal;
pub use distance::sq_dist;
pub use distance::squared_euclidean;
pub use errors::Error;
pub use graph::NavigableGraph;
pub use graph::Node;
pub use index::effective_ef;
pub use index::result_size;
pub use index::Config;
pub use index::Index;
pub use index::EF_SEARCH_DEFAULT;
pub use index::RNG_SEED;
pub use store::lemma_sequential_ids;
pub use store::VectorStore;

use vstd::prelude::*;

verus! {

/// The public handle of the library: it owns one index and exposes the
/// operations of the engine — creation, insertion, query, direct distance,
/// and persistence to and from a byte stream.
pub struct Voyager {
    /// The owned index.
    pub ix: Index,
}

impl Voyager {
    /// The handle is as sound as the index it owns.
    pub open spec fn wf(self) -> bool {
        self.ix.wf()
    }

    /// A fresh, empty index over vectors of `dim` components.
    pub fn new(dim: usize) -> (v: Voyager)
        ensures
            v.wf(),
            v.ix.config.dim == dim,
            v.ix.store.ids@.len() == 0,
    {
        Voyager { ix: Index::new(dim) }
    }

    /// The configured vector dimension.
    pub fn dimension(&self) -> (d: usize)
        ensures
            d == self.ix.config.dim,
    {
        self.ix.dimension()
    }

    /// How many vectors the index holds.
    pub fn len(&self) -> (n: usize)
        ensures
            n == self.ix.store.ids@.len(),
    {
        self.ix.len()
    }

    /// Inserts a vector under the given id, or under the smallest unused id
    /// when none is given; see [`Index::add_item`].
    pub fn add_item(&mut self, w: &Vec<i32>, id: Option<u32>) -> (r: Result<u32, Error>)
        requires
            old(self).wf(),
            id is None ==> old(self).ix.store.ids@.len() < 0xFFFF_FFFF,
        ensures
            final (self).wf(),
            final (self).ix.config == old(self).ix.config,
            match r {
                Ok(aid) => {
                    &&& w@.len() == old(self).ix.config.dim
                    &&& match id {
                        Some(i) => aid == i && !old(self).ix.store.spec_contains(i),
                        None => !old(self).ix.store.spec_contains(aid) && forall|j: nat|
                            j < aid ==> old(self).ix.store.spec_contains(#[trigger] (j as u32)),
                    }
                    &&& final (self).ix.store.ids@ == old(self).ix.store.ids@.push(aid)
                    &&& final (self).ix.store.vecs@.len() == old(self).ix.store.vecs@.len() + 1
                    &&& forall|t: int|
                        0 <= t < old(self).ix.store.vecs@.len() ==> #[trigger] final (
                        self).ix.store.vecs@[t] == old(self).ix.store.vecs@[t]
                    &&& final (self).ix.store.vecs@.last()@ == w@
                    &&& final (self).ix.graph.nodes@.len() == old(self).ix.graph.nodes@.len() + 1
                },
                Err(Error::DimensionMismatch) => w@.len() != old(self).ix.config.dim && *final (
                self) == *old(self),
                Err(Error::IdCollision) => w@.len() == old(self).ix.config.dim && (id matches Some(
                    i,
                ) && old(self).ix.store.spec_contains(i)) && *final (self) == *old(self),
                Err(_) => false,
            },
    {
        self.ix.add_item(w, id)
    }

    /// The approximate `k` nearest neighbors of `w`; see [`Index::query`].
    pub fn query(&self, w: &Vec<i32>, k: i32, ef: Option<i32>) -> (r: Result<
        (Vec<u32>, Vec<u128>),
        Error,
    >)
        requires
            self.wf(),
        ensures
            match r {
                Ok(out) => {
                    &&& k >= 1
                    &&& (ef matches Some(v) ==> v >= k)
                    &&& w@.len() == self.ix.config.dim
                    &&& out.0@.len() == out.1@.len()
                    &&& out.0@.len() == result_size(k, self.ix.store.ids@.len() as nat)
                    &&& out.0@.no_duplicates()
                    &&& forall|i: int|
                        0 <= i < out.0@.len() ==> self.ix.store.spec_contains(#[trigger] out.0@[i])
                            && out.1@[i] == sq_dist(w@, self.ix.store.vec_of(out.0@[i]))
                    &&& forall|i: int, j: int|
                        0 <= i < j < out.1@.len() ==> out.1@[i] < out.1@[j] || (#[trigger] out.1@[i]
                            == #[trigger] out.1@[j] && out.0@[i] < out.0@[j])
                },
                Err(e) => match ef {
                    Some(v) => (e == Error::InvalidK && k <= 0) || (e == Error::InvalidEf && k >= 1
                        && v < k) || (e == Error::DimensionMismatch && k >= 1 && v >= k && w@.len()
                        != self.ix.config.dim),
                    None => (e == Error::InvalidK && k <= 0) || (e == Error::DimensionMismatch && k
                        >= 1 && w@.len() != self.ix.config.dim),
                },
            },
    {
        self.ix.query(w, k, ef)
    }

    /// The squared Euclidean distance between two equal-length vectors,
    /// computed directly, without touching the index.
    pub fn get_distance(&self, a: &Vec<i32>, b: &Vec<i32>) -> (d: u128)
        requires
            a@.len() == b@.len(),
        ensures
            d == sq_dist(a@, b@),
    {
        self.ix.get_distance(a, b)
    }

    /// Serializes the index to a byte stream; see [`Index::save`].
    pub fn save(&self) -> (out: Vec<u8>)
        requires
            self.wf(),
        ensures
            out@ == words_bytes(index_words(self.ix)),
    {
        self.ix.save()
    }

    /// Restores the index from a byte stream, atomically; success is owed on
    /// every stream `save` can produce for this dimension, and each error
    /// kind comes exactly on its own cause; see [`Index::load`].
    pub fn load(&mut self, bytes: &Vec<u8>) -> (r: Result<(), Error>)
        requires
            old(self).wf(),
        ensures
            final (self).wf(),
            final (self).ix.config.dim == old(self).ix.config.dim,
            forall|ix2: Index|
                ix2.wf() && ix2.config.dim == old(self).ix.config.dim && ix2.config.dim
                    <= 0xFFFF_FFFF && ix2.store.ids@.len() <= 0xFFFF_FFFF && bytes@ == words_bytes(
                    #[trigger] index_words(ix2),
                ) ==> r is Ok,
            match r {
                Ok(()) => bytes@.len() % 8 == 0 && index_words(final (self).ix) == bytes_words(
                    bytes@,
                ) && final (self).ix.rng == RNG_SEED,
                Err(e) => {
                    &&& *final (self) == *old(self)
                    &&& (e == Error::UnsupportedVersion <==> bytes@.len() % 8 == 0
                        && version_rejected(bytes_words(bytes@)))
                    &&& (e == Error::DimensionMismatch <==> bytes@.len() % 8 == 0
                        && dimension_rejected(bytes_words(bytes@), old(self).ix.config.dim))
                    &&& (e == Error::CorruptFormat || e == Error::UnsupportedVersion || e
                        == Error::DimensionMismatch)
                },
            },
    {
        self.ix.load(bytes)
    }
}

} // verus!
