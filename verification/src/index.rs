//! The index itself: configuration, vector store, navigable graph and the
//! insertion and query engines over them. Insertion draws a layer for the new
//! node, walks greedily down from the entry point, and wires the node into
//! every layer it joins using a diversity heuristic; queries walk down to
//! layer 0, run a beam search there, and return the `k` nearest retained
//! candidates in ascending-distance order.

use crate::distance::sq_dist;
use crate::distance::squared_euclidean;
use crate::errors::Error;
use crate::graph::layer_bound;
use crate::graph::NavigableGraph;
use crate::level::draw_level;
use crate::level::MAX_LEVEL;
use crate::order::le_pair;
use crate::order::lemma_distinct_ids_transfer;
use crate::order::lemma_multiset_contains_transfer;
use crate::order::sort_pairs;
use crate::order::sorted_pairs;
use crate::search::argmin;
use crate::search::at_layer;
use crate::search::dist_slot;
use crate::search::greedy_descend;
use crate::search::search_layer;
use crate::store::copy_vec;
use crate::store::VectorStore;
use vstd::prelude::*;

verus! {

/// Default max neighbors per node on layers above 0.
pub const DEFAULT_M: usize = 16;

/// Default max neighbors per node on layer 0 (twice `DEFAULT_M`).
pub const DEFAULT_M0: usize = 32;

/// Default beam width while wiring a new node in.
pub const DEFAULT_EF_CONSTRUCTION: usize = 200;

/// Default beam width of a query that supplies none.
pub const EF_SEARCH_DEFAULT: usize = 10;

/// The seed every fresh (or freshly loaded) index starts its layer-draw
/// generator from; construction is therefore reproducible.
pub const RNG_SEED: u64 = 0x853C_49E6_748F_EA9B;

/// The immutable configuration of an index.
pub struct Config {
    /// Vector dimension: every stored or queried vector has this many
    /// components.
    pub dim: usize,
    /// Max neighbors per node on layers above 0.
    pub m: usize,
    /// Max neighbors per node on layer 0.
    pub m0: usize,
    /// Beam width used while inserting.
    pub ef_construction: usize,
}

/// Sane configuration: at least two neighbors per layer (the layer draw
/// climbs with probability `1/m`), layer 0 at least as wide as the layers
/// above, bounds small enough that a list never outgrows `usize`, and a
/// positive construction beam.
pub open spec fn cfg_wf(c: Config) -> bool {
    &&& 2 <= c.m
    &&& c.m <= c.m0
    &&& c.m0 <= 0xFFFF
    &&& 1 <= c.ef_construction <= 0xFFFF
}

/// The beam width a query actually runs with: the supplied `ef` where one is
/// given, otherwise `max(EF_SEARCH_DEFAULT, k)`. This is the whole meaning
/// of an omitted `ef`: a query that omits it runs exactly the code path of a
/// query given this width.
pub fn effective_ef(k: i32, ef: Option<i32>) -> (r: usize)
    requires
        k >= 1,
        ef matches Some(v) ==> v >= k,
    ensures
        r == (match ef {
            Some(v) => v as usize,
            None => if k as usize > EF_SEARCH_DEFAULT {
                k as usize
            } else {
                EF_SEARCH_DEFAULT
            },
        }),
{
    match ef {
        Some(v) => v as usize,
        None => {
            if (k as usize) > EF_SEARCH_DEFAULT {
                k as usize
            } else {
                EF_SEARCH_DEFAULT
            }
        },
    }
}

/// How many results a query for `k` items on an index of `n` items returns:
/// `k`, or all `n` when fewer exist.
pub open spec fn result_size(k: i32, n: nat) -> int {
    if k as int <= n {
        k as int
    } else {
        n as int
    }
}

/// An approximate nearest-neighbor index: configuration, vector store,
/// navigable graph, and the generator state feeding layer draws.
pub struct Index {
    /// The immutable configuration.
    pub config: Config,
    /// The stored vectors.
    pub store: VectorStore,
    /// The proximity graph over the stored slots.
    pub graph: NavigableGraph,
    /// State of the deterministic generator behind layer draws.
    pub rng: u64,
}

impl Index {
    /// The index invariant: configuration sane, store well-formed at the
    /// configured dimension, graph well-formed over exactly the stored slots
    /// within the configured bounds, and every node layer within the cap.
    ///
    /// Layer-0 connectivity is deliberately not part of the invariant:
    /// pruning a full neighbor list can in principle remove the last edge
    /// into a node, so reachability from the entry point is not an invariant
    /// the insertion algorithm maintains. What the library guarantees
    /// instead is stated on `query`: a search asked for at least as many
    /// results as the index holds returns every stored id.
    pub open spec fn wf(self) -> bool {
        &&& cfg_wf(self.config)
        &&& self.store.wf()
        &&& self.store.dim == self.config.dim
        &&& self.graph.wf(
            self.store.vecs@.len() as nat,
            self.config.m as nat,
            self.config.m0 as nat,
        )
        &&& forall|s: int|
            0 <= s < self.graph.nodes@.len() ==> (#[trigger] self.graph.nodes@[s].level)
                <= MAX_LEVEL
    }

    /// A fresh, empty index for vectors of `dim` components, with the
    /// default construction parameters.
    pub fn new(dim: usize) -> (ix: Index)
        ensures
            ix.wf(),
            ix.config.dim == dim,
            ix.store.ids@.len() == 0,
    {
        Index {
            config: Config {
                dim,
                m: DEFAULT_M,
                m0: DEFAULT_M0,
                ef_construction: DEFAULT_EF_CONSTRUCTION,
            },
            store: VectorStore::new(dim),
            graph: NavigableGraph::new(),
            rng: RNG_SEED,
        }
    }

    /// How many vectors the index holds.
    pub fn len(&self) -> (n: usize)
        ensures
            n == self.store.ids@.len(),
    {
        self.store.len()
    }

    /// The configured dimension.
    pub fn dimension(&self) -> (d: usize)
        ensures
            d == self.config.dim,
    {
        self.config.dim
    }

    /// The distance between two equal-length vectors under the index's
    /// metric (squared Euclidean distance), computed directly, without
    /// touching the graph.
    pub fn get_distance(&self, a: &Vec<i32>, b: &Vec<i32>) -> (d: u128)
        requires
            a@.len() == b@.len(),
        ensures
            d == sq_dist(a@, b@),
    {
        squared_euclidean(a, b)
    }
}

impl Index {
    /// Inserts a vector. A caller-supplied id is used as given and collides
    /// with an equal id already present; an omitted id auto-assigns the
    /// smallest unused id, so omitted ids come out as `0, 1, 2, ...` in call
    /// order. On success the pair joins the store after all earlier entries
    /// and the graph gains exactly one node; on failure nothing changes.
    pub fn add_item(&mut self, w: &Vec<i32>, id: Option<u32>) -> (r: Result<u32, Error>)
        requires
            old(self).wf(),
            id is None ==> old(self).store.ids@.len() < 0xFFFF_FFFF,
        ensures
            final (self).wf(),
            final (self).config == old(self).config,
            match r {
                Ok(aid) => {
                    &&& w@.len() == old(self).config.dim
                    &&& match id {
                        Some(i) => aid == i && !old(self).store.spec_contains(i),
                        None => !old(self).store.spec_contains(aid) && forall|j: nat|
                            j < aid ==> old(self).store.spec_contains(#[trigger] (j as u32)),
                    }
                    &&& final (self).store.ids@ == old(self).store.ids@.push(aid)
                    &&& final (self).store.vecs@.len() == old(self).store.vecs@.len() + 1
                    &&& forall|t: int|
                        0 <= t < old(self).store.vecs@.len() ==> #[trigger] final (
                        self).store.vecs@[t] == old(self).store.vecs@[t]
                    &&& final (self).store.vecs@.last()@ == w@
                    &&& final (self).graph.nodes@.len() == old(self).graph.nodes@.len() + 1
                },
                Err(Error::DimensionMismatch) => w@.len() != old(self).config.dim && *final (self)
                    == *old(self),
                Err(Error::IdCollision) => w@.len() == old(self).config.dim && (id matches Some(i)
                    && old(self).store.spec_contains(i)) && *final (self) == *old(self),
                Err(_) => false,
            },
    {
        if w.len() != self.config.dim {
            return Err(Error::DimensionMismatch);
        }
        let aid: u32 = match id {
            Some(i) => {
                if self.store.contains(i) {
                    return Err(Error::IdCollision);
                }
                i
            },
            None => self.store.first_free_id(),
        };
        let n = self.store.len();
        let v = copy_vec(w);
        match self.store.put(aid, v) {
            Ok(()) => {},
            Err(e) => {
                return Err(e);
            },
        }
        let ns = n;
        let drawn = draw_level(self.rng, self.config.m);
        let lvl = drawn.0;
        self.rng = drawn.1;
        let prev_entry = self.graph.entry;
        let ghost graph_before = self.graph;
        self.graph.attach_node(lvl, Ghost(n as nat));
        proof {
            assert forall|s: int|
                0 <= s < n + 1 implies self.graph.node_bounded(
                s,
                self.config.m as nat,
                self.config.m0 as nat,
            ) by {
                if s < n {
                    assert(graph_before.node_bounded(
                        s,
                        self.config.m as nat,
                        self.config.m0 as nat,
                    ));
                    assert(self.graph.nodes@[s] == graph_before.nodes@[s]);
                }
            }
        }
        if n == 0 {
            return Ok(aid);
        }
        let e = match prev_entry {
            Some(e) => e,
            None => {
                proof {
                    assert(false);
                }
                0
            },
        };
        let etop = self.graph.level_of(e);
        proof {
            assert(self.graph.nodes@[e as int] == graph_before.nodes@[e as int]);
        }
        let mut cur = e;
        if etop > lvl {
            cur = greedy_descend(&self.store, &self.graph, self.store.vec_at(ns), e, etop, lvl);
        }
        let lc = if lvl < etop {
            lvl
        } else {
            etop
        };
        let ghost st_frozen = self.store;
        let ghost cfg_frozen = self.config;
        let ghost entry_frozen = self.graph.entry;
        let mut lay = lc + 1;
        while lay > 0
            invariant
                self.store == st_frozen,
                self.config == cfg_frozen,
                self.graph.entry == entry_frozen,
                self.store.wf(),
                cfg_wf(self.config),
                self.store.dim == self.config.dim,
                n + 1 == self.store.vecs@.len(),
                ns == n,
                ns < self.store.vecs@.len(),
                lvl <= MAX_LEVEL,
                self.graph.valid((n + 1) as nat),
                forall|s: int|
                    0 <= s < n + 1 ==> self.graph.node_bounded(
                        s,
                        self.config.m as nat,
                        self.config.m0 as nat,
                    ),
                forall|s: int|
                    0 <= s < self.graph.nodes@.len() ==> (#[trigger] self.graph.nodes@[s].level)
                        <= MAX_LEVEL,
                self.graph.nodes@[ns as int].level == lvl,
                0 <= lay <= lc + 1,
                lc <= lvl,
                cur < n + 1,
                self.graph.nodes@[cur as int].level + 1 >= lay,
            decreases lay,
        {
            lay = lay - 1;
            proof {
                assert(at_layer(self.graph, cur, lay));
            }
            let found = search_layer(
                &self.store,
                &self.graph,
                self.store.vec_at(ns),
                cur,
                lay,
                self.config.ef_construction,
            );
            let bound = if lay == 0 {
                self.config.m0
            } else {
                self.config.m
            };
            let sel = select_neighbors(&self.store, self.store.vec_at(ns), &found, bound);
            proof {
                assert forall|t: int| 0 <= t < sel@.len() implies at_layer(
                    self.graph,
                    #[trigger] sel@[t],
                    lay,
                ) by {
                    assert(sel@.contains(sel@[t]));
                    assert(found@.contains(sel@[t]));
                }
                assert(layer_bound(lay as int, self.config.m as nat, self.config.m0 as nat)
                    == bound);
            }
            let n_sel = sel.len();
            let mut t: usize = 0;
            while t < n_sel
                invariant
                    self.store == st_frozen,
                    self.config == cfg_frozen,
                    self.graph.entry == entry_frozen,
                    self.store.wf(),
                    cfg_wf(self.config),
                    self.store.dim == self.config.dim,
                    n + 1 == self.store.vecs@.len(),
                    ns == n,
                    lvl <= MAX_LEVEL,
                    self.graph.valid((n + 1) as nat),
                    forall|s: int|
                        0 <= s < n + 1 ==> self.graph.node_bounded(
                            s,
                            self.config.m as nat,
                            self.config.m0 as nat,
                        ),
                    forall|s: int|
                        0 <= s < self.graph.nodes@.len() ==> (#[trigger] self.graph.nodes@[s].level)
                            <= MAX_LEVEL,
                    self.graph.nodes@[ns as int].level == lvl,
                    lay <= lc <= lvl,
                    bound == layer_bound(lay as int, self.config.m as nat, self.config.m0 as nat),
                    n_sel == sel@.len(),
                    0 <= t <= n_sel,
                    forall|z: int| 0 <= z < sel@.len() ==> at_layer(self.graph, #[trigger] sel@[z], lay),
                    forall|z: int|
                        0 <= z < found@.len() ==> at_layer(self.graph, #[trigger] found@[z], lay),
                decreases n_sel - t,
            {
                let x = sel[t];
                proof {
                    assert(at_layer(self.graph, x, lay));
                    assert(self.graph.node_valid(x as int));
                    assert(self.graph.node_bounded(
                        x as int,
                        self.config.m as nat,
                        self.config.m0 as nat,
                    ));
                }
                let ghost g_a = self.graph;
                self.graph.push_link(x, lay, ns, Ghost((n + 1) as nat));
                let ghost g_b = self.graph;
                let cur_len = self.graph.list_at(x, lay).len();
                if cur_len > bound {
                    let lst = copy_vec_usize(self.graph.list_at(x, lay));
                    let sel2 = select_neighbors(&self.store, self.store.vec_at(x), &lst, bound);
                    proof {
                        assert forall|z: int| 0 <= z < sel2@.len() implies (#[trigger] sel2@[z])
                            < n + 1 && self.graph.nodes@[sel2@[z] as int].level >= lay by {
                            assert(sel2@.contains(sel2@[z]));
                            assert(lst@.contains(sel2@[z]));
                            let zz = choose|zz: int| 0 <= zz < lst@.len() && lst@[zz] == sel2@[z];
                            assert(self.graph.node_valid(x as int));
                            assert(self.graph.nodes@[x as int].lists@[lay as int]@[zz]
                                == sel2@[z]);
                        }
                    }
                    self.graph.set_list(x, lay, sel2, Ghost((n + 1) as nat));
                }
                proof {
                    assert forall|s: int|
                        0 <= s < n + 1 implies self.graph.node_bounded(
                        s,
                        self.config.m as nat,
                        self.config.m0 as nat,
                    ) by {
                        assert(g_a.node_bounded(s, self.config.m as nat, self.config.m0 as nat));
                        if s != x {
                            assert(self.graph.nodes@[s] == g_a.nodes@[s]);
                        } else {
                            assert forall|ll: int|
                                0 <= ll <= self.graph.nodes@[s].level implies (
                            #[trigger] self.graph.nodes@[s].lists@[ll])@.len() <= layer_bound(
                                ll,
                                self.config.m as nat,
                                self.config.m0 as nat,
                            ) by {
                                if ll != lay {
                                    assert(self.graph.nodes@[s].lists@[ll]
                                        == g_a.nodes@[s].lists@[ll]);
                                }
                            }
                        }
                    }
                }
                t = t + 1;
            }
            let ghost g_c = self.graph;
            self.graph.set_list(ns, lay, sel, Ghost((n + 1) as nat));
            proof {
                assert forall|s: int|
                    0 <= s < n + 1 implies self.graph.node_bounded(
                    s,
                    self.config.m as nat,
                    self.config.m0 as nat,
                ) by {
                    assert(g_c.node_bounded(s, self.config.m as nat, self.config.m0 as nat));
                    if s != ns {
                        assert(self.graph.nodes@[s] == g_c.nodes@[s]);
                    } else {
                        assert(g_c.node_valid(s));
                        assert forall|ll: int|
                            0 <= ll <= self.graph.nodes@[s].level implies (
                        #[trigger] self.graph.nodes@[s].lists@[ll])@.len() <= layer_bound(
                            ll,
                            self.config.m as nat,
                            self.config.m0 as nat,
                        ) by {
                            if ll != lay {
                                assert(self.graph.nodes@[s].lists@[ll] == g_c.nodes@[s].lists@[ll]);
                            }
                        }
                    }
                }
                assert forall|z: int| 0 <= z < found@.len() implies at_layer(
                    self.graph,
                    #[trigger] found@[z],
                    lay,
                ) by {
                    assert(at_layer(g_c, found@[z], lay));
                    if found@[z] != ns {
                        assert(self.graph.nodes@[found@[z] as int] == g_c.nodes@[found@[z] as int]);
                    }
                }
            }
            if found.len() > 0 {
                let bi = argmin(&self.store, self.store.vec_at(ns), &found);
                cur = found[bi];
            }
        }
        Ok(aid)
    }
}

impl Index {
    /// Resolves a query: the `k` nearest retained candidates, as parallel
    /// id and distance vectors in ascending-distance order, ties broken by
    /// ascending id. `ef` falls back to `max(EF_SEARCH_DEFAULT, k)` when
    /// omitted. Fails with `InvalidK` when `k <= 0`, `InvalidEf` when a
    /// supplied `ef` is below `k`, and `DimensionMismatch` when the vector
    /// has the wrong number of components; when fewer than `k` vectors are
    /// stored, all of them are returned rather than an error.
    pub fn query(&self, w: &Vec<i32>, k: i32, ef: Option<i32>) -> (r: Result<
        (Vec<u32>, Vec<u128>),
        Error,
    >)
        requires
            self.wf(),
        ensures
            match r {
                Ok(out) => {
                    &&& k >= 1
                    &&& (ef matches Some(v) ==> v >= k)
                    &&& w@.len() == self.config.dim
                    &&& out.0@.len() == out.1@.len()
                    &&& out.0@.len() == result_size(k, self.store.ids@.len() as nat)
                    &&& out.0@.no_duplicates()
                    &&& forall|i: int|
                        0 <= i < out.0@.len() ==> self.store.spec_contains(#[trigger] out.0@[i])
                            && out.1@[i] == sq_dist(w@, self.store.vec_of(out.0@[i]))
                    &&& forall|i: int, j: int|
                        0 <= i < j < out.1@.len() ==> out.1@[i] < out.1@[j] || (
                        #[trigger] out.1@[i] == #[trigger] out.1@[j] && out.0@[i] < out.0@[j])
                },
                Err(e) => match ef {
                    Some(v) => (e == Error::InvalidK && k <= 0) || (e == Error::InvalidEf && k >= 1
                        && v < k) || (e == Error::DimensionMismatch && k >= 1 && v >= k && w@.len()
                        != self.config.dim),
                    None => (e == Error::InvalidK && k <= 0) || (e == Error::DimensionMismatch && k
                        >= 1 && w@.len() != self.config.dim),
                },
            },
    {
        if k <= 0 {
            return Err(Error::InvalidK);
        }
        match ef {
            Some(v) => {
                if v < k {
                    return Err(Error::InvalidEf);
                }
            },
            None => {},
        }
        let ef_eff: usize = effective_ef(k, ef);
        if w.len() != self.config.dim {
            return Err(Error::DimensionMismatch);
        }
        let n = self.store.len();
        if n == 0 {
            return Ok((Vec::new(), Vec::new()));
        }
        let target: usize = if (k as usize) < n {
            k as usize
        } else {
            n
        };
        let e = match self.graph.entry {
            Some(e) => e,
            None => {
                proof {
                    assert(false);
                }
                0
            },
        };
        let etop = self.graph.level_of(e);
        let cur = greedy_descend(&self.store, &self.graph, w, e, etop, 0);
        let mut kept = search_layer(&self.store, &self.graph, w, cur, 0, ef_eff);
        if kept.len() < target {
            kept = all_slots(n);
        }
        proof {
            assert(kept@.len() >= target);
        }
        let n_kept = kept.len();
        let mut pairs: Vec<(u128, u64)> = Vec::new();
        let mut i: usize = 0;
        while i < n_kept
            invariant
                self.wf(),
                w@.len() == self.config.dim,
                n == self.store.vecs@.len() == self.store.ids@.len(),
                n_kept == kept@.len(),
                kept@.no_duplicates(),
                forall|t: int| 0 <= t < kept@.len() ==> (#[trigger] kept@[t]) < n,
                0 <= i <= n_kept,
                pairs@.len() == i,
                forall|t: int|
                    0 <= t < i ==> (#[trigger] pairs@[t]).0 == sq_dist(
                        w@,
                        self.store.vecs@[kept@[t] as int]@,
                    ) && pairs@[t].1 == self.store.ids@[kept@[t] as int] as u64,
            decreases n_kept - i,
        {
            let s = kept[i];
            let d = dist_slot(&self.store, w, s);
            let sid = self.store.id_at(s);
            pairs.push((d, sid as u64));
            i = i + 1;
        }
        proof {
            assert forall|a: int, b: int| 0 <= a < b < pairs@.len() implies pairs@[a].1
                != pairs@[b].1 by {
                assert(kept@[a] != kept@[b]);
                assert(self.store.ids@[kept@[a] as int] != self.store.ids@[kept@[b] as int]);
            }
        }
        let ghost pairs_v = pairs@;
        let mut sorted = sort_pairs(pairs);
        proof {
            lemma_multiset_contains_transfer(pairs_v, sorted@);
            lemma_distinct_ids_transfer(pairs_v, sorted@);
            assert forall|t: int| 0 <= t < sorted@.len() implies {
                let p = #[trigger] sorted@[t];
                &&& p.1 <= 0xFFFF_FFFF
                &&& self.store.spec_contains(p.1 as u32)
                &&& p.0 == sq_dist(w@, self.store.vec_of(p.1 as u32))
            } by {
                assert(sorted@.contains(sorted@[t]));
                assert(pairs_v.contains(sorted@[t]));
                let z = choose|z: int| 0 <= z < pairs_v.len() && pairs_v[z] == sorted@[t];
                let u = kept@[z];
                assert(0 <= u < n && sorted@[t].1 == self.store.ids@[u as int] as u64
                    && sorted@[t].0 == sq_dist(w@, self.store.vecs@[u as int]@));
                self.store.lemma_slot_of_index(u as int);
                assert(sorted@[t].1 as u32 == self.store.ids@[u as int]);
            }
        }
        let ghost sorted_full = sorted@;
        sorted.truncate(target);
        proof {
            assert(sorted@ == sorted_full.subrange(0, target as int));
            assert forall|t: int| 0 <= t < sorted@.len() implies {
                let p = #[trigger] sorted@[t];
                &&& p.1 <= 0xFFFF_FFFF
                &&& self.store.spec_contains(p.1 as u32)
                &&& p.0 == sq_dist(w@, self.store.vec_of(p.1 as u32))
            } by {
                assert(sorted@[t] == sorted_full[t]);
            }
        }
        let mut out_ids: Vec<u32> = Vec::new();
        let mut out_dists: Vec<u128> = Vec::new();
        let mut t: usize = 0;
        while t < target
            invariant
                self.wf(),
                w@.len() == self.config.dim,
                n == self.store.vecs@.len() == self.store.ids@.len(),
                target <= sorted@.len(),
                sorted_pairs(sorted@),
                forall|a: int, b: int| 0 <= a < b < sorted@.len() ==> sorted@[a].1 != sorted@[b].1,
                forall|z: int|
                    0 <= z < sorted@.len() ==> {
                        let p = #[trigger] sorted@[z];
                        &&& p.1 <= 0xFFFF_FFFF
                        &&& self.store.spec_contains(p.1 as u32)
                        &&& p.0 == sq_dist(w@, self.store.vec_of(p.1 as u32))
                    },
                0 <= t <= target,
                out_ids@.len() == t,
                out_dists@.len() == t,
                forall|z: int|
                    0 <= z < t ==> (#[trigger] out_ids@[z]) as u64 == sorted@[z].1
                        && out_dists@[z] == sorted@[z].0,
                forall|z: int|
                    0 <= z < t ==> self.store.spec_contains(#[trigger] out_ids@[z])
                        && out_dists@[z] == sq_dist(w@, self.store.vec_of(out_ids@[z])),
            decreases target - t,
        {
            let p = sorted[t];
            out_ids.push(p.1 as u32);
            out_dists.push(p.0);
            t = t + 1;
        }
        proof {
            assert forall|a: int, b: int|
                0 <= a < b < out_ids@.len() implies out_ids@[a] != out_ids@[b] by {
                assert(sorted@[a].1 != sorted@[b].1);
            }
            assert(out_ids@.no_duplicates());
            assert forall|a: int, b: int|
                0 <= a < b < out_dists@.len() implies out_dists@[a] < out_dists@[b] || (
            out_dists@[a] == out_dists@[b] && out_ids@[a] < out_ids@[b]) by {
                assert(le_pair(sorted@[a], sorted@[b]));
                assert(sorted@[a].0 < sorted@[b].0 || (sorted@[a].0 == sorted@[b].0 && sorted@[a].1
                    <= sorted@[b].1));
                assert(sorted@[a].1 != sorted@[b].1);
                assert(out_ids@[a] as u64 == sorted@[a].1 && out_ids@[b] as u64 == sorted@[b].1);
                assert(out_dists@[a] == sorted@[a].0 && out_dists@[b] == sorted@[b].0);
            }
        }
        Ok((out_ids, out_dists))
    }
}

/// Every slot below `n`, in order.
fn all_slots(n: usize) -> (out: Vec<usize>)
    ensures
        out@.len() == n,
        out@.no_duplicates(),
        forall|t: int| 0 <= t < n ==> (#[trigger] out@[t]) == t,
{
    let mut out: Vec<usize> = Vec::new();
    let mut i: usize = 0;
    while i < n
        invariant
            0 <= i <= n,
            out@.len() == i,
            forall|t: int| 0 <= t < i ==> (#[trigger] out@[t]) == t,
        decreases n - i,
    {
        out.push(i);
        i = i + 1;
    }
    out
}

/// A fresh vector of slots with the same entries.
fn copy_vec_usize(v: &Vec<usize>) -> (out: Vec<usize>)
    ensures
        out@ == v@,
{
    let n = v.len();
    let mut out: Vec<usize> = Vec::new();
    let mut i: usize = 0;
    while i < n
        invariant
            n == v@.len(),
            0 <= i <= n,
            out@ == v@.take(i as int),
        decreases n - i,
    {
        out.push(v[i]);
        proof {
            assert(out@ =~= v@.take(i + 1));
        }
        i = i + 1;
    }
    proof {
        assert(v@.take(n as int) =~= v@);
    }
    out
}

/// Diversity selection: walk the candidates by ascending distance to the
/// base vector and accept one only while the bound is not reached and it is
/// strictly closer to the base than to every candidate accepted before it,
/// so the accepted neighbors spread out instead of clustering.
fn select_neighbors(store: &VectorStore, q: &Vec<i32>, cand: &Vec<usize>, bound: usize) -> (out:
    Vec<usize>)
    requires
        store.wf(),
        q@.len() == store.dim,
        forall|j: int| 0 <= j < cand@.len() ==> (#[trigger] cand@[j]) < store.vecs@.len(),
    ensures
        out@.len() <= bound,
        forall|x: usize| #[trigger] out@.contains(x) ==> cand@.contains(x),
{
    let n_c = cand.len();
    let mut pairs: Vec<(u128, u64)> = Vec::new();
    let mut i: usize = 0;
    while i < n_c
        invariant
            store.wf(),
            q@.len() == store.dim,
            forall|j: int| 0 <= j < cand@.len() ==> (#[trigger] cand@[j]) < store.vecs@.len(),
            n_c == cand@.len(),
            0 <= i <= n_c,
            pairs@.len() == i,
            forall|t: int|
                0 <= t < i ==> (#[trigger] pairs@[t]).0 == sq_dist(
                    q@,
                    store.vecs@[cand@[t] as int]@,
                ) && pairs@[t].1 == cand@[t] as u64,
        decreases n_c - i,
    {
        let s = cand[i];
        let d = dist_slot(store, q, s);
        pairs.push((d, s as u64));
        i = i + 1;
    }
    let ghost pairs_v = pairs@;
    let sorted = sort_pairs(pairs);
    proof {
        lemma_multiset_contains_transfer(pairs_v, sorted@);
        assert forall|t: int| 0 <= t < sorted@.len() implies {
            let c = (#[trigger] sorted@[t]).1 as usize;
            &&& cand@.contains(c)
            &&& c < store.vecs@.len()
            &&& sorted@[t].0 == sq_dist(q@, store.vecs@[c as int]@)
        } by {
            assert(sorted@.contains(sorted@[t]));
            assert(pairs_v.contains(sorted@[t]));
            let u = choose|u: int| 0 <= u < pairs_v.len() && pairs_v[u] == sorted@[t];
            assert(pairs_v[u].0 == sq_dist(q@, store.vecs@[cand@[u] as int]@));
            assert(pairs_v[u].1 == cand@[u] as u64);
            assert(sorted@[t].1 as usize == cand@[u]);
        }
    }
    let n_s = sorted.len();
    let mut out: Vec<usize> = Vec::new();
    let mut j: usize = 0;
    while j < n_s && out.len() < bound
        invariant
            store.wf(),
            q@.len() == store.dim,
            forall|t: int| 0 <= t < cand@.len() ==> (#[trigger] cand@[t]) < store.vecs@.len(),
            n_s == sorted@.len(),
            0 <= j <= n_s,
            forall|t: int| 0 <= t < sorted@.len() ==> {
                let c = (#[trigger] sorted@[t]).1 as usize;
                &&& cand@.contains(c)
                &&& c < store.vecs@.len()
                &&& sorted@[t].0 == sq_dist(q@, store.vecs@[c as int]@)
            },
            out@.len() <= bound,
            forall|x: usize| #[trigger] out@.contains(x) ==> cand@.contains(x),
            forall|t: int| 0 <= t < out@.len() ==> (#[trigger] out@[t]) < store.vecs@.len(),
        decreases n_s - j,
    {
        let p = sorted[j];
        let c = p.1 as usize;
        proof {
            assert(cand@.contains(c));
            assert(c < store.vecs@.len());
            assert(p.0 == sq_dist(q@, store.vecs@[c as int]@));
        }
        let mut ok = true;
        let n_o = out.len();
        let mut t: usize = 0;
        while t < n_o
            invariant
                store.wf(),
                q@.len() == store.dim,
                c < store.vecs@.len(),
                n_o == out@.len(),
                0 <= t <= n_o,
                forall|z: int| 0 <= z < out@.len() ==> (#[trigger] out@[z]) < store.vecs@.len(),
            decreases n_o - t,
        {
            let a = out[t];
            let d_ca = squared_euclidean(store.vec_at(c), store.vec_at(a));
            if d_ca <= p.0 {
                ok = false;
            }
            t = t + 1;
        }
        if ok {
            let ghost out_before = out@;
            out.push(c);
            proof {
                assert forall|x: usize| #[trigger] out@.contains(x) implies cand@.contains(x) by {
                    let z = choose|z: int| 0 <= z < out@.len() && out@[z] == x;
                    if z < out_before.len() {
                        assert(out_before.contains(x));
                    } else {
                        assert(x == c);
                    }
                }
            }
        }
        j = j + 1;
    }
    out
}

} // verus!
