//! The search engine: a greedy descent through the sparse upper layers picks
//! a good starting node, and a bounded best-first (beam) search over one
//! layer's neighbor lists collects the nearest candidates found there. Both
//! are shared by queries (layer 0 with beam width `ef`) and by insertion
//! (every layer the new node joins, with beam width `efConstruction`).

use crate::distance::sq_dist;
use crate::distance::squared_euclidean;
use crate::graph::NavigableGraph;
use crate::store::VectorStore;
use vstd::prelude::*;

verus! {

/// How many slots a search has not visited yet.
pub open spec fn count_unvisited(v: Seq<bool>) -> nat
    decreases v.len(),
{
    if v.len() == 0 {
        0
    } else {
        count_unvisited(v.drop_last()) + if v.last() {
            0nat
        } else {
            1nat
        }
    }
}

/// Marking one unvisited slot as visited lowers the unvisited count by one.
proof fn lemma_count_unvisited_update(v: Seq<bool>, i: int)
    requires
        0 <= i < v.len(),
        !v[i],
    ensures
        count_unvisited(v.update(i, true)) == count_unvisited(v) - 1,
    decreases v.len(),
{
    let u = v.update(i, true);
    if i == v.len() - 1 {
        assert(u.drop_last() =~= v.drop_last());
    } else {
        assert(u.drop_last() =~= v.drop_last().update(i, true));
        assert(u.last() == v.last());
        lemma_count_unvisited_update(v.drop_last(), i);
    }
}

/// Slot `e` exists and its node takes part in layer `lay`.
pub open spec fn at_layer(g: NavigableGraph, e: usize, lay: usize) -> bool {
    &&& e < g.nodes@.len()
    &&& g.nodes@[e as int].level >= lay
}

/// Distance from the query to the vector in slot `s`.
pub(crate) fn dist_slot(store: &VectorStore, q: &Vec<i32>, s: usize) -> (d: u128)
    requires
        store.wf(),
        q@.len() == store.dim,
        s < store.vecs@.len(),
    ensures
        d == sq_dist(q@, store.vecs@[s as int]@),
{
    squared_euclidean(q, store.vec_at(s))
}

/// Writes one element of a flag vector.
fn set_flag(v: &mut Vec<bool>, i: usize, b: bool)
    requires
        i < old(v)@.len(),
    ensures
        final (v)@ == old(v)@.update(i as int, b),
{
    let r = &mut v[i];
    *r = b;
}

/// The index of a nearest element of `cand` (ties by lowest index).
pub(crate) fn argmin(store: &VectorStore, q: &Vec<i32>, cand: &Vec<usize>) -> (r: usize)
    requires
        store.wf(),
        q@.len() == store.dim,
        cand@.len() > 0,
        forall|j: int| 0 <= j < cand@.len() ==> (#[trigger] cand@[j]) < store.vecs@.len(),
    ensures
        r < cand@.len(),
        forall|j: int|
            0 <= j < cand@.len() ==> sq_dist(q@, store.vecs@[cand@[r as int] as int]@) <= sq_dist(
                q@,
                store.vecs@[#[trigger] cand@[j] as int]@,
            ),
{
    let n = cand.len();
    let mut best: usize = 0;
    let mut best_d = dist_slot(store, q, cand[0]);
    let mut j: usize = 1;
    while j < n
        invariant
            store.wf(),
            q@.len() == store.dim,
            n == cand@.len(),
            forall|t: int| 0 <= t < n ==> (#[trigger] cand@[t]) < store.vecs@.len(),
            best < n,
            1 <= j <= n,
            best_d == sq_dist(q@, store.vecs@[cand@[best as int] as int]@),
            forall|t: int|
                0 <= t < j ==> best_d <= sq_dist(q@, store.vecs@[#[trigger] cand@[t] as int]@),
        decreases n - j,
    {
        let d = dist_slot(store, q, cand[j]);
        if d < best_d {
            best = j;
            best_d = d;
        }
        j = j + 1;
    }
    best
}

/// The index of a farthest element of `cand` (ties by lowest index).
fn argmax(store: &VectorStore, q: &Vec<i32>, cand: &Vec<usize>) -> (r: usize)
    requires
        store.wf(),
        q@.len() == store.dim,
        cand@.len() > 0,
        forall|j: int| 0 <= j < cand@.len() ==> (#[trigger] cand@[j]) < store.vecs@.len(),
    ensures
        r < cand@.len(),
        forall|j: int|
            0 <= j < cand@.len() ==> sq_dist(q@, store.vecs@[cand@[r as int] as int]@) >= sq_dist(
                q@,
                store.vecs@[#[trigger] cand@[j] as int]@,
            ),
{
    let n = cand.len();
    let mut best: usize = 0;
    let mut best_d = dist_slot(store, q, cand[0]);
    let mut j: usize = 1;
    while j < n
        invariant
            store.wf(),
            q@.len() == store.dim,
            n == cand@.len(),
            forall|t: int| 0 <= t < n ==> (#[trigger] cand@[t]) < store.vecs@.len(),
            best < n,
            1 <= j <= n,
            best_d == sq_dist(q@, store.vecs@[cand@[best as int] as int]@),
            forall|t: int|
                0 <= t < j ==> best_d >= sq_dist(q@, store.vecs@[#[trigger] cand@[t] as int]@),
        decreases n - j,
    {
        let d = dist_slot(store, q, cand[j]);
        if d > best_d {
            best = j;
            best_d = d;
        }
        j = j + 1;
    }
    best
}

/// The first neighbor of `cur` on layer `lay` strictly closer to the query
/// than `cur` itself, with its distance, if one exists.
fn closer_neighbor(
    store: &VectorStore,
    graph: &NavigableGraph,
    q: &Vec<i32>,
    cur: usize,
    lay: usize,
    cur_d: u128,
) -> (r: Option<(usize, u128)>)
    requires
        store.wf(),
        graph.valid(store.vecs@.len() as nat),
        q@.len() == store.dim,
        at_layer(*graph, cur, lay),
    ensures
        match r {
            Some(p) => at_layer(*graph, p.0, lay) && p.1 == sq_dist(q@, store.vecs@[p.0 as int]@)
                && p.1 < cur_d,
            None => true,
        },
{
    proof {
        assert(graph.node_valid(cur as int));
    }
    let list = graph.list_at(cur, lay);
    let len = list.len();
    let mut j: usize = 0;
    while j < len
        invariant
            store.wf(),
            graph.valid(store.vecs@.len() as nat),
            q@.len() == store.dim,
            at_layer(*graph, cur, lay),
            list@ == graph.nodes@[cur as int].lists@[lay as int]@,
            len == list@.len(),
            0 <= j <= len,
        decreases len - j,
    {
        let e = list[j];
        proof {
            assert(graph.node_valid(cur as int));
            assert(graph.nodes@[cur as int].lists@[lay as int]@[j as int] == e);
        }
        let d = dist_slot(store, q, e);
        if d < cur_d {
            return Some((e, d));
        }
        j = j + 1;
    }
    None
}

/// Greedy descent: starting at `cur` on layer `top`, repeatedly move to a
/// strictly closer neighbor on the current layer until none exists, then
/// drop one layer, stopping once every layer strictly above `stop` has been
/// walked. Returns a node that takes part in layer `stop` and sits no
/// farther from the query than the start did.
pub fn greedy_descend(
    store: &VectorStore,
    graph: &NavigableGraph,
    q: &Vec<i32>,
    start: usize,
    top: usize,
    stop: usize,
) -> (r: usize)
    requires
        store.wf(),
        graph.valid(store.vecs@.len() as nat),
        q@.len() == store.dim,
        stop <= top,
        at_layer(*graph, start, top),
    ensures
        at_layer(*graph, r, stop),
        sq_dist(q@, store.vecs@[r as int]@) <= sq_dist(q@, store.vecs@[start as int]@),
{
    let n = store.len();
    let mut cur = start;
    let mut lay = top;
    while lay > stop
        invariant
            store.wf(),
            graph.valid(store.vecs@.len() as nat),
            q@.len() == store.dim,
            n == store.vecs@.len(),
            stop <= lay <= top,
            at_layer(*graph, cur, lay),
            start < n,
            sq_dist(q@, store.vecs@[cur as int]@) <= sq_dist(q@, store.vecs@[start as int]@),
        decreases lay - stop,
    {
        let mut cur_d = dist_slot(store, q, cur);
        let ghost start_d = sq_dist(q@, store.vecs@[start as int]@);
        loop
            invariant
                store.wf(),
                graph.valid(store.vecs@.len() as nat),
                q@.len() == store.dim,
                n == store.vecs@.len(),
                stop < lay <= top,
                at_layer(*graph, cur, lay),
                cur_d == sq_dist(q@, store.vecs@[cur as int]@),
                cur_d <= start_d,
            ensures
                at_layer(*graph, cur, lay),
                sq_dist(q@, store.vecs@[cur as int]@) <= start_d,
            decreases cur_d,
        {
            match closer_neighbor(store, graph, q, cur, lay, cur_d) {
                Some(p) => {
                    cur = p.0;
                    cur_d = p.1;
                },
                None => {
                    break ;
                },
            }
        }
        lay = lay - 1;
    }
    cur
}

/// Bounded best-first search over one layer: expand the nearest unexpanded
/// candidate through its neighbor list at that layer, keep the `ef` nearest
/// nodes seen so far (evicting the farthest), visit no node twice, and stop
/// when the nearest unexpanded candidate is farther than the worst retained
/// node. Returns between 1 and `ef` distinct nodes of that layer.
pub fn search_layer(
    store: &VectorStore,
    graph: &NavigableGraph,
    q: &Vec<i32>,
    seed: usize,
    lay: usize,
    ef: usize,
) -> (out: Vec<usize>)
    requires
        store.wf(),
        graph.valid(store.vecs@.len() as nat),
        q@.len() == store.dim,
        ef >= 1,
        at_layer(*graph, seed, lay),
    ensures
        out@.no_duplicates(),
        1 <= out@.len() <= ef,
        forall|j: int| 0 <= j < out@.len() ==> at_layer(*graph, #[trigger] out@[j], lay),
        exists|t: int|
            0 <= t < out@.len() && sq_dist(q@, store.vecs@[#[trigger] out@[t] as int]@) <= sq_dist(
                q@,
                store.vecs@[seed as int]@,
            ),
{
    let n = store.len();
    let mut visited: Vec<bool> = Vec::new();
    let mut i: usize = 0;
    while i < n
        invariant
            0 <= i <= n,
            visited@.len() == i,
        decreases n - i,
    {
        visited.push(false);
        i = i + 1;
    }
    set_flag(&mut visited, seed, true);
    let mut cand: Vec<usize> = Vec::new();
    cand.push(seed);
    let mut kept: Vec<usize> = Vec::new();
    kept.push(seed);
    proof {
        assert(kept@[0] == seed);
        assert(sq_dist(q@, store.vecs@[kept@[0] as int]@) <= sq_dist(
            q@,
            store.vecs@[seed as int]@,
        ));
    }
    while cand.len() > 0
        invariant
            store.wf(),
            graph.valid(store.vecs@.len() as nat),
            q@.len() == store.dim,
            n == store.vecs@.len(),
            ef >= 1,
            visited@.len() == n,
            forall|j: int|
                0 <= j < cand@.len() ==> at_layer(*graph, #[trigger] cand@[j], lay) && visited@[cand@[j] as int],
            forall|j: int|
                0 <= j < kept@.len() ==> at_layer(*graph, #[trigger] kept@[j], lay) && visited@[kept@[j] as int],
            kept@.no_duplicates(),
            1 <= kept@.len() <= ef,
            seed < store.vecs@.len(),
            exists|t: int|
                0 <= t < kept@.len() && sq_dist(q@, store.vecs@[#[trigger] kept@[t] as int]@)
                    <= sq_dist(q@, store.vecs@[seed as int]@),
        ensures
            kept@.no_duplicates(),
            1 <= kept@.len() <= ef,
            forall|j: int| 0 <= j < kept@.len() ==> at_layer(*graph, #[trigger] kept@[j], lay),
            exists|t: int|
                0 <= t < kept@.len() && sq_dist(q@, store.vecs@[#[trigger] kept@[t] as int]@)
                    <= sq_dist(q@, store.vecs@[seed as int]@),
        decreases cand@.len() + count_unvisited(visited@),
    {
        let ci = argmin(store, q, &cand);
        let c = cand[ci];
        proof {
            cand@.remove_ensures(ci as int);
        }
        cand.remove(ci);
        let c_d = dist_slot(store, q, c);
        let wi = argmax(store, q, &kept);
        let w_d = dist_slot(store, q, kept[wi]);
        if c_d > w_d && kept.len() >= ef {
            break ;
        }
        let ghost measure_in = cand@.len() + count_unvisited(visited@);
        proof {
            assert(graph.node_valid(c as int));
        }
        let list = graph.list_at(c, lay);
        let len = list.len();
        let mut j: usize = 0;
        while j < len
            invariant
                store.wf(),
                graph.valid(store.vecs@.len() as nat),
                q@.len() == store.dim,
                n == store.vecs@.len(),
                ef >= 1,
                visited@.len() == n,
                at_layer(*graph, c, lay),
                list@ == graph.nodes@[c as int].lists@[lay as int]@,
                len == list@.len(),
                0 <= j <= len,
                forall|t: int|
                    0 <= t < cand@.len() ==> at_layer(*graph, #[trigger] cand@[t], lay) && visited@[cand@[t] as int],
                forall|t: int|
                    0 <= t < kept@.len() ==> at_layer(*graph, #[trigger] kept@[t], lay) && visited@[kept@[t] as int],
                kept@.no_duplicates(),
                1 <= kept@.len() <= ef,
                seed < store.vecs@.len(),
                exists|t: int|
                    0 <= t < kept@.len() && sq_dist(q@, store.vecs@[#[trigger] kept@[t] as int]@)
                        <= sq_dist(q@, store.vecs@[seed as int]@),
                cand@.len() + count_unvisited(visited@) <= measure_in,
            decreases len - j,
        {
            let e = list[j];
            proof {
                assert(graph.node_valid(c as int));
                assert(graph.nodes@[c as int].lists@[lay as int]@[j as int] == e);
            }
            if !visited[e] {
                proof {
                    assert forall|t: int| 0 <= t < kept@.len() implies kept@[t] != e by {
                        assert(visited@[kept@[t] as int]);
                    }
                    assert forall|t: int| 0 <= t < cand@.len() implies cand@[t] != e by {
                        assert(visited@[cand@[t] as int]);
                    }
                    lemma_count_unvisited_update(visited@, e as int);
                }
                let ghost kept_fresh = kept@;
                set_flag(&mut visited, e, true);
                if kept.len() < ef {
                    let ghost wit = choose|t: int|
                        0 <= t < kept@.len() && sq_dist(q@, store.vecs@[kept@[t] as int]@)
                            <= sq_dist(q@, store.vecs@[seed as int]@);
                    kept.push(e);
                    cand.push(e);
                    proof {
                        assert(kept@[wit] == kept_fresh[wit]);
                    }
                } else {
                    let wj = argmax(store, q, &kept);
                    let far_d = dist_slot(store, q, kept[wj]);
                    let e_d = dist_slot(store, q, e);
                    if e_d < far_d {
                        let ghost wit = choose|t: int|
                            0 <= t < kept@.len() && sq_dist(q@, store.vecs@[kept@[t] as int]@)
                                <= sq_dist(q@, store.vecs@[seed as int]@);
                        let ghost far_slot = kept@[wj as int];
                        proof {
                            kept@.remove_ensures(wj as int);
                        }
                        kept.remove(wj);
                        proof {
                            assert forall|t: int| 0 <= t < kept@.len() implies kept@[t] != e by {
                                assert(kept_fresh.contains(kept@[t]));
                            }
                        }
                        kept.push(e);
                        cand.push(e);
                        proof {
                            if wit != wj {
                                let ghost moved = if wit < wj {
                                    wit
                                } else {
                                    wit - 1
                                };
                                assert(kept@[moved] == kept_fresh[wit]);
                            } else {
                                assert(sq_dist(q@, store.vecs@[far_slot as int]@) <= sq_dist(
                                    q@,
                                    store.vecs@[seed as int]@,
                                ));
                                assert(kept@.last() == e);
                                assert(sq_dist(q@, store.vecs@[e as int]@) < sq_dist(
                                    q@,
                                    store.vecs@[far_slot as int]@,
                                ));
                            }
                        }
                    }
                }
            }
            j = j + 1;
        }
    }
    kept
}

} // verus!
