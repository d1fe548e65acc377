//! Dense storage of inserted vectors keyed by integer id: every stored vector
//! has exactly the configured number of components, ids are unique, and the
//! store remembers insertion order (slot `s` holds the `s`-th inserted
//! vector).

use crate::errors::Error;
use vstd::prelude::*;

verus! {

/// The vectors of an index, in insertion order. Slot `s` pairs `ids[s]` with
/// `vecs[s]`.
pub struct VectorStore {
    /// Number of components every stored vector must have.
    pub dim: usize,
    /// The id of each slot, in insertion order.
    pub ids: Vec<u32>,
    /// The components of each slot, in insertion order.
    pub vecs: Vec<Vec<i32>>,
}

impl VectorStore {
    /// Ids and vectors pair up slot by slot, every vector has the configured
    /// dimension, and no id occurs twice.
    pub open spec fn wf(self) -> bool {
        &&& self.ids@.len() == self.vecs@.len()
        &&& forall|s: int| 0 <= s < self.vecs@.len() ==> (#[trigger] self.vecs@[s])@.len()
            == self.dim
        &&& self.ids@.no_duplicates()
    }

    /// The contents as id/vector pairs, in insertion order.
    pub open spec fn entries(self) -> Seq<(u32, Seq<i32>)> {
        Seq::new(self.ids@.len(), |s: int| (self.ids@[s], self.vecs@[s]@))
    }

    /// Whether some slot holds `id`.
    pub open spec fn spec_contains(self, id: u32) -> bool {
        self.ids@.contains(id)
    }

    /// The slot of `id` (meaningful only when `id` is present).
    pub open spec fn slot_of(self, id: u32) -> int {
        self.ids@.index_of(id)
    }

    /// The vector stored under `id` (meaningful only when `id` is present).
    pub open spec fn vec_of(self, id: u32) -> Seq<i32> {
        self.vecs@[self.slot_of(id)]@
    }

    /// An empty store for vectors of `dim` components.
    pub fn new(dim: usize) -> (st: VectorStore)
        ensures
            st.wf(),
            st.dim == dim,
            st.ids@.len() == 0,
    {
        VectorStore { dim, ids: Vec::new(), vecs: Vec::new() }
    }

    /// How many vectors are stored.
    pub fn len(&self) -> (n: usize)
        ensures
            n == self.ids@.len(),
    {
        self.ids.len()
    }

    /// Whether `id` is already present.
    pub fn contains(&self, id: u32) -> (r: bool)
        ensures
            r == self.spec_contains(id),
    {
        let n = self.ids.len();
        let mut i: usize = 0;
        while i < n
            invariant
                n == self.ids@.len(),
                0 <= i <= n,
                forall|j: int| 0 <= j < i ==> self.ids@[j] != id,
            decreases n - i,
        {
            if self.ids[i] == id {
                return true;
            }
            i = i + 1;
        }
        false
    }

    /// The slot that holds `id`, if any.
    pub fn find(&self, id: u32) -> (r: Option<usize>)
        requires
            self.wf(),
        ensures
            match r {
                Some(s) => self.spec_contains(id) && s == self.slot_of(id) && s
                    < self.ids@.len() && self.ids@[s as int] == id,
                None => !self.spec_contains(id),
            },
    {
        let n = self.ids.len();
        let mut i: usize = 0;
        while i < n
            invariant
                self.wf(),
                n == self.ids@.len(),
                0 <= i <= n,
                forall|j: int| 0 <= j < i ==> self.ids@[j] != id,
            decreases n - i,
        {
            if self.ids[i] == id {
                proof {
                    assert(self.ids@[i as int] == id);
                    let k = self.ids@.index_of(id);
                    assert(0 <= k < self.ids@.len() && self.ids@[k] == id);
                    assert(k == i as int);
                }
                return Some(i);
            }
            i = i + 1;
        }
        None
    }

    /// Stores `v` under `id`. Fails with `DimensionMismatch` when `v` has the
    /// wrong number of components and with `IdCollision` when `id` is already
    /// present; on success the pair is appended after all earlier entries.
    pub fn put(&mut self, id: u32, v: Vec<i32>) -> (r: Result<(), Error>)
        requires
            old(self).wf(),
        ensures
            final (self).wf(),
            final (self).dim == old(self).dim,
            match r {
                Ok(()) => v@.len() == old(self).dim && !old(self).spec_contains(id) && final (
                self).ids@ == old(self).ids@.push(id) && final (self).vecs@ == old(
                self).vecs@.push(v),
                Err(Error::DimensionMismatch) => v@.len() != old(self).dim && *final (self) == *old(
                    self,
                ),
                Err(Error::IdCollision) => v@.len() == old(self).dim && old(self).spec_contains(id)
                    && *final (self) == *old(self),
                Err(_) => false,
            },
    {
        if v.len() != self.dim {
            return Err(Error::DimensionMismatch);
        }
        if self.contains(id) {
            return Err(Error::IdCollision);
        }
        self.ids.push(id);
        self.vecs.push(v);
        proof {
            assert(self.ids@.drop_last() =~= old(self).ids@);
            assert forall|i: int, j: int|
                0 <= i < j < self.ids@.len() implies self.ids@[i] != self.ids@[j] by {
                if j < self.ids@.len() - 1 {
                    assert(old(self).ids@[i] != old(self).ids@[j]);
                } else {
                    assert(!old(self).ids@.contains(id));
                    assert(old(self).ids@[i] != id);
                }
            }
        }
        Ok(())
    }

    /// The id of slot `s`.
    pub fn id_at(&self, s: usize) -> (id: u32)
        requires
            s < self.ids@.len(),
        ensures
            id == self.ids@[s as int],
    {
        self.ids[s]
    }

    /// In a well-formed store, the slot found for the id of slot `s` is `s`
    /// itself.
    pub proof fn lemma_slot_of_index(self, s: int)
        requires
            self.wf(),
            0 <= s < self.ids@.len(),
        ensures
            self.spec_contains(self.ids@[s]),
            self.slot_of(self.ids@[s]) == s,
            self.vec_of(self.ids@[s]) == self.vecs@[s]@,
    {
        let id = self.ids@[s];
        assert(self.ids@.contains(id));
        let k = self.ids@.index_of(id);
        assert(0 <= k < self.ids@.len() && self.ids@[k] == id);
        assert(k == s);
    }

    /// A reference to the vector in slot `s`.
    pub fn vec_at(&self, s: usize) -> (v: &Vec<i32>)
        requires
            s < self.vecs@.len(),
        ensures
            v@ == self.vecs@[s as int]@,
    {
        &self.vecs[s]
    }

    /// The vector stored under `id`, or `UnknownId` when no slot holds it.
    pub fn get(&self, id: u32) -> (r: Result<&Vec<i32>, Error>)
        requires
            self.wf(),
        ensures
            match r {
                Ok(v) => self.spec_contains(id) && v@ == self.vec_of(id),
                Err(e) => e == Error::UnknownId && !self.spec_contains(id),
            },
    {
        match self.find(id) {
            Some(s) => Ok(&self.vecs[s]),
            None => Err(Error::UnknownId),
        }
    }
}

/// A fresh vector with the same components.
pub fn copy_vec(v: &Vec<i32>) -> (out: Vec<i32>)
    ensures
        out@ == v@,
{
    let n = v.len();
    let mut out: Vec<i32> = Vec::new();
    let mut i: usize = 0;
    while i < n
        invariant
            n == v@.len(),
            0 <= i <= n,
            out@ == v@.take(i as int),
        decreases n - i,
    {
        out.push(v[i]);
        proof {
            assert(out@ =~= v@.take(i + 1));
        }
        i = i + 1;
    }
    proof {
        assert(v@.take(n as int) =~= v@);
    }
    out
}

/// The sequential-id law: from a store holding exactly the ids `0..n` in
/// order, an insert with the id omitted assigns exactly `n` — the id that
/// `add_item`'s smallest-unused-id clauses describe. Iterating it from an
/// empty store hands out `0, 1, 2, ...` in call order.
pub proof fn lemma_sequential_ids(ids: Seq<u32>, aid: u32)
    requires
        ids.len() <= 0xFFFF_FFFF,
        forall|t: int| 0 <= t < ids.len() ==> ids[t] == t as u32,
        !ids.contains(aid),
        forall|j: nat| j < aid ==> ids.contains(#[trigger] (j as u32)),
    ensures
        aid == ids.len(),
{
    let n = ids.len() as int;
    if aid < n {
        assert(ids[aid as int] == aid);
        assert(ids.contains(aid));
    } else if aid > n {
        assert(ids.contains((n as nat) as u32));
        let t = choose|t: int| 0 <= t < ids.len() && ids[t] == n as u32;
        assert(ids[t] == t as u32);
    }
}

/// A duplicate-free sequence of ids that contains every value below `c`
/// has at least `c` entries.
proof fn lemma_distinct_ids_bound(ids: Seq<u32>, c: nat)
    requires
        ids.no_duplicates(),
        c <= 0x1_0000_0000,
        forall|j: nat| j < c ==> ids.contains(#[trigger] (j as u32)),
    ensures
        c <= ids.len(),
    decreases c,
{
    if c > 0 {
        let v = (c - 1) as u32;
        assert(ids.contains(v));
        let k = choose|k: int| 0 <= k < ids.len() && ids[k] == v;
        let rest = ids.remove(k);
        assert(rest.no_duplicates()) by {
            ids.remove_ensures(k);
        }
        assert forall|j: nat| j < c - 1 implies rest.contains(#[trigger] (j as u32)) by {
            assert(ids.contains(j as u32));
            let m = choose|m: int| 0 <= m < ids.len() && ids[m] == j as u32;
            assert(j as u32 != v);
            assert(m != k);
            if m < k {
                assert(rest[m] == j as u32);
            } else {
                assert(rest[m - 1] == j as u32);
            }
        }
        lemma_distinct_ids_bound(rest, (c - 1) as nat);
    }
}

impl VectorStore {
    /// The smallest id not yet in use: what `add_item` assigns when the
    /// caller omits the id, so omitted ids come out as `0, 1, 2, ...` in call
    /// order.
    pub fn first_free_id(&self) -> (id: u32)
        requires
            self.wf(),
            self.ids@.len() < 0xFFFF_FFFF,
        ensures
            !self.spec_contains(id),
            forall|j: nat| j < id ==> self.spec_contains(#[trigger] (j as u32)),
    {
        let n = self.ids.len();
        let mut c: u32 = 0;
        loop
            invariant
                self.wf(),
                n == self.ids@.len(),
                n < 0xFFFF_FFFF,
                c <= n,
                forall|j: nat| j < c ==> self.spec_contains(#[trigger] (j as u32)),
            decreases n - c,
        {
            if !self.contains(c) {
                return c;
            }
            proof {
                assert forall|j: nat| j < c + 1 implies self.spec_contains(
                    #[trigger] (j as u32),
                ) by {
                    if j < c {
                    } else {
                        assert(j as u32 == c);
                    }
                }
                lemma_distinct_ids_bound(self.ids@, (c + 1) as nat);
            }
            c = c + 1;
        }
    }
}

} // verus!
