//! Plain mutable graphs: the non-succinct forms the wavelet-tree graphs are
//! built from.
//!
//! A [`Digraph`] keeps its adjacency in ordinary vectors and applies every
//! mutation eagerly; deleting a vertex removes its incident edges at once
//! and leaves the slot addressable but absent, so that indices stay stable.

use crate::digraph::{find_first, get_row_mut, row_in_range, row_nodup, vec_contains,
    adjacency_ok};
use crate::encoding::{flat_of, lemma_flat_update, lemma_take_succ};
use crate::seqs::{count_ones, lemma_count_ones_bounds, lemma_count_ones_zero,
    lemma_remove_value_first, lemma_remove_value_nodup, nodup};
use crate::wavelet::SYMBOL_LIMIT;
use crate::GraphError;
use vstd::prelude::*;

verus! {

/// A plain directed graph: one neighbour row per slot, plus removed flags.
pub struct Digraph {
    pub adj: Vec<Vec<usize>>,
    pub deleted: Vec<bool>,
    pub deleted_count: usize,
    pub e_count: usize,
}

impl Digraph {
    pub open spec fn rows(self) -> Seq<Seq<usize>> {
        self.adj.deep_view()
    }

    pub open spec fn removed(self, v: int) -> bool {
        self.deleted@[v]
    }

    pub open spec fn exists_spec(self, v: int) -> bool {
        0 <= v < self.rows().len() && !self.deleted@[v]
    }

    /// Rows and flags line up, counts match, removed slots are isolated,
    /// every neighbour is a valid existing slot, and no row repeats one.
    pub open spec fn wf(self) -> bool {
        &&& self.deleted@.len() == self.rows().len()
        &&& self.deleted_count == count_ones(self.deleted@)
        &&& self.e_count == flat_of(self.rows()).len()
        &&& self.e_count <= SYMBOL_LIMIT
        &&& forall|v: int|
            0 <= v < self.rows().len() && self.deleted@[v] ==> (#[trigger] self.rows()[v]).len()
                == 0
        &&& forall|u: int, j: int|
            0 <= u < self.rows().len() && 0 <= j < self.rows()[u].len()
                ==> (#[trigger] self.rows()[u][j] as int) < self.rows().len()
                    && !self.deleted@[self.rows()[u][j] as int]
        &&& forall|v: int| 0 <= v < self.rows().len() ==> nodup(#[trigger] self.rows()[v])
    }

    /// The empty graph.
    pub fn new() -> (r: Digraph)
        ensures
            r.wf(),
            r.rows().len() == 0,
            r.e_count == 0,
    {
        let r = Digraph { adj: Vec::new(), deleted: Vec::new(), deleted_count: 0, e_count: 0 };
        proof {
            assert(r.rows() =~= Seq::<Seq<usize>>::empty());
            lemma_count_ones_zero(r.deleted@);
        }
        r
    }

    /// Build a graph from an adjacency list, rejecting one that disagrees
    /// with its declared counts, points out of range, or repeats an edge.
    pub fn from_adjacency_list(v_count: usize, e_count: usize, adj: Vec<Vec<usize>>) -> (r:
        Result<Digraph, GraphError>)
        ensures
            r is Ok <==> adjacency_ok(v_count as int, e_count as int, adj.deep_view()),
            r matches Ok(g) ==> {
                &&& g.wf()
                &&& g.rows() == adj.deep_view()
                &&& g.deleted_count == 0
                &&& g.deleted@.len() == v_count
                &&& forall|k: int| 0 <= k < g.deleted@.len() ==> !(#[trigger] g.deleted@[k])
                &&& g.e_count == e_count
            },
    {
        let ghost rows = adj.deep_view();
        if adj.len() != v_count {
            return Err(GraphError::InvalidAdjacency);
        }
        if e_count > SYMBOL_LIMIT {
            return Err(GraphError::InvalidAdjacency);
        }
        let mut total: usize = 0;
        let mut v: usize = 0;
        proof {
            assert(rows.take(0) =~= Seq::<Seq<usize>>::empty());
        }
        while v < adj.len()
            invariant
                v <= adj.len(),
                rows == adj.deep_view(),
                rows.len() == adj.len(),
                rows.len() == v_count,
                e_count <= SYMBOL_LIMIT,
                total <= e_count,
                total == flat_of(rows.take(v as int)).len(),
                forall|u: int, j: int|
                    0 <= u < v && 0 <= j < rows[u].len() ==> (#[trigger] rows[u][j] as int)
                        < rows.len(),
                forall|u: int| 0 <= u < v ==> nodup(#[trigger] rows[u]),
            decreases adj.len() - v,
        {
            let row = &adj[v];
            proof {
                assert(rows[v as int] == adj@[v as int]@);
                lemma_take_succ(rows, v as int);
            }
            if !row_in_range(row, v_count) {
                return Err(GraphError::InvalidAdjacency);
            }
            if !row_nodup(row) {
                return Err(GraphError::InvalidAdjacency);
            }
            if row.len() > e_count - total {
                proof {
                    crate::encoding::lemma_prefix(rows, v as int + 1);
                    crate::encoding::lemma_sizes(rows.take(v as int + 1));
                    crate::encoding::lemma_start_of_take(rows, v as int + 1, v as int + 1);
                    assert(flat_of(rows).len() >= flat_of(rows.take(v as int + 1)).len());
                }
                return Err(GraphError::InvalidAdjacency);
            }
            total = total + row.len();
            v += 1;
        }
        proof {
            assert(rows.take(adj.len() as int) =~= rows);
        }
        if total != e_count {
            return Err(GraphError::InvalidAdjacency);
        }
        let mut deleted: Vec<bool> = Vec::new();
        let mut i: usize = 0;
        while i < v_count
            invariant
                i <= v_count,
                deleted@.len() == i,
                forall|k: int| 0 <= k < i ==> !(#[trigger] deleted@[k]),
            decreases v_count - i,
        {
            deleted.push(false);
            i += 1;
        }
        let g = Digraph { adj, deleted, deleted_count: 0, e_count };
        proof {
            lemma_count_ones_zero(g.deleted@);
        }
        Ok(g)
    }

    pub fn vertex_exists(&self, v: usize) -> (r: bool)
        requires
            self.wf(),
        ensures
            r == self.exists_spec(v as int),
    {
        v < self.adj.len() && !self.deleted[v]
    }

    /// Whether `v` is a slot that was removed.
    pub fn vertex_deleted(&self, v: usize) -> (r: bool)
        requires
            self.wf(),
        ensures
            r == (v < self.rows().len() && self.deleted@[v as int]),
    {
        v < self.adj.len() && self.deleted[v]
    }

    pub fn v_count(&self) -> (r: usize)
        requires
            self.wf(),
        ensures
            r == self.rows().len() - count_ones(self.deleted@),
    {
        proof {
            lemma_count_ones_bounds(self.deleted@);
        }
        self.adj.len() - self.deleted_count
    }

    pub fn e_count(&self) -> (r: usize)
        requires
            self.wf(),
        ensures
            r == flat_of(self.rows()).len(),
    {
        self.e_count
    }

    pub fn outgoing_edges(&self, v: usize) -> (r: Result<Vec<usize>, GraphError>)
        requires
            self.wf(),
        ensures
            r is Ok <==> self.exists_spec(v as int),
            r matches Ok(row) ==> row@ == self.rows()[v as int],
    {
        if !self.vertex_exists(v) {
            return Err(GraphError::VertexNotFound);
        }
        let row = &self.adj[v];
        let mut out: Vec<usize> = Vec::new();
        let mut j: usize = 0;
        proof {
            assert(self.rows()[v as int] == self.adj@[v as int]@);
        }
        while j < row.len()
            invariant
                j <= row.len(),
                row@ == self.rows()[v as int],
                out@ == row@.take(j as int),
            decreases row.len() - j,
        {
            out.push(row[j]);
            proof {
                assert(row@.take(j + 1) =~= row@.take(j as int).push(row@[j as int]));
            }
            j += 1;
        }
        proof {
            assert(row@.take(row.len() as int) =~= row@);
        }
        Ok(out)
    }

    /// The vertices with an edge into `v`, in ascending order.
    pub fn incoming_edges(&self, v: usize) -> (r: Result<Vec<usize>, GraphError>)
        requires
            self.wf(),
        ensures
            r is Ok <==> self.exists_spec(v as int),
            r matches Ok(row) ==> row@ == crate::adjacency::incoming_list(self.rows(), v),
    {
        if !self.vertex_exists(v) {
            return Err(GraphError::VertexNotFound);
        }
        let mut acc: Vec<usize> = Vec::new();
        let mut u: usize = 0;
        proof {
            assert(acc@ =~= crate::adjacency::incoming_upto(self.rows(), v, 0));
        }
        while u < self.adj.len()
            invariant
                self.wf(),
                u <= self.adj.len(),
                acc@ == crate::adjacency::incoming_upto(self.rows(), v, u as int),
            decreases self.adj.len() - u,
        {
            proof {
                assert(self.rows()[u as int] == self.adj@[u as int]@);
            }
            if vec_contains(&self.adj[u], v) {
                acc.push(u);
                proof {
                    assert(acc@ =~= crate::adjacency::incoming_upto(self.rows(), v, u + 1));
                }
            } else {
                proof {
                    assert(acc@ =~= crate::adjacency::incoming_upto(self.rows(), v, u + 1));
                }
            }
            u += 1;
        }
        Ok(acc)
    }

    pub fn edge_exists(&self, from: usize, to: usize) -> (r: bool)
        requires
            self.wf(),
        ensures
            r == (self.exists_spec(from as int) && self.exists_spec(to as int) && self.rows()[
                from as int].contains(to)),
    {
        if !self.vertex_exists(from) || !self.vertex_exists(to) {
            return false;
        }
        proof {
            assert(self.rows()[from as int] == self.adj@[from as int]@);
        }
        vec_contains(&self.adj[from], to)
    }

    /// Append a fresh vertex and return its index.
    pub fn append_vertex(&mut self) -> (r: usize)
        requires
            old(self).wf(),
        ensures
            r == old(self).rows().len(),
            final(self).wf(),
            final(self).rows() == old(self).rows().push(Seq::<usize>::empty()),
            final(self).e_count == old(self).e_count,
            forall|w: int|
                final(self).exists_spec(w) == (old(self).exists_spec(w) || w == r as int),
    {
        let idx = self.adj.len();
        self.adj.push(Vec::new());
        self.deleted.push(false);
        proof {
            assert(self.rows() =~~= old(self).rows().push(Seq::<usize>::empty()));
            assert(self.deleted@.drop_last() =~= old(self).deleted@);
            assert(self.rows().drop_last() =~= old(self).rows());
            assert(self.rows().last() =~= Seq::<usize>::empty());
            assert(flat_of(self.rows()).len() == flat_of(old(self).rows()).len());
        }
        idx
    }

    /// Add the edge `(from, to)`; both endpoints must exist and the edge
    /// must be new.
    pub fn add_edge(&mut self, from: usize, to: usize) -> (r: Result<(), GraphError>)
        requires
            old(self).wf(),
            old(self).e_count < SYMBOL_LIMIT,
        ensures
            r is Ok <==> (old(self).exists_spec(from as int) && old(self).exists_spec(to as int)
                && !old(self).rows()[from as int].contains(to)),
            r is Err ==> *final(self) == *old(self),
            r == Err::<(), GraphError>(GraphError::VertexNotFound) <==> !(old(self).exists_spec(
                from as int,
            ) && old(self).exists_spec(to as int)),
            r is Ok ==> {
                &&& final(self).wf()
                &&& final(self).rows() == old(self).rows().update(
                    from as int,
                    old(self).rows()[from as int].push(to),
                )
                &&& final(self).deleted == old(self).deleted
                &&& final(self).e_count == old(self).e_count + 1
            },
    {
        if !self.vertex_exists(from) || !self.vertex_exists(to) {
            return Err(GraphError::VertexNotFound);
        }
        proof {
            assert(self.rows()[from as int] == self.adj@[from as int]@);
        }
        if vec_contains(&self.adj[from], to) {
            return Err(GraphError::EdgeExists);
        }
        let ghost rows1 = self.rows();
        let row = get_row_mut(&mut self.adj, from);
        row.push(to);
        self.e_count = self.e_count + 1;
        proof {
            let s1 = rows1[from as int];
            assert(self.rows() =~~= rows1.update(from as int, s1.push(to)));
            lemma_flat_update(rows1, from as int, s1.push(to));
            assert forall|v: int| 0 <= v < self.rows().len() implies nodup(
                #[trigger] self.rows()[v],
            ) by {
                if v == from as int {
                    let s2 = s1.push(to);
                    assert(forall|j: int| 0 <= j < s1.len() ==> s2[j] == s1[j]);
                    assert forall|a: int, b: int| 0 <= a < b < s2.len() implies s2[a] != s2[b] by {
                        if b == s2.len() - 1 {
                            assert(s1.contains(s1[a]));
                        }
                    }
                } else {
                    assert(self.rows()[v] == rows1[v]);
                }
            }
            assert forall|u: int, j: int|
                0 <= u < self.rows().len() && 0 <= j < self.rows()[u].len() implies (
            #[trigger] self.rows()[u][j] as int) < self.rows().len() && !self.deleted@[self.rows()[
                u][j] as int] by {
                if u == from as int {
                    if j < rows1[u].len() {
                        assert(self.rows()[u][j] == rows1[u][j]);
                    } else {
                        assert(self.rows()[u][j] == to);
                    }
                } else {
                    assert(self.rows()[u] == rows1[u]);
                }
            }
        }
        Ok(())
    }

    /// Delete the edge `(from, to)`, which must exist.
    pub fn delete_edge(&mut self, from: usize, to: usize) -> (r: Result<(), GraphError>)
        requires
            old(self).wf(),
        ensures
            r is Ok <==> (old(self).exists_spec(from as int) && old(self).exists_spec(to as int)
                && old(self).rows()[from as int].contains(to)),
            r is Err ==> *final(self) == *old(self),
            r is Ok ==> {
                &&& final(self).wf()
                &&& final(self).rows() == old(self).rows().update(
                    from as int,
                    crate::seqs::remove_value(old(self).rows()[from as int], to),
                )
                &&& final(self).deleted == old(self).deleted
                &&& final(self).e_count == old(self).e_count - 1
            },
    {
        if !self.vertex_exists(from) || !self.vertex_exists(to) {
            return Err(GraphError::VertexNotFound);
        }
        proof {
            assert(self.rows()[from as int] == self.adj@[from as int]@);
        }
        let idx = match find_first(&self.adj[from], to) {
            Some(i) => i,
            None => {
                return Err(GraphError::EdgeNotFound);
            },
        };
        let ghost rows1 = self.rows();
        proof {
            crate::encoding::lemma_flat_row_le(rows1, from as int);
        }
        let row = get_row_mut(&mut self.adj, from);
        let _ = row.remove(idx);
        self.e_count = self.e_count - 1;
        proof {
            let s1 = rows1[from as int];
            lemma_remove_value_first(s1, to, idx as int);
            assert(self.rows() =~~= rows1.update(from as int, crate::seqs::remove_value(s1, to)));
            lemma_flat_update(rows1, from as int, crate::seqs::remove_value(s1, to));
            lemma_remove_value_nodup(s1, to);
            let s2 = crate::seqs::remove_value(s1, to);
            assert(s1.contains(to)) by {
                assert(s1[idx as int] == to);
            }
            assert forall|v: int| 0 <= v < self.rows().len() implies nodup(
                #[trigger] self.rows()[v],
            ) by {
                if v != from as int {
                    assert(self.rows()[v] == rows1[v]);
                }
            }
            assert forall|u: int, j: int|
                0 <= u < self.rows().len() && 0 <= j < self.rows()[u].len() implies (
            #[trigger] self.rows()[u][j] as int) < self.rows().len() && !self.deleted@[self.rows()[
                u][j] as int] by {
                if u == from as int {
                    assert(s2.contains(s2[j]));
                    assert(s1.contains(s2[j]));
                    let k = choose|k: int| 0 <= k < s1.len() && #[trigger] s1[k] == s2[j];
                } else {
                    assert(self.rows()[u] == rows1[u]);
                }
            }
        }
        Ok(())
    }
}

impl Digraph {
    /// Remove `v` from the graph: its incident edges are deleted at once and
    /// the slot is marked absent, keeping every other index stable.
    pub fn delete_vertex(&mut self, v: usize) -> (r: Result<(), GraphError>)
        requires
            old(self).wf(),
        ensures
            r is Ok <==> old(self).exists_spec(v as int),
            r is Err ==> *final(self) == *old(self) && r == Err::<(), GraphError>(
                GraphError::VertexNotFound,
            ),
            r is Ok ==> {
                &&& final(self).wf()
                &&& final(self).rows().len() == old(self).rows().len()
                &&& final(self).rows()[v as int].len() == 0
                &&& forall|u: int|
                    0 <= u < old(self).rows().len() && u != v as int
                        ==> #[trigger] final(self).rows()[u] == crate::seqs::remove_value(
                        old(self).rows()[u],
                        v,
                    )
                &&& forall|w: int|
                    final(self).exists_spec(w) == (old(self).exists_spec(w) && w != v as int)
            },
    {
        if !self.vertex_exists(v) {
            return Err(GraphError::VertexNotFound);
        }
        let ghost rows1 = self.rows();
        let n = self.adj.len();
        let mut u: usize = 0;
        while u < n
            invariant
                self.wf(),
                old(self).wf(),
                n == self.adj.len(),
                n == rows1.len(),
                rows1 == old(self).rows(),
                u <= n,
                (v as int) < n,
                self.deleted == old(self).deleted,
                self.deleted_count == old(self).deleted_count,
                forall|x: int|
                    0 <= x < u && x != v as int ==> #[trigger] self.rows()[x]
                        == crate::seqs::remove_value(rows1[x], v),
                forall|x: int|
                    (u <= x < n || x == v as int) ==> #[trigger] self.rows()[x] == rows1[x],
            decreases n - u,
        {
            if u != v {
                proof {
                    assert(self.rows()[u as int] == self.adj@[u as int]@);
                }
                if vec_contains(&self.adj[u], v) {
                    let res = self.delete_edge(u, v);
                    proof {
                        assert(res is Ok);
                        assert forall|x: int| (u + 1 <= x < n || x == v as int) implies
                            #[trigger] self.rows()[x] == rows1[x] by {
                            assert(x != u as int);
                        }
                    }
                } else {
                    proof {
                        crate::seqs::lemma_remove_value_absent(rows1[u as int], v);
                    }
                }
            }
            u += 1;
        }
        // clear the row of `v` and mark the slot absent
        let ghost rows2 = self.rows();
        proof {
            crate::encoding::lemma_flat_row_le(rows2, v as int);
        }
        let row_len = self.adj[v].len();
        proof {
            assert(self.rows()[v as int] == self.adj@[v as int]@);
        }
        let row = get_row_mut(&mut self.adj, v);
        *row = Vec::new();
        self.e_count = self.e_count - row_len;
        let flag = get_row_mut(&mut self.deleted, v);
        *flag = true;
        proof {
            crate::seqs::lemma_count_ones_bounds(old(self).deleted@.update(v as int, true));
            crate::seqs::lemma_count_ones_update(old(self).deleted@, v as int, true);
        }
        self.deleted_count = self.deleted_count + 1;
        proof {
            assert(self.rows() =~~= rows2.update(v as int, Seq::<usize>::empty()));
            lemma_flat_update(rows2, v as int, Seq::<usize>::empty());
            assert forall|u2: int, j: int|
                0 <= u2 < self.rows().len() && 0 <= j < self.rows()[u2].len() implies (
            #[trigger] self.rows()[u2][j] as int) < self.rows().len() && !self.deleted@[self.rows()[
                u2][j] as int] by {
                assert(u2 != v as int);
                let s2 = self.rows()[u2];
                assert(s2 == crate::seqs::remove_value(rows1[u2], v));
                crate::seqs::lemma_remove_value_nodup(rows1[u2], v);
                assert(s2.contains(s2[j]));
                assert(rows1[u2].contains(s2[j]) && s2[j] != v);
                let k = choose|k: int| 0 <= k < rows1[u2].len() && #[trigger] rows1[u2][k] == s2[j];
            }
            assert forall|u2: int| 0 <= u2 < self.rows().len() implies nodup(
                #[trigger] self.rows()[u2],
            ) by {
                if u2 != v as int {
                    crate::seqs::lemma_remove_value_nodup(rows1[u2], v);
                }
            }
        }
        Ok(())
    }

    /// Make `v` present.  Rejected when it already exists; an index beyond
    /// the slots grows the graph, the slots in between staying absent.
    pub fn add_vertex(&mut self, v: usize) -> (r: Result<usize, GraphError>)
        requires
            old(self).wf(),
            v < usize::MAX,
        ensures
            r is Ok <==> !old(self).exists_spec(v as int),
            r is Err ==> *final(self) == *old(self) && r == Err::<usize, GraphError>(
                GraphError::VertexExists,
            ),
            r is Ok ==> {
                &&& r == Ok::<usize, GraphError>(v)
                &&& final(self).wf()
                &&& final(self).rows().len() as int == if (v as int) < old(self).rows().len() {
                    old(self).rows().len() as int
                } else {
                    v as int + 1
                }
                &&& forall|w: int|
                    final(self).exists_spec(w) == (old(self).exists_spec(w) || w == v as int)
                &&& forall|u: int|
                    0 <= u < old(self).rows().len() ==> #[trigger] final(self).rows()[u] == old(
                        self,
                    ).rows()[u]
                &&& forall|u: int|
                    old(self).rows().len() <= u < final(self).rows().len()
                        ==> (#[trigger] final(self).rows()[u]).len() == 0
                &&& final(self).e_count == old(self).e_count
            },
    {
        if self.vertex_exists(v) {
            return Err(GraphError::VertexExists);
        }
        if v < self.adj.len() {
            // the slot is there but absent: its row is empty by the
            // isolation invariant, so flipping the flag is enough
            let ghost rows1 = self.rows();
            proof {
                crate::seqs::lemma_count_ones_bounds(self.deleted@.update(v as int, false));
                crate::seqs::lemma_count_ones_update(self.deleted@, v as int, false);
            }
            let flag = get_row_mut(&mut self.deleted, v);
            *flag = false;
            self.deleted_count = self.deleted_count - 1;
            proof {
                assert(self.rows() == rows1);
            }
            return Ok(v);
        }
        let ghost rows1 = self.rows();
        let start_len = self.adj.len();
        let ghost old_len = self.adj.len() as int;
        while self.adj.len() < v
            invariant
                old(self).wf(),
                rows1 == old(self).rows(),
                old_len == start_len as int,
                old_len <= self.adj.len() as int <= v < usize::MAX,
                old_len == rows1.len(),
                self.deleted@.len() == self.adj@.len(),
                self.e_count == old(self).e_count,
                self.deleted_count == old(self).deleted_count,
                forall|u: int| 0 <= u < old_len ==> self.adj@[u] == old(self).adj@[u],
                forall|u: int| 0 <= u < old_len ==> self.deleted@[u] == old(self).deleted@[u],
                forall|u: int|
                    old_len <= u < self.adj@.len() ==> (#[trigger] self.adj@[u]@).len() == 0
                        && self.deleted@[u],
            decreases v - self.adj.len(),
        {
            self.adj.push(Vec::new());
            self.deleted.push(true);
        }
        self.adj.push(Vec::new());
        self.deleted.push(false);
        proof {
            assert(self.deleted@.len() == v + 1);
            assert forall|u: int| old_len <= u < v implies self.deleted@[u] by {
                assert(self.adj@[u]@.len() == 0);
            }
            assert(!self.deleted@[v as int]);
            let tail = self.deleted@.skip(old_len);
            assert(tail =~= crate::seqs::trues((v - old_len) as nat).push(false));
            assert(tail.drop_last() =~= crate::seqs::trues((v - old_len) as nat));
            crate::seqs::lemma_count_ones_trues((v - old_len) as nat);
            assert(count_ones(tail) == v - old_len);
            lemma_count_ones_tail(self.deleted@, old_len, old(self).deleted@);
            crate::seqs::lemma_count_ones_bounds(old(self).deleted@);
            assert forall|u: int|
                0 <= u < self.rows().len() implies #[trigger] self.rows()[u] == (if u < old_len {
                rows1[u]
            } else {
                Seq::<usize>::empty()
            }) by {
                if u < old_len {
                    assert(self.adj@[u] == old(self).adj@[u]);
                    assert(self.rows()[u] =~= rows1[u]);
                } else {
                    assert(self.rows()[u] =~= Seq::<usize>::empty());
                }
            }
            lemma_flat_tail_empty(self.rows(), old_len, rows1);
        }
        self.deleted_count = self.deleted_count + (v - start_len);
        proof {
            assert forall|u2: int, j: int|
                0 <= u2 < self.rows().len() && 0 <= j < self.rows()[u2].len() implies (
            #[trigger] self.rows()[u2][j] as int) < self.rows().len() && !self.deleted@[self.rows()[
                u2][j] as int] by {
                assert(u2 < old_len);
                assert(self.rows()[u2] == rows1[u2]);
            }
            assert forall|u2: int| 0 <= u2 < self.rows().len() implies nodup(
                #[trigger] self.rows()[u2],
            ) by {
                if u2 < old_len {
                    assert(self.rows()[u2] == rows1[u2]);
                }
            }
        }
        Ok(v)
    }
}

/// Appended all-but-last-set flags: counting helper for grown graphs.
proof fn lemma_count_ones_tail(s: Seq<bool>, old_len: int, pre: Seq<bool>)
    requires
        0 <= old_len <= s.len(),
        pre.len() == old_len,
        forall|u: int| 0 <= u < old_len ==> s[u] == pre[u],
    ensures
        count_ones(s) == count_ones(pre) + count_ones(s.skip(old_len)),
{
    assert(s =~= s.take(old_len) + s.skip(old_len));
    assert(s.take(old_len) =~= pre);
    crate::seqs::lemma_count_ones_concat(pre, s.skip(old_len));
}

/// Appended empty rows leave the flat sequence alone.
proof fn lemma_flat_tail_empty(rows: Seq<Seq<usize>>, old_len: int, pre: Seq<Seq<usize>>)
    requires
        0 <= old_len <= rows.len(),
        pre.len() == old_len,
        forall|u: int| 0 <= u < old_len ==> rows[u] == pre[u],
        forall|u: int| old_len <= u < rows.len() ==> (#[trigger] rows[u]).len() == 0,
    ensures
        flat_of(rows).len() == flat_of(pre).len(),
    decreases rows.len() - old_len,
{
    if rows.len() == old_len {
        assert(rows =~= pre);
    } else {
        lemma_flat_tail_empty(rows.drop_last(), old_len, pre);
        assert(rows.last().len() == 0);
    }
}

} // verus!
