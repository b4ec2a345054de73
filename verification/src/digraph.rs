//! The wavelet-tree directed graph: a succinct committed layer plus an
//! overlay of pending edits.
//!
//! Queries come in two flavours: the committed ones read the succinct layer
//! alone, the `_updated` ones replay the overlay.  `commit_edits` rebuilds
//! the succinct layer from the updated view, `discard_edits` drops the
//! overlay, and `shrink` also renumbers the surviving vertices.  The model
//! every contract speaks of is [`crate::overlay::UState`].

use crate::adjacency::{incoming_list, CompactAdjacency};
use crate::encoding::{flat_of, marks_of};
use crate::overlay::{
    apply_edits, lemma_apply_edits_push_add, lemma_apply_edits_push_delete,
    lemma_counts_congruence, lemma_counts_turnoff, lemma_in_upto_le_ecount, lemma_in_upto_props,
    lemma_vis_filter_congruence, lemma_vis_filter_props, UState,
};
use crate::seqs::{
    count_ones, lemma_count_ones_bounds, lemma_remove_value_absent, lemma_remove_value_first,
    nodup,
};
use crate::wavelet::SYMBOL_LIMIT;
use crate::{Edit, GraphError};
use vstd::prelude::*;

verus! {

/// One directed edge, as a pair of vertex indices.
pub struct Edge {
    pub from: usize,
    pub to: usize,
}

impl Edge {
    pub fn new(from: usize, to: usize) -> (r: Self)
        ensures
            r.from == from,
            r.to == to,
    {
        Edge { from, to }
    }
}

pub(crate) fn vec_contains(v: &Vec<usize>, x: usize) -> (r: bool)
    ensures
        r == v@.contains(x),
{
    let mut i: usize = 0;
    while i < v.len()
        invariant
            i <= v.len(),
            forall|j: int| 0 <= j < i ==> v@[j] != x,
        decreases v.len() - i,
    {
        if v[i] == x {
            return true;
        }
        i += 1;
    }
    false
}

pub(crate) fn find_first(v: &Vec<usize>, x: usize) -> (r: Option<usize>)
    ensures
        r matches Some(i) ==> i < v@.len() && v@[i as int] == x && forall|j: int|
            0 <= j < i ==> v@[j] != x,
        r is None ==> !v@.contains(x),
{
    let mut i: usize = 0;
    while i < v.len()
        invariant
            i <= v.len(),
            forall|j: int| 0 <= j < i ==> v@[j] != x,
        decreases v.len() - i,
    {
        if v[i] == x {
            return Some(i);
        }
        i += 1;
    }
    None
}

pub(crate) fn get_row_mut<T>(v: &mut Vec<T>, i: usize) -> (r: &mut T)
    requires
        i < old(v).len(),
    ensures
        *r == old(v)@[i as int],
        final(v)@ == old(v)@.update(i as int, *final(r)),
{
    &mut v[i]
}

/// An indexed wavelet-tree digraph: the succinct committed layer, the
/// committed removed set, and the overlay of uncommitted edits with its
/// incrementally maintained counters.
pub struct WTDigraph {
    pub ca: CompactAdjacency,
    /// Committed removed flags, one per committed slot.
    pub deleted_vertices: Vec<bool>,
    /// Number of set committed removed flags.
    pub deleted_count: usize,
    /// Number of slots in the updated view.
    pub wt_adj_len_updated: usize,
    /// Number of existing vertices in the updated view.
    pub v_count_updated: usize,
    /// Number of visible edges in the updated view.
    pub e_count_updated: usize,
    /// Overlay edit rows, one per updated slot.
    pub adj_uncommitted: Vec<Vec<Edit<usize>>>,
    /// Overlay vertex marks, one per updated slot.
    pub deleted_vertices_uncommitted: Vec<Option<bool>>,
    pub has_uncommitted_edits: bool,
}

impl WTDigraph {
    /// The committed adjacency rows.
    pub open spec fn committed_adj(self) -> Seq<Seq<usize>> {
        self.ca.adjacency@
    }

    /// The model of the updated view.
    pub open spec fn st(self) -> UState {
        UState {
            cadj: self.ca.adjacency@,
            removed: self.deleted_vertices@,
            marks: self.deleted_vertices_uncommitted@,
            edits: self.adj_uncommitted@.map_values(|e: Vec<Edit<usize>>| e@),
        }
    }

    /// Number of existing committed vertices.
    pub open spec fn committed_vcount(self) -> int {
        self.committed_adj().len() - count_ones(self.deleted_vertices@)
    }

    /// Structural well-formedness: the succinct layer encodes the committed
    /// adjacency, the overlay rows line up with the updated slot count,
    /// committed-removed vertices are isolated, and every replayed row is
    /// duplicate-free over updated slots.
    pub open spec fn wf_core(self) -> bool {
        &&& self.ca.wf()
        &&& self.deleted_vertices@.len() == self.committed_adj().len()
        &&& self.adj_uncommitted@.len() == self.wt_adj_len_updated
        &&& self.deleted_vertices_uncommitted@.len() == self.wt_adj_len_updated
        &&& self.committed_adj().len() <= self.wt_adj_len_updated
        &&& forall|v: int|
            0 <= v < self.committed_adj().len() && self.deleted_vertices@[v]
                ==> (#[trigger] self.committed_adj()[v]).len() == 0
        &&& forall|u: int, j: int|
            0 <= u < self.committed_adj().len() && 0 <= j < self.committed_adj()[u].len()
                ==> !self.deleted_vertices@[#[trigger] self.committed_adj()[u][j] as int]
        &&& self.st().rows_ok()
    }

    /// Full well-formedness: the counters match the model.
    pub open spec fn wf(self) -> bool {
        &&& self.wf_core()
        &&& self.deleted_count == count_ones(self.deleted_vertices@)
        &&& self.v_count_updated == self.st().vcount()
        &&& self.e_count_updated == self.st().ecount()
        &&& self.st().ecount() <= SYMBOL_LIMIT
    }

    /// Whether `v` exists in the committed view.
    pub fn vertex_exists(&self, v: usize) -> (r: bool)
        requires
            self.wf_core(),
        ensures
            r == self.st().exists_c(v as int),
    {
        if v < self.ca.v_count_committed() {
            !self.deleted_vertices[v]
        } else {
            false
        }
    }

    /// Whether `v` exists in the updated view.
    pub fn vertex_exists_updated(&self, v: usize) -> (r: bool)
        requires
            self.wf_core(),
        ensures
            r == self.st().exists_u(v as int),
    {
        if v >= self.wt_adj_len_updated {
            return false;
        }
        match self.deleted_vertices_uncommitted[v] {
            Some(m) => !m,
            None => self.vertex_exists(v),
        }
    }

    /// Number of vertices in the committed view.
    pub fn v_count(&self) -> (r: usize)
        requires
            self.wf(),
        ensures
            r == self.committed_vcount(),
    {
        proof {
            lemma_count_ones_bounds(self.deleted_vertices@);
        }
        self.ca.v_count_committed() - self.deleted_count
    }

    /// Number of edges in the committed view.
    pub fn e_count(&self) -> (r: usize)
        requires
            self.wf_core(),
        ensures
            r == flat_of(self.committed_adj()).len(),
    {
        self.ca.e_count_committed()
    }

    /// Number of vertices in the updated view.
    pub fn v_count_updated(&self) -> (r: usize)
        requires
            self.wf(),
        ensures
            r == self.st().vcount(),
    {
        self.v_count_updated
    }

    /// Number of visible edges in the updated view.
    pub fn e_count_updated(&self) -> (r: usize)
        requires
            self.wf(),
        ensures
            r == self.st().ecount(),
    {
        self.e_count_updated
    }

    /// The committed outgoing neighbours of `v`, in stored order.
    pub fn outgoing_edges(&self, v: usize) -> (r: Result<Vec<usize>, GraphError>)
        requires
            self.wf_core(),
        ensures
            r is Ok <==> self.st().exists_c(v as int),
            r matches Ok(row) ==> row@ == self.committed_adj()[v as int],
    {
        if !self.vertex_exists(v) {
            return Err(GraphError::VertexNotFound);
        }
        Ok(self.ca.outgoing(v))
    }

    /// The committed vertices with an edge into `v`, in ascending order.
    pub fn incoming_edges(&self, v: usize) -> (r: Result<Vec<usize>, GraphError>)
        requires
            self.wf_core(),
        ensures
            r is Ok <==> self.st().exists_c(v as int),
            r matches Ok(row) ==> row@ == incoming_list(self.committed_adj(), v),
    {
        if !self.vertex_exists(v) {
            return Err(GraphError::VertexNotFound);
        }
        Ok(self.ca.incoming(v))
    }

    /// Whether the committed view has an edge from `from` to `to`.
    pub fn edge_exists(&self, from: usize, to: usize) -> (r: bool)
        requires
            self.wf_core(),
        ensures
            r == (self.st().exists_c(from as int) && self.st().exists_c(to as int)
                && self.committed_adj()[from as int].contains(to)),
    {
        if !self.vertex_exists(from) || !self.vertex_exists(to) {
            return false;
        }
        self.ca.edge_exists(from, to)
    }

    /// The committed row of `v` with the overlay edits replayed, before the
    /// existence filter.
    pub(crate) fn replay_list(&self, v: usize) -> (r: Vec<usize>)
        requires
            self.wf_core(),
            v < self.wt_adj_len_updated,
        ensures
            r@ == self.st().replay_row(v as int),
    {
        let ghost base = self.st().base_row(v as int);
        let mut acc: Vec<usize> = if v < self.ca.v_count_committed() {
            self.ca.outgoing(v)
        } else {
            Vec::new()
        };
        proof {
            assert(acc@ == base);
        }
        let edits = &self.adj_uncommitted[v];
        let ghost edits_seq = edits@;
        let mut i: usize = 0;
        proof {
            assert(edits_seq.take(0) =~= Seq::<Edit<usize>>::empty());
            assert(apply_edits(base, edits_seq.take(0)) == base);
        }
        while i < edits.len()
            invariant
                i <= edits.len(),
                edits_seq == edits@,
                acc@ == apply_edits(base, edits_seq.take(i as int)),
            decreases edits.len() - i,
        {
            let ghost prev = acc@;
            match &edits[i] {
                Edit::Add(w) => {
                    acc.push(*w);
                    proof {
                        lemma_apply_edits_push_add(base, edits_seq.take(i as int), edits_seq[i as int]->Add_0);
                    }
                },
                Edit::Delete(w) => {
                    match find_first(&acc, *w) {
                        Some(idx) => {
                            acc.remove(idx);
                            proof {
                                lemma_remove_value_first(prev, edits_seq[i as int]->Delete_0, idx as int);
                                lemma_apply_edits_push_delete(base, edits_seq.take(i as int), edits_seq[i as int]->Delete_0);
                            }
                        },
                        None => {
                            proof {
                                lemma_remove_value_absent(prev, edits_seq[i as int]->Delete_0);
                                lemma_apply_edits_push_delete(base, edits_seq.take(i as int), edits_seq[i as int]->Delete_0);
                            }
                        },
                    }
                },
            }
            proof {
                assert(edits_seq.take(i + 1) =~= edits_seq.take(i as int).push(edits_seq[i as int]));
            }
            i += 1;
        }
        proof {
            assert(edits_seq.take(edits.len() as int) =~= edits_seq);
            assert(self.st().edits[v as int] == self.adj_uncommitted@[v as int]@);
        }
        acc
    }

    /// The updated outgoing neighbours of `v`: committed row, edits
    /// replayed, endpoints that no longer exist filtered out.
    pub fn outgoing_edges_updated(&self, v: usize) -> (r: Result<Vec<usize>, GraphError>)
        requires
            self.wf_core(),
        ensures
            r is Ok <==> self.st().exists_u(v as int),
            r matches Ok(row) ==> row@ == self.st().vis_row(v as int),
    {
        if !self.vertex_exists_updated(v) {
            return Err(GraphError::VertexNotFound);
        }
        let rep = self.replay_list(v);
        let mut out: Vec<usize> = Vec::new();
        let mut i: usize = 0;
        proof {
            assert(rep@.take(0) =~= Seq::<usize>::empty());
            assert(out@ =~= self.st().vis_filter(rep@.take(0)));
        }
        while i < rep.len()
            invariant
                self.wf_core(),
                i <= rep.len(),
                rep@ == self.st().replay_row(v as int),
                out@ == self.st().vis_filter(rep@.take(i as int)),
            decreases rep.len() - i,
        {
            let w = rep[i];
            proof {
                assert(rep@.take(i + 1) =~= rep@.take(i as int).push(w));
                assert(rep@.take(i + 1).drop_last() =~= rep@.take(i as int));
            }
            if self.vertex_exists_updated(w) {
                out.push(w);
                proof {
                    assert(out@ =~= self.st().vis_filter(rep@.take(i + 1)));
                }
            } else {
                proof {
                    assert(out@ =~= self.st().vis_filter(rep@.take(i + 1)));
                }
            }
            i += 1;
        }
        proof {
            assert(rep@.take(rep.len() as int) =~= rep@);
        }
        Ok(out)
    }

    /// The updated vertices with a visible edge into `v`, ascending.  Slower
    /// than the committed query: it walks every updated slot.
    pub fn incoming_edges_updated(&self, v: usize) -> (r: Result<Vec<usize>, GraphError>)
        requires
            self.wf_core(),
        ensures
            r is Ok <==> self.st().exists_u(v as int),
            r matches Ok(row) ==> row@ == self.st().in_list(v),
    {
        if !self.vertex_exists_updated(v) {
            return Err(GraphError::VertexNotFound);
        }
        let mut acc: Vec<usize> = Vec::new();
        let mut u: usize = 0;
        proof {
            assert(acc@ =~= self.st().in_upto(v, 0));
        }
        while u < self.wt_adj_len_updated
            invariant
                self.wf_core(),
                u <= self.wt_adj_len_updated,
                acc@ == self.st().in_upto(v, u as int),
            decreases self.wt_adj_len_updated - u,
        {
            if self.vertex_exists_updated(u) {
                let rep = self.replay_list(u);
                if vec_contains(&rep, v) {
                    acc.push(u);
                    proof {
                        assert(acc@ =~= self.st().in_upto(v, u + 1));
                    }
                } else {
                    proof {
                        assert(acc@ =~= self.st().in_upto(v, u + 1));
                    }
                }
            } else {
                proof {
                    assert(acc@ =~= self.st().in_upto(v, u + 1));
                }
            }
            u += 1;
        }
        Ok(acc)
    }

    /// Whether the updated view has a visible edge from `from` to `to`.
    pub fn edge_exists_updated(&self, from: usize, to: usize) -> (r: bool)
        requires
            self.wf_core(),
        ensures
            r == self.st().has_edge(from as int, to),
    {
        if !self.vertex_exists_updated(from) || !self.vertex_exists_updated(to) {
            return false;
        }
        let rep = self.replay_list(from);
        vec_contains(&rep, to)
    }
}

/// Validity of a plain adjacency list against its declared counts: the row
/// count matches, the total neighbour count matches and stays within the
/// symbol cap, every neighbour is a valid vertex, and no row repeats one.
pub open spec fn adjacency_ok(v_count: int, e_count: int, rows: Seq<Seq<usize>>) -> bool {
    &&& rows.len() == v_count
    &&& flat_of(rows).len() == e_count
    &&& e_count <= SYMBOL_LIMIT
    &&& forall|v: int, j: int|
        0 <= v < rows.len() && 0 <= j < rows[v].len() ==> (#[trigger] rows[v][j] as int)
            < rows.len()
    &&& forall|v: int| 0 <= v < rows.len() ==> nodup(#[trigger] rows[v])
}

pub(crate) fn row_in_range(row: &Vec<usize>, v_count: usize) -> (r: bool)
    ensures
        r == forall|j: int| 0 <= j < row@.len() ==> (#[trigger] row@[j] as int) < v_count,
{
    let mut j: usize = 0;
    while j < row.len()
        invariant
            j <= row.len(),
            forall|k: int| 0 <= k < j ==> (#[trigger] row@[k] as int) < v_count,
        decreases row.len() - j,
    {
        if row[j] >= v_count {
            return false;
        }
        j += 1;
    }
    true
}

pub(crate) fn row_nodup(row: &Vec<usize>) -> (r: bool)
    ensures
        r == nodup(row@),
{
    let mut j: usize = 1;
    if row.len() == 0 {
        return true;
    }
    while j < row.len()
        invariant
            1 <= j <= row.len(),
            forall|a: int, b: int| 0 <= a < b < j ==> row@[a] != row@[b],
        decreases row.len() - j,
    {
        let mut k: usize = 0;
        while k < j
            invariant
                k <= j < row.len(),
                forall|a: int| 0 <= a < k ==> row@[a] != row@[j as int],
                forall|a: int, b: int| 0 <= a < b < j ==> row@[a] != row@[b],
            decreases j - k,
        {
            if row[k] == row[j] {
                return false;
            }
            k += 1;
        }
        j += 1;
    }
    true
}

impl WTDigraph {
    /// The empty graph: no vertices, no edges, no pending edits.
    pub fn new() -> (r: WTDigraph)
        ensures
            r.wf(),
            r.committed_adj().len() == 0,
            r.st().len_u() == 0,
            r.st().ecount() == 0,
            r.st().vcount() == 0,
            !r.has_uncommitted_edits,
    {
        let rows: Vec<Vec<usize>> = Vec::new();
        proof {
            assert(rows.deep_view() =~= Seq::<Seq<usize>>::empty());
            crate::encoding::lemma_sizes(rows.deep_view());
        }
        let ca = CompactAdjacency::build(&rows);
        let r = WTDigraph {
            ca,
            deleted_vertices: Vec::new(),
            deleted_count: 0,
            wt_adj_len_updated: 0,
            v_count_updated: 0,
            e_count_updated: 0,
            adj_uncommitted: Vec::new(),
            deleted_vertices_uncommitted: Vec::new(),
            has_uncommitted_edits: false,
        };
        proof {
            crate::seqs::lemma_count_ones_zero(r.deleted_vertices@);
        }
        r
    }

    /// Build a graph from a plain adjacency list.  The declared counts must
    /// match the list exactly; a mismatch, an out-of-range neighbour, a
    /// repeated neighbour, or an edge count above the symbol cap is
    /// rejected.
    pub fn from_adjacency_list(v_count: usize, e_count: usize, adj: Vec<Vec<usize>>) -> (r:
        Result<WTDigraph, GraphError>)
        ensures
            r is Ok <==> adjacency_ok(v_count as int, e_count as int, adj.deep_view()),
            r matches Ok(g) ==> {
                &&& g.wf()
                &&& g.committed_adj() == adj.deep_view()
                &&& g.committed_vcount() == v_count
                &&& forall|k: int|
                    0 <= k < g.deleted_vertices@.len() ==> !(#[trigger] g.deleted_vertices@[k])
                &&& flat_of(g.committed_adj()).len() == e_count
                &&& g.st().len_u() == v_count
                &&& g.st().vcount() == v_count
                &&& g.st().ecount() == e_count
                &&& forall|w: int| g.st().exists_u(w) == (0 <= w < v_count)
                &&& forall|v: int|
                    0 <= v < v_count ==> #[trigger] g.st().replay_row(v) == g.committed_adj()[v]
                &&& !g.has_uncommitted_edits
            },
    {
        let ghost rows = adj.deep_view();
        if adj.len() != v_count {
            return Err(GraphError::InvalidAdjacency);
        }
        if e_count > SYMBOL_LIMIT {
            return Err(GraphError::InvalidAdjacency);
        }
        let mut total: usize = 0;
        let mut v: usize = 0;
        proof {
            assert(rows.take(0) =~= Seq::<Seq<usize>>::empty());
        }
        while v < adj.len()
            invariant
                v <= adj.len(),
                rows == adj.deep_view(),
                rows.len() == adj.len(),
                rows.len() == v_count,
                e_count <= SYMBOL_LIMIT,
                total <= e_count,
                total == flat_of(rows.take(v as int)).len(),
                forall|u: int, j: int|
                    0 <= u < v && 0 <= j < rows[u].len() ==> (#[trigger] rows[u][j] as int)
                        < rows.len(),
                forall|u: int| 0 <= u < v ==> nodup(#[trigger] rows[u]),
            decreases adj.len() - v,
        {
            let row = &adj[v];
            proof {
                assert(rows[v as int] == adj@[v as int]@);
                crate::encoding::lemma_take_succ(rows, v as int);
            }
            if !row_in_range(row, v_count) {
                return Err(GraphError::InvalidAdjacency);
            }
            if !row_nodup(row) {
                return Err(GraphError::InvalidAdjacency);
            }
            if row.len() > e_count - total {
                // the running total already exceeds the declared edge count
                proof {
                    crate::encoding::lemma_prefix(rows, v as int + 1);
                    crate::encoding::lemma_sizes(rows.take(v as int + 1));
                    crate::encoding::lemma_start_of_take(rows, v as int + 1, v as int + 1);
                    assert(flat_of(rows.take(v as int + 1)).len() == crate::encoding::start_of(
                        rows,
                        v as int + 1,
                    ));
                    assert(flat_of(rows).len() >= flat_of(rows.take(v as int + 1)).len());
                }
                return Err(GraphError::InvalidAdjacency);
            }
            total = total + row.len();
            v += 1;
        }
        proof {
            assert(rows.take(adj.len() as int) =~= rows);
        }
        if total != e_count {
            return Err(GraphError::InvalidAdjacency);
        }
        let ca = CompactAdjacency::build(&adj);
        let mut deleted_vertices: Vec<bool> = Vec::new();
        let mut adj_uncommitted: Vec<Vec<Edit<usize>>> = Vec::new();
        let mut deleted_vertices_uncommitted: Vec<Option<bool>> = Vec::new();
        let mut i: usize = 0;
        while i < v_count
            invariant
                i <= v_count,
                deleted_vertices@.len() == i,
                adj_uncommitted@.len() == i,
                deleted_vertices_uncommitted@.len() == i,
                forall|k: int| 0 <= k < i ==> !(#[trigger] deleted_vertices@[k]),
                forall|k: int| 0 <= k < i ==> (#[trigger] adj_uncommitted@[k]@).len() == 0,
                forall|k: int| 0 <= k < i ==> (#[trigger] deleted_vertices_uncommitted@[k]) is None,
            decreases v_count - i,
        {
            deleted_vertices.push(false);
            adj_uncommitted.push(Vec::new());
            deleted_vertices_uncommitted.push(None);
            i += 1;
        }
        let g = WTDigraph {
            ca,
            deleted_vertices,
            deleted_count: 0,
            wt_adj_len_updated: v_count,
            v_count_updated: v_count,
            e_count_updated: e_count,
            adj_uncommitted,
            deleted_vertices_uncommitted,
            has_uncommitted_edits: false,
        };
        proof {
            let st = g.st();
            assert(st.edits.len() == v_count);
            assert forall|k: int| 0 <= k < v_count implies (#[trigger] st.edits[k]).len() == 0 by {
                assert(st.edits[k] == g.adj_uncommitted@[k]@);
            }
            assert forall|k: int| 0 <= k < v_count implies #[trigger] st.replay_row(k)
                == g.committed_adj()[k] by {
                assert(st.edits[k] =~= Seq::<Edit<usize>>::empty());
            }
            crate::overlay::lemma_committed_counts(st, v_count as int);
            crate::encoding::lemma_sizes(rows);
            assert(st.removed.take(v_count as int) =~= st.removed);
            crate::seqs::lemma_count_ones_zero(g.deleted_vertices@);
            crate::seqs::lemma_count_ones_zero(st.removed.take(v_count as int));
            assert(st.rows_ok());
        }
        Ok(g)
    }

    /// Buffer a new edge from `from` to `to`.  Both endpoints must exist in
    /// the updated view and the edge must not already be visible there.
    pub fn add_edge(&mut self, from: usize, to: usize) -> (r: Result<(), GraphError>)
        requires
            old(self).wf(),
            old(self).st().ecount() < SYMBOL_LIMIT,
        ensures
            r is Ok <==> (old(self).st().exists_u(from as int) && old(self).st().exists_u(
                to as int,
            ) && !old(self).st().replay_row(from as int).contains(to)),
            r is Err ==> *final(self) == *old(self),
            r == Err::<(), GraphError>(GraphError::VertexNotFound) <==> !(old(self).st().exists_u(
                from as int,
            ) && old(self).st().exists_u(to as int)),
            r == Err::<(), GraphError>(GraphError::EdgeExists) <==> (old(self).st().exists_u(
                from as int,
            ) && old(self).st().exists_u(to as int) && old(self).st().replay_row(
                from as int,
            ).contains(to)),
            r is Ok ==> {
                &&& final(self).wf()
                &&& final(self).ca == old(self).ca
                &&& final(self).deleted_vertices == old(self).deleted_vertices
                &&& final(self).wt_adj_len_updated == old(self).wt_adj_len_updated
                &&& forall|w: int| final(self).st().exists_u(w) == old(self).st().exists_u(w)
                &&& final(self).st().replay_row(from as int) == old(self).st().replay_row(
                    from as int,
                ).push(to)
                &&& forall|u: int|
                    0 <= u < old(self).st().len_u() && u != from as int
                        ==> #[trigger] final(self).st().replay_row(u) == old(self).st().replay_row(u)
                &&& final(self).e_count_updated == old(self).e_count_updated + 1
                &&& final(self).v_count_updated == old(self).v_count_updated
                &&& final(self).has_uncommitted_edits
            },
    {
        if !self.vertex_exists_updated(from) || !self.vertex_exists_updated(to) {
            return Err(GraphError::VertexNotFound);
        }
        if self.edge_exists_updated(from, to) {
            return Err(GraphError::EdgeExists);
        }
        let ghost st1 = self.st();
        let row = get_row_mut(&mut self.adj_uncommitted, from);
        row.push(Edit::Add(to));
        self.e_count_updated = self.e_count_updated + 1;
        self.has_uncommitted_edits = true;
        proof {
            let st2 = self.st();
            assert(st2.marks == st1.marks && st2.cadj == st1.cadj && st2.removed == st1.removed);
            assert(st2.edits =~= st1.edits.update(
                from as int,
                st1.edits[from as int].push(Edit::Add(to)),
            ));
            assert forall|u: int| u != from as int && 0 <= u < st2.len_u() implies
                #[trigger] st2.replay_row(u) == st1.replay_row(u) by {
                assert(st2.edits[u] == st1.edits[u]);
            }
            lemma_apply_edits_push_add(st1.base_row(from as int), st1.edits[from as int], to);
            assert(st2.replay_row(from as int) == st1.replay_row(from as int).push(to));
            // the new entry survives the filter, so the count rises by one
            let s1 = st1.replay_row(from as int);
            let s2 = st2.replay_row(from as int);
            assert(s2.drop_last() =~= s1);
            assert(s2.last() == to);
            assert(st2.vis_filter(s2) == st1.vis_filter(s1) + seq![to]) by {
                lemma_vis_filter_congruence(st1, st2, s1);
            }
            crate::overlay::lemma_counts_one_row(st1, st2, from as int, st1.len_u());
            // the fresh row stays duplicate-free and in range
            assert forall|v: int| 0 <= v < st2.len_u() implies nodup(
                #[trigger] st2.replay_row(v),
            ) by {
                if v == from as int {
                    assert(forall|j: int| 0 <= j < s1.len() ==> s2[j] == s1[j]);
                    assert(s2[s2.len() - 1] == to);
                    assert(!s1.contains(to));
                    assert forall|a: int, b: int| 0 <= a < b < s2.len() implies s2[a] != s2[b] by {
                        if b == s2.len() - 1 {
                            assert(s2[a] == s1[a]);
                            assert(s1.contains(s1[a]));
                        }
                    }
                }
            }
            assert forall|v: int, j: int|
                0 <= v < st2.len_u() && 0 <= j < st2.replay_row(v).len() implies (
            #[trigger] st2.replay_row(v)[j] as int) < st2.len_u() by {
                if v == from as int {
                    if j < s1.len() {
                        assert(s2[j] == s1[j]);
                    }
                } else {
                    assert(st2.replay_row(v) == st1.replay_row(v));
                }
            }
        }
        Ok(())
    }

    /// Buffer the deletion of the edge from `from` to `to`, which must be
    /// visible in the updated view.
    pub fn delete_edge(&mut self, from: usize, to: usize) -> (r: Result<(), GraphError>)
        requires
            old(self).wf(),
        ensures
            r is Ok <==> old(self).st().has_edge(from as int, to),
            r is Err ==> *final(self) == *old(self),
            r == Err::<(), GraphError>(GraphError::VertexNotFound) <==> !(old(self).st().exists_u(
                from as int,
            ) && old(self).st().exists_u(to as int)),
            r == Err::<(), GraphError>(GraphError::EdgeNotFound) <==> (old(self).st().exists_u(
                from as int,
            ) && old(self).st().exists_u(to as int) && !old(self).st().replay_row(
                from as int,
            ).contains(to)),
            r is Ok ==> {
                &&& final(self).wf()
                &&& final(self).ca == old(self).ca
                &&& final(self).deleted_vertices == old(self).deleted_vertices
                &&& final(self).wt_adj_len_updated == old(self).wt_adj_len_updated
                &&& forall|w: int| final(self).st().exists_u(w) == old(self).st().exists_u(w)
                &&& final(self).st().replay_row(from as int) == crate::seqs::remove_value(
                    old(self).st().replay_row(from as int),
                    to,
                )
                &&& forall|u: int|
                    0 <= u < old(self).st().len_u() && u != from as int
                        ==> #[trigger] final(self).st().replay_row(u) == old(self).st().replay_row(u)
                &&& final(self).e_count_updated == old(self).e_count_updated - 1
                &&& final(self).v_count_updated == old(self).v_count_updated
                &&& final(self).has_uncommitted_edits
            },
    {
        if !self.vertex_exists_updated(from) || !self.vertex_exists_updated(to) {
            return Err(GraphError::VertexNotFound);
        }
        if !self.edge_exists_updated(from, to) {
            return Err(GraphError::EdgeNotFound);
        }
        let ghost st1 = self.st();
        proof {
            assert(nodup(st1.replay_row(from as int)));
            lemma_vis_filter_props(st1, st1.replay_row(from as int));
            assert(st1.vis_row(from as int).contains(to));
            let i = choose|i: int|
                0 <= i < st1.vis_row(from as int).len() && #[trigger] st1.vis_row(from as int)[i]
                    == to;
            crate::overlay::lemma_vis_row_le_ecount(st1, from as int, st1.len_u());
        }
        let row = get_row_mut(&mut self.adj_uncommitted, from);
        row.push(Edit::Delete(to));
        self.e_count_updated = self.e_count_updated - 1;
        self.has_uncommitted_edits = true;
        proof {
            let st2 = self.st();
            assert(st2.marks == st1.marks && st2.cadj == st1.cadj && st2.removed == st1.removed);
            assert(st2.edits =~= st1.edits.update(
                from as int,
                st1.edits[from as int].push(Edit::Delete(to)),
            ));
            assert forall|u: int| u != from as int && 0 <= u < st2.len_u() implies
                #[trigger] st2.replay_row(u) == st1.replay_row(u) by {
                assert(st2.edits[u] == st1.edits[u]);
            }
            lemma_apply_edits_push_delete(st1.base_row(from as int), st1.edits[from as int], to);
            let s1 = st1.replay_row(from as int);
            let s2 = st2.replay_row(from as int);
            assert(s2 == crate::seqs::remove_value(s1, to));
            crate::seqs::lemma_remove_value_nodup(s1, to);
            // visible length drops by exactly one
            lemma_vis_filter_congruence(st1, st2, s1);
            lemma_vis_filter_congruence(st1, st2, s2);
            lemma_vis_filter_props(st1, s1);
            lemma_vis_filter_props(st1, s2);
            assert forall|y: usize| st1.vis_filter(s2).contains(y) <==> st1.vis_filter(
                s1,
            ).contains(y) && y != to by {
                assert(crate::seqs::remove_value(s1, to).contains(y) <==> s1.contains(y) && y
                    != to);
            }
            assert(st1.vis_filter(s1).contains(to));
            crate::seqs::lemma_nodup_remove_len(
                st1.vis_filter(s1),
                st1.vis_filter(s2),
                to,
            );
            crate::overlay::lemma_counts_one_row(st1, st2, from as int, st1.len_u());
            assert forall|v: int, j: int|
                0 <= v < st2.len_u() && 0 <= j < st2.replay_row(v).len() implies (
            #[trigger] st2.replay_row(v)[j] as int) < st2.len_u() by {
                if v == from as int {
                    assert(s2.contains(s2[j]));
                    assert(s1.contains(s2[j]));
                    let k = choose|k: int| 0 <= k < s1.len() && #[trigger] s1[k] == s2[j];
                } else {
                    assert(st2.replay_row(v) == st1.replay_row(v));
                }
            }
            assert forall|v: int| 0 <= v < st2.len_u() implies nodup(
                #[trigger] st2.replay_row(v),
            ) by {
                if v != from as int {
                    assert(st2.replay_row(v) == st1.replay_row(v));
                }
            }
            // the edge count stays within the cap
            crate::overlay::lemma_ecount_upto_nonneg(st2, st2.len_u());
        }
        Ok(())
    }
}

impl WTDigraph {
    /// The updated edge count the state would have if the overlay mark of
    /// `v` were set to present.
    pub open spec fn readd_ecount(self, v: int) -> int {
        if 0 <= v < self.st().len_u() {
            self.st().with_mark(v, Some(false)).ecount()
        } else {
            self.st().ecount()
        }
    }

    /// Make `v` present in the updated view.  Rejected when `v` already
    /// exists.  Re-adding a slot below the updated slot count flips its mark;
    /// an index beyond it grows the view, the indices in between staying
    /// absent but addressable.
    pub fn add_vertex(&mut self, vertex: usize) -> (r: Result<usize, GraphError>)
        requires
            old(self).wf(),
            vertex < usize::MAX,
            old(self).readd_ecount(vertex as int) <= SYMBOL_LIMIT,
        ensures
            r is Ok <==> !old(self).st().exists_u(vertex as int),
            r is Err ==> *final(self) == *old(self) && r == Err::<usize, GraphError>(
                GraphError::VertexExists,
            ),
            r is Ok ==> {
                &&& r == Ok::<usize, GraphError>(vertex)
                &&& final(self).wf()
                &&& final(self).ca == old(self).ca
                &&& final(self).deleted_vertices == old(self).deleted_vertices
                &&& final(self).st().len_u() == if vertex < old(self).wt_adj_len_updated {
                    old(self).st().len_u()
                } else {
                    vertex + 1
                }
                &&& forall|w: int|
                    final(self).st().exists_u(w) == (old(self).st().exists_u(w) || w
                        == vertex as int)
                &&& forall|u: int|
                    0 <= u < old(self).st().len_u() ==> #[trigger] final(self).st().replay_row(u)
                        == old(self).st().replay_row(u)
                &&& forall|u: int|
                    old(self).st().len_u() <= u < final(self).st().len_u()
                        ==> (#[trigger] final(self).st().replay_row(u)).len() == 0
                &&& final(self).v_count_updated == old(self).v_count_updated + 1
                &&& (vertex >= old(self).wt_adj_len_updated ==> final(self).e_count_updated == old(
                    self,
                ).e_count_updated)
                &&& final(self).has_uncommitted_edits
            },
    {
        if self.vertex_exists_updated(vertex) {
            return Err(GraphError::VertexExists);
        }
        let ghost st1 = self.st();
        if vertex >= self.wt_adj_len_updated {
            // grow the view: the slots in between stay absent
            let ghost old_len = self.wt_adj_len_updated as int;
            while self.wt_adj_len_updated < vertex
                invariant
                    old_len == old(self).wt_adj_len_updated as int,
                    old(self).wt_adj_len_updated <= self.wt_adj_len_updated <= vertex < usize::MAX,
                    self.ca == old(self).ca,
                    self.deleted_vertices == old(self).deleted_vertices,
                    self.deleted_count == old(self).deleted_count,
                    self.v_count_updated == old(self).v_count_updated,
                    self.e_count_updated == old(self).e_count_updated,
                    self.has_uncommitted_edits == old(self).has_uncommitted_edits,
                    self.adj_uncommitted@.len() == self.wt_adj_len_updated,
                    self.deleted_vertices_uncommitted@.len() == self.wt_adj_len_updated,
                    forall|w: int|
                        0 <= w < old_len ==> self.deleted_vertices_uncommitted@[w] == old(
                            self,
                        ).deleted_vertices_uncommitted@[w],
                    forall|w: int|
                        0 <= w < old_len ==> self.adj_uncommitted@[w] == old(
                            self,
                        ).adj_uncommitted@[w],
                    forall|w: int|
                        old_len <= w < self.wt_adj_len_updated
                            ==> #[trigger] self.deleted_vertices_uncommitted@[w] == Some(true),
                    forall|w: int|
                        old_len <= w < self.wt_adj_len_updated ==> (
                        #[trigger] self.adj_uncommitted@[w]@).len() == 0,
                decreases vertex - self.wt_adj_len_updated,
            {
                self.adj_uncommitted.push(Vec::new());
                self.deleted_vertices_uncommitted.push(Some(true));
                self.wt_adj_len_updated = self.wt_adj_len_updated + 1;
            }
            self.adj_uncommitted.push(Vec::new());
            self.deleted_vertices_uncommitted.push(Some(false));
            self.wt_adj_len_updated = self.wt_adj_len_updated + 1;
            proof {
                crate::overlay::lemma_vcount_upto_bounds(st1, st1.len_u());
            }
            self.v_count_updated = self.v_count_updated + 1;
            self.has_uncommitted_edits = true;
            proof {
                let st2 = self.st();
                assert(st2.len_u() == vertex + 1);
                assert forall|w: int| 0 <= w < old_len implies st2.edits[w] == st1.edits[w] by {
                    assert(self.adj_uncommitted@[w] == old(self).adj_uncommitted@[w]);
                }
                assert forall|u: int| old_len <= u < st2.len_u() implies (
                #[trigger] st2.replay_row(u)).len() == 0 by {
                    assert(st2.edits[u] == self.adj_uncommitted@[u]@);
                    assert(st2.edits[u] =~= Seq::<Edit<usize>>::empty());
                    assert(st2.replay_row(u) == st2.base_row(u));
                }
                crate::overlay::lemma_counts_extend(st1, st2, old_len);
                crate::overlay::lemma_ecount_tail_empty(st2, old_len, st2.len_u());
                crate::overlay::lemma_vcount_tail_single(st2, old_len, st2.len_u(), vertex as int);
                assert(st2.ecount() == st1.ecount());
                assert(st2.vcount() == st1.vcount() + 1);
                assert(st2.rows_ok()) by {
                    assert forall|v: int| 0 <= v < st2.len_u() implies nodup(
                        #[trigger] st2.replay_row(v),
                    ) by {
                        if v < old_len {
                            assert(st2.replay_row(v) == st1.replay_row(v));
                        } else {
                            assert(st2.replay_row(v).len() == 0);
                        }
                    }
                    assert forall|v: int, j: int|
                        0 <= v < st2.len_u() && 0 <= j < st2.replay_row(v).len() implies (
                    #[trigger] st2.replay_row(v)[j] as int) < st2.len_u() by {
                        assert(v < old_len);
                        assert(st2.replay_row(v) == st1.replay_row(v));
                    }
                }
            }
            return Ok(vertex);
        }
        // re-add below the slot count: flip the mark and restore the edges
        // that become visible again
        let slot = get_row_mut(&mut self.deleted_vertices_uncommitted, vertex);
        *slot = Some(false);
        proof {
            let st2 = self.st();
            assert(st2 =~= st1.with_mark(vertex as int, Some(false)));
            assert forall|u: int| 0 <= u < st2.len_u() implies #[trigger] st2.replay_row(u)
                == st1.replay_row(u) by {
                assert(st2.edits[u] == st1.edits[u]);
            }
            assert(st2.rows_ok());
        }
        let out = match self.outgoing_edges_updated(vertex) {
            Ok(o) => o,
            Err(_) => Vec::new(),
        };
        let inc = match self.incoming_edges_updated(vertex) {
            Ok(o) => o,
            Err(_) => Vec::new(),
        };
        let sl = self.edge_exists_updated(vertex, vertex);
        proof {
            let st2 = self.st();
            let st3 = UState { marks: st2.marks.update(vertex as int, Some(true)), ..st2 };
            crate::overlay::lemma_counts_turnoff(st2, st3, vertex, st2.len_u());
            lemma_counts_congruence(st3, st1, st1.len_u());
            crate::overlay::lemma_vis_row_le_ecount(st2, vertex as int, st2.len_u());
            lemma_in_upto_le_ecount(st2, vertex, st2.len_u());
            lemma_in_upto_props(st2, vertex, st2.len_u());
            if sl {
                lemma_vis_filter_props(st2, st2.replay_row(vertex as int));
                assert(st2.vis_row(vertex as int).contains(vertex));
                let i = choose|i: int|
                    0 <= i < st2.vis_row(vertex as int).len() && #[trigger] st2.vis_row(
                        vertex as int,
                    )[i] == vertex;
            }
            crate::overlay::lemma_ecount_upto_nonneg(st2, st2.len_u());
            crate::overlay::lemma_vcount_upto_bounds(st1, st1.len_u());
            crate::overlay::lemma_vcount_upto_bounds(st2, st2.len_u());
        }
        let gain = out.len() + inc.len() - if sl {
            1
        } else {
            0
        };
        self.e_count_updated = self.e_count_updated + gain;
        self.v_count_updated = self.v_count_updated + 1;
        self.has_uncommitted_edits = true;
        proof {
            let st2 = self.st();
            let st3 = UState { marks: st2.marks.update(vertex as int, Some(true)), ..st2 };
            crate::overlay::lemma_counts_turnoff(st2, st3, vertex, st2.len_u());
            lemma_counts_congruence(st3, st1, st1.len_u());
            assert(st2.ecount() == st1.ecount() + out@.len() + inc@.len() - if sl {
                1int
            } else {
                0int
            });
            assert(st2.vcount() == st1.vcount() + 1) by {
                crate::overlay::lemma_counts_turnoff(st2, st3, vertex, st2.len_u());
            }
        }
        Ok(vertex)
    }

    /// Append a fresh vertex at the next free index and return that index.
    pub fn append_vertex(&mut self) -> (r: Result<usize, GraphError>)
        requires
            old(self).wf(),
            old(self).wt_adj_len_updated < usize::MAX,
        ensures
            r == Ok::<usize, GraphError>(old(self).wt_adj_len_updated),
            final(self).wf(),
            final(self).ca == old(self).ca,
            final(self).deleted_vertices == old(self).deleted_vertices,
            final(self).st().len_u() == old(self).st().len_u() + 1,
            forall|w: int|
                final(self).st().exists_u(w) == (old(self).st().exists_u(w) || w == old(
                    self,
                ).wt_adj_len_updated as int),
            forall|u: int|
                0 <= u < old(self).st().len_u() ==> #[trigger] final(self).st().replay_row(u)
                    == old(self).st().replay_row(u),
            (#[trigger] final(self).st().replay_row(old(self).wt_adj_len_updated as int)).len()
                == 0,
            final(self).v_count_updated == old(self).v_count_updated + 1,
            final(self).e_count_updated == old(self).e_count_updated,
            final(self).has_uncommitted_edits,
    {
        let idx = self.wt_adj_len_updated;
        let r = self.add_vertex(idx);
        match r {
            Ok(i) => Ok(i),
            Err(_) => {
                proof {
                    assert(false);
                }
                Err(GraphError::VertexExists)
            },
        }
    }

    /// Whether `v` is an updated slot that does not exist in the updated
    /// view: it was deleted, or never added.
    pub fn vertex_deleted(&self, v: usize) -> (r: bool)
        requires
            self.wf_core(),
        ensures
            r == (v < self.wt_adj_len_updated && !self.st().exists_u(v as int)),
    {
        v < self.wt_adj_len_updated && !self.vertex_exists_updated(v)
    }

    /// Mark `v` removed in the updated view.  Its incident edges are not
    /// eagerly deleted: updated queries filter them out and a commit elides
    /// them, which the updated edge count anticipates here.
    pub fn delete_vertex(&mut self, vertex: usize) -> (r: Result<(), GraphError>)
        requires
            old(self).wf(),
        ensures
            r is Ok <==> old(self).st().exists_u(vertex as int),
            r is Err ==> *final(self) == *old(self) && r == Err::<(), GraphError>(
                GraphError::VertexNotFound,
            ),
            r is Ok ==> {
                &&& final(self).wf()
                &&& final(self).ca == old(self).ca
                &&& final(self).deleted_vertices == old(self).deleted_vertices
                &&& final(self).st().len_u() == old(self).st().len_u()
                &&& forall|w: int|
                    final(self).st().exists_u(w) == (old(self).st().exists_u(w) && w
                        != vertex as int)
                &&& forall|u: int|
                    0 <= u < old(self).st().len_u() ==> #[trigger] final(self).st().replay_row(u)
                        == old(self).st().replay_row(u)
                &&& final(self).v_count_updated == old(self).v_count_updated - 1
                &&& final(self).has_uncommitted_edits
            },
    {
        if !self.vertex_exists_updated(vertex) {
            return Err(GraphError::VertexNotFound);
        }
        let ghost st1 = self.st();
        let out = match self.outgoing_edges_updated(vertex) {
            Ok(o) => o,
            Err(_) => Vec::new(),
        };
        let inc = match self.incoming_edges_updated(vertex) {
            Ok(o) => o,
            Err(_) => Vec::new(),
        };
        let sl = self.edge_exists_updated(vertex, vertex);
        proof {
            crate::overlay::lemma_vis_row_le_ecount(st1, vertex as int, st1.len_u());
            lemma_in_upto_le_ecount(st1, vertex, st1.len_u());
            if sl {
                lemma_vis_filter_props(st1, st1.replay_row(vertex as int));
                assert(st1.vis_row(vertex as int).contains(vertex));
                let i = choose|i: int|
                    0 <= i < st1.vis_row(vertex as int).len() && #[trigger] st1.vis_row(
                        vertex as int,
                    )[i] == vertex;
            }
        }
        let removed_edges = out.len() + inc.len() - if sl {
            1
        } else {
            0
        };
        let slot = get_row_mut(&mut self.deleted_vertices_uncommitted, vertex);
        *slot = Some(true);
        proof {
            let st2 = self.st();
            assert(st2.marks =~= st1.marks.update(vertex as int, Some(true)));
            assert forall|u: int| 0 <= u < st2.len_u() implies #[trigger] st2.replay_row(u)
                == st1.replay_row(u) by {
                assert(st2.edits[u] == st1.edits[u]);
            }
            crate::overlay::lemma_counts_turnoff(st1, st2, vertex, st1.len_u());
            crate::overlay::lemma_ecount_upto_nonneg(st2, st2.len_u());
            assert(st2.rows_ok());
            crate::overlay::lemma_vcount_upto_bounds(st2, st2.len_u());
        }
        self.e_count_updated = self.e_count_updated - removed_edges;
        self.v_count_updated = self.v_count_updated - 1;
        self.has_uncommitted_edits = true;
        Ok(())
    }
}

/// The rows a commit writes hold exactly the visible edges.
proof fn lemma_rows_flat_ecount(st: UState, rows: Seq<Seq<usize>>, n: int)
    requires
        0 <= n <= st.len_u(),
        rows.len() == n,
        forall|i: int|
            0 <= i < n ==> #[trigger] rows[i] == if st.exists_u(i) {
                st.vis_row(i)
            } else {
                Seq::<usize>::empty()
            },
    ensures
        flat_of(rows).len() == st.ecount_upto(n),
    decreases n,
{
    if n > 0 {
        let pre = rows.drop_last();
        assert(forall|i: int| 0 <= i < n - 1 ==> #[trigger] pre[i] == rows[i]);
        lemma_rows_flat_ecount(st, pre, n - 1);
    }
}

impl WTDigraph {
    /// Drop every pending edit: the updated view falls back to the
    /// committed one.
    pub fn discard_edits(&mut self)
        requires
            old(self).wf(),
        ensures
            final(self).wf(),
            final(self).ca == old(self).ca,
            final(self).deleted_vertices == old(self).deleted_vertices,
            final(self).st().len_u() == old(self).committed_adj().len(),
            forall|w: int| final(self).st().exists_u(w) == old(self).st().exists_c(w),
            forall|v: int|
                0 <= v < old(self).committed_adj().len() ==> #[trigger] final(self).st().replay_row(
                    v,
                ) == old(self).committed_adj()[v],
            final(self).v_count_updated == old(self).committed_vcount(),
            final(self).e_count_updated == flat_of(old(self).committed_adj()).len(),
            !final(self).has_uncommitted_edits,
    {
        let n = self.ca.v_count_committed();
        let mut adj_uncommitted: Vec<Vec<Edit<usize>>> = Vec::new();
        let mut marks: Vec<Option<bool>> = Vec::new();
        let mut i: usize = 0;
        while i < n
            invariant
                i <= n,
                adj_uncommitted@.len() == i,
                marks@.len() == i,
                forall|k: int| 0 <= k < i ==> (#[trigger] adj_uncommitted@[k]@).len() == 0,
                forall|k: int| 0 <= k < i ==> (#[trigger] marks@[k]) is None,
            decreases n - i,
        {
            adj_uncommitted.push(Vec::new());
            marks.push(None);
            i += 1;
        }
        self.adj_uncommitted = adj_uncommitted;
        self.deleted_vertices_uncommitted = marks;
        self.wt_adj_len_updated = n;
        proof {
            lemma_count_ones_bounds(self.deleted_vertices@);
        }
        self.v_count_updated = n - self.deleted_count;
        self.e_count_updated = self.ca.e_count_committed();
        self.has_uncommitted_edits = false;
        proof {
            let st = self.st();
            assert forall|k: int| 0 <= k < n implies (#[trigger] st.edits[k]).len() == 0 by {
                assert(st.edits[k] == self.adj_uncommitted@[k]@);
            }
            assert forall|v: int| 0 <= v < n implies #[trigger] st.replay_row(v)
                == self.committed_adj()[v] by {
                assert(st.edits[v] =~= Seq::<Edit<usize>>::empty());
            }
            crate::overlay::lemma_committed_counts(st, n as int);
            crate::encoding::lemma_sizes(st.cadj);
            assert(st.removed.take(n as int) =~= st.removed);
            assert(st.rows_ok());
        }
    }

    /// Rebuild the succinct layer from the updated view and clear the
    /// overlay.  Vertex indices are preserved: a slot that does not exist in
    /// the updated view keeps its index, carries no edges, and lands in the
    /// committed removed set.
    pub fn commit_edits(&mut self)
        requires
            old(self).wf(),
        ensures
            final(self).wf(),
            final(self).committed_adj().len() == old(self).st().len_u(),
            forall|v: int|
                0 <= v < old(self).st().len_u() ==> #[trigger] final(self).committed_adj()[v]
                    == if old(self).st().exists_u(v) {
                    old(self).st().vis_row(v)
                } else {
                    Seq::<usize>::empty()
                },
            forall|w: int| final(self).st().exists_c(w) == old(self).st().exists_u(w),
            forall|w: int| final(self).st().exists_u(w) == old(self).st().exists_u(w),
            forall|v: int|
                0 <= v < old(self).st().len_u() ==> #[trigger] final(self).st().replay_row(v)
                    == final(self).committed_adj()[v],
            final(self).st().len_u() == old(self).st().len_u(),
            flat_of(final(self).committed_adj()).len() == old(self).st().ecount(),
            final(self).committed_vcount() == old(self).st().vcount(),
            final(self).v_count_updated == old(self).v_count_updated,
            final(self).e_count_updated == old(self).e_count_updated,
            forall|k: int| 0 <= k < final(self).st().len_u() ==> final(self).st().marks[k] is None,
            forall|k: int|
                0 <= k < final(self).st().len_u() ==> (#[trigger] final(self).st().edits[k]).len()
                    == 0,
            !final(self).has_uncommitted_edits,
    {
        let ghost st1 = self.st();
        let n = self.wt_adj_len_updated;
        let mut rows: Vec<Vec<usize>> = Vec::new();
        let mut removed: Vec<bool> = Vec::new();
        let mut removed_count: usize = 0;
        let mut v: usize = 0;
        while v < n
            invariant
                self.wf(),
                st1 == self.st(),
                n == self.wt_adj_len_updated,
                v <= n,
                rows@.len() == v,
                removed@.len() == v,
                forall|i: int|
                    0 <= i < v ==> #[trigger] rows@[i]@ == if st1.exists_u(i) {
                        st1.vis_row(i)
                    } else {
                        Seq::<usize>::empty()
                    },
                forall|i: int| 0 <= i < v ==> #[trigger] removed@[i] == !st1.exists_u(i),
                removed_count == count_ones(removed@),
                removed_count as int == v - st1.vcount_upto(v as int),
            decreases n - v,
        {
            let ghost rm0 = removed@;
            if self.vertex_exists_updated(v) {
                let out = match self.outgoing_edges_updated(v) {
                    Ok(o) => o,
                    Err(_) => Vec::new(),
                };
                rows.push(out);
                removed.push(false);
            } else {
                rows.push(Vec::new());
                removed.push(true);
                proof {
                    crate::overlay::lemma_vcount_upto_bounds(st1, v as int);
                }
                removed_count += 1;
            }
            proof {
                assert(removed@.drop_last() =~= rm0);
                assert(removed@.last() == !st1.exists_u(v as int));
                assert(count_ones(removed@) == count_ones(rm0) + if removed@.last() {
                    1int
                } else {
                    0int
                });
            }
            v += 1;
        }
        proof {
            assert forall|i: int| 0 <= i < rows@.len() implies #[trigger] rows.deep_view()[i]
                == rows@[i]@ by {
                assert(rows.deep_view()[i] =~= rows@[i]@);
            }
            lemma_rows_flat_ecount(st1, rows.deep_view(), n as int);
            // the rows are duplicate-free and point below the slot count
            assert forall|i: int, j: int|
                0 <= i < rows.deep_view().len() && 0 <= j < rows.deep_view()[i].len() implies (
            #[trigger] rows.deep_view()[i][j] as int) < rows.deep_view().len() by {
                assert(rows.deep_view()[i] == rows@[i]@);
                if st1.exists_u(i) {
                    assert(rows@[i]@ == st1.vis_row(i));
                    lemma_vis_filter_props(st1, st1.replay_row(i));
                    let y = st1.vis_row(i)[j];
                    assert(st1.vis_row(i).contains(y));
                    assert(st1.exists_u(y as int));
                } else {
                    assert(rows@[i]@.len() == 0);
                }
            }
            assert forall|i: int| 0 <= i < rows.deep_view().len() implies nodup(
                #[trigger] rows.deep_view()[i],
            ) by {
                if st1.exists_u(i) {
                    assert(nodup(st1.replay_row(i)));
                    lemma_vis_filter_props(st1, st1.replay_row(i));
                }
            }
        }
        let ca = CompactAdjacency::build(&rows);
        self.ca = ca;
        self.deleted_vertices = removed;
        self.deleted_count = removed_count;
        let mut adj_uncommitted: Vec<Vec<Edit<usize>>> = Vec::new();
        let mut marks: Vec<Option<bool>> = Vec::new();
        let mut i: usize = 0;
        while i < n
            invariant
                i <= n,
                adj_uncommitted@.len() == i,
                marks@.len() == i,
                forall|k: int| 0 <= k < i ==> (#[trigger] adj_uncommitted@[k]@).len() == 0,
                forall|k: int| 0 <= k < i ==> (#[trigger] marks@[k]) is None,
            decreases n - i,
        {
            adj_uncommitted.push(Vec::new());
            marks.push(None);
            i += 1;
        }
        self.adj_uncommitted = adj_uncommitted;
        self.deleted_vertices_uncommitted = marks;
        self.has_uncommitted_edits = false;
        proof {
            let st2 = self.st();
            assert forall|k: int| 0 <= k < n implies (#[trigger] st2.edits[k]).len() == 0 by {
                assert(st2.edits[k] == self.adj_uncommitted@[k]@);
            }
            assert forall|v2: int| 0 <= v2 < n implies #[trigger] st2.replay_row(v2)
                == self.committed_adj()[v2] by {
                assert(st2.edits[v2] =~= Seq::<Edit<usize>>::empty());
            }
            assert forall|u: int, j: int|
                0 <= u < st2.clen() && 0 <= j < st2.cadj[u].len() implies (
            #[trigger] st2.cadj[u][j] as int) < st2.clen() && !st2.removed[st2.cadj[u][j] as int]
                by {
                assert(st1.exists_u(u));
                lemma_vis_filter_props(st1, st1.replay_row(u));
                assert(st1.vis_row(u).contains(st1.vis_row(u)[j]));
            }
            crate::overlay::lemma_committed_counts(st2, n as int);
            crate::encoding::lemma_sizes(st2.cadj);
            assert(st2.removed.take(n as int) =~= st2.removed);
            assert(st2.rows_ok());
            // counts carried over unchanged
            assert(st2.ecount() == st1.ecount());
            assert(st2.vcount() == n - count_ones(self.deleted_vertices@));
            assert(count_ones(self.deleted_vertices@) == n - st1.vcount()) by {
                assert(self.deleted_vertices@.take(n as int) =~= self.deleted_vertices@);
            }
        }
    }
}

/// The new index a surviving vertex gets when the graph shrinks: the number
/// of surviving vertices below it.
pub open spec fn shrink_index(st: UState, w: int) -> int {
    st.vcount_upto(w)
}

/// The rows of the shrunken graph: one per surviving vertex, in order, each
/// the visible row with every neighbour renumbered.
pub open spec fn shrunk_rows(st: UState, n: int) -> Seq<Seq<usize>>
    decreases n,
{
    if n <= 0 {
        Seq::empty()
    } else {
        shrunk_rows(st, n - 1) + if st.exists_u(n - 1) {
            seq![st.vis_row(n - 1).map_values(|w: usize| st.vcount_upto(w as int) as usize)]
        } else {
            Seq::empty()
        }
    }
}

proof fn lemma_shrunk_rows_props(st: UState, n: int)
    requires
        0 <= n <= st.len_u(),
    ensures
        shrunk_rows(st, n).len() == st.vcount_upto(n),
        forall|v: int|
            0 <= v < n && st.exists_u(v) ==> #[trigger] shrunk_rows(st, n)[st.vcount_upto(v)]
                == st.vis_row(v).map_values(|w: usize| st.vcount_upto(w as int) as usize),
        flat_of(shrunk_rows(st, n)).len() == st.ecount_upto(n),
    decreases n,
{
    if n > 0 {
        lemma_shrunk_rows_props(st, n - 1);
        crate::overlay::lemma_vcount_upto_bounds(st, n - 1);
        let pre = shrunk_rows(st, n - 1);
        let cur = shrunk_rows(st, n);
        if st.exists_u(n - 1) {
            assert(cur[st.vcount_upto(n - 1)] == st.vis_row(n - 1).map_values(
                |w: usize| st.vcount_upto(w as int) as usize,
            ));
            assert forall|v: int| 0 <= v < n && st.exists_u(v) implies #[trigger] cur[st.vcount_upto(
                v,
            )] == st.vis_row(v).map_values(|w: usize| st.vcount_upto(w as int) as usize) by {
                if v < n - 1 {
                    assert(st.vcount_upto(v + 1) == st.vcount_upto(v) + 1);
                    crate::overlay::lemma_vcount_mono(st, v + 1, n - 1);
                    crate::overlay::lemma_vcount_upto_bounds(st, v);
                    assert(st.vcount_upto(v) < pre.len());
                    assert(cur[st.vcount_upto(v)] == pre[st.vcount_upto(v)]);
                }
            }
            assert(flat_of(cur) == flat_of(cur.drop_last()) + cur.last());
            assert(cur.drop_last() =~= pre);
        } else {
            assert(cur =~= pre);
        }
    }
}

impl WTDigraph {
    /// Rebuild the succinct layer keeping only the vertices that exist in
    /// the updated view, renumbering them densely.  Returns, for each old
    /// slot, the new index of the vertex or `None` if it was dropped.  After
    /// a shrink the committed removed set is empty.
    pub fn shrink(&mut self) -> (r: Vec<Option<usize>>)
        requires
            old(self).wf(),
        ensures
            r@.len() == old(self).st().len_u(),
            forall|w: int|
                0 <= w < old(self).st().len_u() ==> #[trigger] r@[w] == if old(self).st().exists_u(
                    w,
                ) {
                    Some(old(self).st().vcount_upto(w) as usize)
                } else {
                    None::<usize>
                },
            final(self).wf(),
            final(self).committed_adj().len() == old(self).st().vcount(),
            final(self).st().len_u() == old(self).st().vcount(),
            forall|v: int|
                0 <= v < old(self).st().len_u() && old(self).st().exists_u(v) ==> #[trigger] final(self).committed_adj()[old(self).st().vcount_upto(v)] == old(self).st().vis_row(
                    v,
                ).map_values(|w: usize| old(self).st().vcount_upto(w as int) as usize),
            forall|w: int|
                final(self).st().exists_u(w) == (0 <= w < old(self).st().vcount()),
            forall|w: int|
                final(self).st().exists_c(w) == (0 <= w < old(self).st().vcount()),
            final(self).deleted_vertices@.len() == old(self).st().vcount(),
            forall|k: int|
                0 <= k < final(self).deleted_vertices@.len() ==> !(#[trigger] final(self).deleted_vertices@[k]),
            final(self).committed_vcount() == old(self).st().vcount(),
            forall|v: int|
                0 <= v < final(self).committed_adj().len() ==> #[trigger] final(self).st().replay_row(v) == final(self).committed_adj()[v],
            forall|k: int|
                0 <= k < final(self).st().len_u() ==> final(self).st().marks[k] is None,
            forall|k: int|
                0 <= k < final(self).st().len_u() ==> (#[trigger] final(self).st().edits[k]).len()
                    == 0,
            flat_of(final(self).committed_adj()).len() == old(self).st().ecount(),
            final(self).e_count_updated == old(self).e_count_updated,
            final(self).v_count_updated == old(self).st().vcount(),
            !final(self).has_uncommitted_edits,
    {
        let ghost st1 = self.st();
        let n = self.wt_adj_len_updated;
        // first pass: the renumbering
        let mut map: Vec<Option<usize>> = Vec::new();
        let mut cnt: usize = 0;
        let mut v: usize = 0;
        while v < n
            invariant
                self.wf(),
                st1 == self.st(),
                n == self.wt_adj_len_updated,
                v <= n,
                map@.len() == v,
                cnt as int == st1.vcount_upto(v as int),
                forall|w: int|
                    0 <= w < v ==> #[trigger] map@[w] == if st1.exists_u(w) {
                        Some(st1.vcount_upto(w) as usize)
                    } else {
                        None::<usize>
                    },
            decreases n - v,
        {
            if self.vertex_exists_updated(v) {
                map.push(Some(cnt));
                proof {
                    crate::overlay::lemma_vcount_upto_bounds(st1, v as int);
                }
                cnt += 1;
            } else {
                map.push(None);
            }
            v += 1;
        }
        // second pass: the surviving rows, renumbered
        let mut rows: Vec<Vec<usize>> = Vec::new();
        let mut v2: usize = 0;
        while v2 < n
            invariant
                self.wf(),
                st1 == self.st(),
                n == self.wt_adj_len_updated,
                v2 <= n,
                map@.len() == n,
                forall|w: int|
                    0 <= w < n ==> #[trigger] map@[w] == if st1.exists_u(w) {
                        Some(st1.vcount_upto(w) as usize)
                    } else {
                        None::<usize>
                    },
                rows@.len() == shrunk_rows(st1, v2 as int).len(),
                forall|k: int|
                    0 <= k < rows@.len() ==> #[trigger] rows@[k]@ == shrunk_rows(st1, v2 as int)[k],
            decreases n - v2,
        {
            proof {
                lemma_shrunk_rows_props(st1, v2 as int);
                lemma_shrunk_rows_props(st1, v2 + 1);
            }
            if self.vertex_exists_updated(v2) {
                let out = match self.outgoing_edges_updated(v2) {
                    Ok(o) => o,
                    Err(_) => Vec::new(),
                };
                let ghost f = |w: usize| st1.vcount_upto(w as int) as usize;
                let mut nr: Vec<usize> = Vec::new();
                let mut j: usize = 0;
                proof {
                    lemma_vis_filter_props(st1, st1.replay_row(v2 as int));
                    assert(out@.take(0).map_values(f) =~= nr@);
                }
                while j < out.len()
                    invariant
                        st1 == self.st(),
                        self.wf(),
                        n == self.wt_adj_len_updated,
                        v2 < n,
                        j <= out.len(),
                        out@ == st1.vis_row(v2 as int),
                        map@.len() == n,
                        forall|w: int|
                            0 <= w < n ==> #[trigger] map@[w] == if st1.exists_u(w) {
                                Some(st1.vcount_upto(w) as usize)
                            } else {
                                None::<usize>
                            },
                        f == (|w: usize| st1.vcount_upto(w as int) as usize),
                        nr@ == out@.take(j as int).map_values(f),
                    decreases out.len() - j,
                {
                    let w = out[j];
                    proof {
                        lemma_vis_filter_props(st1, st1.replay_row(v2 as int));
                        assert(st1.vis_row(v2 as int).contains(w)) by {
                            assert(st1.vis_row(v2 as int)[j as int] == w);
                        }
                        assert(st1.exists_u(w as int));
                    }
                    match map[w] {
                        Some(x) => {
                            nr.push(x);
                            proof {
                                assert(out@.take(j + 1) =~= out@.take(j as int).push(w));
                                assert(out@.take(j + 1).map_values(f) =~= out@.take(
                                    j as int,
                                ).map_values(f).push(f(w)));
                            }
                        },
                        None => {
                            proof {
                                assert(false);
                            }
                        },
                    }
                    j += 1;
                }
                proof {
                    assert(out@.take(out.len() as int) =~= out@);
                }
                rows.push(nr);
                proof {
                    crate::overlay::lemma_vcount_upto_bounds(st1, v2 as int);
                    assert(shrunk_rows(st1, v2 + 1) =~= shrunk_rows(st1, v2 as int).push(
                        st1.vis_row(v2 as int).map_values(f),
                    ));
                }
            } else {
                proof {
                    assert(shrunk_rows(st1, v2 + 1) =~= shrunk_rows(st1, v2 as int));
                }
            }
            v2 += 1;
        }
        proof {
            lemma_shrunk_rows_props(st1, n as int);
            assert forall|i: int| 0 <= i < rows@.len() implies #[trigger] rows.deep_view()[i]
                == rows@[i]@ by {
                assert(rows.deep_view()[i] =~= rows@[i]@);
            }
            assert(rows.deep_view() =~= shrunk_rows(st1, n as int));
            // renumbered entries stay in range and distinct
            assert forall|i: int, j: int|
                0 <= i < rows.deep_view().len() && 0 <= j < rows.deep_view()[i].len() implies (
            #[trigger] rows.deep_view()[i][j] as int) < rows.deep_view().len() by {
                lemma_shrunk_row_entry(st1, n as int, i, j);
            }
            assert forall|i: int| 0 <= i < rows.deep_view().len() implies nodup(
                #[trigger] rows.deep_view()[i],
            ) by {
                lemma_shrunk_row_nodup(st1, n as int, i);
            }
        }
        let ca = CompactAdjacency::build(&rows);
        self.ca = ca;
        let mut removed: Vec<bool> = Vec::new();
        let mut adj_uncommitted: Vec<Vec<Edit<usize>>> = Vec::new();
        let mut marks: Vec<Option<bool>> = Vec::new();
        let mut i: usize = 0;
        while i < cnt
            invariant
                i <= cnt,
                removed@.len() == i,
                adj_uncommitted@.len() == i,
                marks@.len() == i,
                forall|k: int| 0 <= k < i ==> !(#[trigger] removed@[k]),
                forall|k: int| 0 <= k < i ==> (#[trigger] adj_uncommitted@[k]@).len() == 0,
                forall|k: int| 0 <= k < i ==> (#[trigger] marks@[k]) is None,
            decreases cnt - i,
        {
            removed.push(false);
            adj_uncommitted.push(Vec::new());
            marks.push(None);
            i += 1;
        }
        self.deleted_vertices = removed;
        self.deleted_count = 0;
        self.wt_adj_len_updated = cnt;
        self.v_count_updated = cnt;
        self.adj_uncommitted = adj_uncommitted;
        self.deleted_vertices_uncommitted = marks;
        self.has_uncommitted_edits = false;
        proof {
            let st2 = self.st();
            crate::seqs::lemma_count_ones_zero(self.deleted_vertices@);
            assert forall|k: int| 0 <= k < cnt implies (#[trigger] st2.edits[k]).len() == 0 by {
                assert(st2.edits[k] == self.adj_uncommitted@[k]@);
            }
            assert forall|v3: int| 0 <= v3 < cnt implies #[trigger] st2.replay_row(v3)
                == self.committed_adj()[v3] by {
                assert(st2.edits[v3] =~= Seq::<Edit<usize>>::empty());
            }
            assert forall|u: int, j: int|
                0 <= u < st2.clen() && 0 <= j < st2.cadj[u].len() implies (
            #[trigger] st2.cadj[u][j] as int) < st2.clen() && !st2.removed[st2.cadj[u][j] as int]
                by {
                lemma_shrunk_row_entry(st1, n as int, u, j);
            }
            crate::overlay::lemma_committed_counts(st2, cnt as int);
            crate::encoding::lemma_sizes(st2.cadj);
            assert(st2.removed.take(cnt as int) =~= st2.removed);
            crate::seqs::lemma_count_ones_zero(st2.removed.take(cnt as int));
            assert(st2.rows_ok());
        }
        map
    }
}

/// One renumbered entry is below the survivor count.
proof fn lemma_shrunk_row_entry(st: UState, n: int, i: int, j: int)
    requires
        0 <= n <= st.len_u(),
        0 <= i < shrunk_rows(st, n).len(),
        0 <= j < shrunk_rows(st, n)[i].len(),
    ensures
        (shrunk_rows(st, n)[i][j] as int) < st.vcount(),
    decreases n,
{
    lemma_shrunk_rows_props(st, n);
    if n > 0 {
        let pre = shrunk_rows(st, n - 1);
        if i < pre.len() {
            lemma_shrunk_rows_props(st, n - 1);
            lemma_shrunk_row_entry(st, n - 1, i, j);
            assert(shrunk_rows(st, n)[i] == pre[i]);
        } else {
            assert(st.exists_u(n - 1));
            let row = st.vis_row(n - 1);
            let mapped = shrunk_rows(st, n)[i];
            assert(mapped == row.map_values(|w: usize| st.vcount_upto(w as int) as usize));
            let w = row[j];
            assert(mapped[j] == st.vcount_upto(w as int) as usize);
            lemma_vis_filter_props(st, st.replay_row(n - 1));
            assert(row.contains(w)) by {
                assert(row[j] == w);
            }
            assert(st.exists_u(w as int));
            crate::overlay::lemma_vcount_upto_bounds(st, w as int);
            assert(st.vcount_upto(w as int + 1) == st.vcount_upto(w as int) + 1);
            crate::overlay::lemma_vcount_mono(st, w as int + 1, st.len_u());
        }
    }
}

/// A renumbered row repeats no entry: the renumbering is injective on the
/// survivors.
proof fn lemma_shrunk_row_nodup(st: UState, n: int, i: int)
    requires
        0 <= n <= st.len_u(),
        0 <= i < shrunk_rows(st, n).len(),
        forall|v: int| 0 <= v < st.len_u() ==> nodup(#[trigger] st.replay_row(v)),
    ensures
        nodup(shrunk_rows(st, n)[i]),
    decreases n,
{
    lemma_shrunk_rows_props(st, n);
    if n > 0 {
        let pre = shrunk_rows(st, n - 1);
        if i < pre.len() {
            lemma_shrunk_row_nodup(st, n - 1, i);
            assert(shrunk_rows(st, n)[i] == pre[i]);
        } else {
            assert(st.exists_u(n - 1));
            let row = st.vis_row(n - 1);
            let mapped = shrunk_rows(st, n)[i];
            assert(mapped == row.map_values(|w: usize| st.vcount_upto(w as int) as usize));
            assert(nodup(row)) by {
                lemma_vis_filter_props(st, st.replay_row(n - 1));
            }
            lemma_vis_filter_props(st, st.replay_row(n - 1));
            assert forall|a: int, b: int|
                0 <= a < b < mapped.len() implies mapped[a] != mapped[b] by {
                let wa = row[a];
                let wb = row[b];
                assert(row.contains(wa)) by {
                    assert(row[a] == wa);
                }
                assert(row.contains(wb)) by {
                    assert(row[b] == wb);
                }
                assert(st.exists_u(wa as int) && st.exists_u(wb as int));
                assert(wa != wb);
                crate::overlay::lemma_vcount_upto_bounds(st, wa as int);
                crate::overlay::lemma_vcount_upto_bounds(st, wb as int);
                assert(mapped[a] == st.vcount_upto(wa as int) as usize);
                assert(mapped[b] == st.vcount_upto(wb as int) as usize);
                if wa < wb {
                    assert(st.vcount_upto(wa as int + 1) == st.vcount_upto(wa as int) + 1);
                    crate::overlay::lemma_vcount_mono(st, wa as int + 1, wb as int);
                } else {
                    assert(st.vcount_upto(wb as int + 1) == st.vcount_upto(wb as int) + 1);
                    crate::overlay::lemma_vcount_mono(st, wb as int + 1, wa as int);
                }
            }
        }
    }
}

impl WTDigraph {
    /// Buffer the deletion of every visible outgoing edge of `v`.
    pub fn delete_outgoing_edges(&mut self, v: usize) -> (r: Result<(), GraphError>)
        requires
            old(self).wf(),
        ensures
            r is Ok <==> old(self).st().exists_u(v as int),
            r is Err ==> *final(self) == *old(self) && r == Err::<(), GraphError>(
                GraphError::VertexNotFound,
            ),
            r is Ok ==> {
                &&& final(self).wf()
                &&& final(self).ca == old(self).ca
                &&& final(self).deleted_vertices == old(self).deleted_vertices
                &&& final(self).wt_adj_len_updated == old(self).wt_adj_len_updated
                &&& forall|w: int| final(self).st().exists_u(w) == old(self).st().exists_u(w)
                &&& forall|w: usize| !final(self).st().has_edge(v as int, w)
                &&& forall|u: int|
                    0 <= u < old(self).st().len_u() && u != v as int
                        ==> #[trigger] final(self).st().replay_row(u) == old(self).st().replay_row(u)
                &&& final(self).e_count_updated == old(self).e_count_updated - old(
                    self,
                ).st().vis_row(v as int).len()
                &&& final(self).v_count_updated == old(self).v_count_updated
            },
    {
        if !self.vertex_exists_updated(v) {
            return Err(GraphError::VertexNotFound);
        }
        let out = match self.outgoing_edges_updated(v) {
            Ok(o) => o,
            Err(_) => Vec::new(),
        };
        let ghost st1 = self.st();
        proof {
            lemma_vis_filter_props(st1, st1.replay_row(v as int));
            assert(nodup(out@));
        }
        let mut i: usize = 0;
        while i < out.len()
            invariant
                self.wf(),
                st1 == old(self).st(),
                old(self).wf(),
                (v as int) < st1.len_u(),
                st1.exists_u(v as int),
                i <= out.len(),
                out@ == st1.vis_row(v as int),
                nodup(out@),
                forall|y: usize| out@.contains(y) ==> st1.exists_u(y as int) && st1.replay_row(
                    v as int,
                ).contains(y),
                self.ca == old(self).ca,
                self.deleted_vertices == old(self).deleted_vertices,
                self.wt_adj_len_updated == old(self).wt_adj_len_updated,
                self.v_count_updated == old(self).v_count_updated,
                forall|w: int| self.st().exists_u(w) == st1.exists_u(w),
                forall|u: int|
                    0 <= u < st1.len_u() && u != v as int ==> #[trigger] self.st().replay_row(u)
                        == st1.replay_row(u),
                forall|w: usize|
                    #[trigger] self.st().replay_row(v as int).contains(w) <==> (st1.replay_row(
                        v as int,
                    ).contains(w) && !out@.take(i as int).contains(w)),
                self.e_count_updated == old(self).e_count_updated - i,
                self.has_uncommitted_edits || i == 0,
            decreases out.len() - i,
        {
            let w = out[i];
            proof {
                assert(out@.contains(w)) by {
                    assert(out@[i as int] == w);
                }
                assert(!out@.take(i as int).contains(w)) by {
                    if out@.take(i as int).contains(w) {
                        let j = choose|j: int|
                            0 <= j < i && #[trigger] out@.take(i as int)[j] == w;
                        assert(out@[j] == out@[i as int]);
                        assert(false);
                    }
                }
                assert(st1.exists_u(w as int) && st1.replay_row(v as int).contains(w));
                assert(self.st().replay_row(v as int).contains(w));
                assert(self.st().exists_u(w as int) && self.st().exists_u(v as int));
                assert(self.st().has_edge(v as int, w));
            }
            let ghost pre = self.st().replay_row(v as int);
            let res = self.delete_edge(v, w);
            proof {
                assert(res is Ok);
                crate::seqs::lemma_remove_value_nodup(pre, w);
                assert forall|y: usize| #[trigger] self.st().replay_row(v as int).contains(y)
                    <==> (st1.replay_row(v as int).contains(y) && !out@.take(i + 1).contains(
                    y,
                )) by {
                    assert(out@.take(i + 1) =~= out@.take(i as int).push(w));
                    assert(self.st().replay_row(v as int) == crate::seqs::remove_value(pre, w));
                    assert(crate::seqs::remove_value(pre, w).contains(y) <==> pre.contains(y) && y
                        != w);
                    assert(pre.contains(y) <==> (st1.replay_row(v as int).contains(y)
                        && !out@.take(i as int).contains(y)));
                    if out@.take(i + 1).contains(y) {
                        let j = choose|j: int| 0 <= j < i + 1 && #[trigger] out@.take(i + 1)[j]
                            == y;
                        if j < i {
                            assert(out@.take(i as int)[j] == y);
                            assert(out@.take(i as int).contains(y));
                        } else {
                            assert(y == w);
                        }
                    }
                    if out@.take(i as int).contains(y) {
                        let j = choose|j: int|
                            0 <= j < i && #[trigger] out@.take(i as int)[j] == y;
                        assert(out@.take(i + 1)[j] == y);
                        assert(out@.take(i + 1).contains(y));
                    }
                    if y == w {
                        assert(out@.take(i + 1)[i as int] == w);
                        assert(out@.take(i + 1).contains(w));
                    }
                }
            }
            i += 1;
        }
        proof {
            assert(out@.take(out.len() as int) =~= out@);
            assert forall|w: usize| !final(self).st().has_edge(v as int, w) by {
                if self.st().has_edge(v as int, w) {
                    assert(self.st().replay_row(v as int).contains(w));
                    assert(st1.replay_row(v as int).contains(w) && !out@.contains(w));
                    assert(self.st().exists_u(w as int));
                    assert(st1.exists_u(w as int));
                    lemma_vis_filter_props(st1, st1.replay_row(v as int));
                    assert(st1.vis_row(v as int).contains(w));
                    assert(false);
                }
            }
        }
        Ok(())
    }

    /// Buffer the deletion of every visible incoming edge of `v`.
    pub fn delete_incoming_edges(&mut self, v: usize) -> (r: Result<(), GraphError>)
        requires
            old(self).wf(),
        ensures
            r is Ok <==> old(self).st().exists_u(v as int),
            r is Err ==> *final(self) == *old(self) && r == Err::<(), GraphError>(
                GraphError::VertexNotFound,
            ),
            r is Ok ==> {
                &&& final(self).wf()
                &&& final(self).ca == old(self).ca
                &&& final(self).deleted_vertices == old(self).deleted_vertices
                &&& final(self).wt_adj_len_updated == old(self).wt_adj_len_updated
                &&& forall|w: int| final(self).st().exists_u(w) == old(self).st().exists_u(w)
                &&& forall|u: int| !final(self).st().has_edge(u, v)
                &&& forall|u: int, w: usize|
                    #[trigger] final(self).st().has_edge(u, w) ==> old(self).st().has_edge(u, w)
                &&& final(self).e_count_updated == old(self).e_count_updated - old(
                    self,
                ).st().in_list(v).len()
                &&& final(self).v_count_updated == old(self).v_count_updated
            },
    {
        if !self.vertex_exists_updated(v) {
            return Err(GraphError::VertexNotFound);
        }
        let inc = match self.incoming_edges_updated(v) {
            Ok(o) => o,
            Err(_) => Vec::new(),
        };
        let ghost st1 = self.st();
        proof {
            lemma_in_upto_props(st1, v, st1.len_u());
        }
        let mut i: usize = 0;
        while i < inc.len()
            invariant
                self.wf(),
                st1 == old(self).st(),
                old(self).wf(),
                (v as int) < st1.len_u(),
                st1.exists_u(v as int),
                i <= inc.len(),
                inc@ == st1.in_list(v),
                crate::seqs::strictly_sorted(inc@),
                forall|y: usize|
                    #[trigger] inc@.contains(y) <==> 0 <= y < st1.len_u() && st1.exists_u(y as int)
                        && st1.replay_row(y as int).contains(v),
                self.ca == old(self).ca,
                self.deleted_vertices == old(self).deleted_vertices,
                self.wt_adj_len_updated == old(self).wt_adj_len_updated,
                self.v_count_updated == old(self).v_count_updated,
                forall|w: int| self.st().exists_u(w) == st1.exists_u(w),
                forall|u: int|
                    0 <= u < st1.len_u() && !inc@.contains(u as usize)
                        ==> #[trigger] self.st().replay_row(u) == st1.replay_row(u),
                forall|j: int|
                    0 <= j < i ==> #[trigger] self.st().replay_row(inc@[j] as int)
                        == crate::seqs::remove_value(st1.replay_row(inc@[j] as int), v),
                forall|j: int|
                    i <= j < inc@.len() ==> #[trigger] self.st().replay_row(inc@[j] as int)
                        == st1.replay_row(inc@[j] as int),
                self.e_count_updated == old(self).e_count_updated - i,
            decreases inc.len() - i,
        {
            let u = inc[i];
            proof {
                assert(inc@.contains(u)) by {
                    assert(inc@[i as int] == u);
                }
                assert(st1.exists_u(u as int) && st1.replay_row(u as int).contains(v));
                assert(self.st().replay_row(u as int) == st1.replay_row(u as int));
                assert(self.st().exists_u(u as int) && self.st().exists_u(v as int));
                assert(self.st().has_edge(u as int, v));
            }
            let res = self.delete_edge(u, v);
            proof {
                assert(res is Ok);
                assert forall|j: int|
                    i + 1 <= j < inc@.len() implies #[trigger] self.st().replay_row(
                    inc@[j] as int) == st1.replay_row(inc@[j] as int) by {
                    assert(inc@[j] != inc@[i as int]);
                    assert(inc@.contains(inc@[j]));
                    assert(0 <= inc@[j] < st1.len_u());
                }
                assert forall|u2: int|
                    0 <= u2 < st1.len_u() && !inc@.contains(u2 as usize) implies
                    #[trigger] self.st().replay_row(u2) == st1.replay_row(u2) by {
                    assert(u2 != u as int);
                }
            }
            i += 1;
        }
        proof {
            assert forall|u: int, w: usize| #[trigger] self.st().has_edge(u, w) implies st1.has_edge(
                u,
                w,
            ) by {
                assert(self.st().exists_u(u) == st1.exists_u(u));
                assert(0 <= u < st1.len_u());
                let uu = u as usize;
                if inc@.contains(uu) {
                    let j = choose|j: int| 0 <= j < inc@.len() && inc@[j] == uu;
                    assert(self.st().replay_row(u) == crate::seqs::remove_value(
                        st1.replay_row(u),
                        v,
                    ));
                    assert(nodup(st1.replay_row(u)));
                    crate::seqs::lemma_remove_value_nodup(st1.replay_row(u), v);
                    assert(st1.replay_row(u).contains(w));
                } else {
                    assert(self.st().replay_row(u) == st1.replay_row(u));
                }
            }
            assert forall|u: int| !final(self).st().has_edge(u, v) by {
                if self.st().has_edge(u, v) {
                    assert(self.st().exists_u(u));
                    assert(st1.exists_u(u));
                    assert(0 <= u < st1.len_u());
                    let uu = u as usize;
                    if inc@.contains(uu) {
                        let j = choose|j: int| 0 <= j < inc@.len() && inc@[j] == uu;
                        assert(self.st().replay_row(u) == crate::seqs::remove_value(
                            st1.replay_row(u),
                            v,
                        ));
                        crate::seqs::lemma_remove_value_nodup(st1.replay_row(u), v);
                        assert(!self.st().replay_row(u).contains(v));
                        assert(false);
                    } else {
                        assert(self.st().replay_row(u) == st1.replay_row(u));
                        assert(st1.replay_row(u).contains(v));
                        assert(inc@.contains(uu));
                        assert(false);
                    }
                }
            }
        }
        Ok(())
    }
}

impl WTDigraph {
    /// Freeze a plain directed graph into wavelet-tree form.  The committed
    /// layer holds the plain graph's rows and removed set; the overlay
    /// starts empty.
    pub fn from_digraph(dg: crate::graph::Digraph) -> (r: WTDigraph)
        requires
            dg.wf(),
        ensures
            r.wf(),
            r.committed_adj() == dg.rows(),
            r.deleted_vertices@ == dg.deleted@,
            r.st().len_u() == dg.rows().len(),
            forall|w: int| r.st().exists_u(w) == dg.exists_spec(w),
            forall|v: int|
                0 <= v < dg.rows().len() ==> #[trigger] r.st().replay_row(v) == dg.rows()[v],
            r.st().ecount() == flat_of(dg.rows()).len(),
            r.st().vcount() == dg.rows().len() - count_ones(dg.deleted@),
            !r.has_uncommitted_edits,
    {
        let ca = CompactAdjacency::build(&dg.adj);
        let n = dg.adj.len();
        let mut adj_uncommitted: Vec<Vec<Edit<usize>>> = Vec::new();
        let mut marks: Vec<Option<bool>> = Vec::new();
        let mut i: usize = 0;
        while i < n
            invariant
                i <= n,
                adj_uncommitted@.len() == i,
                marks@.len() == i,
                forall|k: int| 0 <= k < i ==> (#[trigger] adj_uncommitted@[k]@).len() == 0,
                forall|k: int| 0 <= k < i ==> (#[trigger] marks@[k]) is None,
            decreases n - i,
        {
            adj_uncommitted.push(Vec::new());
            marks.push(None);
            i += 1;
        }
        let e_count = ca.e_count_committed();
        proof {
            lemma_count_ones_bounds(dg.deleted@);
        }
        let v_count_updated = n - dg.deleted_count;
        let g = WTDigraph {
            ca,
            deleted_vertices: dg.deleted,
            deleted_count: dg.deleted_count,
            wt_adj_len_updated: n,
            v_count_updated,
            e_count_updated: e_count,
            adj_uncommitted,
            deleted_vertices_uncommitted: marks,
            has_uncommitted_edits: false,
        };
        proof {
            let st = g.st();
            assert forall|k: int| 0 <= k < n implies (#[trigger] st.edits[k]).len() == 0 by {
                assert(st.edits[k] == g.adj_uncommitted@[k]@);
            }
            assert forall|v: int| 0 <= v < n implies #[trigger] st.replay_row(v)
                == g.committed_adj()[v] by {
                assert(st.edits[v] =~= Seq::<Edit<usize>>::empty());
            }
            crate::overlay::lemma_committed_counts(st, n as int);
            crate::encoding::lemma_sizes(st.cadj);
            assert(st.removed.take(n as int) =~= st.removed);
            assert(st.rows_ok());
        }
        g
    }
}

impl WTDigraph {
    /// Build a graph from its succinct encoding given as plain values: the
    /// boundary bits (one set bit per vertex, one clear bit per edge) and
    /// the flat neighbour sequence.  The bits must parse into rows that
    /// consume the whole sequence, and the rows must be a valid adjacency;
    /// since the boundary bits fix the row lengths and the sequence fixes
    /// their contents, the accepted graph is uniquely determined.
    pub fn from(sequence: Vec<usize>, bits: Vec<bool>) -> (r: Result<WTDigraph, GraphError>)
        ensures
            r is Ok <==> exists|rows: Seq<Seq<usize>>|
                #[trigger] marks_of(rows) == bits@ && flat_of(rows) == sequence@ && adjacency_ok(
                    rows.len() as int,
                    sequence@.len() as int,
                    rows,
                ),
            r matches Ok(g) ==> {
                &&& g.wf()
                &&& marks_of(g.committed_adj()) == bits@
                &&& flat_of(g.committed_adj()) == sequence@
                &&& g.committed_vcount() == g.committed_adj().len()
                &&& forall|k: int|
                    0 <= k < g.deleted_vertices@.len() ==> !(#[trigger] g.deleted_vertices@[k])
                &&& g.st().len_u() == g.committed_adj().len()
                &&& g.st().vcount() == g.committed_adj().len()
                &&& g.st().ecount() == sequence@.len()
                &&& forall|w: int| g.st().exists_u(w) == (0 <= w < g.committed_adj().len())
                &&& forall|v: int|
                    0 <= v < g.committed_adj().len() ==> #[trigger] g.st().replay_row(v)
                        == g.committed_adj()[v]
                &&& !g.has_uncommitted_edits
            },
    {
        let mut rows: Vec<Vec<usize>> = Vec::new();
        let mut si: usize = 0;
        let mut p: usize = 0;
        while p < bits.len()
            invariant
                p <= bits.len(),
                si <= sequence.len(),
                marks_of(rows.deep_view()) == bits@.take(p as int),
                flat_of(rows.deep_view()) == sequence@.take(si as int),
            decreases bits.len() - p,
        {
            let ghost rows1 = rows.deep_view();
            if bits[p] {
                rows.push(Vec::new());
                proof {
                    assert(rows.deep_view() =~~= rows1.push(Seq::<usize>::empty()));
                    assert(rows.deep_view().drop_last() =~= rows1);
                    assert(marks_of(rows.deep_view()) =~= bits@.take(p + 1)) by {
                        assert(crate::encoding::block_marks(Seq::<usize>::empty()) =~= seq![
                            true,
                        ]);
                        assert(bits@.take(p + 1) =~= bits@.take(p as int).push(true));
                    }
                    assert(flat_of(rows.deep_view()) =~= sequence@.take(si as int));
                }
            } else {
                if rows.len() == 0 {
                    proof {
                        // the very first bit is clear, but every nonempty
                        // adjacency starts its marks with a set bit
                        assert(bits@.take(p as int).len() == p);
                        assert(p == 0);
                        assert forall|rows0: Seq<Seq<usize>>|
                            !(#[trigger] marks_of(rows0) == bits@ && flat_of(rows0) == sequence@
                                && adjacency_ok(
                                rows0.len() as int,
                                sequence@.len() as int,
                                rows0,
                            )) by {
                            if marks_of(rows0) == bits@ {
                                if rows0.len() == 0 {
                                    assert(marks_of(rows0).len() == 0);
                                    assert(false);
                                } else {
                                    crate::encoding::lemma_one_position(rows0, 0);
                                    assert(marks_of(rows0)[0]);
                                    assert(false);
                                }
                            }
                        }
                    }
                    return Err(GraphError::InvalidAdjacency);
                }
                if si >= sequence.len() {
                    proof {
                        // one more clear bit than there are symbols
                        let dv = rows.deep_view();
                        crate::encoding::lemma_sizes(dv);
                        assert(crate::seqs::count_zeros(bits@.take(p as int))
                            == sequence@.len());
                        crate::seqs::lemma_count_ones_take_succ(bits@, p as int);
                        assert(crate::seqs::count_zeros(bits@.take(p + 1)) == sequence@.len()
                            + 1);
                        crate::seqs::lemma_count_ones_lipschitz(bits@, p + 1, bits@.len() as int);
                        assert(bits@.take(bits@.len() as int) =~= bits@);
                        assert(crate::seqs::count_zeros(bits@) >= sequence@.len() + 1);
                        assert forall|rows0: Seq<Seq<usize>>|
                            !(#[trigger] marks_of(rows0) == bits@ && flat_of(rows0) == sequence@
                                && adjacency_ok(
                                rows0.len() as int,
                                sequence@.len() as int,
                                rows0,
                            )) by {
                            if marks_of(rows0) == bits@ && flat_of(rows0) == sequence@ {
                                crate::encoding::lemma_sizes(rows0);
                                assert(false);
                            }
                        }
                    }
                    return Err(GraphError::InvalidAdjacency);
                }
                let last = rows.len() - 1;
                let sym = sequence[si];
                let row = get_row_mut(&mut rows, last);
                row.push(sym);
                si = si + 1;
                proof {
                    let rl = rows1[last as int].push(sym);
                    assert(rows.deep_view() =~~= rows1.update(last as int, rl));
                    assert(rows.deep_view().drop_last() =~= rows1.drop_last());
                    assert(rows.deep_view().last() =~= rl);
                    assert(marks_of(rows.deep_view()) =~= bits@.take(p + 1)) by {
                        assert(rows1.drop_last() =~= rows1.take(last as int));
                        assert(marks_of(rows1) == marks_of(rows1.drop_last())
                            + crate::encoding::block_marks(rows1.last()));
                        assert(crate::encoding::block_marks(rl) =~= crate::encoding::block_marks(
                            rows1.last(),
                        ).push(false));
                        assert(bits@.take(p + 1) =~= bits@.take(p as int).push(false));
                        assert(marks_of(rows.deep_view()) == marks_of(rows1.drop_last())
                            + crate::encoding::block_marks(rl));
                        assert(marks_of(rows1.drop_last()) + crate::encoding::block_marks(rl)
                            =~= (marks_of(rows1.drop_last()) + crate::encoding::block_marks(
                            rows1.last(),
                        )).push(false));
                    }
                    assert(flat_of(rows.deep_view()) =~= sequence@.take(si as int)) by {
                        assert(flat_of(rows1) == flat_of(rows1.drop_last()) + rows1.last());
                        assert(flat_of(rows.deep_view()) == flat_of(rows1.drop_last()) + rl);
                        assert(flat_of(rows1.drop_last()) + rl =~= (flat_of(rows1.drop_last())
                            + rows1.last()).push(sym));
                        assert(sequence@.take(si as int) =~= sequence@.take(si - 1).push(sym));
                    }
                }
            }
            p += 1;
        }
        proof {
            assert(bits@.take(bits.len() as int) =~= bits@);
        }
        if si != sequence.len() {
            proof {
                // the bits ran out with symbols to spare
                let dv = rows.deep_view();
                crate::encoding::lemma_sizes(dv);
                assert(crate::seqs::count_zeros(bits@) == si);
                assert forall|rows0: Seq<Seq<usize>>|
                    !(#[trigger] marks_of(rows0) == bits@ && flat_of(rows0) == sequence@
                        && adjacency_ok(rows0.len() as int, sequence@.len() as int, rows0)) by {
                    if marks_of(rows0) == bits@ && flat_of(rows0) == sequence@ {
                        crate::encoding::lemma_sizes(rows0);
                        assert(false);
                    }
                }
            }
            return Err(GraphError::InvalidAdjacency);
        }
        proof {
            assert(sequence@.take(sequence.len() as int) =~= sequence@);
        }
        let n = rows.len();
        let e = sequence.len();
        let res = WTDigraph::from_adjacency_list(n, e, rows);
        proof {
            let dv = rows.deep_view();
            if res is Ok {
                // the parsed rows witness the success condition
                assert(marks_of(dv) == bits@ && flat_of(dv) == sequence@ && adjacency_ok(
                    dv.len() as int,
                    sequence@.len() as int,
                    dv,
                ));
            } else {
                // the parse is exact, so any valid encoding would be these
                // very rows, which were just rejected
                assert forall|rows0: Seq<Seq<usize>>|
                    !(#[trigger] marks_of(rows0) == bits@ && flat_of(rows0) == sequence@
                        && adjacency_ok(rows0.len() as int, sequence@.len() as int, rows0)) by {
                    if marks_of(rows0) == bits@ && flat_of(rows0) == sequence@ {
                        crate::encoding::lemma_encoding_injective(rows0, dv);
                        assert(rows0 == dv);
                        assert(!adjacency_ok(rows0.len() as int, sequence@.len() as int, rows0));
                    }
                }
            }
        }
        res
    }
}

/// The committed neighbour rows of the existing vertices below `n`, in
/// index order, removed slots skipped.
pub open spec fn existing_rows(adj: Seq<Seq<usize>>, removed: Seq<bool>, n: int) -> Seq<
    Seq<usize>,
>
    decreases n,
{
    if n <= 0 {
        Seq::empty()
    } else {
        existing_rows(adj, removed, n - 1) + if !removed[n - 1] {
            seq![adj[n - 1]]
        } else {
            Seq::empty()
        }
    }
}

/// The committed edges of the existing vertices below `n`, row by row.
pub open spec fn committed_edge_list(adj: Seq<Seq<usize>>, removed: Seq<bool>, n: int) -> Seq<
    (usize, usize),
>
    decreases n,
{
    if n <= 0 {
        Seq::empty()
    } else {
        committed_edge_list(adj, removed, n - 1) + if !removed[n - 1] {
            adj[n - 1].map_values(|w: usize| (((n - 1) as usize), w))
        } else {
            Seq::empty()
        }
    }
}

impl WTDigraph {
    /// The outgoing rows of every existing committed vertex, in index
    /// order; the committed stand-in for walking the vertices one by one.
    pub fn iter(&self) -> (r: Vec<Vec<usize>>)
        requires
            self.wf_core(),
        ensures
            r@.len() == existing_rows(
                self.committed_adj(),
                self.deleted_vertices@,
                self.committed_adj().len() as int,
            ).len(),
            forall|k: int|
                0 <= k < r@.len() ==> #[trigger] r@[k]@ == existing_rows(
                    self.committed_adj(),
                    self.deleted_vertices@,
                    self.committed_adj().len() as int,
                )[k],
    {
        let ghost adj = self.committed_adj();
        let ghost rem = self.deleted_vertices@;
        let n = self.ca.v_count_committed();
        let mut rows: Vec<Vec<usize>> = Vec::new();
        let mut v: usize = 0;
        while v < n
            invariant
                self.wf_core(),
                adj == self.committed_adj(),
                rem == self.deleted_vertices@,
                n as int == adj.len(),
                v <= n,
                rows@.len() == existing_rows(adj, rem, v as int).len(),
                forall|k: int|
                    0 <= k < rows@.len() ==> #[trigger] rows@[k]@ == existing_rows(
                        adj,
                        rem,
                        v as int,
                    )[k],
            decreases n - v,
        {
            if self.vertex_exists(v) {
                let row = self.ca.outgoing(v);
                rows.push(row);
            }
            v += 1;
        }
        rows
    }

    /// Every committed edge as a pair, the rows of the existing vertices
    /// laid out one after the other; the committed stand-in for walking the
    /// edges one by one.
    pub fn iter_edges(&self) -> (r: Vec<Edge>)
        requires
            self.wf_core(),
        ensures
            r@.len() == committed_edge_list(
                self.committed_adj(),
                self.deleted_vertices@,
                self.committed_adj().len() as int,
            ).len(),
            forall|k: int|
                0 <= k < r@.len() ==> ((#[trigger] r@[k]).from, r@[k].to) == committed_edge_list(
                    self.committed_adj(),
                    self.deleted_vertices@,
                    self.committed_adj().len() as int,
                )[k],
    {
        let ghost adj = self.committed_adj();
        let ghost rem = self.deleted_vertices@;
        let n = self.ca.v_count_committed();
        let mut es: Vec<Edge> = Vec::new();
        let mut v: usize = 0;
        while v < n
            invariant
                self.wf_core(),
                adj == self.committed_adj(),
                rem == self.deleted_vertices@,
                n as int == adj.len(),
                v <= n,
                es@.len() == committed_edge_list(adj, rem, v as int).len(),
                forall|k: int|
                    0 <= k < es@.len() ==> ((#[trigger] es@[k]).from, es@[k].to)
                        == committed_edge_list(adj, rem, v as int)[k],
            decreases n - v,
        {
            if self.vertex_exists(v) {
                let row = self.ca.outgoing(v);
                let ghost base = committed_edge_list(adj, rem, v as int);
                let ghost mapped = adj[v as int].map_values(|w: usize| (v, w));
                let mut j: usize = 0;
                while j < row.len()
                    invariant
                        row@ == adj[v as int],
                        (v as int) < adj.len(),
                        j <= row.len(),
                        mapped == adj[v as int].map_values(|w: usize| (v, w)),
                        es@.len() == base.len() + j,
                        forall|k: int|
                            0 <= k < base.len() ==> ((#[trigger] es@[k]).from, es@[k].to)
                                == base[k],
                        forall|k: int|
                            0 <= k < j ==> ((#[trigger] es@[base.len() + k]).from, es@[base.len()
                                + k].to) == mapped[k],
                    decreases row.len() - j,
                {
                    es.push(Edge::new(v, row[j]));
                    j += 1;
                }
                proof {
                    assert(committed_edge_list(adj, rem, v + 1) =~= base + mapped);
                    assert forall|k: int|
                        0 <= k < es@.len() implies ((#[trigger] es@[k]).from, es@[k].to)
                            == committed_edge_list(adj, rem, v + 1)[k] by {
                        if k < base.len() {
                            assert((base + mapped)[k] == base[k]);
                        } else {
                            let k2 = k - base.len();
                            assert(((#[trigger] es@[base.len() + k2]).from, es@[base.len()
                                + k2].to) == mapped[k2]);
                            assert((base + mapped)[k] == mapped[k2]);
                        }
                    }
                }
            } else {
                proof {
                    assert(committed_edge_list(adj, rem, v + 1) =~= committed_edge_list(
                        adj,
                        rem,
                        v as int,
                    ));
                }
            }
            v += 1;
        }
        es
    }
}

} // verus!
