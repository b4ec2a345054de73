//! Labeled graphs: vertices addressed by a string label instead of an
//! index.
//!
//! Each flavour pairs a directed engine with a label table keeping one
//! distinct label per slot; every label-keyed operation translates to an
//! index-keyed operation underneath.  The undirected flavours canonicalise
//! each edge so that it is stored from the smaller index to the larger one.

use crate::adjacency::incoming_list;
use crate::digraph::WTDigraph;
use crate::graph::Digraph;
use crate::seqs::nodup;
use crate::wavelet::SYMBOL_LIMIT;
use crate::GraphError;
use vstd::prelude::*;

verus! {

/// All labels pairwise distinct, as character sequences.
pub open spec fn labels_distinct(ls: Seq<Seq<char>>) -> bool {
    forall|i: int, j: int| 0 <= i < j < ls.len() ==> ls[i] != ls[j]
}

/// The labels a vector of strings holds.
pub open spec fn label_views(ls: Seq<String>) -> Seq<Seq<char>> {
    ls.map_values(|s: String| s@)
}

/// First slot carrying the label, if any.
pub(crate) fn find_label(labels: &Vec<String>, l: &String) -> (r: Option<usize>)
    ensures
        r matches Some(i) ==> i < labels@.len() && labels@[i as int]@ == l@,
        r is None ==> forall|i: int| 0 <= i < labels@.len() ==> labels@[i]@ != l@,
{
    let mut i: usize = 0;
    while i < labels.len()
        invariant
            i <= labels.len(),
            forall|j: int| 0 <= j < i ==> labels@[j]@ != l@,
        decreases labels.len() - i,
    {
        if *l == labels[i] {
            return Some(i);
        }
        i += 1;
    }
    None
}

pub(crate) fn labels_all_distinct(labels: &Vec<String>) -> (r: bool)
    ensures
        r == labels_distinct(label_views(labels@)),
{
    let mut i: usize = 1;
    if labels.len() == 0 {
        return true;
    }
    while i < labels.len()
        invariant
            1 <= i <= labels.len(),
            forall|a: int, b: int| 0 <= a < b < i ==> labels@[a]@ != labels@[b]@,
        decreases labels.len() - i,
    {
        let mut k: usize = 0;
        while k < i
            invariant
                k <= i < labels.len(),
                forall|a: int| 0 <= a < k ==> labels@[a]@ != labels@[i as int]@,
                forall|a: int, b: int| 0 <= a < b < i ==> labels@[a]@ != labels@[b]@,
            decreases i - k,
        {
            if labels[k] == labels[i] {
                proof {
                    assert(label_views(labels@)[k as int] == label_views(labels@)[i as int]);
                }
                return false;
            }
            k += 1;
        }
        i += 1;
    }
    proof {
        assert forall|a: int, b: int| 0 <= a < b < label_views(labels@).len() implies label_views(
            labels@,
        )[a] != label_views(labels@)[b] by {
            assert(label_views(labels@)[a] == labels@[a]@);
            assert(label_views(labels@)[b] == labels@[b]@);
        }
    }
    true
}

/// A plain directed graph whose vertices carry distinct string labels.
pub struct LabeledDigraph {
    pub dg: Digraph,
    pub labels: Vec<String>,
}

impl LabeledDigraph {
    pub open spec fn wf(self) -> bool {
        &&& self.dg.wf()
        &&& self.labels@.len() == self.dg.rows().len()
        &&& labels_distinct(label_views(self.labels@))
    }

    /// Whether some slot carries the label.
    pub open spec fn has_label(self, l: Seq<char>) -> bool {
        exists|i: int| 0 <= i < self.labels@.len() && (#[trigger] self.labels@[i])@ == l
    }

    /// The slot carrying the label.
    pub open spec fn slot_of(self, l: Seq<char>) -> int {
        choose|i: int| 0 <= i < self.labels@.len() && (#[trigger] self.labels@[i])@ == l
    }

    pub fn new() -> (r: LabeledDigraph)
        ensures
            r.wf(),
            r.dg.rows().len() == 0,
    {
        let r = LabeledDigraph { dg: Digraph::new(), labels: Vec::new() };
        r
    }

    /// Build from an adjacency list and one label per vertex.
    pub fn from_adjacency_list(
        v_count: usize,
        e_count: usize,
        adj: Vec<Vec<usize>>,
        labels: Vec<String>,
    ) -> (r: Result<LabeledDigraph, GraphError>)
        ensures
            r is Ok <==> (labels@.len() == v_count && labels_distinct(label_views(labels@))
                && crate::digraph::adjacency_ok(
                v_count as int,
                e_count as int,
                adj.deep_view(),
            )),
            r matches Ok(g) ==> {
                &&& g.wf()
                &&& g.dg.rows() == adj.deep_view()
                &&& g.dg.rows().len() == v_count
                &&& g.dg.e_count == e_count
                &&& g.dg.deleted_count == 0
                &&& forall|k: int|
                    0 <= k < g.dg.deleted@.len() ==> !(#[trigger] g.dg.deleted@[k])
                &&& g.labels@ == labels@
            },
    {
        if labels.len() != v_count {
            return Err(GraphError::InvalidAdjacency);
        }
        if !labels_all_distinct(&labels) {
            return Err(GraphError::InvalidAdjacency);
        }
        let dg = match Digraph::from_adjacency_list(v_count, e_count, adj) {
            Ok(d) => d,
            Err(e) => {
                return Err(e);
            },
        };
        Ok(LabeledDigraph { dg, labels })
    }

    /// Append a fresh vertex carrying the label.
    pub fn add_vertex(&mut self, label: String) -> (r: Result<usize, GraphError>)
        requires
            old(self).wf(),
        ensures
            r is Ok <==> !old(self).has_label(label@),
            r is Err ==> *final(self) == *old(self) && r == Err::<usize, GraphError>(
                GraphError::LabelExists,
            ),
            r is Ok ==> {
                &&& r == Ok::<usize, GraphError>(old(self).dg.rows().len() as usize)
                &&& final(self).wf()
                &&& final(self).labels@ == old(self).labels@.push(label)
                &&& final(self).dg.rows() == old(self).dg.rows().push(Seq::<usize>::empty())
            },
    {
        match find_label(&self.labels, &label) {
            Some(_) => Err(GraphError::LabelExists),
            None => {
                let idx = self.dg.append_vertex();
                self.labels.push(label);
                proof {
                    let lv = label_views(self.labels@);
                    let lv1 = label_views(old(self).labels@);
                    assert forall|a: int, b: int| 0 <= a < b < lv.len() implies lv[a] != lv[b] by {
                        assert(lv[a] == self.labels@[a]@ && lv[b] == self.labels@[b]@);
                        if b < lv.len() - 1 {
                            assert(lv1[a] == old(self).labels@[a]@);
                            assert(lv1[b] == old(self).labels@[b]@);
                        }
                    }
                }
                Ok(idx)
            },
        }
    }

    /// The label of a slot.
    pub fn label(&self, v: usize) -> (r: Option<String>)
        requires
            self.wf(),
        ensures
            r is Some <==> (v as int) < self.labels@.len(),
            r matches Some(l) ==> l@ == self.labels@[v as int]@,
    {
        if v < self.labels.len() {
            Some(self.labels[v].clone())
        } else {
            None
        }
    }

    /// The slot carrying a label.
    pub fn index(&self, label: &String) -> (r: Option<usize>)
        requires
            self.wf(),
        ensures
            r is Some <==> self.has_label(label@),
            r matches Some(i) ==> (i as int) < self.labels@.len() && self.labels@[i as int]@
                == label@,
    {
        find_label(&self.labels, label)
    }

    /// Rename a vertex: the old label must be present, the new one fresh.
    pub fn edit_label(&mut self, old_label: String, new_label: String) -> (r: Result<
        (),
        GraphError,
    >)
        requires
            old(self).wf(),
        ensures
            r == Ok::<(), GraphError>(()) <==> (old(self).has_label(old_label@) && (old_label@
                == new_label@ || !old(self).has_label(new_label@))),
            r is Err ==> *final(self) == *old(self),
            r is Ok ==> {
                &&& final(self).wf()
                &&& final(self).dg == old(self).dg
                &&& final(self).labels@.len() == old(self).labels@.len()
                &&& final(self).labels@[old(self).slot_of(old_label@)]@ == new_label@
                &&& forall|i: int|
                    0 <= i < old(self).labels@.len() && i != old(self).slot_of(old_label@)
                        ==> (#[trigger] final(self).labels@[i])@ == old(self).labels@[i]@
            },
    {
        let i = match find_label(&self.labels, &old_label) {
            Some(i) => i,
            None => {
                return Err(GraphError::LabelNotFound);
            },
        };
        proof {
            assert(self.has_label(old_label@));
            let j = self.slot_of(old_label@);
            if j != i as int {
                assert(label_views(self.labels@)[j] == label_views(self.labels@)[i as int]);
                assert(false);
            }
        }
        if !(old_label == new_label) {
            match find_label(&self.labels, &new_label) {
                Some(_) => {
                    return Err(GraphError::LabelExists);
                },
                None => {},
            }
        }
        let slot = crate::digraph::get_row_mut(&mut self.labels, i);
        *slot = new_label;
        proof {
            let lv = label_views(self.labels@);
            let lv1 = label_views(old(self).labels@);
            assert forall|a: int, b: int| 0 <= a < b < lv.len() implies lv[a] != lv[b] by {
                assert(lv[a] == self.labels@[a]@ && lv[b] == self.labels@[b]@);
                assert(lv1[a] == old(self).labels@[a]@ && lv1[b] == old(self).labels@[b]@);
            }
        }
        Ok(())
    }

    pub fn v_count(&self) -> (r: usize)
        requires
            self.wf(),
        ensures
            r == self.dg.rows().len() - crate::seqs::count_ones(self.dg.deleted@),
    {
        self.dg.v_count()
    }

    pub fn e_count(&self) -> (r: usize)
        requires
            self.wf(),
        ensures
            r == crate::encoding::flat_of(self.dg.rows()).len(),
    {
        self.dg.e_count()
    }

    pub fn vertex_exists(&self, label: &String) -> (r: bool)
        requires
            self.wf(),
        ensures
            r == (self.has_label(label@) && self.dg.exists_spec(self.slot_of(label@))),
    {
        match self.index(label) {
            Some(i) => {
                proof {
                    lemma_slot_unique(*self, label@, i as int);
                }
                self.dg.vertex_exists(i)
            },
            None => false,
        }
    }

    pub fn edge_exists(&self, from: &String, to: &String) -> (r: bool)
        requires
            self.wf(),
        ensures
            r == (self.has_label(from@) && self.has_label(to@) && {
                let fi = self.slot_of(from@);
                let ti = self.slot_of(to@);
                self.dg.exists_spec(fi) && self.dg.exists_spec(ti) && self.dg.rows()[fi].contains(
                    (ti as usize),
                )
            }),
    {
        let fi = match self.index(from) {
            Some(i) => i,
            None => {
                return false;
            },
        };
        let ti = match self.index(to) {
            Some(i) => i,
            None => {
                return false;
            },
        };
        proof {
            lemma_slot_unique(*self, from@, fi as int);
            lemma_slot_unique(*self, to@, ti as int);
        }
        self.dg.edge_exists(fi, ti)
    }

    /// Add the edge between the labelled vertices.
    pub fn add_edge(&mut self, from: String, to: String) -> (r: Result<(), GraphError>)
        requires
            old(self).wf(),
            old(self).dg.e_count < SYMBOL_LIMIT,
        ensures
            final(self).wf(),
            final(self).labels == old(self).labels,
            r is Err ==> final(self).dg == old(self).dg,
            r is Ok <==> (old(self).has_label(from@) && old(self).has_label(to@) && {
                let fi = old(self).slot_of(from@);
                let ti = old(self).slot_of(to@);
                old(self).dg.exists_spec(fi) && old(self).dg.exists_spec(ti) && !old(self).dg.rows()[fi].contains((ti as usize))
            }),
            r is Ok ==> {
                &&& final(self).dg.rows() == old(self).dg.rows().update(
                    old(self).slot_of(from@),
                    old(self).dg.rows()[old(self).slot_of(from@)].push(
                        (old(self).slot_of(to@) as usize),
                    ),
                )
                &&& final(self).dg.deleted == old(self).dg.deleted
                &&& final(self).dg.e_count == old(self).dg.e_count + 1
            },
    {
        let fi = match self.index(&from) {
            Some(i) => i,
            None => {
                return Err(GraphError::LabelNotFound);
            },
        };
        let ti = match self.index(&to) {
            Some(i) => i,
            None => {
                return Err(GraphError::LabelNotFound);
            },
        };
        proof {
            lemma_slot_unique(*self, from@, fi as int);
            lemma_slot_unique(*self, to@, ti as int);
        }
        let res = self.dg.add_edge(fi, ti);
        match res {
            Ok(_) => {
                proof {
                    crate::seqs::lemma_push_contains(old(self).dg.rows()[fi as int], ti);
                    assert(self.dg.rows()[fi as int] == old(self).dg.rows()[fi as int].push(ti));
                }
                Ok(())
            },
            Err(e) => Err(e),
        }
    }

    /// Delete the edge between the labelled vertices.
    pub fn delete_edge(&mut self, from: String, to: String) -> (r: Result<(), GraphError>)
        requires
            old(self).wf(),
        ensures
            final(self).wf(),
            final(self).labels == old(self).labels,
            r is Err ==> final(self).dg == old(self).dg,
            r is Ok <==> (old(self).has_label(from@) && old(self).has_label(to@) && {
                let fi = old(self).slot_of(from@);
                let ti = old(self).slot_of(to@);
                old(self).dg.exists_spec(fi) && old(self).dg.exists_spec(ti) && old(self).dg.rows()[fi].contains((ti as usize))
            }),
            r is Ok ==> {
                &&& final(self).dg.rows() == old(self).dg.rows().update(
                    old(self).slot_of(from@),
                    crate::seqs::remove_value(
                        old(self).dg.rows()[old(self).slot_of(from@)],
                        (old(self).slot_of(to@) as usize),
                    ),
                )
                &&& !final(self).dg.rows()[old(self).slot_of(from@)].contains(
                    (old(self).slot_of(to@) as usize),
                )
                &&& final(self).dg.deleted == old(self).dg.deleted
                &&& final(self).dg.e_count == old(self).dg.e_count - 1
            },
    {
        let fi = match self.index(&from) {
            Some(i) => i,
            None => {
                return Err(GraphError::LabelNotFound);
            },
        };
        let ti = match self.index(&to) {
            Some(i) => i,
            None => {
                return Err(GraphError::LabelNotFound);
            },
        };
        proof {
            lemma_slot_unique(*self, from@, fi as int);
            lemma_slot_unique(*self, to@, ti as int);
        }
        let res = self.dg.delete_edge(fi, ti);
        match res {
            Ok(_) => {
                proof {
                    crate::seqs::lemma_remove_value_nodup(old(self).dg.rows()[fi as int], ti);
                }
                Ok(())
            },
            Err(e) => Err(e),
        }
    }

    /// Delete the labelled vertex and its incident edges.  Its label stays
    /// on the slot, so the indices of the other vertices are unchanged.
    pub fn delete_vertex(&mut self, label: String) -> (r: Result<(), GraphError>)
        requires
            old(self).wf(),
        ensures
            final(self).wf(),
            final(self).labels == old(self).labels,
            r is Err ==> final(self).dg == old(self).dg,
            r is Ok <==> (old(self).has_label(label@) && old(self).dg.exists_spec(
                old(self).slot_of(label@),
            )),
            r is Ok ==> {
                let v = old(self).slot_of(label@);
                &&& final(self).dg.rows().len() == old(self).dg.rows().len()
                &&& final(self).dg.rows()[v].len() == 0
                &&& forall|u: int|
                    0 <= u < old(self).dg.rows().len() && u != v
                        ==> #[trigger] final(self).dg.rows()[u] == crate::seqs::remove_value(
                        old(self).dg.rows()[u],
                        (v as usize),
                    )
                &&& forall|w: int|
                    final(self).dg.exists_spec(w) == (old(self).dg.exists_spec(w) && w != v)
            },
    {
        let i = match self.index(&label) {
            Some(i) => i,
            None => {
                return Err(GraphError::LabelNotFound);
            },
        };
        proof {
            lemma_slot_unique(*self, label@, i as int);
        }
        let res = self.dg.delete_vertex(i);
        match res {
            Ok(_) => Ok(()),
            Err(e) => Err(e),
        }
    }
}

/// In a well-formed labeled graph the slot of a label is unique.
proof fn lemma_slot_unique(g: LabeledDigraph, l: Seq<char>, i: int)
    requires
        g.wf(),
        0 <= i < g.labels@.len(),
        g.labels@[i]@ == l,
    ensures
        g.has_label(l),
        g.slot_of(l) == i,
{
    assert(g.has_label(l));
    let j = g.slot_of(l);
    if j != i {
        assert(label_views(g.labels@)[j] == g.labels@[j]@);
        assert(label_views(g.labels@)[i] == g.labels@[i]@);
        assert(false);
    }
}

/// The smaller of the two slots the labels name.
pub open spec fn min_slot(g: LabeledDigraph, a: Seq<char>, b: Seq<char>) -> int {
    if g.slot_of(a) <= g.slot_of(b) {
        g.slot_of(a)
    } else {
        g.slot_of(b)
    }
}

/// The larger of the two slots the labels name.
pub open spec fn max_slot(g: LabeledDigraph, a: Seq<char>, b: Seq<char>) -> int {
    if g.slot_of(a) <= g.slot_of(b) {
        g.slot_of(b)
    } else {
        g.slot_of(a)
    }
}

/// The smaller of the two updated slots the labels name.
pub open spec fn min_uslot(g: LabeledWTDigraph, a: Seq<char>, b: Seq<char>) -> int {
    if g.slot_of_updated(a) <= g.slot_of_updated(b) {
        g.slot_of_updated(a)
    } else {
        g.slot_of_updated(b)
    }
}

/// The larger of the two updated slots the labels name.
pub open spec fn max_uslot(g: LabeledWTDigraph, a: Seq<char>, b: Seq<char>) -> int {
    if g.slot_of_updated(a) <= g.slot_of_updated(b) {
        g.slot_of_updated(b)
    } else {
        g.slot_of_updated(a)
    }
}

/// Undirected storage is canonical: every stored neighbour is at least its
/// row's index, so each undirected edge lives in exactly one row.
pub open spec fn canonical_rows(rows: Seq<Seq<usize>>) -> bool {
    forall|u: int, j: int|
        0 <= u < rows.len() && 0 <= j < rows[u].len() ==> (#[trigger] rows[u][j] as int) >= u
}

pub(crate) fn rows_canonical(adj: &Vec<Vec<usize>>) -> (r: bool)
    ensures
        r == canonical_rows(adj.deep_view()),
{
    let mut u: usize = 0;
    while u < adj.len()
        invariant
            u <= adj.len(),
            forall|x: int, j: int|
                0 <= x < u && 0 <= j < adj.deep_view()[x].len() ==> (#[trigger] adj.deep_view()[
                    x][j] as int) >= x,
        decreases adj.len() - u,
    {
        let row = &adj[u];
        proof {
            assert(adj.deep_view()[u as int] =~= adj@[u as int]@);
        }
        let mut j: usize = 0;
        while j < row.len()
            invariant
                j <= row.len(),
                u < adj.len(),
                row@ == adj.deep_view()[u as int],
                forall|k: int|
                    0 <= k < j ==> (#[trigger] row@[k] as int) >= u,
            decreases row.len() - j,
        {
            if row[j] < u {
                proof {
                    assert(adj.deep_view()[u as int][j as int] == row@[j as int]);
                }
                return false;
            }
            j += 1;
        }
        u += 1;
    }
    true
}

/// A plain undirected labeled graph: edges are stored in the directed
/// engine from the smaller index to the larger one.
pub struct LabeledUGraph {
    pub ldg: LabeledDigraph,
}

impl LabeledUGraph {
    pub open spec fn wf(self) -> bool {
        &&& self.ldg.wf()
        &&& canonical_rows(self.ldg.dg.rows())
    }

    pub fn new() -> (r: LabeledUGraph)
        ensures
            r.wf(),
            r.ldg.dg.rows().len() == 0,
    {
        let r = LabeledUGraph { ldg: LabeledDigraph::new() };
        r
    }

    pub fn from_adjacency_list(
        v_count: usize,
        e_count: usize,
        adj: Vec<Vec<usize>>,
        labels: Vec<String>,
    ) -> (r: Result<LabeledUGraph, GraphError>)
        ensures
            r is Ok <==> (labels@.len() == v_count && labels_distinct(label_views(labels@))
                && crate::digraph::adjacency_ok(v_count as int, e_count as int, adj.deep_view())
                && canonical_rows(adj.deep_view())),
            r matches Ok(g) ==> {
                &&& g.wf()
                &&& g.ldg.dg.rows() == adj.deep_view()
                &&& g.ldg.dg.e_count == e_count
                &&& g.ldg.dg.deleted_count == 0
                &&& g.ldg.labels@ == labels@
            },
    {
        // only canonically stored lists are accepted: every neighbour at
        // least its row index
        if !rows_canonical(&adj) {
            return Err(GraphError::InvalidAdjacency);
        }
        match LabeledDigraph::from_adjacency_list(v_count, e_count, adj, labels) {
            Ok(ldg) => Ok(LabeledUGraph { ldg }),
            Err(e) => Err(e),
        }
    }

    pub fn add_vertex(&mut self, label: String) -> (r: Result<usize, GraphError>)
        requires
            old(self).wf(),
        ensures
            r is Ok <==> !old(self).ldg.has_label(label@),
            r is Ok ==> final(self).wf() && r == Ok::<usize, GraphError>(
                old(self).ldg.dg.rows().len() as usize,
            ),
            r is Err ==> *final(self) == *old(self),
    {
        let res = self.ldg.add_vertex(label);
        proof {
            if res is Ok {
                let rows1 = old(self).ldg.dg.rows();
                assert forall|u: int, j: int|
                    0 <= u < self.ldg.dg.rows().len() && 0 <= j < self.ldg.dg.rows()[u].len()
                    implies (#[trigger] self.ldg.dg.rows()[u][j] as int) >= u by {
                    if u < rows1.len() {
                        assert(self.ldg.dg.rows()[u] == rows1[u]);
                    } else {
                        assert(self.ldg.dg.rows()[u].len() == 0);
                    }
                }
            }
        }
        res
    }

    pub fn v_count(&self) -> (r: usize)
        requires
            self.wf(),
        ensures
            r == self.ldg.dg.rows().len() - crate::seqs::count_ones(self.ldg.dg.deleted@),
    {
        self.ldg.v_count()
    }

    pub fn e_count(&self) -> (r: usize)
        requires
            self.wf(),
        ensures
            r == crate::encoding::flat_of(self.ldg.dg.rows()).len(),
    {
        self.ldg.e_count()
    }

    pub fn label(&self, v: usize) -> (r: Option<String>)
        requires
            self.wf(),
        ensures
            r is Some <==> (v as int) < self.ldg.labels@.len(),
            r matches Some(l) ==> l@ == self.ldg.labels@[v as int]@,
    {
        self.ldg.label(v)
    }

    pub fn index(&self, label: &String) -> (r: Option<usize>)
        requires
            self.wf(),
        ensures
            r is Some <==> self.ldg.has_label(label@),
            r matches Some(i) ==> (i as int) < self.ldg.labels@.len() && self.ldg.labels@[
                i as int]@ == label@,
    {
        self.ldg.index(label)
    }

    pub fn edit_label(&mut self, old_label: String, new_label: String) -> (r: Result<
        (),
        GraphError,
    >)
        requires
            old(self).wf(),
        ensures
            r == Ok::<(), GraphError>(()) <==> (old(self).ldg.has_label(old_label@) && (old_label@
                == new_label@ || !old(self).ldg.has_label(new_label@))),
            r is Err ==> *final(self) == *old(self),
            r is Ok ==> final(self).wf() && final(self).ldg.labels@[old(self).ldg.slot_of(
                old_label@,
            )]@ == new_label@,
    {
        self.ldg.edit_label(old_label, new_label)
    }

    pub fn vertex_exists(&self, label: &String) -> (r: bool)
        requires
            self.wf(),
        ensures
            r == (self.ldg.has_label(label@) && self.ldg.dg.exists_spec(self.ldg.slot_of(label@))),
    {
        self.ldg.vertex_exists(label)
    }

    /// Whether the undirected edge between the two labels is present, in its
    /// canonical direction.
    pub fn edge_exists(&self, a: &String, b: &String) -> (r: bool)
        requires
            self.wf(),
        ensures
            r == (self.ldg.has_label(a@) && self.ldg.has_label(b@) && {
                let ai = self.ldg.slot_of(a@);
                let bi = self.ldg.slot_of(b@);
                self.ldg.dg.exists_spec(ai) && self.ldg.dg.exists_spec(bi) && if ai <= bi {
                    self.ldg.dg.rows()[ai].contains((bi as usize))
                } else {
                    self.ldg.dg.rows()[bi].contains((ai as usize))
                }
            }),
    {
        let ai = match self.ldg.index(a) {
            Some(i) => i,
            None => {
                return false;
            },
        };
        let bi = match self.ldg.index(b) {
            Some(i) => i,
            None => {
                return false;
            },
        };
        proof {
            lemma_slot_unique(self.ldg, a@, ai as int);
            lemma_slot_unique(self.ldg, b@, bi as int);
        }
        if ai <= bi {
            self.ldg.dg.edge_exists(ai, bi)
        } else {
            self.ldg.dg.edge_exists(bi, ai)
        }
    }

    /// Add the undirected edge, stored from the smaller index to the larger.
    pub fn add_edge(&mut self, a: String, b: String) -> (r: Result<(), GraphError>)
        requires
            old(self).wf(),
            old(self).ldg.dg.e_count < SYMBOL_LIMIT,
        ensures
            final(self).wf(),
            final(self).ldg.labels == old(self).ldg.labels,
            r is Err ==> final(self).ldg.dg == old(self).ldg.dg,
            r is Ok <==> (old(self).ldg.has_label(a@) && old(self).ldg.has_label(b@) && {
                let lo = min_slot(old(self).ldg, a@, b@);
                let hi = max_slot(old(self).ldg, a@, b@);
                old(self).ldg.dg.exists_spec(lo) && old(self).ldg.dg.exists_spec(hi) && !old(self).ldg.dg.rows()[lo].contains((hi as usize))
            }),
            r is Ok ==> {
                let lo = min_slot(old(self).ldg, a@, b@);
                let hi = max_slot(old(self).ldg, a@, b@);
                &&& final(self).ldg.dg.rows() == old(self).ldg.dg.rows().update(
                    lo,
                    old(self).ldg.dg.rows()[lo].push((hi as usize)),
                )
                &&& final(self).ldg.dg.deleted == old(self).ldg.dg.deleted
                &&& final(self).ldg.dg.e_count == old(self).ldg.dg.e_count + 1
            },
    {
        let ai = match self.ldg.index(&a) {
            Some(i) => i,
            None => {
                return Err(GraphError::LabelNotFound);
            },
        };
        let bi = match self.ldg.index(&b) {
            Some(i) => i,
            None => {
                return Err(GraphError::LabelNotFound);
            },
        };
        proof {
            lemma_slot_unique(self.ldg, a@, ai as int);
            lemma_slot_unique(self.ldg, b@, bi as int);
        }
        let lo = if ai <= bi {
            ai
        } else {
            bi
        };
        let hi = if ai <= bi {
            bi
        } else {
            ai
        };
        let ghost rows1 = self.ldg.dg.rows();
        let res = self.ldg.dg.add_edge(lo, hi);
        proof {
            if res is Ok {
                assert forall|u: int, j: int|
                    0 <= u < self.ldg.dg.rows().len() && 0 <= j < self.ldg.dg.rows()[u].len()
                    implies (#[trigger] self.ldg.dg.rows()[u][j] as int) >= u by {
                    if u == lo as int && j == rows1[u].len() {
                        assert(self.ldg.dg.rows()[u][j] == hi);
                    } else {
                        if u == lo as int {
                            assert(self.ldg.dg.rows()[u][j] == rows1[u][j]);
                        } else {
                            assert(self.ldg.dg.rows()[u] == rows1[u]);
                        }
                    }
                }
            }
        }
        res
    }

    /// Delete the undirected edge, whichever way it is stored canonically.
    pub fn delete_edge(&mut self, a: String, b: String) -> (r: Result<(), GraphError>)
        requires
            old(self).wf(),
        ensures
            final(self).wf(),
            final(self).ldg.labels == old(self).ldg.labels,
            r is Err ==> final(self).ldg.dg == old(self).ldg.dg,
            r is Ok <==> (old(self).ldg.has_label(a@) && old(self).ldg.has_label(b@) && {
                let lo = min_slot(old(self).ldg, a@, b@);
                let hi = max_slot(old(self).ldg, a@, b@);
                old(self).ldg.dg.exists_spec(lo) && old(self).ldg.dg.exists_spec(hi) && old(self).ldg.dg.rows()[lo].contains((hi as usize))
            }),
            r is Ok ==> {
                let lo = min_slot(old(self).ldg, a@, b@);
                let hi = max_slot(old(self).ldg, a@, b@);
                &&& final(self).ldg.dg.rows() == old(self).ldg.dg.rows().update(
                    lo,
                    crate::seqs::remove_value(old(self).ldg.dg.rows()[lo], (hi as usize)),
                )
                &&& !final(self).ldg.dg.rows()[lo].contains((hi as usize))
                &&& final(self).ldg.dg.deleted == old(self).ldg.dg.deleted
                &&& final(self).ldg.dg.e_count == old(self).ldg.dg.e_count - 1
            },
    {
        let ai = match self.ldg.index(&a) {
            Some(i) => i,
            None => {
                return Err(GraphError::LabelNotFound);
            },
        };
        let bi = match self.ldg.index(&b) {
            Some(i) => i,
            None => {
                return Err(GraphError::LabelNotFound);
            },
        };
        proof {
            lemma_slot_unique(self.ldg, a@, ai as int);
            lemma_slot_unique(self.ldg, b@, bi as int);
        }
        let lo = if ai <= bi {
            ai
        } else {
            bi
        };
        let hi = if ai <= bi {
            bi
        } else {
            ai
        };
        let ghost rows1 = self.ldg.dg.rows();
        let res = self.ldg.dg.delete_edge(lo, hi);
        proof {
            if res is Ok {
                crate::seqs::lemma_remove_value_nodup(rows1[lo as int], hi);
                assert forall|u: int, j: int|
                    0 <= u < self.ldg.dg.rows().len() && 0 <= j < self.ldg.dg.rows()[u].len()
                    implies (#[trigger] self.ldg.dg.rows()[u][j] as int) >= u by {
                    if u == lo as int {
                        let s2 = self.ldg.dg.rows()[u];
                        assert(s2.contains(s2[j]));
                        assert(rows1[u].contains(s2[j]));
                        let k = choose|k: int|
                            0 <= k < rows1[u].len() && #[trigger] rows1[u][k] == s2[j];
                    } else {
                        assert(self.ldg.dg.rows()[u] == rows1[u]);
                    }
                }
            }
        }
        res
    }

    pub fn delete_vertex(&mut self, label: String) -> (r: Result<(), GraphError>)
        requires
            old(self).wf(),
        ensures
            final(self).wf(),
            final(self).ldg.labels == old(self).ldg.labels,
            r is Err ==> final(self).ldg.dg == old(self).ldg.dg,
            r is Ok <==> (old(self).ldg.has_label(label@) && old(self).ldg.dg.exists_spec(
                old(self).ldg.slot_of(label@),
            )),
            r is Ok ==> {
                let v = old(self).ldg.slot_of(label@);
                &&& final(self).ldg.dg.rows().len() == old(self).ldg.dg.rows().len()
                &&& final(self).ldg.dg.rows()[v].len() == 0
                &&& forall|u: int|
                    0 <= u < old(self).ldg.dg.rows().len() && u != v
                        ==> #[trigger] final(self).ldg.dg.rows()[u] == crate::seqs::remove_value(
                        old(self).ldg.dg.rows()[u],
                        (v as usize),
                    )
                &&& forall|w: int|
                    final(self).ldg.dg.exists_spec(w) == (old(self).ldg.dg.exists_spec(w) && w
                        != v)
            },
    {
        let ghost rows1 = self.ldg.dg.rows();
        let res = self.ldg.delete_vertex(label);
        proof {
            if res is Ok {
                let v = old(self).ldg.slot_of(label@);
                assert forall|u: int, j: int|
                    0 <= u < self.ldg.dg.rows().len() && 0 <= j < self.ldg.dg.rows()[u].len()
                    implies (#[trigger] self.ldg.dg.rows()[u][j] as int) >= u by {
                    if u != v {
                        let s2 = self.ldg.dg.rows()[u];
                        assert(s2 == crate::seqs::remove_value(rows1[u], (v as usize)));
                        crate::seqs::lemma_remove_value_nodup(rows1[u], (v as usize));
                        assert(s2.contains(s2[j]));
                        assert(rows1[u].contains(s2[j]));
                        let k = choose|k: int|
                            0 <= k < rows1[u].len() && #[trigger] rows1[u][k] == s2[j];
                    }
                }
            }
        }
        res
    }

    /// The labels at the other end of every edge touching the vertex: the
    /// lower-indexed neighbours that point at it, then its own row.
    pub fn edges(&self, label: &String) -> (r: Result<Vec<String>, GraphError>)
        requires
            self.wf(),
        ensures
            r is Ok <==> self.ldg.has_label(label@),
            r matches Ok(ls) ==> {
                let v = self.ldg.slot_of(label@);
                let ns = crate::adjacency::incoming_upto(self.ldg.dg.rows(), (v as usize), v)
                    + self.ldg.dg.rows()[v];
                &&& ls@.len() == ns.len()
                &&& forall|k: int|
                    0 <= k < ns.len() ==> (#[trigger] ls@[k])@ == self.ldg.labels@[ns[k] as int]@
                &&& forall|k1: int, k2: int| 0 <= k1 < k2 < ns.len() ==> ns[k1] != ns[k2]
            },
    {
        let vi = match self.ldg.index(label) {
            Some(i) => i,
            None => {
                return Err(GraphError::LabelNotFound);
            },
        };
        proof {
            lemma_slot_unique(self.ldg, label@, vi as int);
        }
        let ghost rows = self.ldg.dg.rows();
        let mut out: Vec<String> = Vec::new();
        let mut u: usize = 0;
        while u < vi
            invariant
                self.wf(),
                rows == self.ldg.dg.rows(),
                (vi as int) < rows.len(),
                (vi as int) < self.ldg.labels@.len(),
                u <= vi,
                out@.len() == crate::adjacency::incoming_upto(rows, vi, u as int).len(),
                forall|k: int|
                    0 <= k < out@.len() ==> (#[trigger] out@[k])@ == self.ldg.labels@[
                        crate::adjacency::incoming_upto(rows, vi, u as int)[k] as int]@,
            decreases vi - u,
        {
            proof {
                assert(rows[u as int] == self.ldg.dg.adj@[u as int]@);
            }
            if crate::digraph::vec_contains(&self.ldg.dg.adj[u], vi) {
                out.push(self.ldg.labels[u].clone());
                proof {
                    assert(crate::adjacency::incoming_upto(rows, vi, u + 1)
                        =~= crate::adjacency::incoming_upto(rows, vi, u as int).push(u));
                }
            } else {
                proof {
                    assert(crate::adjacency::incoming_upto(rows, vi, u + 1)
                        =~= crate::adjacency::incoming_upto(rows, vi, u as int));
                }
            }
            u += 1;
        }
        let row = match self.ldg.dg.outgoing_edges(vi) {
            Ok(o) => o,
            Err(_) => Vec::new(),
        };
        proof {
            if !self.ldg.dg.exists_spec(vi as int) {
                assert(self.ldg.dg.deleted@[vi as int]);
                assert(rows[vi as int].len() == 0);
                assert(row@ =~= rows[vi as int]);
            }
        }
        let ghost pre = crate::adjacency::incoming_upto(rows, vi, vi as int);
        let mut j: usize = 0;
        while j < row.len()
            invariant
                self.wf(),
                rows == self.ldg.dg.rows(),
                (vi as int) < rows.len(),
                (vi as int) < self.ldg.labels@.len(),
                j <= row.len(),
                row@ == rows[vi as int],
                pre == crate::adjacency::incoming_upto(rows, vi, vi as int),
                out@.len() == pre.len() + j,
                forall|k: int|
                    0 <= k < out@.len() ==> (#[trigger] out@[k])@ == self.ldg.labels@[(pre
                        + row@)[k] as int]@,
            decreases row.len() - j,
        {
            let w = row[j];
            proof {
                assert(rows[vi as int].contains(w)) by {
                    assert(rows[vi as int][j as int] == w);
                }
                assert((pre + row@)[pre.len() + j] == w);
            }
            out.push(self.ldg.labels[w].clone());
            j += 1;
        }
        proof {
            // each neighbour appears once: the lower side holds vertices
            // below this one, its own row holds only vertices at or above it
            let inc = crate::adjacency::incoming_upto(rows, vi, vi as int);
            let ns = inc + rows[vi as int];
            crate::adjacency::lemma_incoming_upto_props(rows, vi, vi as int);
            assert forall|k1: int, k2: int|
                0 <= k1 < k2 < ns.len() implies ns[k1] != ns[k2] by {
                if k2 < inc.len() {
                    assert(ns[k1] == inc[k1] && ns[k2] == inc[k2]);
                } else if k1 >= inc.len() {
                    assert(ns[k1] == rows[vi as int][k1 - inc.len()]);
                    assert(ns[k2] == rows[vi as int][k2 - inc.len()]);
                    assert(nodup(rows[vi as int]));
                } else {
                    assert(ns[k1] == inc[k1]);
                    assert(inc.contains(inc[k1]));
                    assert((inc[k1] as int) < vi as int);
                    assert(ns[k2] == rows[vi as int][k2 - inc.len()]);
                    assert((rows[vi as int][k2 - inc.len()] as int) >= vi as int);
                }
            }
        }
        Ok(out)
    }

    /// Delete every edge touching the vertex, leaving the vertex itself.
    pub fn delete_edges_from(&mut self, label: String) -> (r: Result<(), GraphError>)
        requires
            old(self).wf(),
        ensures
            final(self).wf(),
            final(self).ldg.labels == old(self).ldg.labels,
            r is Err ==> final(self).ldg.dg == old(self).ldg.dg,
            r is Ok <==> (old(self).ldg.has_label(label@) && old(self).ldg.dg.exists_spec(
                old(self).ldg.slot_of(label@),
            )),
            r is Ok ==> {
                let v = old(self).ldg.slot_of(label@);
                &&& final(self).ldg.dg.rows().len() == old(self).ldg.dg.rows().len()
                &&& final(self).ldg.dg.rows()[v].len() == 0
                &&& forall|u: int|
                    0 <= u < old(self).ldg.dg.rows().len() && u != v
                        ==> #[trigger] final(self).ldg.dg.rows()[u] == crate::seqs::remove_value(
                        old(self).ldg.dg.rows()[u],
                        (v as usize),
                    )
                &&& forall|u: int|
                    0 <= u < final(self).ldg.dg.rows().len() ==> !(#[trigger] final(self).ldg.dg.rows()[u]).contains((v as usize))
                &&& forall|w: int|
                    final(self).ldg.dg.exists_spec(w) == old(self).ldg.dg.exists_spec(w)
            },
    {
        let vi = match self.ldg.index(&label) {
            Some(i) => i,
            None => {
                return Err(GraphError::LabelNotFound);
            },
        };
        proof {
            lemma_slot_unique(self.ldg, label@, vi as int);
        }
        if !self.ldg.dg.vertex_exists(vi) {
            return Err(GraphError::VertexNotFound);
        }
        let n = self.ldg.dg.adj.len();
        proof {
            assert((vi as int) < n);
        }
        // removing the vertex and making it present again clears exactly its
        // incident edges while keeping every index stable
        let res = self.ldg.dg.delete_vertex(vi);
        proof {
            assert(res is Ok);
        }
        let res2 = self.ldg.dg.add_vertex(vi);
        proof {
            assert(res2 is Ok);
            let rows1 = old(self).ldg.dg.rows();
            assert forall|u: int|
                0 <= u < self.ldg.dg.rows().len() implies !(#[trigger] self.ldg.dg.rows()[
                u]).contains((vi as usize)) by {
                if u != vi as int {
                    crate::seqs::lemma_remove_value_nodup(rows1[u], vi);
                }
            }
            assert forall|u: int, j: int|
                0 <= u < self.ldg.dg.rows().len() && 0 <= j < self.ldg.dg.rows()[u].len()
                implies (#[trigger] self.ldg.dg.rows()[u][j] as int) >= u by {
                if u != vi as int {
                    let s2 = self.ldg.dg.rows()[u];
                    assert(s2 == crate::seqs::remove_value(rows1[u], vi));
                    crate::seqs::lemma_remove_value_nodup(rows1[u], vi);
                    assert(s2.contains(s2[j]));
                    assert(rows1[u].contains(s2[j]));
                    let k = choose|k: int|
                        0 <= k < rows1[u].len() && #[trigger] rows1[u][k] == s2[j];
                }
            }
        }
        Ok(())
    }
}

/// A wavelet-tree digraph with labelled vertices.  Committed slots carry
/// their label in `labels`; vertices appended since the last commit carry
/// theirs in `labels_uncommitted`, one entry per new slot, in order.
pub struct LabeledWTDigraph {
    pub dg: WTDigraph,
    pub labels: Vec<String>,
    pub labels_uncommitted: Vec<(usize, String)>,
}

impl LabeledWTDigraph {
    /// Labels of every slot of the updated view, committed first.
    pub open spec fn all_label_views(self) -> Seq<Seq<char>> {
        label_views(self.labels@) + self.labels_uncommitted@.map_values(
            |p: (usize, String)| p.1@,
        )
    }

    pub open spec fn wf(self) -> bool {
        &&& self.dg.wf()
        &&& self.labels@.len() == self.dg.committed_adj().len()
        &&& self.labels_uncommitted@.len() == self.dg.st().len_u()
            - self.dg.committed_adj().len()
        &&& forall|k: int|
            0 <= k < self.labels_uncommitted@.len()
                ==> (#[trigger] self.labels_uncommitted@[k]).0 as int
                    == self.dg.committed_adj().len() + k
        &&& labels_distinct(self.all_label_views())
    }

    /// The label of a slot of the updated view.
    pub open spec fn updated_label(self, v: int) -> Seq<char> {
        self.all_label_views()[v]
    }

    /// Whether some updated slot carries the label.
    pub open spec fn has_label_updated(self, l: Seq<char>) -> bool {
        exists|v: int| 0 <= v < self.all_label_views().len() && #[trigger] self.updated_label(v) == l
    }

    /// The updated slot carrying the label.
    pub open spec fn slot_of_updated(self, l: Seq<char>) -> int {
        choose|v: int| 0 <= v < self.all_label_views().len() && #[trigger] self.updated_label(v) == l
    }

    /// Whether a vertex carrying the label exists in the updated view.
    pub open spec fn exists_with_label(self, l: Seq<char>) -> bool {
        exists|v: int|
            0 <= v < self.all_label_views().len() && #[trigger] self.updated_label(v) == l
                && self.dg.st().exists_u(v)
    }

    pub fn new() -> (r: LabeledWTDigraph)
        ensures
            r.wf(),
            r.dg.committed_adj().len() == 0,
            r.dg.st().len_u() == 0,
    {
        let r = LabeledWTDigraph {
            dg: WTDigraph::new(),
            labels: Vec::new(),
            labels_uncommitted: Vec::new(),
        };
        proof {
            assert(r.all_label_views() =~= Seq::<Seq<char>>::empty());
        }
        r
    }

    /// Freeze a plain labelled digraph.
    pub fn from_labeled_digraph(ldg: LabeledDigraph) -> (r: LabeledWTDigraph)
        requires
            ldg.wf(),
        ensures
            r.wf(),
            r.dg.committed_adj() == ldg.dg.rows(),
            r.labels@ == ldg.labels@,
    {
        let dg = WTDigraph::from_digraph(ldg.dg);
        let r = LabeledWTDigraph { dg, labels: ldg.labels, labels_uncommitted: Vec::new() };
        proof {
            assert(r.all_label_views() =~= label_views(r.labels@));
        }
        r
    }

    /// The label an updated slot carries, read from the right table.
    fn label_at(&self, v: usize) -> (r: String)
        requires
            self.wf(),
            (v as int) < self.dg.st().len_u(),
        ensures
            r@ == self.updated_label(v as int),
    {
        if v < self.labels.len() {
            self.labels[v].clone()
        } else {
            let k = v - self.labels.len();
            let e = &self.labels_uncommitted[k];
            proof {
                assert(self.all_label_views()[v as int] == self.labels_uncommitted@[k as int].1@);
            }
            e.1.clone()
        }
    }

    /// The updated slot carrying the label, if that vertex exists in the
    /// updated view.
    pub fn index_updated(&self, label: &String) -> (r: Option<usize>)
        requires
            self.wf(),
        ensures
            r matches Some(v) ==> (v as int) < self.dg.st().len_u() && self.updated_label(v as int)
                == label@ && self.dg.st().exists_u(v as int),
            r is None ==> forall|v: int|
                0 <= v < self.dg.st().len_u() && #[trigger] self.updated_label(v) == label@
                    ==> !self.dg.st().exists_u(v),
    {
        let n = self.dg.wt_adj_len_updated;
        let mut v: usize = 0;
        while v < n
            invariant
                self.wf(),
                n == self.dg.wt_adj_len_updated,
                v <= n,
                n as int == self.dg.st().len_u(),
                forall|w: int|
                    0 <= w < v && #[trigger] self.updated_label(w) == label@
                        ==> !self.dg.st().exists_u(w),
            decreases n - v,
        {
            let l = self.label_at(v);
            if l == *label && self.dg.vertex_exists_updated(v) {
                return Some(v);
            }
            v += 1;
        }
        None
    }

    /// The committed slot carrying the label.
    pub fn index(&self, label: &String) -> (r: Option<usize>)
        requires
            self.wf(),
        ensures
            r matches Some(i) ==> (i as int) < self.labels@.len() && self.labels@[i as int]@
                == label@,
            r is None ==> forall|i: int| 0 <= i < self.labels@.len() ==> labels_ne(self.labels@, i, label@),
    {
        find_label(&self.labels, label)
    }

    /// The committed label of a slot.
    pub fn label(&self, v: usize) -> (r: Option<String>)
        requires
            self.wf(),
        ensures
            r is Some <==> (v as int) < self.labels@.len(),
            r matches Some(l) ==> l@ == self.labels@[v as int]@,
    {
        if v < self.labels.len() {
            Some(self.labels[v].clone())
        } else {
            None
        }
    }

    /// The label of an updated slot, if the vertex exists there.
    pub fn label_updated(&self, v: usize) -> (r: Option<String>)
        requires
            self.wf(),
        ensures
            r is Some <==> self.dg.st().exists_u(v as int),
            r matches Some(l) ==> l@ == self.updated_label(v as int),
    {
        if self.dg.vertex_exists_updated(v) {
            Some(self.label_at(v))
        } else {
            None
        }
    }

    /// Append a fresh vertex carrying the label.
    pub fn add_vertex(&mut self, label: String) -> (r: Result<usize, GraphError>)
        requires
            old(self).wf(),
            old(self).dg.wt_adj_len_updated < usize::MAX,
        ensures
            r is Ok <==> !old(self).all_label_views().contains(label@),
            r is Err ==> *final(self) == *old(self) && r == Err::<usize, GraphError>(
                GraphError::LabelExists,
            ),
            r is Ok ==> {
                &&& r == Ok::<usize, GraphError>(old(self).dg.wt_adj_len_updated)
                &&& final(self).wf()
                &&& final(self).dg.st().len_u() == old(self).dg.st().len_u() + 1
                &&& final(self).updated_label(old(self).dg.st().len_u()) == label@
                &&& final(self).dg.st().vcount() == old(self).dg.st().vcount() + 1
                &&& final(self).dg.st().ecount() == old(self).dg.st().ecount()
                &&& final(self).labels == old(self).labels
            },
    {
        // reject a label some slot already carries
        let mut v: usize = 0;
        let n = self.dg.wt_adj_len_updated;
        while v < n
            invariant
                self.wf(),
                n == self.dg.wt_adj_len_updated,
                v <= n,
                n as int == self.dg.st().len_u(),
                forall|w: int| 0 <= w < v ==> #[trigger] self.all_label_views()[w] != label@,
            decreases n - v,
        {
            let l = self.label_at(v);
            if l == label {
                proof {
                    assert(self.all_label_views().contains(label@)) by {
                        assert(self.all_label_views()[v as int] == label@);
                    }
                }
                return Err(GraphError::LabelExists);
            }
            v += 1;
        }
        proof {
            if old(self).all_label_views().contains(label@) {
                let w = choose|w: int|
                    0 <= w < old(self).all_label_views().len()
                        && #[trigger] old(self).all_label_views()[w] == label@;
                assert(false);
            }
        }
        let idx = self.dg.wt_adj_len_updated;
        let res = self.dg.append_vertex();
        proof {
            assert(res is Ok);
        }
        self.labels_uncommitted.push((idx, label));
        proof {
            assert(self.all_label_views() =~= old(self).all_label_views().push(label@));
            let lv = self.all_label_views();
            let lv1 = old(self).all_label_views();
            assert forall|a: int, b: int| 0 <= a < b < lv.len() implies lv[a] != lv[b] by {
                if b == lv.len() - 1 {
                    assert(lv[a] == lv1[a]);
                    assert(lv1[a] != label@);
                } else {
                    assert(lv[a] == lv1[a] && lv[b] == lv1[b]);
                }
            }
        }
        Ok(idx)
    }

    /// Rename a vertex, wherever its label lives.
    pub fn edit_label(&mut self, old_label: String, new_label: String) -> (r: Result<
        (),
        GraphError,
    >)
        requires
            old(self).wf(),
        ensures
            final(self).wf(),
            final(self).dg == old(self).dg,
            r is Err ==> final(self).labels == old(self).labels
                && final(self).labels_uncommitted == old(self).labels_uncommitted,
            r is Ok <==> (old(self).all_label_views().contains(old_label@) && (old_label@
                == new_label@ || !old(self).all_label_views().contains(new_label@))),
            r is Ok ==> (old(self).all_label_views().contains(old_label@) && {
                let v = choose|v: int|
                    0 <= v < old(self).all_label_views().len() && #[trigger] old(self).all_label_views()[v] == old_label@;
                final(self).updated_label(v) == new_label@ && forall|w: int|
                    0 <= w < old(self).all_label_views().len() && w != v
                        ==> #[trigger] final(self).updated_label(w) == old(self).updated_label(w)
            }),
    {
        // the new label must be fresh
        if !(old_label == new_label) {
            let mut v: usize = 0;
            let n = self.dg.wt_adj_len_updated;
            while v < n
                invariant
                    *self == *old(self),
                    self.wf(),
                    old_label@ != new_label@,
                    n == self.dg.wt_adj_len_updated,
                    v <= n,
                    n as int == self.dg.st().len_u(),
                    forall|w: int|
                        0 <= w < v ==> #[trigger] self.all_label_views()[w] != new_label@,
                decreases n - v,
            {
                let l = self.label_at(v);
                if l == new_label {
                    proof {
                        assert(old(self).all_label_views().contains(new_label@)) by {
                            assert(self.all_label_views()[v as int] == new_label@);
                        }
                    }
                    return Err(GraphError::LabelExists);
                }
                v += 1;
            }
        }
        // find the slot carrying the old label
        let n = self.dg.wt_adj_len_updated;
        let mut v: usize = 0;
        while v < n
            invariant
                self.wf(),
                old(self).wf(),
                *self == *old(self),
                n == self.dg.wt_adj_len_updated,
                v <= n,
                n as int == self.dg.st().len_u(),
                forall|w: int| 0 <= w < v ==> #[trigger] self.all_label_views()[w] != old_label@,
                old_label@ == new_label@ || forall|w: int|
                    0 <= w < n as int ==> #[trigger] self.all_label_views()[w] != new_label@,
            decreases n - v,
        {
            let l = self.label_at(v);
            if l == old_label {
                let ghost lv1 = self.all_label_views();
                if v < self.labels.len() {
                    let slot = crate::digraph::get_row_mut(&mut self.labels, v);
                    *slot = new_label;
                } else {
                    let k = v - self.labels.len();
                    let idx = self.labels_uncommitted[k].0;
                    let slot = crate::digraph::get_row_mut(&mut self.labels_uncommitted, k);
                    *slot = (idx, new_label);
                }
                proof {
                    assert(self.all_label_views() =~= lv1.update(v as int, new_label@));
                    let lv = self.all_label_views();
                    assert forall|a: int, b: int| 0 <= a < b < lv.len() implies lv[a] != lv[b] by {
                        if a != v as int && b != v as int {
                            assert(lv[a] == lv1[a] && lv[b] == lv1[b]);
                        }
                    }
                    assert(lv1.contains(old_label@)) by {
                        assert(lv1[v as int] == old_label@);
                    }
                    let w0 = choose|w: int|
                        0 <= w < lv1.len() && #[trigger] lv1[w] == old_label@;
                    if w0 != v as int {
                        assert(false);
                    }
                    assert(old(self).all_label_views().contains(old_label@));
                    if old_label@ != new_label@ {
                        if old(self).all_label_views().contains(new_label@) {
                            let w2 = choose|w: int|
                                0 <= w < old(self).all_label_views().len()
                                    && #[trigger] old(self).all_label_views()[w] == new_label@;
                            assert(false);
                        }
                    }
                }
                return Ok(());
            }
            v += 1;
        }
        proof {
            if old(self).all_label_views().contains(old_label@) {
                let w = choose|w: int|
                    0 <= w < old(self).all_label_views().len()
                        && #[trigger] old(self).all_label_views()[w] == old_label@;
                assert(false);
            }
        }
        Err(GraphError::LabelNotFound)
    }

    pub fn v_count(&self) -> (r: usize)
        requires
            self.wf(),
        ensures
            r == self.dg.committed_vcount(),
    {
        self.dg.v_count()
    }

    pub fn e_count(&self) -> (r: usize)
        requires
            self.wf(),
        ensures
            r == crate::encoding::flat_of(self.dg.committed_adj()).len(),
    {
        self.dg.e_count()
    }

    pub fn v_count_updated(&self) -> (r: usize)
        requires
            self.wf(),
        ensures
            r == self.dg.st().vcount(),
    {
        self.dg.v_count_updated()
    }

    pub fn e_count_updated(&self) -> (r: usize)
        requires
            self.wf(),
        ensures
            r == self.dg.st().ecount(),
    {
        self.dg.e_count_updated()
    }

    pub fn vertex_exists(&self, label: &String) -> (r: bool)
        requires
            self.wf(),
        ensures
            r == (self.has_committed_label(label@) && self.dg.st().exists_c(
                self.slot_of_committed(label@),
            )),
    {
        match self.index(label) {
            Some(i) => {
                proof {
                    let j = self.slot_of_committed(label@);
                    assert(self.labels@[i as int]@ == label@);
                    assert(self.has_committed_label(label@));
                    if j != i as int {
                        assert(self.all_label_views()[j] == self.labels@[j]@);
                        assert(self.all_label_views()[i as int] == self.labels@[i as int]@);
                        assert(false);
                    }
                }
                self.dg.vertex_exists(i)
            },
            None => {
                proof {
                    lemma_no_committed_label(*self, label@);
                }
                false
            },
        }
    }

    /// The committed slot carrying the label, as a spec value.
    pub open spec fn slot_of_committed(self, l: Seq<char>) -> int {
        choose|i: int| 0 <= i < self.labels@.len() && (#[trigger] self.labels@[i])@ == l
    }

    pub fn vertex_exists_updated(&self, label: &String) -> (r: bool)
        requires
            self.wf(),
        ensures
            r == exists|v: int|
                0 <= v < self.dg.st().len_u() && #[trigger] self.updated_label(v) == label@
                    && self.dg.st().exists_u(v),
    {
        match self.index_updated(label) {
            Some(v) => {
                proof {
                    assert(self.updated_label(v as int) == label@ && self.dg.st().exists_u(
                        v as int,
                    ));
                }
                true
            },
            None => false,
        }
    }

    /// Buffer a new edge between the labelled vertices.
    pub fn add_edge(&mut self, from: String, to: String) -> (r: Result<(), GraphError>)
        requires
            old(self).wf(),
            old(self).dg.st().ecount() < SYMBOL_LIMIT,
        ensures
            final(self).wf(),
            final(self).labels == old(self).labels,
            final(self).labels_uncommitted == old(self).labels_uncommitted,
            r is Ok <==> (old(self).exists_with_label(from@) && old(self).exists_with_label(to@)
                && !old(self).dg.st().replay_row(old(self).slot_of_updated(from@)).contains(
                (old(self).slot_of_updated(to@) as usize),
            )),
            r is Err ==> final(self).dg == old(self).dg,
            r is Ok ==> final(self).dg.st().has_edge(
                old(self).slot_of_updated(from@),
                (old(self).slot_of_updated(to@) as usize),
            ) && final(self).dg.e_count_updated == old(self).dg.e_count_updated + 1,
    {
        let fi = match self.index_updated(&from) {
            Some(i) => i,
            None => {
                proof {
                    lemma_no_updated_label(*self, from@);
                }
                return Err(GraphError::LabelNotFound);
            },
        };
        let ti = match self.index_updated(&to) {
            Some(i) => i,
            None => {
                proof {
                    lemma_no_updated_label(*self, to@);
                }
                return Err(GraphError::LabelNotFound);
            },
        };
        proof {
            lemma_updated_slot_unique(*self, from@, fi as int);
            lemma_updated_slot_unique(*self, to@, ti as int);
            assert(self.exists_with_label(from@)) by {
                assert(self.updated_label(fi as int) == from@ && self.dg.st().exists_u(fi as int));
            }
            assert(self.exists_with_label(to@)) by {
                assert(self.updated_label(ti as int) == to@ && self.dg.st().exists_u(ti as int));
            }
        }
        match self.dg.add_edge(fi, ti) {
            Ok(_) => {
                proof {
                    crate::seqs::lemma_push_contains(
                        old(self).dg.st().replay_row(fi as int),
                        ti,
                    );
                }
                Ok(())
            },
            Err(e) => Err(e),
        }
    }

    /// Buffer the deletion of the edge between the labelled vertices.
    pub fn delete_edge(&mut self, from: String, to: String) -> (r: Result<(), GraphError>)
        requires
            old(self).wf(),
        ensures
            final(self).wf(),
            final(self).labels == old(self).labels,
            final(self).labels_uncommitted == old(self).labels_uncommitted,
            r is Ok <==> (old(self).exists_with_label(from@) && old(self).exists_with_label(to@)
                && old(self).dg.st().has_edge(
                old(self).slot_of_updated(from@),
                (old(self).slot_of_updated(to@) as usize),
            )),
            r is Err ==> final(self).dg == old(self).dg,
            r is Ok ==> !final(self).dg.st().has_edge(
                old(self).slot_of_updated(from@),
                (old(self).slot_of_updated(to@) as usize),
            ) && final(self).dg.e_count_updated == old(self).dg.e_count_updated - 1,
    {
        let fi = match self.index_updated(&from) {
            Some(i) => i,
            None => {
                proof {
                    lemma_no_updated_label(*self, from@);
                }
                return Err(GraphError::LabelNotFound);
            },
        };
        let ti = match self.index_updated(&to) {
            Some(i) => i,
            None => {
                proof {
                    lemma_no_updated_label(*self, to@);
                }
                return Err(GraphError::LabelNotFound);
            },
        };
        proof {
            lemma_updated_slot_unique(*self, from@, fi as int);
            lemma_updated_slot_unique(*self, to@, ti as int);
            assert(self.exists_with_label(from@)) by {
                assert(self.updated_label(fi as int) == from@ && self.dg.st().exists_u(fi as int));
            }
            assert(self.exists_with_label(to@)) by {
                assert(self.updated_label(ti as int) == to@ && self.dg.st().exists_u(ti as int));
            }
        }
        match self.dg.delete_edge(fi, ti) {
            Ok(_) => {
                proof {
                    crate::seqs::lemma_remove_value_nodup(
                        old(self).dg.st().replay_row(fi as int),
                        ti,
                    );
                }
                Ok(())
            },
            Err(e) => Err(e),
        }
    }

    /// Mark the labelled vertex removed in the updated view.
    pub fn delete_vertex(&mut self, label: String) -> (r: Result<(), GraphError>)
        requires
            old(self).wf(),
        ensures
            final(self).wf(),
            final(self).labels == old(self).labels,
            final(self).labels_uncommitted == old(self).labels_uncommitted,
            r is Ok <==> old(self).exists_with_label(label@),
            r is Err ==> final(self).dg == old(self).dg,
            r is Ok ==> !final(self).dg.st().exists_u(old(self).slot_of_updated(label@))
                && final(self).dg.st().vcount() == old(self).dg.st().vcount() - 1,
    {
        let vi = match self.index_updated(&label) {
            Some(i) => i,
            None => {
                proof {
                    lemma_no_updated_label(*self, label@);
                }
                return Err(GraphError::LabelNotFound);
            },
        };
        proof {
            lemma_updated_slot_unique(*self, label@, vi as int);
            assert(self.exists_with_label(label@)) by {
                assert(self.updated_label(vi as int) == label@ && self.dg.st().exists_u(
                    vi as int,
                ));
            }
        }
        match self.dg.delete_vertex(vi) {
            Ok(_) => Ok(()),
            Err(e) => Err(e),
        }
    }

    /// Whether the committed view has an edge between the vertices the two
    /// labels name in the committed table.
    pub fn edge_exists(&self, from: &String, to: &String) -> (r: bool)
        requires
            self.wf(),
        ensures
            r == (self.has_committed_label(from@) && self.has_committed_label(to@) && {
                let fi = self.slot_of_committed(from@);
                let ti = self.slot_of_committed(to@);
                self.dg.st().exists_c(fi) && self.dg.st().exists_c(ti)
                    && self.dg.committed_adj()[fi].contains((ti as usize))
            }),
    {
        let fi = match self.index(from) {
            Some(i) => i,
            None => {
                proof {
                    if self.has_committed_label(from@) {
                        let i = choose|i: int|
                            0 <= i < self.labels@.len() && (#[trigger] self.labels@[i])@ == from@;
                        assert(labels_ne(self.labels@, i, from@));
                        assert(false);
                    }
                }
                return false;
            },
        };
        let ti = match self.index(to) {
            Some(i) => i,
            None => {
                proof {
                    if self.has_committed_label(to@) {
                        let i = choose|i: int|
                            0 <= i < self.labels@.len() && (#[trigger] self.labels@[i])@ == to@;
                        assert(labels_ne(self.labels@, i, to@));
                        assert(false);
                    }
                }
                return false;
            },
        };
        proof {
            lemma_committed_slot_unique(*self, from@, fi as int);
            lemma_committed_slot_unique(*self, to@, ti as int);
        }
        self.dg.edge_exists(fi, ti)
    }

    /// Whether some committed slot carries the label.
    pub open spec fn has_committed_label(self, l: Seq<char>) -> bool {
        exists|i: int| 0 <= i < self.labels@.len() && (#[trigger] self.labels@[i])@ == l
    }

    /// Whether the updated view has a visible edge between the vertices the
    /// two labels name.
    pub fn edge_exists_updated(&self, from: &String, to: &String) -> (r: bool)
        requires
            self.wf(),
        ensures
            r == (self.exists_with_label(from@) && self.exists_with_label(to@)
                && self.dg.st().has_edge(
                self.slot_of_updated(from@),
                (self.slot_of_updated(to@) as usize),
            )),
    {
        let fi = match self.index_updated(from) {
            Some(i) => i,
            None => {
                return false;
            },
        };
        let ti = match self.index_updated(to) {
            Some(i) => i,
            None => {
                return false;
            },
        };
        proof {
            lemma_updated_slot_unique(*self, from@, fi as int);
            lemma_updated_slot_unique(*self, to@, ti as int);
            assert(self.exists_with_label(from@)) by {
                assert(self.updated_label(fi as int) == from@ && self.dg.st().exists_u(fi as int));
            }
            assert(self.exists_with_label(to@)) by {
                assert(self.updated_label(ti as int) == to@ && self.dg.st().exists_u(ti as int));
            }
        }
        self.dg.edge_exists_updated(fi, ti)
    }

    /// Rebuild the committed layer; the labels of the appended vertices move
    /// into the committed table, one per new slot.
    pub fn commit_edits(&mut self)
        requires
            old(self).wf(),
        ensures
            final(self).wf(),
            final(self).dg.committed_adj().len() == old(self).dg.st().len_u(),
            final(self).labels@.len() == old(self).all_label_views().len(),
            forall|v: int|
                0 <= v < old(self).all_label_views().len() ==> (#[trigger] final(self).labels@[
                    v])@ == old(self).updated_label(v),
            final(self).labels_uncommitted@.len() == 0,
            forall|v: int|
                0 <= v < old(self).dg.st().len_u() ==> #[trigger] final(self).dg.committed_adj()[
                    v] == if old(self).dg.st().exists_u(v) {
                    old(self).dg.st().vis_row(v)
                } else {
                    Seq::<usize>::empty()
                },
            forall|w: int| final(self).dg.st().exists_c(w) == old(self).dg.st().exists_u(w),
            forall|w: int| final(self).dg.st().exists_u(w) == old(self).dg.st().exists_u(w),
            forall|v: int|
                0 <= v < old(self).dg.st().len_u() ==> #[trigger] final(self).dg.st().replay_row(
                    v,
                ) == final(self).dg.committed_adj()[v],
            final(self).dg.st().len_u() == old(self).dg.st().len_u(),
            final(self).dg.v_count_updated == old(self).dg.v_count_updated,
            final(self).dg.e_count_updated == old(self).dg.e_count_updated,
            final(self).dg.committed_vcount() == old(self).dg.st().vcount(),
            !final(self).dg.has_uncommitted_edits,
    {
        let m = self.labels_uncommitted.len();
        let mut k: usize = 0;
        while k < m
            invariant
                old(self).wf(),
                m == old(self).labels_uncommitted@.len(),
                k <= m,
                self.dg == old(self).dg,
                self.labels_uncommitted == old(self).labels_uncommitted,
                self.labels@.len() == old(self).labels@.len() + k,
                forall|i: int|
                    0 <= i < old(self).labels@.len() ==> #[trigger] self.labels@[i] == old(self).labels@[i],
                forall|i: int|
                    0 <= i < k ==> #[trigger] self.labels@[old(self).labels@.len() + i] == old(self).labels_uncommitted@[i].1,
            decreases m - k,
        {
            let l = self.labels_uncommitted[k].1.clone();
            self.labels.push(l);
            k += 1;
        }
        self.dg.commit_edits();
        self.labels_uncommitted = Vec::new();
        proof {
            assert(label_views(self.labels@) =~= old(self).all_label_views());
            assert(self.all_label_views() =~= label_views(self.labels@));
        }
    }

    /// Drop every pending edit; the labels of the uncommitted vertices go
    /// with their slots.
    pub fn discard_edits(&mut self)
        requires
            old(self).wf(),
        ensures
            final(self).wf(),
            final(self).labels == old(self).labels,
            final(self).labels_uncommitted@.len() == 0,
            final(self).dg.ca == old(self).dg.ca,
            final(self).dg.st().len_u() == old(self).dg.committed_adj().len(),
            forall|w: int| final(self).dg.st().exists_u(w) == old(self).dg.st().exists_c(w),
            forall|v: int|
                0 <= v < old(self).dg.committed_adj().len() ==> #[trigger] final(self).dg.st().replay_row(v) == old(self).dg.committed_adj()[v],
            final(self).dg.v_count_updated == old(self).dg.committed_vcount(),
            final(self).dg.e_count_updated == crate::encoding::flat_of(
                old(self).dg.committed_adj(),
            ).len(),
            !final(self).dg.has_uncommitted_edits,
    {
        self.dg.discard_edits();
        self.labels_uncommitted = Vec::new();
        proof {
            assert(self.all_label_views() =~= label_views(self.labels@));
            assert(labels_distinct(self.all_label_views())) by {
                let lv = self.all_label_views();
                let lv1 = old(self).all_label_views();
                assert forall|a: int, b: int| 0 <= a < b < lv.len() implies lv[a] != lv[b] by {
                    assert(lv[a] == lv1[a] && lv[b] == lv1[b]);
                }
            }
        }
    }
}

/// Two label slots differ, spelt out for the quantifier above.
pub open spec fn labels_ne(ls: Seq<String>, i: int, l: Seq<char>) -> bool {
    ls[i]@ != l
}

/// When no committed slot matched during the scan, no committed slot
/// carries the label.
proof fn lemma_no_committed_label(g: LabeledWTDigraph, l: Seq<char>)
    requires
        forall|i: int| 0 <= i < g.labels@.len() ==> labels_ne(g.labels@, i, l),
    ensures
        !g.has_committed_label(l),
{
    if g.has_committed_label(l) {
        let i = choose|i: int| 0 <= i < g.labels@.len() && (#[trigger] g.labels@[i])@ == l;
        assert(labels_ne(g.labels@, i, l));
        assert(false);
    }
}

/// In a well-formed labelled wavelet-tree graph a committed label's slot is
/// unique.
proof fn lemma_committed_slot_unique(g: LabeledWTDigraph, l: Seq<char>, i: int)
    requires
        g.wf(),
        0 <= i < g.labels@.len(),
        g.labels@[i]@ == l,
    ensures
        g.has_committed_label(l),
        g.slot_of_committed(l) == i,
{
    assert(g.has_committed_label(l));
    let j = g.slot_of_committed(l);
    if j != i {
        assert(g.all_label_views()[j] == g.labels@[j]@);
        assert(g.all_label_views()[i] == g.labels@[i]@);
        assert(false);
    }
}

/// When the scan found no existing slot with the label, no vertex carries
/// it in the updated view.
proof fn lemma_no_updated_label(g: LabeledWTDigraph, l: Seq<char>)
    requires
        forall|v: int|
            0 <= v < g.dg.st().len_u() && #[trigger] g.updated_label(v) == l
                ==> !g.dg.st().exists_u(v),
        g.wf(),
    ensures
        !g.exists_with_label(l),
{
    if g.exists_with_label(l) {
        let v = choose|v: int|
            0 <= v < g.all_label_views().len() && #[trigger] g.updated_label(v) == l
                && g.dg.st().exists_u(v);
        assert(false);
    }
}

/// In a well-formed labelled wavelet-tree graph the slot carrying a label is
/// unique across the whole updated view.
proof fn lemma_updated_slot_unique(g: LabeledWTDigraph, l: Seq<char>, v: int)
    requires
        g.wf(),
        0 <= v < g.all_label_views().len(),
        g.updated_label(v) == l,
    ensures
        g.slot_of_updated(l) == v,
{
    let w = g.slot_of_updated(l);
    assert(0 <= w < g.all_label_views().len() && g.updated_label(w) == l) by {
        assert(g.updated_label(v) == l);
    }
    if w != v {
        assert(g.all_label_views()[w] == g.all_label_views()[v]);
        assert(false);
    }
}

/// A wavelet-tree undirected graph with labelled vertices: a labelled
/// directed engine whose edges are stored from the smaller index to the
/// larger one.
pub struct LabeledWTUGraph {
    pub ldg: LabeledWTDigraph,
}

impl LabeledWTUGraph {
    pub open spec fn wf(self) -> bool {
        self.ldg.wf()
    }

    pub fn new() -> (r: LabeledWTUGraph)
        ensures
            r.wf(),
            r.ldg.dg.committed_adj().len() == 0,
    {
        LabeledWTUGraph { ldg: LabeledWTDigraph::new() }
    }

    /// Freeze a plain labelled digraph into undirected wavelet-tree form.
    pub fn from_digraph(ldg: LabeledDigraph) -> (r: LabeledWTUGraph)
        requires
            ldg.wf(),
        ensures
            r.wf(),
            r.ldg.dg.committed_adj() == ldg.dg.rows(),
            r.ldg.labels@ == ldg.labels@,
    {
        LabeledWTUGraph { ldg: LabeledWTDigraph::from_labeled_digraph(ldg) }
    }

    /// Freeze a plain labelled undirected graph.
    pub fn from(g: LabeledUGraph) -> (r: LabeledWTUGraph)
        requires
            g.wf(),
        ensures
            r.wf(),
            r.ldg.dg.committed_adj() == g.ldg.dg.rows(),
            r.ldg.labels@ == g.ldg.labels@,
    {
        LabeledWTUGraph { ldg: LabeledWTDigraph::from_labeled_digraph(g.ldg) }
    }

    pub fn add_vertex(&mut self, label: String) -> (r: Result<usize, GraphError>)
        requires
            old(self).wf(),
            old(self).ldg.dg.wt_adj_len_updated < usize::MAX,
        ensures
            r is Ok <==> !old(self).ldg.all_label_views().contains(label@),
            r is Ok ==> final(self).wf() && r == Ok::<usize, GraphError>(
                old(self).ldg.dg.wt_adj_len_updated,
            ),
            r is Err ==> *final(self) == *old(self),
    {
        self.ldg.add_vertex(label)
    }

    pub fn v_count(&self) -> (r: usize)
        requires
            self.wf(),
        ensures
            r == self.ldg.dg.committed_vcount(),
    {
        self.ldg.v_count()
    }

    pub fn e_count(&self) -> (r: usize)
        requires
            self.wf(),
        ensures
            r == crate::encoding::flat_of(self.ldg.dg.committed_adj()).len(),
    {
        self.ldg.e_count()
    }

    pub fn v_count_updated(&self) -> (r: usize)
        requires
            self.wf(),
        ensures
            r == self.ldg.dg.st().vcount(),
    {
        self.ldg.v_count_updated()
    }

    pub fn e_count_updated(&self) -> (r: usize)
        requires
            self.wf(),
        ensures
            r == self.ldg.dg.st().ecount(),
    {
        self.ldg.e_count_updated()
    }

    pub fn get_label(&self, v: usize) -> (r: Option<String>)
        requires
            self.wf(),
        ensures
            r is Some <==> (v as int) < self.ldg.labels@.len(),
            r matches Some(l) ==> l@ == self.ldg.labels@[v as int]@,
    {
        self.ldg.label(v)
    }

    pub fn get_label_updated(&self, v: usize) -> (r: Option<String>)
        requires
            self.wf(),
        ensures
            r is Some <==> self.ldg.dg.st().exists_u(v as int),
            r matches Some(l) ==> l@ == self.ldg.updated_label(v as int),
    {
        self.ldg.label_updated(v)
    }

    pub fn get_index(&self, label: &String) -> (r: Option<usize>)
        requires
            self.wf(),
        ensures
            r is Some <==> self.ldg.has_committed_label(label@),
            r matches Some(i) ==> (i as int) < self.ldg.labels@.len() && self.ldg.labels@[
                i as int]@ == label@,
    {
        let r = self.ldg.index(label);
        proof {
            match r {
                Some(i) => {
                    assert(self.ldg.has_committed_label(label@)) by {
                        assert(self.ldg.labels@[i as int]@ == label@);
                    }
                },
                None => {
                    lemma_no_committed_label(self.ldg, label@);
                },
            }
        }
        r
    }

    pub fn get_index_updated(&self, label: &String) -> (r: Option<usize>)
        requires
            self.wf(),
        ensures
            r is Some <==> self.ldg.exists_with_label(label@),
            r matches Some(v) ==> (v as int) < self.ldg.dg.st().len_u() && self.ldg.updated_label(
                v as int,
            ) == label@ && self.ldg.dg.st().exists_u(v as int),
    {
        let r = self.ldg.index_updated(label);
        proof {
            match r {
                Some(v) => {
                    assert(self.ldg.exists_with_label(label@)) by {
                        assert(self.ldg.updated_label(v as int) == label@
                            && self.ldg.dg.st().exists_u(v as int));
                    }
                },
                None => {
                    lemma_no_updated_label(self.ldg, label@);
                },
            }
        }
        r
    }

    pub fn edit_label(&mut self, old_label: String, new_label: String) -> (r: Result<
        (),
        GraphError,
    >)
        requires
            old(self).wf(),
        ensures
            final(self).wf(),
            final(self).ldg.dg == old(self).ldg.dg,
            r is Err ==> final(self).ldg.labels == old(self).ldg.labels
                && final(self).ldg.labels_uncommitted == old(self).ldg.labels_uncommitted,
            r is Ok <==> (old(self).ldg.all_label_views().contains(old_label@) && (old_label@
                == new_label@ || !old(self).ldg.all_label_views().contains(new_label@))),
            r is Ok ==> (old(self).ldg.all_label_views().contains(old_label@) && {
                let v = choose|v: int|
                    0 <= v < old(self).ldg.all_label_views().len() && #[trigger] old(self).ldg.all_label_views()[v] == old_label@;
                final(self).ldg.updated_label(v) == new_label@ && forall|w: int|
                    0 <= w < old(self).ldg.all_label_views().len() && w != v
                        ==> #[trigger] final(self).ldg.updated_label(w) == old(self).ldg.updated_label(w)
            }),
    {
        self.ldg.edit_label(old_label, new_label)
    }

    pub fn vertex_exists(&self, label: &String) -> (r: bool)
        requires
            self.wf(),
        ensures
            r == (self.ldg.has_committed_label(label@) && self.ldg.dg.st().exists_c(
                self.ldg.slot_of_committed(label@),
            )),
    {
        self.ldg.vertex_exists(label)
    }

    pub fn vertex_exists_updated(&self, label: &String) -> (r: bool)
        requires
            self.wf(),
        ensures
            r == exists|v: int|
                0 <= v < self.ldg.dg.st().len_u() && #[trigger] self.ldg.updated_label(v)
                    == label@ && self.ldg.dg.st().exists_u(v),
    {
        self.ldg.vertex_exists_updated(label)
    }

    /// Add the undirected edge, stored from the smaller index to the larger.
    pub fn add_edge(&mut self, a: String, b: String) -> (r: Result<(), GraphError>)
        requires
            old(self).wf(),
            old(self).ldg.dg.st().ecount() < SYMBOL_LIMIT,
        ensures
            final(self).wf(),
            final(self).ldg.labels == old(self).ldg.labels,
            final(self).ldg.labels_uncommitted == old(self).ldg.labels_uncommitted,
            r is Err ==> final(self).ldg.dg == old(self).ldg.dg,
            r is Ok <==> (old(self).ldg.exists_with_label(a@) && old(self).ldg.exists_with_label(
                b@,
            ) && !old(self).ldg.dg.st().replay_row(min_uslot(old(self).ldg, a@, b@)).contains(
                (max_uslot(old(self).ldg, a@, b@) as usize),
            )),
            r is Ok ==> {
                &&& final(self).ldg.dg.st().has_edge(
                    min_uslot(old(self).ldg, a@, b@),
                    (max_uslot(old(self).ldg, a@, b@) as usize),
                )
                &&& final(self).ldg.dg.e_count_updated == old(self).ldg.dg.e_count_updated + 1
            },
    {
        let ai = match self.ldg.index_updated(&a) {
            Some(i) => i,
            None => {
                proof {
                    lemma_no_updated_label(self.ldg, a@);
                }
                return Err(GraphError::LabelNotFound);
            },
        };
        let bi = match self.ldg.index_updated(&b) {
            Some(i) => i,
            None => {
                proof {
                    lemma_no_updated_label(self.ldg, b@);
                }
                return Err(GraphError::LabelNotFound);
            },
        };
        proof {
            lemma_updated_slot_unique(self.ldg, a@, ai as int);
            lemma_updated_slot_unique(self.ldg, b@, bi as int);
            assert(self.ldg.exists_with_label(a@)) by {
                assert(self.ldg.updated_label(ai as int) == a@ && self.ldg.dg.st().exists_u(
                    ai as int,
                ));
            }
            assert(self.ldg.exists_with_label(b@)) by {
                assert(self.ldg.updated_label(bi as int) == b@ && self.ldg.dg.st().exists_u(
                    bi as int,
                ));
            }
        }
        let lo = if ai <= bi {
            ai
        } else {
            bi
        };
        let hi = if ai <= bi {
            bi
        } else {
            ai
        };
        let res = self.ldg.dg.add_edge(lo, hi);
        proof {
            if res is Ok {
                crate::seqs::lemma_push_contains(
                    old(self).ldg.dg.st().replay_row(lo as int),
                    hi,
                );
            }
        }
        res
    }

    /// Delete the undirected edge, whichever way round it was named.
    pub fn delete_edge(&mut self, a: String, b: String) -> (r: Result<(), GraphError>)
        requires
            old(self).wf(),
        ensures
            final(self).wf(),
            final(self).ldg.labels == old(self).ldg.labels,
            final(self).ldg.labels_uncommitted == old(self).ldg.labels_uncommitted,
            r is Err ==> final(self).ldg.dg == old(self).ldg.dg,
            r is Ok <==> (old(self).ldg.exists_with_label(a@) && old(self).ldg.exists_with_label(
                b@,
            ) && old(self).ldg.dg.st().has_edge(
                min_uslot(old(self).ldg, a@, b@),
                (max_uslot(old(self).ldg, a@, b@) as usize),
            )),
            r is Ok ==> {
                &&& !final(self).ldg.dg.st().has_edge(
                    min_uslot(old(self).ldg, a@, b@),
                    (max_uslot(old(self).ldg, a@, b@) as usize),
                )
                &&& final(self).ldg.dg.e_count_updated == old(self).ldg.dg.e_count_updated - 1
            },
    {
        let ai = match self.ldg.index_updated(&a) {
            Some(i) => i,
            None => {
                proof {
                    lemma_no_updated_label(self.ldg, a@);
                }
                return Err(GraphError::LabelNotFound);
            },
        };
        let bi = match self.ldg.index_updated(&b) {
            Some(i) => i,
            None => {
                proof {
                    lemma_no_updated_label(self.ldg, b@);
                }
                return Err(GraphError::LabelNotFound);
            },
        };
        proof {
            lemma_updated_slot_unique(self.ldg, a@, ai as int);
            lemma_updated_slot_unique(self.ldg, b@, bi as int);
            assert(self.ldg.exists_with_label(a@)) by {
                assert(self.ldg.updated_label(ai as int) == a@ && self.ldg.dg.st().exists_u(
                    ai as int,
                ));
            }
            assert(self.ldg.exists_with_label(b@)) by {
                assert(self.ldg.updated_label(bi as int) == b@ && self.ldg.dg.st().exists_u(
                    bi as int,
                ));
            }
        }
        let lo = if ai <= bi {
            ai
        } else {
            bi
        };
        let hi = if ai <= bi {
            bi
        } else {
            ai
        };
        let res = self.ldg.dg.delete_edge(lo, hi);
        proof {
            if res is Ok {
                crate::seqs::lemma_remove_value_nodup(
                    old(self).ldg.dg.st().replay_row(lo as int),
                    hi,
                );
            }
        }
        res
    }

    pub fn delete_vertex(&mut self, label: String) -> (r: Result<(), GraphError>)
        requires
            old(self).wf(),
        ensures
            final(self).wf(),
            final(self).ldg.labels == old(self).ldg.labels,
            final(self).ldg.labels_uncommitted == old(self).ldg.labels_uncommitted,
            r is Err ==> final(self).ldg.dg == old(self).ldg.dg,
            r is Ok <==> old(self).ldg.exists_with_label(label@),
            r is Ok ==> !final(self).ldg.dg.st().exists_u(old(self).ldg.slot_of_updated(label@))
                && final(self).ldg.dg.st().vcount() == old(self).ldg.dg.st().vcount() - 1,
    {
        self.ldg.delete_vertex(label)
    }

    /// Whether the committed view holds the undirected edge between the two
    /// labels, stored from the smaller index to the larger.
    pub fn edge_exists(&self, a: &String, b: &String) -> (r: bool)
        requires
            self.wf(),
        ensures
            r == (self.ldg.has_committed_label(a@) && self.ldg.has_committed_label(b@) && {
                let ai = self.ldg.slot_of_committed(a@);
                let bi = self.ldg.slot_of_committed(b@);
                self.ldg.dg.st().exists_c(ai) && self.ldg.dg.st().exists_c(bi) && if ai <= bi {
                    self.ldg.dg.committed_adj()[ai].contains((bi as usize))
                } else {
                    self.ldg.dg.committed_adj()[bi].contains((ai as usize))
                }
            }),
    {
        let ai = match self.ldg.index(a) {
            Some(i) => i,
            None => {
                proof {
                    lemma_no_committed_label(self.ldg, a@);
                }
                return false;
            },
        };
        let bi = match self.ldg.index(b) {
            Some(i) => i,
            None => {
                proof {
                    lemma_no_committed_label(self.ldg, b@);
                }
                return false;
            },
        };
        proof {
            lemma_committed_slot_unique(self.ldg, a@, ai as int);
            lemma_committed_slot_unique(self.ldg, b@, bi as int);
        }
        if ai <= bi {
            self.ldg.dg.edge_exists(ai, bi)
        } else {
            self.ldg.dg.edge_exists(bi, ai)
        }
    }

    /// Whether the updated view holds the undirected edge between the two
    /// labels.
    pub fn edge_exists_updated(&self, a: &String, b: &String) -> (r: bool)
        requires
            self.wf(),
        ensures
            r == (self.ldg.exists_with_label(a@) && self.ldg.exists_with_label(b@) && {
                let ai = self.ldg.slot_of_updated(a@);
                let bi = self.ldg.slot_of_updated(b@);
                if ai <= bi {
                    self.ldg.dg.st().has_edge(ai, (bi as usize))
                } else {
                    self.ldg.dg.st().has_edge(bi, (ai as usize))
                }
            }),
    {
        let ai = match self.ldg.index_updated(a) {
            Some(i) => i,
            None => {
                return false;
            },
        };
        let bi = match self.ldg.index_updated(b) {
            Some(i) => i,
            None => {
                return false;
            },
        };
        proof {
            lemma_updated_slot_unique(self.ldg, a@, ai as int);
            lemma_updated_slot_unique(self.ldg, b@, bi as int);
            assert(self.ldg.exists_with_label(a@)) by {
                assert(self.ldg.updated_label(ai as int) == a@ && self.ldg.dg.st().exists_u(
                    ai as int,
                ));
            }
            assert(self.ldg.exists_with_label(b@)) by {
                assert(self.ldg.updated_label(bi as int) == b@ && self.ldg.dg.st().exists_u(
                    bi as int,
                ));
            }
        }
        if ai <= bi {
            self.ldg.dg.edge_exists_updated(ai, bi)
        } else {
            self.ldg.dg.edge_exists_updated(bi, ai)
        }
    }

    /// The labels of every committed neighbour of the vertex: the vertices
    /// pointing at it, then its own row.
    pub fn edges(&self, label: &String) -> (r: Result<Vec<String>, GraphError>)
        requires
            self.wf(),
        ensures
            r is Ok <==> (self.ldg.has_committed_label(label@) && self.ldg.dg.st().exists_c(
                self.ldg.slot_of_committed(label@),
            )),
            r matches Ok(ls) ==> {
                let v = self.ldg.slot_of_committed(label@);
                let ns = crate::adjacency::incoming_list(self.ldg.dg.committed_adj(), (
                v as usize)) + self.ldg.dg.committed_adj()[v];
                &&& ls@.len() == ns.len()
                &&& forall|k: int|
                    0 <= k < ns.len() ==> (#[trigger] ls@[k])@ == self.ldg.labels@[ns[k] as int]@
            },
    {
        let vi = match self.ldg.index(label) {
            Some(i) => i,
            None => {
                proof {
                    lemma_no_committed_label(self.ldg, label@);
                }
                return Err(GraphError::LabelNotFound);
            },
        };
        proof {
            lemma_committed_slot_unique(self.ldg, label@, vi as int);
        }
        if !self.ldg.dg.vertex_exists(vi) {
            return Err(GraphError::VertexNotFound);
        }
        let inc = match self.ldg.dg.incoming_edges(vi) {
            Ok(o) => o,
            Err(_) => Vec::new(),
        };
        let out = match self.ldg.dg.outgoing_edges(vi) {
            Ok(o) => o,
            Err(_) => Vec::new(),
        };
        proof {
            crate::adjacency::lemma_incoming_upto_props(
                self.ldg.dg.committed_adj(),
                vi,
                self.ldg.dg.committed_adj().len() as int,
            );
        }
        let ghost cadj = self.ldg.dg.committed_adj();
        let ghost ns = crate::adjacency::incoming_list(cadj, vi) + cadj[vi as int];
        proof {
            assert forall|k: int| 0 <= k < inc@.len() implies 0 <= #[trigger] inc@[k]
                < cadj.len() by {
                assert(inc@.contains(inc@[k]));
            }
        }
        let mut ls: Vec<String> = Vec::new();
        let mut i: usize = 0;
        while i < inc.len()
            invariant
                self.wf(),
                cadj == self.ldg.dg.committed_adj(),
                (vi as int) < cadj.len(),
                inc@ == crate::adjacency::incoming_list(cadj, vi),
                out@ == cadj[vi as int],
                ns == inc@ + out@,
                forall|k: int|
                    0 <= k < inc@.len() ==> 0 <= #[trigger] inc@[k] < cadj.len(),
                i <= inc.len(),
                ls@.len() == i,
                forall|k: int|
                    0 <= k < i ==> (#[trigger] ls@[k])@ == self.ldg.labels@[ns[k] as int]@,
            decreases inc.len() - i,
        {
            let u = inc[i];
            match self.ldg.label(u) {
                Some(l) => {
                    ls.push(l);
                    proof {
                        assert(ns[i as int] == inc@[i as int]);
                    }
                },
                None => {
                    proof {
                        assert(false);
                    }
                },
            }
            i += 1;
        }
        let mut j: usize = 0;
        while j < out.len()
            invariant
                self.wf(),
                cadj == self.ldg.dg.committed_adj(),
                (vi as int) < cadj.len(),
                inc@ == crate::adjacency::incoming_list(cadj, vi),
                out@ == cadj[vi as int],
                ns == inc@ + out@,
                j <= out.len(),
                ls@.len() == inc@.len() + j,
                forall|k: int|
                    0 <= k < ls@.len() ==> (#[trigger] ls@[k])@ == self.ldg.labels@[ns[k] as int]@,
            decreases out.len() - j,
        {
            let w = out[j];
            proof {
                assert(cadj[vi as int].contains(w)) by {
                    assert(cadj[vi as int][j as int] == w);
                }
                assert(ns[inc@.len() + j] == w);
            }
            match self.ldg.label(w) {
                Some(l) => ls.push(l),
                None => {
                    proof {
                        assert(false);
                    }
                },
            }
            j += 1;
        }
        Ok(ls)
    }

    /// The labels of every neighbour of the vertex in the updated view.
    pub fn edges_updated(&self, label: &String) -> (r: Result<Vec<String>, GraphError>)
        requires
            self.wf(),
        ensures
            r is Ok <==> self.ldg.exists_with_label(label@),
            r matches Ok(ls) ==> {
                let v = self.ldg.slot_of_updated(label@);
                let ns = self.ldg.dg.st().in_list((v as usize)) + self.ldg.dg.st().vis_row(v);
                &&& ls@.len() == ns.len()
                &&& forall|k: int|
                    0 <= k < ns.len() ==> (#[trigger] ls@[k])@ == self.ldg.updated_label(
                        ns[k] as int,
                    )
            },
    {
        let vi = match self.ldg.index_updated(label) {
            Some(i) => i,
            None => {
                return Err(GraphError::LabelNotFound);
            },
        };
        proof {
            lemma_updated_slot_unique(self.ldg, label@, vi as int);
            assert(self.ldg.exists_with_label(label@)) by {
                assert(self.ldg.updated_label(vi as int) == label@ && self.ldg.dg.st().exists_u(
                    vi as int,
                ));
            }
        }
        let inc = match self.ldg.dg.incoming_edges_updated(vi) {
            Ok(o) => o,
            Err(_) => Vec::new(),
        };
        let out = match self.ldg.dg.outgoing_edges_updated(vi) {
            Ok(o) => o,
            Err(_) => Vec::new(),
        };
        proof {
            crate::overlay::lemma_in_upto_props(
                self.ldg.dg.st(),
                vi,
                self.ldg.dg.st().len_u(),
            );
            crate::overlay::lemma_vis_filter_props(
                self.ldg.dg.st(),
                self.ldg.dg.st().replay_row(vi as int),
            );
        }
        let ghost st = self.ldg.dg.st();
        let ghost ns = st.in_list(vi) + st.vis_row(vi as int);
        proof {
            assert forall|k: int| 0 <= k < inc@.len() implies st.exists_u(
                #[trigger] inc@[k] as int,
            ) by {
                assert(inc@.contains(inc@[k]));
            }
            assert forall|k: int| 0 <= k < out@.len() implies st.exists_u(
                #[trigger] out@[k] as int,
            ) by {
                assert(out@.contains(out@[k]));
            }
        }
        let mut ls: Vec<String> = Vec::new();
        let mut i: usize = 0;
        while i < inc.len()
            invariant
                self.wf(),
                st == self.ldg.dg.st(),
                inc@ == st.in_list(vi),
                out@ == st.vis_row(vi as int),
                ns == inc@ + out@,
                forall|k: int|
                    0 <= k < inc@.len() ==> st.exists_u(#[trigger] inc@[k] as int),
                forall|k: int|
                    0 <= k < out@.len() ==> st.exists_u(#[trigger] out@[k] as int),
                i <= inc.len(),
                ls@.len() == i,
                forall|k: int|
                    0 <= k < i ==> (#[trigger] ls@[k])@ == self.ldg.updated_label(ns[k] as int),
            decreases inc.len() - i,
        {
            let u = inc[i];
            proof {
                assert(st.exists_u(inc@[i as int] as int));
                assert(ns[i as int] == inc@[i as int]);
            }
            match self.ldg.label_updated(u) {
                Some(l) => ls.push(l),
                None => {
                    proof {
                        assert(false);
                    }
                },
            }
            i += 1;
        }
        let mut j: usize = 0;
        while j < out.len()
            invariant
                self.wf(),
                st == self.ldg.dg.st(),
                inc@ == st.in_list(vi),
                out@ == st.vis_row(vi as int),
                ns == inc@ + out@,
                forall|k: int|
                    0 <= k < out@.len() ==> st.exists_u(#[trigger] out@[k] as int),
                j <= out.len(),
                ls@.len() == inc@.len() + j,
                forall|k: int|
                    0 <= k < ls@.len() ==> (#[trigger] ls@[k])@ == self.ldg.updated_label(
                        ns[k] as int,
                    ),
            decreases out.len() - j,
        {
            let w = out[j];
            proof {
                assert(st.exists_u(out@[j as int] as int));
                assert(ns[inc@.len() + j] == out@[j as int]);
            }
            match self.ldg.label_updated(w) {
                Some(l) => ls.push(l),
                None => {
                    proof {
                        assert(false);
                    }
                },
            }
            j += 1;
        }
        Ok(ls)
    }

    /// Delete every edge touching the vertex in the updated view.
    pub fn delete_edges_from(&mut self, label: String) -> (r: Result<(), GraphError>)
        requires
            old(self).wf(),
        ensures
            final(self).wf(),
            final(self).ldg.labels == old(self).ldg.labels,
            final(self).ldg.labels_uncommitted == old(self).ldg.labels_uncommitted,
            r is Err ==> final(self).ldg.dg == old(self).ldg.dg,
            r is Ok <==> old(self).ldg.exists_with_label(label@),
            r is Ok ==> {
                let v = old(self).ldg.slot_of_updated(label@);
                &&& forall|w: usize| !(#[trigger] final(self).ldg.dg.st().has_edge(v, w))
                &&& forall|u: int| !(#[trigger] final(self).ldg.dg.st().has_edge(u, (v as usize)))
                &&& forall|w: int|
                    final(self).ldg.dg.st().exists_u(w) == old(self).ldg.dg.st().exists_u(w)
            },
    {
        let vi = match self.ldg.index_updated(&label) {
            Some(i) => i,
            None => {
                proof {
                    lemma_no_updated_label(self.ldg, label@);
                }
                return Err(GraphError::LabelNotFound);
            },
        };
        proof {
            assert(self.ldg.exists_with_label(label@)) by {
                assert(self.ldg.updated_label(vi as int) == label@ && self.ldg.dg.st().exists_u(
                    vi as int,
                ));
            }
        }
        proof {
            let j = self.ldg.slot_of_updated(label@);
            if j != vi as int {
                assert(self.ldg.all_label_views()[j] == self.ldg.updated_label(j));
                assert(false);
            }
        }
        let r1 = self.ldg.dg.delete_outgoing_edges(vi);
        proof {
            assert(r1 is Ok);
        }
        let r2 = self.ldg.dg.delete_incoming_edges(vi);
        proof {
            assert(r2 is Ok);
        }
        Ok(())
    }

    /// Rebuild the committed layer and fold the pending labels in.
    pub fn commit_edits(&mut self)
        requires
            old(self).wf(),
        ensures
            final(self).wf(),
            final(self).ldg.dg.committed_adj().len() == old(self).ldg.dg.st().len_u(),
            final(self).ldg.labels@.len() == old(self).ldg.all_label_views().len(),
            forall|v: int|
                0 <= v < old(self).ldg.all_label_views().len() ==> (#[trigger] final(self).ldg.labels@[v])@ == old(self).ldg.updated_label(v),
            final(self).ldg.labels_uncommitted@.len() == 0,
            forall|v: int|
                0 <= v < old(self).ldg.dg.st().len_u() ==> #[trigger] final(self).ldg.dg.committed_adj()[v] == if old(self).ldg.dg.st().exists_u(v) {
                    old(self).ldg.dg.st().vis_row(v)
                } else {
                    Seq::<usize>::empty()
                },
            forall|w: int|
                final(self).ldg.dg.st().exists_c(w) == old(self).ldg.dg.st().exists_u(w),
            forall|w: int|
                final(self).ldg.dg.st().exists_u(w) == old(self).ldg.dg.st().exists_u(w),
            forall|v: int|
                0 <= v < old(self).ldg.dg.st().len_u() ==> #[trigger] final(self).ldg.dg.st().replay_row(v) == final(self).ldg.dg.committed_adj()[v],
            final(self).ldg.dg.v_count_updated == old(self).ldg.dg.v_count_updated,
            final(self).ldg.dg.e_count_updated == old(self).ldg.dg.e_count_updated,
            !final(self).ldg.dg.has_uncommitted_edits,
    {
        self.ldg.commit_edits();
    }

    /// Drop every pending edit.
    pub fn discard_edits(&mut self)
        requires
            old(self).wf(),
        ensures
            final(self).wf(),
            final(self).ldg.labels == old(self).ldg.labels,
            final(self).ldg.labels_uncommitted@.len() == 0,
            final(self).ldg.dg.ca == old(self).ldg.dg.ca,
            final(self).ldg.dg.st().len_u() == old(self).ldg.dg.committed_adj().len(),
            forall|w: int|
                final(self).ldg.dg.st().exists_u(w) == old(self).ldg.dg.st().exists_c(w),
            forall|v: int|
                0 <= v < old(self).ldg.dg.committed_adj().len() ==> #[trigger] final(self).ldg.dg.st().replay_row(v) == old(self).ldg.dg.committed_adj()[v],
            final(self).ldg.dg.v_count_updated == old(self).ldg.dg.committed_vcount(),
            final(self).ldg.dg.e_count_updated == crate::encoding::flat_of(
                old(self).ldg.dg.committed_adj(),
            ).len(),
            !final(self).ldg.dg.has_uncommitted_edits,
    {
        self.ldg.discard_edits();
    }
}

/// The indices of the existing updated slots below `n`, in order: the
/// vertices a shrink keeps.
pub open spec fn survivor_slots(st: crate::overlay::UState, n: int) -> Seq<int>
    decreases n,
{
    if n <= 0 {
        Seq::empty()
    } else {
        survivor_slots(st, n - 1) + if st.exists_u(n - 1) {
            seq![n - 1]
        } else {
            Seq::empty()
        }
    }
}

/// The labels of the existing updated slots below `n`, in slot order: the
/// label table a shrink leaves behind.
pub open spec fn survivor_labels(g: LabeledWTDigraph, n: int) -> Seq<Seq<char>> {
    survivor_slots(g.dg.st(), n).map_values(|v: int| g.updated_label(v))
}

pub(crate) proof fn lemma_survivor_slots_props(st: crate::overlay::UState, n: int)
    requires
        0 <= n <= st.len_u(),
    ensures
        survivor_slots(st, n).len() == st.vcount_upto(n),
        forall|k: int|
            0 <= k < survivor_slots(st, n).len() ==> 0 <= #[trigger] survivor_slots(st, n)[k] < n
                && st.exists_u(survivor_slots(st, n)[k]) && st.vcount_upto(
                survivor_slots(st, n)[k],
            ) == k,
        forall|v: int|
            0 <= v < n && st.exists_u(v) ==> #[trigger] survivor_slots(st, n)[st.vcount_upto(v)]
                == v,
    decreases n,
{
    if n > 0 {
        lemma_survivor_slots_props(st, n - 1);
        crate::overlay::lemma_vcount_upto_bounds(st, n - 1);
        let pre = survivor_slots(st, n - 1);
        let cur = survivor_slots(st, n);
        if st.exists_u(n - 1) {
            assert(cur =~= pre.push(n - 1));
            assert forall|v: int| 0 <= v < n && st.exists_u(v) implies #[trigger] cur[
                st.vcount_upto(v)] == v by {
                if v < n - 1 {
                    assert(st.vcount_upto(v + 1) == st.vcount_upto(v) + 1);
                    crate::overlay::lemma_vcount_mono(st, v + 1, n - 1);
                    crate::overlay::lemma_vcount_upto_bounds(st, v);
                    assert(cur[st.vcount_upto(v)] == pre[st.vcount_upto(v)]);
                }
            }
            assert forall|k: int| 0 <= k < cur.len() implies 0 <= #[trigger] cur[k] < n
                && st.exists_u(cur[k]) && st.vcount_upto(cur[k]) == k by {
                if k < pre.len() {
                    assert(cur[k] == pre[k]);
                }
            }
        } else {
            assert(cur =~= pre);
        }
    }
}

impl LabeledWTDigraph {
    /// Rebuild the committed layer keeping only the existing vertices,
    /// renumbering them densely; their labels move down with them.  Returns
    /// the renumbering, as the core does.
    pub fn shrink(&mut self) -> (r: Vec<Option<usize>>)
        requires
            old(self).wf(),
        ensures
            final(self).wf(),
            r@.len() == old(self).dg.st().len_u(),
            forall|w: int|
                0 <= w < old(self).dg.st().len_u() ==> #[trigger] r@[w] == if old(self).dg.st().exists_u(w) {
                    Some(old(self).dg.st().vcount_upto(w) as usize)
                } else {
                    None::<usize>
                },
            final(self).labels@.len() == old(self).dg.st().vcount(),
            forall|v: int|
                0 <= v < old(self).dg.st().len_u() && old(self).dg.st().exists_u(v)
                    ==> #[trigger] final(self).labels@[old(self).dg.st().vcount_upto(v)]@ == old(self).updated_label(v),
            final(self).labels_uncommitted@.len() == 0,
            !final(self).dg.has_uncommitted_edits,
    {
        let ghost g1 = *self;
        let n = self.dg.wt_adj_len_updated;
        let mut keep: Vec<String> = Vec::new();
        let mut v: usize = 0;
        while v < n
            invariant
                *self == g1,
                self.wf(),
                n == self.dg.wt_adj_len_updated,
                v <= n,
                keep@.len() == survivor_labels(g1, v as int).len(),
                forall|k: int|
                    0 <= k < keep@.len() ==> (#[trigger] keep@[k])@ == survivor_labels(
                        g1,
                        v as int,
                    )[k],
            decreases n - v,
        {
            if self.dg.vertex_exists_updated(v) {
                let l = self.label_at(v);
                keep.push(l);
                proof {
                    assert(survivor_labels(g1, v + 1) =~= survivor_labels(g1, v as int).push(
                        g1.updated_label(v as int),
                    ));
                }
            } else {
                proof {
                    assert(survivor_labels(g1, v + 1) =~= survivor_labels(g1, v as int));
                }
            }
            v += 1;
        }
        let map = self.dg.shrink();
        self.labels = keep;
        self.labels_uncommitted = Vec::new();
        proof {
            lemma_survivor_slots_props(g1.dg.st(), n as int);
            assert(label_views(self.labels@) =~= survivor_labels(g1, n as int));
            assert(self.all_label_views() =~= label_views(self.labels@));
            let slots = survivor_slots(g1.dg.st(), n as int);
            assert forall|a: int, b: int|
                0 <= a < b < self.all_label_views().len() implies self.all_label_views()[a]
                    != self.all_label_views()[b] by {
                assert(slots[a] != slots[b]) by {
                    assert(g1.dg.st().vcount_upto(slots[a]) == a);
                    assert(g1.dg.st().vcount_upto(slots[b]) == b);
                }
                assert(self.all_label_views()[a] == g1.updated_label(slots[a]));
                assert(self.all_label_views()[b] == g1.updated_label(slots[b]));
                assert(g1.all_label_views()[slots[a]] != g1.all_label_views()[slots[b]]);
            }
            assert forall|v: int|
                0 <= v < g1.dg.st().len_u() && g1.dg.st().exists_u(v) implies #[trigger] self.labels@[
                g1.dg.st().vcount_upto(v)]@ == g1.updated_label(v) by {
                let st = g1.dg.st();
                assert(st.vcount_upto(v + 1) == st.vcount_upto(v) + 1);
                crate::overlay::lemma_vcount_mono(st, v + 1, n as int);
                crate::overlay::lemma_vcount_upto_bounds(st, v);
                assert(0 <= st.vcount_upto(v) < slots.len());
                assert(slots[st.vcount_upto(v)] == v);
                assert(survivor_labels(g1, n as int)[st.vcount_upto(v)] == g1.updated_label(
                    slots[st.vcount_upto(v)],
                ));
            }
        }
        map
    }
}

impl LabeledWTUGraph {
    /// Shrink the underlying labelled digraph, compacting vertices and
    /// labels together.
    pub fn shrink(&mut self) -> (r: Vec<Option<usize>>)
        requires
            old(self).wf(),
        ensures
            final(self).wf(),
            r@.len() == old(self).ldg.dg.st().len_u(),
            forall|w: int|
                0 <= w < old(self).ldg.dg.st().len_u() ==> #[trigger] r@[w] == if old(self).ldg.dg.st().exists_u(w) {
                    Some(old(self).ldg.dg.st().vcount_upto(w) as usize)
                } else {
                    None::<usize>
                },
            final(self).ldg.labels@.len() == old(self).ldg.dg.st().vcount(),
            !final(self).ldg.dg.has_uncommitted_edits,
    {
        self.ldg.shrink()
    }
}

} // verus!
