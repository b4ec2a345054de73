//! Weighted graphs: a side table mapping each edge to its weight, layered
//! over the directed engines.
//!
//! Weights are value-copyable, as the engine requires.  The table keeps the
//! invariant that its keys are exactly the committed edges; the wavelet-tree
//! flavour adds an overlay of buffered weight edits that a commit folds in.

use crate::digraph::WTDigraph;
use crate::graph::Digraph;
use crate::seqs::nodup;
use crate::wavelet::SYMBOL_LIMIT;
use crate::{Edit, GraphError};
use vstd::prelude::*;

verus! {

/// An association table from edge `(from, to)` to a value, with unique keys.
pub struct WeightTable<W> {
    pub entries: Vec<(usize, usize, W)>,
}

impl<W: Copy> WeightTable<W> {
    /// No key appears twice.
    pub open spec fn wf(self) -> bool {
        forall|i: int, j: int|
            0 <= i < j < self.entries@.len() ==> !((#[trigger] self.entries@[i]).0
                == (#[trigger] self.entries@[j]).0 && self.entries@[i].1 == self.entries@[j].1)
    }

    /// Whether the table holds a value for `(u, v)`.
    pub open spec fn has_key(self, u: usize, v: usize) -> bool {
        exists|i: int|
            0 <= i < self.entries@.len() && (#[trigger] self.entries@[i]).0 == u
                && self.entries@[i].1 == v
    }

    /// The value stored for `(u, v)`.
    pub open spec fn value_of(self, u: usize, v: usize) -> W {
        let i = choose|i: int|
            0 <= i < self.entries@.len() && (#[trigger] self.entries@[i]).0 == u
                && self.entries@[i].1 == v;
        self.entries@[i].2
    }

    pub fn new() -> (r: WeightTable<W>)
        ensures
            r.wf(),
            forall|u: usize, v: usize| !r.has_key(u, v),
    {
        WeightTable { entries: Vec::new() }
    }

    fn find(&self, u: usize, v: usize) -> (r: Option<usize>)
        ensures
            r matches Some(i) ==> i < self.entries@.len() && self.entries@[i as int].0 == u
                && self.entries@[i as int].1 == v,
            r is None ==> !self.has_key(u, v),
    {
        let mut i: usize = 0;
        while i < self.entries.len()
            invariant
                i <= self.entries.len(),
                forall|j: int|
                    0 <= j < i ==> !((#[trigger] self.entries@[j]).0 == u && self.entries@[j].1
                        == v),
            decreases self.entries.len() - i,
        {
            let e = &self.entries[i];
            if e.0 == u && e.1 == v {
                return Some(i);
            }
            i += 1;
        }
        None
    }

    /// The stored value, if the key is present.
    pub fn get(&self, u: usize, v: usize) -> (r: Option<W>)
        requires
            self.wf(),
        ensures
            r is Some <==> self.has_key(u, v),
            r matches Some(w) ==> w == self.value_of(u, v),
    {
        match self.find(u, v) {
            Some(i) => {
                let w = self.entries[i].2;
                proof {
                    assert(self.has_key(u, v));
                    let j = choose|j: int|
                        0 <= j < self.entries@.len() && (#[trigger] self.entries@[j]).0 == u
                            && self.entries@[j].1 == v;
                    if j != i as int {
                        assert(false);
                    }
                }
                Some(w)
            },
            None => None,
        }
    }

    /// Store a value for `(u, v)`, replacing any previous one.
    pub fn set(&mut self, u: usize, v: usize, w: W)
        requires
            old(self).wf(),
        ensures
            final(self).wf(),
            final(self).has_key(u, v),
            final(self).value_of(u, v) == w,
            forall|x: usize, y: usize|
                !(x == u && y == v) ==> #[trigger] final(self).has_key(x, y) == old(self).has_key(x, y),
            forall|x: usize, y: usize|
                !(x == u && y == v) && old(self).has_key(x, y) ==> #[trigger] final(self).value_of(x, y) == old(self).value_of(x, y),
    {
        let ghost es1 = self.entries@;
        match self.find(u, v) {
            Some(i) => {
                let slot = crate::digraph::get_row_mut(&mut self.entries, i);
                *slot = (u, v, w);
                proof {
                    let es2 = self.entries@;
                    assert(es2 =~= es1.update(i as int, (u, v, w)));
                    assert(final(self).has_key(u, v)) by {
                        assert(es2[i as int].0 == u && es2[i as int].1 == v);
                    }
                    lemma_table_lookup(*self, u, v, i as int);
                    assert forall|x: usize, y: usize| !(x == u && y == v) implies
                        #[trigger] final(self).has_key(x, y) == old(self).has_key(x, y) by {
                        if old(self).has_key(x, y) {
                            let j = choose|j: int|
                                0 <= j < es1.len() && (#[trigger] es1[j]).0 == x && es1[j].1 == y;
                            assert(j != i as int);
                            assert(es2[j].0 == x && es2[j].1 == y);
                        }
                        if self.has_key(x, y) {
                            let j = choose|j: int|
                                0 <= j < es2.len() && (#[trigger] es2[j]).0 == x && es2[j].1 == y;
                            assert(j != i as int);
                            assert(es1[j].0 == x && es1[j].1 == y);
                        }
                    }
                    assert forall|x: usize, y: usize|
                        !(x == u && y == v) && old(self).has_key(x, y) implies #[trigger] final(self).value_of(x, y) == old(self).value_of(x, y) by {
                        let j = choose|j: int|
                            0 <= j < es1.len() && (#[trigger] es1[j]).0 == x && es1[j].1 == y;
                        assert(j != i as int);
                        assert(es2[j].0 == x && es2[j].1 == y);
                        lemma_table_lookup(*old(self), x, y, j);
                        lemma_table_lookup(*self, x, y, j);
                    }
                }
            },
            None => {
                self.entries.push((u, v, w));
                proof {
                    let es2 = self.entries@;
                    let n = es1.len() as int;
                    assert(es2 =~= es1.push((u, v, w)));
                    assert(final(self).has_key(u, v)) by {
                        assert(es2[n].0 == u && es2[n].1 == v);
                    }
                    assert(final(self).wf()) by {
                        assert forall|i: int, j: int| 0 <= i < j < es2.len() implies !((
                        #[trigger] es2[i]).0 == (#[trigger] es2[j]).0 && es2[i].1 == es2[j].1) by {
                            if j == n {
                                assert(es2[i] == es1[i]);
                                if es1[i].0 == u && es1[i].1 == v {
                                    assert(old(self).has_key(u, v));
                                    assert(false);
                                }
                            }
                        }
                    }
                    lemma_table_lookup(*self, u, v, n);
                    assert forall|x: usize, y: usize| !(x == u && y == v) implies
                        #[trigger] final(self).has_key(x, y) == old(self).has_key(x, y) by {
                        if old(self).has_key(x, y) {
                            let j = choose|j: int|
                                0 <= j < es1.len() && (#[trigger] es1[j]).0 == x && es1[j].1 == y;
                            assert(es2[j].0 == x && es2[j].1 == y);
                        }
                        if self.has_key(x, y) {
                            let j = choose|j: int|
                                0 <= j < es2.len() && (#[trigger] es2[j]).0 == x && es2[j].1 == y;
                            assert(j != n);
                            assert(es1[j].0 == x && es1[j].1 == y);
                        }
                    }
                    assert forall|x: usize, y: usize|
                        !(x == u && y == v) && old(self).has_key(x, y) implies #[trigger] final(self).value_of(x, y) == old(self).value_of(x, y) by {
                        let j = choose|j: int|
                            0 <= j < es1.len() && (#[trigger] es1[j]).0 == x && es1[j].1 == y;
                        assert(es2[j].0 == x && es2[j].1 == y);
                        lemma_table_lookup(*old(self), x, y, j);
                        lemma_table_lookup(*self, x, y, j);
                    }
                }
            },
        }
    }

    /// Take the value for `(u, v)` out, if present.
    pub fn remove(&mut self, u: usize, v: usize)
        requires
            old(self).wf(),
        ensures
            final(self).wf(),
            !final(self).has_key(u, v),
            forall|x: usize, y: usize|
                !(x == u && y == v) ==> #[trigger] final(self).has_key(x, y) == old(self).has_key(x, y),
            forall|x: usize, y: usize|
                !(x == u && y == v) && old(self).has_key(x, y) ==> #[trigger] final(self).value_of(x, y) == old(self).value_of(x, y),
    {
        let ghost es1 = self.entries@;
        match self.find(u, v) {
            Some(i) => {
                let _ = self.entries.remove(i);
                proof {
                    let es2 = self.entries@;
                    assert(es2 =~= es1.remove(i as int));
                    assert(forall|j: int|
                        0 <= j < es2.len() ==> #[trigger] es2[j] == if j < i as int {
                            es1[j]
                        } else {
                            es1[j + 1]
                        });
                    assert(final(self).wf()) by {
                        assert forall|a: int, b: int| 0 <= a < b < es2.len() implies !((
                        #[trigger] es2[a]).0 == (#[trigger] es2[b]).0 && es2[a].1 == es2[b].1) by {
                            let a1: int = if a < i as int {
                                a
                            } else {
                                a + 1
                            };
                            let b1: int = if b < i as int {
                                b
                            } else {
                                b + 1
                            };
                            assert(es2[a] == es1[a1] && es2[b] == es1[b1]);
                        }
                    }
                    assert(!final(self).has_key(u, v)) by {
                        if self.has_key(u, v) {
                            let j = choose|j: int|
                                0 <= j < es2.len() && (#[trigger] es2[j]).0 == u && es2[j].1 == v;
                            let j1: int = if j < i as int {
                                j
                            } else {
                                j + 1
                            };
                            assert(es1[j1].0 == u && es1[j1].1 == v);
                            assert(es1[i as int].0 == u && es1[i as int].1 == v);
                            assert(j1 != i as int);
                            assert(false);
                        }
                    }
                    assert forall|x: usize, y: usize| !(x == u && y == v) implies
                        #[trigger] final(self).has_key(x, y) == old(self).has_key(x, y) by {
                        if old(self).has_key(x, y) {
                            let j = choose|j: int|
                                0 <= j < es1.len() && (#[trigger] es1[j]).0 == x && es1[j].1 == y;
                            assert(j != i as int);
                            let j2: int = if j < i as int {
                                j
                            } else {
                                j - 1
                            };
                            assert(es2[j2].0 == x && es2[j2].1 == y);
                        }
                        if self.has_key(x, y) {
                            let j = choose|j: int|
                                0 <= j < es2.len() && (#[trigger] es2[j]).0 == x && es2[j].1 == y;
                            let j1: int = if j < i as int {
                                j
                            } else {
                                j + 1
                            };
                            assert(es1[j1].0 == x && es1[j1].1 == y);
                        }
                    }
                    assert forall|x: usize, y: usize|
                        !(x == u && y == v) && old(self).has_key(x, y) implies #[trigger] final(self).value_of(x, y) == old(self).value_of(x, y) by {
                        let j = choose|j: int|
                            0 <= j < es1.len() && (#[trigger] es1[j]).0 == x && es1[j].1 == y;
                        assert(j != i as int);
                        let j2: int = if j < i as int {
                            j
                        } else {
                            j - 1
                        };
                        assert(es2[j2].0 == x && es2[j2].1 == y);
                        lemma_table_lookup(*old(self), x, y, j);
                        lemma_table_lookup(*self, x, y, j2);
                    }
                }
            },
            None => {
                proof {
                    assert(self.entries@ =~= es1);
                }
            },
        }
    }
}

/// In a well-formed table the witness index for a key is unique, so the
/// stored value is the value at any index that carries the key.
proof fn lemma_table_lookup<W: Copy>(t: WeightTable<W>, u: usize, v: usize, i: int)
    requires
        t.wf(),
        0 <= i < t.entries@.len(),
        t.entries@[i].0 == u,
        t.entries@[i].1 == v,
    ensures
        t.has_key(u, v),
        t.value_of(u, v) == t.entries@[i].2,
{
    assert(t.has_key(u, v));
    let j = choose|j: int|
        0 <= j < t.entries@.len() && (#[trigger] t.entries@[j]).0 == u && t.entries@[j].1 == v;
    if j != i {
        assert(false);
    }
}

/// A plain directed graph whose edges carry a weight.
pub struct WeightedDigraph<W> {
    pub dg: Digraph,
    pub weights: WeightTable<W>,
}

/// The neighbour indices of a weighted row.
pub open spec fn pair_firsts<W>(row: Seq<(usize, W)>) -> Seq<usize> {
    row.map_values(|p: (usize, W)| p.0)
}

/// The plain adjacency a weighted list projects to.
pub open spec fn weighted_firsts<W>(rows: Seq<Vec<(usize, W)>>) -> Seq<Seq<usize>> {
    rows.map_values(|r: Vec<(usize, W)>| pair_firsts(r@))
}

impl<W: Copy> WeightedDigraph<W> {
    /// The weight table's keys are exactly the edges.
    pub open spec fn wf(self) -> bool {
        &&& self.dg.wf()
        &&& self.weights.wf()
        &&& forall|u: usize, v: usize|
            #[trigger] self.weights.has_key(u, v) <==> (u as int) < self.dg.rows().len()
                && self.dg.rows()[u as int].contains(v)
    }

    pub fn new() -> (r: WeightedDigraph<W>)
        ensures
            r.wf(),
            r.dg.rows().len() == 0,
    {
        WeightedDigraph { dg: Digraph::new(), weights: WeightTable::new() }
    }

    /// Build from an adjacency list whose entries pair each neighbour with
    /// its weight.
    pub fn from_adjacency_list(v_count: usize, e_count: usize, adj: Vec<Vec<(usize, W)>>) -> (r:
        Result<WeightedDigraph<W>, GraphError>)
        ensures
            r is Ok <==> crate::digraph::adjacency_ok(
                v_count as int,
                e_count as int,
                weighted_firsts(adj@),
            ),
            r matches Ok(g) ==> {
                &&& g.wf()
                &&& g.dg.rows().len() == v_count
                &&& g.dg.e_count == e_count
                &&& g.dg.deleted_count == 0
                &&& forall|u: int|
                    0 <= u < v_count ==> #[trigger] g.dg.rows()[u] == pair_firsts(
                        adj@[u]@,
                    )
                &&& forall|u: usize, j: int|
                    (u as int) < v_count && 0 <= j < adj@[u as int]@.len()
                        ==> #[trigger] g.weights.value_of(u, adj@[u as int]@[j].0)
                            == adj@[u as int]@[j].1
            },
    {
        let mut adjlist: Vec<Vec<usize>> = Vec::new();
        let mut u: usize = 0;
        while u < adj.len()
            invariant
                u <= adj.len(),
                adjlist@.len() == u,
                adj@.len() == adj.len(),
                forall|x: int|
                    0 <= x < u ==> #[trigger] adjlist@[x]@ == pair_firsts(adj@[x]@),
            decreases adj.len() - u,
        {
            let row = &adj[u];
            let mut nr: Vec<usize> = Vec::new();
            let mut j: usize = 0;
            proof {
                assert(nr@ =~= pair_firsts(adj@[u as int]@.take(0)));
            }
            while j < row.len()
                invariant
                    j <= row.len(),
                    row@ == adj@[u as int]@,
                    u < adj.len(),
                    adj@[u as int]@ == adj@[u as int]@,
                    nr@ == pair_firsts(adj@[u as int]@.take(j as int)),
                decreases row.len() - j,
            {
                let to = row[j].0;
                proof {
                    let rowv = adj@[u as int]@;
                    assert(rowv.take(j + 1).drop_last() =~= rowv.take(j as int));
                    assert(pair_firsts(rowv.take(j + 1)) =~= pair_firsts(rowv.take(
                        j as int,
                    )).push(rowv[j as int].0));
                    assert(rowv[j as int] == row@[j as int]);
                }
                nr.push(to);
                j += 1;
            }
            proof {
                assert(adj@[u as int]@.take(row@.len() as int) =~= adj@[
                    u as int]@);
            }
            adjlist.push(nr);
            u += 1;
        }
        proof {
            assert(adjlist.deep_view() =~~= weighted_firsts(adj@)) by {
                assert(adjlist.deep_view().len() == adj@.len());
                assert forall|x: int| 0 <= x < adj@.len() implies adjlist.deep_view()[x]
                    =~= weighted_firsts(adj@)[x] by {
                    assert(adjlist.deep_view()[x] =~= adjlist@[x]@);
                    assert(weighted_firsts(adj@)[x] == pair_firsts(adj@[x]@));
                }
            }
        }
        let dg = match Digraph::from_adjacency_list(v_count, e_count, adjlist) {
            Ok(d) => d,
            Err(e) => {
                return Err(e);
            },
        };
        // second pass: record the weights, keyed by (from, to)
        let ghost rows = dg.rows();
        let mut weights: WeightTable<W> = WeightTable::new();
        let mut u2: usize = 0;
        while u2 < adj.len()
            invariant
                u2 <= adj.len(),
                weights.wf(),
                adj@.len() == adj.len(),
                dg.wf(),
                rows == dg.rows(),
                rows.len() == adj.len(),
                forall|x: int|
                    0 <= x < adj.len() ==> #[trigger] rows[x] == pair_firsts(adj@[x]@),
                forall|x: usize, y: usize|
                    #[trigger] weights.has_key(x, y) <==> (x as int) < u2 && rows[
                        x as int].contains(y),
                forall|x: usize, j: int|
                    (x as int) < u2 && 0 <= j < adj@[x as int]@.len()
                        ==> #[trigger] weights.value_of(x, adj@[x as int]@[j].0)
                            == adj@[x as int]@[j].1,
            decreases adj.len() - u2,
        {
            let row = &adj[u2];
            let mut j: usize = 0;
            while j < row.len()
                invariant
                    j <= row.len(),
                    row@ == adj@[u2 as int]@,
                    u2 < adj.len(),
                    weights.wf(),
                    adj@.len() == adj.len(),
                    dg.wf(),
                    rows == dg.rows(),
                    rows.len() == adj.len(),
                    adj@[u2 as int]@ == adj@[u2 as int]@,
                    forall|x: int|
                        0 <= x < adj.len() ==> #[trigger] rows[x] == pair_firsts(
                            adj@[x]@,
                        ),
                    forall|x: usize, y: usize|
                        #[trigger] weights.has_key(x, y) <==> ((x as int) < u2 && rows[
                            x as int].contains(y)) || (x == u2 && pair_firsts(
                            adj@[u2 as int]@,
                        ).take(j as int).contains(y)),
                    forall|x: usize, k: int|
                        (x as int) < u2 && 0 <= k < adj@[x as int]@.len()
                            ==> #[trigger] weights.value_of(x, adj@[x as int]@[k].0)
                                == adj@[x as int]@[k].1,
                    forall|k: int|
                        0 <= k < j ==> #[trigger] weights.value_of(
                            u2,
                            adj@[u2 as int]@[k].0,
                        ) == adj@[u2 as int]@[k].1,
                decreases row.len() - j,
            {
                let (to, w) = row[j];
                let ghost rowv = adj@[u2 as int]@;
                let ghost firsts = pair_firsts(rowv);
                let ghost w1 = weights;
                proof {
                    assert(rowv[j as int] == row@[j as int]);
                    assert(firsts[j as int] == to);
                    assert(rows[u2 as int] == firsts);
                    assert(nodup(firsts));
                }
                weights.set(u2, to, w);
                proof {
                    assert(firsts.take(j + 1) =~= firsts.take(j as int).push(to));
                    crate::seqs::lemma_push_contains(firsts.take(j as int), to);
                    assert forall|x: usize, y: usize| #[trigger] weights.has_key(x, y) <==> ((
                    x as int) < u2 && rows[x as int].contains(y)) || (x == u2 && pair_firsts(
                        adj@[u2 as int]@,
                    ).take(j + 1).contains(y)) by {
                        assert(pair_firsts(adj@[u2 as int]@) == firsts);
                        assert(firsts.take(j + 1).contains(y) == (firsts.take(
                            j as int,
                        ).contains(y) || y == to));
                        if !(x == u2 && y == to) {
                            assert(weights.has_key(x, y) == w1.has_key(x, y));
                        }
                    }
                    // earlier keys in this row are different neighbours
                    assert forall|k: int| 0 <= k < j + 1 implies #[trigger] weights.value_of(
                        u2,
                        rowv[k].0,
                    ) == rowv[k].1 by {
                        if k < j {
                            assert(firsts[k] == rowv[k].0);
                            assert(firsts[k] != firsts[j as int]);
                            assert(firsts.take(j as int)[k] == rowv[k].0);
                            assert(firsts.take(j as int).contains(rowv[k].0));
                            assert(w1.has_key(u2, rowv[k].0));
                            assert(w1.value_of(u2, rowv[k].0) == rowv[k].1);
                        } else {
                            assert(rowv[k].0 == to && rowv[k].1 == w);
                        }
                    }
                    assert forall|x: usize, k: int|
                        (x as int) < u2 && 0 <= k < adj@[x as int]@.len() implies
                        #[trigger] weights.value_of(x, adj@[x as int]@[k].0)
                            == adj@[x as int]@[k].1 by {
                        assert(x != u2);
                        assert(rows[x as int] == pair_firsts(adj@[x as int]@));
                        assert(rows[x as int][k] == adj@[x as int]@[k].0);
                        assert(rows[x as int].contains(adj@[x as int]@[k].0));
                        assert(w1.has_key(x, adj@[x as int]@[k].0));
                        assert(w1.value_of(x, adj@[x as int]@[k].0) == adj@[x as int]@[k].1);
                    }
                }
                j += 1;
            }
            proof {
                let rowv = adj@[u2 as int]@;
                let firsts = pair_firsts(rowv);
                assert(firsts.take(row@.len() as int) =~= firsts);
                assert forall|x: usize, y: usize| #[trigger] weights.has_key(x, y) <==> (
                x as int) < u2 + 1 && rows[x as int].contains(y) by {
                    if x == u2 {
                        assert(rows[x as int] == firsts);
                    }
                }
            }
            u2 += 1;
        }
        Ok(WeightedDigraph { dg, weights })
    }

    pub fn vertex_exists(&self, v: usize) -> (r: bool)
        requires
            self.wf(),
        ensures
            r == self.dg.exists_spec(v as int),
    {
        self.dg.vertex_exists(v)
    }

    pub fn vertex_deleted(&self, v: usize) -> (r: bool)
        requires
            self.wf(),
        ensures
            r == (v < self.dg.rows().len() && self.dg.deleted@[v as int]),
    {
        self.dg.vertex_deleted(v)
    }

    pub fn v_count(&self) -> (r: usize)
        requires
            self.wf(),
        ensures
            r == self.dg.rows().len() - crate::seqs::count_ones(self.dg.deleted@),
    {
        self.dg.v_count()
    }

    pub fn e_count(&self) -> (r: usize)
        requires
            self.wf(),
        ensures
            r == crate::encoding::flat_of(self.dg.rows()).len(),
    {
        self.dg.e_count()
    }

    pub fn edge_exists(&self, from: usize, to: usize) -> (r: bool)
        requires
            self.wf(),
        ensures
            r == (self.dg.exists_spec(from as int) && self.dg.exists_spec(to as int)
                && self.dg.rows()[from as int].contains(to)),
    {
        self.dg.edge_exists(from, to)
    }

    pub fn outgoing_edges(&self, v: usize) -> (r: Result<Vec<usize>, GraphError>)
        requires
            self.wf(),
        ensures
            r is Ok <==> self.dg.exists_spec(v as int),
            r matches Ok(row) ==> row@ == self.dg.rows()[v as int],
    {
        self.dg.outgoing_edges(v)
    }

    pub fn incoming_edges(&self, v: usize) -> (r: Result<Vec<usize>, GraphError>)
        requires
            self.wf(),
        ensures
            r is Ok <==> self.dg.exists_spec(v as int),
            r matches Ok(row) ==> row@ == crate::adjacency::incoming_list(self.dg.rows(), v),
    {
        self.dg.incoming_edges(v)
    }

    pub fn append_vertex(&mut self) -> (r: usize)
        requires
            old(self).wf(),
        ensures
            final(self).wf(),
            r == old(self).dg.rows().len(),
            forall|w: int|
                final(self).dg.exists_spec(w) == (old(self).dg.exists_spec(w) || w == r as int),
    {
        let ghost rows1 = self.dg.rows();
        let r = self.dg.append_vertex();
        proof {
            assert forall|x: usize, y: usize| #[trigger] self.weights.has_key(x, y) <==> (
            x as int) < self.dg.rows().len() && self.dg.rows()[x as int].contains(y) by {
                assert(old(self).weights.has_key(x, y) == ((x as int) < rows1.len() && rows1[
                    x as int].contains(y)));
                if (x as int) < self.dg.rows().len() {
                    if (x as int) < rows1.len() {
                        assert(self.dg.rows()[x as int] == rows1[x as int]);
                    } else {
                        assert(self.dg.rows()[x as int] =~= Seq::<usize>::empty());
                        assert(!self.weights.has_key(x, y));
                    }
                }
            }
        }
        r
    }

    pub fn add_vertex(&mut self, v: usize) -> (r: Result<usize, GraphError>)
        requires
            old(self).wf(),
            v < usize::MAX,
        ensures
            r is Ok <==> !old(self).dg.exists_spec(v as int),
            r is Err ==> *final(self) == *old(self),
            r is Ok ==> final(self).wf() && forall|w: int|
                final(self).dg.exists_spec(w) == (old(self).dg.exists_spec(w) || w == v as int),
    {
        let ghost rows1 = self.dg.rows();
        let res = self.dg.add_vertex(v);
        proof {
            if res is Ok {
                assert forall|x: usize, y: usize| #[trigger] self.weights.has_key(x, y) <==> (
                x as int) < self.dg.rows().len() && self.dg.rows()[x as int].contains(y) by {
                    if (x as int) < self.dg.rows().len() {
                        if (x as int) < rows1.len() {
                            assert(self.dg.rows()[x as int] == rows1[x as int]);
                        } else {
                            if self.dg.rows()[x as int].contains(y) {
                                let k = choose|k: int|
                                    0 <= k < self.dg.rows()[x as int].len()
                                        && #[trigger] self.dg.rows()[x as int][k] == y;
                                assert(false);
                            }
                            assert(!self.weights.has_key(x, y));
                        }
                    }
                }
            }
        }
        res
    }

    /// Add the edge and record its weight.
    pub fn add_edge(&mut self, from: usize, to: usize, weight: W) -> (r: Result<(), GraphError>)
        requires
            old(self).wf(),
            old(self).dg.e_count < SYMBOL_LIMIT,
        ensures
            r is Ok <==> (old(self).dg.exists_spec(from as int) && old(self).dg.exists_spec(
                to as int,
            ) && !old(self).dg.rows()[from as int].contains(to)),
            r is Err ==> *final(self) == *old(self),
            r is Ok ==> {
                &&& final(self).wf()
                &&& final(self).dg.rows()[from as int].contains(to)
                &&& final(self).weights.value_of(from, to) == weight
            },
    {
        let ghost rows1 = self.dg.rows();
        let res = self.dg.add_edge(from, to);
        match res {
            Ok(_) => {
                self.weights.set(from, to, weight);
                proof {
                    let s2 = self.dg.rows()[from as int];
                    assert(s2 == rows1[from as int].push(to));
                    crate::seqs::lemma_push_contains(rows1[from as int], to);
                    assert(s2.contains(to));
                    assert forall|x: usize, y: usize| #[trigger] self.weights.has_key(x, y)
                        <==> (x as int) < self.dg.rows().len() && self.dg.rows()[
                        x as int].contains(y) by {
                        assert(old(self).weights.has_key(x, y) == ((x as int) < rows1.len()
                            && rows1[x as int].contains(y)));
                        if !(x == from && y == to) {
                            assert(self.weights.has_key(x, y) == old(self).weights.has_key(x, y));
                        }
                        if (x as int) < rows1.len() {
                            if x == from {
                                assert(self.dg.rows()[x as int] == rows1[x as int].push(to));
                                assert(rows1[x as int].push(to).contains(y) == (rows1[
                                    x as int].contains(y) || y == to));
                            } else {
                                assert(self.dg.rows()[x as int] == rows1[x as int]);
                            }
                        }
                    }
                }
                Ok(())
            },
            Err(e) => Err(e),
        }
    }

    /// Replace the weight of an existing edge.
    pub fn edit_weight(&mut self, from: usize, to: usize, weight: W) -> (r: Result<
        (),
        GraphError,
    >)
        requires
            old(self).wf(),
        ensures
            r is Ok <==> (old(self).dg.exists_spec(from as int) && old(self).dg.exists_spec(
                to as int,
            ) && old(self).dg.rows()[from as int].contains(to)),
            r is Err ==> *final(self) == *old(self) && r == Err::<(), GraphError>(
                GraphError::EdgeNotFound,
            ),
            r is Ok ==> {
                &&& final(self).wf()
                &&& final(self).dg == old(self).dg
                &&& final(self).weights.value_of(from, to) == weight
            },
    {
        if !self.dg.edge_exists(from, to) {
            return Err(GraphError::EdgeNotFound);
        }
        self.weights.set(from, to, weight);
        Ok(())
    }

    /// The weight of an existing edge.
    pub fn get_weight(&self, from: usize, to: usize) -> (r: Result<W, GraphError>)
        requires
            self.wf(),
        ensures
            r is Ok <==> (self.dg.exists_spec(from as int) && self.dg.exists_spec(to as int)
                && self.dg.rows()[from as int].contains(to)),
            r matches Ok(w) ==> w == self.weights.value_of(from, to),
    {
        if !self.dg.edge_exists(from, to) {
            return Err(GraphError::EdgeNotFound);
        }
        match self.weights.get(from, to) {
            Some(w) => Ok(w),
            None => {
                proof {
                    assert(false);
                }
                Err(GraphError::EdgeNotFound)
            },
        }
    }

    /// Delete the edge and drop its weight.
    pub fn delete_edge(&mut self, from: usize, to: usize) -> (r: Result<(), GraphError>)
        requires
            old(self).wf(),
        ensures
            r is Ok <==> (old(self).dg.exists_spec(from as int) && old(self).dg.exists_spec(
                to as int,
            ) && old(self).dg.rows()[from as int].contains(to)),
            r is Err ==> *final(self) == *old(self),
            r is Ok ==> {
                &&& final(self).wf()
                &&& !final(self).dg.rows()[from as int].contains(to)
                &&& final(self).dg.e_count == old(self).dg.e_count - 1
            },
    {
        let ghost rows1 = self.dg.rows();
        let res = self.dg.delete_edge(from, to);
        match res {
            Ok(_) => {
                self.weights.remove(from, to);
                proof {
                    let s1 = rows1[from as int];
                    let s2 = self.dg.rows()[from as int];
                    assert(s2 == crate::seqs::remove_value(s1, to));
                    crate::seqs::lemma_remove_value_nodup(s1, to);
                    assert forall|x: usize, y: usize| #[trigger] self.weights.has_key(x, y)
                        <==> (x as int) < self.dg.rows().len() && self.dg.rows()[
                        x as int].contains(y) by {
                        assert(old(self).weights.has_key(x, y) == ((x as int) < rows1.len()
                            && rows1[x as int].contains(y)));
                        if !(x == from && y == to) {
                            assert(self.weights.has_key(x, y) == old(self).weights.has_key(x, y));
                        } else {
                            assert(!self.weights.has_key(x, y));
                        }
                        if (x as int) < rows1.len() {
                            if x == from {
                                assert(s2.contains(y) == (s1.contains(y) && y != to));
                            } else {
                                assert(self.dg.rows()[x as int] == rows1[x as int]);
                            }
                        }
                    }
                }
                Ok(())
            },
            Err(e) => Err(e),
        }
    }

    /// Remove the vertex, its incident edges, and their weights.
    pub fn delete_vertex(&mut self, v: usize) -> (r: Result<(), GraphError>)
        requires
            old(self).wf(),
        ensures
            r is Ok <==> old(self).dg.exists_spec(v as int),
            r is Err ==> *final(self) == *old(self),
            r is Ok ==> {
                &&& final(self).wf()
                &&& forall|w: int|
                    final(self).dg.exists_spec(w) == (old(self).dg.exists_spec(w) && w
                        != v as int)
            },
    {
        if !self.dg.vertex_exists(v) {
            return Err(GraphError::VertexNotFound);
        }
        let out = match self.dg.outgoing_edges(v) {
            Ok(o) => o,
            Err(_) => Vec::new(),
        };
        let inc = match self.dg.incoming_edges(v) {
            Ok(o) => o,
            Err(_) => Vec::new(),
        };
        let nv = self.dg.adj.len();
        let ghost rows1 = self.dg.rows();
        proof {
            assert(rows1.len() == nv);
        }
        let res = self.dg.delete_vertex(v);
        let ghost dg_after = self.dg;
        proof {
            assert(res is Ok);
        }
        // drop the weights of the edges that left with the vertex
        let mut i: usize = 0;
        while i < out.len()
            invariant
                i <= out.len(),
                self.dg == dg_after,
                self.weights.wf(),
                forall|x: usize, y: usize|
                    #[trigger] self.weights.has_key(x, y) <==> old(self).weights.has_key(x, y)
                        && !(x == v && out@.take(i as int).contains(y)),
            decreases out.len() - i,
        {
            let y = out[i];
            let ghost w1 = self.weights;
            self.weights.remove(v, y);
            proof {
                assert(out@.take(i + 1) =~= out@.take(i as int).push(y));
                crate::seqs::lemma_push_contains(out@.take(i as int), y);
                assert forall|x: usize, y2: usize| #[trigger] self.weights.has_key(x, y2)
                    <==> old(self).weights.has_key(x, y2) && !(x == v && out@.take(
                    i + 1,
                ).contains(y2)) by {
                    assert(w1.has_key(x, y2) == (old(self).weights.has_key(x, y2) && !(x == v
                        && out@.take(i as int).contains(y2))));
                    assert(out@.take(i + 1).contains(y2) == (out@.take(i as int).contains(y2)
                        || y2 == y));
                    if !(x == v && y2 == y) {
                        assert(self.weights.has_key(x, y2) == w1.has_key(x, y2));
                    } else {
                        assert(!self.weights.has_key(x, y2));
                    }
                }
            }
            i += 1;
        }
        proof {
            assert(out@.take(out.len() as int) =~= out@);
        }
        let mut k: usize = 0;
        while k < inc.len()
            invariant
                k <= inc.len(),
                self.dg == dg_after,
                self.weights.wf(),
                out@ == rows1[v as int],
                forall|x: usize, y: usize|
                    #[trigger] self.weights.has_key(x, y) <==> old(self).weights.has_key(x, y)
                        && !(x == v && out@.contains(y)) && !(y == v && inc@.take(
                        k as int,
                    ).contains(x)),
            decreases inc.len() - k,
        {
            let x = inc[k];
            let ghost w1 = self.weights;
            self.weights.remove(x, v);
            proof {
                assert(inc@.take(k + 1) =~= inc@.take(k as int).push(x));
                crate::seqs::lemma_push_contains(inc@.take(k as int), x);
                assert forall|x2: usize, y: usize| #[trigger] self.weights.has_key(x2, y)
                    <==> old(self).weights.has_key(x2, y) && !(x2 == v && out@.contains(y)) && !(
                y == v && inc@.take(k + 1).contains(x2)) by {
                    assert(w1.has_key(x2, y) == (old(self).weights.has_key(x2, y) && !(x2 == v
                        && out@.contains(y)) && !(y == v && inc@.take(k as int).contains(x2))));
                    assert(inc@.take(k + 1).contains(x2) == (inc@.take(k as int).contains(x2)
                        || x2 == x));
                    if !(x2 == x && y == v) {
                        assert(self.weights.has_key(x2, y) == w1.has_key(x2, y));
                    } else {
                        assert(!self.weights.has_key(x2, y));
                    }
                }
            }
            k += 1;
        }
        proof {
            assert(out@.take(out.len() as int) =~= out@);
            assert(inc@.take(inc.len() as int) =~= inc@);
            crate::adjacency::lemma_incoming_upto_props(rows1, v, rows1.len() as int);
            assert forall|x: usize, y: usize| #[trigger] self.weights.has_key(x, y) <==> (
            x as int) < self.dg.rows().len() && self.dg.rows()[x as int].contains(y) by {
                assert(old(self).weights.has_key(x, y) == ((x as int) < rows1.len() && rows1[
                    x as int].contains(y)));
                if (x as int) < self.dg.rows().len() {
                    if x == v {
                        assert(self.dg.rows()[v as int].len() == 0);
                        if old(self).weights.has_key(x, y) {
                            assert(rows1[v as int].contains(y));
                            assert(out@.contains(y));
                        }
                    } else {
                        assert(self.dg.rows()[x as int] == crate::seqs::remove_value(
                            rows1[x as int],
                            v,
                        ));
                        assert(nodup(rows1[x as int]));
                        crate::seqs::lemma_remove_value_nodup(rows1[x as int], v);
                        if y == v {
                            assert(!self.dg.rows()[x as int].contains(v));
                            if old(self).weights.has_key(x, v) {
                                assert(rows1[x as int].contains(v));
                                assert(inc@.contains(x));
                            }
                        }
                    }
                }
            }
        }
        Ok(())
    }
}

/// A wavelet-tree digraph whose edges carry weights: the committed weight
/// table is keyed by `(from, to)`, and a parallel overlay of weight edits is
/// folded in by a commit.
pub struct WeightedWTDigraph<W> {
    pub dg: WTDigraph,
    pub weights: WeightTable<W>,
    pub weights_uncommitted: WeightTable<Edit<W>>,
}

impl<W: Copy> WeightedWTDigraph<W> {
    /// The committed table's keys are exactly the committed edges, and every
    /// edge of a replayed row has a weight to fall back on: a buffered `Add`
    /// or its committed entry.
    pub open spec fn wf(self) -> bool {
        &&& self.dg.wf()
        &&& self.weights.wf()
        &&& self.weights_uncommitted.wf()
        &&& forall|u: usize, v: usize|
            #[trigger] self.weights.has_key(u, v) <==> (u as int) < self.dg.committed_adj().len()
                && self.dg.committed_adj()[u as int].contains(v)
        &&& forall|u: usize, v: usize|
            (u as int) < self.dg.st().len_u() && #[trigger] self.dg.st().replay_row(
                u as int,
            ).contains(v) ==> if self.weights_uncommitted.has_key(u, v) {
                self.weights_uncommitted.value_of(u, v) is Add
            } else {
                (u as int) < self.dg.committed_adj().len() && self.dg.committed_adj()[
                    u as int].contains(v)
            }
    }

    /// The weight an edge has in the updated view: a buffered edit wins over
    /// the committed table.
    pub open spec fn updated_weight(self, u: usize, v: usize) -> W {
        if self.weights_uncommitted.has_key(u, v) {
            self.weights_uncommitted.value_of(u, v)->Add_0
        } else {
            self.weights.value_of(u, v)
        }
    }

    pub fn new() -> (r: WeightedWTDigraph<W>)
        ensures
            r.wf(),
            r.dg.committed_adj().len() == 0,
            r.dg.st().len_u() == 0,
    {
        let r = WeightedWTDigraph {
            dg: WTDigraph::new(),
            weights: WeightTable::new(),
            weights_uncommitted: WeightTable::new(),
        };
        r
    }

    /// Freeze a plain weighted digraph, keeping its weight table.
    pub fn from_weighted_digraph(wdg: WeightedDigraph<W>) -> (r: WeightedWTDigraph<W>)
        requires
            wdg.wf(),
        ensures
            r.wf(),
            r.dg.committed_adj() == wdg.dg.rows(),
            r.dg.deleted_vertices@ == wdg.dg.deleted@,
            r.weights == wdg.weights,
            forall|u: usize, v: usize| !r.weights_uncommitted.has_key(u, v),
            r.dg.st().len_u() == wdg.dg.rows().len(),
            forall|w: int| r.dg.st().exists_u(w) == wdg.dg.exists_spec(w),
            forall|w: int| r.dg.st().exists_c(w) == wdg.dg.exists_spec(w),
            forall|v: int|
                0 <= v < wdg.dg.rows().len() ==> #[trigger] r.dg.st().replay_row(v)
                    == wdg.dg.rows()[v],
            r.dg.st().ecount() == crate::encoding::flat_of(wdg.dg.rows()).len(),
            r.dg.st().vcount() == wdg.dg.rows().len() - crate::seqs::count_ones(wdg.dg.deleted@),
            !r.dg.has_uncommitted_edits,
    {
        let dg = WTDigraph::from_digraph(wdg.dg);
        let r = WeightedWTDigraph { dg, weights: wdg.weights, weights_uncommitted: WeightTable::new() };
        proof {
            assert forall|u: usize, v: usize|
                (u as int) < r.dg.st().len_u() && #[trigger] r.dg.st().replay_row(
                u as int).contains(v) implies (u as int) < r.dg.committed_adj().len()
                && r.dg.committed_adj()[u as int].contains(v) by {
                assert(r.dg.st().replay_row(u as int) == r.dg.committed_adj()[u as int]);
            }
        }
        r
    }

    pub fn vertex_exists(&self, v: usize) -> (r: bool)
        requires
            self.wf(),
        ensures
            r == self.dg.st().exists_c(v as int),
    {
        self.dg.vertex_exists(v)
    }

    pub fn vertex_exists_updated(&self, v: usize) -> (r: bool)
        requires
            self.wf(),
        ensures
            r == self.dg.st().exists_u(v as int),
    {
        self.dg.vertex_exists_updated(v)
    }

    pub fn vertex_deleted(&self, v: usize) -> (r: bool)
        requires
            self.wf(),
        ensures
            r == (v < self.dg.wt_adj_len_updated && !self.dg.st().exists_u(v as int)),
    {
        self.dg.vertex_deleted(v)
    }

    pub fn v_count(&self) -> (r: usize)
        requires
            self.wf(),
        ensures
            r == self.dg.committed_vcount(),
    {
        self.dg.v_count()
    }

    pub fn e_count(&self) -> (r: usize)
        requires
            self.wf(),
        ensures
            r == crate::encoding::flat_of(self.dg.committed_adj()).len(),
    {
        self.dg.e_count()
    }

    pub fn v_count_updated(&self) -> (r: usize)
        requires
            self.wf(),
        ensures
            r == self.dg.st().vcount(),
    {
        self.dg.v_count_updated()
    }

    pub fn e_count_updated(&self) -> (r: usize)
        requires
            self.wf(),
        ensures
            r == self.dg.st().ecount(),
    {
        self.dg.e_count_updated()
    }

    pub fn edge_exists(&self, from: usize, to: usize) -> (r: bool)
        requires
            self.wf(),
        ensures
            r == (self.dg.st().exists_c(from as int) && self.dg.st().exists_c(to as int)
                && self.dg.committed_adj()[from as int].contains(to)),
    {
        self.dg.edge_exists(from, to)
    }

    pub fn edge_exists_updated(&self, from: usize, to: usize) -> (r: bool)
        requires
            self.wf(),
        ensures
            r == self.dg.st().has_edge(from as int, to),
    {
        self.dg.edge_exists_updated(from, to)
    }

    pub fn outgoing_edges(&self, v: usize) -> (r: Result<Vec<usize>, GraphError>)
        requires
            self.wf(),
        ensures
            r is Ok <==> self.dg.st().exists_c(v as int),
            r matches Ok(row) ==> row@ == self.dg.committed_adj()[v as int],
    {
        self.dg.outgoing_edges(v)
    }

    pub fn incoming_edges(&self, v: usize) -> (r: Result<Vec<usize>, GraphError>)
        requires
            self.wf(),
        ensures
            r is Ok <==> self.dg.st().exists_c(v as int),
            r matches Ok(row) ==> row@ == crate::adjacency::incoming_list(
                self.dg.committed_adj(),
                v,
            ),
    {
        self.dg.incoming_edges(v)
    }

    pub fn outgoing_edges_updated(&self, v: usize) -> (r: Result<Vec<usize>, GraphError>)
        requires
            self.wf(),
        ensures
            r is Ok <==> self.dg.st().exists_u(v as int),
            r matches Ok(row) ==> row@ == self.dg.st().vis_row(v as int),
    {
        self.dg.outgoing_edges_updated(v)
    }

    pub fn incoming_edges_updated(&self, v: usize) -> (r: Result<Vec<usize>, GraphError>)
        requires
            self.wf(),
        ensures
            r is Ok <==> self.dg.st().exists_u(v as int),
            r matches Ok(row) ==> row@ == self.dg.st().in_list(v),
    {
        self.dg.incoming_edges_updated(v)
    }

    pub fn add_vertex(&mut self, vertex: usize) -> (r: Result<usize, GraphError>)
        requires
            old(self).wf(),
            vertex < usize::MAX,
            old(self).dg.readd_ecount(vertex as int) <= SYMBOL_LIMIT,
        ensures
            r is Ok <==> !old(self).dg.st().exists_u(vertex as int),
            r is Err ==> *final(self) == *old(self),
            r is Ok ==> {
                &&& r == Ok::<usize, GraphError>(vertex)
                &&& final(self).wf()
                &&& final(self).weights == old(self).weights
                &&& final(self).weights_uncommitted == old(self).weights_uncommitted
                &&& final(self).dg.st().len_u() == if vertex < old(self).dg.wt_adj_len_updated {
                    old(self).dg.st().len_u()
                } else {
                    vertex + 1
                }
                &&& forall|w: int|
                    final(self).dg.st().exists_u(w) == (old(self).dg.st().exists_u(w) || w
                        == vertex as int)
                &&& forall|u: int|
                    0 <= u < old(self).dg.st().len_u() ==> #[trigger] final(self).dg.st().replay_row(u) == old(self).dg.st().replay_row(u)
                &&& final(self).dg.v_count_updated == old(self).dg.v_count_updated + 1
                &&& (vertex >= old(self).dg.wt_adj_len_updated ==> final(self).dg.e_count_updated
                    == old(self).dg.e_count_updated)
            },
    {
        let ghost st1 = self.dg.st();
        let res = self.dg.add_vertex(vertex);
        proof {
            if res is Ok {
                lemma_weight_rows_preserved::<W>(*old(self), *self, st1);
            }
        }
        res
    }

    pub fn append_vertex(&mut self) -> (r: Result<usize, GraphError>)
        requires
            old(self).wf(),
            old(self).dg.wt_adj_len_updated < usize::MAX,
        ensures
            r == Ok::<usize, GraphError>(old(self).dg.wt_adj_len_updated),
            final(self).wf(),
            final(self).weights == old(self).weights,
            final(self).weights_uncommitted == old(self).weights_uncommitted,
            final(self).dg.st().len_u() == old(self).dg.st().len_u() + 1,
            forall|w: int|
                final(self).dg.st().exists_u(w) == (old(self).dg.st().exists_u(w) || w == old(self).dg.wt_adj_len_updated as int),
            forall|u: int|
                0 <= u < old(self).dg.st().len_u() ==> #[trigger] final(self).dg.st().replay_row(
                    u,
                ) == old(self).dg.st().replay_row(u),
            final(self).dg.v_count_updated == old(self).dg.v_count_updated + 1,
            final(self).dg.e_count_updated == old(self).dg.e_count_updated,
    {
        let ghost st1 = self.dg.st();
        let res = self.dg.append_vertex();
        proof {
            lemma_weight_rows_preserved::<W>(*old(self), *self, st1);
        }
        res
    }

    pub fn delete_vertex(&mut self, vertex: usize) -> (r: Result<(), GraphError>)
        requires
            old(self).wf(),
        ensures
            r is Ok <==> old(self).dg.st().exists_u(vertex as int),
            r is Ok ==> final(self).wf() && forall|w: int|
                final(self).dg.st().exists_u(w) == (old(self).dg.st().exists_u(w) && w
                    != vertex as int),
            r is Err ==> *final(self) == *old(self),
    {
        let ghost st1 = self.dg.st();
        let res = self.dg.delete_vertex(vertex);
        proof {
            if res is Ok {
                lemma_weight_rows_preserved::<W>(*old(self), *self, st1);
            }
        }
        res
    }

    /// Add an edge and buffer its weight.
    pub fn add_edge(&mut self, from: usize, to: usize, weight: W) -> (r: Result<(), GraphError>)
        requires
            old(self).wf(),
            old(self).dg.st().ecount() < SYMBOL_LIMIT,
        ensures
            r is Ok <==> (old(self).dg.st().exists_u(from as int) && old(self).dg.st().exists_u(
                to as int,
            ) && !old(self).dg.st().replay_row(from as int).contains(to)),
            r is Err ==> *final(self) == *old(self),
            r is Ok ==> {
                &&& final(self).wf()
                &&& final(self).dg.st().has_edge(from as int, to)
                &&& final(self).updated_weight(from, to) == weight
                &&& final(self).dg.e_count_updated == old(self).dg.e_count_updated + 1
                &&& final(self).dg.v_count_updated == old(self).dg.v_count_updated
                &&& final(self).dg.st().len_u() == old(self).dg.st().len_u()
                &&& forall|w: int|
                    final(self).dg.st().exists_u(w) == old(self).dg.st().exists_u(w)
                &&& final(self).dg.st().replay_row(from as int) == old(self).dg.st().replay_row(
                    from as int,
                ).push(to)
                &&& forall|u: int|
                    0 <= u < old(self).dg.st().len_u() && u != from as int
                        ==> #[trigger] final(self).dg.st().replay_row(u) == old(self).dg.st().replay_row(u)
            },
    {
        let ghost st1 = self.dg.st();
        let res = self.dg.add_edge(from, to);
        match res {
            Ok(_) => {
                self.weights_uncommitted.set(from, to, Edit::Add(weight));
                proof {
                    let st2 = self.dg.st();
                    assert forall|u: usize, v: usize|
                        (u as int) < st2.len_u() && #[trigger] st2.replay_row(u as int).contains(
                        v) implies if self.weights_uncommitted.has_key(u, v) {
                        self.weights_uncommitted.value_of(u, v) is Add
                    } else {
                        (u as int) < self.dg.committed_adj().len() && self.dg.committed_adj()[
                            u as int].contains(v)
                    } by {
                        if !(u == from && v == to) {
                            assert(self.weights_uncommitted.has_key(u, v) == old(self).weights_uncommitted.has_key(u, v));
                            if u == from {
                                crate::seqs::lemma_push_contains(st1.replay_row(u as int), to);
                                assert(st1.replay_row(u as int).contains(v));
                            } else {
                                assert(st2.replay_row(u as int) == st1.replay_row(u as int));
                            }
                        }
                    }
                    assert(st2.replay_row(from as int).contains(to)) by {
                        crate::seqs::lemma_push_contains(st1.replay_row(from as int), to);
                    }
                }
                Ok(())
            },
            Err(e) => Err(e),
        }
    }

    /// Delete an edge, buffering the removal of its weight.
    pub fn delete_edge(&mut self, from: usize, to: usize) -> (r: Result<(), GraphError>)
        requires
            old(self).wf(),
        ensures
            r is Ok <==> old(self).dg.st().has_edge(from as int, to),
            r is Err ==> *final(self) == *old(self),
            r is Ok ==> {
                &&& final(self).wf()
                &&& !final(self).dg.st().has_edge(from as int, to)
                &&& final(self).dg.st().ecount() == old(self).dg.st().ecount() - 1
                &&& final(self).weights_uncommitted.has_key(from, to)
                &&& final(self).weights_uncommitted.value_of(from, to) == Edit::Delete(
                    old(self).updated_weight(from, to),
                )
                &&& forall|w: int|
                    final(self).dg.st().exists_u(w) == old(self).dg.st().exists_u(w)
                &&& final(self).dg.st().len_u() == old(self).dg.st().len_u()
                &&& final(self).dg.st().replay_row(from as int) == crate::seqs::remove_value(
                    old(self).dg.st().replay_row(from as int),
                    to,
                )
                &&& forall|u: int|
                    0 <= u < old(self).dg.st().len_u() && u != from as int
                        ==> #[trigger] final(self).dg.st().replay_row(u) == old(self).dg.st().replay_row(u)
            },
    {
        if !self.edge_exists_updated(from, to) {
            if !self.vertex_exists_updated(from) || !self.vertex_exists_updated(to) {
                return Err(GraphError::VertexNotFound);
            }
            return Err(GraphError::EdgeNotFound);
        }
        let old_weight = match self.weight_updated(from, to) {
            Ok(w) => w,
            Err(_) => {
                proof {
                    assert(false);
                }
                return Err(GraphError::EdgeNotFound);
            },
        };
        let ghost st1 = self.dg.st();
        let res = self.dg.delete_edge(from, to);
        proof {
            assert(res is Ok);
        }
        self.weights_uncommitted.set(from, to, Edit::Delete(old_weight));
        proof {
            let st2 = self.dg.st();
            assert(nodup(st1.replay_row(from as int)));
            crate::seqs::lemma_remove_value_nodup(st1.replay_row(from as int), to);
            assert forall|u: usize, v: usize|
                (u as int) < st2.len_u() && #[trigger] st2.replay_row(u as int).contains(
                v) implies if self.weights_uncommitted.has_key(u, v) {
                self.weights_uncommitted.value_of(u, v) is Add
            } else {
                (u as int) < self.dg.committed_adj().len() && self.dg.committed_adj()[
                    u as int].contains(v)
            } by {
                if !(u == from && v == to) {
                    assert(self.weights_uncommitted.has_key(u, v) == old(self).weights_uncommitted.has_key(u, v));
                    if u == from {
                        assert(st2.replay_row(u as int).contains(v) == (st1.replay_row(
                            u as int,
                        ).contains(v) && v != to));
                    } else {
                        assert(st2.replay_row(u as int) == st1.replay_row(u as int));
                    }
                } else {
                    assert(!st2.replay_row(from as int).contains(to));
                }
            }
            assert(!st2.replay_row(from as int).contains(to));
        }
        Ok(())
    }

    /// Replace the weight of an edge visible in the updated view.
    pub fn edit_weight(&mut self, from: usize, to: usize, weight: W) -> (r: Result<
        (),
        GraphError,
    >)
        requires
            old(self).wf(),
        ensures
            r is Ok <==> old(self).dg.st().has_edge(from as int, to),
            r is Err ==> *final(self) == *old(self) && r == Err::<(), GraphError>(
                GraphError::EdgeNotFound,
            ),
            r is Ok ==> {
                &&& final(self).wf()
                &&& final(self).dg == old(self).dg
                &&& final(self).updated_weight(from, to) == weight
            },
    {
        if !self.edge_exists_updated(from, to) {
            return Err(GraphError::EdgeNotFound);
        }
        self.weights_uncommitted.set(from, to, Edit::Add(weight));
        proof {
            let st2 = self.dg.st();
            assert forall|u: usize, v: usize|
                (u as int) < st2.len_u() && #[trigger] st2.replay_row(u as int).contains(
                v) implies if self.weights_uncommitted.has_key(u, v) {
                self.weights_uncommitted.value_of(u, v) is Add
            } else {
                (u as int) < self.dg.committed_adj().len() && self.dg.committed_adj()[
                    u as int].contains(v)
            } by {
                if !(u == from && v == to) {
                    assert(self.weights_uncommitted.has_key(u, v) == old(self).weights_uncommitted.has_key(u, v));
                }
            }
        }
        Ok(())
    }

    /// The committed weight of a committed edge.
    pub fn weight(&self, from: usize, to: usize) -> (r: Result<W, GraphError>)
        requires
            self.wf(),
        ensures
            r is Ok <==> (self.dg.st().exists_c(from as int) && self.dg.st().exists_c(to as int)
                && self.dg.committed_adj()[from as int].contains(to)),
            r matches Ok(w) ==> w == self.weights.value_of(from, to),
    {
        if !self.dg.edge_exists(from, to) {
            return Err(GraphError::EdgeNotFound);
        }
        match self.weights.get(from, to) {
            Some(w) => Ok(w),
            None => {
                proof {
                    assert(false);
                }
                Err(GraphError::EdgeNotFound)
            },
        }
    }

    /// The weight an edge has in the updated view.
    pub fn weight_updated(&self, from: usize, to: usize) -> (r: Result<W, GraphError>)
        requires
            self.wf(),
        ensures
            r is Ok <==> self.dg.st().has_edge(from as int, to),
            r matches Ok(w) ==> w == self.updated_weight(from, to),
    {
        if !self.dg.edge_exists_updated(from, to) {
            return Err(GraphError::EdgeNotFound);
        }
        match self.weights_uncommitted.get(from, to) {
            Some(e) => match e {
                Edit::Add(w) => Ok(w),
                Edit::Delete(w0) => {
                    proof {
                        assert(false);
                    }
                    Ok(w0)
                },
            },
            None => {
                match self.weights.get(from, to) {
                    Some(w) => Ok(w),
                    None => {
                        proof {
                            assert(false);
                        }
                        Err(GraphError::EdgeNotFound)
                    },
                }
            },
        }
    }

    /// Rebuild the committed layer and fold the weight overlay into the
    /// committed table: every edge visible in the updated view keeps its
    /// updated weight, and every other key is dropped.
    pub fn commit_edits(&mut self)
        requires
            old(self).wf(),
        ensures
            final(self).wf(),
            final(self).dg.committed_adj().len() == old(self).dg.st().len_u(),
            forall|w: int|
                final(self).dg.st().exists_c(w) == old(self).dg.st().exists_u(w),
            forall|w: int|
                final(self).dg.st().exists_u(w) == old(self).dg.st().exists_u(w),
            forall|v: int|
                0 <= v < old(self).dg.st().len_u() ==> #[trigger] final(self).dg.committed_adj()[v]
                    == if old(self).dg.st().exists_u(v) {
                    old(self).dg.st().vis_row(v)
                } else {
                    Seq::<usize>::empty()
                },
            forall|u: usize, v: usize|
                #[trigger] final(self).weights.has_key(u, v) <==> old(self).dg.st().has_edge(
                    u as int,
                    v,
                ),
            forall|u: usize, v: usize|
                old(self).dg.st().has_edge(u as int, v) ==> #[trigger] final(self).weights.value_of(u, v) == old(self).updated_weight(u, v),
            forall|u: usize, v: usize| !final(self).weights_uncommitted.has_key(u, v),
            final(self).dg.st().len_u() == old(self).dg.st().len_u(),
            forall|v: int|
                0 <= v < old(self).dg.st().len_u() ==> #[trigger] final(self).dg.st().replay_row(
                    v,
                ) == final(self).dg.committed_adj()[v],
            forall|k: int|
                0 <= k < final(self).dg.st().len_u() ==> final(self).dg.st().marks[k] is None,
            forall|k: int|
                0 <= k < final(self).dg.st().len_u() ==> (#[trigger] final(self).dg.st().edits[k]).len() == 0,
            final(self).dg.v_count_updated == old(self).dg.v_count_updated,
            final(self).dg.e_count_updated == old(self).dg.e_count_updated,
            final(self).dg.committed_vcount() == old(self).dg.st().vcount(),
            crate::encoding::flat_of(final(self).dg.committed_adj()).len() == old(self).dg.st().ecount(),
            !final(self).dg.has_uncommitted_edits,
    {
        let ghost st1 = self.dg.st();
        let ghost g1 = *self;
        let n = self.dg.wt_adj_len_updated;
        let mut nt: WeightTable<W> = WeightTable::new();
        let mut u: usize = 0;
        while u < n
            invariant
                *self == g1,
                self.wf(),
                st1 == self.dg.st(),
                n == self.dg.wt_adj_len_updated,
                u <= n,
                nt.wf(),
                forall|x: usize, y: usize|
                    #[trigger] nt.has_key(x, y) <==> (x as int) < u && st1.has_edge(x as int, y),
                forall|x: usize, y: usize|
                    nt.has_key(x, y) ==> #[trigger] nt.value_of(x, y) == g1.updated_weight(x, y),
            decreases n - u,
        {
            if self.dg.vertex_exists_updated(u) {
                let out = match self.dg.outgoing_edges_updated(u) {
                    Ok(o) => o,
                    Err(_) => Vec::new(),
                };
                proof {
                    crate::overlay::lemma_vis_filter_props(st1, st1.replay_row(u as int));
                    assert(nodup(out@));
                }
                let mut j: usize = 0;
                while j < out.len()
                    invariant
                        *self == g1,
                        self.wf(),
                        st1 == self.dg.st(),
                        n == self.dg.wt_adj_len_updated,
                        u < n,
                        st1.exists_u(u as int),
                        j <= out.len(),
                        out@ == st1.vis_row(u as int),
                        nodup(out@),
                        nt.wf(),
                        forall|x: usize, y: usize|
                            #[trigger] nt.has_key(x, y) <==> ((x as int) < u && st1.has_edge(
                                x as int,
                                y,
                            )) || (x == u && out@.take(j as int).contains(y)),
                        forall|x: usize, y: usize|
                            nt.has_key(x, y) ==> #[trigger] nt.value_of(x, y)
                                == g1.updated_weight(x, y),
                    decreases out.len() - j,
                {
                    let v = out[j];
                    proof {
                        crate::overlay::lemma_vis_filter_props(st1, st1.replay_row(u as int));
                        assert(st1.vis_row(u as int).contains(v)) by {
                            assert(st1.vis_row(u as int)[j as int] == v);
                        }
                        assert(st1.exists_u(v as int) && st1.replay_row(u as int).contains(v));
                        assert(st1.has_edge(u as int, v));
                        assert(out@.contains(v)) by {
                            assert(out@[j as int] == v);
                        }
                        assert(!out@.take(j as int).contains(v)) by {
                            if out@.take(j as int).contains(v) {
                                let k = choose|k: int|
                                    0 <= k < j && #[trigger] out@.take(j as int)[k] == v;
                                assert(out@[k] == out@[j as int]);
                                assert(false);
                            }
                        }
                    }
                    let w = match self.weights_uncommitted.get(u, v) {
                        Some(e) => match e {
                            Edit::Add(w) => w,
                            Edit::Delete(w0) => {
                                proof {
                                    assert(false);
                                }
                                w0
                            },
                        },
                        None => self.weights.get(u, v).unwrap(),
                    };
                    proof {
                        assert(w == g1.updated_weight(u, v));
                    }
                    let ghost nt1 = nt;
                    nt.set(u, v, w);
                    proof {
                        assert(out@.take(j + 1) =~= out@.take(j as int).push(v));
                        crate::seqs::lemma_push_contains(out@.take(j as int), v);
                        assert forall|x: usize, y: usize| #[trigger] nt.has_key(x, y) <==> ((
                        x as int) < u && st1.has_edge(x as int, y)) || (x == u && out@.take(
                            j + 1,
                        ).contains(y)) by {
                            if !(x == u && y == v) {
                                assert(nt.has_key(x, y) == nt1.has_key(x, y));
                            }
                        }
                        assert forall|x: usize, y: usize| nt.has_key(x, y) implies
                            #[trigger] nt.value_of(x, y) == g1.updated_weight(x, y) by {
                            if !(x == u && y == v) {
                                assert(nt.has_key(x, y) == nt1.has_key(x, y));
                                assert(nt1.has_key(x, y));
                                assert(nt.value_of(x, y) == nt1.value_of(x, y));
                            }
                        }
                    }
                    j += 1;
                }
                proof {
                    assert(out@.take(out.len() as int) =~= out@);
                    assert forall|x: usize, y: usize| #[trigger] nt.has_key(x, y) <==> (
                    x as int) < u + 1 && st1.has_edge(x as int, y) by {
                        if x == u {
                            crate::overlay::lemma_vis_filter_props(st1, st1.replay_row(u as int));
                            assert(out@.contains(y) == (st1.replay_row(u as int).contains(y)
                                && st1.exists_u(y as int)));
                        }
                    }
                }
            } else {
                proof {
                    assert forall|x: usize, y: usize| #[trigger] nt.has_key(x, y) <==> (
                    x as int) < u + 1 && st1.has_edge(x as int, y) by {
                        if x == u {
                            assert(!st1.exists_u(u as int));
                        }
                    }
                }
            }
            u += 1;
        }
        self.dg.commit_edits();
        self.weights = nt;
        self.weights_uncommitted = WeightTable::new();
        proof {
            let st2 = self.dg.st();
            assert forall|x: usize, y: usize| #[trigger] self.weights.has_key(x, y) <==> (
            x as int) < self.dg.committed_adj().len() && self.dg.committed_adj()[
                x as int].contains(y) by {
                if (x as int) < self.dg.committed_adj().len() {
                    assert(self.dg.committed_adj()[x as int] == if st1.exists_u(x as int) {
                        st1.vis_row(x as int)
                    } else {
                        Seq::<usize>::empty()
                    });
                    if st1.exists_u(x as int) {
                        crate::overlay::lemma_vis_filter_props(st1, st1.replay_row(x as int));
                    }
                }
            }
            assert forall|u2: usize, v2: usize|
                (u2 as int) < st2.len_u() && #[trigger] st2.replay_row(u2 as int).contains(
                v2) implies (u2 as int) < self.dg.committed_adj().len()
                && self.dg.committed_adj()[u2 as int].contains(v2) by {
                assert(st2.replay_row(u2 as int) == self.dg.committed_adj()[u2 as int]);
            }
        }
    }

    /// Drop every pending edit, of the graph and of the weights.
    pub fn discard_edits(&mut self)
        requires
            old(self).wf(),
        ensures
            final(self).wf(),
            final(self).dg.st().len_u() == old(self).dg.committed_adj().len(),
            forall|w: int| final(self).dg.st().exists_u(w) == old(self).dg.st().exists_c(w),
            final(self).weights == old(self).weights,
            forall|u: usize, v: usize| !final(self).weights_uncommitted.has_key(u, v),
            !final(self).dg.has_uncommitted_edits,
    {
        self.dg.discard_edits();
        self.weights_uncommitted = WeightTable::new();
        proof {
            let st2 = self.dg.st();
            assert forall|u: usize, v: usize|
                (u as int) < st2.len_u() && #[trigger] st2.replay_row(u as int).contains(
                v) implies (u as int) < self.dg.committed_adj().len() && self.dg.committed_adj()[
                u as int].contains(v) by {
                assert(st2.replay_row(u as int) == self.dg.committed_adj()[u as int]);
            }
        }
    }
}

/// A mutation that changes neither the committed layer, the replayed rows,
/// nor the weight tables keeps the weighted invariant.
proof fn lemma_weight_rows_preserved<W: Copy>(
    g1: WeightedWTDigraph<W>,
    g2: WeightedWTDigraph<W>,
    st1: crate::overlay::UState,
)
    requires
        g1.wf(),
        g2.dg.wf(),
        st1 == g1.dg.st(),
        g2.weights == g1.weights,
        g2.weights_uncommitted == g1.weights_uncommitted,
        g2.dg.ca == g1.dg.ca,
        g2.dg.deleted_vertices == g1.dg.deleted_vertices,
        st1.len_u() <= g2.dg.st().len_u(),
        forall|u: int|
            0 <= u < st1.len_u() ==> #[trigger] g2.dg.st().replay_row(u) == st1.replay_row(u),
        forall|u: int|
            st1.len_u() <= u < g2.dg.st().len_u() ==> (#[trigger] g2.dg.st().replay_row(u)).len()
                == 0,
    ensures
        g2.wf(),
{
    assert forall|u: usize, v: usize|
        (u as int) < g2.dg.st().len_u() && #[trigger] g2.dg.st().replay_row(u as int).contains(
        v) implies if g2.weights_uncommitted.has_key(u, v) {
        g2.weights_uncommitted.value_of(u, v) is Add
    } else {
        (u as int) < g2.dg.committed_adj().len() && g2.dg.committed_adj()[u as int].contains(v)
    } by {
        if (u as int) < st1.len_u() {
            assert(st1.replay_row(u as int).contains(v));
        } else {
            assert(g2.dg.st().replay_row(u as int).len() == 0);
        }
    }
}

impl<W: Copy> WeightedWTDigraph<W> {
    /// Buffer the deletion of every visible outgoing edge of `v`, dropping
    /// each edge's weight with it.
    pub fn delete_outgoing_edges(&mut self, v: usize) -> (r: Result<(), GraphError>)
        requires
            old(self).wf(),
        ensures
            r is Ok <==> old(self).dg.st().exists_u(v as int),
            r is Err ==> *final(self) == *old(self) && r == Err::<(), GraphError>(
                GraphError::VertexNotFound,
            ),
            r is Ok ==> {
                &&& final(self).wf()
                &&& forall|w: usize| !(#[trigger] final(self).dg.st().has_edge(v as int, w))
                &&& forall|w: int|
                    final(self).dg.st().exists_u(w) == old(self).dg.st().exists_u(w)
            },
    {
        if !self.dg.vertex_exists_updated(v) {
            return Err(GraphError::VertexNotFound);
        }
        let out = match self.dg.outgoing_edges_updated(v) {
            Ok(o) => o,
            Err(_) => Vec::new(),
        };
        let ghost st1 = self.dg.st();
        proof {
            crate::overlay::lemma_vis_filter_props(st1, st1.replay_row(v as int));
            assert(nodup(out@));
        }
        let mut i: usize = 0;
        while i < out.len()
            invariant
                self.wf(),
                st1 == old(self).dg.st(),
                old(self).wf(),
                (v as int) < st1.len_u(),
                st1.exists_u(v as int),
                i <= out.len(),
                out@ == st1.vis_row(v as int),
                nodup(out@),
                forall|y: usize|
                    out@.contains(y) ==> st1.exists_u(y as int) && st1.replay_row(
                        v as int,
                    ).contains(y),
                forall|w: int| self.dg.st().exists_u(w) == st1.exists_u(w),
                self.dg.st().len_u() == st1.len_u(),
                forall|w: usize|
                    #[trigger] self.dg.st().replay_row(v as int).contains(w) <==> (st1.replay_row(
                        v as int,
                    ).contains(w) && !out@.take(i as int).contains(w)),
            decreases out.len() - i,
        {
            let w = out[i];
            proof {
                assert(out@.contains(w)) by {
                    assert(out@[i as int] == w);
                }
                assert(st1.exists_u(w as int) && st1.replay_row(v as int).contains(w));
                assert(!out@.take(i as int).contains(w)) by {
                    if out@.take(i as int).contains(w) {
                        let j = choose|j: int|
                            0 <= j < i && #[trigger] out@.take(i as int)[j] == w;
                        assert(out@[j] == out@[i as int]);
                        assert(false);
                    }
                }
                assert(self.dg.st().replay_row(v as int).contains(w));
                assert(self.dg.st().has_edge(v as int, w));
            }
            let ghost pre = self.dg.st().replay_row(v as int);
            let res = self.delete_edge(v, w);
            proof {
                assert(res is Ok);
                assert(nodup(pre)) by {
                    crate::seqs::lemma_remove_value_nodup(pre, w);
                }
                crate::seqs::lemma_remove_value_nodup(pre, w);
                assert forall|y: usize| #[trigger] self.dg.st().replay_row(v as int).contains(y)
                    <==> (st1.replay_row(v as int).contains(y) && !out@.take(i + 1).contains(
                    y,
                )) by {
                    assert(out@.take(i + 1) =~= out@.take(i as int).push(w));
                    crate::seqs::lemma_push_contains(out@.take(i as int), w);
                    assert(self.dg.st().replay_row(v as int) == crate::seqs::remove_value(
                        pre,
                        w,
                    ));
                    assert(crate::seqs::remove_value(pre, w).contains(y) <==> pre.contains(y)
                        && y != w);
                    assert(pre.contains(y) <==> (st1.replay_row(v as int).contains(y)
                        && !out@.take(i as int).contains(y)));
                }
            }
            i += 1;
        }
        proof {
            assert(out@.take(out.len() as int) =~= out@);
            assert forall|w: usize| !(#[trigger] self.dg.st().has_edge(v as int, w)) by {
                if self.dg.st().has_edge(v as int, w) {
                    assert(self.dg.st().replay_row(v as int).contains(w));
                    assert(st1.replay_row(v as int).contains(w) && !out@.contains(w));
                    assert(self.dg.st().exists_u(w as int));
                    assert(st1.exists_u(w as int));
                    crate::overlay::lemma_vis_filter_props(st1, st1.replay_row(v as int));
                    assert(st1.vis_row(v as int).contains(w));
                    assert(false);
                }
            }
        }
        Ok(())
    }

    /// Buffer the deletion of every visible incoming edge of `v`, dropping
    /// each edge's weight with it.
    pub fn delete_incoming_edges(&mut self, v: usize) -> (r: Result<(), GraphError>)
        requires
            old(self).wf(),
        ensures
            r is Ok <==> old(self).dg.st().exists_u(v as int),
            r is Err ==> *final(self) == *old(self) && r == Err::<(), GraphError>(
                GraphError::VertexNotFound,
            ),
            r is Ok ==> {
                &&& final(self).wf()
                &&& forall|u: int| !(#[trigger] final(self).dg.st().has_edge(u, v))
                &&& forall|w: int|
                    final(self).dg.st().exists_u(w) == old(self).dg.st().exists_u(w)
            },
    {
        if !self.dg.vertex_exists_updated(v) {
            return Err(GraphError::VertexNotFound);
        }
        let inc = match self.dg.incoming_edges_updated(v) {
            Ok(o) => o,
            Err(_) => Vec::new(),
        };
        let ghost st1 = self.dg.st();
        proof {
            crate::overlay::lemma_in_upto_props(st1, v, st1.len_u());
        }
        let mut i: usize = 0;
        while i < inc.len()
            invariant
                self.wf(),
                st1 == old(self).dg.st(),
                old(self).wf(),
                (v as int) < st1.len_u(),
                st1.exists_u(v as int),
                i <= inc.len(),
                inc@ == st1.in_list(v),
                crate::seqs::strictly_sorted(inc@),
                forall|y: usize|
                    #[trigger] inc@.contains(y) <==> 0 <= y < st1.len_u() && st1.exists_u(y as int)
                        && st1.replay_row(y as int).contains(v),
                forall|w: int| self.dg.st().exists_u(w) == st1.exists_u(w),
                self.dg.st().len_u() == st1.len_u(),
                forall|j: int|
                    0 <= j < i ==> #[trigger] self.dg.st().replay_row(inc@[j] as int)
                        == crate::seqs::remove_value(st1.replay_row(inc@[j] as int), v),
                forall|j: int|
                    i <= j < inc@.len() ==> #[trigger] self.dg.st().replay_row(inc@[j] as int)
                        == st1.replay_row(inc@[j] as int),
                forall|u: int|
                    0 <= u < st1.len_u() && !inc@.contains(u as usize)
                        ==> #[trigger] self.dg.st().replay_row(u) == st1.replay_row(u),
            decreases inc.len() - i,
        {
            let u = inc[i];
            proof {
                assert(inc@.contains(u)) by {
                    assert(inc@[i as int] == u);
                }
                assert(st1.exists_u(u as int) && st1.replay_row(u as int).contains(v));
                assert(self.dg.st().replay_row(u as int) == st1.replay_row(u as int));
                assert(self.dg.st().has_edge(u as int, v));
            }
            let res = self.delete_edge(u, v);
            proof {
                assert(res is Ok);
                assert forall|j: int|
                    i + 1 <= j < inc@.len() implies #[trigger] self.dg.st().replay_row(
                    inc@[j] as int) == st1.replay_row(inc@[j] as int) by {
                    assert(inc@[j] != inc@[i as int]);
                    assert(inc@.contains(inc@[j]));
                    assert(0 <= inc@[j] < st1.len_u());
                }
                assert forall|u2: int|
                    0 <= u2 < st1.len_u() && !inc@.contains(u2 as usize) implies
                    #[trigger] self.dg.st().replay_row(u2) == st1.replay_row(u2) by {
                    assert(u2 != u as int);
                }
            }
            i += 1;
        }
        proof {
            assert forall|u: int| !(#[trigger] self.dg.st().has_edge(u, v)) by {
                if self.dg.st().has_edge(u, v) {
                    assert(self.dg.st().exists_u(u));
                    assert(st1.exists_u(u));
                    assert(0 <= u < st1.len_u());
                    let uu = u as usize;
                    if inc@.contains(uu) {
                        let j = choose|j: int| 0 <= j < inc@.len() && inc@[j] == uu;
                        assert(self.dg.st().replay_row(u) == crate::seqs::remove_value(
                            st1.replay_row(u),
                            v,
                        ));
                        crate::seqs::lemma_remove_value_nodup(st1.replay_row(u), v);
                        assert(!self.dg.st().replay_row(u).contains(v));
                        assert(false);
                    } else {
                        assert(self.dg.st().replay_row(u) == st1.replay_row(u));
                        assert(st1.replay_row(u).contains(v));
                        assert(inc@.contains(uu));
                        assert(false);
                    }
                }
            }
        }
        Ok(())
    }
}

impl<W: Copy> WeightedWTDigraph<W> {
    /// Shrink the graph, renumbering the surviving vertices densely.  Every
    /// surviving edge keeps its updated weight, rekeyed by the new indices;
    /// the weight overlay is folded in along the way.
    pub fn shrink(&mut self) -> (r: Vec<Option<usize>>)
        requires
            old(self).wf(),
        ensures
            final(self).wf(),
            r@.len() == old(self).dg.st().len_u(),
            forall|w: int|
                0 <= w < old(self).dg.st().len_u() ==> #[trigger] r@[w] == if old(self).dg.st().exists_u(w) {
                    Some(old(self).dg.st().vcount_upto(w) as usize)
                } else {
                    None::<usize>
                },
            final(self).dg.committed_adj().len() == old(self).dg.st().vcount(),
            forall|u: usize, v: usize|
                old(self).dg.st().has_edge(u as int, v) ==> #[trigger] final(self).weights.value_of(
                    (old(self).dg.st().vcount_upto(u as int) as usize),
                    (old(self).dg.st().vcount_upto(v as int) as usize),
                ) == old(self).updated_weight(u, v),
            forall|u: usize, v: usize| !final(self).weights_uncommitted.has_key(u, v),
            final(self).dg.st().len_u() == old(self).dg.st().vcount(),
            forall|w: int|
                final(self).dg.st().exists_u(w) == (0 <= w < old(self).dg.st().vcount()),
            forall|w: int|
                final(self).dg.st().exists_c(w) == (0 <= w < old(self).dg.st().vcount()),
            forall|v: int|
                0 <= v < final(self).dg.committed_adj().len() ==> #[trigger] final(self).dg.st().replay_row(v) == final(self).dg.committed_adj()[v],
            final(self).dg.v_count_updated == old(self).dg.st().vcount(),
            final(self).dg.e_count_updated == old(self).dg.e_count_updated,
            crate::encoding::flat_of(final(self).dg.committed_adj()).len() == old(self).dg.st().ecount(),
            !final(self).dg.has_uncommitted_edits,
    {
        let ghost g1 = *self;
        let ghost st1 = self.dg.st();
        let n = self.dg.wt_adj_len_updated;
        let ghost slots = crate::labeled::survivor_slots(st1, n as int);
        proof {
            crate::labeled::lemma_survivor_slots_props(st1, n as int);
        }
        // first pass: the renumbering of the survivors
        let mut map0: Vec<Option<usize>> = Vec::new();
        let mut cnt: usize = 0;
        let mut v: usize = 0;
        while v < n
            invariant
                *self == g1,
                self.wf(),
                st1 == self.dg.st(),
                n == self.dg.wt_adj_len_updated,
                v <= n,
                map0@.len() == v,
                cnt as int == st1.vcount_upto(v as int),
                forall|w: int|
                    0 <= w < v ==> #[trigger] map0@[w] == if st1.exists_u(w) {
                        Some(st1.vcount_upto(w) as usize)
                    } else {
                        None::<usize>
                    },
            decreases n - v,
        {
            if self.dg.vertex_exists_updated(v) {
                map0.push(Some(cnt));
                proof {
                    crate::overlay::lemma_vcount_upto_bounds(st1, v as int);
                }
                cnt += 1;
            } else {
                map0.push(None);
            }
            v += 1;
        }
        // second pass: the surviving edges, rekeyed, with their updated
        // weights
        let mut nt: WeightTable<W> = WeightTable::new();
        let mut u: usize = 0;
        while u < n
            invariant
                *self == g1,
                self.wf(),
                st1 == self.dg.st(),
                n == self.dg.wt_adj_len_updated,
                u <= n,
                map0@.len() == n,
                slots == crate::labeled::survivor_slots(st1, n as int),
                forall|w: int|
                    0 <= w < n ==> #[trigger] map0@[w] == if st1.exists_u(w) {
                        Some(st1.vcount_upto(w) as usize)
                    } else {
                        None::<usize>
                    },
                nt.wf(),
                forall|a: usize, b: usize|
                    #[trigger] nt.has_key(a, b) <==> ((a as int) < st1.vcount_upto(u as int) && (
                    b as int) < st1.vcount() && st1.has_edge(
                        slots[a as int],
                        (slots[b as int] as usize),
                    )),
                forall|a: usize, b: usize|
                    nt.has_key(a, b) ==> #[trigger] nt.value_of(a, b) == g1.updated_weight(
                        (slots[a as int] as usize),
                        (slots[b as int] as usize),
                    ),
            decreases n - u,
        {
            if self.dg.vertex_exists_updated(u) {
                let au = match map0[u] {
                    Some(x) => x,
                    None => {
                        proof {
                            assert(false);
                        }
                        0
                    },
                };
                let out = match self.dg.outgoing_edges_updated(u) {
                    Ok(o) => o,
                    Err(_) => Vec::new(),
                };
                proof {
                    crate::labeled::lemma_survivor_slots_props(st1, n as int);
                    crate::overlay::lemma_vis_filter_props(st1, st1.replay_row(u as int));
                    assert(nodup(out@));
                    crate::overlay::lemma_vcount_upto_bounds(st1, u as int);
                    assert(au as int == st1.vcount_upto(u as int));
                    assert(slots[au as int] == u as int);
                }
                let mut j: usize = 0;
                while j < out.len()
                    invariant
                        *self == g1,
                        self.wf(),
                        st1 == self.dg.st(),
                        n == self.dg.wt_adj_len_updated,
                        u < n,
                        st1.exists_u(u as int),
                        au as int == st1.vcount_upto(u as int),
                        slots == crate::labeled::survivor_slots(st1, n as int),
                        slots[au as int] == u as int,
                        map0@.len() == n,
                        forall|w: int|
                            0 <= w < n ==> #[trigger] map0@[w] == if st1.exists_u(w) {
                                Some(st1.vcount_upto(w) as usize)
                            } else {
                                None::<usize>
                            },
                        j <= out.len(),
                        out@ == st1.vis_row(u as int),
                        nodup(out@),
                        nt.wf(),
                        forall|a: usize, b: usize|
                            #[trigger] nt.has_key(a, b) <==> ((a as int) < st1.vcount_upto(
                                u as int,
                            ) && (b as int) < st1.vcount() && st1.has_edge(
                                slots[a as int],
                                (slots[b as int] as usize),
                            )) || (a == au && (b as int) < st1.vcount() && out@.take(
                                j as int,
                            ).contains((slots[b as int] as usize))),
                        forall|a: usize, b: usize|
                            nt.has_key(a, b) ==> #[trigger] nt.value_of(a, b)
                                == g1.updated_weight(
                                (slots[a as int] as usize),
                                (slots[b as int] as usize),
                            ),
                    decreases out.len() - j,
                {
                    let vtx = out[j];
                    proof {
                        crate::labeled::lemma_survivor_slots_props(st1, n as int);
                        crate::overlay::lemma_vis_filter_props(st1, st1.replay_row(u as int));
                        assert(st1.vis_row(u as int).contains(vtx)) by {
                            assert(st1.vis_row(u as int)[j as int] == vtx);
                        }
                        assert(st1.exists_u(vtx as int) && st1.replay_row(u as int).contains(
                            vtx,
                        ));
                        assert(st1.has_edge(u as int, vtx));
                        assert(st1.vcount_upto(vtx as int + 1) == st1.vcount_upto(vtx as int)
                            + 1);
                        crate::overlay::lemma_vcount_mono(st1, vtx as int + 1, n as int);
                        crate::overlay::lemma_vcount_upto_bounds(st1, vtx as int);
                        assert(slots[st1.vcount_upto(vtx as int)] == vtx as int);
                        assert(out@.contains(vtx));
                        assert(!out@.take(j as int).contains(vtx)) by {
                            if out@.take(j as int).contains(vtx) {
                                let k = choose|k: int|
                                    0 <= k < j && #[trigger] out@.take(j as int)[k] == vtx;
                                assert(out@[k] == out@[j as int]);
                                assert(false);
                            }
                        }
                    }
                    let bv = match map0[vtx] {
                        Some(x) => x,
                        None => {
                            proof {
                                assert(false);
                            }
                            0
                        },
                    };
                    let wgt = match self.weights_uncommitted.get(u, vtx) {
                        Some(e) => match e {
                            Edit::Add(wv) => wv,
                            Edit::Delete(w0) => {
                                proof {
                                    assert(false);
                                }
                                w0
                            },
                        },
                        None => self.weights.get(u, vtx).unwrap(),
                    };
                    proof {
                        assert(wgt == g1.updated_weight(u, vtx));
                    }
                    let ghost nt1 = nt;
                    nt.set(au, bv, wgt);
                    proof {
                        assert(out@.take(j + 1) =~= out@.take(j as int).push(vtx));
                        crate::seqs::lemma_push_contains(out@.take(j as int), vtx);
                        assert(slots[bv as int] == vtx as int);
                        assert forall|a: usize, b: usize| #[trigger] nt.has_key(a, b) <==> ((
                        a as int) < st1.vcount_upto(u as int) && (b as int) < st1.vcount()
                            && st1.has_edge(slots[a as int], (slots[b as int] as usize))) || (a
                            == au && (b as int) < st1.vcount() && out@.take(j + 1).contains(
                            (slots[b as int] as usize),
                        )) by {
                            if !(a == au && b == bv) {
                                assert(nt.has_key(a, b) == nt1.has_key(a, b));
                                if a == au && (b as int) < st1.vcount() {
                                    assert(out@.take(j + 1).contains((slots[b as int] as usize))
                                        == (out@.take(j as int).contains(
                                        (slots[b as int] as usize),
                                    ) || slots[b as int] == vtx as int));
                                    if slots[b as int] == vtx as int {
                                        assert(st1.exists_u(slots[b as int]));
                                        assert(st1.vcount_upto(slots[b as int]) == b as int);
                                        assert(b == bv);
                                    }
                                }
                            } else {
                                assert(out@.take(j + 1).contains(
                                    (slots[bv as int] as usize),
                                )) by {
                                    assert(out@.take(j + 1)[j as int] == vtx);
                                }
                            }
                        }
                        assert forall|a: usize, b: usize| nt.has_key(a, b) implies
                            #[trigger] nt.value_of(a, b) == g1.updated_weight(
                            (slots[a as int] as usize),
                            (slots[b as int] as usize),
                        ) by {
                            if !(a == au && b == bv) {
                                assert(nt.has_key(a, b) == nt1.has_key(a, b));
                                assert(nt1.has_key(a, b));
                                assert(nt.value_of(a, b) == nt1.value_of(a, b));
                            } else {
                                assert(slots[au as int] == u as int);
                                assert(slots[bv as int] == vtx as int);
                            }
                        }
                    }
                    j += 1;
                }
                proof {
                    crate::labeled::lemma_survivor_slots_props(st1, n as int);
                    assert(out@.take(out.len() as int) =~= out@);
                    crate::overlay::lemma_vis_filter_props(st1, st1.replay_row(u as int));
                    assert forall|a: usize, b: usize| #[trigger] nt.has_key(a, b) <==> ((
                    a as int) < st1.vcount_upto(u + 1) && (b as int) < st1.vcount()
                        && st1.has_edge(slots[a as int], (slots[b as int] as usize))) by {
                        assert(st1.vcount_upto(u + 1) == st1.vcount_upto(u as int) + 1);
                        if a == au && (b as int) < st1.vcount() {
                            assert(out@.contains((slots[b as int] as usize)) == (st1.replay_row(
                                u as int,
                            ).contains((slots[b as int] as usize)) && st1.exists_u(
                                slots[b as int],
                            )));
                            assert(st1.exists_u(slots[b as int]));
                        }
                        if (a as int) == st1.vcount_upto(u as int) && (a as int)
                            < st1.vcount_upto(u + 1) {
                            assert(a == au);
                            assert(slots[a as int] == u as int);
                        }
                    }
                }
            } else {
                proof {
                    assert(st1.vcount_upto(u + 1) == st1.vcount_upto(u as int));
                }
            }
            u += 1;
        }
        let map = self.dg.shrink();
        self.weights = nt;
        self.weights_uncommitted = WeightTable::new();
        proof {
            crate::labeled::lemma_survivor_slots_props(st1, n as int);
            let st2 = self.dg.st();
            crate::overlay::lemma_vcount_upto_bounds(st1, n as int);
            assert forall|a: usize, b: usize| #[trigger] self.weights.has_key(a, b) <==> (
            a as int) < self.dg.committed_adj().len() && self.dg.committed_adj()[
                a as int].contains(b) by {
                if (a as int) < self.dg.committed_adj().len() {
                    let u0 = slots[a as int];
                    assert(0 <= u0 < n && st1.exists_u(u0) && st1.vcount_upto(u0) == a as int);
                    assert(self.dg.committed_adj()[a as int] == st1.vis_row(u0).map_values(
                        |w2: usize| st1.vcount_upto(w2 as int) as usize,
                    ));
                    crate::overlay::lemma_vis_filter_props(st1, st1.replay_row(u0));
                    let row = st1.vis_row(u0);
                    let mapped = self.dg.committed_adj()[a as int];
                    if self.weights.has_key(a, b) {
                        // the surviving edge appears in the renumbered row
                        assert(st1.has_edge(slots[a as int], (slots[b as int] as usize)));
                        assert(row.contains((slots[b as int] as usize)));
                        let k = choose|k: int|
                            0 <= k < row.len() && #[trigger] row[k] == (slots[b as int] as usize);
                        assert(mapped[k] == (st1.vcount_upto(slots[b as int]) as usize));
                        assert(st1.vcount_upto(slots[b as int]) == b as int);
                        assert(mapped[k] == b);
                        assert(mapped.contains(b));
                    }
                    if mapped.contains(b) {
                        let k = choose|k: int| 0 <= k < mapped.len() && #[trigger] mapped[k] == b;
                        let v0 = row[k];
                        assert(row.contains(v0)) by {
                            assert(row[k] == v0);
                        }
                        assert(st1.exists_u(v0 as int) && st1.replay_row(u0).contains(v0));
                        assert(st1.has_edge(u0, v0));
                        crate::overlay::lemma_vcount_upto_bounds(st1, v0 as int);
                        assert(mapped[k] == (st1.vcount_upto(v0 as int) as usize));
                        assert(b as int == st1.vcount_upto(v0 as int));
                        assert(st1.vcount_upto(v0 as int + 1) == st1.vcount_upto(v0 as int) + 1);
                        crate::overlay::lemma_vcount_mono(st1, v0 as int + 1, n as int);
                        assert((b as int) < st1.vcount());
                        assert(slots[b as int] == v0 as int);
                        assert(self.weights.has_key(a, b));
                    }
                } else {
                    if self.weights.has_key(a, b) {
                        assert((a as int) < st1.vcount());
                        assert(false);
                    }
                }
            }
            assert forall|u2: usize, v2: usize|
                (u2 as int) < st2.len_u() && #[trigger] st2.replay_row(u2 as int).contains(
                v2) implies (u2 as int) < self.dg.committed_adj().len()
                && self.dg.committed_adj()[u2 as int].contains(v2) by {
                assert(st2.replay_row(u2 as int) == self.dg.committed_adj()[u2 as int]);
            }
            assert forall|u2: usize, v2: usize|
                st1.has_edge(u2 as int, v2) implies #[trigger] self.weights.value_of(
                (st1.vcount_upto(u2 as int) as usize),
                (st1.vcount_upto(v2 as int) as usize),
            ) == g1.updated_weight(u2, v2) by {
                let a = st1.vcount_upto(u2 as int);
                let b = st1.vcount_upto(v2 as int);
                assert(st1.exists_u(u2 as int) && st1.exists_u(v2 as int));
                assert(st1.vcount_upto(u2 as int + 1) == a + 1);
                assert(st1.vcount_upto(v2 as int + 1) == b + 1);
                crate::overlay::lemma_vcount_mono(st1, u2 as int + 1, n as int);
                crate::overlay::lemma_vcount_mono(st1, v2 as int + 1, n as int);
                crate::overlay::lemma_vcount_upto_bounds(st1, u2 as int);
                crate::overlay::lemma_vcount_upto_bounds(st1, v2 as int);
                assert(slots[a] == u2 as int);
                assert(slots[b] == v2 as int);
                assert(nt.has_key((a as usize), (b as usize)));
            }
        }
        map
    }
}

impl<W: Copy> WeightedWTDigraph<W> {
    /// Build a weighted graph from the succinct encoding given as plain
    /// values plus a weight table.  The bits and symbols must encode a valid
    /// adjacency, and the table's keys must be exactly its edges.
    pub fn from(sequence: Vec<usize>, bits: Vec<bool>, weights: WeightTable<W>) -> (r: Result<
        WeightedWTDigraph<W>,
        GraphError,
    >)
        requires
            weights.wf(),
        ensures
            r is Ok <==> exists|rows: Seq<Seq<usize>>|
                #[trigger] crate::encoding::marks_of(rows) == bits@ && crate::encoding::flat_of(
                    rows,
                ) == sequence@ && crate::digraph::adjacency_ok(
                    rows.len() as int,
                    sequence@.len() as int,
                    rows,
                ) && (forall|u: usize, v: usize|
                    #[trigger] weights.has_key(u, v) <==> (u as int) < rows.len() && rows[
                        u as int].contains(v)),
            r matches Ok(g) ==> {
                &&& g.wf()
                &&& crate::encoding::marks_of(g.dg.committed_adj()) == bits@
                &&& crate::encoding::flat_of(g.dg.committed_adj()) == sequence@
                &&& g.weights == weights
                &&& forall|u: usize, v: usize| !g.weights_uncommitted.has_key(u, v)
                &&& !g.dg.has_uncommitted_edits
            },
    {
        let dg = match WTDigraph::from(sequence, bits) {
            Ok(d) => d,
            Err(_) => {
                proof {
                    assert forall|rows0: Seq<Seq<usize>>|
                        !(#[trigger] crate::encoding::marks_of(rows0) == bits@
                            && crate::encoding::flat_of(rows0) == sequence@
                            && crate::digraph::adjacency_ok(
                            rows0.len() as int,
                            sequence@.len() as int,
                            rows0,
                        ) && (forall|u: usize, v: usize|
                            #[trigger] weights.has_key(u, v) <==> (u as int) < rows0.len()
                                && rows0[u as int].contains(v))) by {}
                }
                return Err(GraphError::InvalidAdjacency);
            },
        };
        let ghost cadj = dg.committed_adj();
        let n = dg.ca.v_count_committed();
        // every committed edge must carry a weight
        let mut u: usize = 0;
        while u < n
            invariant
                dg.wf(),
                weights.wf(),
                cadj == dg.committed_adj(),
                crate::encoding::marks_of(cadj) == bits@,
                crate::encoding::flat_of(cadj) == sequence@,
                n as int == cadj.len(),
                u <= n,
                forall|x: usize, v: usize|
                    (x as int) < u && #[trigger] cadj[x as int].contains(v) ==> weights.has_key(
                        x,
                        v,
                    ),
            decreases n - u,
        {
            let row = dg.ca.outgoing(u);
            let mut j: usize = 0;
            while j < row.len()
                invariant
                    dg.wf(),
                    weights.wf(),
                    cadj == dg.committed_adj(),
                    crate::encoding::marks_of(cadj) == bits@,
                    crate::encoding::flat_of(cadj) == sequence@,
                    n as int == cadj.len(),
                    u < n,
                    j <= row.len(),
                    row@ == cadj[u as int],
                    forall|x: usize, v: usize|
                        (x as int) < u && #[trigger] cadj[x as int].contains(v)
                            ==> weights.has_key(x, v),
                    forall|k: int| 0 <= k < j ==> weights.has_key(u, #[trigger] row@[k]),
                decreases row.len() - j,
            {
                let v = row[j];
                match weights.get(u, v) {
                    Some(_) => {},
                    None => {
                        proof {
                            lemma_from_weights_mismatch::<W>(
                                weights,
                                cadj,
                                bits@,
                                sequence@,
                                u,
                                v,
                                false,
                            );
                        }
                        return Err(GraphError::InvalidAdjacency);
                    },
                }
                j += 1;
            }
            proof {
                assert forall|x: usize, v: usize|
                    (x as int) < u + 1 && #[trigger] cadj[x as int].contains(v) implies
                    weights.has_key(x, v) by {
                    if x == u {
                        let k = choose|k: int|
                            0 <= k < cadj[x as int].len() && #[trigger] cadj[x as int][k] == v;
                        assert(row@[k] == v);
                    }
                }
            }
            u += 1;
        }
        // every weight key must be a committed edge
        let m = weights.entries.len();
        let mut i: usize = 0;
        while i < m
            invariant
                dg.wf(),
                weights.wf(),
                cadj == dg.committed_adj(),
                crate::encoding::marks_of(cadj) == bits@,
                crate::encoding::flat_of(cadj) == sequence@,
                n as int == cadj.len(),
                m == weights.entries@.len(),
                i <= m,
                forall|k: int|
                    0 <= k < i ==> ((#[trigger] weights.entries@[k]).0 as int) < cadj.len()
                        && cadj[weights.entries@[k].0 as int].contains(weights.entries@[k].1),
            decreases m - i,
        {
            let e0 = weights.entries[i].0;
            let e1 = weights.entries[i].1;
            let bad = if e0 >= n {
                true
            } else {
                !dg.ca.edge_exists(e0, e1)
            };
            if bad {
                proof {
                    lemma_table_lookup(weights, e0, e1, i as int);
                    lemma_from_weights_mismatch::<W>(weights, cadj, bits@, sequence@, e0, e1, true);
                }
                return Err(GraphError::InvalidAdjacency);
            }
            i += 1;
        }
        let g = WeightedWTDigraph { dg, weights, weights_uncommitted: WeightTable::new() };
        proof {
            // the table's keys are exactly the committed edges
            assert forall|x: usize, v: usize| #[trigger] g.weights.has_key(x, v) <==> (x as int)
                < cadj.len() && cadj[x as int].contains(v) by {
                if g.weights.has_key(x, v) {
                    let k = choose|k: int|
                        0 <= k < weights.entries@.len() && (#[trigger] weights.entries@[k]).0 == x
                            && weights.entries@[k].1 == v;
                }
            }
            // every replayed row is its committed row, so the fallback holds
            assert forall|u2: usize, v2: usize|
                (u2 as int) < g.dg.st().len_u() && #[trigger] g.dg.st().replay_row(
                u2 as int).contains(v2) implies (u2 as int) < cadj.len() && cadj[
                u2 as int].contains(v2) by {
                assert(g.dg.st().replay_row(u2 as int) == cadj[u2 as int]);
            }
            // the committed rows witness the success condition
            assert(crate::encoding::marks_of(cadj) == bits@ && crate::encoding::flat_of(cadj)
                == sequence@ && crate::digraph::adjacency_ok(
                cadj.len() as int,
                sequence@.len() as int,
                cadj,
            ) && (forall|u2: usize, v2: usize|
                #[trigger] weights.has_key(u2, v2) <==> (u2 as int) < cadj.len() && cadj[
                    u2 as int].contains(v2)));
        }
        Ok(g)
    }
}

/// A mismatch between the table's keys and the encoded edges refutes every
/// candidate adjacency, since the encoding decodes uniquely.
proof fn lemma_from_weights_mismatch<W: Copy>(
    weights: WeightTable<W>,
    cadj: Seq<Seq<usize>>,
    bits: Seq<bool>,
    symbols: Seq<usize>,
    u: usize,
    v: usize,
    key_without_edge: bool,
)
    requires
        crate::encoding::marks_of(cadj) == bits,
        crate::encoding::flat_of(cadj) == symbols,
        key_without_edge ==> weights.has_key(u, v) && !((u as int) < cadj.len() && cadj[
            u as int].contains(v)),
        !key_without_edge ==> (u as int) < cadj.len() && cadj[u as int].contains(v)
            && !weights.has_key(u, v),
    ensures
        forall|rows0: Seq<Seq<usize>>|
            !(#[trigger] crate::encoding::marks_of(rows0) == bits && crate::encoding::flat_of(
                rows0,
            ) == symbols && crate::digraph::adjacency_ok(
                rows0.len() as int,
                symbols.len() as int,
                rows0,
            ) && (forall|u2: usize, v2: usize|
                #[trigger] weights.has_key(u2, v2) <==> (u2 as int) < rows0.len() && rows0[
                    u2 as int].contains(v2))),
{
    assert forall|rows0: Seq<Seq<usize>>|
        !(#[trigger] crate::encoding::marks_of(rows0) == bits && crate::encoding::flat_of(rows0)
            == symbols && crate::digraph::adjacency_ok(
            rows0.len() as int,
            symbols.len() as int,
            rows0,
        ) && (forall|u2: usize, v2: usize|
            #[trigger] weights.has_key(u2, v2) <==> (u2 as int) < rows0.len() && rows0[
                u2 as int].contains(v2))) by {
        if crate::encoding::marks_of(rows0) == bits && crate::encoding::flat_of(rows0)
            == symbols {
            crate::encoding::lemma_encoding_injective(rows0, cadj);
            assert(rows0 == cadj);
            if forall|u2: usize, v2: usize|
                #[trigger] weights.has_key(u2, v2) <==> (u2 as int) < rows0.len() && rows0[
                    u2 as int].contains(v2) {
                assert(weights.has_key(u, v) <==> (u as int) < rows0.len() && rows0[
                    u as int].contains(v));
                assert(false);
            }
        }
    }
}

} // verus!

