//! The immutable succinct adjacency: boundary marks in a rank/select bit
//! vector paired with the flat neighbour sequence in a wavelet tree.
//!
//! The ghost field `adjacency` carries the abstract list of neighbour rows;
//! `wf` states that the two succinct structures hold exactly its encoding.
//! `outgoing` walks one row via two select queries, `incoming` walks the
//! occurrences of a symbol via wavelet select queries and maps each back to
//! its row through the marks.

use crate::bitrank::{rs_bits, rs_from_buf, rs_rank1, rs_select0, rs_select1, buf_new, buf_push};
use crate::encoding::{
    block_marks, flat_of, lemma_flat_decomp, lemma_flat_index, lemma_one_position, lemma_prefix,
    lemma_sizes, lemma_start_of_mono, lemma_start_of_nonneg, lemma_take_succ,
    lemma_zero_position, marks_of, start_of,
};
use crate::seqs::{
    lemma_count_ones_bounds, lemma_occ_bounds, lemma_occ_concat, lemma_occ_mono, lemma_occ_nodup,
    lemma_occ_take_succ, lemma_occ_take_full, lemma_one_position_unique,
    lemma_zero_position_unique, nodup, occ, strictly_sorted,
};
use crate::wavelet::{wavelet_symbols, WaveletSeq, SYMBOL_LIMIT};
use vstd::prelude::*;

verus! {

/// The vertices of `adj` that point at `v`, in ascending order, looking only
/// at the first `n` rows.
pub open spec fn incoming_upto(adj: Seq<Seq<usize>>, v: usize, n: int) -> Seq<usize>
    decreases n,
{
    if n <= 0 {
        Seq::empty()
    } else {
        incoming_upto(adj, v, n - 1) + if adj[n - 1].contains(v) {
            seq![((n - 1) as usize)]
        } else {
            Seq::empty()
        }
    }
}

/// The vertices of `adj` that point at `v`, in ascending order.
pub open spec fn incoming_list(adj: Seq<Seq<usize>>, v: usize) -> Seq<usize> {
    incoming_upto(adj, v, adj.len() as int)
}

pub proof fn lemma_incoming_upto_props(adj: Seq<Seq<usize>>, v: usize, n: int)
    requires
        n <= adj.len(),
        n <= usize::MAX,
    ensures
        strictly_sorted(incoming_upto(adj, v, n)),
        forall|u: usize|
            #![trigger incoming_upto(adj, v, n).contains(u)]
            #![trigger adj[u as int].contains(v)]
            incoming_upto(adj, v, n).contains(u) <==> 0 <= u < n && adj[u as int].contains(v),
    decreases n,
{
    if n > 0 {
        lemma_incoming_upto_props(adj, v, n - 1);
        let pre = incoming_upto(adj, v, n - 1);
        let cur = incoming_upto(adj, v, n);
        if adj[n - 1].contains(v) {
            let x = (n - 1) as usize;
            assert(cur =~= pre.push(x));
            assert forall|u: usize| cur.contains(u) implies 0 <= u < n
                && #[trigger] adj[u as int].contains(v) by {
                let i = choose|i: int| 0 <= i < cur.len() && cur[i] == u;
                if i < pre.len() {
                    assert(pre[i] == u);
                    assert(pre.contains(u));
                } else {
                    assert(cur[i] == x);
                }
            }
            assert forall|u: usize| 0 <= u < n && #[trigger] adj[u as int].contains(v)
                implies cur.contains(u) by {
                if u < n - 1 {
                    assert(pre.contains(u));
                    let i = choose|i: int| 0 <= i < pre.len() && pre[i] == u;
                    assert(cur[i] == u);
                } else {
                    assert(cur[cur.len() - 1] == u);
                }
            }
            assert forall|i: int, j: int| 0 <= i < j < cur.len() implies cur[i] < cur[j] by {
                if j == cur.len() - 1 {
                    assert(cur[i] == pre[i]);
                    assert(pre.contains(pre[i]));
                    assert(pre[i] < x);
                }
            }
        } else {
            assert(cur =~= pre);
            assert forall|u: usize| 0 <= u < n && #[trigger] adj[u as int].contains(v)
                implies cur.contains(u) by {
                assert(u < n - 1);
            }
        }
    }
}

/// Rows in `[a, b)` without `v` contribute nothing.
pub proof fn lemma_incoming_upto_skip(adj: Seq<Seq<usize>>, v: usize, a: int, b: int)
    requires
        0 <= a <= b <= adj.len(),
        forall|w: int| a <= w < b ==> !(#[trigger] adj[w].contains(v)),
    ensures
        incoming_upto(adj, v, b) == incoming_upto(adj, v, a),
    decreases b - a,
{
    if a < b {
        lemma_incoming_upto_skip(adj, v, a, b - 1);
        assert(incoming_upto(adj, v, b) =~= incoming_upto(adj, v, b - 1));
    }
}

/// A directed graph's adjacency in succinct form: immutable once built.
pub struct CompactAdjacency {
    pub marks: vers_vecs::RsVec,
    pub symbols: WaveletSeq,
    pub v_count: usize,
    pub e_count: usize,
    /// The abstract adjacency the two structures encode.
    pub adjacency: Ghost<Seq<Seq<usize>>>,
}

impl CompactAdjacency {
    /// The structures hold the encoding of `adjacency`, every neighbour is a
    /// valid vertex, and no row repeats a neighbour.
    pub open spec fn wf(self) -> bool {
        &&& rs_bits(self.marks) == marks_of(self.adjacency@)
        &&& wavelet_symbols(self.symbols) == flat_of(self.adjacency@)
        &&& self.v_count == self.adjacency@.len()
        &&& self.e_count == flat_of(self.adjacency@).len()
        &&& self.e_count <= SYMBOL_LIMIT
        &&& forall|v: int, j: int|
            0 <= v < self.adjacency@.len() && 0 <= j < self.adjacency@[v].len()
                ==> #[trigger] self.adjacency@[v][j] < self.adjacency@.len()
        &&& forall|v: int| 0 <= v < self.adjacency@.len() ==> nodup(#[trigger] self.adjacency@[v])
    }

    pub fn v_count_committed(&self) -> (r: usize)
        requires
            self.wf(),
        ensures
            r == self.adjacency@.len(),
    {
        self.v_count
    }

    pub fn e_count_committed(&self) -> (r: usize)
        requires
            self.wf(),
        ensures
            r == flat_of(self.adjacency@).len(),
    {
        self.e_count
    }

    /// Freeze the given rows into succinct form.
    pub fn build(rows: &Vec<Vec<usize>>) -> (r: CompactAdjacency)
        requires
            flat_of(rows.deep_view()).len() <= SYMBOL_LIMIT,
            forall|v: int, j: int|
                0 <= v < rows.deep_view().len() && 0 <= j < rows.deep_view()[v].len()
                    ==> #[trigger] rows.deep_view()[v][j] < rows.deep_view().len(),
            forall|v: int| 0 <= v < rows.deep_view().len() ==> nodup(#[trigger] rows.deep_view()[v]),
        ensures
            r.wf(),
            r.adjacency@ == rows.deep_view(),
    {
        let ghost adj = rows.deep_view();
        let mut bits = buf_new();
        let mut syms: Vec<usize> = Vec::new();
        let mut v: usize = 0;
        proof {
            assert(adj.take(0) =~= Seq::<Seq<usize>>::empty());
        }
        while v < rows.len()
            invariant
                v <= rows.len(),
                adj == rows.deep_view(),
                adj.len() == rows.len(),
                flat_of(adj).len() <= SYMBOL_LIMIT,
                crate::bitrank::buf_bits(bits) == marks_of(adj.take(v as int)),
                syms@ == flat_of(adj.take(v as int)),
            decreases rows.len() - v,
        {
            buf_push(&mut bits, true);
            let row = &rows[v];
            proof {
                assert(adj[v as int] == rows@[v as int]@);
            }
            let mut j: usize = 0;
            while j < row.len()
                invariant
                    j <= row.len(),
                    adj == rows.deep_view(),
                    v < rows.len(),
                    adj.len() == rows.len(),
                    row@ == adj[v as int],
                    crate::bitrank::buf_bits(bits) == marks_of(adj.take(v as int)) + seq![true]
                        + crate::encoding::falses(j as nat),
                    syms@ == flat_of(adj.take(v as int)) + adj[v as int].take(j as int),
                decreases row.len() - j,
            {
                buf_push(&mut bits, false);
                syms.push(row[j]);
                proof {
                    assert(crate::encoding::falses((j + 1) as nat) =~= crate::encoding::falses(
                        j as nat,
                    ).push(false));
                    assert((marks_of(adj.take(v as int)) + seq![true] + crate::encoding::falses(
                        j as nat,
                    )).push(false) =~= marks_of(adj.take(v as int)) + seq![true]
                        + crate::encoding::falses((j + 1) as nat));
                    assert(adj[v as int].take(j + 1) =~= adj[v as int].take(j as int).push(
                        adj[v as int][j as int],
                    ));
                    assert((flat_of(adj.take(v as int)) + adj[v as int].take(j as int)).push(
                        row@[j as int],
                    ) =~= flat_of(adj.take(v as int)) + adj[v as int].take(j + 1));
                }
                j += 1;
            }
            proof {
                lemma_take_succ(adj, v as int);
                assert(adj[v as int].take(row@.len() as int) =~= adj[v as int]);
                assert(marks_of(adj.take(v as int)) + seq![true] + crate::encoding::falses(
                    row@.len() as nat,
                ) =~= marks_of(adj.take(v as int)) + block_marks(adj[v as int]));
            }
            v += 1;
        }
        proof {
            assert(adj.take(rows.len() as int) =~= adj);
            lemma_sizes(adj);
        }
        let marks = rs_from_buf(bits);
        let symbols = WaveletSeq::from_vec(syms);
        let e_count = symbols.len();
        CompactAdjacency { marks, symbols, v_count: v, e_count, adjacency: Ghost(adj) }
    }

    /// The neighbours of `v`, in stored order.
    pub fn outgoing(&self, v: usize) -> (r: Vec<usize>)
        requires
            self.wf(),
            v < self.adjacency@.len(),
        ensures
            r@ == self.adjacency@[v as int],
    {
        let ghost adj = self.adjacency@;
        proof {
            lemma_sizes(adj);
            lemma_one_position(adj, v as int);
            lemma_count_ones_bounds(rs_bits(self.marks).take(v as int + start_of(adj, v as int)));
            lemma_start_of_nonneg(adj, v as int);
        }
        let p = rs_select1(&self.marks, v);
        proof {
            lemma_one_position_unique(
                rs_bits(self.marks),
                p as int,
                v as int + start_of(adj, v as int),
            );
        }
        let start = p - v;
        let p2 = rs_select1(&self.marks, v + 1);
        proof {
            if v as int + 1 < adj.len() {
                lemma_one_position(adj, v as int + 1);
                lemma_one_position_unique(
                    rs_bits(self.marks),
                    p2 as int,
                    v as int + 1 + start_of(adj, v as int + 1),
                );
            } else {
                assert(p2 == marks_of(adj).len());
            }
            lemma_start_of_mono(adj, v as int + 1, adj.len() as int);
        }
        let end = p2 - (v + 1);
        proof {
            assert(start == start_of(adj, v as int));
            assert(end == start_of(adj, v as int + 1));
            assert(end - start == adj[v as int].len());
            lemma_prefix(adj, v as int + 1);
        }
        let mut r: Vec<usize> = Vec::new();
        let mut i = start;
        proof {
            assert(adj[v as int].take(0) =~= Seq::<usize>::empty());
        }
        while i < end
            invariant
                self.wf(),
                adj == self.adjacency@,
                v < adj.len(),
                start == start_of(adj, v as int),
                end == start_of(adj, v as int + 1),
                start <= i <= end,
                end <= flat_of(adj).len(),
                r@ == adj[v as int].take(i - start),
            decreases end - i,
        {
            proof {
                lemma_flat_index(adj, v as int, i - start);
            }
            let w = self.symbols.get(i).unwrap();
            r.push(w);
            proof {
                assert(adj[v as int].take(i + 1 - start) =~= adj[v as int].take(i - start).push(
                    flat_of(adj)[i as int],
                ));
            }
            i += 1;
        }
        proof {
            assert(adj[v as int].take(end - start) =~= adj[v as int]);
        }
        r
    }

    /// Whether the committed graph has an edge from `u` to `v`.
    pub fn edge_exists(&self, u: usize, v: usize) -> (r: bool)
        requires
            self.wf(),
            u < self.adjacency@.len(),
        ensures
            r == self.adjacency@[u as int].contains(v),
    {
        let row = self.outgoing(u);
        let mut i: usize = 0;
        while i < row.len()
            invariant
                row@ == self.adjacency@[u as int],
                i <= row.len(),
                forall|k: int| 0 <= k < i ==> row@[k] != v,
            decreases row.len() - i,
        {
            if row[i] == v {
                return true;
            }
            i += 1;
        }
        false
    }

    /// The vertices with an edge into `v`, in ascending order.
    ///
    /// Walks the occurrences of `v` in the flat sequence through wavelet
    /// select queries; each occurrence position is mapped to its row by a
    /// select over the clear marks followed by a rank over the set marks.
    pub fn incoming(&self, v: usize) -> (r: Vec<usize>)
        requires
            self.wf(),
            v < self.adjacency@.len(),
        ensures
            r@ == incoming_list(self.adjacency@, v),
    {
        let ghost adj = self.adjacency@;
        let ghost flat = flat_of(adj);
        let mut r: Vec<usize> = Vec::new();
        proof {
            lemma_sizes(adj);
        }
        if self.e_count == 0 {
            proof {
                assert forall|w: int| 0 <= w < adj.len() implies !(#[trigger] adj[w].contains(v)) by {
                    if adj[w].contains(v) {
                        let j = choose|j: int| 0 <= j < adj[w].len() && adj[w][j] == v;
                        lemma_flat_index(adj, w, j);
                        lemma_start_of_nonneg(adj, w);
                    }
                }
                lemma_incoming_upto_skip(adj, v, 0, adj.len() as int);
                assert(r@ =~= incoming_list(adj, v));
            }
            return r;
        }
        let mut k: usize = 0;
        let ghost mut b: int = 0;
        proof {
            lemma_occ_bounds(flat, v);
            assert(occ(flat.take(0), v) == 0) by {
                assert(flat.take(0) =~= Seq::<usize>::empty());
            }
            assert(r@ =~= incoming_upto(adj, v, 0));
        }
        loop
            invariant
                self.wf(),
                adj == self.adjacency@,
                flat == flat_of(adj),
                flat.len() > 0,
                v < adj.len(),
                0 <= b <= adj.len(),
                k <= occ(flat, v),
                occ(flat.take(start_of(adj, b)), v) == k,
                r@ == incoming_upto(adj, v, b),
                r@.len() == k,
            decreases occ(flat, v) - k,
        {
            if k >= self.e_count {
                // every position is an occurrence counted already
                proof {
                    lemma_sizes(adj);
                    lemma_occ_bounds(flat, v);
                    assert(k == occ(flat, v));
                    assert forall|w: int| b <= w < adj.len() implies !(#[trigger] adj[w].contains(
                        v,
                    )) by {
                        if adj[w].contains(v) {
                            let j = choose|j: int| 0 <= j < adj[w].len() && adj[w][j] == v;
                            lemma_flat_index(adj, w, j);
                            let p = start_of(adj, w) + j;
                            lemma_start_of_mono(adj, b, w);
                            lemma_start_of_nonneg(adj, b);
                            lemma_start_of_mono(adj, b, adj.len() as int);
                            lemma_occ_mono(flat, v, start_of(adj, b), p);
                            lemma_occ_take_succ(flat, v, p);
                            lemma_occ_mono(flat, v, p + 1, flat.len() as int);
                            lemma_occ_take_full(flat, v);
                            assert(false);
                        }
                    }
                    lemma_incoming_upto_skip(adj, v, b, adj.len() as int);
                }
                return r;
            }
            match self.symbols.select(v, k) {
                None => {
                    proof {
                        lemma_sizes(adj);
                        // no further occurrence: rows from b on hold no v
                        assert(k == occ(flat, v));
                        assert forall|w: int| b <= w < adj.len() implies !(
                        #[trigger] adj[w].contains(v)) by {
                            if adj[w].contains(v) {
                                let j = choose|j: int| 0 <= j < adj[w].len() && adj[w][j] == v;
                                lemma_flat_index(adj, w, j);
                                let p = start_of(adj, w) + j;
                                lemma_start_of_mono(adj, b, w);
                                lemma_start_of_nonneg(adj, b);
                                lemma_occ_mono(flat, v, start_of(adj, b), p);
                                lemma_occ_take_succ(flat, v, p);
                                lemma_occ_mono(flat, v, p + 1, flat.len() as int);
                                lemma_occ_take_full(flat, v);
                                assert(false);
                            }
                        }
                        lemma_incoming_upto_skip(adj, v, b, adj.len() as int);
                    }
                    return r;
                },
                Some(p) => {
                    proof {
                        lemma_sizes(adj);
                        lemma_occ_bounds(flat, v);
                        lemma_flat_decomp(adj, p as int);
                    }
                    let ghost u = choose|u: int|
                        0 <= u < adj.len() && #[trigger] start_of(adj, u) <= p < start_of(adj, u)
                            + adj[u].len();
                    let ghost j = p - start_of(adj, u);
                    proof {
                        lemma_flat_index(adj, u, j);
                        assert(adj[u][j] == v);
                        lemma_start_of_nonneg(adj, b);
                        lemma_start_of_mono(adj, b, adj.len() as int);
                        // the occurrence lies at or after start(b)
                        if (p as int) < start_of(adj, b) {
                            lemma_occ_take_succ(flat, v, p as int);
                            lemma_occ_mono(flat, v, p as int + 1, start_of(adj, b));
                            assert(false);
                        }
                        // so its row is at or after b
                        if u < b {
                            lemma_start_of_mono(adj, u + 1, b);
                            assert(false);
                        }
                        // rows b..u hold no v
                        assert forall|w: int| b <= w < u implies !(#[trigger] adj[w].contains(v)) by {
                            if adj[w].contains(v) {
                                let jj = choose|jj: int| 0 <= jj < adj[w].len() && adj[w][jj] == v;
                                lemma_flat_index(adj, w, jj);
                                let pp = start_of(adj, w) + jj;
                                lemma_start_of_mono(adj, b, w);
                                lemma_start_of_nonneg(adj, b);
                                lemma_occ_mono(flat, v, start_of(adj, b), pp);
                                lemma_occ_take_succ(flat, v, pp);
                                lemma_start_of_mono(adj, w + 1, u);
                                lemma_occ_mono(flat, v, pp + 1, p as int);
                                assert(false);
                            }
                        }
                        lemma_incoming_upto_skip(adj, v, b, u);
                        lemma_zero_position(adj, u, j);
                        lemma_count_ones_bounds(rs_bits(self.marks));
                    }
                    let q = rs_select0(&self.marks, p);
                    proof {
                        lemma_zero_position_unique(
                            rs_bits(self.marks),
                            q as int,
                            u + 1 + start_of(adj, u) + j,
                        );
                        assert(q == u + 1 + start_of(adj, u) + j);
                        lemma_count_ones_bounds(rs_bits(self.marks).take(q as int));
                    }
                    let r1 = rs_rank1(&self.marks, q);
                    proof {
                        assert(r1 == u + 1);
                    }
                    let uu = r1 - 1;
                    r.push(uu);
                    proof {
                        assert(incoming_upto(adj, v, u + 1) =~= incoming_upto(adj, v, u) + seq![
                            uu,
                        ]);
                        assert(r@ =~= incoming_upto(adj, v, u + 1));
                        // the count of occurrences up to start(u + 1) is k + 1
                        lemma_prefix(adj, u);
                        lemma_prefix(adj, u + 1);
                        lemma_take_succ(adj, u);
                        assert(flat.take(start_of(adj, u + 1)) == flat_of(adj.take(u)) + adj[u]);
                        assert(flat.take(start_of(adj, u)) == flat_of(adj.take(u)));
                        lemma_occ_concat(flat_of(adj.take(u)), adj[u], v);
                        lemma_occ_nodup(adj[u], v);
                        assert(adj[u].contains(v));
                        // occurrences below start(u) equal k
                        lemma_start_of_mono(adj, b, u);
                        lemma_occ_mono(flat, v, start_of(adj, b), start_of(adj, u));
                        assert(occ(flat.take(p as int), v) == k);
                        lemma_occ_mono(flat, v, start_of(adj, u), p as int);
                        assert(occ(flat.take(start_of(adj, u)), v) <= k);
                        // and at least k: occurrences below start(b) are k already
                        assert(occ(flat.take(start_of(adj, u)), v) >= k);
                        assert(occ(flat.take(start_of(adj, u + 1)), v) == k + 1);
                        lemma_occ_mono(flat, v, start_of(adj, u + 1), flat.len() as int);
                        lemma_occ_take_full(flat, v);
                        b = u + 1;
                    }
                    k += 1;
                },
            }
        }
    }
}

} // verus!
