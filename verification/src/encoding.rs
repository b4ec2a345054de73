//! The succinct encoding of an adjacency list.
//!
//! An adjacency `adj` (one neighbour row per vertex) is laid out as
//!
//! * `marks_of(adj)`: one `true` per vertex, each followed by one `false`
//!   per outgoing neighbour of that vertex, and
//! * `flat_of(adj)`: the rows themselves, concatenated.
//!
//! `start_of(adj, v)` is where row `v` begins inside the flat sequence.  The
//! lemmas here pin down how rank and select queries over the marks find the
//! row boundaries, which is what the committed graph queries are proved
//! against.

use crate::seqs::{count_ones, count_zeros, lemma_count_ones_concat};
use vstd::prelude::*;

verus! {

pub open spec fn falses(n: nat) -> Seq<bool> {
    Seq::new(n, |i: int| false)
}

/// The marks one row contributes: a set bit, then one clear bit per neighbour.
pub open spec fn block_marks(row: Seq<usize>) -> Seq<bool> {
    seq![true] + falses(row.len())
}

/// The boundary marks of the whole adjacency.
pub open spec fn marks_of(adj: Seq<Seq<usize>>) -> Seq<bool>
    decreases adj.len(),
{
    if adj.len() == 0 {
        Seq::empty()
    } else {
        marks_of(adj.drop_last()) + block_marks(adj.last())
    }
}

/// The rows of the adjacency, concatenated.
pub open spec fn flat_of(adj: Seq<Seq<usize>>) -> Seq<usize>
    decreases adj.len(),
{
    if adj.len() == 0 {
        Seq::empty()
    } else {
        flat_of(adj.drop_last()) + adj.last()
    }
}

/// Where row `v` starts inside the flat sequence: the total length of the
/// rows before it.
pub open spec fn start_of(adj: Seq<Seq<usize>>, v: int) -> int
    decreases v,
{
    if v <= 0 {
        0
    } else {
        start_of(adj, v - 1) + adj[v - 1].len()
    }
}

pub proof fn lemma_count_ones_falses(n: nat)
    ensures
        count_ones(falses(n)) == 0,
    decreases n,
{
    if n > 0 {
        assert(falses(n).drop_last() =~= falses((n - 1) as nat));
        lemma_count_ones_falses((n - 1) as nat);
    }
}

pub proof fn lemma_count_ones_block(row: Seq<usize>)
    ensures
        count_ones(block_marks(row)) == 1,
        block_marks(row).len() == 1 + row.len(),
{
    lemma_count_ones_falses(row.len());
    lemma_count_ones_concat(seq![true], falses(row.len()));
    crate::seqs::lemma_count_ones_single(true);
}

/// `start_of` only reads the rows before `v`, so it agrees on any extension.
pub proof fn lemma_start_of_take(adj: Seq<Seq<usize>>, n: int, v: int)
    requires
        0 <= v <= n <= adj.len(),
    ensures
        start_of(adj.take(n), v) == start_of(adj, v),
    decreases v,
{
    if v > 0 {
        lemma_start_of_take(adj, n, v - 1);
        assert(adj.take(n)[v - 1] == adj[v - 1]);
    }
}

pub proof fn lemma_start_of_nonneg(adj: Seq<Seq<usize>>, v: int)
    ensures
        start_of(adj, v) >= 0,
    decreases v,
{
    if v > 0 {
        lemma_start_of_nonneg(adj, v - 1);
    }
}

pub proof fn lemma_start_of_mono(adj: Seq<Seq<usize>>, v: int, w: int)
    requires
        0 <= v <= w,
    ensures
        start_of(adj, v) <= start_of(adj, w),
    decreases w - v,
{
    if v < w {
        lemma_start_of_mono(adj, v, w - 1);
    }
}

/// Total sizes of the encoding.
pub proof fn lemma_sizes(adj: Seq<Seq<usize>>)
    ensures
        flat_of(adj).len() == start_of(adj, adj.len() as int),
        marks_of(adj).len() == adj.len() + flat_of(adj).len(),
        count_ones(marks_of(adj)) == adj.len(),
        count_zeros(marks_of(adj)) == flat_of(adj).len(),
    decreases adj.len(),
{
    if adj.len() > 0 {
        let pre = adj.drop_last();
        lemma_sizes(pre);
        assert(pre =~= adj.take(adj.len() - 1));
        lemma_start_of_take(adj, adj.len() - 1, adj.len() - 1);
        lemma_count_ones_block(adj.last());
        lemma_count_ones_concat(marks_of(pre), block_marks(adj.last()));
    }
}

/// Peeling one row off a prefix.
pub proof fn lemma_take_succ(adj: Seq<Seq<usize>>, n: int)
    requires
        0 <= n < adj.len(),
    ensures
        marks_of(adj.take(n + 1)) == marks_of(adj.take(n)) + block_marks(adj[n]),
        flat_of(adj.take(n + 1)) == flat_of(adj.take(n)) + adj[n],
{
    assert(adj.take(n + 1).drop_last() =~= adj.take(n));
    assert(adj.take(n + 1).last() == adj[n]);
}

/// The encoding of a prefix of rows is a prefix of the encoding.
pub proof fn lemma_prefix(adj: Seq<Seq<usize>>, n: int)
    requires
        0 <= n <= adj.len(),
    ensures
        start_of(adj, n) <= flat_of(adj).len(),
        n + start_of(adj, n) <= marks_of(adj).len(),
        marks_of(adj).take(n + start_of(adj, n)) == marks_of(adj.take(n)),
        flat_of(adj).take(start_of(adj, n)) == flat_of(adj.take(n)),
    decreases adj.len() - n,
{
    lemma_sizes(adj);
    lemma_start_of_nonneg(adj, n);
    if n == adj.len() {
        assert(adj.take(n) =~= adj);
        assert(marks_of(adj).take(n + start_of(adj, n)) =~= marks_of(adj));
        assert(flat_of(adj).take(start_of(adj, n)) =~= flat_of(adj));
    } else {
        lemma_prefix(adj, n + 1);
        lemma_take_succ(adj, n);
        lemma_sizes(adj.take(n));
        lemma_start_of_take(adj, n, n);
        // marks
        let m = marks_of(adj);
        let p = n + start_of(adj, n);
        let p1 = (n + 1) + start_of(adj, n + 1);
        assert(p <= p1);
        assert(m.take(p) =~= m.take(p1).take(p));
        assert(marks_of(adj.take(n)).len() == p);
        assert(m.take(p1).take(p) =~= (marks_of(adj.take(n)) + block_marks(adj[n])).take(p));
        assert((marks_of(adj.take(n)) + block_marks(adj[n])).take(p) =~= marks_of(adj.take(n)));
        // flat
        let f = flat_of(adj);
        let s = start_of(adj, n);
        let s1 = start_of(adj, n + 1);
        assert(s <= s1);
        assert(f.take(s) =~= f.take(s1).take(s));
        assert(flat_of(adj.take(n)).len() == s);
        assert(f.take(s1).take(s) =~= (flat_of(adj.take(n)) + adj[n]).take(s));
        assert((flat_of(adj.take(n)) + adj[n]).take(s) =~= flat_of(adj.take(n)));
    }
}

/// The set bit of row `v` sits at position `v + start_of(adj, v)` and has
/// exactly `v` set bits before it.
pub proof fn lemma_one_position(adj: Seq<Seq<usize>>, v: int)
    requires
        0 <= v < adj.len(),
    ensures
        v + start_of(adj, v) < marks_of(adj).len(),
        marks_of(adj)[v + start_of(adj, v)],
        count_ones(marks_of(adj).take(v + start_of(adj, v))) == v,
{
    let m = marks_of(adj);
    let p = v + start_of(adj, v);
    lemma_prefix(adj, v);
    lemma_prefix(adj, v + 1);
    lemma_take_succ(adj, v);
    lemma_sizes(adj.take(v));
    lemma_start_of_take(adj, v, v);
    lemma_count_ones_block(adj[v]);
    // count before p
    assert(m.take(p) == marks_of(adj.take(v)));
    // the bit at p
    let p1 = (v + 1) + start_of(adj, v + 1);
    assert(p < p1);
    assert(m.take(p1) == marks_of(adj.take(v)) + block_marks(adj[v]));
    assert(m[p] == m.take(p1)[p]);
    assert((marks_of(adj.take(v)) + block_marks(adj[v]))[p] == block_marks(adj[v])[0]);
    assert(block_marks(adj[v])[0]);
}

/// The clear bit for neighbour `j` of row `v` sits at
/// `v + 1 + start_of(adj, v) + j`; it has `start_of(adj, v) + j` clear bits
/// and `v + 1` set bits before it.
pub proof fn lemma_zero_position(adj: Seq<Seq<usize>>, v: int, j: int)
    requires
        0 <= v < adj.len(),
        0 <= j < adj[v].len(),
    ensures
        v + 1 + start_of(adj, v) + j < marks_of(adj).len(),
        !marks_of(adj)[v + 1 + start_of(adj, v) + j],
        count_zeros(marks_of(adj).take(v + 1 + start_of(adj, v) + j)) == start_of(adj, v) + j,
        count_ones(marks_of(adj).take(v + 1 + start_of(adj, v) + j)) == v + 1,
{
    let m = marks_of(adj);
    let q = v + 1 + start_of(adj, v) + j;
    let p1 = (v + 1) + start_of(adj, v + 1);
    lemma_prefix(adj, v);
    lemma_prefix(adj, v + 1);
    lemma_take_succ(adj, v);
    lemma_sizes(adj.take(v));
    lemma_start_of_take(adj, v, v);
    lemma_count_ones_block(adj[v]);
    assert(q < p1);
    let blk = block_marks(adj[v]);
    let pre = marks_of(adj.take(v));
    assert(m.take(p1) == pre + blk);
    // the bit at q is inside the block, past the leading set bit
    assert(m[q] == m.take(p1)[q]);
    assert((pre + blk)[q] == blk[1 + j]);
    assert(!blk[1 + j]) by {
        assert(blk[1 + j] == falses(adj[v].len())[j]);
    }
    // counts before q
    assert(m.take(q) =~= m.take(p1).take(q));
    assert(m.take(q) =~= pre + blk.take(1 + j));
    lemma_count_ones_concat(pre, blk.take(1 + j));
    assert(count_ones(blk.take(1 + j)) == 1) by {
        assert(blk.take(1 + j) =~= seq![true] + falses(j as nat));
        lemma_count_ones_falses(j as nat);
        lemma_count_ones_concat(seq![true], falses(j as nat));
        crate::seqs::lemma_count_ones_single(true);
    }
    assert(count_ones(m.take(q)) == v + 1);
    assert(m.take(q).len() == q);
}

/// Reading one neighbour out of the flat sequence.
pub proof fn lemma_flat_index(adj: Seq<Seq<usize>>, v: int, j: int)
    requires
        0 <= v < adj.len(),
        0 <= j < adj[v].len(),
    ensures
        start_of(adj, v) + j < flat_of(adj).len(),
        flat_of(adj)[start_of(adj, v) + j] == adj[v][j],
{
    lemma_prefix(adj, v);
    lemma_prefix(adj, v + 1);
    lemma_take_succ(adj, v);
    lemma_sizes(adj.take(v));
    lemma_start_of_take(adj, v, v);
    let f = flat_of(adj);
    let s = start_of(adj, v);
    let s1 = start_of(adj, v + 1);
    assert(s + j < s1);
    assert(f.take(s1) == flat_of(adj.take(v)) + adj[v]);
    assert(f[s + j] == f.take(s1)[s + j]);
    assert((flat_of(adj.take(v)) + adj[v])[s + j] == adj[v][j]);
}

/// Every position in the flat sequence falls in exactly one row's span.
pub proof fn lemma_flat_decomp(adj: Seq<Seq<usize>>, p: int)
    requires
        0 <= p < flat_of(adj).len(),
    ensures
        exists|v: int|
            0 <= v < adj.len() && #[trigger] start_of(adj, v) <= p < start_of(adj, v)
                + adj[v].len(),
    decreases adj.len(),
{
    lemma_sizes(adj);
    let last = adj.len() - 1;
    if p >= start_of(adj, last) {
        assert(start_of(adj, last) <= p < start_of(adj, last) + adj[last].len());
    } else {
        let pre = adj.drop_last();
        assert(pre =~= adj.take(last));
        lemma_start_of_take(adj, last, last);
        lemma_sizes(pre);
        assert(flat_of(pre).len() == start_of(adj, last));
        lemma_flat_decomp(pre, p);
        let v = choose|v: int|
            0 <= v < pre.len() && #[trigger] start_of(pre, v) <= p < start_of(pre, v)
                + pre[v].len();
        lemma_start_of_take(adj, last, v);
        assert(start_of(adj, v) <= p < start_of(adj, v) + adj[v].len());
    }
}


/// How the total edge count moves when one row is replaced.
pub proof fn lemma_flat_update(adj: Seq<Seq<usize>>, u: int, r2: Seq<usize>)
    ensures
        0 <= u < adj.len() ==> flat_of(adj.update(u, r2)).len() == flat_of(adj).len() - adj[u].len()
            + r2.len(),
    decreases adj.len(),
{
    if 0 <= u < adj.len() {
        let upd = adj.update(u, r2);
        if u == adj.len() - 1 {
            assert(upd.drop_last() =~= adj.drop_last());
            assert(upd.last() == r2);
        } else {
            assert(upd.drop_last() =~= adj.drop_last().update(u, r2));
            lemma_flat_update(adj.drop_last(), u, r2);
            assert(upd.last() == adj.last());
            assert(adj.drop_last()[u] == adj[u]);
        }
    }
}

/// Each row fits inside the flat sequence.
pub proof fn lemma_flat_row_le(adj: Seq<Seq<usize>>, u: int)
    requires
        0 <= u < adj.len(),
    ensures
        adj[u].len() <= flat_of(adj).len(),
    decreases adj.len(),
{
    if u == adj.len() - 1 {
    } else {
        lemma_flat_row_le(adj.drop_last(), u);
        assert(adj.drop_last()[u] == adj[u]);
    }
}

/// The encoding is injective: the boundary marks fix the row lengths and
/// the flat sequence fixes their contents, so two adjacencies with the same
/// encoding are the same adjacency.
pub proof fn lemma_encoding_injective(r1: Seq<Seq<usize>>, r2: Seq<Seq<usize>>)
    requires
        marks_of(r1) == marks_of(r2),
        flat_of(r1) == flat_of(r2),
    ensures
        r1 == r2,
    decreases r1.len(),
{
    lemma_sizes(r1);
    lemma_sizes(r2);
    assert(r1.len() == r2.len());
    if r1.len() == 0 {
        assert(r1 =~= r2);
    } else {
        let n = r1.len() as int;
        let m = marks_of(r1);
        let f = flat_of(r1);
        let l1 = r1.last();
        let l2 = r2.last();
        // the set bit of the last row sits at m.len() - 1 - row.len(), so
        // the two last rows have the same length
        lemma_one_position(r1, n - 1);
        lemma_one_position(r2, n - 1);
        assert(start_of(r1, n - 1) + l1.len() == f.len()) by {
            assert(start_of(r1, n) == start_of(r1, n - 1) + r1[n - 1].len());
        }
        assert(start_of(r2, n - 1) + l2.len() == f.len()) by {
            assert(start_of(r2, n) == start_of(r2, n - 1) + r2[n - 1].len());
        }
        if l1.len() < l2.len() {
            // in r2's marks, the position of r1's last set bit falls among
            // the clear bits of the last block
            let j = l2.len() - l1.len() - 1;
            lemma_zero_position(r2, n - 1, j as int);
            assert((n - 1) + 1 + start_of(r2, n - 1) + j == (n - 1) + start_of(r1, n - 1));
            assert(false);
        }
        if l2.len() < l1.len() {
            let j = l1.len() - l2.len() - 1;
            lemma_zero_position(r1, n - 1, j as int);
            assert((n - 1) + 1 + start_of(r1, n - 1) + j == (n - 1) + start_of(r2, n - 1));
            assert(false);
        }
        assert(l1.len() == l2.len());
        // equal last lengths split the encodings identically
        let d1 = r1.drop_last();
        let d2 = r2.drop_last();
        assert(flat_of(r1) == flat_of(d1) + l1);
        assert(flat_of(r2) == flat_of(d2) + l2);
        lemma_sizes(d1);
        lemma_sizes(d2);
        assert(d1 =~= r1.take(n - 1));
        assert(d2 =~= r2.take(n - 1));
        lemma_start_of_take(r1, n - 1, n - 1);
        lemma_start_of_take(r2, n - 1, n - 1);
        assert(flat_of(d1).len() == start_of(r1, n - 1));
        assert(flat_of(d2).len() == start_of(r2, n - 1));
        assert(l1 =~= l2) by {
            assert(forall|i: int|
                0 <= i < l1.len() ==> l1[i] == (flat_of(d1) + l1)[flat_of(d1).len() + i]);
            assert(forall|i: int|
                0 <= i < l2.len() ==> l2[i] == (flat_of(d2) + l2)[flat_of(d2).len() + i]);
        }
        assert(flat_of(d1) =~= flat_of(d2)) by {
            assert(forall|i: int|
                0 <= i < flat_of(d1).len() ==> flat_of(d1)[i] == (flat_of(d1) + l1)[i]);
            assert(forall|i: int|
                0 <= i < flat_of(d2).len() ==> flat_of(d2)[i] == (flat_of(d2) + l2)[i]);
        }
        assert(marks_of(r1) == marks_of(d1) + block_marks(l1));
        assert(marks_of(r2) == marks_of(d2) + block_marks(l2));
        lemma_count_ones_block(l1);
        lemma_count_ones_block(l2);
        assert(marks_of(d1) =~= marks_of(d2)) by {
            assert(marks_of(d1).len() == marks_of(d2).len());
            assert(forall|i: int|
                0 <= i < marks_of(d1).len() ==> marks_of(d1)[i] == (marks_of(d1) + block_marks(
                    l1,
                ))[i]);
            assert(forall|i: int|
                0 <= i < marks_of(d2).len() ==> marks_of(d2)[i] == (marks_of(d2) + block_marks(
                    l2,
                ))[i]);
        }
        lemma_encoding_injective(d1, d2);
        assert(r1 =~= r2) by {
            assert(forall|i: int| 0 <= i < n - 1 ==> r1[i] == d1[i] && r2[i] == d2[i]);
        }
    }
}

} // verus!
