//! The laws of the wavelet-tree digraph, stated and proved once for every
//! reachable well-formed state.
//!
//! Together with the contracts of `commit_edits`, `discard_edits` and
//! `shrink` these pin down the succinct encoding, the duality of the two
//! neighbourhood queries, and the agreement between the updated view and the
//! state a commit produces.

use crate::adjacency::{incoming_list, lemma_incoming_upto_props};
use crate::bitrank::rs_bits;
use crate::digraph::WTDigraph;
use crate::encoding::{flat_of, lemma_flat_decomp, lemma_flat_index, lemma_sizes, start_of};
use crate::overlay::{lemma_in_upto_props, lemma_vis_filter_identity, lemma_vis_filter_props, UState};
use crate::seqs::{count_ones, count_zeros, lemma_sorted_same_members};
use vstd::prelude::*;

verus! {

/// Mark/symbol consistency: the boundary bit vector holds one bit per vertex
/// slot plus one per edge — its set bits count the slots and its clear bits
/// count the edges.
pub proof fn theorem_marks_consistency(g: WTDigraph)
    requires
        g.wf(),
    ensures
        rs_bits(g.ca.marks).len() == g.committed_adj().len() + flat_of(g.committed_adj()).len(),
        count_ones(rs_bits(g.ca.marks)) == g.committed_adj().len(),
        count_zeros(rs_bits(g.ca.marks)) == flat_of(g.committed_adj()).len(),
{
    lemma_sizes(g.committed_adj());
}

/// Neighbour containment: every symbol stored in the wavelet sequence is a
/// valid vertex slot.
pub proof fn theorem_symbol_range(g: WTDigraph)
    requires
        g.wf(),
    ensures
        crate::wavelet::wavelet_symbols(g.ca.symbols) == flat_of(g.committed_adj()),
        forall|p: int|
            0 <= p < flat_of(g.committed_adj()).len() ==> (#[trigger] flat_of(g.committed_adj())[p]
                as int) < g.committed_adj().len(),
{
    let adj = g.committed_adj();
    assert forall|p: int| 0 <= p < flat_of(adj).len() implies (#[trigger] flat_of(adj)[p] as int)
        < adj.len() by {
        lemma_flat_decomp(adj, p);
        let v = choose|v: int|
            0 <= v < adj.len() && #[trigger] start_of(adj, v) <= p < start_of(adj, v)
                + adj[v].len();
        lemma_flat_index(adj, v, p - start_of(adj, v));
    }
}

/// Outgoing/incoming duality: `v` lies on the outgoing list of `u` exactly
/// when `u` lies on the incoming list of `v`.
pub proof fn theorem_outgoing_incoming_duality(g: WTDigraph, u: usize, v: usize)
    requires
        g.wf(),
        (u as int) < g.committed_adj().len(),
        (v as int) < g.committed_adj().len(),
    ensures
        g.committed_adj()[u as int].contains(v) <==> incoming_list(g.committed_adj(), v).contains(
            u,
        ),
{
    lemma_incoming_upto_props(g.committed_adj(), v, g.committed_adj().len() as int);
}

/// In a state whose overlay is empty the updated view coincides with the
/// committed one: committing twice equals committing once, and a discard
/// restores every query to its committed answer.
pub proof fn theorem_clean_state_agrees(g: WTDigraph)
    requires
        g.wf(),
        g.st().len_u() == g.committed_adj().len(),
        forall|k: int| 0 <= k < g.st().len_u() ==> g.st().marks[k] is None,
        forall|k: int| 0 <= k < g.st().len_u() ==> (#[trigger] g.st().edits[k]).len() == 0,
    ensures
        forall|w: int| g.st().exists_u(w) == g.st().exists_c(w),
        forall|v: int|
            0 <= v < g.committed_adj().len() ==> #[trigger] g.st().replay_row(v)
                == g.committed_adj()[v],
        forall|v: int|
            0 <= v < g.committed_adj().len() ==> (if g.st().exists_u(v) {
                g.st().vis_row(v)
            } else {
                Seq::<usize>::empty()
            }) == g.committed_adj()[v],
        g.st().ecount() == flat_of(g.committed_adj()).len(),
        g.st().vcount() == g.committed_vcount(),
        forall|v: usize|
            g.st().exists_u(v as int) ==> #[trigger] g.st().in_list(v) == incoming_list(
                g.committed_adj(),
                v,
            ),
{
    let st = g.st();
    let adj = g.committed_adj();
    let n = adj.len() as int;
    assert forall|v: int| 0 <= v < n implies #[trigger] st.replay_row(v) == adj[v] by {
        assert(st.edits[v] =~= Seq::<crate::Edit<usize>>::empty());
    }
    assert forall|v: int| 0 <= v < n implies (if st.exists_u(v) {
        st.vis_row(v)
    } else {
        Seq::<usize>::empty()
    }) == adj[v] by {
        if st.exists_u(v) {
            lemma_vis_filter_identity(st, adj[v]);
        } else {
            assert(g.deleted_vertices@[v]);
        }
    }
    crate::overlay::lemma_committed_counts(st, n);
    lemma_sizes(adj);
    assert(st.removed.take(n) =~= st.removed);
    assert forall|v: usize| st.exists_u(v as int) implies #[trigger] st.in_list(v)
        == incoming_list(adj, v) by {
        lemma_in_upto_props(st, v, st.len_u());
        lemma_incoming_upto_props(adj, v, n);
        assert forall|u: usize| st.in_list(v).contains(u) <==> incoming_list(adj, v).contains(
            u,
        ) by {
            if st.in_list(v).contains(u) {
                assert(st.exists_u(u as int) && st.replay_row(u as int).contains(v));
            }
            if incoming_list(adj, v).contains(u) {
                assert(adj[u as int].contains(v));
                assert(st.exists_u(u as int)) by {
                    if g.deleted_vertices@[u as int] {
                        assert(adj[u as int].len() == 0);
                    }
                }
            }
        }
        lemma_sorted_same_members(st.in_list(v), incoming_list(adj, v));
    }
}

/// Commit agrees with replay for the incoming query: the incoming list of
/// the committed layer a commit builds equals the updated incoming list
/// before the commit.
pub proof fn theorem_commit_incoming(st: UState, cadj2: Seq<Seq<usize>>, v: usize)
    requires
        st.len_u() <= usize::MAX,
        cadj2.len() == st.len_u(),
        forall|u: int|
            0 <= u < st.len_u() ==> #[trigger] cadj2[u] == if st.exists_u(u) {
                st.vis_row(u)
            } else {
                Seq::<usize>::empty()
            },
        st.exists_u(v as int),
    ensures
        incoming_list(cadj2, v) == st.in_list(v),
{
    lemma_in_upto_props(st, v, st.len_u());
    lemma_incoming_upto_props(cadj2, v, cadj2.len() as int);
    assert forall|u: usize| incoming_list(cadj2, v).contains(u) <==> st.in_list(v).contains(
        u,
    ) by {
        if incoming_list(cadj2, v).contains(u) {
            assert(cadj2[u as int].contains(v));
            assert(st.exists_u(u as int)) by {
                if !st.exists_u(u as int) {
                    assert(cadj2[u as int].len() == 0);
                }
            }
            lemma_vis_filter_props(st, st.replay_row(u as int));
            assert(st.vis_row(u as int).contains(v));
        }
        if st.in_list(v).contains(u) {
            assert(st.exists_u(u as int) && st.replay_row(u as int).contains(v));
            lemma_vis_filter_props(st, st.replay_row(u as int));
            assert(st.vis_row(u as int).contains(v));
            assert(cadj2[u as int].contains(v));
        }
    }
    lemma_sorted_same_members(incoming_list(cadj2, v), st.in_list(v));
}

} // verus!
