//! The mathematical model of a graph with pending edits.
//!
//! [`UState`] gathers what the updated view depends on: the committed
//! adjacency, the committed removed set, the overlay vertex marks and the
//! overlay edit rows.  The spec functions here define which vertices exist in
//! the updated view, what each vertex's visible outgoing row is (committed
//! row, edits replayed, endpoints filtered by existence), and the updated
//! vertex and edge counts.  The lemmas say how those counts move when one
//! vertex's existence is toggled — the facts the mutators' bookkeeping is
//! proved against.

use crate::seqs::{nodup, remove_value, strictly_sorted};
use crate::Edit;
use vstd::prelude::*;

verus! {

/// Replay a row of edits over a base row: `Add` appends, `Delete` takes out
/// the first matching entry.
pub open spec fn apply_edits(base: Seq<usize>, edits: Seq<Edit<usize>>) -> Seq<usize>
    decreases edits.len(),
{
    if edits.len() == 0 {
        base
    } else {
        let prev = apply_edits(base, edits.drop_last());
        match edits.last() {
            Edit::Add(w) => prev.push(w),
            Edit::Delete(w) => remove_value(prev, w),
        }
    }
}

pub proof fn lemma_apply_edits_push_add(base: Seq<usize>, edits: Seq<Edit<usize>>, w: usize)
    ensures
        apply_edits(base, edits.push(Edit::Add(w))) == apply_edits(base, edits).push(w),
{
    assert(edits.push(Edit::Add(w)).drop_last() =~= edits);
}

pub proof fn lemma_apply_edits_push_delete(base: Seq<usize>, edits: Seq<Edit<usize>>, w: usize)
    ensures
        apply_edits(base, edits.push(Edit::Delete(w))) == remove_value(
            apply_edits(base, edits),
            w,
        ),
{
    assert(edits.push(Edit::Delete(w)).drop_last() =~= edits);
}

/// Everything the updated view of a graph is a function of.
#[verifier::ext_equal]
pub struct UState {
    /// Committed adjacency rows.
    pub cadj: Seq<Seq<usize>>,
    /// Committed removed set, one flag per committed slot.
    pub removed: Seq<bool>,
    /// Overlay vertex marks, one per updated slot: `Some(true)` removed,
    /// `Some(false)` present, `None` untouched.
    pub marks: Seq<Option<bool>>,
    /// Overlay edit rows, one per updated slot.
    pub edits: Seq<Seq<Edit<usize>>>,
}

impl UState {
    /// Number of slots in the updated view.
    pub open spec fn len_u(self) -> int {
        self.marks.len() as int
    }

    /// Number of slots in the committed view.
    pub open spec fn clen(self) -> int {
        self.cadj.len() as int
    }

    /// Whether `v` exists in the committed view.
    pub open spec fn exists_c(self, v: int) -> bool {
        0 <= v < self.clen() && !self.removed[v]
    }

    /// Whether `v` exists in the updated view: the overlay mark decides, and
    /// an untouched slot falls back to the committed view.
    pub open spec fn exists_u(self, v: int) -> bool {
        0 <= v < self.len_u() && match self.marks[v] {
            Some(m) => !m,
            None => self.exists_c(v),
        }
    }

    /// The committed row of `v`, or empty beyond the committed slots.
    pub open spec fn base_row(self, v: int) -> Seq<usize> {
        if 0 <= v < self.clen() {
            self.cadj[v]
        } else {
            Seq::empty()
        }
    }

    /// The committed row of `v` with its edits replayed.
    pub open spec fn replay_row(self, v: int) -> Seq<usize> {
        apply_edits(self.base_row(v), self.edits[v])
    }

    /// The entries of `s` whose vertex exists in the updated view.
    pub open spec fn vis_filter(self, s: Seq<usize>) -> Seq<usize>
        decreases s.len(),
    {
        if s.len() == 0 {
            Seq::empty()
        } else {
            self.vis_filter(s.drop_last()) + if self.exists_u(s.last() as int) {
                seq![s.last()]
            } else {
                Seq::empty()
            }
        }
    }

    /// The visible outgoing row of `v` in the updated view.
    pub open spec fn vis_row(self, v: int) -> Seq<usize> {
        self.vis_filter(self.replay_row(v))
    }

    /// Whether the updated view has an edge from `u` to `v`.
    pub open spec fn has_edge(self, u: int, v: usize) -> bool {
        self.exists_u(u) && self.exists_u(v as int) && self.replay_row(u).contains(v)
    }

    /// Vertices below `n` with a visible edge into `v`, ascending.
    pub open spec fn in_upto(self, v: usize, n: int) -> Seq<usize>
        decreases n,
    {
        if n <= 0 {
            Seq::empty()
        } else {
            self.in_upto(v, n - 1) + if self.exists_u(n - 1) && self.replay_row(n - 1).contains(v) {
                seq![((n - 1) as usize)]
            } else {
                Seq::empty()
            }
        }
    }

    /// All vertices with a visible edge into `v`, ascending.
    pub open spec fn in_list(self, v: usize) -> Seq<usize> {
        self.in_upto(v, self.len_u())
    }

    /// Number of visible edges leaving vertices below `n`.
    pub open spec fn ecount_upto(self, n: int) -> int
        decreases n,
    {
        if n <= 0 {
            0
        } else {
            self.ecount_upto(n - 1) + if self.exists_u(n - 1) {
                self.vis_row(n - 1).len() as int
            } else {
                0
            }
        }
    }

    /// Number of visible edges in the updated view.
    pub open spec fn ecount(self) -> int {
        self.ecount_upto(self.len_u())
    }

    /// Number of existing vertices below `n`.
    pub open spec fn vcount_upto(self, n: int) -> int
        decreases n,
    {
        if n <= 0 {
            0
        } else {
            self.vcount_upto(n - 1) + if self.exists_u(n - 1) {
                1int
            } else {
                0int
            }
        }
    }

    /// Number of vertices in the updated view.
    pub open spec fn vcount(self) -> int {
        self.vcount_upto(self.len_u())
    }

    /// The same state with the overlay mark of `v` replaced.
    pub open spec fn with_mark(self, v: int, m: Option<bool>) -> UState {
        UState { marks: self.marks.update(v, m), ..self }
    }

    /// Every replayed row is duplicate-free and points at updated slots.
    pub open spec fn rows_ok(self) -> bool {
        &&& forall|v: int| 0 <= v < self.len_u() ==> nodup(#[trigger] self.replay_row(v))
        &&& forall|v: int, j: int|
            0 <= v < self.len_u() && 0 <= j < self.replay_row(v).len()
                ==> (#[trigger] self.replay_row(v)[j] as int) < self.len_u()
    }
}

pub proof fn lemma_vis_filter_props(st: UState, s: Seq<usize>)
    ensures
        st.vis_filter(s).len() <= s.len(),
        forall|y: usize|
            st.vis_filter(s).contains(y) <==> s.contains(y) && st.exists_u(y as int),
        nodup(s) ==> nodup(st.vis_filter(s)),
    decreases s.len(),
{
    let f = st.vis_filter(s);
    if s.len() > 0 {
        let t = s.drop_last();
        lemma_vis_filter_props(st, t);
        let ft = st.vis_filter(t);
        if nodup(s) {
            assert(nodup(t)) by {
                assert(forall|i: int, j: int| 0 <= i < j < t.len() ==> t[i] != t[j]);
            }
        }
        if st.exists_u(s.last() as int) {
            assert(f =~= ft.push(s.last()));
            assert forall|y: usize| f.contains(y) implies s.contains(y) && st.exists_u(
                y as int,
            ) by {
                let i = choose|i: int| 0 <= i < f.len() && f[i] == y;
                if i < ft.len() {
                    assert(ft[i] == y);
                    assert(ft.contains(y));
                    assert(t.contains(y));
                    let j = choose|j: int| 0 <= j < t.len() && t[j] == y;
                    assert(s[j] == y);
                } else {
                    assert(f[i] == s.last());
                    assert(y == s.last());
                    assert(s[s.len() - 1] == y);
                }
            }
            assert forall|y: usize| s.contains(y) && st.exists_u(y as int) implies f.contains(
                y,
            ) by {
                let j = choose|j: int| 0 <= j < s.len() && s[j] == y;
                if j < s.len() - 1 {
                    assert(t[j] == y);
                    assert(t.contains(y));
                    assert(ft.contains(y));
                    let i = choose|i: int| 0 <= i < ft.len() && ft[i] == y;
                    assert(f[i] == y);
                } else {
                    assert(f[f.len() - 1] == y);
                }
            }
            if nodup(s) {
                assert(nodup(f)) by {
                    assert forall|a: int, b: int| 0 <= a < b < f.len() implies f[a] != f[b] by {
                        if b == f.len() - 1 {
                            assert(f[b] == s.last());
                            assert(f[a] == ft[a]);
                            assert(ft.contains(ft[a]));
                            assert(t.contains(ft[a]));
                            let j = choose|j: int| 0 <= j < t.len() && t[j] == ft[a];
                            assert(s[j] == ft[a]);
                            assert(s[j] != s[s.len() - 1]);
                        } else {
                            assert(f[a] == ft[a] && f[b] == ft[b]);
                        }
                    }
                }
            }
        } else {
            assert(f =~= ft);
            assert forall|y: usize| s.contains(y) && st.exists_u(y as int) implies f.contains(
                y,
            ) by {
                let j = choose|j: int| 0 <= j < s.len() && s[j] == y;
                if j < s.len() - 1 {
                    assert(t[j] == y);
                    assert(t.contains(y));
                } else {
                    assert(s.last() == s[s.len() - 1]);
                    assert(y == s.last());
                    assert(false);
                }
            }
            assert forall|y: usize| f.contains(y) implies s.contains(y) && st.exists_u(
                y as int,
            ) by {
                assert(ft.contains(y));
                assert(t.contains(y));
                let j = choose|j: int| 0 <= j < t.len() && t[j] == y;
                assert(s[j] == y);
            }
        }
    } else {
        assert(forall|y: usize| !s.contains(y));
    }
}

/// States agreeing on existence filter alike.
pub proof fn lemma_vis_filter_congruence(st1: UState, st2: UState, s: Seq<usize>)
    requires
        forall|w: int| st1.exists_u(w) == st2.exists_u(w),
    ensures
        st1.vis_filter(s) == st2.vis_filter(s),
    decreases s.len(),
{
    if s.len() > 0 {
        lemma_vis_filter_congruence(st1, st2, s.drop_last());
    }
}

/// Turning one vertex's existence off shortens a filtered row by its number
/// of occurrences there — under no duplicates, by one if present.
pub proof fn lemma_vis_filter_turnoff(st1: UState, st2: UState, s: Seq<usize>, v: usize)
    requires
        nodup(s),
        st1.exists_u(v as int),
        !st2.exists_u(v as int),
        forall|w: int| w != v as int ==> st1.exists_u(w) == st2.exists_u(w),
    ensures
        st2.vis_filter(s).len() == st1.vis_filter(s).len() - if s.contains(v) {
            1int
        } else {
            0int
        },
    decreases s.len(),
{
    if s.len() == 0 {
        assert(forall|y: usize| !s.contains(y));
    } else {
        let t = s.drop_last();
        assert(nodup(t)) by {
            assert(forall|i: int, j: int| 0 <= i < j < t.len() ==> t[i] != t[j]);
        }
        lemma_vis_filter_turnoff(st1, st2, t, v);
        assert(s.contains(v) <==> t.contains(v) || s.last() == v) by {
            if s.contains(v) {
                let j = choose|j: int| 0 <= j < s.len() && s[j] == v;
                if j < s.len() - 1 {
                    assert(t[j] == v);
                }
            }
            if t.contains(v) {
                let j = choose|j: int| 0 <= j < t.len() && t[j] == v;
                assert(s[j] == v);
            }
            assert(s.last() == s[s.len() - 1]);
        }
        if s.last() == v {
            assert(!t.contains(v)) by {
                if t.contains(v) {
                    let j = choose|j: int| 0 <= j < t.len() && t[j] == v;
                    assert(s[j] == s[s.len() - 1]);
                    assert(false);
                }
            }
        }
    }
}

/// Congruent states count alike.
pub proof fn lemma_counts_congruence(st1: UState, st2: UState, n: int)
    requires
        forall|w: int| st1.exists_u(w) == st2.exists_u(w),
        forall|v: int| 0 <= v < n ==> #[trigger] st1.replay_row(v) == st2.replay_row(v),
    ensures
        st1.ecount_upto(n) == st2.ecount_upto(n),
        st1.vcount_upto(n) == st2.vcount_upto(n),
    decreases n,
{
    if n > 0 {
        lemma_counts_congruence(st1, st2, n - 1);
        if st1.exists_u(n - 1) {
            lemma_vis_filter_congruence(st1, st2, st1.replay_row(n - 1));
        }
    }
}

/// How the counts move when vertex `v` is turned off.
pub proof fn lemma_counts_turnoff(st1: UState, st2: UState, v: usize, n: int)
    requires
        st2.cadj == st1.cadj,
        st2.removed == st1.removed,
        st2.edits == st1.edits,
        st2.marks == st1.marks.update(v as int, Some(true)),
        (v as int) < st1.len_u(),
        st1.exists_u(v as int),
        forall|u: int| 0 <= u < n ==> nodup(#[trigger] st1.replay_row(u)),
        0 <= n <= st1.len_u(),
    ensures
        st2.ecount_upto(n) == st1.ecount_upto(n) - (if (v as int) < n {
            st1.vis_row(v as int).len() as int
        } else {
            0int
        }) - st1.in_upto(v, n).len() + (if (v as int) < n && st1.replay_row(v as int).contains(v) {
            1int
        } else {
            0int
        }),
        st1.in_upto(v, n).len() <= n,
        st2.vcount_upto(n) == st1.vcount_upto(n) - if (v as int) < n {
            1int
        } else {
            0int
        },
    decreases n,
{
    assert(!st2.exists_u(v as int));
    assert(forall|w: int| w != v as int ==> st1.exists_u(w) == st2.exists_u(w));
    if n > 0 {
        lemma_counts_turnoff(st1, st2, v, n - 1);
        let u = n - 1;
        assert(st2.replay_row(u) == st1.replay_row(u));
        if u == v as int {
            // the row of `v` itself drops out
            if st1.exists_u(u) && st1.replay_row(u).contains(v) {
                lemma_vis_filter_props(st1, st1.replay_row(u));
            }
            assert(st2.vcount_upto(n) == st2.vcount_upto(n - 1));
            assert(st1.vcount_upto(n) == st1.vcount_upto(n - 1) + 1);
            assert(st2.ecount_upto(n) == st2.ecount_upto(n - 1));
            assert(st1.ecount_upto(n) == st1.ecount_upto(n - 1) + st1.vis_row(u).len());
            assert(st1.in_upto(v, n).len() == st1.in_upto(v, n - 1).len() + if st1.replay_row(
                u,
            ).contains(v) {
                1int
            } else {
                0int
            });
        } else {
            assert(st1.exists_u(u) == st2.exists_u(u));
            if st1.exists_u(u) {
                lemma_vis_filter_turnoff(st1, st2, st1.replay_row(u), v);
                assert(st2.vis_row(u).len() == st1.vis_row(u).len() - if st1.replay_row(
                    u,
                ).contains(v) {
                    1int
                } else {
                    0int
                });
                assert(st1.in_upto(v, n).len() == st1.in_upto(v, n - 1).len() + if st1.replay_row(
                    u,
                ).contains(v) {
                    1int
                } else {
                    0int
                });
            } else {
                assert(st1.in_upto(v, n).len() == st1.in_upto(v, n - 1).len());
            }
            assert(st2.vcount_upto(n) - st2.vcount_upto(n - 1) == st1.vcount_upto(n)
                - st1.vcount_upto(n - 1));
        }
    }
}

/// The facts the queries need about the ascending incoming list.
pub proof fn lemma_in_upto_props(st: UState, v: usize, n: int)
    requires
        n <= st.len_u(),
        n <= usize::MAX,
    ensures
        strictly_sorted(st.in_upto(v, n)),
        forall|u: usize|
            #![trigger st.in_upto(v, n).contains(u)]
            st.in_upto(v, n).contains(u) <==> 0 <= u < n && st.exists_u(u as int)
                && st.replay_row(u as int).contains(v),
    decreases n,
{
    if n > 0 {
        lemma_in_upto_props(st, v, n - 1);
        let pre = st.in_upto(v, n - 1);
        let cur = st.in_upto(v, n);
        if st.exists_u(n - 1) && st.replay_row(n - 1).contains(v) {
            let x = (n - 1) as usize;
            assert(cur =~= pre.push(x));
            assert forall|u: usize| cur.contains(u) implies 0 <= u < n && st.exists_u(u as int)
                && st.replay_row(u as int).contains(v) by {
                let i = choose|i: int| 0 <= i < cur.len() && cur[i] == u;
                if i < pre.len() {
                    assert(pre[i] == u);
                    assert(pre.contains(u));
                } else {
                    assert(cur[i] == x);
                }
            }
            assert forall|u: usize|
                0 <= u < n && st.exists_u(u as int) && st.replay_row(u as int).contains(v)
                implies cur.contains(u) by {
                if u < n - 1 {
                    assert(pre.contains(u));
                    let i = choose|i: int| 0 <= i < pre.len() && pre[i] == u;
                    assert(cur[i] == u);
                } else {
                    assert(cur[cur.len() - 1] == u);
                }
            }
            assert forall|i: int, j: int| 0 <= i < j < cur.len() implies cur[i] < cur[j] by {
                if j == cur.len() - 1 {
                    assert(cur[i] == pre[i]);
                    assert(pre.contains(pre[i]));
                    assert(pre[i] < x);
                }
            }
        } else {
            assert(cur =~= pre);
            assert forall|u: usize|
                0 <= u < n && st.exists_u(u as int) && st.replay_row(u as int).contains(v)
                implies cur.contains(u) by {
                assert(u != n - 1);
            }
        }
    }
}

/// When `v` itself is visible, each incoming edge is a visible edge, so the
/// incoming list is bounded by the updated edge count.
pub proof fn lemma_in_upto_le_ecount(st: UState, v: usize, n: int)
    requires
        st.exists_u(v as int),
    ensures
        st.in_upto(v, n).len() <= st.ecount_upto(n),
    decreases n,
{
    if n > 0 {
        lemma_in_upto_le_ecount(st, v, n - 1);
        if st.exists_u(n - 1) && st.replay_row(n - 1).contains(v) {
            lemma_vis_filter_props(st, st.replay_row(n - 1));
            assert(st.vis_row(n - 1).contains(v));
            let i = choose|i: int|
                0 <= i < st.vis_row(n - 1).len() && #[trigger] st.vis_row(n - 1)[i] == v;
            assert(st.vis_row(n - 1).len() >= 1);
        }
    }
}

pub proof fn lemma_ecount_upto_nonneg(st: UState, n: int)
    ensures
        st.ecount_upto(n) >= 0,
    decreases n,
{
    if n > 0 {
        lemma_ecount_upto_nonneg(st, n - 1);
    }
}

/// An existing vertex's visible row is part of the updated edge count.
pub proof fn lemma_vis_row_le_ecount(st: UState, v: int, n: int)
    requires
        0 <= v < n,
        st.exists_u(v),
    ensures
        st.vis_row(v).len() <= st.ecount_upto(n),
    decreases n,
{
    lemma_ecount_upto_nonneg(st, v);
    if v == n - 1 {
        lemma_ecount_upto_nonneg(st, n - 1);
    } else {
        lemma_vis_row_le_ecount(st, v, n - 1);
    }
}

/// Generalised congruence: two states filter a row alike when they agree on
/// the existence of the row's entries.
pub proof fn lemma_vis_filter_congruence_row(st1: UState, st2: UState, s: Seq<usize>)
    requires
        forall|j: int| 0 <= j < s.len() ==> st1.exists_u(#[trigger] s[j] as int) == st2.exists_u(
            s[j] as int,
        ),
    ensures
        st1.vis_filter(s) == st2.vis_filter(s),
    decreases s.len(),
{
    if s.len() > 0 {
        let t = s.drop_last();
        assert(forall|j: int| 0 <= j < t.len() ==> t[j] == s[j]);
        lemma_vis_filter_congruence_row(st1, st2, t);
        assert(s.last() == s[s.len() - 1]);
    }
}

/// Two states that agree on existence everywhere and on all rows below `n`
/// except row `v` differ in the counts only by row `v`'s visible length.
pub proof fn lemma_counts_one_row(st1: UState, st2: UState, v: int, n: int)
    requires
        forall|w: int| st1.exists_u(w) == st2.exists_u(w),
        forall|u: int| 0 <= u < n && u != v ==> #[trigger] st1.replay_row(u) == st2.replay_row(u),
    ensures
        st2.vcount_upto(n) == st1.vcount_upto(n),
        st2.ecount_upto(n) == st1.ecount_upto(n) + if 0 <= v < n && st1.exists_u(v) {
            st2.vis_row(v).len() - st1.vis_row(v).len()
        } else {
            0int
        },
    decreases n,
{
    if n > 0 {
        lemma_counts_one_row(st1, st2, v, n - 1);
        let u = n - 1;
        if st1.exists_u(u) {
            if u != v {
                lemma_vis_filter_congruence(st1, st2, st1.replay_row(u));
            } else {
                lemma_vis_filter_congruence(st1, st2, st1.replay_row(u));
                lemma_vis_filter_congruence(st1, st2, st2.replay_row(u));
            }
        }
    }
}

/// Slots whose replayed row is empty contribute nothing to the edge count.
pub proof fn lemma_ecount_tail_empty(st: UState, a: int, b: int)
    requires
        0 <= a <= b,
        forall|u: int| a <= u < b ==> (#[trigger] st.replay_row(u)).len() == 0,
    ensures
        st.ecount_upto(b) == st.ecount_upto(a),
    decreases b - a,
{
    if a < b {
        lemma_ecount_tail_empty(st, a, b - 1);
        if st.exists_u(b - 1) {
            assert(st.replay_row(b - 1) =~= Seq::<usize>::empty());
        }
    }
}

/// The vertex count over slots where only `v` exists rises by one.
pub proof fn lemma_vcount_tail_single(st: UState, a: int, b: int, v: int)
    requires
        0 <= a <= b,
        a <= v < b,
        st.exists_u(v),
        forall|u: int| a <= u < b && u != v ==> !(#[trigger] st.exists_u(u)),
    ensures
        st.vcount_upto(b) == st.vcount_upto(a) + 1,
    decreases b - a,
{
    if a < b {
        if v == b - 1 {
            lemma_vcount_tail_none(st, a, b - 1);
        } else {
            lemma_vcount_tail_single(st, a, b - 1, v);
        }
    }
}

/// The vertex count over slots where nothing exists stands still.
pub proof fn lemma_vcount_tail_none(st: UState, a: int, b: int)
    requires
        0 <= a <= b,
        forall|u: int| a <= u < b ==> !(#[trigger] st.exists_u(u)),
    ensures
        st.vcount_upto(b) == st.vcount_upto(a),
    decreases b - a,
{
    if a < b {
        lemma_vcount_tail_none(st, a, b - 1);
    }
}

pub proof fn lemma_vcount_upto_bounds(st: UState, n: int)
    requires
        0 <= n,
    ensures
        0 <= st.vcount_upto(n) <= n,
    decreases n,
{
    if n > 0 {
        lemma_vcount_upto_bounds(st, n - 1);
    }
}

pub proof fn lemma_vcount_mono(st: UState, a: int, b: int)
    requires
        0 <= a <= b,
    ensures
        st.vcount_upto(a) <= st.vcount_upto(b),
    decreases b - a,
{
    if a < b {
        lemma_vcount_mono(st, a, b - 1);
    }
}


/// In a state whose overlay is empty, the counts are the committed ones:
/// the edge count is the total row length and the vertex count is the slot
/// count less the removed flags.
pub proof fn lemma_committed_counts(st: UState, n: int)
    requires
        0 <= n <= st.len_u(),
        st.len_u() == st.clen(),
        st.removed.len() == st.clen(),
        forall|v: int| 0 <= v < st.len_u() ==> st.marks[v] is None,
        forall|v: int| 0 <= v < st.len_u() ==> (#[trigger] st.edits[v]).len() == 0,
        forall|v: int|
            0 <= v < st.clen() && st.removed[v] ==> (#[trigger] st.cadj[v]).len() == 0,
        forall|u: int, j: int|
            0 <= u < st.clen() && 0 <= j < st.cadj[u].len() ==> (#[trigger] st.cadj[u][j] as int)
                < st.clen() && !st.removed[st.cadj[u][j] as int],
    ensures
        st.ecount_upto(n) == crate::encoding::start_of(st.cadj, n),
        st.vcount_upto(n) == n - crate::seqs::count_ones(st.removed.take(n)),
    decreases n,
{
    crate::encoding::lemma_start_of_nonneg(st.cadj, n);
    if n > 0 {
        lemma_committed_counts(st, n - 1);
        let u = n - 1;
        assert(st.replay_row(u) == st.base_row(u)) by {
            assert(st.edits[u] =~= Seq::<Edit<usize>>::empty());
        }
        crate::seqs::lemma_count_ones_take_succ(st.removed, u);
        if st.exists_u(u) {
            assert(st.vis_row(u) =~= st.cadj[u]) by {
                lemma_vis_filter_identity(st, st.cadj[u]);
            }
        } else {
            assert(st.cadj[u].len() == 0);
        }
    } else {
        assert(st.removed.take(0) =~= Seq::<bool>::empty());
    }
}

/// A row all of whose entries exist passes the filter unchanged.
pub proof fn lemma_vis_filter_identity(st: UState, s: Seq<usize>)
    requires
        forall|j: int| 0 <= j < s.len() ==> st.exists_u(#[trigger] s[j] as int),
    ensures
        st.vis_filter(s) == s,
    decreases s.len(),
{
    if s.len() > 0 {
        let t = s.drop_last();
        assert(forall|j: int| 0 <= j < t.len() ==> t[j] == s[j]);
        lemma_vis_filter_identity(st, t);
        assert(s.last() == s[s.len() - 1]);
        assert(t.push(s.last()) =~= s);
    }
}

/// Extending the slots (with any tail) leaves the counts over the old slots
/// alone, as long as the old rows point below the old slot count.
pub proof fn lemma_counts_extend(st1: UState, st2: UState, n: int)
    requires
        0 <= n <= st1.len_u(),
        st1.len_u() <= st2.len_u(),
        st2.cadj == st1.cadj,
        st2.removed == st1.removed,
        forall|w: int| 0 <= w < st1.len_u() ==> st2.marks[w] == st1.marks[w],
        forall|w: int| 0 <= w < st1.len_u() ==> st2.edits[w] == st1.edits[w],
        forall|v: int, j: int|
            0 <= v < st1.len_u() && 0 <= j < st1.replay_row(v).len()
                ==> (#[trigger] st1.replay_row(v)[j] as int) < st1.len_u(),
    ensures
        forall|u: int| 0 <= u < st1.len_u() ==> #[trigger] st2.replay_row(u) == st1.replay_row(u),
        forall|w: int| 0 <= w < st1.len_u() ==> st2.exists_u(w) == st1.exists_u(w),
        st2.ecount_upto(n) == st1.ecount_upto(n),
        st2.vcount_upto(n) == st1.vcount_upto(n),
    decreases n,
{
    assert forall|u: int| 0 <= u < st1.len_u() implies #[trigger] st2.replay_row(u)
        == st1.replay_row(u) by {
        assert(st2.edits[u] == st1.edits[u]);
    }
    if n > 0 {
        lemma_counts_extend(st1, st2, n - 1);
        let u = n - 1;
        if st1.exists_u(u) {
            lemma_vis_filter_congruence_row(st1, st2, st1.replay_row(u));
        }
    }
}

} // verus!
