//! Counting helpers over sequences: how many set bits a bit sequence holds,
//! how often a symbol occurs, and the uniqueness facts that make rank and
//! select queries well defined.

use vstd::prelude::*;

verus! {

/// Number of `true` entries in `s`.
pub open spec fn count_ones(s: Seq<bool>) -> int
    decreases s.len(),
{
    if s.len() == 0 {
        0
    } else {
        count_ones(s.drop_last()) + if s.last() {
            1int
        } else {
            0int
        }
    }
}

/// Number of `false` entries in `s`.
pub open spec fn count_zeros(s: Seq<bool>) -> int {
    s.len() - count_ones(s)
}

/// Number of occurrences of `x` in `s`.
pub open spec fn occ(s: Seq<usize>, x: usize) -> int
    decreases s.len(),
{
    if s.len() == 0 {
        0
    } else {
        occ(s.drop_last(), x) + if s.last() == x {
            1int
        } else {
            0int
        }
    }
}

/// No entry of `s` appears twice.
pub open spec fn nodup<A>(s: Seq<A>) -> bool {
    forall|i: int, j: int| 0 <= i < j < s.len() ==> s[i] != s[j]
}

/// Strictly ascending sequence of indices.
pub open spec fn strictly_sorted(s: Seq<usize>) -> bool {
    forall|i: int, j: int| 0 <= i < j < s.len() ==> s[i] < s[j]
}

pub proof fn lemma_count_ones_single(b: bool)
    ensures
        count_ones(seq![b]) == if b {
            1int
        } else {
            0int
        },
{
    let s = seq![b];
    assert(s.drop_last() =~= Seq::<bool>::empty());
    assert(count_ones(Seq::<bool>::empty()) == 0);
    assert(s.last() == b);
}

pub proof fn lemma_count_ones_bounds(s: Seq<bool>)
    ensures
        0 <= count_ones(s) <= s.len(),
    decreases s.len(),
{
    if s.len() > 0 {
        lemma_count_ones_bounds(s.drop_last());
    }
}

pub proof fn lemma_count_ones_concat(a: Seq<bool>, b: Seq<bool>)
    ensures
        count_ones(a + b) == count_ones(a) + count_ones(b),
    decreases b.len(),
{
    if b.len() == 0 {
        assert(a + b =~= a);
    } else {
        lemma_count_ones_concat(a, b.drop_last());
        assert((a + b).drop_last() =~= a + b.drop_last());
    }
}

pub proof fn lemma_count_ones_take_succ(s: Seq<bool>, i: int)
    requires
        0 <= i < s.len(),
    ensures
        count_ones(s.take(i + 1)) == count_ones(s.take(i)) + if s[i] {
            1int
        } else {
            0int
        },
{
    assert(s.take(i + 1).drop_last() =~= s.take(i));
    assert(s.take(i + 1).last() == s[i]);
}

pub proof fn lemma_count_ones_mono(s: Seq<bool>, i: int, j: int)
    requires
        0 <= i <= j <= s.len(),
    ensures
        count_ones(s.take(i)) <= count_ones(s.take(j)),
    decreases j - i,
{
    if i < j {
        lemma_count_ones_mono(s, i, j - 1);
        lemma_count_ones_take_succ(s, j - 1);
    }
}

/// Two set positions with the same number of set bits before them coincide.
pub proof fn lemma_one_position_unique(s: Seq<bool>, p: int, q: int)
    requires
        0 <= p < s.len(),
        0 <= q < s.len(),
        s[p],
        s[q],
        count_ones(s.take(p)) == count_ones(s.take(q)),
    ensures
        p == q,
{
    if p < q {
        lemma_count_ones_take_succ(s, p);
        lemma_count_ones_mono(s, p + 1, q);
        assert(false);
    }
    if q < p {
        lemma_count_ones_take_succ(s, q);
        lemma_count_ones_mono(s, q + 1, p);
        assert(false);
    }
}

/// The count of set bits grows by at most one per position.
pub proof fn lemma_count_ones_lipschitz(s: Seq<bool>, i: int, j: int)
    requires
        0 <= i <= j <= s.len(),
    ensures
        count_ones(s.take(j)) <= count_ones(s.take(i)) + (j - i),
    decreases j - i,
{
    if i < j {
        lemma_count_ones_lipschitz(s, i, j - 1);
        lemma_count_ones_take_succ(s, j - 1);
    }
}

/// Two clear positions with the same number of clear bits before them coincide.
pub proof fn lemma_zero_position_unique(s: Seq<bool>, p: int, q: int)
    requires
        0 <= p < s.len(),
        0 <= q < s.len(),
        !s[p],
        !s[q],
        count_zeros(s.take(p)) == count_zeros(s.take(q)),
    ensures
        p == q,
{
    assert(s.take(p).len() == p);
    assert(s.take(q).len() == q);
    if p < q {
        lemma_count_ones_take_succ(s, p);
        lemma_count_ones_lipschitz(s, p + 1, q);
        assert(false);
    }
    if q < p {
        lemma_count_ones_take_succ(s, q);
        lemma_count_ones_lipschitz(s, q + 1, p);
        assert(false);
    }
}

pub proof fn lemma_occ_bounds(s: Seq<usize>, x: usize)
    ensures
        0 <= occ(s, x) <= s.len(),
    decreases s.len(),
{
    if s.len() > 0 {
        lemma_occ_bounds(s.drop_last(), x);
    }
}

pub proof fn lemma_occ_concat(a: Seq<usize>, b: Seq<usize>, x: usize)
    ensures
        occ(a + b, x) == occ(a, x) + occ(b, x),
    decreases b.len(),
{
    if b.len() == 0 {
        assert(a + b =~= a);
    } else {
        lemma_occ_concat(a, b.drop_last(), x);
        assert((a + b).drop_last() =~= a + b.drop_last());
    }
}

pub proof fn lemma_occ_take_succ(s: Seq<usize>, x: usize, i: int)
    requires
        0 <= i < s.len(),
    ensures
        occ(s.take(i + 1), x) == occ(s.take(i), x) + if s[i] == x {
            1int
        } else {
            0int
        },
{
    assert(s.take(i + 1).drop_last() =~= s.take(i));
    assert(s.take(i + 1).last() == s[i]);
}

pub proof fn lemma_occ_take_full(s: Seq<usize>, x: usize)
    ensures
        occ(s.take(s.len() as int), x) == occ(s, x),
{
    assert(s.take(s.len() as int) =~= s);
}

pub proof fn lemma_occ_mono(s: Seq<usize>, x: usize, i: int, j: int)
    requires
        0 <= i <= j <= s.len(),
    ensures
        occ(s.take(i), x) <= occ(s.take(j), x),
    decreases j - i,
{
    if i < j {
        lemma_occ_mono(s, x, i, j - 1);
        lemma_occ_take_succ(s, x, j - 1);
    }
}

/// In a duplicate-free sequence a value occurs once or not at all.
pub proof fn lemma_occ_nodup(s: Seq<usize>, x: usize)
    requires
        nodup(s),
    ensures
        occ(s, x) == if s.contains(x) {
            1int
        } else {
            0int
        },
    decreases s.len(),
{
    if s.len() > 0 {
        assert(nodup(s.drop_last())) by {
            assert(forall|i: int, j: int|
                0 <= i < j < s.drop_last().len() ==> s.drop_last()[i] != s.drop_last()[j]);
        }
        lemma_occ_nodup(s.drop_last(), x);
        if s.last() == x {
            assert(!s.drop_last().contains(x)) by {
                if s.drop_last().contains(x) {
                    let i = choose|i: int| 0 <= i < s.drop_last().len() && s.drop_last()[i] == x;
                    assert(s[i] == s[s.len() - 1]);
                    assert(false);
                }
            }
            assert(s.contains(x)) by {
                assert(s[s.len() - 1] == x);
            }
        } else {
            if s.contains(x) {
                let i = choose|i: int| 0 <= i < s.len() && s[i] == x;
                assert(i < s.len() - 1);
                assert(s.drop_last()[i] == x);
                assert(s.drop_last().contains(x));
            } else {
                if s.drop_last().contains(x) {
                    let i = choose|i: int| 0 <= i < s.drop_last().len() && s.drop_last()[i] == x;
                    assert(s[i] == x);
                    assert(false);
                }
            }
        }
    }
}

/// A value that occurs has at least one witness index.
pub proof fn lemma_occ_zero_iff_absent(s: Seq<usize>, x: usize)
    ensures
        occ(s, x) == 0 <==> !s.contains(x),
    decreases s.len(),
{
    lemma_occ_bounds(s, x);
    if s.len() > 0 {
        lemma_occ_zero_iff_absent(s.drop_last(), x);
        lemma_occ_bounds(s.drop_last(), x);
        if occ(s, x) == 0 {
            if s.contains(x) {
                let i = choose|i: int| 0 <= i < s.len() && s[i] == x;
                if i < s.len() - 1 {
                    assert(s.drop_last()[i] == x);
                    assert(s.drop_last().contains(x));
                }
                assert(false);
            }
        } else {
            if occ(s.drop_last(), x) > 0 {
                let i = choose|i: int| 0 <= i < s.drop_last().len() && s.drop_last()[i] == x;
                assert(s[i] == x);
                assert(s.contains(x));
            } else {
                assert(s.last() == x);
                assert(s[s.len() - 1] == x);
                assert(s.contains(x));
            }
        }
    }
}

/// Two strictly ascending sequences with the same members are equal.
pub proof fn lemma_sorted_same_members(a: Seq<usize>, b: Seq<usize>)
    requires
        strictly_sorted(a),
        strictly_sorted(b),
        forall|x: usize| a.contains(x) <==> b.contains(x),
    ensures
        a =~= b,
    decreases a.len(),
{
    if a.len() == 0 {
        if b.len() > 0 {
            assert(b.contains(b[0]));
            assert(false);
        }
    } else if b.len() == 0 {
        assert(a.contains(a[0]));
        assert(false);
    } else {
        // The largest members agree.
        let la = a.last();
        let lb = b.last();
        assert(a.contains(la) && b.contains(lb));
        let ia = choose|i: int| 0 <= i < a.len() && a[i] == lb;
        let ib = choose|i: int| 0 <= i < b.len() && b[i] == la;
        assert(a[ia] == lb && b[ib] == la);
        assert(lb <= la) by {
            if ia < a.len() - 1 {
                assert(a[ia] < a[a.len() - 1]);
            }
        }
        assert(la <= lb) by {
            if ib < b.len() - 1 {
                assert(b[ib] < b[b.len() - 1]);
            }
        }
        assert(la == lb);
        assert(forall|x: usize| a.drop_last().contains(x) <==> b.drop_last().contains(x)) by {
            assert forall|x: usize| a.drop_last().contains(x) implies b.drop_last().contains(x) by {
                let i = choose|i: int| 0 <= i < a.drop_last().len() && a.drop_last()[i] == x;
                assert(a[i] == x);
                assert(x < la);
                assert(a.contains(x));
                let j = choose|j: int| 0 <= j < b.len() && b[j] == x;
                assert(j < b.len() - 1) by {
                    if j == b.len() - 1 {
                        assert(b[j] == lb);
                        assert(false);
                    }
                }
                assert(b.drop_last()[j] == x);
            }
            assert forall|x: usize| b.drop_last().contains(x) implies a.drop_last().contains(x) by {
                let i = choose|i: int| 0 <= i < b.drop_last().len() && b.drop_last()[i] == x;
                assert(b[i] == x);
                assert(x < lb);
                assert(b.contains(x));
                let j = choose|j: int| 0 <= j < a.len() && a[j] == x;
                assert(j < a.len() - 1) by {
                    if j == a.len() - 1 {
                        assert(a[j] == la);
                        assert(false);
                    }
                }
                assert(a.drop_last()[j] == x);
            }
        }
        assert(strictly_sorted(a.drop_last())) by {
            assert(forall|i: int, j: int|
                0 <= i < j < a.drop_last().len() ==> a.drop_last()[i] < a.drop_last()[j]);
        }
        assert(strictly_sorted(b.drop_last())) by {
            assert(forall|i: int, j: int|
                0 <= i < j < b.drop_last().len() ==> b.drop_last()[i] < b.drop_last()[j]);
        }
        lemma_sorted_same_members(a.drop_last(), b.drop_last());
        assert(a =~= a.drop_last().push(la));
        assert(b =~= b.drop_last().push(lb));
    }
}

/// `s` with the first occurrence of `x` taken out, if there is one.
pub open spec fn remove_value(s: Seq<usize>, x: usize) -> Seq<usize>
    decreases s.len(),
{
    if s.len() == 0 {
        s
    } else if s.first() == x {
        s.drop_first()
    } else {
        seq![s.first()] + remove_value(s.drop_first(), x)
    }
}

pub proof fn lemma_remove_value_absent(s: Seq<usize>, x: usize)
    requires
        !s.contains(x),
    ensures
        remove_value(s, x) == s,
    decreases s.len(),
{
    if s.len() > 0 {
        assert(s[0] != x);
        assert(forall|j: int| 0 <= j < s.drop_first().len() ==> s.drop_first()[j] == s[j + 1]);
        assert(!s.drop_first().contains(x)) by {
            if s.drop_first().contains(x) {
                let j = choose|j: int| 0 <= j < s.drop_first().len() && s.drop_first()[j] == x;
                assert(s[j + 1] == x);
                assert(false);
            }
        }
        lemma_remove_value_absent(s.drop_first(), x);
        assert(seq![s.first()] + s.drop_first() =~= s);
    }
}

/// Taking out the first occurrence, named by its index.
pub proof fn lemma_remove_value_first(s: Seq<usize>, x: usize, i: int)
    requires
        0 <= i < s.len(),
        s[i] == x,
        forall|j: int| 0 <= j < i ==> s[j] != x,
    ensures
        remove_value(s, x) == s.remove(i),
    decreases i,
{
    if i == 0 {
        assert(s.first() == x);
        assert(s.drop_first() =~= s.remove(0));
    } else {
        assert(s.first() != x);
        let t = s.drop_first();
        assert(forall|j: int| 0 <= j < t.len() ==> t[j] == s[j + 1]);
        lemma_remove_value_first(t, x, i - 1);
        assert(seq![s.first()] + t.remove(i - 1) =~= s.remove(i));
    }
}

/// What removal does to a duplicate-free sequence.
pub proof fn lemma_remove_value_nodup(s: Seq<usize>, x: usize)
    requires
        nodup(s),
    ensures
        nodup(remove_value(s, x)),
        forall|y: usize| remove_value(s, x).contains(y) <==> s.contains(y) && y != x,
        remove_value(s, x).len() == s.len() - if s.contains(x) {
            1int
        } else {
            0int
        },
    decreases s.len(),
{
    let r = remove_value(s, x);
    if s.len() == 0 {
        assert(forall|y: usize| !s.contains(y));
    } else if s.first() == x {
        assert(s.contains(x)) by {
            assert(s[0] == x);
        }
        let t = s.drop_first();
        assert(forall|j: int| 0 <= j < t.len() ==> t[j] == s[j + 1]);
        assert(nodup(t));
        assert forall|y: usize| t.contains(y) implies s.contains(y) && y != x by {
            let j = choose|j: int| 0 <= j < t.len() && t[j] == y;
            assert(s[j + 1] == y);
            assert(y != x);
        }
        assert forall|y: usize| s.contains(y) && y != x implies t.contains(y) by {
            let j = choose|j: int| 0 <= j < s.len() && s[j] == y;
            assert(j != 0);
            assert(t[j - 1] == y);
        }
    } else {
        let t = s.drop_first();
        assert(forall|j: int| 0 <= j < t.len() ==> t[j] == s[j + 1]);
        assert(nodup(t));
        lemma_remove_value_nodup(t, x);
        let rt = remove_value(t, x);
        assert(r == seq![s.first()] + rt);
        assert(s.contains(x) <==> t.contains(x)) by {
            if s.contains(x) {
                let j = choose|j: int| 0 <= j < s.len() && s[j] == x;
                assert(j != 0);
                assert(t[j - 1] == x);
            }
            if t.contains(x) {
                let j = choose|j: int| 0 <= j < t.len() && t[j] == x;
                assert(s[j + 1] == x);
            }
        }
        assert forall|y: usize| r.contains(y) implies s.contains(y) && y != x by {
            let j = choose|j: int| 0 <= j < r.len() && r[j] == y;
            if j == 0 {
                assert(y == s.first());
                assert(s[0] == y);
                assert(y != x);
            } else {
                assert(rt[j - 1] == y);
                assert(rt.contains(y));
                assert(t.contains(y) && y != x);
            }
        }
        assert forall|y: usize| s.contains(y) && y != x implies r.contains(y) by {
            let j = choose|j: int| 0 <= j < s.len() && s[j] == y;
            if j == 0 {
                assert(r[0] == y);
            } else {
                assert(t[j - 1] == y);
                assert(t.contains(y));
                assert(rt.contains(y));
                let jj = choose|jj: int| 0 <= jj < rt.len() && rt[jj] == y;
                assert(r[jj + 1] == y);
            }
        }
        assert(!t.contains(s.first())) by {
            if t.contains(s.first()) {
                let j = choose|j: int| 0 <= j < t.len() && t[j] == s.first();
                assert(s[j + 1] == s[0]);
                assert(false);
            }
        }
        assert(nodup(r)) by {
            assert forall|a: int, b: int| 0 <= a < b < r.len() implies r[a] != r[b] by {
                if a == 0 {
                    assert(r[b] == rt[b - 1]);
                    assert(rt.contains(rt[b - 1]));
                    assert(t.contains(rt[b - 1]));
                } else {
                    assert(r[a] == rt[a - 1] && r[b] == rt[b - 1]);
                }
            }
        }
    }
}

/// Two duplicate-free sequences whose members differ by exactly one value
/// differ by one in length.
pub proof fn lemma_nodup_remove_len(a: Seq<usize>, b: Seq<usize>, x: usize)
    requires
        nodup(a),
        nodup(b),
        a.contains(x),
        forall|y: usize| b.contains(y) <==> a.contains(y) && y != x,
    ensures
        b.len() == a.len() - 1,
{
    broadcast use vstd::set_lib::group_set_lib_default, vstd::set::group_set_axioms;

    assert(a.no_duplicates()) by {
        assert(forall|i: int, j: int|
            0 <= i < a.len() && 0 <= j < a.len() && i != j ==> a[i] != a[j]);
    }
    assert(b.no_duplicates()) by {
        assert(forall|i: int, j: int|
            0 <= i < b.len() && 0 <= j < b.len() && i != j ==> b[i] != b[j]);
    }
    a.unique_seq_to_set();
    b.unique_seq_to_set();
    assert(b.to_set() =~= a.to_set().remove(x));
    vstd::seq_lib::seq_to_set_is_finite(a);
    assert(a.to_set().remove(x).len() == a.to_set().len() - 1);
}

/// A sequence with no set entries has none to count.
pub proof fn lemma_count_ones_zero(s: Seq<bool>)
    requires
        forall|i: int| 0 <= i < s.len() ==> !s[i],
    ensures
        count_ones(s) == 0,
    decreases s.len(),
{
    if s.len() > 0 {
        assert(forall|i: int| 0 <= i < s.drop_last().len() ==> s.drop_last()[i] == s[i]);
        lemma_count_ones_zero(s.drop_last());
        assert(!s.last()) by {
            assert(s.last() == s[s.len() - 1]);
        }
    }
}

pub proof fn lemma_count_ones_update(s: Seq<bool>, i: int, b: bool)
    requires
        0 <= i < s.len(),
    ensures
        count_ones(s.update(i, b)) == count_ones(s) - (if s[i] {
            1int
        } else {
            0int
        }) + (if b {
            1int
        } else {
            0int
        }),
    decreases s.len(),
{
    let s2 = s.update(i, b);
    if i == s.len() - 1 {
        assert(s2.drop_last() =~= s.drop_last());
        assert(s2.last() == b);
        assert(s.last() == s[i]);
    } else {
        assert(s2.drop_last() =~= s.drop_last().update(i, b));
        lemma_count_ones_update(s.drop_last(), i, b);
        assert(s.drop_last()[i] == s[i]);
        assert(s2.last() == s.last());
    }
}

pub proof fn lemma_push_contains(s: Seq<usize>, t: usize)
    ensures
        forall|y: usize| s.push(t).contains(y) <==> s.contains(y) || y == t,
{
    assert forall|y: usize| s.push(t).contains(y) <==> s.contains(y) || y == t by {
        let s2 = s.push(t);
        if s2.contains(y) {
            let i = choose|i: int| 0 <= i < s2.len() && s2[i] == y;
            if i < s.len() {
                assert(s[i] == y);
            }
        }
        if s.contains(y) {
            let i = choose|i: int| 0 <= i < s.len() && s[i] == y;
            assert(s2[i] == y);
        }
        if y == t {
            assert(s2[s.len() as int] == t);
        }
    }
}

pub open spec fn trues(n: nat) -> Seq<bool> {
    Seq::new(n, |i: int| true)
}

pub proof fn lemma_count_ones_trues(n: nat)
    ensures
        count_ones(trues(n)) == n,
    decreases n,
{
    if n > 0 {
        assert(trues(n).drop_last() =~= trues((n - 1) as nat));
        lemma_count_ones_trues((n - 1) as nat);
    }
}

} // verus!
