//! Paths, reachability and acyclicity over a set of directed edges.
use vstd::prelude::*;
use vstd::set_lib::{lemma_int_range, lemma_len_subset, set_int_range};

verus! {

/// `p` is a walk along `es`: at least one node, each step an edge.
pub open spec fn is_path(es: Set<(int, int)>, p: Seq<int>) -> bool {
    &&& p.len() >= 1
    &&& forall|i: int| 0 <= i < p.len() - 1 ==> #[trigger] es.contains((p[i], p[i + 1]))
}

/// There is a walk (possibly of length zero) from `a` to `b`.
pub open spec fn reaches(es: Set<(int, int)>, a: int, b: int) -> bool {
    exists|p: Seq<int>| #[trigger] is_path(es, p) && p[0] == a && p.last() == b
}

/// No walk with at least one edge returns to its start.
pub open spec fn acyclic(es: Set<(int, int)>) -> bool {
    forall|p: Seq<int>| is_path(es, p) && p.len() > 1 ==> p[0] != p.last()
}

pub proof fn lemma_reaches_refl(es: Set<(int, int)>, a: int)
    ensures
        reaches(es, a, a),
{
    let p = seq![a];
    assert(is_path(es, p) && p[0] == a && p.last() == a);
}

/// Appending an edge to a walk.
pub proof fn lemma_reaches_step(es: Set<(int, int)>, a: int, b: int, c: int)
    requires
        reaches(es, a, b),
        es.contains((b, c)),
    ensures
        reaches(es, a, c),
{
    let p = choose|p: Seq<int>| is_path(es, p) && p[0] == a && p.last() == b;
    let q = p.push(c);
    assert forall|i: int| 0 <= i < q.len() - 1 implies #[trigger] es.contains((q[i], q[i + 1])) by {
        if i < p.len() - 1 {
            assert(q[i] == p[i] && q[i + 1] == p[i + 1]);
        } else {
            assert(q[i] == b && q[i + 1] == c);
        }
    }
    assert(is_path(es, q) && q[0] == a && q.last() == c);
}

/// Prepending an edge to a walk.
pub proof fn lemma_reaches_prepend(es: Set<(int, int)>, a: int, b: int, c: int)
    requires
        es.contains((a, b)),
        reaches(es, b, c),
    ensures
        reaches(es, a, c),
{
    let p = choose|p: Seq<int>| is_path(es, p) && p[0] == b && p.last() == c;
    let q = seq![a] + p;
    assert forall|i: int| 0 <= i < q.len() - 1 implies #[trigger] es.contains((q[i], q[i + 1])) by {
        if i == 0 {
            assert(q[0] == a && q[1] == p[0] && q[0int + 1] == p[0]);
        } else {
            assert(q[i] == p[i - 1] && q[i + 1] == p[(i - 1) + 1]);
            assert(es.contains((p[i - 1], p[(i - 1) + 1])));
        }
    }
    assert(is_path(es, q) && q[0] == a && q.last() == c);
}

/// Reachability is transitive.
pub proof fn lemma_reaches_trans(es: Set<(int, int)>, a: int, b: int, c: int)
    requires
        reaches(es, a, b),
        reaches(es, b, c),
    ensures
        reaches(es, a, c),
{
    let p = choose|p: Seq<int>| is_path(es, p) && p[0] == a && p.last() == b;
    let q = choose|q: Seq<int>| is_path(es, q) && q[0] == b && q.last() == c;
    let r = p + q.drop_first();
    assert forall|i: int| 0 <= i < r.len() - 1 implies #[trigger] es.contains((r[i], r[i + 1])) by {
        if i < p.len() - 1 {
            assert(r[i] == p[i] && r[i + 1] == p[i + 1]);
        } else {
            let k = i - (p.len() - 1);
            assert(r[i] == q[k] && r[i + 1] == q[k + 1]);
        }
    }
    assert(is_path(es, r) && r[0] == a && r.last() == c);
}

/// A walk along fewer edges is a walk along more.
pub proof fn lemma_path_subset(es: Set<(int, int)>, fs: Set<(int, int)>, p: Seq<int>)
    requires
        is_path(es, p),
        es.subset_of(fs),
    ensures
        is_path(fs, p),
{
    assert forall|i: int| 0 <= i < p.len() - 1 implies #[trigger] fs.contains((p[i], p[i + 1])) by {
        assert(es.contains((p[i], p[i + 1])));
    }
}

/// Removing edges keeps a graph acyclic.
pub proof fn lemma_acyclic_subset(es: Set<(int, int)>, fs: Set<(int, int)>)
    requires
        acyclic(fs),
        es.subset_of(fs),
    ensures
        acyclic(es),
{
    assert forall|p: Seq<int>| is_path(es, p) && p.len() > 1 implies p[0] != p.last() by {
        lemma_path_subset(es, fs, p);
    }
}

pub open spec fn uses_edge(p: Seq<int>, a: int, b: int) -> bool {
    exists|k: int| 0 <= k < p.len() - 1 && #[trigger] p[k] == a && p[k + 1] == b
}

/// A walk along `es + (a, b)` that takes the new edge ends at something reachable from `b`
/// along `es` alone (the part after its last use of the new edge).
proof fn lemma_suffix_after_new_edge(es: Set<(int, int)>, a: int, b: int, p: Seq<int>)
    requires
        is_path(es.insert((a, b)), p),
        uses_edge(p, a, b),
    ensures
        reaches(es, b, p.last()),
    decreases p.len(),
{
    let n = p.len();
    let q = p.drop_last();
    if p[n - 2] == a && p[n - 1] == b {
        lemma_reaches_refl(es, b);
    } else {
        assert(es.insert((a, b)).contains((p[n - 2], p[(n - 2) + 1])));
        assert(es.contains((p[n - 2], p[n - 1])));
        let k = choose|k: int| 0 <= k < p.len() - 1 && #[trigger] p[k] == a && p[k + 1] == b;
        assert(k < n - 2);
        assert(q[k] == a && q[k + 1] == b);
        assert(uses_edge(q, a, b));
        assert forall|i: int| 0 <= i < q.len() - 1 implies #[trigger] es.insert((a, b)).contains((q[i], q[i + 1])) by {
            assert(q[i] == p[i] && q[i + 1] == p[i + 1]);
        }
        lemma_suffix_after_new_edge(es, a, b, q);
        lemma_reaches_step(es, b, p[n - 2], p[n - 1]);
    }
}

/// A walk along `es + (a, b)` that takes the new edge starts at something from which `a`
/// is reachable along `es` alone (the part before its first use of the new edge).
proof fn lemma_prefix_before_new_edge(es: Set<(int, int)>, a: int, b: int, p: Seq<int>)
    requires
        is_path(es.insert((a, b)), p),
        uses_edge(p, a, b),
    ensures
        reaches(es, p[0], a),
    decreases p.len(),
{
    let q = p.drop_first();
    if p[0] == a && p[1] == b {
        lemma_reaches_refl(es, a);
    } else {
        assert(es.insert((a, b)).contains((p[0], p[0int + 1])));
        assert(es.contains((p[0], p[1])));
        let k = choose|k: int| 0 <= k < p.len() - 1 && #[trigger] p[k] == a && p[k + 1] == b;
        assert(k > 0);
        assert(q[k - 1] == a && q[k] == b);
        assert(uses_edge(q, a, b));
        assert forall|i: int| 0 <= i < q.len() - 1 implies #[trigger] es.insert((a, b)).contains((q[i], q[i + 1])) by {
            assert(q[i] == p[i + 1] && q[i + 1] == p[i + 2]);
        }
        lemma_prefix_before_new_edge(es, a, b, q);
        lemma_reaches_prepend(es, p[0], p[1], a);
    }
}

/// Adding an edge `(a, b)` keeps a graph acyclic when `a` is not reachable from `b`.
pub proof fn lemma_add_edge_acyclic(es: Set<(int, int)>, a: int, b: int)
    requires
        acyclic(es),
        !reaches(es, b, a),
    ensures
        acyclic(es.insert((a, b))),
{
    let fs = es.insert((a, b));
    assert forall|p: Seq<int>| is_path(fs, p) && p.len() > 1 implies p[0] != p.last() by {
        if p[0] == p.last() {
            if uses_edge(p, a, b) {
                lemma_suffix_after_new_edge(es, a, b, p);
                lemma_prefix_before_new_edge(es, a, b, p);
                lemma_reaches_trans(es, b, p[0], a);
            } else {
                assert forall|i: int| 0 <= i < p.len() - 1 implies #[trigger] es.contains((p[i], p[i + 1])) by {
                    assert(fs.contains((p[i], p[i + 1])));
                    if p[i] == a && p[i + 1] == b {
                        assert(uses_edge(p, a, b));
                    }
                }
                assert(is_path(es, p));
            }
        }
    }
}

/// Every node of a walk that starts in a set closed under successors stays in the set.
proof fn lemma_path_stays_in_closed(es: Set<(int, int)>, cs: Set<int>, p: Seq<int>, k: int)
    requires
        is_path(es, p),
        cs.contains(p[0]),
        forall|u: int, w: int| #[trigger] es.contains((u, w)) && cs.contains(u) ==> cs.contains(w),
        0 <= k < p.len(),
    ensures
        cs.contains(p[k]),
    decreases k,
{
    if k > 0 {
        lemma_path_stays_in_closed(es, cs, p, k - 1);
        assert(es.contains((p[k - 1], p[(k - 1) + 1])));
    }
}

/// Nothing outside a set closed under successors is reachable from inside it.
pub proof fn lemma_closed_unreachable(es: Set<(int, int)>, cs: Set<int>, a: int, b: int)
    requires
        cs.contains(a),
        !cs.contains(b),
        forall|u: int, w: int| #[trigger] es.contains((u, w)) && cs.contains(u) ==> cs.contains(w),
    ensures
        !reaches(es, a, b),
{
    assert forall|p: Seq<int>| #[trigger] is_path(es, p) && p[0] == a implies p.last() != b by {
        lemma_path_stays_in_closed(es, cs, p, p.len() - 1);
    }
}

/// A walk of `k` backward steps inside `rs`, each node having a predecessor in `rs`.
pub open spec fn back_walk(es: Set<(int, int)>, rs: Set<int>, v: int, k: nat) -> Seq<int>
    decreases k,
{
    if k == 0 {
        seq![v]
    } else {
        let u = choose|u: int| rs.contains(u) && es.contains((u, v));
        back_walk(es, rs, u, (k - 1) as nat).push(v)
    }
}

proof fn lemma_back_walk(es: Set<(int, int)>, rs: Set<int>, v: int, k: nat)
    requires
        rs.contains(v),
        forall|x: int| #[trigger] rs.contains(x) ==> exists|u: int| rs.contains(u) && es.contains((u, x)),
    ensures
        is_path(es, back_walk(es, rs, v, k)),
        back_walk(es, rs, v, k).len() == k + 1,
        back_walk(es, rs, v, k).last() == v,
        forall|i: int| 0 <= i < k + 1 ==> rs.contains(#[trigger] back_walk(es, rs, v, k)[i]),
    decreases k,
{
    if k > 0 {
        let u = choose|u: int| rs.contains(u) && es.contains((u, v));
        lemma_back_walk(es, rs, u, (k - 1) as nat);
        let w = back_walk(es, rs, u, (k - 1) as nat);
        let q = w.push(v);
        assert(q == back_walk(es, rs, v, k));
        assert forall|i: int| 0 <= i < q.len() - 1 implies #[trigger] es.contains((q[i], q[i + 1])) by {
            if i < w.len() - 1 {
                assert(q[i] == w[i] && q[i + 1] == w[i + 1]);
            } else {
                assert(q[i] == u && q[i + 1] == v);
            }
        }
        assert forall|i: int| 0 <= i < k + 1 implies rs.contains(#[trigger] q[i]) by {
            if i < k {
                assert(q[i] == w[i]);
            }
        }
    }
}

/// More than `n` values drawn from `0..n` repeat one.
pub proof fn lemma_pigeonhole(s: Seq<int>, n: int)
    requires
        0 <= n < s.len(),
        forall|i: int| 0 <= i < s.len() ==> 0 <= #[trigger] s[i] < n,
    ensures
        !s.no_duplicates(),
{
    if s.no_duplicates() {
        s.unique_seq_to_set();
        lemma_int_range(0, n);
        assert(s.to_set().subset_of(set_int_range(0, n)));
        lemma_len_subset(s.to_set(), set_int_range(0, n));
    }
}

/// If every node of a nonempty set of nodes below `n` has a predecessor in the set, the
/// graph has a cycle.
pub proof fn lemma_closed_set_has_cycle(es: Set<(int, int)>, rs: Set<int>, v: int, n: nat)
    requires
        rs.contains(v),
        forall|x: int| #[trigger] rs.contains(x) ==> 0 <= x < n,
        forall|x: int| #[trigger] rs.contains(x) ==> exists|u: int| rs.contains(u) && es.contains((u, x)),
    ensures
        !acyclic(es),
{
    let w = back_walk(es, rs, v, n);
    lemma_back_walk(es, rs, v, n);
    assert forall|i: int| 0 <= i < w.len() implies 0 <= #[trigger] w[i] < n by {
        assert(rs.contains(w[i]));
    }
    lemma_pigeonhole(w, n as int);
    let (i, j) = choose|i: int, j: int|
        0 <= i < w.len() && 0 <= j < w.len() && i != j && w[i] == w[j];
    let lo = if i < j { i } else { j };
    let hi = if i < j { j } else { i };
    let c = w.subrange(lo, hi + 1);
    assert forall|k: int| 0 <= k < c.len() - 1 implies #[trigger] es.contains((c[k], c[k + 1])) by {
        assert(c[k] == w[lo + k] && c[k + 1] == w[lo + k + 1]);
    }
    assert(is_path(es, c) && c.len() > 1 && c[0] == c.last());
}

} // verus!
