use vstd::prelude::*;

use crate::graph::{count_true, lemma_count_true_clear, Graph};

verus! {

/// The breadth-first shortest-path structure from one source: the reached
/// nodes farthest first, the predecessors of each node on its shortest
/// paths, and each node's distance (`None` where it was not reached).
pub struct ShortestPathData {
    pub order: Vec<usize>,
    pub predecessors: Vec<Vec<usize>>,
    pub distance: Vec<Option<usize>>,
}

/// The factor `numerator / denominator` that turns accumulated betweenness
/// sums into the reported scores.
pub struct Scale {
    pub numerator: u128,
    pub denominator: u128,
}

/// The scaling policy, as a fraction: normalized scores divide by the number
/// of ordered pairs of distinct nodes (with endpoints) or of distinct other
/// nodes (without); unnormalized undirected scores are halved, since each
/// path is found from both of its ends.
pub open spec fn scale_spec(n: int, normalized: bool, directed: bool, endpoints: bool) -> (int, int) {
    if normalized {
        if endpoints {
            if n < 2 {
                (1, 1)
            } else {
                (1, n * (n - 1))
            }
        } else if n <= 2 {
            (1, 1)
        } else {
            (1, (n - 1) * (n - 2))
        }
    } else if !directed {
        (1, 2)
    } else {
        (1, 1)
    }
}

/// The factor applied to every score of a graph with `node_count` nodes.
pub fn rescale_factor(node_count: usize, normalized: bool, directed: bool, endpoints: bool) -> (r: Scale)
    ensures
        (r.numerator as int, r.denominator as int) == scale_spec(node_count as int, normalized, directed, endpoints),
{
    let n = node_count as u128;
    if normalized {
        if endpoints {
            if n < 2 {
                Scale { numerator: 1, denominator: 1 }
            } else {
                assert(n * (n - 1) <= u128::MAX) by (nonlinear_arith)
                    requires n <= usize::MAX, usize::MAX <= u64::MAX, n >= 2;
                Scale { numerator: 1, denominator: n * (n - 1) }
            }
        } else if n <= 2 {
            Scale { numerator: 1, denominator: 1 }
        } else {
            assert((n - 1) * (n - 2) <= u128::MAX) by (nonlinear_arith)
                requires n <= usize::MAX, usize::MAX <= u64::MAX, n > 2;
            Scale { numerator: 1, denominator: (n - 1) * (n - 2) }
        }
    } else if !directed {
        Scale { numerator: 1, denominator: 2 }
    } else {
        Scale { numerator: 1, denominator: 1 }
    }
}

impl Scale {
    /// Whether the factor is one, so that scaling changes nothing.
    pub fn is_identity(&self) -> (r: bool)
        ensures
            r == (self.numerator == self.denominator),
    {
        self.numerator == self.denominator
    }
}

/// Scaling twice by a factor of the policy is scaling once exactly when the
/// factor is one.
pub proof fn lemma_rescale_twice(n: int, normalized: bool, directed: bool, endpoints: bool)
    requires
        n >= 0,
    ensures
        ({
            let (a, b) = scale_spec(n, normalized, directed, endpoints);
            &&& a > 0
            &&& b > 0
            &&& (forall|x: int| #[trigger] (x * a * a * b) == x * a * b * b) <==> a == b
        }),
{
    let (a, b) = scale_spec(n, normalized, directed, endpoints);
    if normalized && endpoints && n >= 2 {
        assert(n * (n - 1) > 0) by (nonlinear_arith) requires n >= 2;
    }
    if normalized && !endpoints && n > 2 {
        assert((n - 1) * (n - 2) > 0) by (nonlinear_arith) requires n > 2;
    }
    if a != b {
        assert(1 * a * a * b != 1 * a * b * b) by (nonlinear_arith) requires a > 0, b > 0, a != b;
    } else {
        assert forall|x: int| #[trigger] (x * a * a * b) == x * a * b * b by {}
    }
}

/// Distance recorded for `x`.
pub open spec fn dist(d: Seq<Option<usize>>, x: usize) -> int {
    d[x as int].unwrap() as int
}

/// Whether the edges from `x` to `w` have been looked at: all the edges of
/// the first `done` nodes of `q`, and the first `k` entries of `list`,
/// which holds the heads of the edges of `v`.
spec fn scanned(
    g: &Graph,
    q: Seq<usize>,
    done: int,
    v: usize,
    list: Seq<usize>,
    k: int,
    x: usize,
    w: usize,
) -> bool {
    (q.subrange(0, done).contains(x) && g.arc(x as int, w as int)) || (x == v && list.subrange(
        0,
        k,
    ).contains(w) && g.is_live(w as int))
}

/// How many of the looked-at edges go from `x` to `w`.
spec fn scanned_count(
    g: &Graph,
    q: Seq<usize>,
    done: int,
    v: usize,
    list: Seq<usize>,
    k: int,
    x: usize,
    w: usize,
) -> nat {
    if q.subrange(0, done).contains(x) && g.is_live(x as int) && g.is_live(w as int) {
        g.out_seq(x as int).to_multiset().count(w)
    } else if x == v && g.is_live(w as int) {
        list.subrange(0, k).to_multiset().count(w)
    } else {
        0
    }
}

/// `q[j]` was reached by an edge from a node processed before it.
spec fn has_parent(g: &Graph, d: Seq<Option<usize>>, q: Seq<usize>, done: int, j: int) -> bool {
    exists|i: int| 0 <= i <= done && i < j && #[trigger] g.arc(q[i] as int, q[j] as int) && dist(d, q[j]) == dist(d, q[i]) + 1
}

/// Which distances are still unknown.
spec fn unknown(d: Seq<Option<usize>>) -> Seq<bool> {
    d.map_values(|o: Option<usize>| o.is_none())
}

spec fn search_state(
    g: &Graph,
    s: usize,
    d: Seq<Option<usize>>,
    q: Seq<usize>,
    p: Seq<Vec<usize>>,
    done: int,
    v: usize,
    list: Seq<usize>,
    k: int,
) -> bool {
    &&& d.len() == g.bound()
    &&& p.len() == g.bound()
    &&& 0 <= done < q.len() || (done == q.len() && k == 0)
    &&& 0 <= k <= list.len()
    &&& q.len() > 0
    &&& q[0] == s
    &&& q.no_duplicates()
    &&& forall|j: int| 0 <= j < q.len() ==> g.is_live(#[trigger] q[j] as int)
    &&& forall|x: int| 0 <= x < g.bound() ==> (#[trigger] d[x].is_some() <==> q.contains(x as usize))
    &&& d[s as int] == Some(0usize)
    &&& forall|i: int, j: int| 0 <= i <= j < q.len() ==> dist(d, #[trigger] q[i]) <= dist(d, #[trigger] q[j])
    &&& done < q.len() ==> forall|j: int| 0 <= j < q.len() ==> dist(d, #[trigger] q[j]) <= dist(d, q[done]) + 1
    &&& forall|j: int| 0 <= j < q.len() ==> dist(d, #[trigger] q[j]) <= j
    &&& forall|j: int| 0 < j < q.len() ==> #[trigger] has_parent(g, d, q, done, j)
    &&& forall|w: usize, x: usize| w < g.bound() ==> (#[trigger] p[w as int]@.contains(x) <==> (scanned(g, q, done, v, list, k, x, w)
        && d[w as int].is_some() && dist(d, w) == dist(d, x) + 1))
    &&& forall|w: usize, x: usize| #[trigger] scanned(g, q, done, v, list, k, x, w) ==> d[w as int].is_some() && dist(d, w) <= dist(d, x) + 1
    &&& forall|w: usize, x: usize| w < g.bound() ==> #[trigger] p[w as int]@.to_multiset().count(x) == if d[w as int].is_some()
        && dist(d, w) == dist(d, x) + 1 { scanned_count(g, q, done, v, list, k, x, w) } else { 0 }
}

proof fn lemma_prefix_count(l: Seq<usize>, k: int)
    requires
        0 <= k < l.len(),
    ensures
        forall|y: usize| #[trigger] l.subrange(0, k + 1).to_multiset().count(y) == l.subrange(0, k).to_multiset().count(y)
            + if y == l[k] { 1nat } else { 0nat },
{
    assert(l.subrange(0, k + 1) =~= l.subrange(0, k).push(l[k]));
    l.subrange(0, k).to_multiset_ensures();
}

proof fn lemma_empty_count(l: Seq<usize>)
    ensures
        forall|y: usize| #[trigger] l.subrange(0, 0).to_multiset().count(y) == 0,
{
    let e = l.subrange(0, 0);
    e.to_multiset_ensures();
    assert forall|y: usize| #[trigger] e.to_multiset().count(y) == 0 by {
        assert(!e.contains(y));
    }
}

/// Looking at no entry of the current list is looking at the edges of the
/// first `done` nodes only.
proof fn lemma_scanned_none(g: &Graph, q: Seq<usize>, done: int, v1: usize, l1: Seq<usize>, v2: usize, l2: Seq<usize>)
    requires
        0 <= done <= q.len(),
    ensures
        forall|x: usize, w: usize|
            #![trigger scanned(g, q, done, v1, l1, 0, x, w)]
            #![trigger scanned(g, q, done, v2, l2, 0, x, w)]
            scanned(g, q, done, v1, l1, 0, x, w) == scanned(g, q, done, v2, l2, 0, x, w),
        forall|x: usize, w: usize|
            #![trigger scanned_count(g, q, done, v1, l1, 0, x, w)]
            #![trigger scanned_count(g, q, done, v2, l2, 0, x, w)]
            scanned_count(g, q, done, v1, l1, 0, x, w) == scanned_count(g, q, done, v2, l2, 0, x, w),
{
    assert(l1.subrange(0, 0) =~= Seq::<usize>::empty());
    assert(l2.subrange(0, 0) =~= Seq::<usize>::empty());
    lemma_empty_count(l1);
    lemma_empty_count(l2);
}

/// Having looked at every edge of `q[done]` is having looked at the edges of
/// the first `done + 1` nodes.
proof fn lemma_scanned_next(g: &Graph, q: Seq<usize>, done: int, v2: usize, l2: Seq<usize>)
    requires
        0 <= done < q.len(),
        g.is_live(q[done] as int),
    ensures
        forall|x: usize, w: usize|
            #![trigger scanned(g, q, done, q[done], g.out_seq(q[done] as int), g.out_seq(q[done] as int).len() as int, x, w)]
            #![trigger scanned(g, q, done + 1, v2, l2, 0, x, w)]
            scanned(g, q, done, q[done], g.out_seq(q[done] as int), g.out_seq(q[done] as int).len() as int, x, w)
            == scanned(g, q, done + 1, v2, l2, 0, x, w),
{
    let v = q[done];
    let l = g.out_seq(v as int);
    assert(l.subrange(0, l.len() as int) =~= l);
    assert(l2.subrange(0, 0) =~= Seq::<usize>::empty());
    assert(q.subrange(0, done + 1) =~= q.subrange(0, done).push(v));
    assert forall|x: usize, w: usize| #[trigger] scanned(g, q, done, v, l, l.len() as int, x, w)
        == scanned(g, q, done + 1, v2, l2, 0, x, w) by {
        if q.subrange(0, done + 1).contains(x) && x != v {
            let i = choose|i: int| 0 <= i < done + 1 && #[trigger] q.subrange(0, done + 1)[i] == x;
            assert(q.subrange(0, done)[i] == x);
        }
        if q.subrange(0, done).contains(x) {
            let i = choose|i: int| 0 <= i < done && #[trigger] q.subrange(0, done)[i] == x;
            assert(q.subrange(0, done + 1)[i] == x);
        }
        if x == v {
            assert(q.subrange(0, done + 1)[done] == x);
        }
    }
}

proof fn lemma_prefix_push(l: Seq<usize>, k: int)
    requires
        0 <= k < l.len(),
    ensures
        forall|y: usize| #[trigger] l.subrange(0, k + 1).contains(y) <==> (l.subrange(0, k).contains(y) || y == l[k]),
{
    assert(l.subrange(0, k + 1) =~= l.subrange(0, k).push(l[k]));
    assert forall|y: usize| #[trigger] l.subrange(0, k + 1).contains(y) <==> (l.subrange(0, k).contains(y) || y == l[k]) by {
        let t = l.subrange(0, k + 1);
        let u = l.subrange(0, k);
        if t.contains(y) {
            let i = choose|i: int| 0 <= i < t.len() && t[i] == y;
            if i < k {
                assert(u[i] == y);
            }
        }
        if u.contains(y) {
            let i = choose|i: int| 0 <= i < u.len() && u[i] == y;
            assert(t[i] == y);
        }
        if y == l[k] {
            assert(t[k] == y);
        }
    }
}

/// An entry of the current list that names a removed node changes nothing.
proof fn lemma_skip_entry(
    g: &Graph,
    s: usize,
    d: Seq<Option<usize>>,
    q: Seq<usize>,
    p: Seq<Vec<usize>>,
    done: int,
    v: usize,
    list: Seq<usize>,
    k: int,
)
    requires
        search_state(g, s, d, q, p, done, v, list, k),
        done < q.len(),
        k < list.len(),
        !g.is_live(list[k] as int),
    ensures
        search_state(g, s, d, q, p, done, v, list, k + 1),
{
    lemma_prefix_push(list, k);
    assert forall|x: usize, w: usize|
        #![trigger scanned(g, q, done, v, list, k, x, w)]
        #![trigger scanned(g, q, done, v, list, k + 1, x, w)]
        scanned(g, q, done, v, list, k, x, w) == scanned(g, q, done, v, list, k + 1, x, w) by {}
    lemma_prefix_count(list, k);
    assert forall|x: usize, w: usize|
        #![trigger scanned_count(g, q, done, v, list, k, x, w)]
        #![trigger scanned_count(g, q, done, v, list, k + 1, x, w)]
        scanned_count(g, q, done, v, list, k, x, w) == scanned_count(g, q, done, v, list, k + 1, x, w) by {
        if w == list[k] {
            assert(!g.is_live(w as int));
        }
    }
}

/// Reaching the unknown node `w` from `v`: it gets the next distance and
/// joins the queue.
proof fn lemma_discover(
    g: &Graph,
    s: usize,
    d0: Seq<Option<usize>>,
    q0: Seq<usize>,
    p: Seq<Vec<usize>>,
    done: int,
    v: usize,
    list: Seq<usize>,
    k: int,
    w: usize,
    d1: Seq<Option<usize>>,
    q1: Seq<usize>,
)
    requires
        g.wf(),
        search_state(g, s, d0, q0, p, done, v, list, k),
        done < q0.len(),
        v == q0[done],
        list == g.out_seq(v as int),
        k < list.len(),
        w == list[k],
        g.is_live(w as int),
        d0[w as int].is_none(),
        d1 == d0.update(w as int, Some((dist(d0, v) + 1) as usize)),
        dist(d0, v) + 1 <= usize::MAX,
        q1 == q0.push(w),
    ensures
        search_state(g, s, d1, q1, p, done, v, list, k),
        dist(d1, v) == dist(d0, v),
        dist(d1, w) == dist(d0, v) + 1,
{
    g.lemma_wf();
    assert(d0[w as int].is_some() <==> q0.contains(w));
    assert(!q0.contains(w));
    assert(q0.contains(v)) by { assert(q0[done] == v); }
    assert(g.is_live(v as int));
    assert(list.contains(w)) by { assert(list[k] == w); }
    assert(g.arc(v as int, w as int));
    let n = q0.len() as int;
    assert(q1[n] == w);
    assert forall|j: int| 0 <= j < q0.len() implies #[trigger] q1[j] == q0[j] && q0[j] != w && dist(d1, q1[j]) == dist(d0, q0[j]) by {
        assert(q0.contains(q0[j]));
    }
    assert forall|x: int| 0 <= x < g.bound() implies (#[trigger] d1[x].is_some() <==> q1.contains(x as usize)) by {
        if x == w as int {
            assert(q1[n] == w);
        } else if q1.contains(x as usize) {
            let j = choose|j: int| 0 <= j < q1.len() && q1[j] == x as usize;
            assert(q0[j] == x as usize);
        } else if d0[x].is_some() {
            let j = choose|j: int| 0 <= j < q0.len() && q0[j] == x as usize;
            assert(q1[j] == x as usize);
        }
    }
    assert forall|i: int, j: int| 0 <= i <= j < q1.len() implies dist(d1, #[trigger] q1[i]) <= dist(d1, #[trigger] q1[j]) by {
        if j == n && i < n {
            assert(dist(d0, q0[i]) <= dist(d0, q0[done]) + 1);
        } else if j < n {
            assert(dist(d0, q0[i]) <= dist(d0, q0[j]));
        }
    }
    assert forall|j: int| 0 <= j < q1.len() implies dist(d1, #[trigger] q1[j]) <= dist(d1, q1[done]) + 1 by {
        if j < n {
            assert(dist(d0, q0[j]) <= dist(d0, q0[done]) + 1);
        }
    }
    assert forall|j: int| 0 <= j < q1.len() implies dist(d1, #[trigger] q1[j]) <= j by {
        if j < n {
            assert(dist(d0, q0[j]) <= j);
        } else {
            assert(dist(d0, q0[done]) <= done);
        }
    }
    assert forall|j: int| 0 < j < q1.len() implies #[trigger] has_parent(g, d1, q1, done, j) by {
        if j < n {
            assert(has_parent(g, d0, q0, done, j));
            let i = choose|i: int| 0 <= i <= done && i < j && #[trigger] g.arc(q0[i] as int, q0[j] as int) && dist(d0, q0[j]) == dist(d0, q0[i]) + 1;
            assert(g.arc(q1[i] as int, q1[j] as int));
        } else {
            assert(g.arc(q1[done] as int, q1[j] as int));
        }
    }
    assert forall|x: usize, y: usize| #[trigger] scanned(g, q1, done, v, list, k, x, y) == scanned(g, q0, done, v, list, k, x, y) by {
        assert(q1.subrange(0, done) =~= q0.subrange(0, done));
    }
    assert forall|x: usize, y: usize| #[trigger] scanned(g, q0, done, v, list, k, x, y) implies x != w by {
        if q0.subrange(0, done).contains(x) {
            let i = choose|i: int| 0 <= i < done && #[trigger] q0.subrange(0, done)[i] == x;
            assert(q0[i] == x);
            assert(q0.contains(x));
        }
    }
    assert forall|y: usize, x: usize| y < g.bound() implies (#[trigger] p[y as int]@.contains(x) <==> (scanned(g, q1, done, v, list, k, x, y)
        && d1[y as int].is_some() && dist(d1, y) == dist(d1, x) + 1)) by {
        if scanned(g, q0, done, v, list, k, x, y) {
            assert(d0[y as int].is_some());
            assert(d0[x as int].is_some()) by {
                if q0.subrange(0, done).contains(x) {
                    let i = choose|i: int| 0 <= i < done && #[trigger] q0.subrange(0, done)[i] == x;
                    assert(q0[i] == x);
                    assert(q0.contains(x));
                }
            }
        }
    }
    assert forall|x: usize, y: usize| #[trigger] scanned(g, q1, done, v, list, k, x, y) implies d1[y as int].is_some() && dist(d1, y) <= dist(d1, x) + 1 by {
        assert(scanned(g, q0, done, v, list, k, x, y));
        assert(d0[y as int].is_some());
    }
    assert forall|x: usize, y: usize| #[trigger] scanned_count(g, q1, done, v, list, k, x, y) == scanned_count(g, q0, done, v, list, k, x, y) by {
        assert(q1.subrange(0, done) =~= q0.subrange(0, done));
    }
    assert forall|y: usize, x: usize| y < g.bound() implies #[trigger] p[y as int]@.to_multiset().count(x) == if d1[y as int].is_some()
        && dist(d1, y) == dist(d1, x) + 1 { scanned_count(g, q1, done, v, list, k, x, y) } else { 0 } by {
        assert(p[y as int]@.to_multiset().count(x) == if d0[y as int].is_some()
            && dist(d0, y) == dist(d0, x) + 1 { scanned_count(g, q0, done, v, list, k, x, y) } else { 0 });
        if scanned_count(g, q0, done, v, list, k, x, y) > 0 {
            if q0.subrange(0, done).contains(x) && g.is_live(x as int) && g.is_live(y as int) {
                g.out_seq(x as int).to_multiset_ensures();
            } else {
                list.subrange(0, k).to_multiset_ensures();
            }
            assert(scanned(g, q0, done, v, list, k, x, y));
            assert(d0[y as int].is_some());
            assert(x != w);
        }
        if x == w {
            assert(!q0.subrange(0, done).contains(w)) by {
                if q0.subrange(0, done).contains(w) {
                    let i = choose|i: int| 0 <= i < done && #[trigger] q0.subrange(0, done)[i] == w;
                    assert(q0[i] == w);
                }
            }
            assert(w != v);
        }
    }
}

/// Recording `v` as a predecessor of the known node `w` when `w` lies one
/// step farther than `v`.
proof fn lemma_record(
    g: &Graph,
    s: usize,
    d: Seq<Option<usize>>,
    q: Seq<usize>,
    p: Seq<Vec<usize>>,
    done: int,
    v: usize,
    list: Seq<usize>,
    k: int,
    w: usize,
    p2: Seq<Vec<usize>>,
)
    requires
        g.wf(),
        search_state(g, s, d, q, p, done, v, list, k),
        done < q.len(),
        v == q[done],
        k < list.len(),
        w == list[k],
        g.is_live(w as int),
        q.contains(w),
        p2.len() == p.len(),
        forall|i: int| 0 <= i < p.len() && i != w ==> p2[i] == p[i],
        p2[w as int]@ == if dist(d, w) == dist(d, v) + 1 { p[w as int]@.push(v) } else { p[w as int]@ },
    ensures
        search_state(g, s, d, q, p2, done, v, list, k + 1),
{
    g.lemma_wf();
    lemma_prefix_push(list, k);
    let jw = choose|j: int| 0 <= j < q.len() && q[j] == w;
    assert(dist(d, q[jw]) <= dist(d, q[done]) + 1);
    assert(d[w as int].is_some());
    assert forall|x: usize, y: usize| #[trigger] scanned(g, q, done, v, list, k + 1, x, y) implies d[y as int].is_some() && dist(d, y) <= dist(d, x) + 1 by {
        if !scanned(g, q, done, v, list, k, x, y) {
            assert(x == v && y == w);
        }
    }
    assert forall|y: usize, x: usize| y < g.bound() implies (#[trigger] p2[y as int]@.contains(x) <==> (scanned(g, q, done, v, list, k + 1, x, y)
        && d[y as int].is_some() && dist(d, y) == dist(d, x) + 1)) by {
        if y == w {
            assert(p[y as int]@.contains(x) <==> (scanned(g, q, done, v, list, k, x, y)
                && d[y as int].is_some() && dist(d, y) == dist(d, x) + 1));
            if dist(d, w) == dist(d, v) + 1 {
                assert(p2[y as int]@ == p[y as int]@.push(v));
                assert(p2[y as int]@.contains(x) <==> (p[y as int]@.contains(x) || x == v)) by {
                    let t = p[y as int]@;
                    if p2[y as int]@.contains(x) {
                        let i = choose|i: int| 0 <= i < t.len() + 1 && p2[y as int]@[i] == x;
                        if i < t.len() {
                            assert(t[i] == x);
                        }
                    }
                    if t.contains(x) {
                        let i = choose|i: int| 0 <= i < t.len() && t[i] == x;
                        assert(p2[y as int]@[i] == x);
                    }
                    if x == v {
                        assert(p2[y as int]@[t.len() as int] == x);
                    }
                }
            }
        } else {
            assert(p2[y as int] == p[y as int]);
        }
    }
    lemma_prefix_count(list, k);
    assert forall|y: usize, x: usize| y < g.bound() implies #[trigger] p2[y as int]@.to_multiset().count(x) == if d[y as int].is_some()
        && dist(d, y) == dist(d, x) + 1 { scanned_count(g, q, done, v, list, k + 1, x, y) } else { 0 } by {
        assert(p[y as int]@.to_multiset().count(x) == if d[y as int].is_some()
            && dist(d, y) == dist(d, x) + 1 { scanned_count(g, q, done, v, list, k, x, y) } else { 0 });
        assert(!q.subrange(0, done).contains(v)) by {
            if q.subrange(0, done).contains(v) {
                let i = choose|i: int| 0 <= i < done && #[trigger] q.subrange(0, done)[i] == v;
                assert(q[i] == v);
            }
        }
        if y == w {
            if dist(d, w) == dist(d, v) + 1 {
                p[y as int]@.to_multiset_ensures();
                assert(p2[y as int]@ == p[y as int]@.push(v));
            }
        } else {
            assert(p2[y as int] == p[y as int]);
        }
    }
}

/// All edges of `q[done]` have been looked at: move on to the next node.
proof fn lemma_next_node(
    g: &Graph,
    s: usize,
    d: Seq<Option<usize>>,
    q: Seq<usize>,
    p: Seq<Vec<usize>>,
    done: int,
    l2: Seq<usize>,
)
    requires
        g.wf(),
        done < q.len(),
        search_state(g, s, d, q, p, done, q[done], g.out_seq(q[done] as int), g.out_seq(q[done] as int).len() as int),
    ensures
        search_state(g, s, d, q, p, done + 1, s, l2, 0),
{
    assert(g.is_live(q[done] as int));
    lemma_scanned_next(g, q, done, s, l2);
    let v = q[done];
    let l = g.out_seq(v as int);
    assert forall|j: int| 0 < j < q.len() implies #[trigger] has_parent(g, d, q, done + 1, j) by {
        assert(has_parent(g, d, q, done, j));
        let i = choose|i: int| 0 <= i <= done && i < j && #[trigger] g.arc(q[i] as int, q[j] as int) && dist(d, q[j]) == dist(d, q[i]) + 1;
    }
    if done + 1 < q.len() {
        assert forall|j: int| 0 <= j < q.len() implies dist(d, #[trigger] q[j]) <= dist(d, q[done + 1]) + 1 by {
            assert(dist(d, q[j]) <= dist(d, q[done]) + 1);
            assert(dist(d, q[done]) <= dist(d, q[done + 1]));
        }
    }
    assert forall|y: usize, x: usize| y < g.bound() implies (#[trigger] p[y as int]@.contains(x) <==> (scanned(g, q, done + 1, s, l2, 0, x, y)
        && d[y as int].is_some() && dist(d, y) == dist(d, x) + 1)) by {
        assert(scanned(g, q, done, v, l, l.len() as int, x, y) == scanned(g, q, done + 1, s, l2, 0, x, y));
    }
    assert forall|x: usize, y: usize| #[trigger] scanned(g, q, done + 1, s, l2, 0, x, y) implies d[y as int].is_some() && dist(d, y) <= dist(d, x) + 1 by {
        assert(scanned(g, q, done, v, l, l.len() as int, x, y) == scanned(g, q, done + 1, s, l2, 0, x, y));
    }
    lemma_empty_count(l2);
    assert(l.subrange(0, l.len() as int) =~= l);
    assert(q.subrange(0, done + 1) =~= q.subrange(0, done).push(v));
    assert(!q.subrange(0, done).contains(v)) by {
        if q.subrange(0, done).contains(v) {
            let i = choose|i: int| 0 <= i < done && #[trigger] q.subrange(0, done)[i] == v;
            assert(q[i] == v);
        }
    }
    assert forall|x: usize, y: usize| #[trigger] scanned_count(g, q, done + 1, s, l2, 0, x, y) == scanned_count(g, q, done, v, l, l.len() as int, x, y) by {
        assert(q.subrange(0, done + 1).contains(x) <==> (q.subrange(0, done).contains(x) || x == v)) by {
            if q.subrange(0, done + 1).contains(x) && x != v {
                let i = choose|i: int| 0 <= i < done + 1 && #[trigger] q.subrange(0, done + 1)[i] == x;
                assert(q.subrange(0, done)[i] == x);
            }
            if q.subrange(0, done).contains(x) {
                let i = choose|i: int| 0 <= i < done && #[trigger] q.subrange(0, done)[i] == x;
                assert(q.subrange(0, done + 1)[i] == x);
            }
            if x == v {
                assert(q.subrange(0, done + 1)[done] == x);
            }
        }
        if x == s && !q.subrange(0, done + 1).contains(x) {
            assert(q.subrange(0, done + 1)[0] == s);
        }
    }
    assert forall|y: usize, x: usize| y < g.bound() implies #[trigger] p[y as int]@.to_multiset().count(x) == if d[y as int].is_some()
        && dist(d, y) == dist(d, x) + 1 { scanned_count(g, q, done + 1, s, l2, 0, x, y) } else { 0 } by {
        assert(p[y as int]@.to_multiset().count(x) == if d[y as int].is_some()
            && dist(d, y) == dist(d, x) + 1 { scanned_count(g, q, done, v, l, l.len() as int, x, y) } else { 0 });
    }
}

/// Breadth-first search from `s` along edges in their direction (both ways
/// in an undirected graph).  Records each reached node's distance, the
/// predecessors of each node on its shortest paths, and the reached nodes
/// ordered farthest first, `s` last.
pub fn shortest_path_for_centrality(g: &Graph, s: usize) -> (r: ShortestPathData)
    requires
        g.wf(),
        g.is_live(s as int),
    ensures
        r.distance@.len() == g.bound(),
        r.predecessors@.len() == g.bound(),
        r.order@.len() > 0,
        r.order@.last() == s,
        r.order@.no_duplicates(),
        forall|j: int| 0 <= j < r.order@.len() ==> g.is_live(#[trigger] r.order@[j] as int),
        r.distance@[s as int] == Some(0usize),
        forall|x: int| 0 <= x < g.bound() ==> (#[trigger] r.distance@[x].is_some() <==> r.order@.contains(x as usize)),
        forall|i: int, j: int| 0 <= i <= j < r.order@.len() ==> dist(r.distance@, #[trigger] r.order@[i]) >= dist(r.distance@, #[trigger] r.order@[j]),
        forall|v: usize, w: usize| #[trigger] g.arc(v as int, w as int) && r.distance@[v as int].is_some() ==> r.distance@[w as int].is_some()
            && dist(r.distance@, w) <= dist(r.distance@, v) + 1,
        forall|w: usize, v: usize| w < g.bound() ==> (#[trigger] r.predecessors@[w as int]@.contains(v) <==> (g.arc(v as int, w as int)
            && r.distance@[v as int].is_some() && r.distance@[w as int].is_some() && dist(r.distance@, w) == dist(r.distance@, v) + 1)),
        forall|w: usize| #[trigger] r.order@.contains(w) && w != s ==> r.predecessors@[w as int]@.len() > 0,
        forall|w: usize, v: usize| w < g.bound() ==> #[trigger] r.predecessors@[w as int]@.to_multiset().count(v) == if g.arc(
            v as int,
            w as int,
        ) && r.distance@[v as int].is_some() && r.distance@[w as int].is_some() && dist(r.distance@, w) == dist(
            r.distance@,
            v,
        ) + 1 {
            g.out_seq(v as int).to_multiset().count(w)
        } else {
            0
        },
{
    let n = g.node_bound();
    let mut distance: Vec<Option<usize>> = vec![None; n];
    let mut predecessors: Vec<Vec<usize>> = Vec::new();
    let mut i: usize = 0;
    while i < n
        invariant
            i <= n,
            predecessors@.len() == i,
            forall|j: int| 0 <= j < i ==> (#[trigger] predecessors@[j])@ == Seq::<usize>::empty(),
        decreases n - i,
    {
        predecessors.push(Vec::new());
        i = i + 1;
    }
    distance.set(s, Some(0));
    let mut queue: Vec<usize> = Vec::new();
    queue.push(s);
    let ghost empty = Seq::<usize>::empty();
    proof {
        g.lemma_wf();
        assert forall|x: int| 0 <= x < g.bound() implies (#[trigger] distance@[x].is_some() <==> queue@.contains(x as usize)) by {
            if x == s {
                assert(queue@[0] == s);
            } else if queue@.contains(x as usize) {
                let j = choose|j: int| 0 <= j < queue@.len() && queue@[j] == x as usize;
            }
        }
        assert forall|w: usize, x: usize| w < g.bound() implies (#[trigger] predecessors@[w as int]@.contains(x) <==> (scanned(g, queue@, 0, s, empty, 0, x, w)
            && distance@[w as int].is_some() && dist(distance@, w) == dist(distance@, x) + 1)) by {
            assert(queue@.subrange(0, 0) =~= empty);
            assert(empty.subrange(0, 0) =~= empty);
        }
        assert forall|w: usize, x: usize| #[trigger] scanned(g, queue@, 0, s, empty, 0, x, w) implies distance@[w as int].is_some() && dist(distance@, w) <= dist(distance@, x) + 1 by {
            assert(queue@.subrange(0, 0) =~= empty);
            assert(empty.subrange(0, 0) =~= empty);
        }
        lemma_empty_count(empty);
        assert forall|w: usize, x: usize| w < g.bound() implies #[trigger] predecessors@[w as int]@.to_multiset().count(x) == if distance@[w as int].is_some()
            && dist(distance@, w) == dist(distance@, x) + 1 { scanned_count(g, queue@, 0, s, empty, 0, x, w) } else { 0 } by {
            assert(queue@.subrange(0, 0) =~= empty);
            predecessors@[w as int]@.to_multiset_ensures();
            assert(!predecessors@[w as int]@.contains(x));
        }
    }
    let mut head: usize = 0;
    while head < queue.len()
        invariant
            g.wf(),
            g.is_live(s as int),
            search_state(g, s, distance@, queue@, predecessors@, head as int, s, empty, 0),
        decreases count_true(unknown(distance@)) + queue@.len() - head,
    {
        let v = queue[head];
        let dv = match distance[v] {
            Some(x) => x,
            None => 0,
        };
        proof {
            assert(queue@.contains(v)) by { assert(queue@[head as int] == v); }
            assert(distance@[v as int].is_some());
            assert(dv == dist(distance@, v));
            lemma_scanned_none(g, queue@, head as int, s, empty, v, g.out_seq(v as int));
        }
        proof {
            assert(dv <= head);
        }
        let list = g.out_neighbors(v);
        let ghost measure = count_true(unknown(distance@)) + queue@.len();
        let mut k: usize = 0;
        while k < list.len()
            invariant
                g.wf(),
                g.is_live(s as int),
                head < queue@.len(),
                v == queue@[head as int],
                dv == dist(distance@, v),
                dv <= head,
                head < usize::MAX,
                list@ == g.out_seq(v as int),
                search_state(g, s, distance@, queue@, predecessors@, head as int, v, list@, k as int),
                count_true(unknown(distance@)) + queue@.len() == measure,
            decreases list@.len() - k,
        {
            let w = list[k];
            let ghost d0 = distance@;
            let ghost q0 = queue@;
            let ghost p0 = predecessors@;
            proof {
                lemma_prefix_push(list@, k as int);
                assert(list@.contains(w));
            }
            if g.contains_node(w) {
                if distance[w].is_none() {
                    proof {
                        assert(unknown(distance@)[w as int]);
                        lemma_count_true_clear(unknown(distance@), w as int);
                        assert(unknown(distance@.update(w as int, Some((dv + 1) as usize))) =~= unknown(distance@).update(w as int, false));
                    }
                    distance.set(w, Some(dv + 1));
                    queue.push(w);
                    proof {
                        lemma_discover(g, s, d0, q0, p0, head as int, v, list@, k as int, w, distance@, queue@);
                    }
                }
                let dw = match distance[w] {
                    Some(x) => x,
                    None => 0,
                };
                let ghost d1 = distance@;
                let ghost q1 = queue@;
                let ghost p1 = predecessors@;
                proof {
                    assert(queue@.contains(w)) by {
                        if !q0.contains(w) {
                            assert(queue@[queue@.len() - 1] == w);
                        }
                    }
                    assert(dw == dist(distance@, w));
                }
                if dw == dv + 1 {
                    predecessors[w].push(v);
                }
                proof {
                    lemma_record(g, s, d1, q1, p1, head as int, v, list@, k as int, w, predecessors@);
                }
            } else {
                proof {
                    lemma_skip_entry(g, s, distance@, queue@, predecessors@, head as int, v, list@, k as int);
                }
            }
            k = k + 1;
        }
        proof {
            lemma_next_node(g, s, distance@, queue@, predecessors@, head as int, empty);
        }
        head = head + 1;
    }
    let mut order: Vec<usize> = Vec::new();
    let mut j: usize = queue.len();
    while j > 0
        invariant
            j <= queue@.len(),
            order@ == queue@.subrange(j as int, queue@.len() as int).reverse(),
        decreases j,
    {
        j = j - 1;
        order.push(queue[j]);
    }
    proof {
        let q = queue@;
        assert(order@ =~= q.reverse()) by {
            assert(q.subrange(0, q.len() as int) =~= q);
        }
        assert(q.subrange(0, q.len() as int) =~= q);
        assert forall|x: int| 0 <= x < g.bound() implies (#[trigger] distance@[x].is_some() <==> order@.contains(x as usize)) by {
            if q.contains(x as usize) {
                let j = choose|j: int| 0 <= j < q.len() && q[j] == x as usize;
                assert(order@[q.len() - 1 - j] == x as usize);
            }
            if order@.contains(x as usize) {
                let j = choose|j: int| 0 <= j < order@.len() && order@[j] == x as usize;
                assert(q[q.len() - 1 - j] == x as usize);
            }
        }
        assert forall|v: usize, w: usize| #[trigger] g.arc(v as int, w as int) && distance@[v as int].is_some() implies distance@[w as int].is_some()
            && dist(distance@, w) <= dist(distance@, v) + 1 by {
            assert(q.contains(v));
            assert(scanned(g, q, q.len() as int, s, empty, 0, v, w));
        }
        assert forall|j: int| 0 <= j < order@.len() implies g.is_live(#[trigger] order@[j] as int) by {
            assert(order@[j] == q[q.len() - 1 - j]);
        }
        assert forall|w: usize| #[trigger] order@.contains(w) && w != s implies predecessors@[w as int]@.len() > 0 by {
            let j = choose|j: int| 0 <= j < order@.len() && order@[j] == w;
            let jq = q.len() - 1 - j;
            assert(q[jq] == w);
            assert(jq > 0);
            assert(has_parent(g, distance@, q, q.len() as int, jq));
            let i = choose|i: int| 0 <= i <= q.len() && i < jq && #[trigger] g.arc(q[i] as int, q[jq] as int)
                && dist(distance@, q[jq]) == dist(distance@, q[i]) + 1;
            assert(q.contains(q[i]));
            assert(scanned(g, q, q.len() as int, s, empty, 0, q[i], w));
            assert(predecessors@[w as int]@.contains(q[i]));
        }
        assert forall|w: usize, v: usize| w < g.bound() implies #[trigger] predecessors@[w as int]@.to_multiset().count(v) == if g.arc(
            v as int,
            w as int,
        ) && distance@[v as int].is_some() && distance@[w as int].is_some() && dist(distance@, w) == dist(
            distance@,
            v,
        ) + 1 {
            g.out_seq(v as int).to_multiset().count(w)
        } else {
            0
        } by {
            empty.subrange(0, 0).to_multiset_ensures();
            assert(empty.subrange(0, 0).to_multiset().count(w) == 0);
            assert(predecessors@[w as int]@.to_multiset().count(v) == if distance@[w as int].is_some()
                && dist(distance@, w) == dist(distance@, v) + 1 { scanned_count(g, q, q.len() as int, s, empty, 0, v, w) } else { 0 });
            if v < g.bound() {
                assert(distance@[v as int].is_some() <==> q.contains(v));
            } else if q.contains(v) {
                let j = choose|j: int| 0 <= j < q.len() && q[j] == v;
                assert(g.is_live(q[j] as int));
            }
            if q.contains(v) {
                let j = choose|j: int| 0 <= j < q.len() && q[j] == v;
                assert(g.is_live(q[j] as int));
            }
            g.out_seq(v as int).to_multiset_ensures();
        }
    }
    ShortestPathData { order, predecessors, distance }
}

} // verus!
