use vstd::prelude::*;

verus! {

/// Number of `true` entries in `s`.
pub open spec fn count_true(s: Seq<bool>) -> nat
    decreases s.len(),
{
    if s.len() == 0 {
        0
    } else {
        count_true(s.drop_last()) + if s.last() { 1nat } else { 0nat }
    }
}

pub proof fn lemma_count_true_bound(s: Seq<bool>)
    ensures
        count_true(s) <= s.len(),
    decreases s.len(),
{
    if s.len() > 0 {
        lemma_count_true_bound(s.drop_last());
    }
}

pub proof fn lemma_count_true_clear(s: Seq<bool>, i: int)
    requires
        0 <= i < s.len(),
        s[i],
    ensures
        count_true(s.update(i, false)) + 1 == count_true(s),
    decreases s.len(),
{
    let t = s.update(i, false);
    if i == s.len() - 1 {
        assert(t.drop_last() =~= s.drop_last());
    } else {
        assert(t.drop_last() =~= s.drop_last().update(i, false));
        lemma_count_true_clear(s.drop_last(), i);
    }
}

pub proof fn lemma_count_true_set(s: Seq<bool>, i: int)
    requires
        0 <= i < s.len(),
    ensures
        count_true(s.update(i, true)) == count_true(s) + if s[i] { 0nat } else { 1nat },
        count_true(s.update(i, true)) >= 1,
{
    let t = s.update(i, true);
    lemma_count_true_clear(t, i);
    if s[i] {
        assert(t =~= s);
    } else {
        assert(t.update(i, false) =~= s);
    }
}

/// A graph over dense node indices `0 .. node_bound()`.  Removing a node
/// leaves a hole at its index; the indices of the other nodes never change.
/// Edges are kept as outgoing and incoming adjacency lists; an edge of an
/// undirected graph is stored in both directions.
pub struct Graph {
    directed: bool,
    live: Vec<bool>,
    out: Vec<Vec<usize>>,
    inc: Vec<Vec<usize>>,
    count: usize,
}

impl Graph {
    pub closed spec fn directed_spec(&self) -> bool {
        self.directed
    }

    /// Which indices hold a node.
    pub closed spec fn live_seq(&self) -> Seq<bool> {
        self.live@
    }

    /// Heads of the edges leaving `u`, one entry per edge.
    pub closed spec fn out_seq(&self, u: int) -> Seq<usize> {
        self.out@[u]@
    }

    /// Tails of the edges entering `u`, one entry per edge.
    pub closed spec fn in_seq(&self, u: int) -> Seq<usize> {
        self.inc@[u]@
    }

    pub open spec fn bound(&self) -> nat {
        self.live_seq().len()
    }

    pub open spec fn is_live(&self, v: int) -> bool {
        0 <= v < self.bound() && self.live_seq()[v]
    }

    /// An edge from `u` to `v` between two live nodes.
    pub open spec fn arc(&self, u: int, v: int) -> bool {
        self.is_live(u) && self.is_live(v) && self.out_seq(u).contains(v as usize)
    }

    /// `u` and `v` are joined by an edge in either direction.
    pub open spec fn linked(&self, u: int, v: int) -> bool {
        self.is_live(u) && self.is_live(v) && (self.out_seq(u).contains(v as usize)
            || self.in_seq(u).contains(v as usize))
    }

    pub closed spec fn wf(&self) -> bool {
        &&& self.live@.len() <= usize::MAX
        &&& self.out@.len() == self.live@.len()
        &&& self.inc@.len() == self.live@.len()
        &&& forall|u: int, i: int|
            0 <= u < self.out@.len() && 0 <= i < self.out@[u]@.len() ==> self.out@[u]@[i]
                < self.live@.len()
        &&& forall|u: int, i: int|
            0 <= u < self.inc@.len() && 0 <= i < self.inc@[u]@.len() ==> self.inc@[u]@[i]
                < self.live@.len()
        &&& forall|u: int, v: int|
            0 <= u < self.live@.len() && 0 <= v < self.live@.len() ==> (
            #[trigger] self.out@[u]@.contains(v as usize) <==> #[trigger] self.inc@[v]@.contains(
                u as usize,
            ))
        &&& !self.directed ==> forall|u: int, v: int|
            0 <= u < self.live@.len() && 0 <= v < self.live@.len() && #[trigger] self.out@[u]@.contains(
                v as usize,
            ) ==> self.out@[v]@.contains(u as usize)
        &&& self.count == count_true(self.live@)
    }

    /// Facts about a well-formed graph that the traversals rely on.
    pub proof fn lemma_wf(&self)
        requires
            self.wf(),
        ensures
            self.bound() <= usize::MAX,
            forall|u: int, i: int|
                0 <= u < self.bound() && 0 <= i < self.out_seq(u).len() ==> self.out_seq(u)[i]
                    < self.bound(),
            forall|u: int, i: int|
                0 <= u < self.bound() && 0 <= i < self.in_seq(u).len() ==> self.in_seq(u)[i]
                    < self.bound(),
            forall|u: int, v: int| #[trigger] self.linked(u, v) ==> self.linked(v, u),
            forall|u: int, v: int| #[trigger] self.linked(u, v) <==> (self.arc(u, v) || self.arc(v, u)),
            !self.directed_spec() ==> forall|u: int, v: int| #[trigger]
                self.arc(u, v) ==> self.arc(v, u),
    {
        assert forall|u: int, v: int| #[trigger] self.linked(u, v) implies self.linked(v, u) by {
            assert(self.out@[u]@.contains(v as usize) <==> self.inc@[v]@.contains(u as usize));
            assert(self.out@[v]@.contains(u as usize) <==> self.inc@[u]@.contains(v as usize));
        }
        assert forall|u: int, v: int| #[trigger] self.linked(u, v) <==> (self.arc(u, v) || self.arc(v, u)) by {
            if 0 <= u < self.bound() && 0 <= v < self.bound() {
                assert(self.out@[v]@.contains(u as usize) <==> self.inc@[u]@.contains(v as usize));
            }
        }
        if !self.directed {
            assert forall|u: int, v: int| #[trigger] self.arc(u, v) implies self.arc(v, u) by {
                assert(self.out@[u]@.contains(v as usize));
            }
        }
    }

    /// An empty graph.
    pub fn new(directed: bool) -> (r: Graph)
        ensures
            r.wf(),
            r.bound() == 0,
            r.directed_spec() == directed,
    {
        Graph { directed, live: Vec::new(), out: Vec::new(), inc: Vec::new(), count: 0 }
    }

    /// Adds a node without edges at the next free index and returns that index.
    pub fn add_node(&mut self) -> (r: usize)
        requires
            old(self).wf(),
            old(self).bound() < usize::MAX,
        ensures
            final(self).wf(),
            r == old(self).bound(),
            final(self).live_seq() == old(self).live_seq().push(true),
            final(self).directed_spec() == old(self).directed_spec(),
            final(self).node_count_spec() == old(self).node_count_spec() + 1,
            forall|u: int| 0 <= u < old(self).bound() ==> final(self).out_seq(u) == old(self).out_seq(u)
                && final(self).in_seq(u) == old(self).in_seq(u),
            final(self).out_seq(r as int) == Seq::<usize>::empty(),
            final(self).in_seq(r as int) == Seq::<usize>::empty(),
    {
        let r = self.live.len();
        proof {
            lemma_count_true_bound(self.live@);
        }
        self.live.push(true);
        self.out.push(Vec::new());
        self.inc.push(Vec::new());
        self.count = self.count + 1;
        proof {
            assert(self.live@.drop_last() =~= old(self).live@);
            assert forall|u: int, v: int|
                0 <= u < self.live@.len() && 0 <= v < self.live@.len() implies (
                #[trigger] self.out@[u]@.contains(v as usize) <==> #[trigger] self.inc@[v]@.contains(
                    u as usize,
                )) by {
                if u < r && v < r {
                    assert(old(self).out@[u]@.contains(v as usize) <==> old(self).inc@[v]@.contains(
                        u as usize,
                    ));
                }
            }
            if !self.directed {
                assert forall|u: int, v: int|
                    0 <= u < self.live@.len() && 0 <= v < self.live@.len()
                        && #[trigger] self.out@[u]@.contains(v as usize) implies self.out@[v]@.contains(
                    u as usize,
                ) by {
                    let k = choose|k: int|
                        0 <= k < self.out@[u]@.len() && self.out@[u]@[k] == v as usize;
                    assert(self.out@[u]@[k] < self.live@.len());
                    assert(old(self).out@[u]@.contains(v as usize));
                }
            }
        }
        r
    }

    /// Adds an edge from `a` to `b`; in an undirected graph it joins them
    /// both ways.  Parallel edges are kept, one adjacency entry each.
    pub fn add_edge(&mut self, a: usize, b: usize)
        requires
            old(self).wf(),
            old(self).is_live(a as int),
            old(self).is_live(b as int),
        ensures
            final(self).wf(),
            final(self).live_seq() == old(self).live_seq(),
            final(self).directed_spec() == old(self).directed_spec(),
            forall|u: int, v: int|
                final(self).arc(u, v) <==> (old(self).arc(u, v) || (u == a && v == b) || (
                !old(self).directed_spec() && u == b && v == a)),
    {
        proof {
            self.lemma_wf();
        }
        self.out[a].push(b);
        self.inc[b].push(a);
        if !self.directed && a != b {
            self.out[b].push(a);
            self.inc[a].push(b);
        }
        proof {
            let o = old(self);
            let und = !o.directed && a != b;
            assert forall|u: int| 0 <= u < self.live@.len() implies self.out@[u]@ == (if u == a {
                o.out@[u]@.push(b)
            } else if und && u == b {
                o.out@[u]@.push(a)
            } else {
                o.out@[u]@
            }) && self.inc@[u]@ == (if u == b {
                o.inc@[u]@.push(a)
            } else if und && u == a {
                o.inc@[u]@.push(b)
            } else {
                o.inc@[u]@
            }) by {}
            assert forall|u: int, i: int|
                0 <= u < self.out@.len() && 0 <= i < self.out@[u]@.len() implies self.out@[u]@[i]
                < self.live@.len() by {
                if i < o.out@[u]@.len() {
                    assert(self.out@[u]@[i] == o.out@[u]@[i]);
                }
            }
            assert forall|u: int, i: int|
                0 <= u < self.inc@.len() && 0 <= i < self.inc@[u]@.len() implies self.inc@[u]@[i]
                < self.live@.len() by {
                if i < o.inc@[u]@.len() {
                    assert(self.inc@[u]@[i] == o.inc@[u]@[i]);
                }
            }
            assert forall|u: int, v: int|
                0 <= u < self.live@.len() && 0 <= v < self.live@.len() implies (
                #[trigger] self.out@[u]@.contains(v as usize) <==> #[trigger] self.inc@[v]@.contains(
                    u as usize,
                )) by {
                assert(o.out@[u]@.contains(v as usize) <==> o.inc@[v]@.contains(u as usize));
                Self::lemma_push_contains(o.out@[u]@, if u == a { b } else { a });
                Self::lemma_push_contains(o.inc@[v]@, if v == b { a } else { b });
                if u == a {
                    assert(self.out@[u]@ == o.out@[u]@.push(b));
                } else if und && u == b {
                    assert(self.out@[u]@ == o.out@[u]@.push(a));
                } else {
                    assert(self.out@[u]@ == o.out@[u]@);
                }
                if v == b {
                    assert(self.inc@[v]@ == o.inc@[v]@.push(a));
                } else if und && v == a {
                    assert(self.inc@[v]@ == o.inc@[v]@.push(b));
                } else {
                    assert(self.inc@[v]@ == o.inc@[v]@);
                }
            }
            assert forall|u: int, v: int|
                #![trigger self.out@[u]@.contains(v as usize)]
                (0 <= u < self.live@.len() && 0 <= v < self.live@.len()) implies (self.out@[u]@.contains(v as usize)
                <==> (o.out@[u]@.contains(v as usize) || (u == a && v == b) || (!o.directed && u == b
                && v == a))) by {
                Self::lemma_push_contains(o.out@[u]@, if u == a { b } else { a });
                if u == a {
                    assert(self.out@[u]@ == o.out@[u]@.push(b));
                } else if und && u == b {
                    assert(self.out@[u]@ == o.out@[u]@.push(a));
                } else {
                    assert(self.out@[u]@ == o.out@[u]@);
                }
            }
            if !self.directed {
                assert forall|u: int, v: int|
                    0 <= u < self.live@.len() && 0 <= v < self.live@.len()
                        && #[trigger] self.out@[u]@.contains(v as usize) implies self.out@[v]@.contains(
                    u as usize,
                ) by {
                    Self::lemma_push_contains(o.out@[u]@, if u == a { b } else { a });
                    Self::lemma_push_contains(o.out@[v]@, if v == a { b } else { a });
                    if o.out@[u]@.contains(v as usize) {
                        assert(o.out@[v]@.contains(u as usize));
                    }
                }
            }
        }
    }

    proof fn lemma_push_contains(s: Seq<usize>, x: usize)
        ensures
            forall|y: usize| #[trigger] s.push(x).contains(y) <==> (s.contains(y) || y == x),
    {
        let t = s.push(x);
        assert forall|y: usize| #[trigger] t.contains(y) <==> (s.contains(y) || y == x) by {
            if t.contains(y) {
                let k = choose|k: int| 0 <= k < t.len() && t[k] == y;
                if k < s.len() {
                    assert(s[k] == y);
                }
            }
            if s.contains(y) {
                let k = choose|k: int| 0 <= k < s.len() && s[k] == y;
                assert(t[k] == y);
            }
            if y == x {
                assert(t[t.len() - 1] == y);
            }
        }
    }

    /// Removes node `i`, leaving a hole at its index.  Its edges go with it.
    pub fn remove_node(&mut self, i: usize)
        requires
            old(self).wf(),
            old(self).is_live(i as int),
        ensures
            final(self).wf(),
            final(self).live_seq() == old(self).live_seq().update(i as int, false),
            final(self).directed_spec() == old(self).directed_spec(),
            final(self).node_count_spec() + 1 == old(self).node_count_spec(),
            forall|u: int, v: int|
                final(self).arc(u, v) <==> (old(self).arc(u, v) && u != i && v != i),
            forall|u: int, v: int|
                final(self).linked(u, v) <==> (old(self).linked(u, v) && u != i && v != i),
    {
        proof {
            lemma_count_true_clear(self.live@, i as int);
        }
        self.live.set(i, false);
        self.count = self.count - 1;
    }

    /// Number of indices handed out so far, holes included.
    pub fn node_bound(&self) -> (r: usize)
        requires
            self.wf(),
        ensures
            r == self.bound(),
    {
        self.live.len()
    }

    /// Number of live nodes.
    pub fn node_count(&self) -> (r: usize)
        requires
            self.wf(),
        ensures
            r == self.node_count_spec(),
    {
        self.count
    }

    pub fn is_directed(&self) -> (r: bool)
        ensures
            r == self.directed_spec(),
    {
        self.directed
    }

    /// Whether index `i` holds a node.
    pub fn contains_node(&self, i: usize) -> (r: bool)
        requires
            self.wf(),
        ensures
            r == self.is_live(i as int),
    {
        i < self.live.len() && self.live[i]
    }

    /// The indices of the live nodes, in increasing order.
    pub fn node_identifiers(&self) -> (r: Vec<usize>)
        requires
            self.wf(),
        ensures
            forall|i: int, j: int| 0 <= i < j < r@.len() ==> r@[i] < r@[j],
            forall|x: usize| #[trigger] r@.contains(x) <==> self.is_live(x as int),
    {
        let mut r: Vec<usize> = Vec::new();
        let mut i: usize = 0;
        while i < self.live.len()
            invariant
                self.wf(),
                i <= self.live@.len(),
                forall|a: int, b: int| 0 <= a < b < r@.len() ==> r@[a] < r@[b],
                forall|a: int| 0 <= a < r@.len() ==> #[trigger] r@[a] < i,
                forall|x: usize| #[trigger] r@.contains(x) <==> (x < i && self.is_live(x as int)),
            decreases self.live@.len() - i,
        {
            if self.live[i] {
                let ghost r0 = r@;
                r.push(i);
                proof {
                    assert forall|x: usize| #[trigger] r@.contains(x) <==> (x < i + 1 && self.is_live(x as int)) by {
                        if r@.contains(x) && x != i {
                            let k = choose|k: int| 0 <= k < r@.len() && r@[k] == x;
                            assert(r0[k] == x);
                        }
                        if r0.contains(x) {
                            let k = choose|k: int| 0 <= k < r0.len() && r0[k] == x;
                            assert(r@[k] == x);
                        }
                        if x == i {
                            assert(r@[r0.len() as int] == x);
                        }
                    }
                }
            }
            i = i + 1;
        }
        r
    }

    /// Adjacency entries of the edges leaving `u` (to live or removed nodes).
    pub fn out_neighbors(&self, u: usize) -> (r: &Vec<usize>)
        requires
            self.wf(),
            u < self.bound(),
        ensures
            r@ == self.out_seq(u as int),
    {
        &self.out[u]
    }

    /// Adjacency entries of the edges entering `u` (from live or removed nodes).
    pub fn in_neighbors(&self, u: usize) -> (r: &Vec<usize>)
        requires
            self.wf(),
            u < self.bound(),
        ensures
            r@ == self.in_seq(u as int),
    {
        &self.inc[u]
    }

    /// Number of live nodes.
    pub open spec fn node_count_spec(&self) -> nat {
        count_true(self.live_seq())
    }
}

} // verus!
