use vstd::prelude::*;

use crate::graph::{count_true, lemma_count_true_bound, lemma_count_true_set, Graph};

verus! {

/// A sequence of live nodes, each joined to the next by an edge in either
/// direction.
pub open spec fn is_walk(g: &Graph, p: Seq<usize>) -> bool {
    &&& p.len() > 0
    &&& g.is_live(p[0] as int)
    &&& forall|i: int| 0 <= i < p.len() - 1 ==> #[trigger] g.linked(p[i] as int, p[i + 1] as int)
}

/// `v` can be reached from `u` when edge directions are ignored.
pub open spec fn connected(g: &Graph, u: int, v: int) -> bool {
    exists|p: Seq<usize>| #[trigger] is_walk(g, p) && p[0] == u && p.last() == v
}

/// No node of `p` after the first is marked in `marked`.
pub open spec fn avoids(p: Seq<usize>, marked: Seq<bool>) -> bool {
    forall|i: int| 0 < i < p.len() ==> !marked[#[trigger] p[i] as int]
}

/// `v` can be reached from `u`, edge directions ignored, through nodes that
/// are not marked in `marked` (`u` itself may be marked).
pub open spec fn reaches_unmarked(g: &Graph, u: int, v: int, marked: Seq<bool>) -> bool {
    exists|p: Seq<usize>| #[trigger] is_walk(g, p) && avoids(p, marked) && p[0] == u && p.last() == v
}

/// No edge leaves the node list `c`.
pub open spec fn closed(g: &Graph, c: Seq<usize>) -> bool {
    forall|x: usize, y: usize| #[trigger] c.contains(x) && #[trigger] g.linked(x as int, y as int)
        ==> c.contains(y)
}

proof fn lemma_walk_push(g: &Graph, p: Seq<usize>, y: usize)
    requires
        is_walk(g, p),
        g.linked(p.last() as int, y as int),
    ensures
        is_walk(g, p.push(y)),
        p.push(y)[0] == p[0],
        p.push(y).last() == y,
{
    let q = p.push(y);
    assert forall|i: int| 0 <= i < q.len() - 1 implies #[trigger] g.linked(q[i] as int, q[i + 1] as int) by {
        if i < p.len() - 1 {
            assert(g.linked(p[i] as int, p[i + 1] as int));
        }
    }
}

/// A walk that starts inside a closed node list stays inside it.
proof fn lemma_walk_stays(g: &Graph, c: Seq<usize>, p: Seq<usize>)
    requires
        is_walk(g, p),
        closed(g, c),
        c.contains(p[0]),
    ensures
        c.contains(p.last()),
    decreases p.len(),
{
    if p.len() > 1 {
        let q = p.drop_last();
        assert forall|i: int| 0 <= i < q.len() - 1 implies #[trigger] g.linked(q[i] as int, q[i + 1] as int) by {
            assert(g.linked(p[i] as int, p[i + 1] as int));
        }
        lemma_walk_stays(g, c, q);
        let i = p.len() - 2;
        assert(g.linked(p[i] as int, p[i + 1] as int));
    }
}

/// A walk through unmarked nodes that starts in `r` stays in `r`, when every
/// neighbour of `r` ends up marked in `fin` or in `r`.
proof fn lemma_unmarked_walk_stays(g: &Graph, r: Seq<usize>, before: Seq<bool>, fin: Seq<bool>, p: Seq<usize>)
    requires
        g.wf(),
        fin.len() == g.bound(),
        is_walk(g, p),
        avoids(p, before),
        r.contains(p[0]),
        forall|x: int| 0 <= x < g.bound() ==> (fin[x] <==> (before[x] || r.contains(x as usize))),
        forall|x: usize, y: usize| #[trigger] r.contains(x) && #[trigger] g.linked(x as int, y as int) ==> fin[y as int],
    ensures
        r.contains(p.last()),
    decreases p.len(),
{
    g.lemma_wf();
    if p.len() > 1 {
        let q = p.drop_last();
        assert forall|i: int| 0 <= i < q.len() - 1 implies #[trigger] g.linked(q[i] as int, q[i + 1] as int) by {
            assert(g.linked(p[i] as int, p[i + 1] as int));
        }
        assert forall|i: int| 0 < i < q.len() implies !before[#[trigger] q[i] as int] by {
            assert(!before[p[i] as int]);
        }
        lemma_unmarked_walk_stays(g, r, before, fin, q);
        let i = p.len() - 2;
        assert(g.linked(p[i] as int, p[i + 1] as int));
        assert(!before[p[i + 1] as int]);
        assert(fin[p[i + 1] as int]);
    }
}

/// What a breadth-first search from `start` keeps true: `comp` holds
/// `start` first and then the nodes marked since it began, each reachable
/// from `start`.
spec fn search_state(g: &Graph, start: usize, before: Seq<bool>, disc: Seq<bool>, comp: Seq<usize>) -> bool {
    &&& disc.len() == g.bound()
    &&& before.len() == g.bound()
    &&& comp.len() > 0
    &&& comp.len() <= count_true(disc)
    &&& comp[0] == start
    &&& comp.no_duplicates()
    &&& forall|k: int| 0 <= k < comp.len() ==> g.is_live(#[trigger] comp[k] as int)
    &&& forall|x: int| 0 <= x < g.bound() ==> (#[trigger] disc[x] <==> (before[x] || comp.contains(x as usize)))
    &&& forall|x: usize| #[trigger] comp.contains(x) && x != start ==> !before[x as int]
    &&& forall|x: usize| #[trigger] comp.contains(x) ==> reaches_unmarked(g, start as int, x as int, before)
}

/// Marks and appends every live, unmarked node of `list`, which holds
/// neighbours of `u`.
fn visit_list(
    g: &Graph,
    start: usize,
    u: usize,
    list: &Vec<usize>,
    discovered: &mut Vec<bool>,
    component: &mut Vec<usize>,
    Ghost(before): Ghost<Seq<bool>>,
)
    requires
        g.wf(),
        search_state(g, start, before, old(discovered)@, old(component)@),
        old(component)@.contains(u),
        forall|j: int| 0 <= j < list@.len() ==> g.linked(u as int, #[trigger] list@[j] as int) || !g.is_live(list@[j] as int),
    ensures
        search_state(g, start, before, final(discovered)@, final(component)@),
        final(component)@.len() >= old(component)@.len(),
        forall|k: int| 0 <= k < old(component)@.len() ==> final(component)@[k] == old(component)@[k],
        forall|j: int| 0 <= j < list@.len() && g.is_live(#[trigger] list@[j] as int) ==> final(discovered)@[list@[j] as int],
{
    let ghost c0 = component@;
    let mut i: usize = 0;
    while i < list.len()
        invariant
            g.wf(),
            search_state(g, start, before, discovered@, component@),
            component@.contains(u),
            forall|j: int| 0 <= j < list@.len() ==> g.linked(u as int, #[trigger] list@[j] as int) || !g.is_live(list@[j] as int),
            component@.len() >= c0.len(),
            forall|k: int| 0 <= k < c0.len() ==> component@[k] == c0[k],
            forall|j: int| 0 <= j < i && g.is_live(#[trigger] list@[j] as int) ==> discovered@[list@[j] as int],
        decreases list@.len() - i,
    {
        let w = list[i];
        if w < discovered.len() && g.contains_node(w) && !discovered[w] {
            let ghost c1 = component@;
            proof {
                lemma_count_true_set(discovered@, w as int);
                assert(g.linked(u as int, w as int));
                let p = choose|p: Seq<usize>| #[trigger] is_walk(g, p) && avoids(p, before) && p[0] == start && p.last() == u;
                lemma_walk_push(g, p, w);
                assert(!before[w as int]);
                assert(avoids(p.push(w), before)) by {
                    assert forall|i: int| 0 < i < p.push(w).len() implies !before[#[trigger] p.push(w)[i] as int] by {
                        if i < p.len() {
                            assert(p.push(w)[i] == p[i]);
                        }
                    }
                }
                assert(!component@.contains(w));
            }
            discovered.set(w, true);
            component.push(w);
            proof {
                let ku = choose|k: int| 0 <= k < c1.len() && c1[k] == u;
                assert(component@[ku] == u);
                assert forall|x: usize| #[trigger] component@.contains(x) implies (
                reaches_unmarked(g, start as int, x as int, before) && (x != start ==> !before[x as int])) by {
                    let k = choose|k: int| 0 <= k < component@.len() && component@[k] == x;
                    if k < component@.len() - 1 {
                        assert(c1.contains(x));
                    }
                }
                assert forall|x: int| 0 <= x < g.bound() implies (#[trigger] discovered@[x] <==> (before[x] || component@.contains(x as usize))) by {
                    if x != w {
                        assert(component@.contains(x as usize) ==> c1.contains(x as usize)) by {
                            if component@.contains(x as usize) {
                                let k = choose|k: int| 0 <= k < component@.len() && component@[k] == x as usize;
                                if k < component@.len() - 1 {
                                    assert(c1[k] == x as usize);
                                }
                            }
                        }
                        assert(c1.contains(x as usize) ==> component@.contains(x as usize)) by {
                            if c1.contains(x as usize) {
                                let k = choose|k: int| 0 <= k < c1.len() && c1[k] == x as usize;
                                assert(component@[k] == x as usize);
                            }
                        }
                    } else {
                        assert(component@[component@.len() - 1] == w);
                    }
                }
            }
        }
        i = i + 1;
    }
}

/// Breadth-first search from `start` along edges taken in either direction,
/// through nodes not yet marked in `discovered`.  Marks `start` and every
/// node it reaches, and returns them, `start` first.
pub fn bfs_order(g: &Graph, start: usize, discovered: &mut Vec<bool>) -> (r: Vec<usize>)
    requires
        g.wf(),
        g.is_live(start as int),
        old(discovered)@.len() == g.bound(),
    ensures
        final(discovered)@.len() == g.bound(),
        r@.len() > 0,
        r@[0] == start,
        r@.no_duplicates(),
        forall|x: int|
            0 <= x < g.bound() ==> (final(discovered)@[x] <==> (old(discovered)@[x]
                || r@.contains(x as usize))),
        forall|x: usize| #[trigger] r@.contains(x) && x != start ==> !old(discovered)@[x as int],
        forall|x: usize| #[trigger] r@.contains(x) <==> reaches_unmarked(g, start as int, x as int, old(discovered)@),
        forall|x: usize| #[trigger] r@.contains(x) ==> g.is_live(x as int),
        forall|x: usize, y: usize|
            #[trigger] r@.contains(x) && #[trigger] g.linked(x as int, y as int)
                ==> final(discovered)@[y as int],
{
    let ghost before = discovered@;
    proof {
        g.lemma_wf();
        let p = seq![start];
        assert(is_walk(g, p));
        assert(avoids(p, before));
        lemma_count_true_set(discovered@, start as int);
    }
    discovered.set(start, true);
    let mut component: Vec<usize> = Vec::new();
    component.push(start);
    proof {
        assert forall|x: int| 0 <= x < g.bound() implies (#[trigger] discovered@[x] <==> (before[x] || component@.contains(x as usize))) by {
            if x == start {
                assert(component@[0] == start);
            } else if component@.contains(x as usize) {
                assert(component@.len() == 1);
                let k = choose|k: int| 0 <= k < component@.len() && component@[k] == x as usize;
            }
        }
    }
    let mut head: usize = 0;
    while head < component.len()
        invariant
            g.wf(),
            search_state(g, start, before, discovered@, component@),
            0 <= head <= component@.len(),
            forall|k: int, y: usize|
                0 <= k < head && #[trigger] g.linked(component@[k] as int, y as int)
                    ==> discovered@[y as int],
        decreases g.bound() - head,
    {
        let u = component[head];
        proof {
            g.lemma_wf();
            assert(component@.contains(u));
            lemma_count_true_bound(discovered@);
        }
        let ghost c0 = component@;
        let ghost d0 = discovered@;
        proof {
            assert(g.is_live(u as int)) by { assert(component@[head as int] == u); }
            assert forall|j: int| 0 <= j < g.out_seq(u as int).len() implies g.linked(u as int, #[trigger] g.out_seq(u as int)[j] as int) || !g.is_live(g.out_seq(u as int)[j] as int) by {
                assert(g.out_seq(u as int).contains(g.out_seq(u as int)[j]));
            }
            assert forall|j: int| 0 <= j < g.in_seq(u as int).len() implies g.linked(u as int, #[trigger] g.in_seq(u as int)[j] as int) || !g.is_live(g.in_seq(u as int)[j] as int) by {
                assert(g.in_seq(u as int).contains(g.in_seq(u as int)[j]));
            }
        }
        visit_list(g, start, u, g.out_neighbors(u), discovered, &mut component, Ghost(before));
        proof {
            assert(component@.contains(u)) by { assert(component@[head as int] == u); }
        }
        visit_list(g, start, u, g.in_neighbors(u), discovered, &mut component, Ghost(before));
        proof {
            assert forall|k: int, y: usize|
                0 <= k < head + 1 && #[trigger] g.linked(component@[k] as int, y as int)
                    implies discovered@[y as int] by {
                assert(component@[k] == c0[k]);
                if k < head {
                    assert(d0[y as int]);
                } else {
                    if g.out_seq(u as int).contains(y) {
                        let j = choose|j: int| 0 <= j < g.out_seq(u as int).len() && g.out_seq(u as int)[j] == y;
                    } else {
                        let j = choose|j: int| 0 <= j < g.in_seq(u as int).len() && g.in_seq(u as int)[j] == y;
                    }
                }
            }
            lemma_count_true_bound(discovered@);
        }
        head = head + 1;
    }
    proof {
        assert forall|x: usize| #[trigger] component@.contains(x) implies g.is_live(x as int) by {
            let k = choose|k: int| 0 <= k < component@.len() && component@[k] == x;
        }
        assert forall|x: usize| reaches_unmarked(g, start as int, x as int, before) implies #[trigger] component@.contains(x) by {
            let p = choose|p: Seq<usize>| #[trigger] is_walk(g, p) && avoids(p, before) && p[0] == start && p.last() == x as int;
            assert(component@.contains(start)) by { assert(component@[0] == start); }
            lemma_unmarked_walk_stays(g, component@, before, discovered@, p);
        }
    }
    component
}

/// `v` is the smallest node of its connected component.
pub open spec fn is_seed(g: &Graph, v: int) -> bool {
    &&& g.is_live(v)
    &&& forall|u: int| 0 <= u < v ==> !#[trigger] connected(g, u, v)
}

/// Number of components whose smallest node is below `k`.
pub open spec fn seed_count(g: &Graph, k: int) -> nat
    decreases k,
{
    if k <= 0 {
        0
    } else {
        seed_count(g, k - 1) + if is_seed(g, k - 1) { 1nat } else { 0nat }
    }
}

/// Number of connected components of `g`, edge directions ignored.
pub open spec fn component_count(g: &Graph) -> nat {
    seed_count(g, g.bound() as int)
}

/// The node lists split the live nodes: every live node lies in exactly one
/// list, and each list is non-empty and has no repeated node.
pub open spec fn is_partition(g: &Graph, comps: Seq<Seq<usize>>) -> bool {
    &&& forall|j: int| 0 <= j < comps.len() ==> #[trigger] comps[j].len() > 0 && comps[j].no_duplicates()
    &&& forall|j: int, x: usize| 0 <= j < comps.len() && #[trigger] comps[j].contains(x) ==> g.is_live(x as int)
    &&& forall|x: usize| g.is_live(x as int) ==> exists|j: int| 0 <= j < comps.len() && #[trigger] comps[j].contains(x)
    &&& forall|j1: int, j2: int, x: usize|
        0 <= j1 < comps.len() && 0 <= j2 < comps.len() && #[trigger] comps[j1].contains(x) && #[trigger] comps[j2].contains(x)
            ==> j1 == j2
}

/// The node lists are the connected components of `g`, each headed by its
/// smallest node, in increasing order of that node.
pub open spec fn is_component_list(g: &Graph, comps: Seq<Seq<usize>>) -> bool {
    &&& is_partition(g, comps)
    &&& forall|j: int, y: usize|
        0 <= j < comps.len() ==> (#[trigger] comps[j].contains(y) <==> connected(g, comps[j][0] as int, y as int))
    &&& forall|j: int, x: usize| 0 <= j < comps.len() && #[trigger] comps[j].contains(x) ==> comps[j][0] <= x
    &&& forall|j1: int, j2: int| 0 <= j1 < j2 < comps.len() ==> #[trigger] comps[j1][0] < #[trigger] comps[j2][0]
}

/// What holds once the nodes below `s` have been scanned.
spec fn scan_state(g: &Graph, disc: Seq<bool>, comps: Seq<Seq<usize>>, s: int) -> bool {
    &&& 0 <= s <= g.bound()
    &&& disc.len() == g.bound()
    &&& forall|j: int| 0 <= j < comps.len() ==> #[trigger] comps[j].len() > 0 && comps[j].no_duplicates()
    &&& forall|j: int, x: usize| 0 <= j < comps.len() && #[trigger] comps[j].contains(x) ==> g.is_live(x as int)
    &&& forall|j1: int, j2: int, x: usize|
        0 <= j1 < comps.len() && 0 <= j2 < comps.len() && #[trigger] comps[j1].contains(x) && #[trigger] comps[j2].contains(x)
            ==> j1 == j2
    &&& forall|x: int| 0 <= x < g.bound() ==> (#[trigger] disc[x] <==> exists|j: int| 0 <= j < comps.len() && #[trigger] comps[j].contains(x as usize))
    &&& forall|u: int| 0 <= u < s && g.is_live(u) ==> #[trigger] disc[u]
    &&& forall|j: int| 0 <= j < comps.len() ==> #[trigger] comps[j][0] < s
    &&& forall|j: int, x: usize| 0 <= j < comps.len() && #[trigger] comps[j].contains(x) ==> connected(g, comps[j][0] as int, x as int)
    &&& forall|j: int| 0 <= j < comps.len() ==> closed(g, #[trigger] comps[j])
    &&& forall|j: int, x: usize| 0 <= j < comps.len() && #[trigger] comps[j].contains(x) ==> comps[j][0] <= x
    &&& forall|j1: int, j2: int| 0 <= j1 < j2 < comps.len() ==> #[trigger] comps[j1][0] < #[trigger] comps[j2][0]
    &&& comps.len() == seed_count(g, s)
}

proof fn lemma_scan_start(g: &Graph, disc: Seq<bool>)
    requires
        g.wf(),
        disc.len() == g.bound(),
        forall|x: int| 0 <= x < disc.len() ==> !disc[x],
    ensures
        scan_state(g, disc, Seq::empty(), 0),
{
}

/// Index `s` is skipped: it is a hole or already in a component.
proof fn lemma_scan_skip(g: &Graph, disc: Seq<bool>, comps: Seq<Seq<usize>>, s: int)
    requires
        g.wf(),
        scan_state(g, disc, comps, s),
        s < g.bound(),
        !g.is_live(s) || disc[s],
    ensures
        scan_state(g, disc, comps, s + 1),
{
    g.lemma_wf();
    if g.is_live(s) {
        let j = choose|j: int| 0 <= j < comps.len() && #[trigger] comps[j].contains(s as usize);
        assert(connected(g, comps[j][0] as int, s));
        assert(!is_seed(g, s));
    }
}

/// Index `s` starts a new component `r`, found by a search from it.
proof fn lemma_scan_add(
    g: &Graph,
    disc0: Seq<bool>,
    disc1: Seq<bool>,
    comps: Seq<Seq<usize>>,
    r: Seq<usize>,
    s: usize,
)
    requires
        g.wf(),
        scan_state(g, disc0, comps, s as int),
        g.is_live(s as int),
        !disc0[s as int],
        disc1.len() == g.bound(),
        r.len() > 0,
        r[0] == s,
        r.no_duplicates(),
        forall|x: int| 0 <= x < g.bound() ==> (disc1[x] <==> (disc0[x] || r.contains(x as usize))),
        forall|x: usize| #[trigger] r.contains(x) && x != s ==> !disc0[x as int],
        forall|x: usize| #[trigger] r.contains(x) ==> reaches_unmarked(g, s as int, x as int, disc0),
        forall|x: usize| #[trigger] r.contains(x) ==> g.is_live(x as int),
        forall|x: usize, y: usize| #[trigger] r.contains(x) && #[trigger] g.linked(x as int, y as int) ==> disc1[y as int],
    ensures
        scan_state(g, disc1, comps.push(r), s + 1),
{
    g.lemma_wf();
    let n = comps.push(r);
    let c = comps.len() as int;
    assert(n[c] == r);
    assert(r.contains(s)) by { assert(r[0] == s); }
    // `s` is the smallest node of its component.
    assert forall|u: int| 0 <= u < s implies !#[trigger] connected(g, u, s as int) by {
        if connected(g, u, s as int) {
            let p = choose|p: Seq<usize>| #[trigger] is_walk(g, p) && p[0] == u && p.last() == s as int;
            assert(disc0[u]);
            let j = choose|j: int| 0 <= j < comps.len() && #[trigger] comps[j].contains(u as usize);
            assert(closed(g, comps[j]));
            lemma_walk_stays(g, comps[j], p);
        }
    }
    assert(is_seed(g, s as int));
    // A new node lies in no earlier component.
    assert forall|j: int, x: usize| 0 <= j < c && #[trigger] comps[j].contains(x) implies !r.contains(x) by {
        assert(disc0[x as int]);
    }
    assert forall|x: int| 0 <= x < g.bound() implies (#[trigger] disc1[x] <==> exists|j: int| 0 <= j < n.len() && #[trigger] n[j].contains(x as usize)) by {
        if disc1[x] {
            if r.contains(x as usize) {
                assert(n[c].contains(x as usize));
            } else {
                let j = choose|j: int| 0 <= j < comps.len() && #[trigger] comps[j].contains(x as usize);
                assert(n[j].contains(x as usize));
            }
        }
        if exists|j: int| 0 <= j < n.len() && #[trigger] n[j].contains(x as usize) {
            let j = choose|j: int| 0 <= j < n.len() && #[trigger] n[j].contains(x as usize);
            if j < c {
                assert(comps[j].contains(x as usize));
            }
        }
    }
    assert forall|j: int, x: usize| 0 <= j < n.len() && #[trigger] n[j].contains(x) implies n[j][0] <= x by {
        if j == c && x != s {
            assert(!disc0[x as int]);
        }
    }
    assert forall|j: int| 0 <= j < n.len() implies closed(g, #[trigger] n[j]) by {
        if j == c {
            assert forall|x: usize, y: usize| #[trigger] r.contains(x) && #[trigger] g.linked(x as int, y as int) implies r.contains(y) by {
                if !r.contains(y) {
                    assert(disc0[y as int]);
                    let i = choose|i: int| 0 <= i < comps.len() && #[trigger] comps[i].contains(y);
                    assert(closed(g, comps[i]));
                    assert(g.linked(y as int, x as int));
                    assert(comps[i].contains(x));
                    assert(disc0[x as int]);
                }
            }
        } else {
            assert(n[j] == comps[j]);
        }
    }
    assert forall|j1: int, j2: int, x: usize|
        0 <= j1 < n.len() && 0 <= j2 < n.len() && #[trigger] n[j1].contains(x) && #[trigger] n[j2].contains(x)
            implies j1 == j2 by {
        if j1 < c && j2 < c {
            assert(comps[j1].contains(x) && comps[j2].contains(x));
        } else if j1 < c {
            assert(comps[j1].contains(x));
        } else if j2 < c {
            assert(comps[j2].contains(x));
        }
    }
    assert forall|u: int| 0 <= u < s + 1 && g.is_live(u) implies #[trigger] disc1[u] by {
        if u == s {
            assert(r.contains(s));
        } else {
            assert(disc0[u]);
        }
    }
    assert forall|j: int, x: usize| 0 <= j < n.len() && #[trigger] n[j].contains(x) implies (g.is_live(x as int) && connected(g, n[j][0] as int, x as int)) by {
        if j < c {
            assert(comps[j].contains(x));
        }
    }
    assert forall|j1: int, j2: int| 0 <= j1 < j2 < n.len() implies #[trigger] n[j1][0] < #[trigger] n[j2][0] by {
        if j2 < c {
            assert(comps[j1][0] < comps[j2][0]);
        } else {
            assert(comps[j1][0] < s);
        }
    }
}

proof fn lemma_seed_count_bound(g: &Graph, k: int)
    ensures
        seed_count(g, k) <= if k < 0 { 0 } else { k },
    decreases k,
{
    if k > 0 {
        lemma_seed_count_bound(g, k - 1);
    }
}

/// Fewer components than indices have been found before index `s`.
proof fn lemma_count_below(g: &Graph, comps: Seq<Seq<usize>>, s: int)
    requires
        0 <= s,
        s < usize::MAX,
        comps.len() == seed_count(g, s),
    ensures
        comps.len() < usize::MAX,
{
    lemma_seed_count_bound(g, s);
}

/// The scan is complete: the lists are the components.
proof fn lemma_scan_done(g: &Graph, disc: Seq<bool>, comps: Seq<Seq<usize>>)
    requires
        g.wf(),
        scan_state(g, disc, comps, g.bound() as int),
    ensures
        is_component_list(g, comps),
        comps.len() == component_count(g),
{
    g.lemma_wf();
    assert forall|x: usize| g.is_live(x as int) implies exists|j: int| 0 <= j < comps.len() && #[trigger] comps[j].contains(x) by {
        assert(disc[x as int]);
    }
    assert forall|j: int, y: usize| 0 <= j < comps.len() implies (#[trigger] comps[j].contains(y) <==> connected(g, comps[j][0] as int, y as int)) by {
        if connected(g, comps[j][0] as int, y as int) {
            let p = choose|p: Seq<usize>| #[trigger] is_walk(g, p) && p[0] == comps[j][0] as int && p.last() == y as int;
            assert(comps[j].contains(comps[j][0]));
            assert(closed(g, comps[j]));
            lemma_walk_stays(g, comps[j], p);
        }
    }
}

/// Every live node lies in exactly one component of a component list, and
/// the components together hold exactly the live nodes.
pub proof fn lemma_components_partition(g: &Graph, comps: Seq<Seq<usize>>)
    requires
        g.wf(),
        is_component_list(g, comps),
    ensures
        forall|x: usize| g.is_live(x as int) ==> exists|j: int| 0 <= j < comps.len() && #[trigger] comps[j].contains(x)
            && forall|i: int| 0 <= i < comps.len() && #[trigger] comps[i].contains(x) ==> i == j,
        forall|x: usize| (exists|j: int| 0 <= j < comps.len() && #[trigger] comps[j].contains(x)) <==> g.is_live(x as int),
{
    assert forall|x: usize| g.is_live(x as int) implies exists|j: int| 0 <= j < comps.len() && #[trigger] comps[j].contains(x)
        && forall|i: int| 0 <= i < comps.len() && #[trigger] comps[i].contains(x) ==> i == j by {
        let j = choose|j: int| 0 <= j < comps.len() && #[trigger] comps[j].contains(x);
        assert forall|i: int| 0 <= i < comps.len() && #[trigger] comps[i].contains(x) implies i == j by {}
    }
}

proof fn lemma_walk_reverse(g: &Graph, p: Seq<usize>)
    requires
        g.wf(),
        is_walk(g, p),
    ensures
        is_walk(g, p.reverse()),
        p.reverse()[0] == p.last(),
        p.reverse().last() == p[0],
{
    g.lemma_wf();
    let r = p.reverse();
    let n = p.len() as int;
    if n > 1 {
        assert(g.linked(p[n - 2] as int, p[n - 2 + 1] as int));
    }
    assert forall|i: int| 0 <= i < r.len() - 1 implies #[trigger] g.linked(r[i] as int, r[i + 1] as int) by {
        let a = n - 2 - i;
        assert(g.linked(p[a] as int, p[a + 1] as int));
        assert(r[i] == p[a + 1]);
        assert(r[i + 1] == p[a]);
    }
}

/// The components headed below `k` are the first `m` of the list, and
/// there are as many as seeds below `k`.
proof fn lemma_seed_prefix(g: &Graph, comps: Seq<Seq<usize>>, k: int) -> (m: int)
    requires
        g.wf(),
        is_component_list(g, comps),
        0 <= k <= g.bound(),
    ensures
        0 <= m <= comps.len(),
        forall|j: int| 0 <= j < m ==> #[trigger] comps[j][0] < k,
        forall|j: int| m <= j < comps.len() ==> #[trigger] comps[j][0] >= k,
        seed_count(g, k) == m,
    decreases k,
{
    g.lemma_wf();
    if k == 0 {
        0
    } else {
        let c = k - 1;
        let m = lemma_seed_prefix(g, comps, c);
        if is_seed(g, c) {
            let x = c as usize;
            let j = choose|j: int| 0 <= j < comps.len() && #[trigger] comps[j].contains(x);
            assert(comps[j].contains(comps[j][0])) by { assert(comps[j][0] == comps[j][0]); }
            assert(connected(g, comps[j][0] as int, c));
            assert(comps[j][0] <= x);
            assert(comps[j][0] == x);
            if j > m {
                assert(comps[m][0] < comps[j][0]);
            }
            assert(j == m);
            assert forall|i: int| m + 1 <= i < comps.len() implies #[trigger] comps[i][0] >= k by {
                assert(comps[m][0] < comps[i][0]);
            }
            m + 1
        } else {
            if m < comps.len() && comps[m][0] == c {
                assert(comps[m].contains(comps[m][0])) by { assert(comps[m][0] == comps[m][0]); }
                assert(g.is_live(c));
                let u = choose|u: int| 0 <= u < c && #[trigger] connected(g, u, c);
                let p = choose|p: Seq<usize>| #[trigger] is_walk(g, p) && p[0] == u && p.last() == c;
                lemma_walk_reverse(g, p);
                assert(connected(g, c, u as usize as int));
                assert(comps[m].contains(u as usize));
                assert(comps[m][0] <= u);
            }
            m
        }
    }
}

/// Every component list of `g` has one list per component: as many as
/// `number_connected_components` reports.
pub proof fn lemma_component_list_length(g: &Graph, comps: Seq<Seq<usize>>)
    requires
        g.wf(),
        is_component_list(g, comps),
    ensures
        comps.len() == component_count(g),
{
    let m = lemma_seed_prefix(g, comps, g.bound() as int);
    if m < comps.len() {
        assert(comps[m].contains(comps[m][0])) by { assert(comps[m].len() > 0); assert(comps[m][0] == comps[m][0]); }
        assert(g.is_live(comps[m][0] as int));
    }
}

/// The node lists held in `r`.
pub open spec fn lists_view(r: Seq<Vec<usize>>) -> Seq<Seq<usize>> {
    r.map_values(|c: Vec<usize>| c@)
}

/// The connected components of `g`, edge directions ignored: one list per
/// component, headed by its smallest node, in increasing order of that node.
pub fn component_lists(g: &Graph) -> (r: Vec<Vec<usize>>)
    requires
        g.wf(),
    ensures
        is_component_list(g, lists_view(r@)),
        r@.len() == component_count(g),
{
    let n = g.node_bound();
    let mut discovered: Vec<bool> = vec![false; n];
    let mut comps: Vec<Vec<usize>> = Vec::new();
    proof {
        lemma_scan_start(g, discovered@);
        assert(lists_view(comps@) =~= Seq::<Seq<usize>>::empty());
    }
    let mut s: usize = 0;
    while s < n
        invariant
            g.wf(),
            n == g.bound(),
            s <= n,
            scan_state(g, discovered@, lists_view(comps@), s as int),
        decreases n - s,
    {
        if g.contains_node(s) && !discovered[s] {
            let ghost d0 = discovered@;
            let ghost c0 = comps@;
            let c = bfs_order(g, s, &mut discovered);
            proof {
                lemma_scan_add(g, d0, discovered@, lists_view(c0), c@, s);
            }
            comps.push(c);
            proof {
                assert(lists_view(comps@) =~= lists_view(c0).push(c@));
            }
        } else {
            proof {
                lemma_scan_skip(g, discovered@, lists_view(comps@), s as int);
            }
        }
        s = s + 1;
    }
    proof {
        lemma_scan_done(g, discovered@, lists_view(comps@));
    }
    comps
}

/// The number of connected components of `g`, edge directions ignored.
/// Each component is searched and then dropped.
pub fn number_connected_components(g: &Graph) -> (r: usize)
    requires
        g.wf(),
    ensures
        r == component_count(g),
{
    let n = g.node_bound();
    let mut discovered: Vec<bool> = vec![false; n];
    let ghost mut comps: Seq<Seq<usize>> = Seq::empty();
    let mut num_components: usize = 0;
    proof {
        lemma_scan_start(g, discovered@);
    }
    let mut s: usize = 0;
    while s < n
        invariant
            g.wf(),
            n == g.bound(),
            s <= n,
            scan_state(g, discovered@, comps, s as int),
            num_components == comps.len(),
        decreases n - s,
    {
        if g.contains_node(s) && !discovered[s] {
            let ghost d0 = discovered@;
            let c = bfs_order(g, s, &mut discovered);
            proof {
                lemma_scan_add(g, d0, discovered@, comps, c@, s);
                lemma_count_below(g, comps, s as int);
                comps = comps.push(c@);
            }
            num_components = num_components + 1;
        } else {
            proof {
                lemma_scan_skip(g, discovered@, comps, s as int);
            }
        }
        s = s + 1;
    }
    proof {
        lemma_scan_done(g, discovered@, comps);
    }
    num_components
}

/// A set of node indices, kept in a hashbrown `HashSet`.
#[verifier::external_body]
#[derive(Debug, PartialEq, Eq)]
pub struct NodeSet {
    inner: hashbrown::HashSet<usize>,
}

/// The indices held in a `NodeSet`.
pub uninterp spec fn node_set_view(s: NodeSet) -> Set<usize>;

impl NodeSet {
    /// Relies on hashbrown::HashSet::new: a new set is empty.
    #[verifier::external_body]
    fn new() -> (r: NodeSet)
        ensures
            node_set_view(r) == Set::<usize>::empty(),
    {
        NodeSet { inner: hashbrown::HashSet::new() }
    }

    /// Relies on hashbrown::HashSet::insert: afterwards the set holds `x`
    /// besides what it held.
    #[verifier::external_body]
    fn insert(&mut self, x: usize)
        ensures
            node_set_view(*final(self)) == node_set_view(*old(self)).insert(x),
    {
        self.inner.insert(x);
    }

    /// The set of the nodes listed in `v`.
    pub fn from_nodes(v: &Vec<usize>) -> (r: NodeSet)
        ensures
            node_set_view(r) == v@.to_set(),
    {
        let mut r = NodeSet::new();
        let mut i: usize = 0;
        while i < v.len()
            invariant
                i <= v@.len(),
                node_set_view(r) == v@.subrange(0, i as int).to_set(),
            decreases v@.len() - i,
        {
            proof {
                assert(v@.subrange(0, i + 1) =~= v@.subrange(0, i as int).push(v@[i as int]));
                v@.subrange(0, i as int).lemma_push_to_set_commute(v@[i as int]);
            }
            r.insert(v[i]);
            i = i + 1;
        }
        proof {
            assert(v@.subrange(0, v@.len() as int) =~= v@);
        }
        r
    }
}

/// The nodes connected to `v`, edge directions ignored.
pub open spec fn class_of(g: &Graph, v: int) -> Set<usize> {
    Set::new(|y: usize| connected(g, v, y as int))
}

/// `s` is the component of the `j`-th smallest seed of `g`.
pub open spec fn is_jth_component(g: &Graph, s: Set<usize>, j: int) -> bool {
    exists|v: int| #[trigger] is_seed(g, v) && seed_count(g, v) == j && s == class_of(g, v)
}

/// `sets` holds the connected components of `g`, the `j`-th being the
/// component of the `j`-th smallest seed.
pub open spec fn is_component_sets(g: &Graph, sets: Seq<Set<usize>>) -> bool {
    &&& sets.len() == component_count(g)
    &&& forall|j: int| 0 <= j < sets.len() ==> is_jth_component(g, #[trigger] sets[j], j)
    &&& forall|x: usize| g.is_live(x as int) ==> exists|j: int| 0 <= j < sets.len() && #[trigger] sets[j].contains(x)
    &&& forall|j1: int, j2: int, x: usize|
        0 <= j1 < sets.len() && 0 <= j2 < sets.len() && #[trigger] sets[j1].contains(x) && #[trigger] sets[j2].contains(x)
            ==> j1 == j2
    &&& forall|j: int, x: usize| 0 <= j < sets.len() && #[trigger] sets[j].contains(x) ==> g.is_live(x as int)
}

/// The head of the `j`-th list of a component list is the `j`-th seed.
proof fn lemma_head_is_seed(g: &Graph, comps: Seq<Seq<usize>>, j: int)
    requires
        g.wf(),
        is_component_list(g, comps),
        0 <= j < comps.len(),
    ensures
        is_seed(g, comps[j][0] as int),
        seed_count(g, comps[j][0] as int) == j,
        comps[j].to_set() == class_of(g, comps[j][0] as int),
{
    g.lemma_wf();
    let v = comps[j][0];
    assert(comps[j].contains(v)) by { assert(comps[j][0] == v); }
    assert(g.is_live(v as int));
    let m = lemma_seed_prefix(g, comps, v as int);
    if m < j {
        assert(comps[m][0] < comps[j][0]);
    }
    if m > j {
        assert(comps[j][0] < v);
    }
    assert forall|u: int| 0 <= u < v implies !#[trigger] connected(g, u, v as int) by {
        if connected(g, u, v as int) {
            let p = choose|p: Seq<usize>| #[trigger] is_walk(g, p) && p[0] == u && p.last() == v as int;
            lemma_walk_reverse(g, p);
            assert(connected(g, v as int, u as usize as int));
            assert(comps[j].contains(u as usize));
        }
    }
    assert(comps[j].to_set() =~= class_of(g, v as int));
}

/// Breadth-first search from `start` along edges taken in either direction,
/// through nodes not yet marked in `discovered`.  Marks `start` and every
/// node it reaches, and returns them as a set.
pub fn bfs_undirected(g: &Graph, start: usize, discovered: &mut Vec<bool>) -> (r: NodeSet)
    requires
        g.wf(),
        g.is_live(start as int),
        old(discovered)@.len() == g.bound(),
    ensures
        final(discovered)@.len() == g.bound(),
        node_set_view(r).contains(start),
        forall|x: int|
            0 <= x < g.bound() ==> (final(discovered)@[x] <==> (old(discovered)@[x]
                || node_set_view(r).contains(x as usize))),
        forall|x: usize| #[trigger] node_set_view(r).contains(x) && x != start ==> !old(discovered)@[x as int],
        forall|x: usize| #[trigger] node_set_view(r).contains(x) <==> reaches_unmarked(g, start as int, x as int, old(discovered)@),
        forall|x: usize, y: usize|
            #[trigger] node_set_view(r).contains(x) && #[trigger] g.linked(x as int, y as int)
                ==> final(discovered)@[y as int],
{
    let order = bfs_order(g, start, discovered);
    let r = NodeSet::from_nodes(&order);
    proof {
        assert(order@.contains(start)) by { assert(order@[0] == start); }
    }
    r
}

/// The connected components of `g`, edge directions ignored, in increasing
/// order of their smallest node.
pub fn connected_components(g: &Graph) -> (r: Vec<NodeSet>)
    requires
        g.wf(),
    ensures
        is_component_sets(g, r@.map_values(|c: NodeSet| node_set_view(c))),
{
    let lists = component_lists(g);
    let mut r: Vec<NodeSet> = Vec::new();
    let mut j: usize = 0;
    while j < lists.len()
        invariant
            j <= lists@.len(),
            r@.len() == j,
            forall|i: int| 0 <= i < j ==> node_set_view(#[trigger] r@[i]) == lists@[i]@.to_set(),
        decreases lists@.len() - j,
    {
        let c = NodeSet::from_nodes(&lists[j]);
        r.push(c);
        j = j + 1;
    }
    proof {
        let comps = lists_view(lists@);
        let sets = r@.map_values(|c: NodeSet| node_set_view(c));
        assert forall|i: int| 0 <= i < sets.len() implies #[trigger] sets[i] == comps[i].to_set() by {
            assert(node_set_view(r@[i]) == lists@[i]@.to_set());
        }
        assert forall|i: int| 0 <= i < sets.len() implies is_jth_component(g, #[trigger] sets[i], i) by {
            lemma_head_is_seed(g, comps, i);
            assert(is_seed(g, comps[i][0] as int));
        }
        assert forall|i: int, x: usize| 0 <= i < sets.len() implies (#[trigger] sets[i].contains(x) <==> comps[i].contains(x)) by {
            assert(sets[i] == comps[i].to_set());
        }
        assert forall|x: usize| g.is_live(x as int) implies exists|i: int| 0 <= i < sets.len() && #[trigger] sets[i].contains(x) by {
            let i = choose|i: int| 0 <= i < comps.len() && #[trigger] comps[i].contains(x);
            assert(sets[i].contains(x));
        }
        assert forall|j1: int, j2: int, x: usize|
            0 <= j1 < sets.len() && 0 <= j2 < sets.len() && #[trigger] sets[j1].contains(x) && #[trigger] sets[j2].contains(x)
                implies j1 == j2 by {
            assert(comps[j1].contains(x) && comps[j2].contains(x));
        }
        assert forall|i: int, x: usize| 0 <= i < sets.len() && #[trigger] sets[i].contains(x) implies g.is_live(x as int) by {
            assert(comps[i].contains(x));
        }
    }
    r
}

} // verus!
