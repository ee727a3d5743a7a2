//! The graph chain finder: a breadth-first search over the finished
//! resolution graph, following "depends on" edges in reverse to find the
//! shortest ancestry path from a target distribution back to the root.
//!
//! The graph is handed over by the host resolver as plain values: a vector
//! of nodes (the distinguished root, or a resolved distribution) and a
//! vector of directed edges running from each dependent to its dependencies.

use crate::chain::DerivationChain;
use crate::chain::DerivationStep;
use crate::chain::StepView;
use crate::seen::seen_contents;
use crate::seen::SeenSet;
use crate::version::PackageName;
use crate::version::Version;
use vstd::prelude::*;
use vstd::set_lib::lemma_int_range;
use vstd::set_lib::lemma_len_subset;
use vstd::set_lib::set_int_range;

verus! {

/// Identifies the resolved distribution a graph node was built from; the
/// caller uses it to point the search at a target node.
#[derive(Clone, Copy, Debug, PartialEq, Eq, Hash, Structural)]
pub struct DistId(pub u64);

/// How a distribution in the graph was resolved.
#[derive(Debug)]
pub enum ResolvedDist {
    /// A distribution that can be installed; only these are eligible
    /// search targets.
    Installable(DistId),
    /// A distribution that is already installed.
    Installed(DistId),
}

/// A resolved distribution node: a package at a chosen version.
#[derive(Debug)]
pub struct AnnotatedDist {
    /// The name of the package.
    pub name: PackageName,
    /// The chosen version.
    pub version: Version,
    /// The underlying resolved distribution.
    pub dist: ResolvedDist,
}

/// A node in the resolution graph.
#[derive(Debug)]
pub enum ResolutionGraphNode {
    /// The distinguished root: the user's direct requirements.
    Root,
    /// A resolved distribution.
    Dist(AnnotatedDist),
}

/// A finished resolution graph: nodes, and edges running from a dependent
/// (index `.0`) to one of its dependencies (index `.1`).
#[derive(Debug)]
pub struct ResolutionGraph {
    /// The graph's nodes.
    pub nodes: Vec<ResolutionGraphNode>,
    /// The graph's directed edges, dependent first.
    pub edges: Vec<(usize, usize)>,
}

impl ResolutionGraph {
    /// Every edge endpoint names a node.
    pub open spec fn wf(&self) -> bool {
        forall|k: int|
            0 <= k < self.edges@.len() ==> (#[trigger] self.edges@[k]).0 < self.nodes@.len()
                && self.edges@[k].1 < self.nodes@.len()
    }
}

/// Whether node `i` is the root node.
pub open spec fn node_is_root(g: ResolutionGraph, i: int) -> bool {
    g.nodes@[i] is Root
}

/// Whether node `i` is a distribution node.
pub open spec fn node_is_dist(g: ResolutionGraph, i: int) -> bool {
    g.nodes@[i] is Dist
}

/// The derivation step a distribution node stands for.
pub open spec fn step_at(g: ResolutionGraph, i: int) -> StepView {
    match g.nodes@[i] {
        ResolutionGraphNode::Dist(ad) => StepView { name: ad.name@, version: ad.version@ },
        ResolutionGraphNode::Root => StepView { name: Seq::empty(), version: Seq::empty() },
    }
}

/// Whether a node carries the installable distribution the search targets.
pub open spec fn matches_target(n: ResolutionGraphNode, target: DistId) -> bool {
    match n {
        ResolutionGraphNode::Dist(ad) => match ad.dist {
            ResolvedDist::Installable(id) => id == target,
            ResolvedDist::Installed(_) => false,
        },
        ResolutionGraphNode::Root => false,
    }
}

/// Whether `t` is the first node carrying the target distribution.
pub open spec fn first_target(g: ResolutionGraph, target: DistId, t: int) -> bool {
    &&& 0 <= t < g.nodes@.len()
    &&& matches_target(g.nodes@[t], target)
    &&& forall|j: int| 0 <= j < t ==> !matches_target(g.nodes@[j], target)
}

/// The node the search starts from: the first node carrying the target.
pub open spec fn target_index(g: ResolutionGraph, target: DistId) -> int {
    choose|t: int| first_target(g, target, t)
}

/// Whether the graph has an edge from `m` to `n`, i.e. `m` depends on `n`.
pub open spec fn points_to(g: ResolutionGraph, m: int, n: int) -> bool {
    exists|k: int|
        0 <= k < g.edges@.len() && (#[trigger] g.edges@[k]).0 == m && g.edges@[k].1 == n
}

/// An ancestry path: a nonempty node sequence starting at `t` in which each
/// node is depended on by its successor.
pub open spec fn ancestry_path(g: ResolutionGraph, ns: Seq<int>, t: int) -> bool {
    &&& ns.len() >= 1
    &&& ns[0] == t
    &&& forall|i: int| 0 <= i < ns.len() ==> 0 <= #[trigger] ns[i] < g.nodes@.len()
    &&& forall|i: int| 0 <= i < ns.len() - 1 ==> points_to(g, ns[i + 1], #[trigger] ns[i])
}

/// An ancestry path from `t` that reaches the root.
pub open spec fn root_path(g: ResolutionGraph, ns: Seq<int>, t: int) -> bool {
    ancestry_path(g, ns, t) && node_is_root(g, ns.last())
}

/// The chain a root path stands for: the steps of its interior nodes, in
/// root-to-target order; the target itself and the root are excluded.
pub open spec fn chain_of(g: ResolutionGraph, ns: Seq<int>) -> Seq<StepView> {
    Seq::new((ns.len() - 2) as nat, |j: int| step_at(g, ns[ns.len() - 2 - j]))
}

/// A prefix of an ancestry path is an ancestry path.
proof fn lemma_ancestry_prefix(g: ResolutionGraph, ns: Seq<int>, t: int, j: int)
    requires
        ancestry_path(g, ns, t),
        1 <= j <= ns.len(),
    ensures
        ancestry_path(g, ns.take(j), t),
{
    assert forall|i: int| 0 <= i < ns.take(j).len() - 1 implies points_to(
        g,
        ns.take(j)[i + 1],
        #[trigger] ns.take(j)[i],
    ) by {
        assert(ns.take(j)[i] == ns[i]);
        assert(ns.take(j)[i + 1] == ns[i + 1]);
    }
}

/// The node sequence a queue entry stands for: the nodes walked so far,
/// ending at the entry's own node.
spec fn entry_ns(e: (usize, Vec<usize>)) -> Seq<int> {
    e.1@.map_values(|x: usize| x as int).push(e.0 as int)
}

/// The number of nodes a queue entry's walk covers.
spec fn entry_len(e: (usize, Vec<usize>)) -> int {
    e.1@.len() as int + 1
}

/// Every live queue entry is an ancestry path from `t` whose interior
/// nodes are distribution nodes.
spec fn inv_entries(g: ResolutionGraph, t: int, q: Seq<(usize, Vec<usize>)>) -> bool {
    &&& forall|k: int| 0 <= k < q.len() ==> ancestry_path(g, entry_ns(#[trigger] q[k]), t)
    &&& forall|k: int, j: int|
        0 <= k < q.len() && 0 <= j < q[k].1@.len() ==> node_is_dist(
            g,
            #[trigger] q[k].1@[j] as int,
        )
}

/// Live queue entries are sorted by walk length and span at most two
/// consecutive lengths.
spec fn inv_sorted(q: Seq<(usize, Vec<usize>)>, head: int) -> bool {
    forall|k1: int, k2: int|
        head <= k1 <= k2 < q.len() ==> entry_len(#[trigger] q[k1]) <= entry_len(#[trigger] q[k2])
            && entry_len(q[k2]) <= entry_len(q[k1]) + 1
}

/// Basic bookkeeping for visited nodes: `s` is the seen-set, `d` records
/// for each seen node the length of the walk it was first dequeued with.
/// Every seen node is an in-bounds distribution node.
spec fn inv_seen_basic(g: ResolutionGraph, s: Set<int>, d: Map<int, int>) -> bool {
    &&& d.dom() == s
    &&& s.finite()
    &&& forall|x: int|
        #![trigger s.contains(x)]
        s.contains(x) ==> 0 <= x < g.nodes@.len() && node_is_dist(g, x) && 1 <= d[x]
}

/// Recorded walk lengths are no longer than any live queue entry's walk.
spec fn inv_lens(q: Seq<(usize, Vec<usize>)>, head: int, s: Set<int>, d: Map<int, int>) -> bool {
    forall|x: int, k: int|
        #![trigger d[x], q[k]]
        s.contains(x) && head <= k < q.len() ==> d[x] <= entry_len(q[k])
}

/// Every reverse neighbor of a seen node is seen itself, or queued with a
/// walk at most one step longer than the seen node's recorded walk.
spec fn inv_frontier(
    g: ResolutionGraph,
    q: Seq<(usize, Vec<usize>)>,
    head: int,
    s: Set<int>,
    d: Map<int, int>,
) -> bool {
    forall|x: int, m: int|
        #![trigger s.contains(x), points_to(g, m, x)]
        s.contains(x) && points_to(g, m, x) && !s.contains(m) ==> exists|k: int|
            head <= k < q.len() && (#[trigger] q[k]).0 == m && entry_len(q[k]) <= d[x] + 1
}

/// No ancestry path from `t` ends at a seen node with fewer nodes than the
/// node's recorded walk length: recorded walks are shortest.
spec fn inv_min(g: ResolutionGraph, t: int, s: Set<int>, d: Map<int, int>) -> bool {
    forall|x: int, p: Seq<int>|
        #![trigger s.contains(x), ancestry_path(g, p, t)]
        s.contains(x) && ancestry_path(g, p, t) && p.last() == x ==> p.len() >= d[x]
}

/// The start node is seen, or the search has not yet dequeued its initial
/// one-node walk.
spec fn inv_start(t: int, q: Seq<(usize, Vec<usize>)>, head: int, s: Set<int>) -> bool {
    s.contains(t) || (head == 0 && 0 < q.len() && q[0].0 as int == t && entry_len(q[0]) == 1)
}

/// The least index into `p` at or after `i` whose node is unseen.
proof fn lemma_least_unseen(s: Set<int>, p: Seq<int>, i: int) -> (j: int)
    requires
        0 <= i < p.len(),
        !s.contains(p.last()),
        forall|x: int| 0 <= x < i ==> s.contains(#[trigger] p[x]),
    ensures
        i <= j < p.len(),
        !s.contains(p[j]),
        forall|x: int| 0 <= x < j ==> s.contains(#[trigger] p[x]),
    decreases p.len() - i,
{
    if !s.contains(p[i]) {
        i
    } else {
        assert(i < p.len() - 1);
        lemma_least_unseen(s, p, i + 1)
    }
}

/// While the search is running, no ancestry path from `t` to an unseen
/// node is shorter than the walk about to be dequeued: breadth-first
/// dequeuing order reaches every node by a shortest walk first.
proof fn lemma_pop_minimal(
    g: ResolutionGraph,
    t: int,
    q: Seq<(usize, Vec<usize>)>,
    head: int,
    s: Set<int>,
    d: Map<int, int>,
    p: Seq<int>,
)
    requires
        inv_entries(g, t, q),
        inv_sorted(q, head),
        inv_seen_basic(g, s, d),
        inv_lens(q, head, s, d),
        inv_frontier(g, q, head, s, d),
        inv_min(g, t, s, d),
        inv_start(t, q, head, s),
        0 <= head < q.len(),
        ancestry_path(g, p, t),
        !s.contains(p.last()),
    ensures
        p.len() >= entry_len(q[head]),
{
    let l = entry_len(q[head]);
    let j = lemma_least_unseen(s, p, 0);
    if j == 0 {
        assert(p[0] == t);
        assert(!s.contains(t));
        assert(head == 0 && entry_len(q[0]) == 1);
        assert(l <= 1);
    } else {
        let x = p[j - 1];
        assert(s.contains(x));
        assert(points_to(g, p[j], x));
        assert(!s.contains(p[j]));
        let k = choose|k: int|
            head <= k < q.len() && (#[trigger] q[k]).0 == p[j] && entry_len(q[k]) <= d[x] + 1;
        lemma_ancestry_prefix(g, p, t, j);
        assert(p.take(j).last() == x);
        assert(p.take(j).len() >= d[x]);
        assert(l <= entry_len(q[k]));
        assert(l <= j + 1);
        assert(p.len() >= j + 1);
    }
}

/// Once the queue is exhausted, every node an ancestry path can reach is
/// seen; since the root is never seen, no root path exists.
proof fn lemma_exhausted_all_seen(
    g: ResolutionGraph,
    t: int,
    q: Seq<(usize, Vec<usize>)>,
    head: int,
    s: Set<int>,
    d: Map<int, int>,
    p: Seq<int>,
    i: int,
)
    requires
        inv_seen_basic(g, s, d),
        inv_frontier(g, q, head, s, d),
        inv_start(t, q, head, s),
        head >= q.len(),
        ancestry_path(g, p, t),
        0 <= i < p.len(),
    ensures
        s.contains(p[i]),
    decreases i,
{
    if i == 0 {
        assert(s.contains(t));
    } else {
        lemma_exhausted_all_seen(g, t, q, head, s, d, p, i - 1);
        let x = p[i - 1];
        assert(points_to(g, p[i], x));
        if !s.contains(p[i]) {
            let k = choose|k: int|
                head <= k < q.len() && (#[trigger] q[k]).0 == p[i] && entry_len(q[k]) <= d[x] + 1;
            assert(false);
        }
    }
}

/// A first node carrying the target exists as soon as any node does.
proof fn lemma_first_target_from(g: ResolutionGraph, target: DistId, i: int) -> (t: int)
    requires
        0 <= i,
        exists|j: int|
            i <= j < g.nodes@.len() && matches_target(#[trigger] g.nodes@[j], target),
        forall|j: int| 0 <= j < i ==> !matches_target(#[trigger] g.nodes@[j], target),
    ensures
        first_target(g, target, t),
    decreases g.nodes@.len() - i,
{
    let j0 = choose|j: int|
        i <= j < g.nodes@.len() && matches_target(#[trigger] g.nodes@[j], target);
    if matches_target(g.nodes@[i], target) {
        i
    } else {
        assert(j0 >= i + 1);
        lemma_first_target_from(g, target, i + 1)
    }
}

/// When the target is a direct requirement of the root — the root has an
/// edge to the target's node — the two-node walk `[target, root]` is a
/// shortest root path, so the chain the graph finder returns for it is
/// empty: with `from_graph`'s contract, the finder returns `Some` of the
/// empty chain on such a graph.
pub proof fn lemma_direct_requirement_empty_chain(g: ResolutionGraph, target: DistId, r: int)
    requires
        g.wf(),
        exists|i: int|
            0 <= i < g.nodes@.len() && matches_target(#[trigger] g.nodes@[i], target),
        0 <= r < g.nodes@.len(),
        node_is_root(g, r),
        points_to(g, r, target_index(g, target)),
    ensures
        exists|ns: Seq<int>| #[trigger] root_path(g, ns, target_index(g, target)),
        forall|ns: Seq<int>|
            (#[trigger] root_path(g, ns, target_index(g, target)) && (forall|ms: Seq<int>|
                #[trigger] root_path(g, ms, target_index(g, target)) ==> ms.len() >= ns.len()))
                ==> chain_of(g, ns) =~= Seq::<StepView>::empty(),
{
    let t = target_index(g, target);
    let t1 = lemma_first_target_from(g, target, 0);
    assert(first_target(g, target, t));
    let ns0 = seq![t, r];
    assert(ns0.last() == r);
    assert forall|i: int| 0 <= i < ns0.len() - 1 implies points_to(g, ns0[i + 1], #[trigger] ns0[i]) by {
        assert(ns0[0] == t && ns0[1] == r);
    }
    assert(ancestry_path(g, ns0, t));
    assert(root_path(g, ns0, t));
    assert forall|ns: Seq<int>|
        (#[trigger] root_path(g, ns, t) && (forall|ms: Seq<int>|
            #[trigger] root_path(g, ms, t) ==> ms.len() >= ns.len())) implies chain_of(g, ns) =~= Seq::<
        StepView,
    >::empty() by {
        if root_path(g, ns, t) && (forall|ms: Seq<int>|
            #[trigger] root_path(g, ms, t) ==> ms.len() >= ns.len()) {
            assert(ns.len() <= ns0.len());
            assert(node_is_dist(g, t));
            if ns.len() == 1 {
                assert(ns.last() == t);
                assert(false);
            }
            assert(ns.len() == 2);
        }
    }
}

/// Queued frontier witnesses survive appending an entry to the queue.
proof fn lemma_frontier_after_push(
    g: ResolutionGraph,
    q: Seq<(usize, Vec<usize>)>,
    v: (usize, Vec<usize>),
    head: int,
    s: Set<int>,
    d: Map<int, int>,
)
    requires
        0 <= head,
        inv_frontier(g, q, head, s, d),
    ensures
        inv_frontier(g, q.push(v), head, s, d),
{
    assert forall|x: int, m: int|
        s.contains(x) && points_to(g, m, x) && !s.contains(m) implies exists|k: int|
        head <= k < q.push(v).len() && (#[trigger] q.push(v)[k]).0 == m && entry_len(
        q.push(v)[k],
    ) <= d[x] + 1 by {
        assert(exists|k: int|
            head <= k < q.len() && (#[trigger] q[k]).0 == m && entry_len(q[k]) <= d[x] + 1);
        let k = choose|k: int|
            head <= k < q.len() && (#[trigger] q[k]).0 == m && entry_len(q[k]) <= d[x] + 1;
        assert(q.push(v)[k] == q[k]);
    }
}

/// Frontier witnesses survive dequeuing an entry whose node is seen.
proof fn lemma_shift_head(
    g: ResolutionGraph,
    t: int,
    q: Seq<(usize, Vec<usize>)>,
    head: int,
    s: Set<int>,
    d: Map<int, int>,
)
    requires
        inv_frontier(g, q, head, s, d),
        inv_start(t, q, head, s),
        0 <= head < q.len(),
        s.contains(q[head].0 as int),
    ensures
        inv_frontier(g, q, head + 1, s, d),
        inv_start(t, q, head + 1, s),
{
    assert forall|x: int, m: int|
        s.contains(x) && points_to(g, m, x) && !s.contains(m) implies exists|k: int|
        head + 1 <= k < q.len() && (#[trigger] q[k]).0 == m && entry_len(q[k]) <= d[x] + 1 by {
        let k = choose|k: int|
            head <= k < q.len() && (#[trigger] q[k]).0 == m && entry_len(q[k]) <= d[x] + 1;
        assert(k != head);
    }
    if !s.contains(t) {
        assert(head == 0);
        assert(s.contains(q[0].0 as int));
        assert(false);
    }
}

/// Dequeuing a distribution node after enqueuing all of its reverse
/// neighbors preserves the search invariants, with the node now seen and
/// its walk length recorded.
proof fn lemma_mark_node(
    g: ResolutionGraph,
    t: int,
    q: Seq<(usize, Vec<usize>)>,
    head: int,
    s: Set<int>,
    d: Map<int, int>,
    node: int,
    l: int,
)
    requires
        inv_entries(g, t, q),
        inv_sorted(q, head),
        inv_seen_basic(g, s, d),
        inv_lens(q, head, s, d),
        inv_frontier(g, q, head, s, d),
        inv_min(g, t, s, d),
        inv_start(t, q, head, s),
        0 <= head < q.len(),
        q[head].0 as int == node,
        entry_len(q[head]) == l,
        0 <= node < g.nodes@.len(),
        node_is_dist(g, node),
        !s.contains(node),
        forall|p: Seq<int>|
            ancestry_path(g, p, t) && (#[trigger] p.last()) == node ==> p.len() >= l,
        forall|k: int|
            0 <= k < g.edges@.len() && (#[trigger] g.edges@[k]).1 as int == node ==> exists|
                kk: int,
            |
                head + 1 <= kk < q.len() && (#[trigger] q[kk]).0 == g.edges@[k].0 && entry_len(
                    q[kk],
                ) == l + 1,
    ensures
        inv_seen_basic(g, s.insert(node), d.insert(node, l)),
        inv_lens(q, head + 1, s.insert(node), d.insert(node, l)),
        inv_frontier(g, q, head + 1, s.insert(node), d.insert(node, l)),
        inv_min(g, t, s.insert(node), d.insert(node, l)),
        inv_start(t, q, head + 1, s.insert(node)),
        s.insert(node).len() == s.len() + 1,
        s.insert(node).len() <= g.nodes@.len(),
{
    let s2 = s.insert(node);
    let d2 = d.insert(node, l);
    vstd::set::axiom_set_insert_len(s, node);
    assert(d2.dom() =~= s2);
    assert(s2.len() <= g.nodes@.len()) by {
        assert forall|x: int|
            s2.contains(x) implies set_int_range(0, g.nodes@.len() as int).contains(x) by {
            if x != node {
                assert(s.contains(x));
            }
            assert(0 <= x < g.nodes@.len());
        }
        assert(s2.subset_of(set_int_range(0, g.nodes@.len() as int)));
        lemma_int_range(0, g.nodes@.len() as int);
        lemma_len_subset(s2, set_int_range(0, g.nodes@.len() as int));
    }
    assert(1 <= l);
    assert forall|x: int, k: int|
        #![trigger d2[x], q[k]]
        s2.contains(x) && head + 1 <= k < q.len() implies d2[x] <= entry_len(q[k]) by {
        if x == node {
            assert(l <= entry_len(q[k]));
        } else {
            assert(d[x] <= entry_len(q[k]));
        }
    }
    assert forall|x: int, m: int|
        s2.contains(x) && points_to(g, m, x) && !s2.contains(m) implies exists|k: int|
        head + 1 <= k < q.len() && (#[trigger] q[k]).0 == m && entry_len(q[k]) <= d2[x] + 1 by {
        if x == node {
            let ke = choose|ke: int|
                0 <= ke < g.edges@.len() && (#[trigger] g.edges@[ke]).0 == m && g.edges@[ke].1
                    == node;
            assert(g.edges@[ke].1 as int == node);
            let kk = choose|kk: int|
                head + 1 <= kk < q.len() && (#[trigger] q[kk]).0 == g.edges@[ke].0 && entry_len(
                    q[kk],
                ) == l + 1;
            assert(q[kk].0 == m && entry_len(q[kk]) <= d2[x] + 1);
        } else {
            assert(s.contains(x) && !s.contains(m));
            assert(exists|k: int|
                head <= k < q.len() && (#[trigger] q[k]).0 == m && entry_len(q[k]) <= d[x] + 1);
            let kk = choose|kk: int|
                head <= kk < q.len() && (#[trigger] q[kk]).0 == m && entry_len(q[kk]) <= d[x] + 1;
            assert(kk != head);
            assert(d2[x] == d[x]);
        }
    }
    assert forall|x: int, p: Seq<int>|
        #![trigger s2.contains(x), ancestry_path(g, p, t)]
        s2.contains(x) && ancestry_path(g, p, t) && p.last() == x implies p.len() >= d2[x] by {
        if x == node {
            assert(p.len() >= l);
        } else {
            assert(p.len() >= d[x]);
        }
    }
    if !s.contains(t) {
        assert(head == 0);
        assert(node == t);
    }
}

/// Copy a vector of node indices.
fn copy_indices(v: &Vec<usize>) -> (r: Vec<usize>)
    ensures
        r@ == v@,
{
    let n = v.len();
    let mut r: Vec<usize> = Vec::new();
    let mut i: usize = 0;
    while i < n
        invariant
            i <= n,
            n == v@.len(),
            r@ == v@.take(i as int),
        decreases n - i,
    {
        r.push(v[i]);
        i = i + 1;
        proof {
            assert(r@ =~= v@.take(i as int));
        }
    }
    proof {
        assert(v@.take(n as int) =~= v@);
    }
    r
}

/// Whether a node carries the target's installable distribution.
fn is_target(n: &ResolutionGraphNode, target: DistId) -> (r: bool)
    ensures
        r == matches_target(*n, target),
{
    match n {
        ResolutionGraphNode::Root => false,
        ResolutionGraphNode::Dist(ad) => match &ad.dist {
            ResolvedDist::Installable(id) => id.0 == target.0,
            ResolvedDist::Installed(_) => false,
        },
    }
}

/// The first node carrying the target's installable distribution.
fn find_target(graph: &ResolutionGraph, target: DistId) -> (ti: usize)
    requires
        exists|i: int|
            0 <= i < graph.nodes@.len() && matches_target(#[trigger] graph.nodes@[i], target),
    ensures
        first_target(*graph, target, ti as int),
{
    let n = graph.nodes.len();
    let mut i: usize = 0;
    while i < n
        invariant
            i <= n,
            n == graph.nodes@.len(),
            forall|j: int| 0 <= j < i ==> !matches_target(#[trigger] graph.nodes@[j], target),
            exists|j: int|
                0 <= j < graph.nodes@.len() && matches_target(#[trigger] graph.nodes@[j], target),
        decreases n - i,
    {
        if is_target(&graph.nodes[i], target) {
            return i;
        }
        i = i + 1;
    }
    proof {
        let w = choose|j: int|
            0 <= j < graph.nodes@.len() && matches_target(#[trigger] graph.nodes@[j], target);
        assert(!matches_target(graph.nodes@[w], target));
        assert(false);
    }
    0
}

impl DerivationChain {
    /// Compute a [`DerivationChain`] from a resolution graph.
    ///
    /// The search runs breadth-first from the first node carrying the
    /// target's installable distribution, following edges in reverse, and
    /// stops at the first dequeued root node; breadth-first order makes the
    /// walk found a shortest one. `Some(c)` means `c` is the chain of a
    /// shortest root path from the target — `c` has exactly two steps fewer
    /// than that path has nodes, the target's own step and the root being
    /// excluded — and every root path from the target is at least as long.
    /// `None` means no path from the target reaches the root at all.
    /// Querying a distribution that is not in the graph is caller misuse,
    /// which the precondition excludes.
    #[verifier::rlimit(100)]
    pub fn from_graph(graph: &ResolutionGraph, target: DistId) -> (res: Option<DerivationChain>)
        requires
            graph.wf(),
            exists|i: int|
                0 <= i < graph.nodes@.len() && matches_target(#[trigger] graph.nodes@[i], target),
        ensures
            ({
                let t = target_index(*graph, target);
                match res {
                    Some(c) => exists|ns: Seq<int>|
                        (#[trigger] root_path(*graph, ns, t)) && c@ == chain_of(*graph, ns)
                            && c@.len() == ns.len() - 2 && (forall|ms: Seq<int>|
                            #[trigger] root_path(*graph, ms, t) ==> ms.len() >= ns.len()),
                    None => forall|ns: Seq<int>| !(#[trigger] root_path(*graph, ns, t)),
                }
            }),
    {
        let ti = find_target(graph, target);
        let ghost t = ti as int;
        proof {
            let t0 = target_index(*graph, target);
            assert(first_target(*graph, target, t));
            assert(first_target(*graph, target, t0));
            if t0 < t {
                assert(!matches_target(graph.nodes@[t0], target));
            } else if t < t0 {
                assert(!matches_target(graph.nodes@[t], target));
            }
            assert(t0 == t);
        }
        let n = graph.nodes.len();
        let mut queue: Vec<(usize, Vec<usize>)> = Vec::new();
        let start_path: Vec<usize> = Vec::new();
        queue.push((ti, start_path));
        let mut head: usize = 0;
        let mut seen = SeenSet::new();
        let ghost mut dist_of: Map<int, int> = Map::empty();
        proof {
            assert(entry_ns(queue@[0]) =~= seq![t]);
            assert(ancestry_path(*graph, entry_ns(queue@[0]), t));
            assert(seen_contents(seen).len() == 0);
        }
        while head < queue.len()
            invariant
                graph.wf(),
                target_index(*graph, target) == t,
                first_target(*graph, target, t),
                head <= queue@.len(),
                inv_entries(*graph, t, queue@),
                inv_sorted(queue@, head as int),
                inv_seen_basic(*graph, seen_contents(seen), dist_of),
                inv_lens(queue@, head as int, seen_contents(seen), dist_of),
                inv_frontier(*graph, queue@, head as int, seen_contents(seen), dist_of),
                inv_min(*graph, t, seen_contents(seen), dist_of),
                inv_start(t, queue@, head as int, seen_contents(seen)),
                seen_contents(seen).len() <= graph.nodes@.len(),
            decreases
                    graph.nodes@.len() - seen_contents(seen).len(),
                    queue@.len() - head,
        {
            let node = queue[head].0;
            proof {
                assert(ancestry_path(*graph, entry_ns(queue@[head as int]), t));
                assert(entry_ns(queue@[head as int]).last() == node as int);
                assert(0 <= node < graph.nodes@.len());
            }
            let ghost s_before = seen_contents(seen);
            let ghost d_before = dist_of;
            let fresh = seen.insert(node);
            if !fresh {
                proof {
                    assert(seen_contents(seen) =~= s_before);
                    lemma_shift_head(
                        *graph,
                        t,
                        queue@,
                        head as int,
                        seen_contents(seen),
                        dist_of,
                    );
                }
                head = head + 1;
                continue;
            }
            let ghost l = entry_len(queue@[head as int]);
            proof {
                assert forall|p: Seq<int>|
                    ancestry_path(*graph, p, t) && p.last() == node as int implies p.len()
                    >= l by {
                    lemma_pop_minimal(*graph, t, queue@, head as int, s_before, d_before, p);
                }
            }
            let is_root = match &graph.nodes[node] {
                ResolutionGraphNode::Root => true,
                ResolutionGraphNode::Dist(_) => false,
            };
            if is_root {
                // The first dequeued root walk ends the search.
                let ghost ns = entry_ns(queue@[head as int]);
                proof {
                    assert(node_is_root(*graph, node as int));
                    assert(root_path(*graph, ns, t));
                    assert(node_is_dist(*graph, t));
                    if queue@[head as int].1@.len() == 0 {
                        assert(ns =~= seq![node as int]);
                        assert(ns[0] == t);
                        assert(false);
                    }
                }
                let k_len = queue[head].1.len();
                let mut steps: Vec<DerivationStep> = Vec::new();
                let mut j: usize = k_len;
                while j > 1
                    invariant
                        1 <= j <= k_len,
                        graph.wf(),
                        head < queue@.len(),
                        k_len == queue@[head as int].1@.len(),
                        inv_entries(*graph, t, queue@),
                        steps@.len() == k_len - j,
                        forall|x: int|
                            0 <= x < steps@.len() ==> (#[trigger] steps@[x])@ == step_at(
                                *graph,
                                queue@[head as int].1@[k_len - 1 - x] as int,
                            ),
                    decreases j,
                {
                    j = j - 1;
                    proof {
                        let e = queue@[head as int];
                        assert(ancestry_path(*graph, entry_ns(e), t));
                        assert(entry_ns(e)[j as int] == e.1@[j as int] as int);
                        assert(0 <= entry_ns(e)[j as int] < graph.nodes@.len());
                        assert(node_is_dist(*graph, e.1@[j as int] as int));
                    }
                    let idx = queue[head].1[j];
                    let ghost prev = steps@;
                    match &graph.nodes[idx] {
                        ResolutionGraphNode::Dist(ad) => {
                            steps.push(DerivationStep::new(ad.name.clone(), ad.version.clone()));
                            proof {
                                assert(graph.nodes@[idx as int] == ResolutionGraphNode::Dist(*ad));
                                assert(steps@.last()@ == step_at(*graph, idx as int));
                            }
                        }
                        ResolutionGraphNode::Root => {
                            proof {
                                assert(false);
                            }
                        }
                    }
                    proof {
                        assert forall|x: int|
                            0 <= x < steps@.len() implies (#[trigger] steps@[x])@ == step_at(
                            *graph,
                            queue@[head as int].1@[k_len - 1 - x] as int,
                        ) by {
                            if x < prev.len() {
                                assert(steps@[x] == prev[x]);
                            } else {
                                assert(steps@[x] == steps@.last());
                            }
                        }
                    }
                }
                let chain = DerivationChain::from_steps(steps);
                proof {
                    // The built steps are exactly the walk's chain.
                    assert(ns.len() == k_len + 1);
                    assert forall|x: int| 0 <= x < k_len implies ns[x] == queue@[head as int].1@[x]
                        as int by {}
                    assert forall|x: int| 0 <= x < chain@.len() implies chain@[x] == chain_of(
                        *graph,
                        ns,
                    )[x] by {
                        assert(chain@[x] == steps@[x]@);
                        assert(ns[k_len - 1 - x] == queue@[head as int].1@[k_len - 1 - x] as int);
                    }
                    assert(chain@ =~= chain_of(*graph, ns));
                    // Minimality: the dequeued walk is a shortest root path.
                    assert forall|ms: Seq<int>| root_path(*graph, ms, t) implies ms.len()
                        >= ns.len() by {
                        assert(node_is_root(*graph, ms.last()));
                        assert(!s_before.contains(ms.last()));
                        lemma_pop_minimal(*graph, t, queue@, head as int, s_before, d_before, ms);
                    }
                    assert(chain@.len() == ns.len() - 2);
                }
                return Some(chain);
            }
            // A distribution node: enqueue every node that depends on it.
            proof {
                assert(node_is_dist(*graph, node as int));
                dist_of = dist_of.insert(node as int, l);
            }
            let base = copy_indices(&queue[head].1);
            let m_edges = graph.edges.len();
            let mut e: usize = 0;
            while e < m_edges
                invariant
                    graph.wf(),
                    m_edges == graph.edges@.len(),
                    e <= m_edges,
                    head < queue@.len(),
                    queue@[head as int].0 == node,
                    base@ == queue@[head as int].1@,
                    l == entry_len(queue@[head as int]),
                    0 <= node < graph.nodes@.len(),
                    node_is_dist(*graph, node as int),
                    seen_contents(seen) == s_before.insert(node as int),
                    dist_of == d_before.insert(node as int, l),
                    inv_entries(*graph, t, queue@),
                    inv_sorted(queue@, head as int),
                    inv_seen_basic(*graph, s_before, d_before),
                    inv_lens(queue@, head as int, s_before, d_before),
                    inv_frontier(*graph, queue@, head as int, s_before, d_before),
                    inv_min(*graph, t, s_before, d_before),
                    inv_start(t, queue@, head as int, s_before),
                    forall|p: Seq<int>|
                        ancestry_path(*graph, p, t) && (#[trigger] p.last()) == node as int
                            ==> p.len() >= l,
                    forall|k: int|
                        0 <= k < e && (#[trigger] graph.edges@[k]).1 == node ==> exists|kk: int|
                            head + 1 <= kk < queue@.len() && (#[trigger] queue@[kk]).0
                                == graph.edges@[k].0 && entry_len(queue@[kk]) == l + 1,
                decreases m_edges - e,
            {
                if graph.edges[e].1 == node {
                    let mut p2 = copy_indices(&base);
                    p2.push(node);
                    let dep = graph.edges[e].0;
                    let ghost q_old = queue@;
                    queue.push((dep, p2));
                    proof {
                        let v = (dep, p2);
                        let ghost k_new = q_old.len() as int;
                        assert(queue@ == q_old.push(v));
                        assert(queue@[k_new] == v);
                        // The new entry extends the dequeued walk by `dep`.
                        assert(entry_ns(v) =~= entry_ns(q_old[head as int]).push(dep as int));
                        assert(points_to(*graph, dep as int, node as int));
                        let old_ns = entry_ns(q_old[head as int]);
                        let new_ns = entry_ns(v);
                        assert(ancestry_path(*graph, old_ns, t));
                        assert forall|i: int| 0 <= i < new_ns.len() - 1 implies points_to(
                            *graph,
                            new_ns[i + 1],
                            #[trigger] new_ns[i],
                        ) by {
                            if i < old_ns.len() - 1 {
                                assert(new_ns[i] == old_ns[i]);
                                assert(new_ns[i + 1] == old_ns[i + 1]);
                            } else {
                                assert(new_ns[i] == old_ns.last());
                            }
                        }
                        assert(ancestry_path(*graph, new_ns, t));
                        assert(entry_len(v) == l + 1);
                        // All prior invariants survive the push.
                        assert forall|k: int|
                            0 <= k < queue@.len() implies ancestry_path(
                            *graph,
                            entry_ns(#[trigger] queue@[k]),
                            t,
                        ) by {
                            if k < k_new {
                                assert(queue@[k] == q_old[k]);
                            }
                        }
                        assert forall|k: int, jj: int|
                            0 <= k < queue@.len() && 0 <= jj < queue@[k].1@.len() implies
                            node_is_dist(*graph, #[trigger] queue@[k].1@[jj] as int) by {
                            if k < k_new {
                                assert(queue@[k] == q_old[k]);
                            } else {
                                assert(queue@[k] == v);
                                if jj < base@.len() {
                                    assert(v.1@[jj] == q_old[head as int].1@[jj]);
                                }
                            }
                        }
                        assert forall|k1: int, k2: int|
                            head as int <= k1 <= k2 < queue@.len() implies entry_len(
                            #[trigger] queue@[k1],
                        ) <= entry_len(#[trigger] queue@[k2]) && entry_len(queue@[k2]) <= entry_len(
                            queue@[k1],
                        ) + 1 by {
                            if k1 < k_new {
                                assert(queue@[k1] == q_old[k1]);
                            }
                            if k2 < k_new {
                                assert(queue@[k2] == q_old[k2]);
                            }
                            if k2 == k_new {
                                assert(entry_len(queue@[k2]) == l + 1);
                            }
                        }
                        assert forall|x: int, k: int|
                            #![trigger d_before[x], queue@[k]]
                            s_before.contains(x) && head as int <= k < queue@.len() implies
                            d_before[x] <= entry_len(queue@[k]) by {
                            if k < k_new {
                                assert(queue@[k] == q_old[k]);
                            } else {
                                assert(d_before[x] <= entry_len(q_old[head as int]));
                            }
                        }
                        lemma_frontier_after_push(
                            *graph,
                            q_old,
                            v,
                            head as int,
                            s_before,
                            d_before,
                        );
                        assert(inv_start(t, queue@, head as int, s_before));
                        // The edge just scanned now has its queued witness.
                        assert forall|k: int|
                            0 <= k < e + 1 && (#[trigger] graph.edges@[k]).1 == node implies exists|
                            kk: int,
                        |
                            head as int + 1 <= kk < queue@.len() && (#[trigger] queue@[kk]).0
                                == graph.edges@[k].0 && entry_len(queue@[kk]) == l + 1 by {
                            if k < e {
                                let kk = choose|kk: int|
                                    head as int + 1 <= kk < q_old.len() && (#[trigger] q_old[kk]).0
                                        == graph.edges@[k].0 && entry_len(q_old[kk]) == l + 1;
                                assert(queue@[kk] == q_old[kk]);
                            } else {
                                assert(queue@[k_new].0 == graph.edges@[k].0);
                            }
                        }
                    }
                }
                e = e + 1;
            }
            proof {
                lemma_mark_node(
                    *graph,
                    t,
                    queue@,
                    head as int,
                    s_before,
                    d_before,
                    node as int,
                    l,
                );
                assert(seen_contents(seen) == s_before.insert(node as int));
                assert(dist_of == d_before.insert(node as int, l));
            }
            head = head + 1;
        }
        proof {
            assert forall|ns: Seq<int>| !(#[trigger] root_path(*graph, ns, t)) by {
                if root_path(*graph, ns, t) {
                    lemma_exhausted_all_seen(
                        *graph,
                        t,
                        queue@,
                        head as int,
                        seen_contents(seen),
                        dist_of,
                        ns,
                        ns.len() - 1,
                    );
                    assert(node_is_dist(*graph, ns.last()));
                    assert(false);
                }
            }
        }
        None
    }
}

} // verus!
