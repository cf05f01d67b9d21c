//! Leveled graph traversal: partition a resolved dependency graph into
//! breadth-first tiers measured from its roots and select the package
//! names of one tier, or of every tier beyond the roots.

use vstd::prelude::*;

verus! {

/// A resolved dependency graph. Nodes are integer indices into
/// `names`; `edges[i]` lists the direct dependencies of node `i`
/// (edges point from a dependent to its dependencies).
pub struct DepGraph {
    pub names: Vec<String>,
    pub edges: Vec<Vec<usize>>,
}

impl DepGraph {
    /// Well-formedness: one adjacency row per node, and every edge
    /// target is a node of the graph.
    pub open spec fn wf(self) -> bool {
        &&& self.edges@.len() == self.names@.len()
        &&& forall|i: int, j: int|
            0 <= i < self.edges@.len() && 0 <= j < self.edges@[i]@.len() ==> (
            #[trigger] self.edges@[i]@[j]) < self.names@.len()
    }

    /// The number of nodes.
    pub open spec fn node_count(self) -> int {
        self.names@.len() as int
    }

    /// There is an edge from node `from` to node `to`.
    pub open spec fn has_edge(self, from: int, to: int) -> bool {
        &&& 0 <= from < self.node_count()
        &&& exists|j: int| 0 <= j < self.edges@[from]@.len() && self.edges@[from]@[j] == to
    }

    /// A root: a node with no incoming edge. Roots are the project's
    /// own directly declared packages.
    pub open spec fn is_root(self, v: int) -> bool {
        &&& 0 <= v < self.node_count()
        &&& forall|u: int| !self.has_edge(u, v)
    }

    /// The nodes at breadth-first distance `k` from the roots: the
    /// roots themselves at `k == 0`, and at `k + 1` every target of an
    /// edge leaving tier `k`. A node reachable along walks of several
    /// lengths belongs to several tiers.
    pub open spec fn frontier(self, k: nat) -> Set<int>
        decreases k,
    {
        if k == 0 {
            Set::new(|v: int| self.is_root(v))
        } else {
            Set::new(
                |v: int|
                    exists|u: int|
                        self.frontier((k - 1) as nat).contains(u) && self.has_edge(u, v),
            )
        }
    }

    /// The package names present at tier `k`.
    pub open spec fn level_names(self, k: nat) -> Set<Seq<char>> {
        Set::new(
            |n: Seq<char>|
                exists|v: int| self.frontier(k).contains(v) && #[trigger] self.names@[v]@ == n,
        )
    }

    /// The union of the names of tiers `1 ..= k` (the roots' tier is
    /// never included).
    pub open spec fn levels_union(self, k: nat) -> Set<Seq<char>>
        decreases k,
    {
        if k == 0 {
            Set::empty()
        } else {
            self.levels_union((k - 1) as nat).union(self.level_names(k))
        }
    }

    /// The names of every tier at distance 1 or more from the roots,
    /// with no bound on the distance.
    pub open spec fn all_deep_names(self) -> Set<Seq<char>> {
        Set::new(
            |n: Seq<char>| exists|k: nat| 1 <= k && #[trigger] self.level_names(k).contains(n),
        )
    }

    /// No two nodes carry the same package name.
    pub open spec fn distinct_names(self) -> bool {
        forall|i: int, j: int|
            0 <= i < self.names@.len() && 0 <= j < self.names@.len() && i != j
                ==> #[trigger] self.names@[i]@ != #[trigger] self.names@[j]@
    }
}

/// Every node of a tier is a node of the graph.
pub proof fn lemma_frontier_in_bounds(g: DepGraph, k: nat)
    requires
        g.wf(),
    ensures
        forall|v: int| #[trigger] g.frontier(k).contains(v) ==> 0 <= v < g.node_count(),
    decreases k,
{
    if k > 0 {
        lemma_frontier_in_bounds(g, (k - 1) as nat);
        assert forall|v: int| #[trigger] g.frontier(k).contains(v) implies 0 <= v
            < g.node_count() by {
            let u = choose|u: int| g.frontier((k - 1) as nat).contains(u) && g.has_edge(u, v);
            let j = choose|j: int| 0 <= j < g.edges@[u]@.len() && g.edges@[u]@[j] == v;
            assert(g.edges@[u]@[j] < g.names@.len());
        }
    }
}

/// Once a tier is empty, every later tier is empty.
pub proof fn lemma_frontier_empty_mono(g: DepGraph, k: nat, m: nat)
    requires
        g.frontier(k).is_empty(),
        k <= m,
    ensures
        g.frontier(m).is_empty(),
    decreases m,
{
    if m > k {
        lemma_frontier_empty_mono(g, k, (m - 1) as nat);
        assert forall|v: int| !g.frontier(m).contains(v) by {
            if g.frontier(m).contains(v) {
                let u = choose|u: int| g.frontier((m - 1) as nat).contains(u) && g.has_edge(u, v);
                assert(!g.frontier((m - 1) as nat).contains(u));
            }
        }
        assert(g.frontier(m) =~= Set::empty());
    }
}

/// A name lies in the union of tiers `1 ..= m` exactly when some tier
/// in that range holds it.
pub proof fn lemma_levels_union_char(g: DepGraph, m: nat)
    ensures
        forall|n: Seq<char>|
            #[trigger] g.levels_union(m).contains(n) <==> exists|k: nat|
                1 <= k <= m && #[trigger] g.level_names(k).contains(n),
    decreases m,
{
    if m > 0 {
        lemma_levels_union_char(g, (m - 1) as nat);
        assert forall|n: Seq<char>| #[trigger] g.levels_union(m).contains(n) implies exists|k: nat|
            1 <= k <= m && #[trigger] g.level_names(k).contains(n) by {
            if g.levels_union((m - 1) as nat).contains(n) {
                let k = choose|k: nat| 1 <= k <= m - 1 && #[trigger] g.level_names(k).contains(n);
                assert(1 <= k <= m && g.level_names(k).contains(n));
            } else {
                assert(g.level_names(m).contains(n));
            }
        }
        assert forall|n: Seq<char>|
            (exists|k: nat| 1 <= k <= m && #[trigger] g.level_names(k).contains(n)) implies (
        #[trigger] g.levels_union(m).contains(n)) by {
            let k = choose|k: nat| 1 <= k <= m && #[trigger] g.level_names(k).contains(n);
            if k <= m - 1 {
                assert(g.levels_union((m - 1) as nat).contains(n));
            } else {
                assert(g.level_names(m).contains(n));
            }
        }
    }
}

/// Once a tier `k` is empty, the union of tiers never grows past
/// `k - 1`: the traversal has nothing more to add.
pub proof fn lemma_levels_union_stable(g: DepGraph, k: nat, m: nat)
    requires
        g.frontier(k).is_empty(),
        k <= m,
    ensures
        g.levels_union(m) == if k == 0 {
            Set::<Seq<char>>::empty()
        } else {
            g.levels_union((k - 1) as nat)
        },
    decreases m,
{
    if k == 0 {
        lemma_levels_union_char(g, m);
        assert forall|n: Seq<char>| !g.levels_union(m).contains(n) by {
            if g.levels_union(m).contains(n) {
                let j = choose|j: nat| 1 <= j <= m && #[trigger] g.level_names(j).contains(n);
                lemma_frontier_empty_mono(g, 0, j);
                let v = choose|v: int|
                    g.frontier(j).contains(v) && #[trigger] g.names@[v]@ == n;
            }
        }
        assert(g.levels_union(m) =~= Set::empty());
    } else if m >= k {
        if m == k {
            assert(g.level_names(m) =~= Set::empty()) by {
                assert forall|n: Seq<char>| !g.level_names(m).contains(n) by {
                    if g.level_names(m).contains(n) {
                        let v = choose|v: int|
                            g.frontier(m).contains(v) && #[trigger] g.names@[v]@ == n;
                    }
                }
            }
            assert(g.levels_union(m) =~= g.levels_union((k - 1) as nat));
        } else {
            lemma_levels_union_stable(g, k, (m - 1) as nat);
            lemma_frontier_empty_mono(g, k, m);
            assert(g.level_names(m) =~= Set::empty()) by {
                assert forall|n: Seq<char>| !g.level_names(m).contains(n) by {
                    if g.level_names(m).contains(n) {
                        let v = choose|v: int|
                            g.frontier(m).contains(v) && #[trigger] g.names@[v]@ == n;
                    }
                }
            }
            assert(g.levels_union(m) =~= g.levels_union((k - 1) as nat));
        }
    }
}

/// A root's name never appears in a selection: no tier at distance 1
/// or more, and no union of such tiers, holds the name of a node with
/// no incoming edge — provided no two nodes share a name.
pub proof fn lemma_root_name_excluded(g: DepGraph, v: int, m: nat)
    requires
        g.wf(),
        g.distinct_names(),
        g.is_root(v),
    ensures
        forall|k: nat| 1 <= k ==> !(#[trigger] g.level_names(k)).contains(g.names@[v]@),
        !g.levels_union(m).contains(g.names@[v]@),
        !g.all_deep_names().contains(g.names@[v]@),
{
    assert forall|k: nat| 1 <= k implies !(#[trigger] g.level_names(k)).contains(
        g.names@[v]@,
    ) by {
        if g.level_names(k).contains(g.names@[v]@) {
            let u = choose|u: int|
                g.frontier(k).contains(u) && #[trigger] g.names@[u]@ == g.names@[v]@;
            lemma_frontier_in_bounds(g, k);
            assert(0 <= u < g.node_count());
            if u != v {
                assert(g.names@[u]@ != g.names@[v]@);
            }
            assert(g.frontier(k).contains(v));
            let w = choose|w: int| g.frontier((k - 1) as nat).contains(w) && g.has_edge(w, v);
            assert(!g.has_edge(w, v));
        }
    }
    lemma_levels_union_char(g, m);
    if g.levels_union(m).contains(g.names@[v]@) {
        let k = choose|k: nat| 1 <= k <= m && #[trigger] g.level_names(k).contains(g.names@[v]@);
    }
    if g.all_deep_names().contains(g.names@[v]@) {
        let k = choose|k: nat| 1 <= k && #[trigger] g.level_names(k).contains(g.names@[v]@);
    }
}

/// A node's shortest distance from the roots is `d` when tier `d` is
/// the first tier that holds it.
pub open spec fn shortest_depth(g: DepGraph, v: int, d: nat) -> bool {
    &&& g.frontier(d).contains(v)
    &&& forall|k: nat| k < d ==> !(#[trigger] g.frontier(k)).contains(v)
}

/// Every node sits in at most one tier: all walks from a root to a
/// given node have one length.
pub open spec fn single_tier(g: DepGraph) -> bool {
    forall|k1: nat, k2: nat, v: int|
        #[trigger] g.frontier(k1).contains(v) && #[trigger] g.frontier(k2).contains(v) ==> k1
            == k2
}

/// Querying one depth returns exactly the names whose shortest
/// distance from the roots is that depth, in any graph whose nodes
/// each sit in a single tier.
pub proof fn lemma_depth_query_is_shortest_distance(g: DepGraph, d: nat)
    requires
        g.wf(),
        single_tier(g),
    ensures
        g.level_names(d) == Set::new(
            |n: Seq<char>|
                exists|v: int| shortest_depth(g, v, d) && #[trigger] g.names@[v]@ == n,
        ),
{
    let rhs = Set::new(
        |n: Seq<char>| exists|v: int| shortest_depth(g, v, d) && #[trigger] g.names@[v]@ == n,
    );
    assert forall|n: Seq<char>| g.level_names(d).contains(n) implies rhs.contains(n) by {
        let v = choose|v: int| g.frontier(d).contains(v) && #[trigger] g.names@[v]@ == n;
        assert forall|k: nat| k < d implies !(#[trigger] g.frontier(k)).contains(v) by {
            if g.frontier(k).contains(v) {
                assert(g.frontier(d).contains(v));
            }
        }
        assert(shortest_depth(g, v, d));
    }
    assert forall|n: Seq<char>| rhs.contains(n) implies g.level_names(d).contains(n) by {
        let v = choose|v: int| shortest_depth(g, v, d) && #[trigger] g.names@[v]@ == n;
        assert(g.frontier(d).contains(v));
    }
    assert(g.level_names(d) =~= rhs);
}

/// With no depth requested the traversal collects the union of every
/// tier at distance 1 or more: the traversal bound cuts nothing off in
/// a graph whose tiers run out within it.
pub proof fn lemma_no_depth_collects_every_tier(g: DepGraph, k: nat)
    requires
        g.wf(),
        g.frontier(k).is_empty(),
        k <= 256,
    ensures
        g.levels_union(255) == g.all_deep_names(),
{
    lemma_levels_union_char(g, 255);
    assert forall|n: Seq<char>|
        g.levels_union(255).contains(n) implies g.all_deep_names().contains(n) by {
        let j = choose|j: nat| 1 <= j <= 255 && #[trigger] g.level_names(j).contains(n);
    }
    assert forall|n: Seq<char>|
        g.all_deep_names().contains(n) implies g.levels_union(255).contains(n) by {
        let j = choose|j: nat| 1 <= j && #[trigger] g.level_names(j).contains(n);
        if j > 255 {
            lemma_frontier_empty_mono(g, k, j);
            let v = choose|v: int| g.frontier(j).contains(v) && #[trigger] g.names@[v]@ == n;
        } else {
            assert(1 <= j <= 255 && g.level_names(j).contains(n));
        }
    }
    assert(g.levels_union(255) =~= g.all_deep_names());
}

/// The no-depth result covers every single-depth result that lies
/// within the traversal bound.
pub proof fn lemma_union_covers_each_depth(g: DepGraph, d: nat)
    requires
        1 <= d <= 255,
    ensures
        g.level_names(d).subset_of(g.levels_union(255)),
{
    lemma_levels_union_char(g, 255);
    assert forall|n: Seq<char>|
        g.level_names(d).contains(n) implies g.levels_union(255).contains(n) by {
        assert(1 <= d <= 255 && g.level_names(d).contains(n));
    }
}

/// The set of node indices that a list of indices denotes.
pub open spec fn idx_set(s: Seq<usize>) -> Set<int> {
    Set::new(|v: int| exists|t: int| 0 <= t < s.len() && (#[trigger] s[t]) as int == v)
}

/// The set of names that a list of strings denotes.
pub open spec fn name_set(s: Seq<String>) -> Set<Seq<char>> {
    Set::new(|n: Seq<char>| exists|t: int| 0 <= t < s.len() && (#[trigger] s[t])@ == n)
}

/// Pairwise distinct names in a list.
pub open spec fn names_distinct(s: Seq<String>) -> bool {
    forall|i: int, j: int|
        0 <= i < s.len() && 0 <= j < s.len() && i != j ==> (#[trigger] s[i])@ != (#[trigger] s[j])@
}

proof fn lemma_idx_set_push(s: Seq<usize>, x: usize)
    ensures
        idx_set(s.push(x)) == idx_set(s).insert(x as int),
{
    assert forall|v: int| idx_set(s.push(x)).contains(v) implies idx_set(s).insert(
        x as int,
    ).contains(v) by {
        let t = choose|t: int| 0 <= t < s.push(x).len() && (#[trigger] s.push(x)[t]) as int == v;
        if t < s.len() {
            assert(s.push(x)[t] == s[t]);
            assert(idx_set(s).contains(v));
        }
    }
    assert forall|v: int| idx_set(s).insert(x as int).contains(v) implies idx_set(
        s.push(x),
    ).contains(v) by {
        if idx_set(s).contains(v) {
            let t = choose|t: int| 0 <= t < s.len() && (#[trigger] s[t]) as int == v;
            assert(s.push(x)[t] == s[t]);
        } else {
            assert(s.push(x)[s.len() as int] == x);
        }
    }
    assert(idx_set(s.push(x)) =~= idx_set(s).insert(x as int));
}

proof fn lemma_name_set_push(s: Seq<String>, x: String)
    ensures
        name_set(s.push(x)) == name_set(s).insert(x@),
{
    assert forall|n: Seq<char>| name_set(s.push(x)).contains(n) implies name_set(s).insert(
        x@,
    ).contains(n) by {
        let t = choose|t: int| 0 <= t < s.push(x).len() && (#[trigger] s.push(x)[t])@ == n;
        if t < s.len() {
            assert(s.push(x)[t] == s[t]);
            assert(name_set(s).contains(n));
        }
    }
    assert forall|n: Seq<char>| name_set(s).insert(x@).contains(n) implies name_set(
        s.push(x),
    ).contains(n) by {
        if name_set(s).contains(n) {
            let t = choose|t: int| 0 <= t < s.len() && (#[trigger] s[t])@ == n;
            assert(s.push(x)[t] == s[t]);
        } else {
            assert(s.push(x)[s.len() as int] == x);
        }
    }
    assert(name_set(s.push(x)) =~= name_set(s).insert(x@));
}

/// Does `names` already hold a string spelled like `x`?
fn contains_name(names: &Vec<String>, x: &String) -> (r: bool)
    ensures
        r == name_set(names@).contains(x@),
{
    let mut i: usize = 0;
    while i < names.len()
        invariant
            i <= names@.len(),
            forall|t: int| 0 <= t < i ==> (#[trigger] names@[t])@ != x@,
        decreases names@.len() - i,
    {
        if names[i].eq(x) {
            proof {
                assert((names@[i as int])@ == x@);
            }
            return true;
        }
        i = i + 1;
    }
    proof {
        if name_set(names@).contains(x@) {
            let t = choose|t: int| 0 <= t < names@.len() && (#[trigger] names@[t])@ == x@;
        }
    }
    false
}

/// Appends to `dst` each name of `src` that `dst` does not yet hold,
/// so that `dst` comes to denote the union of both sets and stays free
/// of duplicates.
fn extend_dedup(dst: &mut Vec<String>, src: &Vec<String>)
    requires
        names_distinct(old(dst)@),
    ensures
        names_distinct(final(dst)@),
        name_set(final(dst)@) == name_set(old(dst)@).union(name_set(src@)),
{
    let mut i: usize = 0;
    while i < src.len()
        invariant
            i <= src@.len(),
            names_distinct(dst@),
            forall|t: int|
                0 <= t < dst@.len() ==> name_set(old(dst)@).contains((#[trigger] dst@[t])@)
                    || name_set(src@).contains(dst@[t]@),
            forall|t: int|
                0 <= t < old(dst)@.len() ==> name_set(dst@).contains((#[trigger] old(dst)@[t])@),
            forall|t: int| 0 <= t < i ==> name_set(dst@).contains((#[trigger] src@[t])@),
        decreases src@.len() - i,
    {
        let ghost pre = dst@;
        if !contains_name(dst, &src[i]) {
            dst.push(src[i].clone());
            proof {
                lemma_name_set_push(pre, src@[i as int]);
                assert(name_set(src@).contains((src@[i as int])@));
            }
        }
        i = i + 1;
    }
    proof {
        assert forall|n: Seq<char>| name_set(dst@).contains(n) implies name_set(
            old(dst)@,
        ).union(name_set(src@)).contains(n) by {
            let t = choose|t: int| 0 <= t < dst@.len() && (#[trigger] dst@[t])@ == n;
        }
        assert forall|n: Seq<char>|
            name_set(old(dst)@).union(name_set(src@)).contains(n) implies name_set(
            dst@,
        ).contains(n) by {
            if name_set(old(dst)@).contains(n) {
                let t = choose|t: int| 0 <= t < old(dst)@.len() && (#[trigger] old(dst)@[t])@ == n;
            } else {
                let t = choose|t: int| 0 <= t < src@.len() && (#[trigger] src@[t])@ == n;
            }
        }
        assert(name_set(dst@) =~= name_set(old(dst)@).union(name_set(src@)));
    }
}

/// Enumerates the roots of the graph: exactly the nodes with no
/// incoming edge.
fn find_roots(g: &DepGraph) -> (r: Vec<usize>)
    requires
        g.wf(),
    ensures
        idx_set(r@) == g.frontier(0),
        forall|t: int| 0 <= t < r@.len() ==> (#[trigger] r@[t]) < g.names@.len(),
{
    let n = g.names.len();
    let mut has_incoming: Vec<bool> = Vec::new();
    let mut i: usize = 0;
    while i < n
        invariant
            i <= n,
            has_incoming@.len() == i,
            forall|t: int| 0 <= t < i ==> (#[trigger] has_incoming@[t]) == false,
        decreases n - i,
    {
        has_incoming.push(false);
        i = i + 1;
    }
    let mut u: usize = 0;
    while u < g.edges.len()
        invariant
            g.wf(),
            n == g.names@.len(),
            has_incoming@.len() == n,
            u <= g.edges@.len(),
            forall|v: int|
                0 <= v < n ==> ((#[trigger] has_incoming@[v]) <==> exists|a: int, jj: int|
                    0 <= a < u && 0 <= jj < g.edges@[a]@.len() && (#[trigger] g.edges@[a]@[jj])
                        as int == v),
        decreases g.edges@.len() - u,
    {
        let mut j: usize = 0;
        while j < g.edges[u].len()
            invariant
                g.wf(),
                n == g.names@.len(),
                has_incoming@.len() == n,
                u < g.edges@.len(),
                j <= g.edges@[u as int]@.len(),
                forall|v: int|
                    0 <= v < n ==> ((#[trigger] has_incoming@[v]) <==> (exists|a: int, jj: int|
                        0 <= a < u && 0 <= jj < g.edges@[a]@.len() && (#[trigger] g.edges@[a]@[jj])
                            as int == v) || (exists|jj: int|
                        0 <= jj < j && (#[trigger] g.edges@[u as int]@[jj]) as int == v)),
            decreases g.edges@[u as int]@.len() - j,
        {
            let tgt = g.edges[u][j];
            has_incoming.set(tgt, true);
            j = j + 1;
        }
        u = u + 1;
    }
    let mut roots: Vec<usize> = Vec::new();
    let mut v: usize = 0;
    while v < n
        invariant
            g.wf(),
            n == g.names@.len(),
            has_incoming@.len() == n,
            v <= n,
            forall|v2: int|
                0 <= v2 < n ==> ((#[trigger] has_incoming@[v2]) <==> exists|a: int, jj: int|
                    0 <= a < g.edges@.len() && 0 <= jj < g.edges@[a]@.len() && (
                    #[trigger] g.edges@[a]@[jj]) as int == v2),
            forall|t: int| 0 <= t < roots@.len() ==> (#[trigger] roots@[t]) < n,
            forall|t: int| 0 <= t < roots@.len() ==> g.is_root((#[trigger] roots@[t]) as int),
            forall|w: int| 0 <= w < v && g.is_root(w) ==> idx_set(roots@).contains(w),
        decreases n - v,
    {
        let ghost pre = roots@;
        if !has_incoming[v] {
            proof {
                assert forall|u2: int| !g.has_edge(u2, v as int) by {
                    if g.has_edge(u2, v as int) {
                        let jj = choose|jj: int|
                            0 <= jj < g.edges@[u2]@.len() && g.edges@[u2]@[jj] == v as int;
                        assert(has_incoming@[v as int]);
                    }
                }
            }
            roots.push(v);
            proof {
                lemma_idx_set_push(pre, v);
            }
        } else {
            proof {
                let (a, jj) = choose|a: int, jj: int|
                    0 <= a < g.edges@.len() && 0 <= jj < g.edges@[a]@.len() && (
                    #[trigger] g.edges@[a]@[jj]) as int == v as int;
                assert(g.edges@[a]@[jj] as int == v as int);
                assert(g.has_edge(a, v as int));
                assert(!g.is_root(v as int));
            }
        }
        v = v + 1;
    }
    proof {
        assert forall|w: int| idx_set(roots@).contains(w) implies g.frontier(0).contains(w) by {
            let t = choose|t: int| 0 <= t < roots@.len() && (#[trigger] roots@[t]) as int == w;
        }
        assert forall|w: int| g.frontier(0).contains(w) implies idx_set(roots@).contains(w) by {
            assert(g.is_root(w));
        }
        assert(idx_set(roots@) =~= g.frontier(0));
    }
    roots
}

/// Walks the graph outward from its roots in breadth-first tiers and
/// returns the distinct package names selected for downgrading: the
/// names of tier `depth` when a depth is requested, and otherwise the
/// names of every tier from 1 up to the traversal bound of 255, past
/// which a pathologically deep (or cyclic) graph is cut off rather
/// than walked forever.
pub fn get_dependencies(g: &DepGraph, depth: Option<u8>) -> (r: Vec<String>)
    requires
        g.wf(),
        match depth {
            Some(d) => d >= 1,
            None => true,
        },
    ensures
        names_distinct(r@),
        match depth {
            Some(d) => name_set(r@) == g.level_names(d as nat),
            None => name_set(r@) == g.levels_union(255),
        },
{
    let mut worklist: Vec<usize> = find_roots(g);
    let mut acc: Vec<String> = Vec::new();
    let mut level: u16 = 0;
    while worklist.len() > 0 && level < 256
        invariant
            g.wf(),
            level <= 256,
            idx_set(worklist@) == g.frontier(level as nat),
            forall|t: int| 0 <= t < worklist@.len() ==> (#[trigger] worklist@[t]) < g.names@.len(),
            names_distinct(acc@),
            match depth {
                Some(d) => d >= 1 && level <= d as u16 && acc@.len() == 0,
                None => {
                    &&& level > 0 ==> name_set(acc@) == g.levels_union((level - 1) as nat)
                    &&& level == 0 ==> acc@.len() == 0
                },
            },
        decreases 256 - level,
    {
        let mut next: Vec<usize> = Vec::new();
        let mut cur_names: Vec<String> = Vec::new();
        let mut p: usize = 0;
        while p < worklist.len()
            invariant
                g.wf(),
                p <= worklist@.len(),
                forall|t: int|
                    0 <= t < worklist@.len() ==> (#[trigger] worklist@[t]) < g.names@.len(),
                names_distinct(cur_names@),
                forall|t: int|
                    0 <= t < cur_names@.len() ==> exists|a: int|
                        0 <= a < p && g.names@[(#[trigger] worklist@[a]) as int]@ == (
                        #[trigger] cur_names@[t])@,
                forall|a: int|
                    0 <= a < p ==> name_set(cur_names@).contains(
                        g.names@[(#[trigger] worklist@[a]) as int]@,
                    ),
                forall|t: int| 0 <= t < next@.len() ==> (#[trigger] next@[t]) < g.names@.len(),
                forall|t: int|
                    0 <= t < next@.len() ==> exists|a: int|
                        0 <= a < p && g.has_edge(
                            worklist@[a] as int,
                            (#[trigger] next@[t]) as int,
                        ),
                forall|a: int, jj: int|
                    0 <= a < p && 0 <= jj < g.edges@[worklist@[a] as int]@.len() ==> idx_set(
                        next@,
                    ).contains((#[trigger] g.edges@[worklist@[a] as int]@[jj]) as int),
            decreases worklist@.len() - p,
        {
            let idx = worklist[p];
            let ghost pre_names = cur_names@;
            if !contains_name(&cur_names, &g.names[idx]) {
                cur_names.push(g.names[idx].clone());
                proof {
                    lemma_name_set_push(pre_names, g.names@[idx as int]);
                }
            }
            let mut j: usize = 0;
            while j < g.edges[idx].len()
                invariant
                    g.wf(),
                    p < worklist@.len(),
                    idx == worklist@[p as int],
                    idx < g.names@.len(),
                    j <= g.edges@[idx as int]@.len(),
                    forall|t: int| 0 <= t < next@.len() ==> (#[trigger] next@[t]) < g.names@.len(),
                    forall|t: int|
                        0 <= t < next@.len() ==> exists|a: int|
                            0 <= a <= p && g.has_edge(
                                worklist@[a] as int,
                                (#[trigger] next@[t]) as int,
                            ),
                    forall|a: int, jj: int|
                        0 <= a < p && 0 <= jj < g.edges@[worklist@[a] as int]@.len() ==> idx_set(
                            next@,
                        ).contains((#[trigger] g.edges@[worklist@[a] as int]@[jj]) as int),
                    forall|jj: int|
                        0 <= jj < j ==> idx_set(next@).contains(
                            (#[trigger] g.edges@[idx as int]@[jj]) as int,
                        ),
                decreases g.edges@[idx as int]@.len() - j,
            {
                let ghost pre_next = next@;
                let child = g.edges[idx][j];
                next.push(child);
                proof {
                    lemma_idx_set_push(pre_next, child);
                    assert(g.has_edge(worklist@[p as int] as int, child as int));
                }
                j = j + 1;
            }
            p = p + 1;
        }
        proof {
            assert forall|n: Seq<char>|
                name_set(cur_names@).contains(n) implies g.level_names(level as nat).contains(
                n,
            ) by {
                let t = choose|t: int| 0 <= t < cur_names@.len() && (#[trigger] cur_names@[t])@
                    == n;
                let a = choose|a: int|
                    0 <= a < worklist@.len() && g.names@[#[trigger] worklist@[a] as int]@ == n;
                assert(idx_set(worklist@).contains(worklist@[a] as int));
                assert(g.frontier(level as nat).contains(worklist@[a] as int));
            }
            assert forall|n: Seq<char>|
                g.level_names(level as nat).contains(n) implies name_set(cur_names@).contains(
                n,
            ) by {
                let v = choose|v: int|
                    g.frontier(level as nat).contains(v) && #[trigger] g.names@[v]@ == n;
                let t = choose|t: int|
                    0 <= t < worklist@.len() && (#[trigger] worklist@[t]) as int == v;
                assert(name_set(cur_names@).contains(g.names@[worklist@[t] as int]@));
            }
            assert(name_set(cur_names@) =~= g.level_names(level as nat));
            assert forall|w: int|
                idx_set(next@).contains(w) implies g.frontier((level + 1) as nat).contains(w) by {
                let t = choose|t: int| 0 <= t < next@.len() && (#[trigger] next@[t]) as int == w;
                let a = choose|a: int|
                    0 <= a < worklist@.len() && g.has_edge(worklist@[a] as int, w);
                assert(idx_set(worklist@).contains(worklist@[a] as int));
                assert(g.frontier(level as nat).contains(worklist@[a] as int));
            }
            assert forall|w: int|
                g.frontier((level + 1) as nat).contains(w) implies idx_set(next@).contains(w) by {
                let u = choose|u: int|
                    g.frontier(level as nat).contains(u) && g.has_edge(u, w);
                let t = choose|t: int|
                    0 <= t < worklist@.len() && (#[trigger] worklist@[t]) as int == u;
                let jj = choose|jj: int| 0 <= jj < g.edges@[u]@.len() && g.edges@[u]@[jj] == w;
                assert(idx_set(next@).contains(g.edges@[worklist@[t] as int]@[jj] as int));
            }
            assert(idx_set(next@) =~= g.frontier((level + 1) as nat));
        }
        match depth {
            Some(d) => {
                if level >= 1 && level >= d as u16 {
                    return cur_names;
                }
            },
            None => {
                if level >= 1 {
                    extend_dedup(&mut acc, &cur_names);
                    proof {
                        assert(name_set(acc@) =~= g.levels_union(level as nat));
                    }
                } else {
                    proof {
                        assert forall|n: Seq<char>| !name_set(acc@).contains(n) by {
                            if name_set(acc@).contains(n) {
                                let t = choose|t: int|
                                    0 <= t < acc@.len() && (#[trigger] acc@[t])@ == n;
                            }
                        }
                        assert(name_set(acc@) =~= g.levels_union(0));
                    }
                }
            },
        }
        level = level + 1;
        worklist = next;
    }
    proof {
        if worklist@.len() == 0 {
            assert forall|w: int| !g.frontier(level as nat).contains(w) by {
                if g.frontier(level as nat).contains(w) {
                    assert(idx_set(worklist@).contains(w));
                    let t = choose|t: int|
                        0 <= t < worklist@.len() && (#[trigger] worklist@[t]) as int == w;
                }
            }
            assert(g.frontier(level as nat) =~= Set::empty());
        }
        match depth {
            Some(d) => {
                lemma_frontier_empty_mono(*g, level as nat, d as nat);
                assert forall|n: Seq<char>| !g.level_names(d as nat).contains(n) by {
                    if g.level_names(d as nat).contains(n) {
                        let v = choose|v: int|
                            g.frontier(d as nat).contains(v) && #[trigger] g.names@[v]@ == n;
                    }
                }
                assert forall|n: Seq<char>| !name_set(acc@).contains(n) by {
                    if name_set(acc@).contains(n) {
                        let t = choose|t: int| 0 <= t < acc@.len() && (#[trigger] acc@[t])@ == n;
                    }
                }
                assert(name_set(acc@) =~= g.level_names(d as nat));
            },
            None => {
                if level < 256 {
                    lemma_levels_union_stable(*g, level as nat, 255);
                    if level == 0 {
                        assert forall|n: Seq<char>| !name_set(acc@).contains(n) by {
                            if name_set(acc@).contains(n) {
                                let t = choose|t: int|
                                    0 <= t < acc@.len() && (#[trigger] acc@[t])@ == n;
                            }
                        }
                        assert(name_set(acc@) =~= g.levels_union(255));
                    }
                }
            },
        }
    }
    acc
}

} // verus!
