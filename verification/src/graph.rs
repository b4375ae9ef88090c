//! An undirected graph kept as adjacency lists, with an iterative,
//! stack-based depth-first traversal.

use std::collections::VecDeque;
use vstd::prelude::*;
use vstd::set_lib::lemma_int_range;
use vstd::set_lib::lemma_len_subset;
use vstd::set_lib::set_int_range;

verus! {

/// `p` is a walk through `g`: it is non-empty, stays within the vertex
/// range, and each consecutive pair is joined by a recorded edge.
pub open spec fn is_path(g: Seq<Seq<usize>>, p: Seq<usize>) -> bool {
    &&& p.len() > 0
    &&& forall|i: int| 0 <= i < p.len() ==> (#[trigger] p[i]) < g.len()
    &&& forall|i: int| 0 <= i < p.len() - 1 ==> #[trigger] g[p[i] as int].contains(p[i + 1])
}

/// Some walk through `g` leads from `a` to `b`.
pub open spec fn reachable(g: Seq<Seq<usize>>, a: usize, b: usize) -> bool {
    exists|p: Seq<usize>| is_path(g, p) && p.first() == a && p.last() == b
}

/// The neighbors in `adj` that are not in `visited`, listed in reverse:
/// the order in which a traversal pushes them so that the earliest-added
/// neighbor ends on top of the stack.
pub open spec fn unvisited_rev(adj: Seq<usize>, visited: Set<int>) -> Seq<usize>
    decreases adj.len(),
{
    if adj.len() == 0 {
        Seq::<usize>::empty()
    } else {
        unvisited_rev(adj.skip(1), visited) + (if visited.contains(adj[0] as int) {
            Seq::<usize>::empty()
        } else {
            seq![adj[0]]
        })
    }
}

/// The visit order that the stack discipline produces, one pop at a time:
/// a vertex seen before is skipped; a new vertex is recorded and its not
/// yet visited neighbors are pushed in reverse adjacency order.
pub open spec fn dfs_rec(
    g: Seq<Seq<usize>>,
    stack: Seq<usize>,
    visited: Set<int>,
    order: Seq<usize>,
) -> Seq<usize>
    decreases g.len() - visited.len(), stack.len(),
{
    if !visited.finite() || stack.len() == 0 {
        order
    } else {
        let v = stack.last();
        if visited.contains(v as int) {
            dfs_rec(g, stack.drop_last(), visited, order)
        } else if g.len() <= v || g.len() <= visited.len() {
            order
        } else {
            dfs_rec(
                g,
                stack.drop_last() + unvisited_rev(g[v as int], visited.insert(v as int)),
                visited.insert(v as int),
                order.push(v),
            )
        }
    }
}

/// The set of vertices marked `true` in a row of flags.
pub open spec fn marked(flags: Seq<bool>) -> Set<int> {
    Set::new(|x: int| 0 <= x < flags.len() && flags[x])
}

/// A row of flags marks a finite set of at most `flags.len()` vertices.
proof fn lemma_marked_finite(flags: Seq<bool>)
    ensures
        marked(flags).finite(),
        marked(flags).len() <= flags.len(),
{
    lemma_int_range(0, flags.len() as int);
    assert(marked(flags).subset_of(set_int_range(0, flags.len() as int)));
    lemma_len_subset(marked(flags), set_int_range(0, flags.len() as int));
}

/// Setting one flag to `true` inserts exactly that vertex into the set.
proof fn lemma_marked_update(flags: Seq<bool>, v: int)
    requires
        0 <= v < flags.len(),
    ensures
        marked(flags.update(v, true)) == marked(flags).insert(v),
{
    assert(marked(flags.update(v, true)) =~= marked(flags).insert(v));
}

/// A vertex occurs in the pushed neighbors exactly when it is a neighbor
/// that has not been visited.
proof fn lemma_unvisited_rev_contains(adj: Seq<usize>, visited: Set<int>)
    ensures
        forall|w: usize| #[trigger]
            unvisited_rev(adj, visited).contains(w) <==> (adj.contains(w) && !visited.contains(
                w as int,
            )),
    decreases adj.len(),
{
    if adj.len() == 0 {
    } else {
        lemma_unvisited_rev_contains(adj.skip(1), visited);
        let rest = unvisited_rev(adj.skip(1), visited);
        let head_part: Seq<usize> = if visited.contains(adj[0] as int) {
            Seq::<usize>::empty()
        } else {
            seq![adj[0]]
        };
        assert(unvisited_rev(adj, visited) == rest + head_part);
        assert forall|w: usize|
            #[trigger] unvisited_rev(adj, visited).contains(w) <==> (adj.contains(w)
                && !visited.contains(w as int)) by {
            assert((rest + head_part).contains(w) <==> rest.contains(w) || head_part.contains(w))
                by {
                if rest.contains(w) {
                    let i = choose|i: int| 0 <= i < rest.len() && rest[i] == w;
                    assert((rest + head_part)[i] == w);
                }
                if head_part.contains(w) {
                    let i = choose|i: int| 0 <= i < head_part.len() && head_part[i] == w;
                    assert((rest + head_part)[rest.len() + i] == w);
                }
                if (rest + head_part).contains(w) {
                    let i = choose|i: int| 0 <= i < (rest + head_part).len() && (rest
                        + head_part)[i] == w;
                    if i < rest.len() {
                        assert(rest[i] == w);
                    } else {
                        assert(head_part[i - rest.len()] == w);
                    }
                }
            }
            assert(adj.contains(w) <==> (adj[0] == w || adj.skip(1).contains(w))) by {
                if adj.contains(w) {
                    let i = choose|i: int| 0 <= i < adj.len() && adj[i] == w;
                    if i > 0 {
                        assert(adj.skip(1)[i - 1] == w);
                    }
                }
                if adj.skip(1).contains(w) {
                    let i = choose|i: int| 0 <= i < adj.skip(1).len() && adj.skip(1)[i] == w;
                    assert(adj[i + 1] == w);
                }
            }
            if !visited.contains(adj[0] as int) {
                assert(head_part.contains(w) <==> w == adj[0]) by {
                    if head_part.contains(w) {
                        let i = choose|i: int| 0 <= i < head_part.len() && head_part[i] == w;
                        assert(i == 0);
                    }
                    if w == adj[0] {
                        assert(head_part[0] == w);
                    }
                }
            } else {
                assert(head_part.len() == 0);
                assert(!head_part.contains(w));
            }
            assert(rest.contains(w) <==> (adj.skip(1).contains(w) && !visited.contains(w as int)));
        }
    }
}

/// A path stays inside any set that contains its first vertex and is
/// closed under following recorded edges.
proof fn lemma_path_in_closed(g: Seq<Seq<usize>>, s: Set<int>, p: Seq<usize>)
    requires
        is_path(g, p),
        s.contains(p.first() as int),
        forall|u: usize, w: usize|
            s.contains(u as int) && u < g.len() && #[trigger] g[u as int].contains(w)
                ==> s.contains(w as int),
    ensures
        s.contains(p.last() as int),
    decreases p.len(),
{
    if p.len() > 1 {
        let q = p.drop_last();
        assert(forall|i: int| 0 <= i < q.len() ==> #[trigger] q[i] == p[i]);
        assert(is_path(g, q));
        lemma_path_in_closed(g, s, q);
        let j = p.len() - 2;
        assert(g[p[j] as int].contains(p[j + 1]));
        let u = p[j];
        assert(s.contains(u as int));
        assert(u < g.len());
        assert(s.contains(p[j + 1] as int));
    }
}

/// Every vertex reachable from `a` lies in any set that contains `a` and
/// is closed under following recorded edges.
proof fn lemma_closed_contains_reachable(g: Seq<Seq<usize>>, s: Set<int>, a: usize, b: usize)
    requires
        s.contains(a as int),
        forall|u: usize, w: usize|
            s.contains(u as int) && u < g.len() && #[trigger] g[u as int].contains(w)
                ==> s.contains(w as int),
        reachable(g, a, b),
    ensures
        s.contains(b as int),
{
    let p = choose|p: Seq<usize>| is_path(g, p) && p.first() == a && p.last() == b;
    lemma_path_in_closed(g, s, p);
}

/// A vertex of the graph reaches itself by the one-vertex walk.
proof fn lemma_reachable_refl(g: Seq<Seq<usize>>, v: usize)
    requires
        v < g.len(),
    ensures
        reachable(g, v, v),
{
    let p = seq![v];
    assert(is_path(g, p));
    assert(p.first() == v && p.last() == v);
}

/// Reachability extends across one recorded edge.
proof fn lemma_reachable_step(g: Seq<Seq<usize>>, a: usize, u: usize, w: usize)
    requires
        reachable(g, a, u),
        g[u as int].contains(w),
        w < g.len(),
    ensures
        reachable(g, a, w),
{
    let p = choose|p: Seq<usize>| is_path(g, p) && p.first() == a && p.last() == u;
    let q = p.push(w);
    assert(forall|i: int| 0 <= i < p.len() ==> #[trigger] q[i] == p[i]);
    assert(q[q.len() - 1] == w);
    assert(q[p.len() - 1] == u);
    assert(is_path(g, q));
    assert(q.first() == a && q.last() == w);
}

/// A last-in, first-out stack of vertex indices.
pub struct StackWrapper {
    value: VecDeque<usize>,
}

impl View for StackWrapper {
    type V = Seq<usize>;

    closed spec fn view(&self) -> Seq<usize> {
        self.value@
    }
}

impl StackWrapper {
    /// Creates an empty stack.
    pub fn new() -> (s: StackWrapper)
        ensures
            s@ == Seq::<usize>::empty(),
    {
        StackWrapper { value: VecDeque::new() }
    }

    /// Pushes `value` on top of the stack.
    pub fn push(&mut self, value: usize)
        ensures
            final(self)@ == old(self)@.push(value),
    {
        self.value.push_back(value);
    }

    /// Pops the top of the stack, or returns `None` when it is empty.
    pub fn pop(&mut self) -> (r: Option<usize>)
        ensures
            (match r {
                Some(v) => old(self)@.len() > 0 && v == old(self)@.last() && final(self)@ == old(
                    self,
                )@.drop_last(),
                None => old(self)@.len() == 0 && final(self)@ == old(self)@,
            }),
    {
        self.value.pop_back()
    }
}

/// An undirected graph on vertices `0..n`, one adjacency list per vertex.
pub struct Graph {
    adj: Vec<Vec<usize>>,
}

impl View for Graph {
    type V = Seq<Seq<usize>>;

    closed spec fn view(&self) -> Seq<Seq<usize>> {
        self.adj@.map_values(|column: Vec<usize>| column@)
    }
}

impl Graph {
    /// Every recorded neighbor is a vertex of the graph.
    pub open spec fn well_formed(&self) -> bool {
        forall|u: int, k: int|
            0 <= u < self@.len() && 0 <= k < self@[u].len() ==> (#[trigger] self@[u][k])
                < self@.len()
    }

    /// Creates a graph with `n` isolated vertices.
    pub fn new(n: usize) -> (g: Graph)
        ensures
            g.well_formed(),
            g@.len() == n,
            forall|u: int| 0 <= u < n ==> #[trigger] g@[u].len() == 0,
    {
        let mut adj: Vec<Vec<usize>> = Vec::new();
        while adj.len() < n
            invariant
                adj@.len() <= n,
                forall|u: int| 0 <= u < adj@.len() ==> #[trigger] adj@[u]@.len() == 0,
            decreases n - adj@.len(),
        {
            adj.push(Vec::new());
        }
        Graph { adj }
    }

    /// Records the undirected edge `(src, dest)`: `dest` is appended to
    /// `src`'s adjacency list and `src` to `dest`'s, so insertion order is
    /// preserved and self-loops and parallel edges are kept.
    pub fn add_edge(&mut self, src: usize, dest: usize)
        requires
            old(self).well_formed(),
            src < old(self)@.len(),
            dest < old(self)@.len(),
        ensures
            final(self).well_formed(),
            final(self)@ == ({
                let mid = old(self)@.update(src as int, old(self)@[src as int].push(dest));
                mid.update(dest as int, mid[dest as int].push(src))
            }),
    {
        let ghost before = self@;
        self.adj[src].push(dest);
        proof {
            assert(self@ =~~= before.update(src as int, before[src as int].push(dest)));
        }
        let ghost mid = self@;
        self.adj[dest].push(src);
        proof {
            assert(self@ =~~= mid.update(dest as int, mid[dest as int].push(src)));
        }
    }

    /// Depth-first traversal from `start`: the vertices in the order they
    /// are first discovered.  The order is exactly the one the stack
    /// discipline of `dfs_rec` produces; it holds every vertex reachable
    /// from `start`, each exactly once, and nothing else.
    pub fn dfs(&self, start: usize) -> (order: Vec<usize>)
        requires
            self.well_formed(),
            start < self@.len(),
        ensures
            order@ == dfs_rec(self@, seq![start], Set::<int>::empty(), Seq::<usize>::empty()),
            order@.no_duplicates(),
            forall|k: int| 0 <= k < order@.len() ==> reachable(self@, start, #[trigger] order@[k]),
            forall|v: usize| #[trigger] reachable(self@, start, v) ==> order@.contains(v),
    {
        let ghost g = self@;
        let n = self.adj.len();
        let mut visited: Vec<bool> = vec![false; n];
        let mut order: Vec<usize> = Vec::new();
        let mut stack = StackWrapper::new();
        stack.push(start);
        let ghost target = dfs_rec(g, seq![start], Set::<int>::empty(), Seq::<usize>::empty());
        proof {
            assert(stack@ =~= seq![start]);
            assert(marked(visited@) =~= Set::<int>::empty());
            lemma_reachable_refl(g, start);
        }
        while stack.value.len() > 0
            invariant
                g == self@,
                self.well_formed(),
                g.len() == n,
                start < n,
                visited@.len() == n,
                forall|i: int| 0 <= i < stack@.len() ==> (#[trigger] stack@[i]) < n,
                forall|k: int| 0 <= k < order@.len() ==> (#[trigger] order@[k]) < n,
                dfs_rec(g, stack@, marked(visited@), order@) == target,
                forall|k: int|
                    0 <= k < order@.len() ==> marked(visited@).contains(
                        (#[trigger] order@[k]) as int,
                    ),
                forall|x: int| #[trigger] marked(visited@).contains(x) ==> order@.contains(
                    x as usize,
                ),
                order@.no_duplicates(),
                forall|k: int|
                    0 <= k < order@.len() ==> reachable(g, start, #[trigger] order@[k]),
                forall|i: int|
                    0 <= i < stack@.len() ==> reachable(g, start, #[trigger] stack@[i]),
                forall|u: usize, w: usize|
                    marked(visited@).contains(u as int) && u < n && #[trigger] g[
                        u as int
                    ].contains(w) ==> marked(visited@).contains(w as int) || stack@.contains(w),
                marked(visited@).contains(start as int) || stack@.contains(start),
            decreases n - marked(visited@).len(), stack@.len(),
        {
            let ghost stack0 = stack@;
            let ghost vis0 = marked(visited@);
            let ghost order0 = order@;
            let v_opt = stack.pop();
            let v = v_opt.unwrap();
            proof {
                lemma_marked_finite(visited@);
            }
            if !visited[v] {
                let ghost flags0 = visited@;
                visited[v] = true;
                order.push(v);
                proof {
                    lemma_marked_update(flags0, v as int);
                    lemma_marked_finite(visited@);
                }
                let ghost vis1 = marked(visited@);
                let ghost base = stack@;
                let column = &self.adj[v];
                let ghost pushes = unvisited_rev(g[v as int], vis1);
                proof {
                    lemma_unvisited_rev_contains(g[v as int], vis1);
                    assert(column@ == g[v as int]);
                    assert(column@.skip(column@.len() as int) =~= Seq::<usize>::empty());
                    assert(stack@ =~= base + unvisited_rev(
                        column@.skip(column@.len() as int),
                        vis1,
                    ));
                }
                let mut j: usize = column.len();
                while j > 0
                    invariant
                        g == self@,
                        self.well_formed(),
                        g.len() == n,
                        start < n,
                        v < n,
                        j <= column@.len(),
                        column@ == g[v as int],
                        visited@.len() == n,
                        marked(visited@) == vis1,
                        vis1.contains(v as int),
                        reachable(g, start, v),
                        stack@ == base + unvisited_rev(column@.skip(j as int), vis1),
                        forall|i: int| 0 <= i < stack@.len() ==> (#[trigger] stack@[i]) < n,
                        forall|i: int|
                            0 <= i < stack@.len() ==> reachable(g, start, #[trigger] stack@[i]),
                    decreases j,
                {
                    j = j - 1;
                    let w = column[j];
                    let ghost stack_in = stack@;
                    if !visited[w] {
                        stack.push(w);
                        proof {
                            lemma_reachable_step(g, start, v, w);
                        }
                    }
                    proof {
                        assert(column@.skip(j as int)[0] == column@[j as int]);
                        assert(column@.skip(j as int).skip(1) =~= column@.skip(j as int + 1));
                        assert(unvisited_rev(column@.skip(j as int), vis1) == unvisited_rev(
                            column@.skip(j as int + 1),
                            vis1,
                        ) + (if vis1.contains(column@[j as int] as int) {
                            Seq::<usize>::empty()
                        } else {
                            seq![column@[j as int]]
                        }));
                        if !vis1.contains(column@[j as int] as int) {
                            assert(stack@ =~= stack_in.push(w));
                            assert(stack@ =~= base + unvisited_rev(column@.skip(j as int), vis1));
                        } else {
                            assert(stack@ =~= base + unvisited_rev(column@.skip(j as int), vis1));
                        }
                    }
                }
                proof {
                    assert(column@.skip(0) =~= column@);
                    assert(stack@ == base + pushes);
                    // The recorded step is exactly one unfolding of `dfs_rec`.
                    assert(vis0.insert(v as int) == vis1);
                    assert(vis1.len() == vis0.len() + 1);
                    assert(vis0.len() < n) by {
                        lemma_marked_finite(visited@);
                        assert(vis1.len() <= n);
                    }
                    assert(stack0.last() == v);
                    assert(stack0.drop_last() == base);
                    assert(dfs_rec(g, stack0, vis0, order0) == dfs_rec(
                        g,
                        base + pushes,
                        vis1,
                        order0.push(v),
                    ));
                    assert(order@ == order0.push(v));
                    assert(dfs_rec(g, stack@, marked(visited@), order@) == target);
                    // `v` was not yet recorded, so the order stays duplicate-free.
                    assert(!order0.contains(v));
                    assert(order@.no_duplicates());
                    // Marked vertices and recorded vertices still coincide.
                    assert forall|x: int| #[trigger] marked(visited@).contains(x) implies
                        order@.contains(x as usize) by {
                        if x == v as int {
                            assert(order@[order@.len() - 1] == v);
                        } else {
                            assert(vis0.contains(x));
                            let k = choose|k: int| 0 <= k < order0.len() && order0[k]
                                == x as usize;
                            assert(order@[k] == x as usize);
                        }
                    }
                    // Every neighbor of a marked vertex is marked or waiting.
                    assert forall|u: usize, w: usize|
                        marked(visited@).contains(u as int) && u < n && #[trigger] g[
                            u as int
                        ].contains(w) implies marked(visited@).contains(w as int)
                        || stack@.contains(w) by {
                        if u as int == v as int {
                            if !vis1.contains(w as int) {
                                assert(pushes.contains(w));
                                let i = choose|i: int| 0 <= i < pushes.len() && pushes[i] == w;
                                assert(stack@[base.len() + i] == w);
                            }
                        } else {
                            assert(vis0.contains(u as int));
                            if stack0.contains(w) {
                                let i = choose|i: int| 0 <= i < stack0.len() && stack0[i] == w;
                                if i < stack0.len() - 1 {
                                    assert(base[i] == w);
                                    assert(stack@[i] == w);
                                } else {
                                    assert(w == v);
                                }
                            }
                        }
                    }
                    // The start vertex is still marked or waiting.
                    if !marked(visited@).contains(start as int) {
                        assert(stack0.contains(start));
                        let i = choose|i: int| 0 <= i < stack0.len() && stack0[i] == start;
                        assert(i < stack0.len() - 1);
                        assert(stack@[i] == start);
                    }
                }
            } else {
                proof {
                    assert(vis0.contains(v as int));
                    assert(dfs_rec(g, stack0, vis0, order0) == dfs_rec(g, stack@, vis0, order0));
                    // Neighbors that were waiting on the stack still are,
                    // unless they are the vertex just popped, which is marked.
                    assert forall|u: usize, w: usize|
                        marked(visited@).contains(u as int) && u < n && #[trigger] g[
                            u as int
                        ].contains(w) implies marked(visited@).contains(w as int)
                        || stack@.contains(w) by {
                        if !marked(visited@).contains(w as int) && stack0.contains(w) {
                            let i = choose|i: int| 0 <= i < stack0.len() && stack0[i] == w;
                            assert(i < stack0.len() - 1);
                            assert(stack@[i] == w);
                        }
                    }
                    if !marked(visited@).contains(start as int) {
                        let i = choose|i: int| 0 <= i < stack0.len() && stack0[i] == start;
                        assert(i < stack0.len() - 1);
                        assert(stack@[i] == start);
                    }
                }
            }
        }
        proof {
            assert(order@ == target);
            assert forall|v: usize| #[trigger] reachable(g, start, v) implies order@.contains(
                v,
            ) by {
                assert(forall|w: usize| !stack@.contains(w));
                assert(marked(visited@).contains(start as int));
                lemma_closed_contains_reachable(g, marked(visited@), start, v);
            }
        }
        order
    }
}

} // verus!
