//! Lattice mode: tables from ruled cells, once the cells and their neighbours
//! have been found from the page's lines.

use vstd::prelude::*;

use crate::grid::{nonblank_count, row_has_nonblank, table_cells, table_has_nonblank, table_nonblank};
use crate::i18n::Language;
use crate::merge::cell::{cells_view, max_col, max_row, merge_cells, merge_spec, CellText, CellTextView};
use crate::{strings_view, tables_view, Table, TableView, TrexError};

verus! {

/// The views of a list of index lists.
pub open spec fn index_lists_view(v: Seq<Vec<usize>>) -> Seq<Seq<usize>> {
    v.map_values(|r: Vec<usize>| r@)
}

/// A neighbour list over vertices `0..adj.len()`: entries are vertices, and
/// `w` is a neighbour of `v` exactly when `v` is one of `w`.
pub open spec fn adjacency_ok(adj: Seq<Seq<usize>>) -> bool {
    &&& forall|v: int, k: int|
        0 <= v < adj.len() && 0 <= k < adj[v].len() ==> (#[trigger] adj[v][k]) < adj.len()
    &&& forall|v: int, k: int|
        0 <= v < adj.len() && 0 <= k < adj[v].len() ==> adj[(#[trigger] adj[v][k]) as int].contains(
            v as usize,
        )
}

/// `p` is a walk from `s` to `v` along neighbour links.
pub open spec fn is_walk(adj: Seq<Seq<usize>>, p: Seq<usize>, s: usize, v: usize) -> bool {
    &&& p.len() >= 1
    &&& p[0] == s
    &&& p.last() == v
    &&& forall|i: int|
        0 <= i < p.len() - 1 ==> (#[trigger] p[i]) < adj.len() && adj[p[i] as int].contains(p[i + 1])
}

/// `v` can be reached from `s`.
pub open spec fn reachable(adj: Seq<Seq<usize>>, s: usize, v: usize) -> bool {
    exists|p: Seq<usize>| #[trigger] is_walk(adj, p, s, v)
}

/// Vertex `v` stands somewhere in the components.
pub open spec fn placed(cs: Seq<Seq<usize>>, v: int) -> bool {
    exists|c: int, i: int| 0 <= c < cs.len() && 0 <= i < cs[c].len() && #[trigger] cs[c][i] == v
}

/// The components split the vertices: each vertex stands in exactly one
/// place; each component holds every neighbour of its vertices and can be
/// walked from its first vertex; the first vertex of a component is its
/// smallest, and components come in the order of their first vertices.
pub open spec fn components_spec(adj: Seq<Seq<usize>>, cs: Seq<Seq<usize>>) -> bool {
    &&& forall|c: int| 0 <= c < cs.len() ==> #[trigger] cs[c].len() > 0
    &&& forall|c: int, i: int| 0 <= c < cs.len() && 0 <= i < cs[c].len() ==> (#[trigger] cs[c][i]) < adj.len()
    &&& forall|v: int| 0 <= v < adj.len() ==> #[trigger] placed(cs, v)
    &&& forall|c1: int, i1: int, c2: int, i2: int|
        0 <= c1 < cs.len() && 0 <= i1 < cs[c1].len() && 0 <= c2 < cs.len() && 0 <= i2 < cs[c2].len()
            && #[trigger] cs[c1][i1] == #[trigger] cs[c2][i2] ==> c1 == c2 && i1 == i2
    &&& forall|c: int, i: int, w: usize|
        0 <= c < cs.len() && 0 <= i < cs[c].len() && #[trigger] adj[cs[c][i] as int].contains(w) ==> cs[c].contains(w)
    &&& forall|c: int, i: int| 0 <= c < cs.len() && 0 <= i < cs[c].len() ==> reachable(adj, cs[c][0], #[trigger] cs[c][i])
    &&& forall|c: int, i: int| 0 <= c < cs.len() && 0 <= i < cs[c].len() ==> cs[c][0] <= #[trigger] cs[c][i]
    &&& forall|c1: int, c2: int| 0 <= c1 < c2 < cs.len() ==> #[trigger] cs[c1][0] < #[trigger] cs[c2][0]
}

/// The number of `false` entries.
pub open spec fn falses(s: Seq<bool>) -> nat
    decreases s.len(),
{
    if s.len() == 0 {
        0
    } else {
        falses(s.drop_last()) + if s.last() {
            0nat
        } else {
            1nat
        }
    }
}

proof fn lemma_falses_bound(s: Seq<bool>)
    ensures
        falses(s) <= s.len(),
    decreases s.len(),
{
    if s.len() > 0 {
        lemma_falses_bound(s.drop_last());
    }
}

proof fn lemma_falses_update(s: Seq<bool>, i: int)
    requires
        0 <= i < s.len(),
        !s[i],
    ensures
        falses(s.update(i, true)) + 1 == falses(s),
    decreases s.len(),
{
    let t = s.update(i, true);
    if i == s.len() - 1 {
        assert(t.drop_last() =~= s.drop_last());
    } else {
        assert(t.drop_last() =~= s.drop_last().update(i, true));
        lemma_falses_update(s.drop_last(), i);
    }
}

proof fn lemma_walk_extend(adj: Seq<Seq<usize>>, p: Seq<usize>, s: usize, v: usize, w: usize)
    requires
        is_walk(adj, p, s, v),
        v < adj.len(),
        adj[v as int].contains(w),
    ensures
        is_walk(adj, p.push(w), s, w),
{
    let q = p.push(w);
    assert forall|i: int| 0 <= i < q.len() - 1 implies (#[trigger] q[i]) < adj.len() && adj[q[i] as int].contains(q[i + 1]) by {
        if i < p.len() - 1 {
            assert(q[i] == p[i] && q[i + 1] == p[i + 1]);
        } else {
            assert(q[i] == v && q[i + 1] == w);
        }
    }
}


/// Where each vertex stands so far: `comp_of[v]` and `pos_of[v]` place every
/// visited vertex in a finished component or in the current one (index
/// `cs.len()`); unvisited vertices are unplaced.
spec fn placement_inv(
    adj: Seq<Seq<usize>>,
    cs: Seq<Seq<usize>>,
    cur: Seq<usize>,
    vis: Seq<bool>,
    comp_of: Seq<int>,
    pos_of: Seq<int>,
) -> bool {
    let n = adj.len();
    let k = cs.len() as int;
    &&& vis.len() == n && comp_of.len() == n && pos_of.len() == n
    &&& forall|c: int, i: int|
        0 <= c < k && 0 <= i < cs[c].len() ==> (#[trigger] cs[c][i]) < n && comp_of[cs[c][i] as int]
            == c && pos_of[cs[c][i] as int] == i
    &&& forall|i: int|
        0 <= i < cur.len() ==> (#[trigger] cur[i]) < n && comp_of[cur[i] as int] == k
            && pos_of[cur[i] as int] == i
    &&& forall|v: int|
        0 <= v < n && #[trigger] vis[v] ==> ((0 <= comp_of[v] < k && 0 <= pos_of[v] < cs[comp_of[v]].len()
            && cs[comp_of[v]][pos_of[v]] == v) || (comp_of[v] == k && 0 <= pos_of[v] < cur.len()
            && cur[pos_of[v]] == v))
    &&& forall|v: int| 0 <= v < n && !(#[trigger] vis[v]) ==> comp_of[v] == -1
}

/// Every neighbour of a vertex of a finished component is in that component.
spec fn closed_inv(adj: Seq<Seq<usize>>, cs: Seq<Seq<usize>>, comp_of: Seq<int>) -> bool {
    forall|c: int, i: int, j: int|
        0 <= c < cs.len() && 0 <= i < cs[c].len() && 0 <= j < adj[cs[c][i] as int].len()
            ==> comp_of[(#[trigger] adj[cs[c][i] as int][j]) as int] == c
}

/// Finished components can be walked from their first vertex, are not empty,
/// start at their smallest vertex, in increasing order, below `start`.
spec fn finished_inv(adj: Seq<Seq<usize>>, cs: Seq<Seq<usize>>, start: int) -> bool {
    &&& forall|c: int| 0 <= c < cs.len() ==> #[trigger] cs[c].len() > 0
    &&& forall|c: int, i: int| 0 <= c < cs.len() && 0 <= i < cs[c].len() ==> reachable(adj, cs[c][0], #[trigger] cs[c][i])
    &&& forall|c: int, i: int| 0 <= c < cs.len() && 0 <= i < cs[c].len() ==> cs[c][0] <= #[trigger] cs[c][i]
    &&& forall|c1: int, c2: int| 0 <= c1 < c2 < cs.len() ==> #[trigger] cs[c1][0] < #[trigger] cs[c2][0]
    &&& forall|c: int| 0 <= c < cs.len() ==> #[trigger] cs[c][0] < start
}

proof fn lemma_finish(
    adj: Seq<Seq<usize>>,
    cs: Seq<Seq<usize>>,
    vis: Seq<bool>,
    comp_of: Seq<int>,
    pos_of: Seq<int>,
)
    requires
        adjacency_ok(adj),
        placement_inv(adj, cs, Seq::empty(), vis, comp_of, pos_of),
        closed_inv(adj, cs, comp_of),
        finished_inv(adj, cs, adj.len() as int),
        forall|v: int| 0 <= v < adj.len() ==> #[trigger] vis[v],
    ensures
        components_spec(adj, cs),
{
    let n = adj.len();
    assert forall|v: int| 0 <= v < n implies #[trigger] placed(cs, v) by {
        assert(vis[v]);
        assert(cs[comp_of[v]][pos_of[v]] == v);
    }
    assert forall|c1: int, i1: int, c2: int, i2: int|
        0 <= c1 < cs.len() && 0 <= i1 < cs[c1].len() && 0 <= c2 < cs.len() && 0 <= i2 < cs[c2].len()
            && #[trigger] cs[c1][i1] == #[trigger] cs[c2][i2] implies c1 == c2 && i1 == i2 by {
        assert(comp_of[cs[c1][i1] as int] == c1);
        assert(comp_of[cs[c2][i2] as int] == c2);
    }
    assert forall|c: int, i: int, w: usize|
        0 <= c < cs.len() && 0 <= i < cs[c].len() && #[trigger] adj[cs[c][i] as int].contains(w) implies cs[c].contains(w) by {
        let v = cs[c][i] as int;
        let j = choose|j: int| 0 <= j < adj[v].len() && adj[v][j] == w;
        assert(adj[cs[c][i] as int][j] == w);
        assert(comp_of[w as int] == c);
        assert(w < n);
        assert(vis[w as int]);
        assert(cs[c][pos_of[w as int]] == w);
    }
}

/// Splits the vertices `0..adjacency.len()` into connected components,
/// searching breadth first from each vertex not yet reached, in order.
pub fn connected_components(adjacency: &Vec<Vec<usize>>) -> (comps: Vec<Vec<usize>>)
    requires
        adjacency_ok(index_lists_view(adjacency@)),
    ensures
        components_spec(index_lists_view(adjacency@), index_lists_view(comps@)),
{
    let n = adjacency.len();
    let ghost adj = index_lists_view(adjacency@);
    let mut visited: Vec<bool> = Vec::new();
    let mut q: usize = 0;
    while q < n
        invariant
            q <= n,
            visited@ == Seq::new(q as nat, |v: int| false),
        decreases n - q,
    {
        visited.push(false);
        q += 1;
        assert(visited@ =~= Seq::new(q as nat, |v: int| false));
    }
    let mut comps: Vec<Vec<usize>> = Vec::new();
    let ghost mut comp_of: Seq<int> = Seq::new(n as nat, |v: int| -1);
    let ghost mut pos_of: Seq<int> = Seq::new(n as nat, |v: int| -1);
    let mut start: usize = 0;
    while start < n
        invariant
            n == adjacency.len(),
            adj == index_lists_view(adjacency@),
            adjacency_ok(adj),
            start <= n,
            placement_inv(adj, index_lists_view(comps@), Seq::empty(), visited@, comp_of, pos_of),
            closed_inv(adj, index_lists_view(comps@), comp_of),
            finished_inv(adj, index_lists_view(comps@), start as int),
            forall|v: int| 0 <= v < start ==> #[trigger] visited@[v],
        decreases n - start,
    {
        if !visited[start] {
            let ghost cs = index_lists_view(comps@);
            let ghost k = cs.len() as int;
            proof {
                lemma_falses_bound(visited@);
                lemma_falses_update(visited@, start as int);
                assert forall|c: int, i: int| 0 <= c < k && 0 <= i < cs[c].len() implies #[trigger] cs[c][i] != start by {
                    assert(comp_of[cs[c][i] as int] == c);
                }
            }
            visited.set(start, true);
            let mut comp: Vec<usize> = Vec::new();
            comp.push(start);
            proof {
                comp_of = comp_of.update(start as int, k);
                pos_of = pos_of.update(start as int, 0);
            }
            let ghost mut paths: Seq<Seq<usize>> = seq![seq![start]];
            assert(is_walk(adj, paths[0], start, start));
            let mut head: usize = 0;
            while head < comp.len()
                invariant
                    n == adjacency.len(),
                    adj == index_lists_view(adjacency@),
                    adjacency_ok(adj),
                    start < n,
                    cs == index_lists_view(comps@),
                    k == cs.len(),
                    placement_inv(adj, cs, comp@, visited@, comp_of, pos_of),
                    closed_inv(adj, cs, comp_of),
                    finished_inv(adj, cs, start as int),
                    forall|v: int| 0 <= v < start ==> #[trigger] visited@[v],
                    visited@[start as int],
                    comp@.len() >= 1,
                    comp@[0] == start,
                    forall|i: int| 0 <= i < comp@.len() ==> start <= #[trigger] comp@[i],
                    head <= comp@.len(),
                    falses(visited@) + comp@.len() <= n,
                    paths.len() == comp@.len(),
                    forall|i: int| 0 <= i < comp@.len() ==> is_walk(adj, #[trigger] paths[i], start, comp@[i]),
                    forall|i: int, j: int|
                        0 <= i < head && 0 <= j < adj[comp@[i] as int].len() ==> comp_of[(#[trigger] adj[comp@[i] as int][j]) as int] == k,
                decreases n - head,
            {
                let current = comp[head];
                let ghost hpath = paths[head as int];
                assert(current < n);
                let mut j: usize = 0;
                while j < adjacency[current].len()
                    invariant
                        n == adjacency.len(),
                        adj == index_lists_view(adjacency@),
                        adjacency_ok(adj),
                        start < n,
                        current < n,
                        head < comp@.len(),
                        comp@[head as int] == current,
                        is_walk(adj, hpath, start, current),
                        cs == index_lists_view(comps@),
                        k == cs.len(),
                        placement_inv(adj, cs, comp@, visited@, comp_of, pos_of),
                        closed_inv(adj, cs, comp_of),
                        finished_inv(adj, cs, start as int),
                        forall|v: int| 0 <= v < start ==> #[trigger] visited@[v],
                        visited@[start as int],
                        comp@.len() >= 1,
                        comp@[0] == start,
                        forall|i: int| 0 <= i < comp@.len() ==> start <= #[trigger] comp@[i],
                        falses(visited@) + comp@.len() <= n,
                        paths.len() == comp@.len(),
                        forall|i: int| 0 <= i < comp@.len() ==> is_walk(adj, #[trigger] paths[i], start, comp@[i]),
                        forall|i: int, jj: int|
                            0 <= i < head && 0 <= jj < adj[comp@[i] as int].len() ==> comp_of[(#[trigger] adj[comp@[i] as int][jj]) as int] == k,
                        j <= adj[current as int].len(),
                        forall|jj: int| 0 <= jj < j ==> comp_of[(#[trigger] adj[current as int][jj]) as int] == k,
                    decreases adj[current as int].len() - j,
                {
                    let next = adjacency[current][j];
                    assert(adj[current as int][j as int] == next);
                    assert(next < n);
                    if !visited[next] {
                        proof {
                            lemma_falses_update(visited@, next as int);
                            assert forall|c: int, i: int| 0 <= c < k && 0 <= i < cs[c].len() implies #[trigger] cs[c][i] != next by {
                                assert(comp_of[cs[c][i] as int] == c);
                            }
                            assert forall|i: int| 0 <= i < comp@.len() implies #[trigger] comp@[i] != next by {
                                assert(comp_of[comp@[i] as int] == k);
                            }
                            assert(adj[current as int].contains(next));
                            lemma_walk_extend(adj, hpath, start, current, next);
                        }
                        let ghost old_comp = comp@;
                        visited.set(next, true);
                        comp.push(next);
                        proof {
                            comp_of = comp_of.update(next as int, k);
                            pos_of = pos_of.update(next as int, old_comp.len() as int);
                            paths = paths.push(hpath.push(next));
                            assert(comp@[old_comp.len() as int] == next);
                            assert forall|i: int| 0 <= i < comp@.len() implies is_walk(adj, #[trigger] paths[i], start, comp@[i]) by {
                                if i < old_comp.len() {
                                    assert(comp@[i] == old_comp[i]);
                                }
                            }
                            assert forall|i: int| 0 <= i < comp@.len() implies start <= #[trigger] comp@[i] by {
                                if i < old_comp.len() {
                                    assert(comp@[i] == old_comp[i]);
                                } else {
                                    if next < start {
                                        assert(visited@[next as int]);
                                    }
                                }
                            }
                            assert forall|i: int| 0 <= i < comp@.len() implies (#[trigger] comp@[i]) < n && comp_of[comp@[i] as int] == k && pos_of[comp@[i] as int] == i by {
                                if i < old_comp.len() {
                                    assert(comp@[i] == old_comp[i]);
                                }
                            }
                        }
                    } else {
                        proof {
                            let c2 = comp_of[next as int];
                            if c2 != k {
                                let p = pos_of[next as int];
                                assert(0 <= c2 < k && cs[c2][p] == next);
                                assert(adj[next as int].contains(current));
                                let j2 = choose|j2: int| 0 <= j2 < adj[next as int].len() && adj[next as int][j2] == current;
                                assert(adj[cs[c2][p] as int][j2] == current);
                                assert(comp_of[current as int] == c2);
                                assert(comp_of[comp@[head as int] as int] == k);
                            }
                        }
                    }
                    j += 1;
                }
                head += 1;
            }
            let ghost cur = comp@;
            comps.push(comp);
            proof {
                let cs2 = index_lists_view(comps@);
                assert(cs2 =~= cs.push(cur));
                assert(forall|i: int| 0 <= i < cur.len() ==> reachable(adj, cur[0], #[trigger] cur[i])) by {
                    assert forall|i: int| 0 <= i < cur.len() implies reachable(adj, cur[0], #[trigger] cur[i]) by {
                        assert(is_walk(adj, paths[i], start, cur[i]));
                    }
                }
                assert forall|v: int| 0 <= v < n && #[trigger] visited@[v] implies ((0 <= comp_of[v] < cs2.len() && 0 <= pos_of[v] < cs2[comp_of[v]].len()
                    && cs2[comp_of[v]][pos_of[v]] == v) || (comp_of[v] == cs2.len() && 0 <= pos_of[v] < Seq::<usize>::empty().len()
                    && Seq::<usize>::empty()[pos_of[v]] == v)) by {
                }
            }
        }
        start += 1;
    }
    proof {
        lemma_finish(adj, index_lists_view(comps@), visited@, comp_of, pos_of);
    }
    comps
}


/// Ranks that keep the order of the values and leave no gap from 0: equal
/// values share a rank, smaller values have smaller ranks, and every rank below
/// a used one is used.
pub open spec fn dense_ranks_spec(vals: Seq<usize>, r: Seq<usize>) -> bool {
    &&& r.len() == vals.len()
    &&& forall|i: int, j: int|
        0 <= i < vals.len() && 0 <= j < vals.len() ==> (vals[i] < vals[j] <==> #[trigger] r[i] < #[trigger] r[j])
    &&& forall|i: int, j: int|
        0 <= i < vals.len() && 0 <= j < vals.len() ==> (vals[i] == vals[j] <==> #[trigger] r[i] == #[trigger] r[j])
    &&& forall|i: int, q: usize|
        #![trigger r[i], rank_used(r, q)]
        0 <= i < vals.len() && q < r[i] ==> rank_used(r, q)
}

/// Some entry has rank `q`.
pub open spec fn rank_used(r: Seq<usize>, q: usize) -> bool {
    exists|j: int| 0 <= j < r.len() && #[trigger] r[j] == q
}

/// The values are strictly increasing.
pub open spec fn strictly_increasing(u: Seq<usize>) -> bool {
    forall|a: int, b: int| 0 <= a < b < u.len() ==> #[trigger] u[a] < #[trigger] u[b]
}

pub fn sorted_distinct(vals: &Vec<usize>) -> (u: Vec<usize>)
    ensures
        strictly_increasing(u@),
        forall|i: int| 0 <= i < vals.len() ==> u@.contains(#[trigger] vals@[i]),
        forall|k: int| 0 <= k < u.len() ==> vals@.contains(#[trigger] u@[k]),
{
    let mut u: Vec<usize> = Vec::new();
    let mut i: usize = 0;
    while i < vals.len()
        invariant
            i <= vals.len(),
            strictly_increasing(u@),
            forall|a: int| 0 <= a < i ==> u@.contains(#[trigger] vals@[a]),
            forall|k: int| 0 <= k < u.len() ==> vals@.contains(#[trigger] u@[k]),
        decreases vals.len() - i,
    {
        let v = vals[i];
        let mut p: usize = 0;
        while p < u.len() && u[p] < v
            invariant
                p <= u.len(),
                strictly_increasing(u@),
                forall|a: int| 0 <= a < p ==> #[trigger] u@[a] < v,
            decreases u.len() - p,
        {
            p += 1;
        }
        let ghost old_u = u@;
        if p < u.len() && u[p] == v {
            assert(u@.contains(vals@[i as int]));
        } else {
            u.insert(p, v);
            assert(u@ == old_u.insert(p as int, v));
            assert forall|a: int, b: int| 0 <= a < b < u@.len() implies #[trigger] u@[a] < #[trigger] u@[b] by {
                if b < p {
                    assert(u@[a] == old_u[a] && u@[b] == old_u[b]);
                } else if b == p {
                    assert(u@[a] == old_u[a]);
                } else if a < p {
                    assert(u@[a] == old_u[a] && u@[b] == old_u[b - 1]);
                    assert(old_u[b - 1] >= v) by {
                        if b - 1 > p {
                            assert(old_u[p as int] < old_u[b - 1]);
                        }
                    }
                } else if a == p {
                    assert(u@[b] == old_u[b - 1]);
                    assert(old_u[b - 1] > v) by {
                        if b - 1 > p {
                            assert(old_u[p as int] < old_u[b - 1]);
                        }
                    }
                } else {
                    assert(u@[a] == old_u[a - 1] && u@[b] == old_u[b - 1]);
                }
            }
            assert(u@[p as int] == v);
            assert forall|a: int| 0 <= a < i implies u@.contains(#[trigger] vals@[a]) by {
                let k = choose|k: int| 0 <= k < old_u.len() && old_u[k] == vals@[a];
                if k < p {
                    assert(u@[k] == old_u[k]);
                } else {
                    assert(u@[k + 1] == old_u[k]);
                }
            }
            assert forall|k: int| 0 <= k < u.len() implies vals@.contains(#[trigger] u@[k]) by {
                if k < p {
                    assert(u@[k] == old_u[k]);
                } else if k == p {
                    assert(vals@[i as int] == v);
                } else {
                    assert(u@[k] == old_u[k - 1]);
                }
            }
        }
        i += 1;
    }
    u
}

fn position_in(u: &Vec<usize>, v: usize) -> (p: usize)
    requires
        u@.contains(v),
    ensures
        p < u.len(),
        u@[p as int] == v,
{
    let mut p: usize = 0;
    while p < u.len()
        invariant
            p <= u.len(),
            u@.contains(v),
            forall|a: int| 0 <= a < p ==> #[trigger] u@[a] != v,
        decreases u.len() - p,
    {
        if u[p] == v {
            return p;
        }
        p += 1;
    }
    proof {
        let k = choose|k: int| 0 <= k < u@.len() && u@[k] == v;
        assert(u@[k] != v);
    }
    0
}

/// Replaces each value by its dense rank among the values.
pub fn dense_ranks(vals: &Vec<usize>) -> (r: Vec<usize>)
    ensures
        dense_ranks_spec(vals@, r@),
{
    let u = sorted_distinct(vals);
    let mut r: Vec<usize> = Vec::new();
    let mut i: usize = 0;
    while i < vals.len()
        invariant
            i <= vals.len(),
            r.len() == i,
            strictly_increasing(u@),
            forall|k: int| 0 <= k < u.len() ==> vals@.contains(#[trigger] u@[k]),
            forall|a: int| 0 <= a < vals.len() ==> u@.contains(#[trigger] vals@[a]),
            forall|a: int| 0 <= a < i ==> #[trigger] r@[a] < u.len() && u@[r@[a] as int] == vals@[a],
        decreases vals.len() - i,
    {
        assert(u@.contains(vals@[i as int]));
        let p = position_in(&u, vals[i]);
        r.push(p);
        i += 1;
    }
    assert forall|i: int, j: int| 0 <= i < vals.len() && 0 <= j < vals.len() implies (vals@[i] < vals@[j] <==> #[trigger] r@[i] < #[trigger] r@[j]) by {
        let a = r@[i] as int;
        let b = r@[j] as int;
        if a < b {
            assert(u@[a] < u@[b]);
        } else if b < a {
            assert(u@[b] < u@[a]);
        }
    }
    assert forall|i: int, j: int| 0 <= i < vals.len() && 0 <= j < vals.len() implies (vals@[i] == vals@[j] <==> #[trigger] r@[i] == #[trigger] r@[j]) by {
        let a = r@[i] as int;
        let b = r@[j] as int;
        if a < b {
            assert(u@[a] < u@[b]);
        } else if b < a {
            assert(u@[b] < u@[a]);
        }
    }
    assert forall|i: int, q: usize|
        #![trigger r@[i], rank_used(r@, q)]
        0 <= i < vals.len() && q < r@[i] implies rank_used(r@, q) by {
        assert(vals@.contains(u@[q as int]));
        let j = choose|j: int| 0 <= j < vals.len() && vals@[j] == u@[q as int];
        let b = r@[j] as int;
        assert(u@[b] == u@[q as int]);
        if b < q {
            assert(u@[b] < u@[q as int]);
        } else if q < b {
            assert(u@[q as int] < u@[b]);
        }
        assert(r@[j] == q);
    }
    r
}


/// A cell of a component placed in the component's own grid.
#[derive(Debug, Clone, Copy)]
pub struct GridSlot {
    /// Position of the cell in the component's list.
    pub source: usize,
    /// Dense rank of the cell's row among the component's rows.
    pub row: usize,
    /// Dense rank of the cell's column among the component's columns.
    pub col: usize,
}

/// Grid order: by row, then column, then original position.
pub open spec fn slot_before(a: GridSlot, b: GridSlot) -> bool {
    a.row < b.row || (a.row == b.row && (a.col < b.col || (a.col == b.col && a.source < b.source)))
}

/// The row indices of positions.
pub open spec fn rows_of(p: Seq<(usize, usize)>) -> Seq<usize> {
    p.map_values(|x: (usize, usize)| x.0)
}

/// The column indices of positions.
pub open spec fn cols_of(p: Seq<(usize, usize)>) -> Seq<usize> {
    p.map_values(|x: (usize, usize)| x.1)
}

/// The cells renumbered to a gap-free grid and listed by row, then column,
/// cells at the same place keeping their order.
pub open spec fn regrid_spec(positions: Seq<(usize, usize)>, out: Seq<GridSlot>) -> bool {
    &&& out.len() == positions.len()
    &&& exists|rr: Seq<usize>, cr: Seq<usize>|
        #![trigger dense_ranks_spec(rows_of(positions), rr), dense_ranks_spec(cols_of(positions), cr)]
        dense_ranks_spec(rows_of(positions), rr) && dense_ranks_spec(cols_of(positions), cr) && forall|k: int|
            0 <= k < out.len() ==> (#[trigger] out[k]).source < positions.len() && out[k].row
                == rr[out[k].source as int] && out[k].col == cr[out[k].source as int]
    &&& forall|k: int, l: int| 0 <= k < l < out.len() ==> slot_before(#[trigger] out[k], #[trigger] out[l])
    &&& forall|s: int| 0 <= s < positions.len() ==> #[trigger] source_listed(out, s)
}

/// Some slot comes from position `s`.
pub open spec fn source_listed(out: Seq<GridSlot>, s: int) -> bool {
    exists|k: int| 0 <= k < out.len() && #[trigger] out[k].source == s
}

/// Renumbers the rows and columns of a component's cells to their dense
/// ranks and orders the cells by row, then column, stably.
pub fn regrid(positions: &Vec<(usize, usize)>) -> (out: Vec<GridSlot>)
    ensures
        regrid_spec(positions@, out@),
{
    let mut rows: Vec<usize> = Vec::new();
    let mut cols: Vec<usize> = Vec::new();
    let mut i: usize = 0;
    while i < positions.len()
        invariant
            i <= positions.len(),
            rows@ == rows_of(positions@).take(i as int),
            cols@ == cols_of(positions@).take(i as int),
        decreases positions.len() - i,
    {
        let (r, c) = positions[i];
        rows.push(r);
        cols.push(c);
        i += 1;
        assert(rows@ =~= rows_of(positions@).take(i as int));
        assert(cols@ =~= cols_of(positions@).take(i as int));
    }
    assert(rows@ =~= rows_of(positions@));
    assert(cols@ =~= cols_of(positions@));
    let rr = dense_ranks(&rows);
    let cr = dense_ranks(&cols);
    let mut out: Vec<GridSlot> = Vec::new();
    let mut i: usize = 0;
    while i < positions.len()
        invariant
            i <= positions.len(),
            rr.len() == positions.len(),
            cr.len() == positions.len(),
            out.len() == i,
            forall|k: int| 0 <= k < out.len() ==> (#[trigger] out@[k]).source < i && out@[k].row
                == rr@[out@[k].source as int] && out@[k].col == cr@[out@[k].source as int],
            forall|k: int, l: int| 0 <= k < l < out.len() ==> slot_before(#[trigger] out@[k], #[trigger] out@[l]),
            forall|s: int| 0 <= s < i ==> #[trigger] source_listed(out@, s),
        decreases positions.len() - i,
    {
        let slot = GridSlot { source: i, row: rr[i], col: cr[i] };
        let mut p: usize = 0;
        while p < out.len() && (out[p].row < slot.row || (out[p].row == slot.row && (out[p].col
            < slot.col || (out[p].col == slot.col && out[p].source < slot.source))))
            invariant
                p <= out.len(),
                forall|a: int| 0 <= a < p ==> slot_before(#[trigger] out@[a], slot),
            decreases out.len() - p,
        {
            p += 1;
        }
        let ghost old_out = out@;
        proof {
            if p < out.len() {
                assert(out@[p as int].source < i);
                assert(slot_before(slot, out@[p as int]));
            }
        }
        out.insert(p, slot);
        assert(out@ == old_out.insert(p as int, slot));
        assert forall|k: int| 0 <= k < out.len() implies (#[trigger] out@[k]).source < i + 1 && out@[k].row
            == rr@[out@[k].source as int] && out@[k].col == cr@[out@[k].source as int] by {
            if k < p {
                assert(out@[k] == old_out[k]);
            } else if k > p {
                assert(out@[k] == old_out[k - 1]);
            }
        }
        assert forall|k: int, l: int| 0 <= k < l < out.len() implies slot_before(#[trigger] out@[k], #[trigger] out@[l]) by {
            if l < p {
                assert(out@[k] == old_out[k] && out@[l] == old_out[l]);
            } else if l == p {
                assert(out@[k] == old_out[k]);
            } else if k < p {
                assert(out@[k] == old_out[k] && out@[l] == old_out[l - 1]);
                if l - 1 > p {
                    assert(slot_before(old_out[p as int], old_out[l - 1]));
                }
            } else if k == p {
                assert(out@[l] == old_out[l - 1]);
                if l - 1 > p {
                    assert(slot_before(old_out[p as int], old_out[l - 1]));
                }
            } else {
                assert(out@[k] == old_out[k - 1] && out@[l] == old_out[l - 1]);
            }
        }
        assert forall|s: int| 0 <= s < i + 1 implies #[trigger] source_listed(out@, s) by {
            if s == i {
                assert(out@[p as int].source == s);
            } else {
                assert(source_listed(old_out, s));
                let k = choose|k: int| 0 <= k < old_out.len() && #[trigger] old_out[k].source == s;
                if k < p {
                    assert(out@[k] == old_out[k]);
                } else {
                    assert(out@[k + 1] == old_out[k]);
                }
            }
        }
        i += 1;
    }
    assert(dense_ranks_spec(rows_of(positions@), rr@) && dense_ranks_spec(cols_of(positions@), cr@));
    out
}


/// The number of rows with at least two non-blank cells.
pub open spec fn dense_row_count(rows: Seq<Seq<Seq<char>>>) -> nat
    decreases rows.len(),
{
    if rows.len() == 0 {
        0
    } else {
        dense_row_count(rows.drop_last()) + if nonblank_count(rows.last()) >= 2 {
            1nat
        } else {
            0nat
        }
    }
}

/// A table worth reporting: at least two columns and two rows (header row
/// included), at least four non-blank cells, and at least two rows with two
/// non-blank cells or more.
pub open spec fn meaningful_spec(t: TableView) -> bool {
    &&& t.headers.len() >= 2
    &&& t.rows.len() + 1 >= 2
    &&& table_nonblank(t) >= 4
    &&& dense_row_count(table_cells(t)) >= 2
}

proof fn lemma_dense_prefix(rows: Seq<Seq<Seq<char>>>, k: int)
    requires
        0 <= k <= rows.len(),
    ensures
        dense_row_count(rows.take(k)) <= dense_row_count(rows),
    decreases rows.len() - k,
{
    if k < rows.len() {
        lemma_dense_prefix(rows, k + 1);
        assert(rows.take(k + 1).drop_last() =~= rows.take(k));
    } else {
        assert(rows.take(k) =~= rows);
    }
}

/// Tells whether a table is worth reporting.
pub fn is_meaningful_table(table: &Table) -> (b: bool)
    ensures
        b == meaningful_spec(table@),
{
    if table.headers.len() < 2 || table.rows.len() < 1 {
        return false;
    }
    if !table_has_nonblank(table, 4) {
        return false;
    }
    let ghost all = table_cells(table@);
    assert(all.take(1).drop_last() =~= Seq::<Seq<Seq<char>>>::empty());
    assert(all.take(1).last() == strings_view(table.headers@));
    assert(dense_row_count(all.take(1).drop_last()) == 0);
    let (first, _) = row_has_nonblank(&table.headers, 2);
    let mut dense: usize = if first {
        1
    } else {
        0
    };
    let mut i: usize = 0;
    while i < table.rows.len()
        invariant
            i <= table.rows.len(),
            all == table_cells(table@),
            all.len() == table.rows.len() + 1,
            dense == dense_row_count(all.take(i + 1)),
            dense < 2,
            table_nonblank(table@) >= 4,
            table.headers.len() >= 2,
            table.rows.len() >= 1,
        decreases table.rows.len() - i,
    {
        assert(all.take(i + 2).drop_last() =~= all.take(i + 1));
        assert(all.take(i + 2).last() == strings_view(table.rows@[i as int]@));
        let (yes, _) = row_has_nonblank(&table.rows[i], 2);
        if yes {
            dense += 1;
        }
        i += 1;
        if dense == 2 {
            proof {
                lemma_dense_prefix(all, i + 1);
            }
            return true;
        }
    }
    assert(all.take(table.rows.len() + 1) =~= all);
    false
}

/// The views of components of cells.
pub open spec fn components_view(v: Seq<Vec<CellText>>) -> Seq<Seq<CellTextView>> {
    v.map_values(|c: Vec<CellText>| cells_view(c@))
}

/// The tables of components, in order: components with fewer than two rows
/// or columns are skipped, and so are tables not worth reporting; each table
/// is numbered by how many came before it.
pub open spec fn lattice_tables_spec(comps: Seq<Seq<CellTextView>>, page: u32) -> Seq<TableView>
    decreases comps.len(),
{
    if comps.len() == 0 {
        Seq::empty()
    } else {
        let acc = lattice_tables_spec(comps.drop_last(), page);
        let c = comps.last();
        if max_row(c) + 1 < 2 || max_col(c) + 1 < 2 {
            acc
        } else {
            let t = merge_spec(c, page, acc.len() as usize);
            if meaningful_spec(t) {
                acc.push(t)
            } else {
                acc
            }
        }
    }
}

proof fn lemma_lattice_len(comps: Seq<Seq<CellTextView>>, page: u32)
    ensures
        lattice_tables_spec(comps, page).len() <= comps.len(),
    decreases comps.len(),
{
    if comps.len() > 0 {
        lemma_lattice_len(comps.drop_last(), page);
    }
}

fn grid_extent(cells: &Vec<CellText>) -> (r: (bool, bool))
    ensures
        r.0 == (max_row(cells_view(cells@)) + 1 >= 2),
        r.1 == (max_col(cells_view(cells@)) + 1 >= 2),
{
    let ghost cv = cells_view(cells@);
    let mut row_ok = false;
    let mut col_ok = false;
    let mut k: usize = 0;
    while k < cells.len()
        invariant
            k <= cells.len(),
            cv == cells_view(cells@),
            row_ok == (max_row(cv.take(k as int)) >= 1),
            col_ok == (max_col(cv.take(k as int)) >= 1),
        decreases cells.len() - k,
    {
        assert(cv.take(k + 1).drop_last() =~= cv.take(k as int));
        assert(cv.take(k + 1).last() == cells@[k as int]@);
        if cells[k].row >= 1 {
            row_ok = true;
        }
        if cells[k].col >= 1 {
            col_ok = true;
        }
        k += 1;
    }
    assert(cv.take(cells.len() as int) =~= cv);
    (row_ok, col_ok)
}

/// Builds the tables of a page from its components of cells.
pub fn lattice_tables(components: &Vec<Vec<CellText>>, page: u32, language: Language) -> (r: Result<Vec<Table>, TrexError>)
    requires
        forall|c: int, i: int|
            0 <= c < components.len() && 0 <= i < components@[c].len() ==> (#[trigger] components@[c]@[i]).row
                < usize::MAX && components@[c]@[i].col < usize::MAX,
    ensures
        r matches Ok(v) && tables_view(v@) == lattice_tables_spec(components_view(components@), page),
{
    let ghost all = components_view(components@);
    let mut tables: Vec<Table> = Vec::new();
    let mut c: usize = 0;
    while c < components.len()
        invariant
            c <= components.len(),
            all == components_view(components@),
            forall|c2: int, i: int|
                0 <= c2 < components.len() && 0 <= i < components@[c2].len() ==> (#[trigger] components@[c2]@[i]).row
                    < usize::MAX && components@[c2]@[i].col < usize::MAX,
            tables_view(tables@) == lattice_tables_spec(all.take(c as int), page),
            tables.len() <= c,
        decreases components.len() - c,
    {
        assert(all.take(c + 1).drop_last() =~= all.take(c as int));
        assert(all.take(c + 1).last() == cells_view(components@[c as int]@));
        let (row_ok, col_ok) = grid_extent(&components[c]);
        if row_ok && col_ok {
            assert(components@[c as int].len() > 0);
            let index = tables.len();
            let merged = merge_cells(&components[c], page, index, language);
            match merged {
                Ok(table) => {
                    if is_meaningful_table(&table) {
                        let ghost before = tables_view(tables@);
                        let ghost tv = table@;
                        tables.push(table);
                        assert(tables_view(tables@) =~= before.push(tv));
                    }
                },
                Err(e) => {
                    return Err(e);
                },
            }
        }
        c += 1;
    }
    assert(all.take(components.len() as int) =~= all);
    Ok(tables)
}


/// Whether a component gives a table: it spans at least two rows and two
/// columns, and its merged table is worth reporting.
pub open spec fn component_kept(c: Seq<CellTextView>, page: u32) -> bool {
    &&& max_row(c) >= 1
    &&& max_col(c) >= 1
    &&& meaningful_spec(merge_spec(c, page, 0))
}

/// How many of the components give a table.
pub open spec fn kept_count(comps: Seq<Seq<CellTextView>>, page: u32) -> nat
    decreases comps.len(),
{
    if comps.len() == 0 {
        0
    } else {
        kept_count(comps.drop_last(), page) + if component_kept(comps.last(), page) {
            1nat
        } else {
            0nat
        }
    }
}

/// Law: each component that spans at least two rows and two columns and
/// whose merged table is worth reporting gives exactly one table, in
/// component order, numbered by how many such components came before it;
/// no other component gives one.
pub proof fn lemma_lattice_one_table_per_component(comps: Seq<Seq<CellTextView>>, page: u32)
    ensures
        lattice_tables_spec(comps, page).len() == kept_count(comps, page),
        forall|j: int|
            0 <= j < comps.len() && component_kept(#[trigger] comps[j], page) ==> {
                let i = kept_count(comps.take(j), page) as int;
                &&& 0 <= i < lattice_tables_spec(comps, page).len()
                &&& lattice_tables_spec(comps, page)[i] == merge_spec(comps[j], page, i as usize)
            },
    decreases comps.len(),
{
    if comps.len() > 0 {
        let d = comps.drop_last();
        let c = comps.last();
        lemma_lattice_one_table_per_component(d, page);
        let acc = lattice_tables_spec(d, page);
        let out = lattice_tables_spec(comps, page);
        let t = merge_spec(c, page, acc.len() as usize);
        assert(meaningful_spec(t) == meaningful_spec(merge_spec(c, page, 0)));
        assert(out.len() == kept_count(comps, page));
        assert forall|j: int|
            0 <= j < comps.len() && component_kept(#[trigger] comps[j], page) implies {
                let i = kept_count(comps.take(j), page) as int;
                &&& 0 <= i < out.len()
                &&& out[i] == merge_spec(comps[j], page, i as usize)
            } by {
            let i = kept_count(comps.take(j), page) as int;
            if j < d.len() {
                assert(d[j] == comps[j]);
                assert(d.take(j) =~= comps.take(j));
                assert(out.len() >= acc.len());
                assert(out[i] == acc[i]);
            } else {
                assert(comps.take(j) =~= d);
                assert(comps[j] == c);
                assert(out == acc.push(t));
                assert(out[i] == t);
            }
        }
    }
}

} // verus!
