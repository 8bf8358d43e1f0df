//! Maximum flow by Dinic's algorithm on a residual graph kept as adjacency
//! rows of paired edges.

use vstd::prelude::*;

verus! {

/// Largest capacity an edge of the flow network is built with: the
/// residual capacities of an edge and its reverse then add up within `i64`.
pub open spec fn cap_bound() -> int {
    0x3FFF_FFFF_FFFF_FFFF
}

pub struct Edge {
    pub to: usize,
    pub rev: usize,
    pub cap: i64,
}

/// Residual graph of a flow network; `orig` remembers the capacity each edge
/// was created with (0 for the reverse edge of a pair).
pub struct Dinic {
    pub n: usize,
    pub g: Vec<Vec<Edge>>,
    pub orig: Ghost<Seq<Seq<int>>>,
}

impl Dinic {
    /// Edge `i` leaving vertex `v`.
    pub open spec fn edge(&self, v: int, i: int) -> Edge {
        self.g@[v]@[i]
    }

    /// Number of edges leaving vertex `v`.
    pub open spec fn deg(&self, v: int) -> int {
        self.g@[v]@.len() as int
    }

    /// Edges come in pairs (an edge and its reverse), the capacities stay
    /// non-negative and the residual capacities of a pair always add up to
    /// the capacities the pair was created with.
    pub open spec fn wf(&self) -> bool {
        &&& self.g@.len() == self.n
        &&& self.orig@.len() == self.n
        &&& forall|v: int| 0 <= v < self.n ==> #[trigger] self.orig@[v].len() == self.g@[v]@.len()
        &&& forall|v: int, i: int|
            0 <= v < self.n && 0 <= i < self.g@[v]@.len() ==> {
                let e = #[trigger] self.g@[v]@[i];
                &&& e.to < self.n
                &&& e.to != v
                &&& e.rev < self.g@[e.to as int]@.len()
                &&& self.g@[e.to as int]@[e.rev as int].to == v
                &&& self.g@[e.to as int]@[e.rev as int].rev == i
                &&& 0 <= e.cap
                &&& 0 <= self.orig@[v][i] <= cap_bound()
                &&& e.cap + self.g@[e.to as int]@[e.rev as int].cap == self.orig@[v][i]
                    + self.orig@[e.to as int][e.rev as int]
            }
    }

    /// A network of `n` vertices and no edge.
    pub fn new(n: usize) -> (d: Self)
        ensures
            d.wf(),
            d.n == n,
            forall|v: int| 0 <= v < n ==> (#[trigger] d.g@[v])@.len() == 0,
    {
        let mut g: Vec<Vec<Edge>> = Vec::new();
        let mut i: usize = 0;
        while i < n
            invariant
                i <= n,
                g@.len() == i,
                forall|v: int| 0 <= v < i ==> (#[trigger] g@[v])@.len() == 0,
            decreases n - i,
        {
            g.push(Vec::new());
            i = i + 1;
        }
        let ghost orig = Seq::new(n as nat, |v: int| Seq::<int>::empty());
        Dinic { n, g, orig: Ghost(orig) }
    }

    /// Adds an edge of capacity `cap` from `from` to `to`, and its reverse
    /// edge of capacity 0.
    pub fn add_edge(&mut self, from: usize, to: usize, cap: i64)
        requires
            old(self).wf(),
            from < old(self).n,
            to < old(self).n,
            from != to,
            0 <= cap <= cap_bound(),
        ensures
            final(self).wf(),
            final(self).n == old(self).n,
            final(self).g@[from as int]@ == old(self).g@[from as int]@.push(
                Edge { to, rev: old(self).g@[to as int]@.len() as usize, cap },
            ),
            final(self).g@[to as int]@ == old(self).g@[to as int]@.push(
                Edge { to: from, rev: old(self).g@[from as int]@.len() as usize, cap: 0 },
            ),
            final(self).orig@[from as int] == old(self).orig@[from as int].push(cap as int),
            final(self).orig@[to as int] == old(self).orig@[to as int].push(0),
            forall|v: int|
                0 <= v < old(self).n && v != from && v != to ==> #[trigger] final(self).g@[v]
                    == old(self).g@[v] && final(self).orig@[v] == old(self).orig@[v],
            forall|v: int, i: int|
                0 <= v < old(self).n && 0 <= i < old(self).g@[v]@.len() ==> #[trigger] final(self).g@[v]@[i]
                    == old(self).g@[v]@[i],
            forall|v: int, i: int|
                0 <= v < old(self).n && 0 <= i < old(self).orig@[v].len() ==> #[trigger] final(self).orig@[v][i]
                    == old(self).orig@[v][i],
    {
        let to_len = self.g[to].len();
        let from_len = self.g[from].len();
        self.g[from].push(Edge { to, rev: to_len, cap });
        self.g[to].push(Edge { to: from, rev: from_len, cap: 0 });
        let ghost o = self.orig@;
        self.orig = Ghost(o.update(from as int, o[from as int].push(cap as int)).update(
            to as int,
            o[to as int].push(0),
        ));
        assert forall|v: int, i: int|
            0 <= v < self.n && 0 <= i < self.g@[v]@.len() implies {
                let e = #[trigger] self.g@[v]@[i];
                &&& e.to < self.n
                &&& e.to != v
                &&& e.rev < self.g@[e.to as int]@.len()
                &&& self.g@[e.to as int]@[e.rev as int].to == v
                &&& self.g@[e.to as int]@[e.rev as int].rev == i
                &&& 0 <= e.cap
                &&& 0 <= self.orig@[v][i] <= cap_bound()
                &&& e.cap + self.g@[e.to as int]@[e.rev as int].cap == self.orig@[v][i]
                    + self.orig@[e.to as int][e.rev as int]
            } by {
            if v == from || v == to {
                if !(v == from && i == from_len) && !(v == to && i == to_len) {
                    assert(self.g@[v]@[i] == old(self).g@[v]@[i]);
                }
            }
        }
        assert forall|v: int, i: int|
            0 <= v < old(self).n && 0 <= i < old(self).g@[v]@.len() implies #[trigger] self.g@[v]@[i]
                == old(self).g@[v]@[i] by {
            if v != from && v != to {
                assert(self.g@[v] == old(self).g@[v]);
            }
        }
        assert forall|v: int, i: int|
            0 <= v < old(self).n && 0 <= i < old(self).orig@[v].len() implies #[trigger] self.orig@[v][i]
                == old(self).orig@[v][i] by {
            if v != from && v != to {
                assert(self.orig@[v] == old(self).orig@[v]);
            }
        }
    }
}


/// Number of entries of `level` that are still unset (negative).
pub open spec fn num_unset(level: Seq<i32>) -> nat
    decreases level.len(),
{
    if level.len() == 0 {
        0
    } else {
        num_unset(level.drop_last()) + if level.last() < 0 {
            1nat
        } else {
            0nat
        }
    }
}

proof fn lemma_num_unset_bound(level: Seq<i32>)
    ensures
        num_unset(level) <= level.len(),
    decreases level.len(),
{
    if level.len() > 0 {
        lemma_num_unset_bound(level.drop_last());
    }
}

proof fn lemma_num_unset_set(level: Seq<i32>, x: int, val: i32)
    requires
        0 <= x < level.len(),
        level[x] < 0,
        val >= 0,
    ensures
        num_unset(level.update(x, val)) + 1 == num_unset(level),
    decreases level.len(),
{
    let l2 = level.update(x, val);
    if x == level.len() - 1 {
        assert(l2.drop_last() =~= level.drop_last());
    } else {
        assert(l2.drop_last() =~= level.drop_last().update(x, val));
        lemma_num_unset_set(level.drop_last(), x, val);
    }
}

proof fn lemma_num_unset_all(level: Seq<i32>)
    requires
        forall|v: int| 0 <= v < level.len() ==> level[v] < 0,
    ensures
        num_unset(level) == level.len(),
    decreases level.len(),
{
    if level.len() > 0 {
        lemma_num_unset_all(level.drop_last());
    }
}

impl Dinic {
    /// Every edge with residual capacity that leaves a vertex of the level
    /// graph (level >= 0) enters a vertex of the level graph.
    pub open spec fn closed(&self, level: Seq<i32>) -> bool {
        forall|v: int, i: int|
            0 <= v < self.n && 0 <= i < self.g@[v]@.len() && level[v] >= 0 && (
            #[trigger] self.g@[v]@[i]).cap > 0 ==> level[self.g@[v]@[i].to as int] >= 0
    }

    /// Breadth-first search from `s` in the residual graph; `level[v]` becomes
    /// the distance from `s`, or -1 where `v` cannot be reached.
    pub fn bfs(&self, s: usize, t: usize, level: &mut Vec<i32>) -> (r: bool)
        requires
            self.wf(),
            s < self.n,
            t < self.n,
            self.n < 0x4000_0000,
            old(level)@.len() == self.n,
        ensures
            final(level)@.len() == self.n,
            r == (final(level)@[t as int] >= 0),
            final(level)@[s as int] == 0,
            forall|v: int| 0 <= v < self.n ==> -1 <= #[trigger] final(level)@[v] < self.n,
            forall|v: int| 0 <= v < self.n && #[trigger] final(level)@[v] == 0 ==> v == s,
            self.closed(final(level)@),
            forall|v: int, i: int|
                0 <= v < self.n && 0 <= i < self.g@[v]@.len() && final(level)@[v] >= 0 && (
                #[trigger] self.g@[v]@[i]).cap > 0 ==> final(level)@[self.g@[v]@[i].to as int] <= final(level)@[v] + 1,
            forall|v: int|
                0 <= v < self.n && #[trigger] final(level)@[v] > 0 ==> exists|u: int, i: int|
                    0 <= u < self.n && 0 <= i < self.g@[u]@.len() && (#[trigger] self.g@[u]@[i]).to
                        == v && self.g@[u]@[i].cap > 0 && final(level)@[u] == final(level)@[v] - 1,
    {
        let n = self.n;
        let mut k: usize = 0;
        while k < n
            invariant
                level@.len() == n,
                k <= n,
                forall|v: int| 0 <= v < k ==> #[trigger] level@[v] == -1,
            decreases n - k,
        {
            level.set(k, -1);
            k = k + 1;
        }
        proof {
            lemma_num_unset_all(level@);
        }
        let mut q: std::collections::VecDeque<usize> = std::collections::VecDeque::new();
        proof {
            lemma_num_unset_set(level@, s as int, 0);
        }
        level.set(s, 0);
        q.push_back(s);
        assert(q@[0] == s);
        let ghost mut par: Seq<int> = Seq::new(n as nat, |v: int| 0);
        let ghost mut pari: Seq<int> = Seq::new(n as nat, |v: int| 0);
        proof {
            lemma_num_unset_bound(level@);
        }
        while q.len() > 0
            invariant
                self.wf(),
                n == self.n,
                n < 0x4000_0000,
                s < n,
                level@.len() == n,
                par.len() == n,
                pari.len() == n,
                num_unset(level@) <= n,
                forall|j: int| 0 <= j < q@.len() ==> #[trigger] q@[j] < n && level@[q@[j] as int] >= 0,
                level@[s as int] == 0,
                forall|v: int|
                    0 <= v < n ==> -1 <= #[trigger] level@[v] && (level@[v] >= 0 ==> level@[v] <= n
                        - num_unset(level@) - 1),
                forall|v: int| 0 <= v < n && #[trigger] level@[v] == 0 ==> v == s,
                forall|v: int, i: int|
                    0 <= v < n && 0 <= i < self.g@[v]@.len() && level@[v] >= 0 && !q@.contains(
                        v as usize,
                    ) && (#[trigger] self.g@[v]@[i]).cap > 0 ==> level@[self.g@[v]@[i].to as int]
                        >= 0 && level@[self.g@[v]@[i].to as int] <= level@[v] + 1,
                forall|a: int, b: int|
                    0 <= a <= b < q@.len() ==> level@[#[trigger] q@[a] as int] <= level@[#[trigger] q@[b] as int],
                q@.len() > 0 ==> forall|w: int| 0 <= w < n && #[trigger] level@[w] >= 0 ==> level@[w] <= level@[q@[0] as int] + 1,
                forall|v: int|
                    0 <= v < n && #[trigger] level@[v] > 0 ==> {
                        &&& 0 <= par[v] < n
                        &&& 0 <= pari[v] < self.g@[par[v]]@.len()
                        &&& self.g@[par[v]]@[pari[v]].to == v
                        &&& self.g@[par[v]]@[pari[v]].cap > 0
                        &&& level@[par[v]] == level@[v] - 1
                    },
            decreases 2 * num_unset(level@) + q@.len(),
        {
            let ghost m0 = 2 * num_unset(level@) + q@.len();
            let ghost q_before = q@;
            let v = q.pop_front().unwrap();
            let ghost q_after_pop = q@;
            let lv = level[v];
            let deg = self.g[v].len();
            assert forall|w: usize| #[trigger] q_before.contains(w) && w != v implies q_after_pop.contains(w) by {
                let j = choose|j: int| 0 <= j < q_before.len() && q_before[j] == w;
                assert(q_after_pop[j - 1] == w);
            }
            assert(q_before[0] == v);
            let mut i: usize = 0;
            while i < deg
                invariant
                    self.wf(),
                    n == self.n,
                    n < 0x4000_0000,
                    s < n,
                    v < n,
                    deg == self.g@[v as int]@.len(),
                    i <= deg,
                    level@.len() == n,
                    par.len() == n,
                    pari.len() == n,
                    num_unset(level@) <= n,
                    lv == level@[v as int],
                    lv >= 0,
                    2 * num_unset(level@) + q@.len() < m0,
                    forall|j: int|
                        0 <= j < q@.len() ==> #[trigger] q@[j] < n && level@[q@[j] as int] >= 0,
                    level@[s as int] == 0,
                    forall|w: int|
                        0 <= w < n ==> -1 <= #[trigger] level@[w] && (level@[w] >= 0 ==> level@[w]
                            <= n - num_unset(level@) - 1),
                    forall|w: int| 0 <= w < n && #[trigger] level@[w] == 0 ==> w == s,
                    forall|w: int, j: int|
                        0 <= w < n && 0 <= j < self.g@[w]@.len() && level@[w] >= 0 && w != v
                            && !q@.contains(w as usize) && (#[trigger] self.g@[w]@[j]).cap > 0
                            ==> level@[self.g@[w]@[j].to as int] >= 0 && level@[self.g@[w]@[j].to as int] <= level@[w] + 1,
                    forall|j: int|
                        0 <= j < i && (#[trigger] self.g@[v as int]@[j]).cap > 0 ==> level@[self.g@[v as int]@[j].to as int] >= 0
                            && level@[self.g@[v as int]@[j].to as int] <= lv + 1,
                    forall|a: int, b: int|
                        0 <= a <= b < q@.len() ==> level@[#[trigger] q@[a] as int] <= level@[#[trigger] q@[b] as int],
                    forall|a: int| 0 <= a < q@.len() ==> lv <= level@[#[trigger] q@[a] as int] <= lv + 1,
                    forall|w: int| 0 <= w < n && #[trigger] level@[w] >= 0 ==> level@[w] <= lv + 1,
                    forall|w: int|
                        0 <= w < n && #[trigger] level@[w] > 0 ==> {
                            &&& 0 <= par[w] < n
                            &&& 0 <= pari[w] < self.g@[par[w]]@.len()
                            &&& self.g@[par[w]]@[pari[w]].to == w
                            &&& self.g@[par[w]]@[pari[w]].cap > 0
                            &&& level@[par[w]] == level@[w] - 1
                        },
                decreases deg - i,
            {
                let e = self.g[v][i].to;
                let c = self.g[v][i].cap;
                if c > 0 && level[e] < 0 {
                    let nl: i32 = lv + 1;
                    proof {
                        lemma_num_unset_set(level@, e as int, nl);
                        par = par.update(e as int, v as int);
                        pari = pari.update(e as int, i as int);
                    }
                    let ghost q_prev = q@;
                    level.set(e, nl);
                    q.push_back(e);
                    assert forall|w: usize| #[trigger] q_prev.contains(w) implies q@.contains(w) by {
                        let j = choose|j: int| 0 <= j < q_prev.len() && q_prev[j] == w;
                        assert(q@[j] == w);
                    }
                    assert(q@[q@.len() - 1] == e);
                }
                i = i + 1;
            }
        }
        proof {
            assert forall|v: int, i: int|
                0 <= v < self.n && 0 <= i < self.g@[v]@.len() && level@[v] >= 0 && (
                #[trigger] self.g@[v]@[i]).cap > 0 implies level@[self.g@[v]@[i].to as int] >= 0 by {
                assert(!q@.contains(v as usize));
            }
            assert forall|v: int| 0 <= v < self.n && #[trigger] level@[v] > 0 implies exists|u: int, i: int|
                0 <= u < self.n && 0 <= i < self.g@[u]@.len() && (#[trigger] self.g@[u]@[i]).to == v
                    && self.g@[u]@[i].cap > 0 && level@[u] == level@[v] - 1 by {
                let u = par[v];
                let i = pari[v];
                assert(self.g@[u]@[i].to == v);
            }
        }
        level[t] >= 0
    }
}


/// Net flow leaving a vertex through the first `k` edges of its adjacency row.
pub open spec fn row_out(row: Seq<Edge>, orow: Seq<int>, k: int) -> int
    decreases k,
{
    if k <= 0 {
        0
    } else {
        row_out(row, orow, k - 1) + (orow[k - 1] - row[k - 1].cap)
    }
}

proof fn lemma_row_out_update(row: Seq<Edge>, orow: Seq<int>, k: int, i: int, c: i64)
    requires
        0 <= i < k,
        k <= row.len(),
    ensures
        row_out(row.update(i, Edge { to: row[i].to, rev: row[i].rev, cap: c }), orow, k) == row_out(
            row,
            orow,
            k,
        ) - (c - row[i].cap),
    decreases k,
{
    let row2 = row.update(i, Edge { to: row[i].to, rev: row[i].rev, cap: c });
    if k - 1 == i {
        lemma_row_out_same(row, row2, orow, k - 1);
    } else {
        lemma_row_out_update(row, orow, k - 1, i, c);
    }
}

proof fn lemma_row_out_same(row: Seq<Edge>, row2: Seq<Edge>, orow: Seq<int>, k: int)
    requires
        forall|j: int| 0 <= j < k ==> #[trigger] row[j].cap == row2[j].cap,
    ensures
        row_out(row, orow, k) == row_out(row2, orow, k),
    decreases k,
{
    if k > 0 {
        lemma_row_out_same(row, row2, orow, k - 1);
    }
}

impl Dinic {
    /// Net flow out of vertex `v`: what its edges carry, less what they
    /// bring back.
    pub open spec fn net_out(&self, v: int) -> int {
        row_out(self.g@[v]@, self.orig@[v], self.g@[v]@.len() as int)
    }

    /// Same vertices, same edges, same initial capacities: only residual
    /// capacities may differ.
    pub open spec fn same_shape(&self, other: &Dinic) -> bool {
        &&& self.n == other.n
        &&& self.orig@ == other.orig@
        &&& self.g@.len() == other.g@.len()
        &&& forall|v: int| 0 <= v < self.n ==> #[trigger] self.g@[v]@.len() == other.g@[v]@.len()
        &&& forall|v: int, i: int|
            #![trigger self.g@[v]@[i]]
            #![trigger other.g@[v]@[i]]
            0 <= v < self.n && 0 <= i < self.g@[v]@.len() ==> self.g@[v]@[i].to == other.g@[v]@[i].to
                && self.g@[v]@[i].rev == other.g@[v]@[i].rev
    }

    /// `p` is a path of the level graph from `v` to `t` whose every edge has
    /// residual capacity `d` at least: step `(x, i)` takes edge `i` of `x` to
    /// a strictly higher level, each step leaves from where the previous one
    /// arrived, the last arrives at `t`, and no step starts below `v`'s
    /// level. The path is empty exactly when `v` is `t`.
    pub open spec fn level_path(&self, level: Seq<i32>, p: Seq<(int, int)>, v: int, t: int, d: int) -> bool {
        &&& (p.len() == 0 <==> v == t)
        &&& p.len() > 0 ==> p[0].0 == v && self.g@[p[p.len() - 1].0]@[p[p.len() - 1].1].to == t
        &&& forall|q: int|
            0 <= q < p.len() ==> {
                &&& 0 <= (#[trigger] p[q]).0 < self.n
                &&& 0 <= p[q].1 < self.g@[p[q].0]@.len()
                &&& self.g@[p[q].0]@[p[q].1].cap >= d
                &&& level[v] <= level[p[q].0]
                &&& level[p[q].0] < level[self.g@[p[q].0]@[p[q].1].to as int]
            }
        &&& forall|q: int| #![trigger p[q]] 1 <= q < p.len() ==> self.g@[p[q - 1].0]@[p[q - 1].1].to == p[q].0
    }

    /// Edge `j` of `x` is one of the reverse edges of the steps of `p`.
    pub open spec fn back_on_path(&self, p: Seq<(int, int)>, x: int, j: int) -> bool {
        exists|q: int|
            0 <= q < p.len() && self.g@[p[q].0]@[p[q].1].to == x && self.g@[(#[trigger] p[q]).0]@[p[q].1].rev == j
    }

    /// A path from `u` to `t` in the level graph: every edge has residual
    /// capacity and leads to a strictly higher level.
    pub open spec fn lp(&self, level: Seq<i32>, u: int, t: int) -> bool
        decreases self.n - level[u],
    {
        if !(0 <= u < self.n && 0 <= level[u] < self.n) {
            false
        } else if u == t {
            true
        } else {
            exists|i: int|
                0 <= i < self.g@[u]@.len() && (#[trigger] self.g@[u]@[i]).cap > 0 && level[u]
                    < level[self.g@[u]@[i].to as int] && level[self.g@[u]@[i].to as int] < self.n
                    && self.lp(level, self.g@[u]@[i].to as int, t)
        }
    }

    /// The `i`-th edge of `x` starts a path of the level graph to `t`.
    pub open spec fn live(&self, level: Seq<i32>, x: int, i: int, t: int) -> bool {
        &&& self.g@[x]@[i].cap > 0
        &&& level[x] < level[self.g@[x]@[i].to as int]
        &&& level[self.g@[x]@[i].to as int] < self.n
        &&& self.lp(level, self.g@[x]@[i].to as int, t)
    }

    /// The edges that the search pointers have moved past lead nowhere.
    pub open spec fn dead_prefix(&self, level: Seq<i32>, it: Seq<usize>, t: int) -> bool {
        forall|x: int, i: int|
            #![trigger self.g@[x]@[i]]
            0 <= x < self.n && 0 <= i < it[x] && i < self.g@[x]@.len() ==> !self.live(level, x, i, t)
    }

    /// No edge of the level graph has gained residual capacity.
    pub open spec fn no_gain(&self, other: &Dinic, level: Seq<i32>) -> bool {
        forall|x: int, i: int|
            #![trigger other.g@[x]@[i]]
            0 <= x < self.n && 0 <= i < self.g@[x]@.len() && level[x] < level[self.g@[x]@[i].to as int]
                ==> other.g@[x]@[i].cap <= self.g@[x]@[i].cap
    }
}

proof fn lemma_lp_mono(a: &Dinic, b: &Dinic, level: Seq<i32>, u: int, t: int)
    requires
        a.same_shape(b),
        a.no_gain(b, level),
        b.lp(level, u, t),
    ensures
        a.lp(level, u, t),
    decreases a.n - level[u],
{
    if u != t {
        let i = choose|i: int|
            0 <= i < b.g@[u]@.len() && (#[trigger] b.g@[u]@[i]).cap > 0 && level[u]
                < level[b.g@[u]@[i].to as int] && level[b.g@[u]@[i].to as int] < b.n && b.lp(
                level,
                b.g@[u]@[i].to as int,
                t,
            );
        assert(a.g@[u]@[i].to == b.g@[u]@[i].to);
        lemma_lp_mono(a, b, level, b.g@[u]@[i].to as int, t);
        assert(a.g@[u]@[i].cap > 0);
    }
}

proof fn lemma_dead_prefix_mono(a: &Dinic, b: &Dinic, level: Seq<i32>, it: Seq<usize>, t: int)
    requires
        a.same_shape(b),
        a.no_gain(b, level),
        a.dead_prefix(level, it, t),
    ensures
        b.dead_prefix(level, it, t),
{
    assert forall|x: int, i: int|
        #![trigger b.g@[x]@[i]]
        0 <= x < b.n && 0 <= i < it[x] && i < b.g@[x]@.len() implies !b.live(level, x, i, t) by {
        assert(a.g@[x]@[i] == a.g@[x]@[i]);
        if b.live(level, x, i, t) {
            lemma_lp_mono(a, b, level, b.g@[x]@[i].to as int, t);
        }
    }
}


impl Dinic {
    /// Depth-first search for one augmenting path of the level graph from `v`
    /// to `t`, carrying at most `f`; returns the amount pushed (0 if none).
    /// Something is pushed exactly when such a path exists, and then it is
    /// pushed along one path (`augmented_along`): its edges lose that much
    /// residual capacity, their reverse edges gain it, the other edges keep
    /// theirs. The search pointers only move forward.
    pub fn dfs(&mut self, v: usize, t: usize, f: i64, level: &Vec<i32>, it: &mut Vec<usize>) -> (d: i64)
        requires
            old(self).wf(),
            old(self).n < 0x4000_0000,
            v < old(self).n,
            t < old(self).n,
            f > 0,
            level@.len() == old(self).n,
            forall|x: int| 0 <= x < old(self).n ==> -1 <= #[trigger] level@[x] < old(self).n,
            level@[v as int] >= 0,
            old(it)@.len() == old(self).n,
            forall|x: int| 0 <= x < old(self).n ==> #[trigger] old(it)@[x] <= old(self).g@[x]@.len(),
            old(self).dead_prefix(level@, old(it)@, t as int),
        ensures
            final(self).wf(),
            final(self).same_shape(old(self)),
            old(self).no_gain(final(self), level@),
            0 <= d <= f,
            d > 0 <==> old(self).lp(level@, v as int, t as int),
            d > 0 ==> exists|p: Seq<(int, int)>| #[trigger] augmented_along(*old(self), *final(self), level@, p, v as int, t as int, d as int),
            d == 0 ==> final(self).g@ == old(self).g@,
            d == 0 ==> !final(self).lp(level@, v as int, t as int),
            forall|x: int|
                0 <= x < old(self).n ==> #[trigger] final(self).net_out(x) == old(self).net_out(x) + (
                if x == v {
                    d as int
                } else {
                    0
                }) - (if x == t {
                    d as int
                } else {
                    0
                }),
            forall|x: int|
                0 <= x < old(self).n && level@[x] < level@[v as int] ==> #[trigger] final(self).g@[x]
                    == old(self).g@[x],
            final(it)@.len() == old(self).n,
            forall|x: int| 0 <= x < old(self).n ==> #[trigger] final(it)@[x] <= final(self).g@[x]@.len(),
            final(self).dead_prefix(level@, final(it)@, t as int),
            forall|x: int|
                0 <= x < old(self).n && x != v && level@[x] <= level@[v as int] ==> #[trigger] final(it)@[x]
                    == old(it)@[x],
            forall|x: int| 0 <= x < old(self).n ==> #[trigger] final(it)@[x] >= old(it)@[x],
        decreases old(self).n - level@[v as int],
    {
        if v == t {
            proof {
                assert(old(self).lp(level@, v as int, t as int));
                let p: Seq<(int, int)> = Seq::empty();
                reveal(augmented_along);
                assert(old(self).level_path(level@, p, v as int, t as int, f as int));
                assert(augmented_along(*old(self), *self, level@, p, v as int, t as int, f as int));
            }
            return f;
        }
        let len = self.g[v].len();
        let mut i = it[v];
        while i < len
            invariant
                self.wf(),
                self.n == old(self).n,
                self.n < 0x4000_0000,
                self.g@ == old(self).g@,
                self.orig@ == old(self).orig@,
                v < self.n,
                t < self.n,
                v != t,
                f > 0,
                len == self.g@[v as int]@.len(),
                level@.len() == self.n,
                forall|x: int| 0 <= x < self.n ==> -1 <= #[trigger] level@[x] < self.n,
                level@[v as int] >= 0,
                old(it)@[v as int] <= i <= len,
                it@.len() == self.n,
                it@[v as int] <= i,
                forall|x: int| 0 <= x < self.n ==> #[trigger] it@[x] <= self.g@[x]@.len(),
                self.dead_prefix(level@, it@, t as int),
                forall|x: int|
                    0 <= x < self.n && x != v && level@[x] <= level@[v as int] ==> #[trigger] it@[x]
                        == old(it)@[x],
                forall|j: int|
                    #![trigger self.g@[v as int]@[j]]
                    0 <= j < i ==> !self.live(level@, v as int, j, t as int),
                forall|x: int| 0 <= x < self.n ==> #[trigger] it@[x] >= old(it)@[x],
            decreases len - i,
        {
            it.set(v, i);
            let e = self.g[v][i].to;
            let cap = self.g[v][i].cap;
            if cap > 0 && level[v] < level[e] {
                let ff = if f < cap {
                    f
                } else {
                    cap
                };
                let ghost g0 = *self;
                let ghost it0 = it@;
                let d = self.dfs(e, t, ff, level, it);
                if d > 0 {
                    let ghost g1 = *self;
                    assert(g1.g@[v as int] == g0.g@[v as int]);
                    let nc = self.g[v][i].cap - d;
                    self.g[v][i].cap = nc;
                    let rev = self.g[v][i].rev;
                    let ghost g2 = *self;
                    assert(g2.g@[v as int]@ == g1.g@[v as int]@.update(
                        i as int,
                        Edge { to: e, rev, cap: nc },
                    ));
                    proof {
                        lemma_lp_same_graph(g0, *old(self), level@, e as int, t as int);
                        assert(old(self).g@[v as int]@[i as int].to == e);
                        assert(old(self).lp(level@, v as int, t as int));
                    }
                    let rc = self.g[e][rev].cap + d;
                    self.g[e][rev].cap = rc;
                    assert(self.g@[e as int]@ == g2.g@[e as int]@.update(
                        rev as int,
                        Edge { to: v, rev: i, cap: rc },
                    ));
                    proof {
                        assert(g1.wf());
                        lemma_augment_path(
                            *old(self),
                            g0,
                            g1,
                            g2,
                            *self,
                            level@,
                            v as int,
                            t as int,
                            e as int,
                            i as int,
                            rev as int,
                            d as int,
                        );
                        lemma_augment(
                            *old(self),
                            g1,
                            g2,
                            *self,
                            level@,
                            it@,
                            v as int,
                            t as int,
                            e as int,
                            i as int,
                            rev as int,
                            d,
                        );
                    }
                    return d;
                } else {
                    assert(!self.live(level@, v as int, i as int, t as int));
                }
            }
            i = i + 1;
        }
        proof {
            lemma_lp_same_graph(*self, *old(self), level@, v as int, t as int);
        }
        0
    }
}

/// `b` is `a` after pushing `d` units along the path `p` of `a`'s level
/// graph from `v` to `t`: each step lost `d` of residual capacity, each
/// step's reverse edge gained `d`, and every other edge kept its capacity.
#[verifier::opaque]
pub open spec fn augmented_along(a: Dinic, b: Dinic, level: Seq<i32>, p: Seq<(int, int)>, v: int, t: int, d: int) -> bool {
    &&& a.level_path(level, p, v, t, d)
    &&& forall|x: int, j: int|
        0 <= x < a.n && 0 <= j < a.g@[x]@.len() ==> #[trigger] b.g@[x]@[j].cap == a.g@[x]@[j].cap - (if on_path(p, x, j) {
            d
        } else {
            0
        }) + (if a.back_on_path(p, x, j) {
            d
        } else {
            0
        })
}

/// Pushing `d` along edge `i` of `v` to `e`, after `d` was pushed along a
/// path from `e` to `t`, pushes `d` along the path from `v` that starts with
/// that edge.
proof fn lemma_augment_path(
    a: Dinic,
    g0: Dinic,
    g1: Dinic,
    g2: Dinic,
    g3: Dinic,
    level: Seq<i32>,
    v: int,
    t: int,
    e: int,
    i: int,
    rev: int,
    d: int,
)
    requires
        a.wf(),
        g0.n == a.n,
        g0.g@ == a.g@,
        g1.same_shape(&g0),
        g1.wf(),
        d > 0,
        exists|p: Seq<(int, int)>| #[trigger] augmented_along(g0, g1, level, p, e, t, d),
        0 <= v < a.n,
        v != t,
        0 <= i < a.g@[v]@.len(),
        a.g@[v]@[i].to == e,
        a.g@[v]@[i].rev == rev,
        a.g@[v]@[i].cap >= d,
        level[v] < level[e],
        g2.g@.len() == g1.g@.len(),
        g2.g@[v]@ == g1.g@[v]@.update(i, Edge { to: e as usize, rev: rev as usize, cap: (g1.g@[v]@[i].cap - d) as i64 }),
        forall|x: int| 0 <= x < a.n && x != v ==> #[trigger] g2.g@[x] == g1.g@[x],
        g3.g@.len() == g2.g@.len(),
        g3.g@[e]@ == g2.g@[e]@.update(rev, Edge { to: v as usize, rev: i as usize, cap: (g2.g@[e]@[rev].cap + d) as i64 }),
        forall|x: int| 0 <= x < a.n && x != e ==> #[trigger] g3.g@[x] == g2.g@[x],
    ensures
        exists|p: Seq<(int, int)>| #[trigger] augmented_along(a, g3, level, p, v, t, d),
{
    reveal(augmented_along);
    let p1 = choose|p: Seq<(int, int)>| #[trigger] augmented_along(g0, g1, level, p, e, t, d);
    let p = seq![(v, i)] + p1;
    assert(a.level_path(level, p1, e, t, d)) by {
        assert(g0.level_path(level, p1, e, t, d));
    }
    lemma_path_prepend(a, level, p1, v, t, e, i, rev, d);
    lemma_pair_sum(g1, v, i);
    assert(g1.g@[v]@[i].to == e && g1.g@[v]@[i].rev == rev);
    assert(0 <= e < a.n && 0 <= rev < a.g@[e]@.len());
    assert(g0.back_on_path(p1, v, i) == a.back_on_path(p1, v, i));
    assert(g0.back_on_path(p1, e, rev) == a.back_on_path(p1, e, rev));
    assert(g1.g@[v]@[i].cap == a.g@[v]@[i].cap);
    assert(g1.g@[e]@[rev].cap == a.g@[e]@[rev].cap);
    assert forall|x: int, j: int| 0 <= x < a.n && 0 <= j < a.g@[x]@.len() implies #[trigger] g3.g@[x]@[j].cap == a.g@[x]@[j].cap
        - (if on_path(p, x, j) {
        d
    } else {
        0
    }) + (if a.back_on_path(p, x, j) {
        d
    } else {
        0
    }) by {
        assert(g1.g@[x]@[j].cap == g0.g@[x]@[j].cap - (if on_path(p1, x, j) {
            d
        } else {
            0
        }) + (if g0.back_on_path(p1, x, j) {
            d
        } else {
            0
        }));
        assert(g0.back_on_path(p1, x, j) == a.back_on_path(p1, x, j));
        lemma_path_steps(a, p1, v, i, e, rev, x, j);
        assert(g1.g@[x]@.len() == a.g@[x]@.len());
        lemma_augment_cap(a, g1, g2, g3, p, p1, v, e, i, rev, d, x, j);
    }
    assert(augmented_along(a, g3, level, p, v, t, d));
}

/// A step `(v, i)` to `e` below a level path from `e` to `t` makes a level
/// path from `v`; neither the step nor its reverse edge is a step or a
/// reverse edge of the path from `e`.
proof fn lemma_path_prepend(a: Dinic, level: Seq<i32>, p1: Seq<(int, int)>, v: int, t: int, e: int, i: int, rev: int, d: int)
    requires
        a.wf(),
        a.level_path(level, p1, e, t, d),
        0 <= v < a.n,
        v != t,
        0 <= i < a.g@[v]@.len(),
        a.g@[v]@[i].to == e,
        a.g@[v]@[i].rev == rev,
        a.g@[v]@[i].cap >= d,
        level[v] < level[e],
    ensures
        !on_path(p1, v, i),
        !on_path(p1, e, rev),
        !a.back_on_path(p1, v, i),
        !a.back_on_path(p1, e, rev),
        a.level_path(level, seq![(v, i)] + p1, v, t, d),
{
    let p = seq![(v, i)] + p1;
    let n = a.n;
    assert(e != v);
    assert(0 <= e < n);
    assert(0 <= rev < a.g@[e]@.len());
    assert(a.g@[e]@[rev].to == v);
    assert(!on_path(p1, v, i)) by {
        if on_path(p1, v, i) {
            let q = choose|q: int| 0 <= q < p1.len() && #[trigger] p1[q] == (v, i);
            assert(level[e] <= level[p1[q].0]);
        }
    }
    assert(!on_path(p1, e, rev)) by {
        if on_path(p1, e, rev) {
            let q = choose|q: int| 0 <= q < p1.len() && #[trigger] p1[q] == (e, rev);
            assert(level[p1[q].0] < level[a.g@[e]@[rev].to as int]);
        }
    }
    assert(!a.back_on_path(p1, v, i)) by {
        if a.back_on_path(p1, v, i) {
            let q = choose|q: int|
                0 <= q < p1.len() && a.g@[p1[q].0]@[p1[q].1].to == v && a.g@[(#[trigger] p1[q]).0]@[p1[q].1].rev == i;
            assert(level[e] <= level[p1[q].0]);
        }
    }
    assert(!a.back_on_path(p1, e, rev)) by {
        if a.back_on_path(p1, e, rev) {
            let q = choose|q: int|
                0 <= q < p1.len() && a.g@[p1[q].0]@[p1[q].1].to == e && a.g@[(#[trigger] p1[q]).0]@[p1[q].1].rev == rev;
            assert(level[e] <= level[p1[q].0]);
        }
    }
    assert(p[0] == (v, i));
    assert forall|q: int| 0 <= q < p.len() implies {
        &&& 0 <= (#[trigger] p[q]).0 < a.n
        &&& 0 <= p[q].1 < a.g@[p[q].0]@.len()
        &&& a.g@[p[q].0]@[p[q].1].cap >= d
        &&& level[v] <= level[p[q].0]
        &&& level[p[q].0] < level[a.g@[p[q].0]@[p[q].1].to as int]
    } by {
        if q > 0 {
            assert(p[q] == p1[q - 1]);
        }
    }
    assert forall|q: int| #![trigger p[q]] 1 <= q < p.len() implies a.g@[p[q - 1].0]@[p[q - 1].1].to == p[q].0 by {
        assert(p[q] == p1[q - 1]);
        if q == 1 {
            assert(e != t);
            assert(p1.len() > 0);
        } else {
            assert(p[q - 1] == p1[q - 2]);
        }
    }
    if p1.len() == 0 {
        assert(e == t);
    } else {
        assert(p[p.len() - 1] == p1[p1.len() - 1]);
    }
}

/// The steps and reverse edges of the path `(v, i)` then `p1` are those of
/// `p1` and the first step and its reverse edge.
proof fn lemma_path_steps(a: Dinic, p1: Seq<(int, int)>, v: int, i: int, e: int, rev: int, x: int, j: int)
    requires
        0 <= v < a.n,
        0 <= i < a.g@[v]@.len(),
        a.g@[v]@[i].to == e,
        a.g@[v]@[i].rev == rev,
    ensures
        on_path(seq![(v, i)] + p1, x, j) == (on_path(p1, x, j) || (x == v && j == i)),
        a.back_on_path(seq![(v, i)] + p1, x, j) == (a.back_on_path(p1, x, j) || (x == e && j == rev)),
{
    let p = seq![(v, i)] + p1;
    if on_path(p, x, j) {
        let q = choose|q: int| 0 <= q < p.len() && #[trigger] p[q] == (x, j);
        if q > 0 {
            assert(p1[q - 1] == p[q]);
        }
    }
    if on_path(p1, x, j) {
        let q = choose|q: int| 0 <= q < p1.len() && #[trigger] p1[q] == (x, j);
        assert(p[q + 1] == p1[q]);
    }
    if x == v && j == i {
        assert(p[0] == (x, j));
    }
    if a.back_on_path(p, x, j) {
        let q = choose|q: int| 0 <= q < p.len() && a.g@[p[q].0]@[p[q].1].to == x && a.g@[(#[trigger] p[q]).0]@[p[q].1].rev == j;
        if q > 0 {
            assert(p1[q - 1] == p[q]);
        }
    }
    if a.back_on_path(p1, x, j) {
        let q = choose|q: int|
            0 <= q < p1.len() && a.g@[p1[q].0]@[p1[q].1].to == x && a.g@[(#[trigger] p1[q]).0]@[p1[q].1].rev == j;
        assert(p[q + 1] == p1[q]);
    }
    if x == e && j == rev {
        assert(p[0] == (v, i));
    }
}

proof fn lemma_pair_sum(d: Dinic, v: int, i: int)
    requires
        d.wf(),
        0 <= v < d.n,
        0 <= i < d.g@[v]@.len(),
    ensures
        d.g@[v]@[i].cap + d.g@[d.g@[v]@[i].to as int]@[d.g@[v]@[i].rev as int].cap <= 2 * cap_bound(),
        0 <= d.g@[v]@[i].cap,
        0 <= d.g@[d.g@[v]@[i].to as int]@[d.g@[v]@[i].rev as int].cap,
{
    let ed = d.g@[v]@[i];
    let back = d.g@[ed.to as int]@[ed.rev as int];
    assert(0 <= d.orig@[ed.to as int][ed.rev as int] <= cap_bound());
    assert(0 <= back.cap);
}

/// One edge's capacity after the push of `lemma_augment_path`.
proof fn lemma_augment_cap(
    a: Dinic,
    g1: Dinic,
    g2: Dinic,
    g3: Dinic,
    p: Seq<(int, int)>,
    p1: Seq<(int, int)>,
    v: int,
    e: int,
    i: int,
    rev: int,
    d: int,
    x: int,
    j: int,
)
    requires
        0 <= x < a.n,
        0 <= j < a.g@[x]@.len(),
        0 <= v < a.n,
        0 <= e < a.n,
        v != e,
        on_path(p, x, j) == (on_path(p1, x, j) || (x == v && j == i)),
        a.back_on_path(p, x, j) == (a.back_on_path(p1, x, j) || (x == e && j == rev)),
        !on_path(p1, v, i),
        !on_path(p1, e, rev),
        !a.back_on_path(p1, v, i),
        !a.back_on_path(p1, e, rev),
        g1.g@[x]@[j].cap == a.g@[x]@[j].cap - (if on_path(p1, x, j) {
            d
        } else {
            0
        }) + (if a.back_on_path(p1, x, j) {
            d
        } else {
            0
        }),
        g1.g@[v]@[i].cap == a.g@[v]@[i].cap,
        g1.g@[e]@[rev].cap == a.g@[e]@[rev].cap,
        g1.g@[v]@[i].cap + g1.g@[e]@[rev].cap <= 2 * cap_bound(),
        0 <= g1.g@[e]@[rev].cap,
        a.g@[v]@[i].cap >= d,
        d > 0,
        g2.g@[v]@ == g1.g@[v]@.update(i, Edge { to: e as usize, rev: rev as usize, cap: (g1.g@[v]@[i].cap - d) as i64 }),
        forall|y: int| 0 <= y < a.n && y != v ==> #[trigger] g2.g@[y] == g1.g@[y],
        g3.g@[e]@ == g2.g@[e]@.update(rev, Edge { to: v as usize, rev: i as usize, cap: (g2.g@[e]@[rev].cap + d) as i64 }),
        forall|y: int| 0 <= y < a.n && y != e ==> #[trigger] g3.g@[y] == g2.g@[y],
        0 <= i < g1.g@[v]@.len(),
        0 <= rev < g1.g@[e]@.len(),
        g1.g@[x]@.len() == a.g@[x]@.len(),
    ensures
        g3.g@[x]@[j].cap == a.g@[x]@[j].cap - (if on_path(p, x, j) {
            d
        } else {
            0
        }) + (if a.back_on_path(p, x, j) {
            d
        } else {
            0
        }),
{
    if x == v && j == i {
        assert(g3.g@[x] == g2.g@[x]);
        let c1 = g1.g@[v]@[i].cap - d;
        assert(0 <= c1 <= 2 * cap_bound());
        assert(g2.g@[v]@[i].cap == c1 as i64);
        assert(c1 as i64 == c1);
        assert(on_path(p, x, j));
        assert(!a.back_on_path(p, x, j));
    } else if x == e && j == rev {
        assert(g2.g@[x] == g1.g@[x]);
        let c2 = g2.g@[e]@[rev].cap + d;
        assert(g2.g@[e]@[rev].cap == g1.g@[e]@[rev].cap);
        assert(0 <= c2 <= 2 * cap_bound());
        assert(c2 as i64 == c2);
        assert(!on_path(p, x, j));
        assert(a.back_on_path(p, x, j));
    } else if x == v {
        assert(g3.g@[x] == g2.g@[x]);
    } else if x == e {
        assert(g2.g@[x] == g1.g@[x]);
    } else {
        assert(g3.g@[x] == g2.g@[x]);
        assert(g2.g@[x] == g1.g@[x]);
    }
}

/// Edge `j` of `x` is one of the steps of `p`.
pub open spec fn on_path(p: Seq<(int, int)>, x: int, j: int) -> bool {
    exists|q: int| 0 <= q < p.len() && #[trigger] p[q] == (x, j)
}

/// Level-graph paths depend only on the residual graph.
proof fn lemma_lp_same_graph(a: Dinic, b: Dinic, level: Seq<i32>, u: int, t: int)
    requires
        a.n == b.n,
        a.g@ == b.g@,
    ensures
        a.lp(level, u, t) == b.lp(level, u, t),
    decreases a.n - level[u],
{
    if 0 <= u < a.n && 0 <= level[u] < a.n && u != t {
        assert forall|i: int|
            0 <= i < a.g@[u]@.len() && level[u] < level[a.g@[u]@[i].to as int] && level[a.g@[u]@[i].to as int]
                < a.n implies a.lp(level, a.g@[u]@[i].to as int, t) == b.lp(level, b.g@[u]@[i].to as int, t) by {
            lemma_lp_same_graph(a, b, level, a.g@[u]@[i].to as int, t);
        }
    }
}


proof fn lemma_augment(
    a: Dinic,
    g1: Dinic,
    g2: Dinic,
    g3: Dinic,
    level: Seq<i32>,
    it: Seq<usize>,
    v: int,
    t: int,
    e: int,
    i: int,
    rev: int,
    d: i64,
)
    requires
        a.wf(),
        g1.wf(),
        g1.same_shape(&a),
        a.no_gain(&g1, level),
        0 <= v < a.n,
        0 <= e < a.n,
        0 <= t < a.n,
        0 <= i < a.g@[v]@.len(),
        a.g@[v]@[i].to == e,
        a.g@[v]@[i].rev == rev,
        level[v] < level[e],
        g1.g@[v] == a.g@[v],
        0 < d <= a.g@[v]@[i].cap,
        forall|x: int|
            0 <= x < a.n ==> #[trigger] g1.net_out(x) == a.net_out(x) + (if x == e {
                d as int
            } else {
                0
            }) - (if x == t {
                d as int
            } else {
                0
            }),
        forall|x: int| 0 <= x < a.n && level[x] < level[e] ==> #[trigger] g1.g@[x] == a.g@[x],
        g2.n == g1.n,
        g2.orig@ == g1.orig@,
        g2.g@.len() == g1.g@.len(),
        g2.g@[v]@ == g1.g@[v]@.update(i, Edge { to: e as usize, rev: rev as usize, cap: (g1.g@[v]@[i].cap - d) as i64 }),
        forall|x: int| 0 <= x < a.n && x != v ==> #[trigger] g2.g@[x] == g1.g@[x],
        g3.n == g2.n,
        g3.orig@ == g2.orig@,
        g3.g@.len() == g2.g@.len(),
        g3.g@[e]@ == g2.g@[e]@.update(rev, Edge { to: v as usize, rev: i as usize, cap: (g2.g@[e]@[rev].cap + d) as i64 }),
        forall|x: int| 0 <= x < a.n && x != e ==> #[trigger] g3.g@[x] == g2.g@[x],
        g1.dead_prefix(level, it, t),
    ensures
        g3.wf(),
        g3.same_shape(&a),
        a.no_gain(&g3, level),
        forall|x: int|
            0 <= x < a.n ==> #[trigger] g3.net_out(x) == a.net_out(x) + (if x == v {
                d as int
            } else {
                0
            }) - (if x == t {
                d as int
            } else {
                0
            }),
        forall|x: int| 0 <= x < a.n && level[x] < level[v] ==> #[trigger] g3.g@[x] == a.g@[x],
        g3.dead_prefix(level, it, t),
{
    assert(g1.g@[e]@[rev].to == v);
    assert(g1.g@[e]@[rev].rev == i);
    assert forall|x: int, j: int|
        0 <= x < g3.n && 0 <= j < g3.g@[x]@.len() implies {
            let ed = #[trigger] g3.g@[x]@[j];
            &&& ed.to < g3.n
            &&& ed.to != x
            &&& ed.rev < g3.g@[ed.to as int]@.len()
            &&& g3.g@[ed.to as int]@[ed.rev as int].to == x
            &&& g3.g@[ed.to as int]@[ed.rev as int].rev == j
            &&& 0 <= ed.cap
            &&& 0 <= g3.orig@[x][j] <= cap_bound()
            &&& ed.cap + g3.g@[ed.to as int]@[ed.rev as int].cap == g3.orig@[x][j]
                + g3.orig@[ed.to as int][ed.rev as int]
        } by {
        assert(g1.g@[x]@[j].to == g3.g@[x]@[j].to);
        assert(g1.g@[x]@[j].rev == g3.g@[x]@[j].rev);
        let y = g1.g@[x]@[j].to as int;
        let r = g1.g@[x]@[j].rev as int;
        assert(g1.g@[y]@[r].to == g3.g@[y]@[r].to);
    }
    assert forall|x: int, j: int|
        #![trigger g3.g@[x]@[j]]
        0 <= x < g3.n && 0 <= j < g3.g@[x]@.len() implies g3.g@[x]@[j].to == g1.g@[x]@[j].to
        && g3.g@[x]@[j].rev == g1.g@[x]@[j].rev by {
    }
    assert(g3.same_shape(&g1));
    assert forall|x: int, j: int|
        #![trigger g3.g@[x]@[j]]
        0 <= x < a.n && 0 <= j < a.g@[x]@.len() && level[x] < level[a.g@[x]@[j].to as int]
            implies g3.g@[x]@[j].cap <= a.g@[x]@[j].cap by {
        assert(g1.g@[x]@[j].cap <= a.g@[x]@[j].cap);
    }
    assert forall|x: int, j: int|
        #![trigger g3.g@[x]@[j]]
        0 <= x < g1.n && 0 <= j < g1.g@[x]@.len() && level[x] < level[g1.g@[x]@[j].to as int]
            implies g3.g@[x]@[j].cap <= g1.g@[x]@[j].cap by {
    }
    lemma_dead_prefix_mono(&g1, &g3, level, it, t);
    lemma_row_out_update(g1.g@[v]@, g1.orig@[v], g1.g@[v]@.len() as int, i, (g1.g@[v]@[i].cap - d) as i64);
    lemma_row_out_update(g2.g@[e]@, g2.orig@[e], g2.g@[e]@.len() as int, rev, (g2.g@[e]@[rev].cap + d) as i64);
    assert forall|x: int| 0 <= x < a.n implies #[trigger] g3.net_out(x) == a.net_out(x) + (if x == v {
        d as int
    } else {
        0
    }) - (if x == t {
        d as int
    } else {
        0
    }) by {
        assert(g1.net_out(x) == a.net_out(x) + (if x == e {
            d as int
        } else {
            0
        }) - (if x == t {
            d as int
        } else {
            0
        }));
        if x != v && x != e {
            assert(g3.g@[x] == g1.g@[x]);
        }
    }
}


/// Sum of the first `k` initial capacities of a row.
pub open spec fn orig_sum(orow: Seq<int>, k: int) -> int
    decreases k,
{
    if k <= 0 {
        0
    } else {
        orig_sum(orow, k - 1) + orow[k - 1]
    }
}

pub(crate) proof fn lemma_orig_sum_prefix(a: Seq<int>, b: Seq<int>, k: int)
    requires
        forall|i: int| 0 <= i < k ==> #[trigger] a[i] == b[i],
    ensures
        orig_sum(a, k) == orig_sum(b, k),
    decreases k,
{
    if k > 0 {
        lemma_orig_sum_prefix(a, b, k - 1);
    }
}

proof fn lemma_row_out_le(row: Seq<Edge>, orow: Seq<int>, k: int)
    requires
        forall|j: int| 0 <= j < k ==> #[trigger] row[j].cap >= 0,
    ensures
        row_out(row, orow, k) <= orig_sum(orow, k),
    decreases k,
{
    if k > 0 {
        lemma_row_out_le(row, orow, k - 1);
    }
}

/// Following the BFS parents back from `t` gives a level path from `s`.
proof fn lemma_level_path_at(d: &Dinic, level: Seq<i32>, s: int, t: int, m: int)
    requires
        level.len() == d.n,
        0 <= s < d.n,
        0 <= t < d.n,
        0 <= m <= level[t],
        forall|v: int| 0 <= v < d.n ==> -1 <= #[trigger] level[v] < d.n,
        forall|v: int|
            0 <= v < d.n && #[trigger] level[v] > 0 ==> exists|u: int, i: int|
                0 <= u < d.n && 0 <= i < d.g@[u]@.len() && (#[trigger] d.g@[u]@[i]).to == v
                    && d.g@[u]@[i].cap > 0 && level[u] == level[v] - 1,
    ensures
        exists|x: int| 0 <= x < d.n && level[x] == m && #[trigger] d.lp(level, x, t),
    decreases level[t] - m,
{
    if m == level[t] {
        assert(d.lp(level, t, t));
    } else {
        lemma_level_path_at(d, level, s, t, m + 1);
        let x = choose|x: int| 0 <= x < d.n && level[x] == m + 1 && #[trigger] d.lp(level, x, t);
        assert(level[x] > 0);
        let (u, i) = choose|u: int, i: int|
            0 <= u < d.n && 0 <= i < d.g@[u]@.len() && (#[trigger] d.g@[u]@[i]).to == x
                && d.g@[u]@[i].cap > 0 && level[u] == level[x] - 1;
        if u != t {
            assert(d.g@[u]@[i].cap > 0 && level[u] < level[d.g@[u]@[i].to as int]
                && level[d.g@[u]@[i].to as int] < d.n && d.lp(level, d.g@[u]@[i].to as int, t));
        }
        assert(d.lp(level, u, t));
    }
}

impl Dinic {
    /// Dinic's algorithm: repeated blocking flows along BFS level graphs until
    /// `t` can no longer be reached from `s`; returns the value of the flow.
    pub fn max_flow(&mut self, s: usize, t: usize) -> (flow: i64)
        requires
            old(self).wf(),
            old(self).n < 0x4000_0000,
            s < old(self).n,
            t < old(self).n,
            s != t,
            orig_sum(old(self).orig@[s as int], old(self).g@[s as int]@.len() as int)
                < 0x7FFF_FFFF_FFFF_FFFF,
            old(self).net_out(s as int) == 0,
            forall|x: int| 0 <= x < old(self).n && x != s && x != t ==> #[trigger] old(self).net_out(x) == 0,
        ensures
            final(self).wf(),
            final(self).same_shape(old(self)),
            flow == final(self).net_out(s as int),
            forall|x: int|
                0 <= x < old(self).n && x != s && x != t ==> #[trigger] final(self).net_out(x) == 0,
            exists|lv: Seq<i32>|
                lv.len() == old(self).n && lv[s as int] >= 0 && lv[t as int] < 0
                    && #[trigger] final(self).closed(lv),
    {
        let n = self.n;
        let ghost bound = orig_sum(self.orig@[s as int], self.g@[s as int]@.len() as int);
        let mut flow: i64 = 0;
        let mut level: Vec<i32> = Vec::new();
        let mut it: Vec<usize> = Vec::new();
        let mut k: usize = 0;
        while k < n
            invariant
                k <= n,
                level@.len() == k,
                it@.len() == k,
            decreases n - k,
        {
            level.push(0);
            it.push(0);
            k = k + 1;
        }
        loop
            invariant
                self.wf(),
                self.same_shape(old(self)),
                self.n == n,
                n < 0x4000_0000,
                s < n,
                t < n,
                s != t,
                bound == orig_sum(self.orig@[s as int], self.g@[s as int]@.len() as int),
                bound < 0x7FFF_FFFF_FFFF_FFFF,
                flow == self.net_out(s as int),
                0 <= flow,
                forall|x: int| 0 <= x < n && x != s && x != t ==> #[trigger] self.net_out(x) == 0,
                level@.len() == n,
                it@.len() == n,
            ensures
                self.wf(),
                self.same_shape(old(self)),
                flow == self.net_out(s as int),
                forall|x: int| 0 <= x < n && x != s && x != t ==> #[trigger] self.net_out(x) == 0,
                level@.len() == n,
                level@[s as int] >= 0,
                level@[t as int] < 0,
                self.closed(level@),
            decreases bound - flow,
        {
            let reached = self.bfs(s, t, &mut level);
            if !reached {
                break;
            }
            proof {
                lemma_level_path_at(self, level@, s as int, t as int, 0);
            }
            let mut k: usize = 0;
            while k < n
                invariant
                    k <= n,
                    it@.len() == n,
                    forall|x: int| 0 <= x < k ==> #[trigger] it@[x] == 0,
                decreases n - k,
            {
                it.set(k, 0);
                k = k + 1;
            }
            let ghost start_flow = flow;
            let ghost mut progressed = false;
            proof {
                lemma_row_out_le(self.g@[s as int]@, self.orig@[s as int], self.g@[s as int]@.len() as int);
            }
            loop
                invariant_except_break
                    !progressed ==> self.lp(level@, s as int, t as int),
                invariant
                    self.wf(),
                    self.same_shape(old(self)),
                    self.n == n,
                    n < 0x4000_0000,
                    s < n,
                    t < n,
                    s != t,
                    bound == orig_sum(self.orig@[s as int], self.g@[s as int]@.len() as int),
                    bound < 0x7FFF_FFFF_FFFF_FFFF,
                    flow == self.net_out(s as int),
                    start_flow <= flow <= bound,
                    0 <= start_flow,
                    forall|x: int| 0 <= x < n && x != s && x != t ==> #[trigger] self.net_out(x) == 0,
                    level@.len() == n,
                    forall|x: int| 0 <= x < n ==> -1 <= #[trigger] level@[x] < n,
                    level@[s as int] == 0,
                    it@.len() == n,
                    forall|x: int| 0 <= x < n ==> #[trigger] it@[x] <= self.g@[x]@.len(),
                    self.dead_prefix(level@, it@, t as int),
                    progressed ==> flow >= start_flow + 1,

                ensures
                    self.wf(),
                    self.same_shape(old(self)),
                    flow == self.net_out(s as int),
                    flow >= start_flow + 1,
                    forall|x: int| 0 <= x < n && x != s && x != t ==> #[trigger] self.net_out(x) == 0,
                decreases bound - flow,
            {
                let ghost before = *self;
                let f = self.dfs(s, t, 0x7FFF_FFFF_FFFF_FFFF, &level, &mut it);
                assert(self.net_out(s as int) == before.net_out(s as int) + f);
                if f == 0 {
                    proof {
                        if !progressed {
                            assert(self.same_shape(&before));
                            lemma_lp_mono(self, &before, level@, s as int, t as int);
                        }
                    }
                    break;
                }
                proof {
                    lemma_row_out_le(
                        self.g@[s as int]@,
                        self.orig@[s as int],
                        self.g@[s as int]@.len() as int,
                    );
                }
                flow = flow + f;
                proof {
                    progressed = true;
                }
            }
        }
        flow
    }
}

} // verus!
