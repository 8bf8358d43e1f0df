//! Feasibility of a class composition and an integral assignment of pupils,
//! computed with a maximum flow (Dinic).

use vstd::prelude::*;
use crate::config::LevelId;
use crate::dinic::{Dinic, Edge, row_out, orig_sum, lemma_orig_sum_prefix};
use crate::sums::{sum_up, row_of, col_of, row_sums, col_sums, lemma_sum_nonneg_tail, lemma_sum_ext, lemma_sum_add, lemma_sum_le, lemma_sum_nonneg, lemma_sum_ge_term, lemma_sum_point, lemma_sum_le_eq, lemma_sum_swap};

verus! {

// ---------------------------------------------------------------------------
// Index-level model: levels are 0..L, class `c` holds the levels `comps[c]`.
// ---------------------------------------------------------------------------

/// The levels of every class are known (below `nl`) and pairwise distinct.
pub open spec fn comps_ok(comps: Seq<Seq<int>>, nl: int) -> bool {
    &&& forall|c: int, j: int|
        0 <= c < comps.len() && 0 <= j < comps[c].len() ==> 0 <= #[trigger] comps[c][j] < nl
    &&& forall|c: int, j: int, k: int|
        0 <= c < comps.len() && 0 <= j < comps[c].len() && 0 <= k < comps[c].len() && j != k
            ==> #[trigger] comps[c][j] != #[trigger] comps[c][k]
}

/// Entry `j` of class `c` when it belongs to level `l`, else 0.
pub open spec fn part_fn(w: spec_fn(int, int) -> int, comps: Seq<Seq<int>>, c: int, l: int) -> spec_fn(int) -> int {
    |j: int| if comps[c][j] == l { w(c, j) } else { 0 }
}

/// Part of class `c` that `w` gives to level `l`.
pub open spec fn class_part(w: spec_fn(int, int) -> int, comps: Seq<Seq<int>>, c: int, l: int) -> int {
    sum_up(comps[c].len() as int, part_fn(w, comps, c, l))
}

pub open spec fn level_fn(w: spec_fn(int, int) -> int, comps: Seq<Seq<int>>, l: int) -> spec_fn(int) -> int {
    |c: int| class_part(w, comps, c, l)
}

/// Total that `w` gives to level `l` over all classes.
pub open spec fn level_sum(w: spec_fn(int, int) -> int, comps: Seq<Seq<int>>, l: int) -> int {
    sum_up(comps.len() as int, level_fn(w, comps, l))
}

/// Total of class `c` under `w`.
pub open spec fn class_sum(w: spec_fn(int, int) -> int, comps: Seq<Seq<int>>, c: int) -> int {
    sum_up(comps[c].len() as int, row_of(w, c))
}

/// In a class whose levels are distinct, the part of level `comps[c][j]` is
/// the `j`-th entry, and a level absent from the class gets nothing.
pub(crate) proof fn lemma_class_part(w: spec_fn(int, int) -> int, comps: Seq<Seq<int>>, nl: int, c: int, l: int)
    requires
        comps_ok(comps, nl),
        0 <= c < comps.len(),
    ensures
        forall|j: int| 0 <= j < comps[c].len() && comps[c][j] == l ==> class_part(w, comps, c, l) == w(c, j),
        !comps[c].contains(l) ==> class_part(w, comps, c, l) == 0,
{
    let f = part_fn(w, comps, c, l);
    assert forall|j: int| 0 <= j < comps[c].len() && comps[c][j] == l implies class_part(w, comps, c, l) == w(c, j) by {
        assert forall|k: int| 0 <= k < comps[c].len() && k != j implies #[trigger] f(k) == 0 by {
            assert(comps[c][j] != comps[c][k]);
        }
        lemma_sum_point(comps[c].len() as int, f, j);
    }
    if !comps[c].contains(l) {
        assert forall|k: int| 0 <= k < comps[c].len() && k != -1 implies #[trigger] f(k) == 0 by {
            if comps[c][k] == l {
                assert(comps[c].contains(l));
            }
        }
        lemma_sum_point(comps[c].len() as int, f, -1);
    }
}

pub open spec fn masked_levels(w: spec_fn(int, int) -> int, comps: Seq<Seq<int>>, p: spec_fn(int) -> bool) -> spec_fn(int) -> int {
    |l: int| if p(l) { level_sum(w, comps, l) } else { 0 }
}

pub open spec fn masked_entries(w: spec_fn(int, int) -> int, comps: Seq<Seq<int>>, p: spec_fn(int) -> bool, c: int) -> spec_fn(int) -> int {
    |j: int| if p(comps[c][j]) { w(c, j) } else { 0 }
}

pub open spec fn masked_classes(w: spec_fn(int, int) -> int, comps: Seq<Seq<int>>, p: spec_fn(int) -> bool) -> spec_fn(int) -> int {
    |c: int| sum_up(comps[c].len() as int, masked_entries(w, comps, p, c))
}

pub open spec fn level_class_grid(w: spec_fn(int, int) -> int, comps: Seq<Seq<int>>, p: spec_fn(int) -> bool) -> spec_fn(int, int) -> int {
    |l: int, c: int| if p(l) { class_part(w, comps, c, l) } else { 0 }
}

pub open spec fn level_entry_grid(w: spec_fn(int, int) -> int, comps: Seq<Seq<int>>, p: spec_fn(int) -> bool, c: int) -> spec_fn(int, int) -> int {
    |l: int, j: int| if p(l) && comps[c][j] == l { w(c, j) } else { 0 }
}

/// Summing the per-level totals over the levels that satisfy `p` is summing,
/// class by class, the entries whose level satisfies `p`.
proof fn lemma_level_sum_exchange(w: spec_fn(int, int) -> int, comps: Seq<Seq<int>>, nl: int, p: spec_fn(int) -> bool)
    requires
        comps_ok(comps, nl),
        nl >= 0,
    ensures
        sum_up(nl, masked_levels(w, comps, p)) == sum_up(comps.len() as int, masked_classes(w, comps, p)),
{
    let k = comps.len() as int;
    let f2 = level_class_grid(w, comps, p);
    lemma_sum_swap(nl, k, f2);
    let lhs = masked_levels(w, comps, p);
    let rowl = row_sums(f2, k);
    assert forall|l: int| 0 <= l < nl implies #[trigger] lhs(l) == rowl(l) by {
        if p(l) {
            lemma_sum_ext(k, level_fn(w, comps, l), row_of(f2, l));
        } else {
            lemma_sum_point(k, row_of(f2, l), -1);
        }
    }
    lemma_sum_ext(nl, lhs, rowl);
    let colc = col_sums(f2, nl);
    let tgtc = masked_classes(w, comps, p);
    assert forall|c: int| 0 <= c < k implies #[trigger] colc(c) == tgtc(c) by {
        let m = comps[c].len() as int;
        let g2 = level_entry_grid(w, comps, p, c);
        lemma_sum_swap(nl, m, g2);
        let a1 = col_of(f2, c);
        let a2 = row_sums(g2, m);
        assert forall|l: int| 0 <= l < nl implies #[trigger] a1(l) == a2(l) by {
            if p(l) {
                lemma_sum_ext(m, part_fn(w, comps, c, l), row_of(g2, l));
            } else {
                lemma_sum_point(m, row_of(g2, l), -1);
            }
        }
        lemma_sum_ext(nl, a1, a2);
        let b1 = col_sums(g2, nl);
        let b2 = masked_entries(w, comps, p, c);
        assert forall|j: int| 0 <= j < m implies #[trigger] b1(j) == b2(j) by {
            lemma_sum_point(nl, col_of(g2, j), comps[c][j]);
        }
        lemma_sum_ext(m, b1, b2);
    }
    lemma_sum_ext(k, colc, tgtc);
}

// ---------------------------------------------------------------------------
// The flow network: source 0, level l at 1 + l, class c at 1 + nl + c, sink
// at 1 + nl + k.
// ---------------------------------------------------------------------------

/// Number of levels before `l` that still have pupils to place.
pub open spec fn cnt_pos(rem: Seq<int>, l: int) -> int
    decreases l,
{
    if l <= 0 {
        0
    } else {
        cnt_pos(rem, l - 1) + if rem[l - 1] > 0 {
            1int
        } else {
            0int
        }
    }
}

/// Number of classes before `c` that contain level `l`.
pub open spec fn occ(comps: Seq<Seq<int>>, l: int, c: int) -> int
    decreases c,
{
    if c <= 0 {
        0
    } else {
        occ(comps, l, c - 1) + if comps[c - 1].contains(l) {
            1int
        } else {
            0int
        }
    }
}

/// 1 when level `l` has an edge from the source (its first edge is then the
/// reverse of that edge).
pub open spec fn off(rem: Seq<int>, l: int) -> int {
    if rem[l] > 0 {
        1
    } else {
        0
    }
}

proof fn lemma_cnt_pos_nonneg(rem: Seq<int>, a: int)
    ensures
        0 <= cnt_pos(rem, a),
    decreases a,
{
    if a > 0 {
        lemma_cnt_pos_nonneg(rem, a - 1);
    }
}

proof fn lemma_occ_nonneg(comps: Seq<Seq<int>>, l: int, a: int)
    ensures
        0 <= occ(comps, l, a),
    decreases a,
{
    if a > 0 {
        lemma_occ_nonneg(comps, l, a - 1);
    }
}

proof fn lemma_cnt_pos_mono(rem: Seq<int>, a: int, b: int)
    requires
        0 <= a <= b,
    ensures
        0 <= cnt_pos(rem, a) <= cnt_pos(rem, b),
        a < b ==> cnt_pos(rem, a) + off(rem, a) <= cnt_pos(rem, b),
    decreases b - a,
{
    lemma_cnt_pos_nonneg(rem, a);
    if a < b {
        lemma_cnt_pos_mono(rem, a, b - 1);
        if a < b - 1 {
            lemma_cnt_pos_mono(rem, a + 1, b);
        }
    }
}

proof fn lemma_occ_mono(comps: Seq<Seq<int>>, l: int, a: int, b: int)
    requires
        0 <= a <= b,
    ensures
        0 <= occ(comps, l, a) <= occ(comps, l, b),
        a < b && comps[a].contains(l) ==> occ(comps, l, a) + 1 <= occ(comps, l, b),
    decreases b - a,
{
    lemma_occ_nonneg(comps, l, a);
    if a < b {
        lemma_occ_mono(comps, l, a, b - 1);
        if a < b - 1 {
            lemma_occ_mono(comps, l, a + 1, b);
        }
    }
}

/// Edge layout of the network built by `build_network`.
pub open spec fn net_shape(d: Dinic, rem: Seq<int>, comps: Seq<Seq<int>>, capc: Seq<int>) -> bool {
    let nl = rem.len() as int;
    let k = comps.len() as int;
    &&& capc.len() == k
    &&& d.n == 2 + nl + k
    &&& d.g@[0]@.len() == cnt_pos(rem, nl)
    &&& forall|l: int|
        0 <= l < nl && rem[l] > 0 ==> {
            let q = #[trigger] cnt_pos(rem, l);
            &&& d.g@[0]@[q].to == 1 + l
            &&& d.g@[0]@[q].rev == 0
            &&& d.orig@[0][q] == rem[l]
            &&& d.orig@[1 + l][0] == 0
        }
    &&& forall|l: int| 0 <= l < nl ==> d.g@[1 + l]@.len() == #[trigger] off(rem, l) + occ(comps, l, k)
    &&& forall|c: int|
        0 <= c < k ==> {
            &&& d.g@[1 + nl + c]@.len() == 1 + (#[trigger] comps[c]).len()
            &&& d.g@[1 + nl + c]@[0].to == 1 + nl + k
            &&& d.orig@[1 + nl + c][0] == capc[c]
        }
    &&& forall|c: int, j: int|
        0 <= c < k && 0 <= j < comps[c].len() ==> {
            let l = #[trigger] comps[c][j];
            &&& d.g@[1 + nl + c]@[1 + j].to == 1 + l
            &&& d.g@[1 + nl + c]@[1 + j].rev == off(rem, l) + occ(comps, l, c)
            &&& d.orig@[1 + nl + c][1 + j] == 0
            &&& d.orig@[1 + l][off(rem, l) + occ(comps, l, c)] == capc[c]
        }
}

/// Flow from the source into level `l`.
pub open spec fn src_flow(d: Dinic, rem: Seq<int>) -> spec_fn(int) -> int {
    |l: int| if rem[l] > 0 {
        d.g@[1 + l]@[0].cap as int
    } else {
        0
    }
}

/// Flow from level `comps[c][j]` into class `c`.
pub open spec fn class_flow(d: Dinic, nl: int) -> spec_fn(int, int) -> int {
    |c: int, j: int| d.g@[1 + nl + c]@[1 + j].cap as int
}

/// Flow from class `c` into the sink.
pub open spec fn sink_flow(d: Dinic, nl: int, capc: Seq<int>, c: int) -> int {
    capc[c] - d.g@[1 + nl + c]@[0].cap
}

proof fn lemma_source_row(d: Dinic, rem: Seq<int>, comps: Seq<Seq<int>>, capc: Seq<int>, m: int)
    requires
        d.wf(),
        net_shape(d, rem, comps, capc),
        0 <= m <= rem.len(),
    ensures
        row_out(d.g@[0]@, d.orig@[0], cnt_pos(rem, m)) == sum_up(m, src_flow(d, rem)),
    decreases m,
{
    if m > 0 {
        let l = m - 1;
        lemma_source_row(d, rem, comps, capc, l);
        if rem[l] > 0 {
            let q = cnt_pos(rem, l);
            lemma_cnt_pos_mono(rem, l, rem.len() as int);
            assert(d.g@[0]@.len() == cnt_pos(rem, rem.len() as int));
            assert(off(rem, l) == 1);
            assert(cnt_pos(rem, l) + 1 <= cnt_pos(rem, rem.len() as int));
            assert(0 <= q);
            assert(0 <= q < d.g@[0]@.len());
            assert(d.g@[0]@[q].to == 1 + l);
            assert(d.g@[0]@[q].rev == 0);
            let e = d.g@[0]@[q];
            assert(d.g@[e.to as int]@[e.rev as int].to == 0);
            assert(d.g@[1 + l]@[0].to == 0);
        }
    }
}

proof fn lemma_level_row(d: Dinic, rem: Seq<int>, comps: Seq<Seq<int>>, capc: Seq<int>, l: int, cc: int)
    requires
        d.wf(),
        net_shape(d, rem, comps, capc),
        comps_ok(comps, rem.len() as int),
        0 <= l < rem.len(),
        0 <= cc <= comps.len(),
    ensures
        row_out(d.g@[1 + l]@, d.orig@[1 + l], off(rem, l) + occ(comps, l, cc)) == sum_up(
            cc,
            level_fn(class_flow(d, rem.len() as int), comps, l),
        ) - src_flow(d, rem)(l),
    decreases cc,
{
    let nl = rem.len() as int;
    let fc = class_flow(d, nl);
    assert(d.g@[1 + l]@.len() == off(rem, l) + occ(comps, l, comps.len() as int));
    lemma_occ_mono(comps, l, cc, comps.len() as int);
    if cc == 0 {
        if rem[l] > 0 {
            let q = cnt_pos(rem, l);
            lemma_cnt_pos_mono(rem, l, nl);
            assert(d.g@[0]@[q].to == 1 + l);
            assert(d.g@[1 + l]@[0].to == 0);
            assert(d.orig@[1 + l][0] == 0);
            assert(row_out(d.g@[1 + l]@, d.orig@[1 + l], 0) == 0);
        }
        assert(sum_up(0, level_fn(fc, comps, l)) == 0);
    } else {
        let c = cc - 1;
        lemma_level_row(d, rem, comps, capc, l, c);
        lemma_class_part(fc, comps, nl, c, l);
        if comps[c].contains(l) {
            let j = choose|j: int| 0 <= j < comps[c].len() && comps[c][j] == l;
            let q = off(rem, l) + occ(comps, l, c);
            lemma_occ_mono(comps, l, c, comps.len() as int);
            assert(d.g@[1 + nl + c]@[1 + j].to == 1 + l);
            assert(d.g@[1 + l]@[q].to == 1 + nl + c);
        }
    }
}

proof fn lemma_class_row(d: Dinic, rem: Seq<int>, comps: Seq<Seq<int>>, capc: Seq<int>, c: int, m: int)
    requires
        d.wf(),
        net_shape(d, rem, comps, capc),
        0 <= c < comps.len(),
        0 <= m <= comps[c].len(),
    ensures
        row_out(d.g@[1 + rem.len() + c]@, d.orig@[1 + rem.len() + c], 1 + m) == sink_flow(
            d,
            rem.len() as int,
            capc,
            c,
        ) - sum_up(m, row_of(class_flow(d, rem.len() as int), c)),
    decreases m,
{
    assert(d.g@[1 + rem.len() + c]@.len() == 1 + comps[c].len());
    if m > 0 {
        lemma_class_row(d, rem, comps, capc, c, m - 1);
        let l = comps[c][m - 1];
        assert(d.orig@[1 + rem.len() + c][1 + (m - 1)] == 0);
    } else {
        assert(row_out(d.g@[1 + rem.len() + c]@, d.orig@[1 + rem.len() + c], 0) == 0);
    }
}

/// `y` places what is left of every level after the two-level reservations
/// (`rem`) into the classes, within what is left of their capacity (`capc`).
pub open spec fn residual_ok(y: spec_fn(int, int) -> int, rem: Seq<int>, comps: Seq<Seq<int>>, capc: Seq<int>) -> bool {
    &&& forall|c: int, j: int| 0 <= c < comps.len() && 0 <= j < comps[c].len() ==> #[trigger] y(c, j) >= 0
    &&& forall|c: int| 0 <= c < comps.len() ==> #[trigger] class_sum(y, comps, c) <= capc[c]
    &&& forall|l: int| 0 <= l < rem.len() ==> #[trigger] level_sum(y, comps, l) == rem[l]
}

pub open spec fn seq_fn(v: Seq<int>) -> spec_fn(int) -> int {
    |l: int| v[l]
}

/// Levels whose vertex is reached in the final residual graph.
pub open spec fn reached(lv: Seq<i32>) -> spec_fn(int) -> bool {
    |l: int| lv[1 + l] >= 0
}

pub open spec fn outside(v: spec_fn(int) -> int, p: spec_fn(int) -> bool) -> spec_fn(int) -> int {
    |l: int| if p(l) { 0 } else { v(l) }
}

/// Conservation at the level and class vertices of the network.
pub open spec fn conserved(d: Dinic, nl: int, k: int) -> bool {
    forall|x: int| 1 <= x <= nl + k ==> #[trigger] d.net_out(x) == 0
}

/// At the end of Dinic's algorithm the flow leaving the source is at least the
/// demand of any residual placement: the reached vertices form a cut whose
/// capacity the flow saturates.
proof fn lemma_cut(d: Dinic, rem: Seq<int>, comps: Seq<Seq<int>>, capc: Seq<int>, lv: Seq<i32>, y: spec_fn(int, int) -> int)
    requires
        d.wf(),
        net_shape(d, rem, comps, capc),
        comps_ok(comps, rem.len() as int),
        forall|l: int| 0 <= l < rem.len() ==> #[trigger] rem[l] >= 0,
        conserved(d, rem.len() as int, comps.len() as int),
        lv.len() == d.n,
        lv[0] >= 0,
        lv[1 + rem.len() + comps.len() as int] < 0,
        d.closed(lv),
        residual_ok(y, rem, comps, capc),
    ensures
        sum_up(rem.len() as int, seq_fn(rem)) <= d.net_out(0),
{
    let nl = rem.len() as int;
    let k = comps.len() as int;
    let p = reached(lv);
    let fs = src_flow(d, rem);
    let fc = class_flow(d, nl);
    lemma_source_row(d, rem, comps, capc, nl);
    assert forall|l: int| 0 <= l < nl implies #[trigger] fs(l) == level_sum(fc, comps, l) by {
        lemma_level_row(d, rem, comps, capc, l, k);
        assert(d.net_out(1 + l) == 0);
    }
    // Outside the reached set every level is fully supplied by the source.
    assert forall|l: int| 0 <= l < nl implies #[trigger] outside(fs, p)(l) == outside(seq_fn(rem), p)(l) by {
        if !p(l) && rem[l] > 0 {
            let q = cnt_pos(rem, l);
            lemma_cnt_pos_mono(rem, l, nl);
            assert(d.g@[0]@[q].to == 1 + l);
            assert(d.g@[1 + l]@[0].to == 0);
        }
    }
    // Class by class, the reached part of `y` is bounded by the reached part of the flow.
    let a = masked_classes(y, comps, p);
    let bb = masked_classes(fc, comps, p);
    assert forall|c: int| 0 <= c < k implies #[trigger] a(c) <= bb(c) by {
        let m = comps[c].len() as int;
        let my = masked_entries(y, comps, p, c);
        let mf = masked_entries(fc, comps, p, c);
        let cv = 1 + nl + c;
        assert(d.g@[cv]@.len() == 1 + comps[c].len());
        assert forall|j: int| 0 <= j < m implies #[trigger] my(j) <= row_of(y, c)(j) by {
            assert(y(c, j) >= 0);
        }
        lemma_sum_le(m, my, row_of(y, c));
        assert(class_sum(y, comps, c) <= capc[c]);
        assert forall|j: int| 0 <= j < m implies #[trigger] mf(j) >= 0 by {
            assert(d.g@[cv]@[1 + j] == d.g@[cv]@[1 + j]);
        }
        if lv[cv] >= 0 {
            assert(d.g@[cv]@[0].cap == 0);
            lemma_class_row(d, rem, comps, capc, c, m);
            assert(d.net_out(cv) == 0);
            assert forall|j: int| 0 <= j < m implies #[trigger] mf(j) == row_of(fc, c)(j) by {
                let l = comps[c][j];
                assert(d.g@[cv]@[1 + j].to == 1 + l);
            }
            lemma_sum_ext(m, mf, row_of(fc, c));
        } else {
            if exists|j: int| 0 <= j < m && #[trigger] p(comps[c][j]) {
                let j0 = choose|j: int| 0 <= j < m && #[trigger] p(comps[c][j]);
                let l = comps[c][j0];
                let q = off(rem, l) + occ(comps, l, c);
                assert(d.g@[cv]@[1 + j0].to == 1 + l);
                assert(d.g@[1 + l]@[q].to == cv);
                lemma_sum_ge_term(m, mf, j0);
            } else {
                assert forall|j: int| 0 <= j < m && j != -1 implies #[trigger] my(j) == 0 by {
                }
                lemma_sum_point(m, my, -1);
                lemma_sum_nonneg(m, mf);
            }
        }
    }
    lemma_sum_le(k, a, bb);
    lemma_level_sum_exchange(y, comps, nl, p);
    lemma_level_sum_exchange(fc, comps, nl, p);
    lemma_sum_add(nl, masked_levels(y, comps, p), outside(seq_fn(rem), p), seq_fn(rem));
    lemma_sum_add(nl, masked_levels(fc, comps, p), outside(fs, p), fs);
    lemma_sum_ext(nl, outside(fs, p), outside(seq_fn(rem), p));
}

/// Total capacity out of the source.
pub open spec fn orig_sum_row0(d: Dinic) -> int {
    orig_sum(d.orig@[0], d.g@[0]@.len() as int)
}

// ---------------------------------------------------------------------------
// Building the network.
// ---------------------------------------------------------------------------

pub open spec fn u32s(v: Seq<u32>) -> Seq<int> {
    Seq::new(v.len(), |i: int| v[i] as int)
}

pub open spec fn idx_comps(c: Seq<Vec<usize>>) -> Seq<Seq<int>> {
    Seq::new(c.len(), |i: int| Seq::new(c[i]@.len(), |j: int| c[i]@[j] as int))
}

/// No edge carries flow yet.
pub open spec fn no_flow(d: Dinic) -> bool {
    forall|x: int, i: int|
        0 <= x < d.n && 0 <= i < d.g@[x]@.len() ==> (#[trigger] d.g@[x]@[i]).cap == d.orig@[x][i]
}

proof fn lemma_row_out_zero(row: Seq<Edge>, orow: Seq<int>, k: int)
    requires
        forall|i: int| 0 <= i < k ==> #[trigger] row[i].cap == orow[i],
    ensures
        row_out(row, orow, k) == 0,
    decreases k,
{
    if k > 0 {
        lemma_row_out_zero(row, orow, k - 1);
    }
}

proof fn lemma_no_flow_conserved(d: Dinic)
    requires
        no_flow(d),
        d.g@.len() == d.n,
        d.orig@.len() == d.n,
    ensures
        forall|x: int| 0 <= x < d.n ==> #[trigger] d.net_out(x) == 0,
{
    assert forall|x: int| 0 <= x < d.n implies #[trigger] d.net_out(x) == 0 by {
        assert forall|i: int| 0 <= i < d.g@[x]@.len() implies #[trigger] d.g@[x]@[i].cap == d.orig@[x][i] by {
            assert(d.g@[x]@[i] == d.g@[x]@[i]);
        }
        lemma_row_out_zero(d.g@[x]@, d.orig@[x], d.g@[x]@.len() as int);
    }
}

/// Edges from the source to every level that still has pupils to place;
/// returns the total number of pupils still to place.
fn add_source_edges(d: &mut Dinic, rem: &Vec<u32>) -> (need: i64)
    requires
        old(d).wf(),
        no_flow(*old(d)),
        rem@.len() + 1 < old(d).n,
        old(d).n < 0x4000_0000,
        forall|x: int| 0 <= x < old(d).n ==> (#[trigger] old(d).g@[x])@.len() == 0,
    ensures
        final(d).wf(),
        no_flow(*final(d)),
        final(d).n == old(d).n,
        need == sum_up(rem@.len() as int, seq_fn(u32s(rem@))),
        0 <= need <= rem@.len() * 0xFFFF_FFFF,
        final(d).g@[0]@.len() == cnt_pos(u32s(rem@), rem@.len() as int),
        orig_sum_row0(*final(d)) == need,
        forall|l: int|
            0 <= l < rem@.len() && u32s(rem@)[l] > 0 ==> {
                let q = #[trigger] cnt_pos(u32s(rem@), l);
                &&& final(d).g@[0]@[q].to == 1 + l
                &&& final(d).g@[0]@[q].rev == 0
                &&& final(d).orig@[0][q] == u32s(rem@)[l]
                &&& final(d).orig@[1 + l][0] == 0
            },
        forall|l: int| 0 <= l < rem@.len() ==> final(d).g@[1 + l]@.len() == #[trigger] off(u32s(rem@), l),
        forall|x: int| rem@.len() + 1 <= x < old(d).n ==> (#[trigger] final(d).g@[x])@.len() == 0,
{
    let ghost r = u32s(rem@);
    let nl = rem.len();
    let mut need: i64 = 0;
    let mut li: usize = 0;
    while li < nl
        invariant
            d.wf(),
            no_flow(*d),
            d.n == old(d).n,
            nl == rem@.len(),
            r == u32s(rem@),
            nl + 1 < d.n,
            d.n < 0x4000_0000,
            li <= nl,
            need == sum_up(li as int, seq_fn(r)),
            0 <= need <= li * 0xFFFF_FFFF,
            d.g@[0]@.len() == cnt_pos(r, li as int),
            orig_sum_row0(*d) == need,
            forall|l: int|
                0 <= l < li && r[l] > 0 ==> {
                    let q = #[trigger] cnt_pos(r, l);
                    &&& d.g@[0]@[q].to == 1 + l
                    &&& d.g@[0]@[q].rev == 0
                    &&& d.orig@[0][q] == r[l]
                    &&& d.orig@[1 + l][0] == 0
                },
            forall|l: int| 0 <= l < li ==> d.g@[1 + l]@.len() == #[trigger] off(r, l),
            forall|x: int| li + 1 <= x < d.n ==> (#[trigger] d.g@[x])@.len() == 0,
        decreases nl - li,
    {
        let c = rem[li] as i64;
        need = need + c;
        if c > 0 {
            let ghost before = *d;
            d.add_edge(0, 1 + li, c);
            proof {
                assert forall|x: int, i: int|
                    0 <= x < d.n && 0 <= i < d.g@[x]@.len() implies (#[trigger] d.g@[x]@[i]).cap == d.orig@[x][i] by {
                    if x == 0 && i == before.g@[0]@.len() {
                    } else if x == 1 + li && i == 0 {
                    } else {
                        assert(before.g@[x]@[i] == d.g@[x]@[i]);
                    }
                }
                assert forall|l: int|
                    0 <= l < li + 1 && r[l] > 0 implies {
                        let q = #[trigger] cnt_pos(r, l);
                        &&& d.g@[0]@[q].to == 1 + l
                        &&& d.g@[0]@[q].rev == 0
                        &&& d.orig@[0][q] == r[l]
                        &&& d.orig@[1 + l][0] == 0
                    } by {
                    lemma_cnt_pos_mono(r, l, li as int);
                }
                let k0 = before.g@[0]@.len() as int;
                lemma_orig_sum_prefix(before.orig@[0], d.orig@[0], k0);
                assert(orig_sum(d.orig@[0], k0 + 1) == orig_sum(d.orig@[0], k0) + d.orig@[0][k0]);
            }
        }
        proof {
            assert(sum_up(li + 1, seq_fn(r)) == sum_up(li as int, seq_fn(r)) + r[li as int]);
            assert(off(r, li as int) == if c > 0 { 1int } else { 0int });
        }
        li = li + 1;
    }
    need
}


/// Every level with pupils left has its source edge.
pub open spec fn src_ok(d: Dinic, r: Seq<int>) -> bool {
    forall|l: int|
        0 <= l < r.len() && r[l] > 0 ==> {
            let q = #[trigger] cnt_pos(r, l);
            &&& d.g@[0]@[q].to == 1 + l
            &&& d.g@[0]@[q].rev == 0
            &&& d.orig@[0][q] == r[l]
            &&& d.orig@[1 + l][0] == 0
        }
}

/// The `j`-th level of class `c` has its edge into the class.
pub open spec fn slot_ok(d: Dinic, r: Seq<int>, comps: Seq<Seq<int>>, capc: Seq<int>, c: int, j: int) -> bool {
    let nl = r.len() as int;
    let l = comps[c][j];
    &&& d.g@[1 + nl + c]@[1 + j].to == 1 + l
    &&& d.g@[1 + nl + c]@[1 + j].rev == off(r, l) + occ(comps, l, c)
    &&& d.orig@[1 + nl + c][1 + j] == 0
    &&& d.orig@[1 + l][off(r, l) + occ(comps, l, c)] == capc[c]
}

/// The sink edge of class `c` is in place.
pub open spec fn sink_edge_ok(d: Dinic, nl: int, k: int, capc: Seq<int>, c: int) -> bool {
    &&& d.g@[1 + nl + c]@.len() >= 1
    &&& d.g@[1 + nl + c]@[0].to == 1 + nl + k
    &&& d.orig@[1 + nl + c][0] == capc[c]
}

/// Edges out of every class vertex and into every level vertex.
#[verifier::spinoff_prover]
fn add_class_edges(d: &mut Dinic, Ghost(r): Ghost<Seq<int>>, comps: &Vec<Vec<usize>>, cap_left: &Vec<u32>)
    requires
        old(d).wf(),
        no_flow(*old(d)),
        old(d).n == 2 + r.len() + comps@.len(),
        old(d).n < 0x4000_0000,
        cap_left@.len() == comps@.len(),
        comps_ok(idx_comps(comps@), r.len() as int),
        old(d).g@[0]@.len() == cnt_pos(r, r.len() as int),
        src_ok(*old(d), r),
        forall|l: int| 0 <= l < r.len() ==> old(d).g@[1 + l]@.len() == #[trigger] off(r, l),
        forall|x: int| r.len() + 1 <= x < old(d).n ==> (#[trigger] old(d).g@[x])@.len() == 0,
    ensures
        final(d).wf(),
        no_flow(*final(d)),
        final(d).n == old(d).n,
        final(d).g@[0] == old(d).g@[0],
        final(d).orig@[0] == old(d).orig@[0],
        net_shape(*final(d), r, idx_comps(comps@), u32s(cap_left@)),
{
    let ghost cs = idx_comps(comps@);
    let ghost capc = u32s(cap_left@);
    let nl = d.n - 2 - comps.len();
    let k = comps.len();
    let sink = 1 + nl + k;
    let mut ci: usize = 0;
    while ci < k
        invariant
            d.wf(),
            no_flow(*d),
            d.n == old(d).n,
            d.n == 2 + nl + k,
            nl == r.len(),
            k == comps@.len(),
            sink == 1 + nl + k,
            d.n < 0x4000_0000,
            cs == idx_comps(comps@),
            capc == u32s(cap_left@),
            capc.len() == k,
            comps_ok(cs, nl as int),
            ci <= k,
            d.g@[0] == old(d).g@[0],
            d.orig@[0] == old(d).orig@[0],
            src_ok(*d, r),
            forall|l: int| 0 <= l < nl ==> d.g@[1 + l]@.len() == #[trigger] off(r, l) + occ(cs, l, ci as int),
            forall|c: int| 0 <= c < ci ==> d.g@[1 + nl + c]@.len() == 1 + (#[trigger] cs[c]).len(),
            forall|c: int| 0 <= c < ci ==> #[trigger] sink_edge_ok(*d, nl as int, k as int, capc, c),
            forall|c: int, j: int|
                0 <= c < ci && 0 <= j < cs[c].len() ==> #[trigger] slot_ok(*d, r, cs, capc, c, j),
            forall|c: int| ci <= c < k ==> (#[trigger] d.g@[1 + nl + c])@.len() == 0,
        decreases k - ci,
    {
        let cn = 1 + nl + ci;
        let cap = cap_left[ci] as i64;
        let ghost d0 = *d;
        d.add_edge(cn, sink, cap);
        proof {
            assert(d.g@[0] == d0.g@[0]);
            assert forall|l: int| 0 <= l < r.len() implies d0.g@[1 + l]@.len() >= #[trigger] off(r, l) by {
                lemma_occ_nonneg(cs, l, ci as int);
            }
            lemma_src_ok_keep(d0, *d, r, cs, ci as int);
            assert forall|c: int| 0 <= c <= ci implies #[trigger] sink_edge_ok(*d, nl as int, k as int, capc, c) by {
                if c < ci {
                    assert(sink_edge_ok(d0, nl as int, k as int, capc, c));
                    assert(d0.g@[1 + nl + c]@[0] == d.g@[1 + nl + c]@[0]);
                    assert(d0.orig@[1 + nl + c][0] == d.orig@[1 + nl + c][0]);
                }
            }
            assert forall|l: int| 0 <= l < nl implies d.g@[1 + l]@.len() == #[trigger] off(r, l) + occ(cs, l, ci as int) + if cs[ci as int].subrange(0, 0).contains(l) {
                1int
            } else {
                0int
            } by {
                assert(d0.g@[1 + l] == d.g@[1 + l]);
            }
            assert forall|c: int, jj: int|
                0 <= c < ci && 0 <= jj < cs[c].len() implies #[trigger] slot_ok(*d, r, cs, capc, c, jj) by {
                assert(slot_ok(d0, r, cs, capc, c, jj));
                let l = cs[c][jj];
                assert(d0.g@[1 + nl + c]@.len() == 1 + cs[c].len());
                assert(d0.g@[1 + nl + c]@[1 + jj] == d.g@[1 + nl + c]@[1 + jj]);
                assert(d0.g@[1 + l]@.len() == off(r, l) + occ(cs, l, ci as int));
                lemma_occ_mono(cs, l, c, ci as int);
                assert(d0.orig@[1 + l][off(r, l) + occ(cs, l, c)] == d.orig@[1 + l][off(r, l) + occ(cs, l, c)]);
            }
            assert forall|c: int| 0 <= c < ci implies d.g@[1 + nl + c]@.len() == 1 + (#[trigger] cs[c]).len() by {
                assert(d0.g@[1 + nl + c] == d.g@[1 + nl + c]);
            }
            assert forall|c: int| ci < c < k implies (#[trigger] d.g@[1 + nl + c])@.len() == 0 by {
                assert(d0.g@[1 + nl + c] == d.g@[1 + nl + c]);
            }
        }
        let comp = &comps[ci];
        let m = comp.len();
        let mut j: usize = 0;
        while j < m
            invariant
                d.wf(),
                no_flow(*d),
                d.n == old(d).n,
                d.n == 2 + nl + k,
                nl == r.len(),
                k == comps@.len(),
                sink == 1 + nl + k,
                cn == 1 + nl + ci,
                ci < k,
                d.n < 0x4000_0000,
                cs == idx_comps(comps@),
                capc == u32s(cap_left@),
                capc.len() == k,
                comps_ok(cs, nl as int),
                *comp == comps@[ci as int],
                m == comp@.len(),
                cap == capc[ci as int],
                j <= m,
                d.g@[0] == old(d).g@[0],
                d.orig@[0] == old(d).orig@[0],
                src_ok(*d, r),
                forall|l: int|
                    0 <= l < nl ==> d.g@[1 + l]@.len() == #[trigger] off(r, l) + occ(cs, l, ci as int) + if cs[ci as int].subrange(0, j as int).contains(l) {
                        1int
                    } else {
                        0int
                    },
                forall|c: int| 0 <= c < ci ==> d.g@[1 + nl + c]@.len() == 1 + (#[trigger] cs[c]).len(),
                d.g@[cn as int]@.len() == 1 + j,
                forall|c: int| 0 <= c <= ci ==> #[trigger] sink_edge_ok(*d, nl as int, k as int, capc, c),
                forall|c: int, jj: int|
                    0 <= c < ci && 0 <= jj < cs[c].len() ==> #[trigger] slot_ok(*d, r, cs, capc, c, jj),
                forall|jj: int| 0 <= jj < j ==> #[trigger] slot_ok(*d, r, cs, capc, ci as int, jj),
                forall|c: int| ci < c < k ==> (#[trigger] d.g@[1 + nl + c])@.len() == 0,
            decreases m - j,
        {
            let li = comp[j];
            assert(cs[ci as int][j as int] == li as int);
            let ghost d1 = *d;
            let ghost sub = cs[ci as int].subrange(0, j as int);
            let ghost sub1 = cs[ci as int].subrange(0, j as int + 1);
            proof {
                if sub.contains(li as int) {
                    let jj = choose|jj: int| 0 <= jj < sub.len() && sub[jj] == li as int;
                    assert(cs[ci as int][jj] == cs[ci as int][j as int]);
                }
                assert(d1.g@[1 + li as int]@.len() == off(r, li as int) + occ(cs, li as int, ci as int));
            }
            d.add_edge(1 + li, cn, cap);
            proof {
                assert(d.g@[0] == d1.g@[0]);
                assert forall|l: int| 0 <= l < r.len() implies d1.g@[1 + l]@.len() >= #[trigger] off(r, l) by {
                    lemma_occ_nonneg(cs, l, ci as int);
                }
                lemma_src_ok_keep(d1, *d, r, cs, ci as int);
                assert forall|l: int| 0 <= l < nl implies d.g@[1 + l]@.len() == #[trigger] off(r, l) + occ(cs, l, ci as int) + if sub1.contains(l) {
                    1int
                } else {
                    0int
                } by {
                    if l == li {
                        assert(sub1[j as int] == l);
                    } else {
                        assert(d.g@[1 + l] == d1.g@[1 + l]);
                        if sub1.contains(l) {
                            let jj = choose|jj: int| 0 <= jj < sub1.len() && sub1[jj] == l;
                            assert(sub[jj] == l);
                        }
                        if sub.contains(l) {
                            let jj = choose|jj: int| 0 <= jj < sub.len() && sub[jj] == l;
                            assert(sub1[jj] == l);
                        }
                    }
                }
                assert forall|c: int| 0 <= c <= ci implies #[trigger] sink_edge_ok(*d, nl as int, k as int, capc, c) by {
                    assert(sink_edge_ok(d1, nl as int, k as int, capc, c));
                    assert(d1.g@[1 + nl + c]@[0] == d.g@[1 + nl + c]@[0]);
                    assert(d1.orig@[1 + nl + c][0] == d.orig@[1 + nl + c][0]);
                }
                assert forall|c: int, jj: int|
                    0 <= c < ci && 0 <= jj < cs[c].len() implies #[trigger] slot_ok(*d, r, cs, capc, c, jj) by {
                    assert(slot_ok(d1, r, cs, capc, c, jj));
                    let l = cs[c][jj];
                    assert(d1.g@[1 + nl + c]@.len() == 1 + cs[c].len());
                    assert(d1.g@[1 + nl + c]@[1 + jj] == d.g@[1 + nl + c]@[1 + jj]);
                    lemma_occ_mono(cs, l, c, ci as int);
                    assert(d1.g@[1 + l]@.len() >= off(r, l) + occ(cs, l, ci as int));
                    assert(d1.orig@[1 + l][off(r, l) + occ(cs, l, c)] == d.orig@[1 + l][off(r, l) + occ(cs, l, c)]);
                }
                assert forall|jj: int| 0 <= jj < j + 1 implies #[trigger] slot_ok(*d, r, cs, capc, ci as int, jj) by {
                    if jj < j {
                        assert(slot_ok(d1, r, cs, capc, ci as int, jj));
                        let l = cs[ci as int][jj];
                        assert(d1.g@[cn as int]@[1 + jj] == d.g@[cn as int]@[1 + jj]);
                        assert(sub.contains(l)) by {
                            assert(sub[jj] == l);
                        }
                        assert(d1.g@[1 + l]@.len() == off(r, l) + occ(cs, l, ci as int) + 1);
                        assert(d1.orig@[1 + l][off(r, l) + occ(cs, l, ci as int)] == d.orig@[1 + l][off(r, l) + occ(cs, l, ci as int)]);
                    }
                }
                assert forall|c: int| 0 <= c < ci implies d.g@[1 + nl + c]@.len() == 1 + (#[trigger] cs[c]).len() by {
                    assert(d1.g@[1 + nl + c] == d.g@[1 + nl + c]);
                }
                assert forall|c: int| ci < c < k implies (#[trigger] d.g@[1 + nl + c])@.len() == 0 by {
                    assert(d1.g@[1 + nl + c] == d.g@[1 + nl + c]);
                }
            }
            j = j + 1;
        }
        proof {
            assert(cs[ci as int].subrange(0, m as int) =~= cs[ci as int]);
            assert forall|l: int| 0 <= l < nl implies d.g@[1 + l]@.len() == #[trigger] off(r, l) + occ(cs, l, ci + 1) by {
            }
        }
        ci = ci + 1;
    }
    proof {
        assert forall|c: int| 0 <= c < k implies {
            &&& d.g@[1 + nl + c]@.len() == 1 + (#[trigger] cs[c]).len()
            &&& d.g@[1 + nl + c]@[0].to == 1 + nl + k
            &&& d.orig@[1 + nl + c][0] == capc[c]
        } by {
            assert(sink_edge_ok(*d, nl as int, k as int, capc, c));
        }
        assert forall|c: int, j: int| 0 <= c < k && 0 <= j < cs[c].len() implies {
            let l = #[trigger] cs[c][j];
            &&& d.g@[1 + nl + c]@[1 + j].to == 1 + l
            &&& d.g@[1 + nl + c]@[1 + j].rev == off(r, l) + occ(cs, l, c)
            &&& d.orig@[1 + nl + c][1 + j] == 0
            &&& d.orig@[1 + l][off(r, l) + occ(cs, l, c)] == capc[c]
        } by {
            assert(slot_ok(*d, r, cs, capc, c, j));
        }
    }
}

proof fn lemma_src_ok_keep(a: Dinic, b: Dinic, r: Seq<int>, cs: Seq<Seq<int>>, ci: int)
    requires
        a.wf(),
        src_ok(a, r),
        b.g@[0] == a.g@[0],
        b.orig@[0] == a.orig@[0],
        a.n >= r.len() + 1,
        forall|l: int| 0 <= l < r.len() ==> a.g@[1 + l]@.len() >= #[trigger] off(r, l),
        forall|v: int, i: int| 0 <= v < a.n && 0 <= i < a.orig@[v].len() ==> #[trigger] b.orig@[v][i] == a.orig@[v][i],
    ensures
        src_ok(b, r),
{
    assert forall|l: int| 0 <= l < r.len() && r[l] > 0 implies {
        let q = #[trigger] cnt_pos(r, l);
        &&& b.g@[0]@[q].to == 1 + l
        &&& b.g@[0]@[q].rev == 0
        &&& b.orig@[0][q] == r[l]
        &&& b.orig@[1 + l][0] == 0
    } by {
        assert(a.g@[1 + l]@.len() >= off(r, l));
        assert(a.orig@[1 + l].len() == a.g@[1 + l]@.len());
        assert(b.orig@[1 + l][0] == a.orig@[1 + l][0]);
    }
}



// ---------------------------------------------------------------------------
// Reservations for two-level classes and full assignments.
// ---------------------------------------------------------------------------

/// What the reservations put in every entry: `mdl` pupils of each level of a
/// two-level class.
pub open spec fn res_fn(comps: Seq<Seq<int>>, mdl: int) -> spec_fn(int, int) -> int {
    |c: int, j: int| if comps[c].len() == 2 { mdl } else { 0 }
}

pub open spec fn add_fn(x: spec_fn(int, int) -> int, y: spec_fn(int, int) -> int) -> spec_fn(int, int) -> int {
    |c: int, j: int| x(c, j) + y(c, j)
}

pub open spec fn sub_fn(x: spec_fn(int, int) -> int, y: spec_fn(int, int) -> int) -> spec_fn(int, int) -> int {
    |c: int, j: int| x(c, j) - y(c, j)
}

/// Number of two-level classes before `cc` that contain level `l`.
pub open spec fn dual_count(comps: Seq<Seq<int>>, l: int, cc: int) -> int
    decreases cc,
{
    if cc <= 0 {
        0
    } else {
        dual_count(comps, l, cc - 1) + if comps[cc - 1].len() == 2 && comps[cc - 1].contains(l) {
            1int
        } else {
            0int
        }
    }
}

/// The reservations fit: every two-level class can hold `2 * mdl` pupils and
/// every level has `mdl` pupils for each two-level class that holds it.
pub open spec fn reserve_ok(cnts: Seq<int>, comps: Seq<Seq<int>>, max: int, mdl: int) -> bool {
    &&& forall|c: int| 0 <= c < comps.len() && #[trigger] comps[c].len() == 2 ==> 2 * mdl <= max
    &&& forall|l: int| 0 <= l < cnts.len() ==> mdl * dual_count(comps, l, comps.len() as int) <= #[trigger] cnts[l]
}

/// Pupils of each level left after the reservations.
pub open spec fn rem_after(cnts: Seq<int>, comps: Seq<Seq<int>>, mdl: int) -> Seq<int> {
    Seq::new(cnts.len(), |l: int| cnts[l] - mdl * dual_count(comps, l, comps.len() as int))
}

/// Room left in each class after the reservations.
pub open spec fn cap_after(comps: Seq<Seq<int>>, max: int, mdl: int) -> Seq<int> {
    Seq::new(comps.len(), |c: int| if comps[c].len() == 2 { max - 2 * mdl } else { max })
}

/// `x` places every pupil: no class above `max`, at least `mdl` pupils of
/// each level in a two-level class, and each level entirely placed.
pub open spec fn full_ok(x: spec_fn(int, int) -> int, cnts: Seq<int>, comps: Seq<Seq<int>>, max: int, mdl: int) -> bool {
    &&& forall|c: int, j: int|
        0 <= c < comps.len() && 0 <= j < comps[c].len() ==> #[trigger] x(c, j) >= 0 && (comps[c].len() == 2
            ==> x(c, j) >= mdl)
    &&& forall|c: int| 0 <= c < comps.len() ==> #[trigger] class_sum(x, comps, c) <= max
    &&& forall|l: int| 0 <= l < cnts.len() ==> #[trigger] level_sum(x, comps, l) == cnts[l]
}

/// Some placement of all the pupils respects the class size and the
/// two-level minimum.
pub open spec fn feasible_idx(cnts: Seq<int>, comps: Seq<Seq<int>>, max: int, mdl: int) -> bool {
    exists|x: spec_fn(int, int) -> int| full_ok(x, cnts, comps, max, mdl)
}

proof fn lemma_level_sum_add(x: spec_fn(int, int) -> int, y: spec_fn(int, int) -> int, comps: Seq<Seq<int>>, l: int)
    ensures
        level_sum(add_fn(x, y), comps, l) == level_sum(x, comps, l) + level_sum(y, comps, l),
{
    let k = comps.len() as int;
    assert forall|c: int| 0 <= c < k implies #[trigger] level_fn(add_fn(x, y), comps, l)(c) == level_fn(x, comps, l)(c)
        + level_fn(y, comps, l)(c) by {
        let m = comps[c].len() as int;
        assert forall|j: int| 0 <= j < m implies #[trigger] part_fn(add_fn(x, y), comps, c, l)(j) == part_fn(x, comps, c, l)(j)
            + part_fn(y, comps, c, l)(j) by {
        }
        lemma_sum_add(m, part_fn(x, comps, c, l), part_fn(y, comps, c, l), part_fn(add_fn(x, y), comps, c, l));
    }
    lemma_sum_add(k, level_fn(x, comps, l), level_fn(y, comps, l), level_fn(add_fn(x, y), comps, l));
}

proof fn lemma_class_sum_add(x: spec_fn(int, int) -> int, y: spec_fn(int, int) -> int, comps: Seq<Seq<int>>, c: int)
    ensures
        class_sum(add_fn(x, y), comps, c) == class_sum(x, comps, c) + class_sum(y, comps, c),
{
    lemma_sum_add(comps[c].len() as int, row_of(x, c), row_of(y, c), row_of(add_fn(x, y), c));
}

proof fn lemma_res_level_sum(comps: Seq<Seq<int>>, nl: int, mdl: int, l: int, cc: int)
    requires
        comps_ok(comps, nl),
        0 <= cc <= comps.len(),
    ensures
        sum_up(cc, level_fn(res_fn(comps, mdl), comps, l)) == mdl * dual_count(comps, l, cc),
    decreases cc,
{
    if cc > 0 {
        let c = cc - 1;
        lemma_res_level_sum(comps, nl, mdl, l, c);
        lemma_class_part(res_fn(comps, mdl), comps, nl, c, l);
        if comps[c].contains(l) {
            let j = choose|j: int| 0 <= j < comps[c].len() && comps[c][j] == l;
            assert(class_part(res_fn(comps, mdl), comps, c, l) == res_fn(comps, mdl)(c, j));
        }
        let d0 = dual_count(comps, l, c);
        if comps[c].len() == 2 && comps[c].contains(l) {
            assert(dual_count(comps, l, cc) == d0 + 1);
            assert(mdl * (d0 + 1) == mdl * d0 + mdl) by (nonlinear_arith);
        } else {
            assert(dual_count(comps, l, cc) == d0);
        }
        assert(sum_up(cc, level_fn(res_fn(comps, mdl), comps, l)) == sum_up(c, level_fn(res_fn(comps, mdl), comps, l))
            + class_part(res_fn(comps, mdl), comps, c, l));
    } else {
        assert(mdl * 0 == 0);
    }
}

proof fn lemma_res_class_sum(comps: Seq<Seq<int>>, mdl: int, c: int)
    ensures
        class_sum(res_fn(comps, mdl), comps, c) == if comps[c].len() == 2 {
            2 * mdl
        } else {
            0
        },
{
    let f = row_of(res_fn(comps, mdl), c);
    if comps[c].len() == 2 {
        assert(sum_up(0, f) == 0);
        assert(sum_up(1, f) == mdl);
        assert(sum_up(2, f) == 2 * mdl);
    } else {
        lemma_sum_point(comps[c].len() as int, f, -1);
    }
}

proof fn lemma_dual_count_mono(comps: Seq<Seq<int>>, l: int, a: int, b: int)
    requires
        0 <= a <= b,
    ensures
        0 <= dual_count(comps, l, a) <= dual_count(comps, l, b),
        a < b && comps[a].len() == 2 && comps[a].contains(l) ==> dual_count(comps, l, a) + 1 <= dual_count(comps, l, b),
    decreases b - a,
{
    lemma_dual_count_nonneg(comps, l, a);
    if a < b {
        lemma_dual_count_mono(comps, l, a, b - 1);
        if a < b - 1 {
            lemma_dual_count_mono(comps, l, a + 1, b);
        }
    }
}

proof fn lemma_dual_count_nonneg(comps: Seq<Seq<int>>, l: int, a: int)
    ensures
        0 <= dual_count(comps, l, a),
    decreases a,
{
    if a > 0 {
        lemma_dual_count_nonneg(comps, l, a - 1);
    }
}

/// A full placement is the reservations plus a residual placement, and back.
proof fn lemma_full_residual(x: spec_fn(int, int) -> int, cnts: Seq<int>, comps: Seq<Seq<int>>, max: int, mdl: int)
    requires
        comps_ok(comps, cnts.len() as int),
        mdl >= 0,
        full_ok(x, cnts, comps, max, mdl),
    ensures
        reserve_ok(cnts, comps, max, mdl),
        residual_ok(sub_fn(x, res_fn(comps, mdl)), rem_after(cnts, comps, mdl), comps, cap_after(comps, max, mdl)),
{
    let r = res_fn(comps, mdl);
    let y = sub_fn(x, r);
    let nl = cnts.len() as int;
    let k = comps.len() as int;
    assert forall|c: int| 0 <= c < k implies class_sum(y, comps, c) + class_sum(r, comps, c) == class_sum(x, comps, c) by {
        lemma_class_sum_add(y, r, comps, c);
        lemma_sum_ext(comps[c].len() as int, row_of(add_fn(y, r), c), row_of(x, c));
    }
    assert forall|l: int| 0 <= l < nl implies level_sum(y, comps, l) + level_sum(r, comps, l) == level_sum(x, comps, l) by {
        lemma_level_sum_add(y, r, comps, l);
        assert forall|c: int| 0 <= c < k implies #[trigger] level_fn(add_fn(y, r), comps, l)(c) == level_fn(x, comps, l)(c) by {
            lemma_sum_ext(comps[c].len() as int, part_fn(add_fn(y, r), comps, c, l), part_fn(x, comps, c, l));
        }
        lemma_sum_ext(k, level_fn(add_fn(y, r), comps, l), level_fn(x, comps, l));
    }
    assert forall|c: int| 0 <= c < k && #[trigger] comps[c].len() == 2 implies 2 * mdl <= max by {
        lemma_res_class_sum(comps, mdl, c);
        assert forall|j: int| 0 <= j < comps[c].len() implies #[trigger] row_of(y, c)(j) >= 0 by {
            assert(x(c, j) >= mdl);
        }
        lemma_sum_nonneg(comps[c].len() as int, row_of(y, c));
        assert(class_sum(x, comps, c) <= max);
    }
    assert forall|l: int| 0 <= l < nl implies mdl * dual_count(comps, l, k) <= #[trigger] cnts[l] by {
        lemma_res_level_sum(comps, nl, mdl, l, k);
        assert forall|c: int| 0 <= c < k implies #[trigger] level_fn(y, comps, l)(c) >= 0 by {
            assert forall|j: int| 0 <= j < comps[c].len() implies #[trigger] part_fn(y, comps, c, l)(j) >= 0 by {
                assert(x(c, j) >= 0);
            }
            lemma_sum_nonneg(comps[c].len() as int, part_fn(y, comps, c, l));
        }
        lemma_sum_nonneg(k, level_fn(y, comps, l));
        assert(level_sum(x, comps, l) == cnts[l]);
    }
    assert forall|c: int| 0 <= c < k implies #[trigger] class_sum(y, comps, c) <= cap_after(comps, max, mdl)[c] by {
        lemma_res_class_sum(comps, mdl, c);
        assert(class_sum(x, comps, c) <= max);
    }
    assert forall|l: int| 0 <= l < nl implies #[trigger] level_sum(y, comps, l) == rem_after(cnts, comps, mdl)[l] by {
        lemma_res_level_sum(comps, nl, mdl, l, k);
        assert(level_sum(x, comps, l) == cnts[l]);
    }
    assert forall|c: int, j: int| 0 <= c < k && 0 <= j < comps[c].len() implies #[trigger] y(c, j) >= 0 by {
        assert(x(c, j) >= 0);
    }
}

proof fn lemma_residual_full(y: spec_fn(int, int) -> int, cnts: Seq<int>, comps: Seq<Seq<int>>, max: int, mdl: int)
    requires
        comps_ok(comps, cnts.len() as int),
        mdl >= 0,
        residual_ok(y, rem_after(cnts, comps, mdl), comps, cap_after(comps, max, mdl)),
    ensures
        full_ok(add_fn(res_fn(comps, mdl), y), cnts, comps, max, mdl),
{
    let r = res_fn(comps, mdl);
    let x = add_fn(r, y);
    let nl = cnts.len() as int;
    let k = comps.len() as int;
    assert forall|c: int| 0 <= c < k implies #[trigger] class_sum(x, comps, c) <= max by {
        lemma_class_sum_add(r, y, comps, c);
        lemma_res_class_sum(comps, mdl, c);
        assert(class_sum(y, comps, c) <= cap_after(comps, max, mdl)[c]);
    }
    assert forall|l: int| 0 <= l < nl implies #[trigger] level_sum(x, comps, l) == cnts[l] by {
        lemma_level_sum_add(r, y, comps, l);
        lemma_res_level_sum(comps, nl, mdl, l, k);
        assert(level_sum(y, comps, l) == rem_after(cnts, comps, mdl)[l]);
    }
    assert forall|c: int, j: int| 0 <= c < k && 0 <= j < comps[c].len() implies #[trigger] x(c, j) >= 0 && (comps[c].len()
        == 2 ==> x(c, j) >= mdl) by {
        assert(y(c, j) >= 0);
    }
}

/// Reserves `mdl` pupils of each level of every two-level class, in class
/// order; `None` as soon as a level or a class cannot take its share.
/// Returns what is left of each level, what is left of each class and the
/// reserved entries.
fn reserve_dual(counts: &Vec<u32>, comps: &Vec<Vec<usize>>, max_per_class: u32, mdl: u32) -> (r: Option<
    (Vec<u32>, Vec<u32>, Vec<Vec<u32>>),
>)
    requires
        comps_ok(idx_comps(comps@), counts@.len() as int),
        1 <= mdl,
    ensures
        r is Some <==> reserve_ok(u32s(counts@), idx_comps(comps@), max_per_class as int, mdl as int),
        r matches Some((rem, capl, amt)) ==> {
            &&& u32s(rem@) == rem_after(u32s(counts@), idx_comps(comps@), mdl as int)
            &&& u32s(capl@) == cap_after(idx_comps(comps@), max_per_class as int, mdl as int)
            &&& amt@.len() == comps@.len()
            &&& forall|c: int|
                0 <= c < comps@.len() ==> (#[trigger] amt@[c])@.len() == comps@[c]@.len() && forall|j: int|
                    0 <= j < comps@[c]@.len() ==> amt@[c]@[j] == res_fn(idx_comps(comps@), mdl as int)(c, j)
        },
{
    let ghost cs = idx_comps(comps@);
    let ghost cnts = u32s(counts@);
    let nl = counts.len();
    let k = comps.len();
    let mut rem: Vec<u32> = Vec::new();
    let mut i: usize = 0;
    while i < nl
        invariant
            i <= nl,
            nl == counts@.len(),
            rem@ == counts@.subrange(0, i as int),
        decreases nl - i,
    {
        rem.push(counts[i]);
        i = i + 1;
    }
    let mut cap_left: Vec<u32> = Vec::new();
    let mut amounts: Vec<Vec<u32>> = Vec::new();
    let mut c: usize = 0;
    while c < k
        invariant
            c <= k,
            k == comps@.len(),
            cap_left@.len() == c,
            amounts@.len() == c,
            forall|x: int| 0 <= x < c ==> #[trigger] cap_left@[x] == max_per_class,
            forall|x: int|
                0 <= x < c ==> (#[trigger] amounts@[x])@.len() == comps@[x]@.len() && forall|j: int|
                    0 <= j < comps@[x]@.len() ==> amounts@[x]@[j] == 0,
        decreases k - c,
    {
        cap_left.push(max_per_class);
        let m = comps[c].len();
        let mut row: Vec<u32> = Vec::new();
        let mut j: usize = 0;
        while j < m
            invariant
                j <= m,
                row@.len() == j,
                forall|q: int| 0 <= q < j ==> #[trigger] row@[q] == 0,
            decreases m - j,
        {
            row.push(0);
            j = j + 1;
        }
        amounts.push(row);
        c = c + 1;
    }
    assert(rem@ =~= counts@);
    let mut ci: usize = 0;
    while ci < k
        invariant
            ci <= k,
            k == comps@.len(),
            nl == counts@.len(),
            cs == idx_comps(comps@),
            cnts == u32s(counts@),
            comps_ok(cs, nl as int),
            1 <= mdl,
            rem@.len() == nl,
            forall|l: int| 0 <= l < nl ==> #[trigger] rem@[l] == cnts[l] - mdl * dual_count(cs, l, ci as int),
            cap_left@.len() == k,
            forall|x: int| 0 <= x < ci ==> #[trigger] cap_left@[x] == cap_after(cs, max_per_class as int, mdl as int)[x],
            forall|x: int| ci <= x < k ==> #[trigger] cap_left@[x] == max_per_class,
            forall|x: int| 0 <= x < ci && #[trigger] cs[x].len() == 2 ==> 2 * mdl <= max_per_class,
            amounts@.len() == k,
            forall|x: int|
                0 <= x < k ==> (#[trigger] amounts@[x])@.len() == comps@[x]@.len() && forall|j: int|
                    0 <= j < comps@[x]@.len() ==> amounts@[x]@[j] == if x < ci {
                        res_fn(cs, mdl as int)(x, j)
                    } else {
                        0
                    },
        decreases k - ci,
    {
        if comps[ci].len() == 2 {
            let a = comps[ci][0];
            let b = comps[ci][1];
            assert(cs[ci as int][0] == a && cs[ci as int][1] == b);
            assert(cs[ci as int].contains(a as int)) by {
                assert(cs[ci as int][0] == a);
            }
            assert(cs[ci as int].contains(b as int)) by {
                assert(cs[ci as int][1] == b);
            }
            let ra = rem[a];
            let rb = rem[b];
            let need_cap: u64 = mdl as u64 * 2;
            if ra < mdl || rb < mdl || (cap_left[ci] as u64) < need_cap {
                proof {
                    if (cap_left[ci as int] as u64) < need_cap {
                        assert(cs[ci as int].len() == 2);
                    } else {
                        let l = if ra < mdl { a as int } else { b as int };
                        lemma_dual_count_mono(cs, l, ci as int, k as int);
                        let d0 = dual_count(cs, l, ci as int);
                        let dk = dual_count(cs, l, k as int);
                        assert(mdl * (d0 + 1) <= mdl * dk) by (nonlinear_arith)
                            requires
                                d0 + 1 <= dk,
                                mdl >= 1,
                        ;
                        assert(mdl * (d0 + 1) == mdl * d0 + mdl) by (nonlinear_arith);
                        assert(!(mdl * dk <= cnts[l]));
                    }
                }
                return None;
            }
            rem.set(a, ra - mdl);
            rem.set(b, rem[b] - mdl);
            let cl = (cap_left[ci] as u64 - need_cap) as u32;
            cap_left.set(ci, cl);
            let mut row: Vec<u32> = Vec::new();
            row.push(mdl);
            row.push(mdl);
            amounts.set(ci, row);
            proof {
                assert(a != b) by {
                    assert(cs[ci as int][0] != cs[ci as int][1]);
                }
                assert forall|l: int| 0 <= l < nl implies #[trigger] rem@[l] == cnts[l] - mdl * dual_count(cs, l, ci + 1) by {
                    let d0 = dual_count(cs, l, ci as int);
                    assert(mdl * (d0 + 1) == mdl * d0 + mdl) by (nonlinear_arith);
                    if cs[ci as int].contains(l) {
                        let j = choose|j: int| 0 <= j < cs[ci as int].len() && cs[ci as int][j] == l;
                        assert(j == 0 || j == 1);
                    }
                }
            }
        } else {
            proof {
                assert forall|l: int| 0 <= l < nl implies #[trigger] rem@[l] == cnts[l] - mdl * dual_count(cs, l, ci + 1) by {
                }
            }
        }
        ci = ci + 1;
    }
    proof {
        assert forall|l: int| 0 <= l < nl implies mdl * dual_count(cs, l, k as int) <= #[trigger] cnts[l] by {
            assert(rem@[l] == cnts[l] - mdl * dual_count(cs, l, k as int));
        }
        assert(u32s(rem@) =~= rem_after(cnts, cs, mdl as int));
        assert(u32s(cap_left@) =~= cap_after(cs, max_per_class as int, mdl as int));
    }
    Some((rem, cap_left, amounts))
}

proof fn lemma_net_shape_keep(a: Dinic, b: Dinic, rem: Seq<int>, comps: Seq<Seq<int>>, capc: Seq<int>)
    requires
        net_shape(b, rem, comps, capc),
        a.same_shape(&b),
    ensures
        net_shape(a, rem, comps, capc),
{
    let nl = rem.len() as int;
    let k = comps.len() as int;
    assert(a.g@[0]@.len() == b.g@[0]@.len());
    assert forall|l: int| 0 <= l < nl && rem[l] > 0 implies {
        let q = #[trigger] cnt_pos(rem, l);
        &&& a.g@[0]@[q].to == 1 + l
        &&& a.g@[0]@[q].rev == 0
        &&& a.orig@[0][q] == rem[l]
        &&& a.orig@[1 + l][0] == 0
    } by {
        let q = cnt_pos(rem, l);
        assert(b.g@[0]@[q].to == 1 + l);
        lemma_cnt_pos_mono(rem, l, nl);
        assert(a.g@[0]@[q].to == b.g@[0]@[q].to);
    }
    assert forall|l: int| 0 <= l < nl implies a.g@[1 + l]@.len() == #[trigger] off(rem, l) + occ(comps, l, k) by {
        assert(a.g@[1 + l]@.len() == b.g@[1 + l]@.len());
    }
    assert forall|c: int| 0 <= c < k implies {
        &&& a.g@[1 + nl + c]@.len() == 1 + (#[trigger] comps[c]).len()
        &&& a.g@[1 + nl + c]@[0].to == 1 + nl + k
        &&& a.orig@[1 + nl + c][0] == capc[c]
    } by {
        assert(a.g@[1 + nl + c]@.len() == b.g@[1 + nl + c]@.len());
        assert(b.g@[1 + nl + c]@.len() == 1 + comps[c].len());
        assert(0 <= 1 + nl + c < a.n);
        assert(a.g@[1 + nl + c]@[0].to == b.g@[1 + nl + c]@[0].to);
    }
    assert forall|c: int, j: int| 0 <= c < k && 0 <= j < comps[c].len() implies {
        let l = #[trigger] comps[c][j];
        &&& a.g@[1 + nl + c]@[1 + j].to == 1 + l
        &&& a.g@[1 + nl + c]@[1 + j].rev == off(rem, l) + occ(comps, l, c)
        &&& a.orig@[1 + nl + c][1 + j] == 0
        &&& a.orig@[1 + l][off(rem, l) + occ(comps, l, c)] == capc[c]
    } by {
        assert(b.g@[1 + nl + c]@.len() == 1 + comps[c].len());
        assert(a.g@[1 + nl + c]@[1 + j].to == b.g@[1 + nl + c]@[1 + j].to);
    }
}

/// A saturating flow (it moves every pupil left after the reservations) is
/// a residual placement.
proof fn lemma_flow_sound(d: Dinic, rem: Seq<int>, comps: Seq<Seq<int>>, capc: Seq<int>)
    requires
        d.wf(),
        net_shape(d, rem, comps, capc),
        comps_ok(comps, rem.len() as int),
        forall|l: int| 0 <= l < rem.len() ==> #[trigger] rem[l] >= 0,
        conserved(d, rem.len() as int, comps.len() as int),
        d.net_out(0) == sum_up(rem.len() as int, seq_fn(rem)),
    ensures
        residual_ok(class_flow(d, rem.len() as int), rem, comps, capc),
{
    let nl = rem.len() as int;
    let k = comps.len() as int;
    let fs = src_flow(d, rem);
    let fc = class_flow(d, nl);
    lemma_flow_le_need(d, rem, comps, capc);
    lemma_sum_le_eq(nl, fs, seq_fn(rem));
    assert forall|l: int| 0 <= l < nl implies #[trigger] level_sum(fc, comps, l) == rem[l] by {
        lemma_level_row(d, rem, comps, capc, l, k);
        assert(d.net_out(1 + l) == 0);
        assert(fs(l) == seq_fn(rem)(l));
    }
    assert forall|c: int| 0 <= c < k implies #[trigger] class_sum(fc, comps, c) <= capc[c] by {
        lemma_class_row(d, rem, comps, capc, c, comps[c].len() as int);
        assert(d.net_out(1 + nl + c) == 0);
        assert(d.g@[1 + nl + c]@.len() == 1 + comps[c].len());
        assert(d.g@[1 + nl + c]@[0] == d.g@[1 + nl + c]@[0]);
    }
    assert forall|c: int, j: int| 0 <= c < k && 0 <= j < comps[c].len() implies #[trigger] fc(c, j) >= 0 by {
        assert(d.g@[1 + nl + c]@.len() == 1 + comps[c].len());
        assert(d.g@[1 + nl + c]@[1 + j] == d.g@[1 + nl + c]@[1 + j]);
    }
}

/// The flow leaving the source never exceeds what the levels have left.
proof fn lemma_flow_le_need(d: Dinic, rem: Seq<int>, comps: Seq<Seq<int>>, capc: Seq<int>)
    requires
        d.wf(),
        net_shape(d, rem, comps, capc),
        forall|l: int| 0 <= l < rem.len() ==> #[trigger] rem[l] >= 0,
    ensures
        d.net_out(0) == sum_up(rem.len() as int, src_flow(d, rem)),
        forall|l: int| 0 <= l < rem.len() ==> #[trigger] src_flow(d, rem)(l) <= seq_fn(rem)(l),
        d.net_out(0) <= sum_up(rem.len() as int, seq_fn(rem)),
{
    let nl = rem.len() as int;
    let fs = src_flow(d, rem);
    lemma_source_row(d, rem, comps, capc, nl);
    assert forall|l: int| 0 <= l < nl implies #[trigger] fs(l) <= seq_fn(rem)(l) by {
        if rem[l] > 0 {
            let q = cnt_pos(rem, l);
            lemma_cnt_pos_mono(rem, l, nl);
            assert(0 <= q < d.g@[0]@.len());
            assert(d.g@[0]@[q].to == 1 + l);
            assert(d.g@[0]@[q].rev == 0);
            assert(d.g@[1 + l]@[0].to == 0);
            assert(d.g@[0]@[q].cap + d.g@[1 + l]@[0].cap == d.orig@[0][q] + d.orig@[1 + l][0]);
            assert(d.g@[0]@[q].cap >= 0);
        }
    }
    lemma_sum_le(nl, fs, seq_fn(rem));
}

pub(crate) proof fn lemma_full_ok_ext(x: spec_fn(int, int) -> int, y: spec_fn(int, int) -> int, cnts: Seq<int>, comps: Seq<Seq<int>>, max: int, mdl: int)
    requires
        full_ok(x, cnts, comps, max, mdl),
        forall|c: int, j: int| 0 <= c < comps.len() && 0 <= j < comps[c].len() ==> #[trigger] y(c, j) == x(c, j),
    ensures
        full_ok(y, cnts, comps, max, mdl),
{
    let k = comps.len() as int;
    assert forall|c: int| 0 <= c < k implies #[trigger] class_sum(y, comps, c) <= max by {
        lemma_sum_ext(comps[c].len() as int, row_of(x, c), row_of(y, c));
        assert(class_sum(x, comps, c) <= max);
    }
    assert forall|l: int| 0 <= l < cnts.len() implies #[trigger] level_sum(y, comps, l) == cnts[l] by {
        assert(level_sum(x, comps, l) == cnts[l]);
        assert forall|c: int| 0 <= c < k implies #[trigger] level_fn(y, comps, l)(c) == level_fn(x, comps, l)(c) by {
            lemma_sum_ext(comps[c].len() as int, part_fn(y, comps, c, l), part_fn(x, comps, c, l));
        }
        lemma_sum_ext(k, level_fn(y, comps, l), level_fn(x, comps, l));
    }
    assert forall|c: int, j: int| 0 <= c < k && 0 <= j < comps[c].len() implies #[trigger] y(c, j) >= 0 && (comps[c].len()
        == 2 ==> y(c, j) >= mdl) by {
        assert(x(c, j) >= 0);
    }
}

pub open spec fn amounts_fn(a: Seq<Vec<u32>>) -> spec_fn(int, int) -> int {
    |c: int, j: int| a[c]@[j] as int
}

/// Every class total is 0 or at least `min`.
pub open spec fn min_ok(totals: Seq<u32>, min: int) -> bool {
    min > 0 ==> forall|c: int| 0 <= c < totals.len() ==> #[trigger] totals[c] == 0 || totals[c] >= min
}

/// Under the placement `x`, every class holds no pupils or at least `min`.
pub open spec fn sums_min_ok(x: spec_fn(int, int) -> int, comps: Seq<Seq<int>>, min: int) -> bool {
    min > 0 ==> forall|c: int| 0 <= c < comps.len() ==> #[trigger] class_sum(x, comps, c) == 0 || class_sum(x, comps, c) >= min
}

/// Reservations, maximum flow, and the per-class amounts read off the flow:
/// `amounts[c][j]` pupils of level `comps[c][j]` go to class `c`.
fn flow_assignment(counts: &Vec<u32>, comps: &Vec<Vec<usize>>, max_per_class: u32, min_per_class: u32, mdl_in: u32) -> (r:
    Option<(Vec<Vec<u32>>, Vec<u32>)>)
    requires
        comps_ok(idx_comps(comps@), counts@.len() as int),
        counts@.len() + comps@.len() + 2 < 0x4000_0000,
    ensures
        ({
            let cnts = u32s(counts@);
            let cs = idx_comps(comps@);
            let mdl = effective_dual_min(mdl_in);
            &&& !reserve_ok(cnts, cs, max_per_class as int, mdl) ==> r is None
            &&& r matches Some((amounts, totals)) ==> {
                &&& amounts@.len() == comps@.len()
                &&& forall|c: int| 0 <= c < comps@.len() ==> (#[trigger] amounts@[c])@.len() == comps@[c]@.len()
                &&& full_ok(amounts_fn(amounts@), cnts, cs, max_per_class as int, mdl)
                &&& totals@.len() == comps@.len()
                &&& forall|c: int| 0 <= c < comps@.len() ==> #[trigger] totals@[c] == class_sum(amounts_fn(amounts@), cs, c)
                &&& min_ok(totals@, min_per_class as int)
            }
            &&& min_per_class == 0 ==> (r is Some <==> feasible_idx(cnts, cs, max_per_class as int, mdl))
            &&& feasible_idx(cnts, cs, max_per_class as int, mdl) ==> exists|x: spec_fn(int, int) -> int|
                #[trigger] full_ok(x, cnts, cs, max_per_class as int, mdl) && (r is Some <==> sums_min_ok(
                    x,
                    cs,
                    min_per_class as int,
                )) && (r matches Some((am, tt)) ==> amounts_fn(am@) == x)
        }),
{
    let ghost cnts = u32s(counts@);
    let ghost cs = idx_comps(comps@);
    let mdl = if mdl_in > 1 { mdl_in } else { 1 };
    let (rem, cap_left, mut amounts) = match reserve_dual(counts, comps, max_per_class, mdl) {
        Some(t) => t,
        None => {
            proof {
                if feasible_idx(cnts, cs, max_per_class as int, mdl as int) {
                    let x = choose|x: spec_fn(int, int) -> int| full_ok(x, cnts, cs, max_per_class as int, mdl as int);
                    lemma_full_residual(x, cnts, cs, max_per_class as int, mdl as int);
                }
            }
            return None;
        },
    };
    let ghost rm = u32s(rem@);
    let ghost capc = u32s(cap_left@);
    let nl = counts.len();
    let k = comps.len();
    assert(rem@.len() == nl) by {
        assert(rm.len() == rem_after(cnts, cs, mdl as int).len());
    }
    assert(cap_left@.len() == k) by {
        assert(capc.len() == cap_after(cs, max_per_class as int, mdl as int).len());
    }
    let s: usize = 0;
    let level_start: usize = 1;
    let class_start = 1 + nl;
    let sink = class_start + k;
    let n = sink + 1;
    let mut dinic = Dinic::new(n);
    let need = add_source_edges(&mut dinic, &rem);
    add_class_edges(&mut dinic, Ghost(rm), comps, &cap_left);
    let ghost built = dinic;
    proof {
        lemma_no_flow_conserved(dinic);
        assert(orig_sum(dinic.orig@[0], dinic.g@[0]@.len() as int) == need);
        assert(need < 0x7FFF_FFFF_FFFF_FFFF) by (nonlinear_arith)
            requires
                need <= nl * 0xFFFF_FFFF,
                nl < 0x4000_0000,
        ;
    }
    let flow = dinic.max_flow(s, sink);
    proof {
        lemma_net_shape_keep(dinic, built, rm, cs, capc);
        assert forall|l: int| 0 <= l < rm.len() implies #[trigger] rm[l] >= 0 by {
        }
        lemma_flow_le_need(dinic, rm, cs, capc);
        if feasible_idx(cnts, cs, max_per_class as int, mdl as int) {
            let x = choose|x: spec_fn(int, int) -> int| full_ok(x, cnts, cs, max_per_class as int, mdl as int);
            lemma_full_residual(x, cnts, cs, max_per_class as int, mdl as int);
            let lv = choose|lv: Seq<i32>| lv.len() == dinic.n && lv[0] >= 0 && lv[sink as int] < 0 && #[trigger] dinic.closed(lv);
            lemma_cut(dinic, rm, cs, capc, lv, sub_fn(x, res_fn(cs, mdl as int)));
        }
    }
    if flow != need {
        return None;
    }
    let ghost fc = class_flow(dinic, nl as int);
    let ghost xf = add_fn(res_fn(cs, mdl as int), fc);
    proof {
        lemma_flow_sound(dinic, rm, cs, capc);
        lemma_residual_full(fc, cnts, cs, max_per_class as int, mdl as int);
    }
    let mut ci: usize = 0;
    while ci < k
        invariant
            ci <= k,
            k == comps@.len(),
            nl == counts@.len(),
            cs == idx_comps(comps@),
            net_shape(dinic, rm, cs, capc),
            dinic.wf(),
            fc == class_flow(dinic, nl as int),
            xf == add_fn(res_fn(cs, mdl as int), fc),
            full_ok(xf, cnts, cs, max_per_class as int, mdl as int),
            amounts@.len() == k,
            dinic.n == 2 + nl + k,
            nl + k + 2 < 0x4000_0000,
            comps_ok(cs, nl as int),
            class_start == 1 + nl,
            level_start == 1,
            forall|c: int|
                0 <= c < k ==> (#[trigger] amounts@[c])@.len() == comps@[c]@.len() && forall|j: int|
                    0 <= j < comps@[c]@.len() ==> amounts@[c]@[j] == if c < ci {
                        xf(c, j)
                    } else {
                        res_fn(cs, mdl as int)(c, j)
                    },
        decreases k - ci,
    {
        let cn = class_start + ci;
        assert(dinic.g@[1 + nl + ci]@.len() == 1 + cs[ci as int].len());
        assert(cs[ci as int].len() == comps@[ci as int]@.len());
        let deg = dinic.g[cn].len();
        let mut q: usize = 0;
        while q < deg
            invariant
                ci < k,
                k == comps@.len(),
                nl == counts@.len(),
                cs == idx_comps(comps@),
                cn == 1 + nl + ci,
                deg == dinic.g@[cn as int]@.len(),
                deg == 1 + comps@[ci as int]@.len(),
                q <= deg,
                net_shape(dinic, rm, cs, capc),
                dinic.wf(),
                fc == class_flow(dinic, nl as int),
                xf == add_fn(res_fn(cs, mdl as int), fc),
                full_ok(xf, cnts, cs, max_per_class as int, mdl as int),
                amounts@.len() == k,
                dinic.n == 2 + nl + k,
                nl + k + 2 < 0x4000_0000,
                comps_ok(cs, nl as int),
                class_start == 1 + nl,
                level_start == 1,
                forall|c: int|
                    0 <= c < k ==> (#[trigger] amounts@[c])@.len() == comps@[c]@.len() && forall|j: int|
                        0 <= j < comps@[c]@.len() ==> amounts@[c]@[j] == if c < ci || (c == ci && 1 + j < q) {
                            xf(c, j)
                        } else {
                            res_fn(cs, mdl as int)(c, j)
                        },
            decreases deg - q,
        {
            let to = dinic.g[cn][q].to;
            if to >= level_start && to < level_start + nl {
                let sent = dinic.g[cn][q].cap;
                assert(q >= 1) by {
                    if q == 0 {
                        assert(cs[ci as int] == cs[ci as int]);
                    }
                }
                let j = q - 1;
                proof {
                    let l = cs[ci as int][j as int];
                    assert(fc(ci as int, j as int) == sent);
                    assert(xf(ci as int, j as int) >= 0);
                    assert forall|jj: int| 0 <= jj < comps@[ci as int]@.len() implies #[trigger] row_of(xf, ci as int)(jj) >= 0 by {
                        assert(xf(ci as int, jj) >= 0);
                    }
                    lemma_sum_ge_term(comps@[ci as int]@.len() as int, row_of(xf, ci as int), j as int);
                    assert(class_sum(xf, cs, ci as int) <= max_per_class);
                }
                if sent > 0 {
                    let cur = amounts[ci][j];
                    let nv = cur + sent as u32;
                    amounts[ci].set(j, nv);
                }
            } else {
                proof {
                    if q >= 1 {
                        let l = cs[ci as int][q - 1];
                        assert(0 <= l < nl);
                    }
                }
            }
            q = q + 1;
        }
        ci = ci + 1;
    }
    proof {
        lemma_full_ok_ext(xf, amounts_fn(amounts@), cnts, cs, max_per_class as int, mdl as int);
    }
    let mut class_totals: Vec<u32> = Vec::new();
    let mut c: usize = 0;
    while c < k
        invariant
            c <= k,
            k == comps@.len(),
            cs == idx_comps(comps@),
            amounts@.len() == k,
            forall|x: int| 0 <= x < k ==> (#[trigger] amounts@[x])@.len() == comps@[x]@.len(),
            full_ok(amounts_fn(amounts@), cnts, cs, max_per_class as int, mdl as int),
            class_totals@.len() == c,
            forall|x: int| 0 <= x < c ==> #[trigger] class_totals@[x] == class_sum(amounts_fn(amounts@), cs, x),
        decreases k - c,
    {
        let m = amounts[c].len();
        let mut t: u32 = 0;
        let mut j: usize = 0;
        proof {
            assert forall|jj: int| 0 <= jj < m implies #[trigger] row_of(amounts_fn(amounts@), c as int)(jj) >= 0 by {
                assert(amounts_fn(amounts@)(c as int, jj) >= 0);
            }
            assert(class_sum(amounts_fn(amounts@), cs, c as int) <= max_per_class);
        }
        while j < m
            invariant
                c < k,
                j <= m,
                amounts@.len() == k,
                m == amounts@[c as int]@.len(),
                m == cs[c as int].len(),
                forall|jj: int| 0 <= jj < m ==> #[trigger] row_of(amounts_fn(amounts@), c as int)(jj) >= 0,
                sum_up(m as int, row_of(amounts_fn(amounts@), c as int)) <= max_per_class,
                t == sum_up(j as int, row_of(amounts_fn(amounts@), c as int)),
            decreases m - j,
        {
            proof {
                assert forall|jj: int| j + 1 <= jj < m implies #[trigger] row_of(amounts_fn(amounts@), c as int)(jj) >= 0 by {
                }
                lemma_sum_nonneg_tail(m as int, j as int + 1, row_of(amounts_fn(amounts@), c as int));
            }
            t = t + amounts[c][j];
            j = j + 1;
        }
        class_totals.push(t);
        c = c + 1;
    }
    let ghost xw = amounts_fn(amounts@);
    if min_per_class > 0 {
        let mut c: usize = 0;
        while c < k
            invariant
                c <= k,
                k == comps@.len(),
                cs == idx_comps(comps@),
                class_totals@.len() == k,
                full_ok(xw, cnts, cs, max_per_class as int, mdl as int),
                mdl == (if mdl_in > 1 { mdl_in } else { 1 }),
                cnts == u32s(counts@),
                xw == amounts_fn(amounts@),
                forall|x: int| 0 <= x < k ==> #[trigger] class_totals@[x] == class_sum(xw, cs, x),
                forall|x: int| 0 <= x < c ==> #[trigger] class_totals@[x] == 0 || class_totals@[x] >= min_per_class,
            decreases k - c,
        {
            let t = class_totals[c];
            if t > 0 && t < min_per_class {
                proof {
                    assert(class_sum(xw, cs, c as int) == t);
                    assert(!sums_min_ok(xw, cs, min_per_class as int));
                    let md: int = effective_dual_min(mdl_in);
                    assert(full_ok(xw, cnts, cs, max_per_class as int, md));
                    assert(exists|x: spec_fn(int, int) -> int|
                        #[trigger] full_ok(x, cnts, cs, max_per_class as int, md) && !sums_min_ok(x, cs, min_per_class as int));
                }
                return None;
            }
            c = c + 1;
        }
    }
    proof {
        assert forall|x: int| 0 <= x < k && min_per_class > 0 implies #[trigger] class_sum(xw, cs, x) == 0 || class_sum(
            xw,
            cs,
            x,
        ) >= min_per_class by {
            assert(class_totals@[x] == class_sum(xw, cs, x));
        }
        assert(sums_min_ok(xw, cs, min_per_class as int));
    }
    let mut c: usize = 0;
    while c < k
        invariant
            c <= k,
            k == comps@.len(),
            cs == idx_comps(comps@),
            amounts@.len() == k,
            forall|x: int| 0 <= x < k ==> (#[trigger] amounts@[x])@.len() == comps@[x]@.len(),
            full_ok(amounts_fn(amounts@), cnts, cs, max_per_class as int, mdl as int),
        decreases k - c,
    {
        if comps[c].len() == 2 {
            let mut j: usize = 0;
            while j < 2
                invariant
                    c < k,
                    j <= 2,
                    amounts@.len() == k,
                    k == comps@.len(),
                    comps@[c as int]@.len() == 2,
                    amounts@[c as int]@.len() == 2,
                    cs == idx_comps(comps@),
                    full_ok(amounts_fn(amounts@), cnts, cs, max_per_class as int, mdl as int),
                decreases 2 - j,
            {
                assert(cs[c as int].len() == 2);
                assert(amounts_fn(amounts@)(c as int, j as int) >= mdl);
                if amounts[c][j] < mdl {
                    return None;
                }
                j = j + 1;
            }
        }
        c = c + 1;
    }
    proof {
        let md: int = effective_dual_min(mdl_in);
        assert(full_ok(xw, cnts, cs, max_per_class as int, md));
        assert(sums_min_ok(xw, cs, min_per_class as int));
        assert(exists|x: spec_fn(int, int) -> int|
            #[trigger] full_ok(x, cnts, cs, max_per_class as int, md) && sums_min_ok(x, cs, min_per_class as int)
                && amounts_fn(amounts@) == x);
    }
    Some((amounts, class_totals))
}

// ---------------------------------------------------------------------------
// The public interface, over level names.
// ---------------------------------------------------------------------------

/// For each class, in class order, the levels it receives pupils from and
/// how many; and the size of each class.
#[derive(Debug, Clone)]
pub struct Assignment {
    /// class index -> (level, number of pupils), levels in the order of the
    /// class composition, only levels with at least one pupil.
    pub per_class: Vec<Vec<(LevelId, u32)>>,
    pub class_totals: Vec<u32>,
}

/// No level name occurs twice.
pub open spec fn names_distinct(lc: Seq<(LevelId, u32)>) -> bool {
    forall|i: int, j: int| 0 <= i < lc.len() && 0 <= j < lc.len() && i != j ==> #[trigger] lc[i].0@ != #[trigger] lc[j].0@
}

/// No level occurs twice in a class composition.
pub open spec fn class_names_distinct(names: Seq<LevelId>) -> bool {
    forall|i: int, j: int| 0 <= i < names.len() && 0 <= j < names.len() && i != j ==> #[trigger] names[i]@ != #[trigger] names[j]@
}

/// Position of the level called `name`, or -1.
pub open spec fn level_pos(lc: Seq<(LevelId, u32)>, name: Seq<char>) -> int {
    if exists|i: int| 0 <= i < lc.len() && #[trigger] lc[i].0@ == name {
        choose|i: int| 0 <= i < lc.len() && #[trigger] lc[i].0@ == name
    } else {
        -1
    }
}

/// Every level named in a class composition has a count.
pub open spec fn all_known(classes: Seq<Vec<LevelId>>, lc: Seq<(LevelId, u32)>) -> bool {
    forall|c: int, j: int| 0 <= c < classes.len() && 0 <= j < classes[c]@.len() ==> level_pos(lc, #[trigger] classes[c]@[j]@) >= 0
}

/// The class compositions as level positions.
pub open spec fn class_levels(classes: Seq<Vec<LevelId>>, lc: Seq<(LevelId, u32)>) -> Seq<Seq<int>> {
    Seq::new(classes.len(), |c: int| Seq::new(classes[c]@.len(), |j: int| level_pos(lc, classes[c]@[j]@)))
}

/// The pupil counts, by level position.
pub open spec fn level_counts_of(lc: Seq<(LevelId, u32)>) -> Seq<int> {
    Seq::new(lc.len(), |i: int| lc[i].1 as int)
}

/// The minimum per level in a two-level class is never taken below 1.
pub open spec fn effective_dual_min(m: u32) -> int {
    if m > 1 {
        m as int
    } else {
        1
    }
}

/// `(names[j], amounts[j])` for the `j` with a positive amount, in order.
pub open spec fn positive_entries(names: Seq<LevelId>, amounts: Seq<u32>) -> Seq<(LevelId, u32)>
    decreases names.len(),
{
    if names.len() == 0 || amounts.len() == 0 {
        Seq::empty()
    } else {
        let rest = positive_entries(names.drop_first(), amounts.drop_first());
        if amounts[0] > 0 {
            seq![(names[0], amounts[0])] + rest
        } else {
            rest
        }
    }
}

/// Number of pupils an entry list gives to the level called `name`.
pub open spec fn entry_amount(entries: Seq<(LevelId, u32)>, name: Seq<char>) -> int
    decreases entries.len(),
{
    if entries.len() == 0 {
        0
    } else if entries[0].0@ == name {
        entries[0].1 as int
    } else {
        entry_amount(entries.drop_first(), name)
    }
}

/// Pupils that `a` places in class `c` from its `j`-th level.
pub open spec fn placed(a: Assignment, classes: Seq<Vec<LevelId>>) -> spec_fn(int, int) -> int {
    |c: int, j: int| entry_amount(a.per_class@[c]@, classes[c]@[j]@)
}

/// What `feasible_assignment` promises of an assignment it returns.
pub open spec fn assignment_ok(
    a: Assignment,
    classes: Seq<Vec<LevelId>>,
    lc: Seq<(LevelId, u32)>,
    max_per_class: u32,
    min_per_class: u32,
    min_dual: u32,
) -> bool {
    let cs = class_levels(classes, lc);
    &&& a.per_class@.len() == classes.len()
    &&& a.class_totals@.len() == classes.len()
    &&& forall|c: int|
        0 <= c < classes.len() ==> #[trigger] a.per_class@[c]@ == positive_entries(
            classes[c]@,
            Seq::new(classes[c]@.len(), |j: int| placed(a, classes)(c, j) as u32),
        )
    &&& full_ok(placed(a, classes), level_counts_of(lc), cs, max_per_class as int, effective_dual_min(min_dual))
    &&& forall|c: int| 0 <= c < classes.len() ==> #[trigger] a.class_totals@[c] == class_sum(placed(a, classes), cs, c)
    &&& min_ok(a.class_totals@, min_per_class as int)
}

proof fn lemma_positive_entries(names: Seq<LevelId>, amounts: Seq<u32>, j: int)
    requires
        class_names_distinct(names),
        names.len() == amounts.len(),
        0 <= j < names.len(),
    ensures
        entry_amount(positive_entries(names, amounts), names[j]@) == amounts[j],
    decreases names.len(),
{
    let rest = positive_entries(names.drop_first(), amounts.drop_first());
    if j == 0 {
        if amounts[0] > 0 {
            assert((seq![(names[0], amounts[0])] + rest)[0] == (names[0], amounts[0]));
        } else {
            lemma_positive_entries_absent(names.drop_first(), amounts.drop_first(), names[0]@);
        }
    } else {
        assert(class_names_distinct(names.drop_first())) by {
            assert forall|a: int, b: int| 0 <= a < names.len() - 1 && 0 <= b < names.len() - 1 && a != b implies #[trigger] names.drop_first()[a]@
                != #[trigger] names.drop_first()[b]@ by {
                assert(names[a + 1]@ != names[b + 1]@);
            }
        }
        lemma_positive_entries(names.drop_first(), amounts.drop_first(), j - 1);
        assert(names[0]@ != names[j]@);
        if amounts[0] > 0 {
            let s = seq![(names[0], amounts[0])] + rest;
            assert(s.drop_first() =~= rest);
        }
    }
}

proof fn lemma_positive_entries_absent(names: Seq<LevelId>, amounts: Seq<u32>, name: Seq<char>)
    requires
        forall|i: int| 0 <= i < names.len() ==> #[trigger] names[i]@ != name,
    ensures
        entry_amount(positive_entries(names, amounts), name) == 0,
    decreases names.len(),
{
    if names.len() > 0 && amounts.len() > 0 {
        let rest = positive_entries(names.drop_first(), amounts.drop_first());
        assert forall|i: int| 0 <= i < names.len() - 1 implies #[trigger] names.drop_first()[i]@ != name by {
            assert(names[i + 1]@ != name);
        }
        lemma_positive_entries_absent(names.drop_first(), amounts.drop_first(), name);
        if amounts[0] > 0 {
            let s = seq![(names[0], amounts[0])] + rest;
            assert(s.drop_first() =~= rest);
            assert(names[0]@ != name);
        }
    }
}

proof fn lemma_positive_entries_push(names: Seq<LevelId>, amounts: Seq<u32>, j: int)
    requires
        0 <= j < names.len(),
        names.len() == amounts.len(),
    ensures
        positive_entries(names.take(j + 1), amounts.take(j + 1)) == positive_entries(names.take(j), amounts.take(j)) + if amounts[j] > 0 {
            seq![(names[j], amounts[j])]
        } else {
            Seq::empty()
        },
    decreases j,
{
    let n1 = names.take(j + 1);
    let a1 = amounts.take(j + 1);
    let tail = if amounts[j] > 0 {
        seq![(names[j], amounts[j])]
    } else {
        Seq::<(LevelId, u32)>::empty()
    };
    let r1 = positive_entries(n1.drop_first(), a1.drop_first());
    if j == 0 {
        assert(n1.drop_first().len() == 0);
        assert(r1 == Seq::<(LevelId, u32)>::empty());
        assert(names.take(0).len() == 0);
        assert(positive_entries(names.take(0), amounts.take(0)) == Seq::<(LevelId, u32)>::empty());
        if amounts[0] > 0 {
            assert(positive_entries(n1, a1) == seq![(n1[0], a1[0])] + r1);
            assert(seq![(n1[0], a1[0])] + r1 =~= tail);
            assert(Seq::<(LevelId, u32)>::empty() + tail =~= tail);
        } else {
            assert(Seq::<(LevelId, u32)>::empty() + tail =~= tail);
        }
    } else {
        lemma_positive_entries_push(names.drop_first(), amounts.drop_first(), j - 1);
        assert(n1.drop_first() =~= names.drop_first().take(j));
        assert(a1.drop_first() =~= amounts.drop_first().take(j));
        let n0 = names.take(j);
        let a0 = amounts.take(j);
        assert(n0.drop_first() =~= names.drop_first().take(j - 1));
        assert(a0.drop_first() =~= amounts.drop_first().take(j - 1));
        let r0 = positive_entries(names.drop_first().take(j - 1), amounts.drop_first().take(j - 1));
        assert(names.drop_first()[j - 1] == names[j]);
        assert(amounts.drop_first()[j - 1] == amounts[j]);
        assert(r1 == r0 + tail);
        assert(n0.len() > 0 && a0.len() > 0);
        assert(positive_entries(n0, a0) == if amounts[0] > 0 {
            seq![(names[0], amounts[0])] + r0
        } else {
            r0
        });
        assert(positive_entries(n1, a1) == if amounts[0] > 0 {
            seq![(names[0], amounts[0])] + r1
        } else {
            r1
        });
        if amounts[0] > 0 {
            assert(seq![(names[0], amounts[0])] + (r0 + tail) =~= (seq![(names[0], amounts[0])] + r0) + tail);
        }
    }
}

/// Position of the level called `name` in `level_counts`.
pub(crate) fn find_level(level_counts: &Vec<(LevelId, u32)>, name: &LevelId) -> (r: Option<usize>)
    requires
        names_distinct(level_counts@),
    ensures
        r matches Some(i) ==> i < level_counts@.len() && i == level_pos(level_counts@, name@),
        r is None ==> level_pos(level_counts@, name@) == -1,
{
    let mut i: usize = 0;
    while i < level_counts.len()
        invariant
            i <= level_counts@.len(),
            names_distinct(level_counts@),
            forall|x: int| 0 <= x < i ==> #[trigger] level_counts@[x].0@ != name@,
        decreases level_counts@.len() - i,
    {
        if level_counts[i].0 == *name {
            proof {
                let p = level_pos(level_counts@, name@);
                assert(level_counts@[i as int].0@ == name@);
                assert(0 <= p < level_counts@.len() && level_counts@[p].0@ == name@);
                if p != i {
                    let lcs = level_counts@;
                    assert(names_distinct(lcs));
                    assert(lcs[p].0@ != lcs[i as int].0@);
                }
            }
            return Some(i);
        }
        i = i + 1;
    }
    None
}

/// In an assignment that `feasible_assignment` may return, every level of a
/// two-level class receives at least `min_per_level_in_dual_class` pupils
/// there, and at least one.
pub proof fn lemma_dual_minimum_kept(
    a: Assignment,
    classes: Seq<Vec<LevelId>>,
    lc: Seq<(LevelId, u32)>,
    max_per_class: u32,
    min_per_class: u32,
    min_per_level_in_dual_class: u32,
)
    requires
        assignment_ok(a, classes, lc, max_per_class, min_per_class, min_per_level_in_dual_class),
    ensures
        forall|c: int, j: int|
            0 <= c < classes.len() && classes[c]@.len() == 2 && 0 <= j < 2 ==> #[trigger] placed(a, classes)(c, j)
                >= min_per_level_in_dual_class && placed(a, classes)(c, j) >= 1,
{
    let cs = class_levels(classes, lc);
    assert forall|c: int, j: int|
        0 <= c < classes.len() && classes[c]@.len() == 2 && 0 <= j < 2 implies #[trigger] placed(a, classes)(c, j)
        >= min_per_level_in_dual_class && placed(a, classes)(c, j) >= 1 by {
        assert(cs[c].len() == 2);
    }
}

/// Feasibility of a composition and an integral assignment of the pupils.
/// `classes[i]` lists the levels of class `i` (one or two levels). In every
/// two-level class at least `min_per_level_in_dual_class` pupils (at least
/// one) of each of its two levels are reserved before the residual flow is
/// computed; no class holds more than `max_per_class` pupils, and when
/// `min_per_class > 0` every class holding pupils holds at least that many.
/// When some placement respects the class size and the two-level minimum,
/// the maximum flow gives one, and the answer is that placement exactly when
/// it also meets `min_per_class`.
pub fn feasible_assignment(
    classes: &[Vec<LevelId>],
    level_counts: &Vec<(LevelId, u32)>,
    max_per_class: u32,
    min_per_class: u32,
    min_per_level_in_dual_class: u32,
) -> (res: Option<Assignment>)
    requires
        names_distinct(level_counts@),
        forall|c: int| 0 <= c < classes@.len() ==> class_names_distinct(#[trigger] classes@[c]@),
        level_counts@.len() + classes@.len() + 2 < 0x4000_0000,
    ensures
        ({
            let cnts = level_counts_of(level_counts@);
            let cs = class_levels(classes@, level_counts@);
            let mdl = effective_dual_min(min_per_level_in_dual_class);
            &&& !all_known(classes@, level_counts@) ==> res is None
            &&& all_known(classes@, level_counts@) && !reserve_ok(cnts, cs, max_per_class as int, mdl) ==> res is None
            &&& res matches Some(a) ==> all_known(classes@, level_counts@) && assignment_ok(
                a,
                classes@,
                level_counts@,
                max_per_class,
                min_per_class,
                min_per_level_in_dual_class,
            )
            &&& min_per_class == 0 ==> (res is Some <==> all_known(classes@, level_counts@) && feasible_idx(
                cnts,
                cs,
                max_per_class as int,
                mdl,
            ))
            &&& res matches Some(a) ==> forall|c: int, j: int|
                0 <= c < classes@.len() && classes@[c]@.len() == 2 && 0 <= j < 2 ==> #[trigger] placed(a, classes@)(c, j)
                    >= min_per_level_in_dual_class && placed(a, classes@)(c, j) >= 1
            &&& all_known(classes@, level_counts@) && feasible_idx(cnts, cs, max_per_class as int, mdl) ==> exists|
                x: spec_fn(int, int) -> int,
            |
                #[trigger] full_ok(x, cnts, cs, max_per_class as int, mdl) && (res is Some <==> sums_min_ok(
                    x,
                    cs,
                    min_per_class as int,
                )) && (res matches Some(a) ==> forall|c: int, j: int|
                    0 <= c < cs.len() && 0 <= j < cs[c].len() ==> #[trigger] placed(a, classes@)(c, j) == x(c, j))
        }),
{
    let ghost lc = level_counts@;
    let ghost cl = class_levels(classes@, lc);
    let nl = level_counts.len();
    let k = classes.len();
    let mut comps: Vec<Vec<usize>> = Vec::new();
    let mut c: usize = 0;
    while c < k
        invariant
            c <= k,
            k == classes@.len(),
            nl == lc.len(),
            lc == level_counts@,
            cl == class_levels(classes@, lc),
            names_distinct(lc),
            comps@.len() == c,
            forall|x: int| 0 <= x < c ==> (#[trigger] comps@[x])@.len() == classes@[x]@.len(),
            forall|x: int, j: int|
                0 <= x < c && 0 <= j < classes@[x]@.len() ==> #[trigger] comps@[x]@[j] as int == cl[x][j] && comps@[x]@[j] < nl,
        decreases k - c,
    {
        let m = classes[c].len();
        let mut row: Vec<usize> = Vec::new();
        let mut j: usize = 0;
        while j < m
            invariant
                c < k,
                k == classes@.len(),
                nl == lc.len(),
                lc == level_counts@,
                cl == class_levels(classes@, lc),
                names_distinct(lc),
                m == classes@[c as int]@.len(),
                j <= m,
                row@.len() == j,
                forall|jj: int| 0 <= jj < j ==> #[trigger] row@[jj] as int == cl[c as int][jj] && row@[jj] < nl,
            decreases m - j,
        {
            match find_level(level_counts, &classes[c][j]) {
                Some(i) => {
                    row.push(i);
                },
                None => {
                    proof {
                        assert(level_pos(lc, classes@[c as int]@[j as int]@) < 0);
                        assert(!all_known(classes@, lc));
                    }
                    return None;
                },
            }
            j = j + 1;
        }
        comps.push(row);
        c = c + 1;
    }
    let ghost cs = idx_comps(comps@);
    proof {
        assert forall|x: int| 0 <= x < k implies #[trigger] cs[x] =~= cl[x] by {
        }
        assert(cs =~= cl);
        assert forall|x: int, j: int| 0 <= x < classes@.len() && 0 <= j < classes@[x]@.len() implies level_pos(lc, #[trigger] classes@[x]@[j]@) >= 0 by {
            assert(comps@[x]@[j] as int == cl[x][j]);
        }
        assert forall|x: int, j: int, q: int|
            0 <= x < cs.len() && 0 <= j < cs[x].len() && 0 <= q < cs[x].len() && j != q implies #[trigger] cs[x][j] != #[trigger] cs[x][q] by {
            assert(class_names_distinct(classes@[x]@));
            let pj = level_pos(lc, classes@[x]@[j]@);
            let pq = level_pos(lc, classes@[x]@[q]@);
            assert(comps@[x]@[j] as int == pj);
            assert(comps@[x]@[q] as int == pq);
            if pj == pq {
                assert(exists|i: int| 0 <= i < lc.len() && #[trigger] lc[i].0@ == classes@[x]@[j]@);
                assert(exists|i: int| 0 <= i < lc.len() && #[trigger] lc[i].0@ == classes@[x]@[q]@);
                assert(lc[pj].0@ == classes@[x]@[j]@);
                assert(lc[pq].0@ == classes@[x]@[q]@);
            }
        }
        assert forall|x: int, j: int| 0 <= x < cs.len() && 0 <= j < cs[x].len() implies 0 <= #[trigger] cs[x][j] < nl by {
            assert(comps@[x]@[j] < nl);
        }
    }
    let mut counts: Vec<u32> = Vec::new();
    let mut i: usize = 0;
    while i < nl
        invariant
            i <= nl,
            nl == lc.len(),
            lc == level_counts@,
            counts@.len() == i,
            forall|x: int| 0 <= x < i ==> #[trigger] counts@[x] == lc[x].1,
        decreases nl - i,
    {
        counts.push(level_counts[i].1);
        i = i + 1;
    }
    proof {
        assert(u32s(counts@) =~= level_counts_of(lc));
    }
    let r = flow_assignment(&counts, &comps, max_per_class, min_per_class, min_per_level_in_dual_class);
    let ghost mdl = effective_dual_min(min_per_level_in_dual_class);
    let ghost cnts = level_counts_of(lc);
    let (amounts, class_totals) = match r {
        Some(t) => t,
        None => {
            proof {
                if feasible_idx(cnts, cs, max_per_class as int, mdl) {
                    let x = choose|x: spec_fn(int, int) -> int|
                        #[trigger] full_ok(x, cnts, cs, max_per_class as int, mdl) && (r is Some <==> sums_min_ok(
                            x,
                            cs,
                            min_per_class as int,
                        ));
                    assert(full_ok(x, cnts, cl, max_per_class as int, mdl) && !sums_min_ok(x, cl, min_per_class as int));
                }
            }
            return None;
        },
    };
    let ghost xf = amounts_fn(amounts@);
    let mut per_class: Vec<Vec<(LevelId, u32)>> = Vec::new();
    let mut c: usize = 0;
    while c < k
        invariant
            c <= k,
            k == classes@.len(),
            amounts@.len() == k,
            forall|x: int| 0 <= x < k ==> (#[trigger] amounts@[x])@.len() == classes@[x]@.len(),
            per_class@.len() == c,
            forall|x: int| 0 <= x < c ==> #[trigger] per_class@[x]@ == positive_entries(classes@[x]@, amounts@[x]@),
        decreases k - c,
    {
        let m = classes[c].len();
        let mut entries: Vec<(LevelId, u32)> = Vec::new();
        let mut j: usize = 0;
        while j < m
            invariant
                c < k,
                k == classes@.len(),
                amounts@.len() == k,
                m == classes@[c as int]@.len(),
                m == amounts@[c as int]@.len(),
                j <= m,
                entries@ == positive_entries(classes@[c as int]@.take(j as int), amounts@[c as int]@.take(j as int)),
            decreases m - j,
        {
            proof {
                lemma_positive_entries_push(classes@[c as int]@, amounts@[c as int]@, j as int);
            }
            let v = amounts[c][j];
            if v > 0 {
                let name = classes[c][j].clone();
                entries.push((name, v));
            }
            j = j + 1;
        }
        proof {
            assert(classes@[c as int]@.take(m as int) =~= classes@[c as int]@);
            assert(amounts@[c as int]@.take(m as int) =~= amounts@[c as int]@);
        }
        per_class.push(entries);
        c = c + 1;
    }
    let a = Assignment { per_class, class_totals };
    proof {
        let pl = placed(a, classes@);
        assert forall|x: int, j: int| 0 <= x < cs.len() && 0 <= j < cs[x].len() implies #[trigger] pl(x, j) == amounts_fn(amounts@)(x, j) by {
            lemma_positive_entries(classes@[x]@, amounts@[x]@, j);
        }
        lemma_full_ok_ext(amounts_fn(amounts@), pl, level_counts_of(lc), cs, max_per_class as int, effective_dual_min(min_per_level_in_dual_class));
        assert forall|x: int| 0 <= x < k implies #[trigger] a.per_class@[x]@ == positive_entries(
            classes@[x]@,
            Seq::new(classes@[x]@.len(), |j: int| pl(x, j) as u32),
        ) by {
            assert forall|j: int| 0 <= j < classes@[x]@.len() implies pl(x, j) == amounts@[x]@[j] by {
                lemma_positive_entries(classes@[x]@, amounts@[x]@, j);
            }
            assert(Seq::new(classes@[x]@.len(), |j: int| pl(x, j) as u32) =~= amounts@[x]@);
        }
        assert forall|x: int| 0 <= x < k implies #[trigger] a.class_totals@[x] == class_sum(pl, cs, x) by {
            lemma_sum_ext(cs[x].len() as int, row_of(amounts_fn(amounts@), x), row_of(pl, x));
        }
        lemma_dual_minimum_kept(a, classes@, lc, max_per_class, min_per_class, min_per_level_in_dual_class);
        if feasible_idx(cnts, cs, max_per_class as int, mdl) {
            let x = choose|x: spec_fn(int, int) -> int|
                #[trigger] full_ok(x, cnts, cs, max_per_class as int, mdl) && (r is Some <==> sums_min_ok(
                    x,
                    cs,
                    min_per_class as int,
                )) && (r matches Some((am, tt)) ==> amounts_fn(am@) == x);
            assert(x == xf);
            assert(full_ok(xf, cnts, cl, max_per_class as int, mdl) && sums_min_ok(xf, cl, min_per_class as int));
        }
    }
    Some(a)
}


/// The class totals, as a function of the class index.
pub open spec fn totals_fn(a: Assignment) -> spec_fn(int) -> int {
    |c: int| a.class_totals@[c] as int
}

/// The pupil counts, as a function of the level index.
pub open spec fn counts_fn(lc: Seq<(LevelId, u32)>) -> spec_fn(int) -> int {
    |l: int| lc[l].1 as int
}

/// Every level.
pub open spec fn every_level() -> spec_fn(int) -> bool {
    |l: int| true
}

/// Class compositions over distinct, known level names become compositions
/// of distinct level positions.
pub(crate) proof fn lemma_class_levels_ok(classes: Seq<Vec<LevelId>>, lc: Seq<(LevelId, u32)>)
    requires
        names_distinct(lc),
        forall|c: int| 0 <= c < classes.len() ==> class_names_distinct(#[trigger] classes[c]@),
        all_known(classes, lc),
    ensures
        comps_ok(class_levels(classes, lc), lc.len() as int),
{
    let cs = class_levels(classes, lc);
    assert forall|x: int, j: int| 0 <= x < cs.len() && 0 <= j < cs[x].len() implies 0 <= #[trigger] cs[x][j] < lc.len() by {
        assert(level_pos(lc, classes[x]@[j]@) >= 0);
    }
    assert forall|x: int, j: int, q: int|
        0 <= x < cs.len() && 0 <= j < cs[x].len() && 0 <= q < cs[x].len() && j != q implies #[trigger] cs[x][j]
        != #[trigger] cs[x][q] by {
        assert(class_names_distinct(classes[x]@));
        let pj = level_pos(lc, classes[x]@[j]@);
        let pq = level_pos(lc, classes[x]@[q]@);
        assert(pj >= 0 && pq >= 0);
        if pj == pq {
            assert(exists|i: int| 0 <= i < lc.len() && #[trigger] lc[i].0@ == classes[x]@[j]@);
            assert(exists|i: int| 0 <= i < lc.len() && #[trigger] lc[i].0@ == classes[x]@[q]@);
            assert(lc[pj].0@ == classes[x]@[j]@);
            assert(lc[pq].0@ == classes[x]@[q]@);
        }
    }
}

/// Every pupil is placed: the class totals of an assignment that
/// `feasible_assignment` returns add up to the number of pupils.
pub proof fn lemma_assignment_places_all(
    a: Assignment,
    classes: Seq<Vec<LevelId>>,
    lc: Seq<(LevelId, u32)>,
    max_per_class: u32,
    min_per_class: u32,
    min_dual: u32,
)
    requires
        names_distinct(lc),
        forall|c: int| 0 <= c < classes.len() ==> class_names_distinct(#[trigger] classes[c]@),
        all_known(classes, lc),
        assignment_ok(a, classes, lc, max_per_class, min_per_class, min_dual),
    ensures
        sum_up(classes.len() as int, totals_fn(a)) == sum_up(lc.len() as int, counts_fn(lc)),
{
    let cs = class_levels(classes, lc);
    let w = placed(a, classes);
    let nl = lc.len() as int;
    let p = every_level();
    lemma_class_levels_ok(classes, lc);
    lemma_level_sum_exchange(w, cs, nl, p);
    assert forall|l: int| 0 <= l < nl implies #[trigger] masked_levels(w, cs, p)(l) == counts_fn(lc)(l) by {
        assert(level_sum(w, cs, l) == level_counts_of(lc)[l]);
    }
    lemma_sum_ext(nl, masked_levels(w, cs, p), counts_fn(lc));
    assert forall|c: int| 0 <= c < cs.len() implies #[trigger] masked_classes(w, cs, p)(c) == totals_fn(a)(c) by {
        assert forall|j: int| 0 <= j < cs[c].len() implies #[trigger] masked_entries(w, cs, p, c)(j) == row_of(w, c)(j) by {
        }
        lemma_sum_ext(cs[c].len() as int, masked_entries(w, cs, p, c), row_of(w, c));
        assert(a.class_totals@[c] == class_sum(w, cs, c));
    }
    lemma_sum_ext(cs.len() as int, masked_classes(w, cs, p), totals_fn(a));
}

} // verus!
