//! Enumeration of class compositions (one or two levels per class): the
//! pruned depth-first search, the random draws and the keys that tell plans
//! apart.

use vstd::prelude::*;
use vstd::multiset::Multiset;
use rand::rngs::ThreadRng;
use rand::seq::SliceRandom;
use crate::config::{AppConfig, LevelData, LevelId, in_group, group_contains, pair_listed};
use crate::roster::level_names_distinct;
use crate::flow::{
    Assignment, feasible_assignment, assignment_ok, all_known, class_names_distinct, feasible_idx, level_counts_of,
    class_levels, effective_dual_min, level_pos, find_level, names_distinct, reserve_ok, placed, full_ok,
    sums_min_ok, class_sum, class_part, level_fn, level_sum, lemma_class_levels_ok, lemma_class_part,
};
use crate::sums::{sum_up, row_of, lemma_sum_ge_term};
use crate::strings::{
    views, name_order, name_le, name_less, sort_names, join_names, joined, lemma_name_order_total, lemma_name_order,
    parts_ok, lemma_joined_chars, lemma_joined_injective,
};

verus! {

/// The levels of a class, as values.
pub open spec fn comps(v: Seq<Vec<LevelId>>) -> Seq<Seq<LevelId>> {
    Seq::new(v.len(), |i: int| v[i]@)
}

/// A copy of a composition.
fn copy_names(c: &Vec<LevelId>) -> (r: Vec<LevelId>)
    ensures
        r@ == c@,
{
    let mut r: Vec<LevelId> = Vec::new();
    let mut i: usize = 0;
    while i < c.len()
        invariant
            i <= c@.len(),
            r@ == c@.take(i as int),
        decreases c@.len() - i,
    {
        r.push(c[i].clone());
        proof {
            assert(r@ =~= c@.take(i + 1));
        }
        i = i + 1;
    }
    proof {
        assert(c@.take(i as int) =~= c@);
    }
    r
}

/// A copy of a list of compositions.
fn copy_compositions(v: &Vec<Vec<LevelId>>) -> (r: Vec<Vec<LevelId>>)
    ensures
        comps(r@) == comps(v@),
{
    let mut r: Vec<Vec<LevelId>> = Vec::new();
    let mut i: usize = 0;
    while i < v.len()
        invariant
            i <= v@.len(),
            comps(r@) == comps(v@).take(i as int),
            r@.len() == i,
        decreases v@.len() - i,
    {
        let c = copy_names(&v[i]);
        let ghost before = r@;
        r.push(c);
        proof {
            assert(r@ == before.push(c));
            assert(before.len() == i);
            assert(r@.len() == i + 1);
            assert(r@[i as int]@ == v@[i as int]@);
            assert(comps(r@) =~= comps(v@).take(i + 1)) by {
                assert forall|x: int| 0 <= x < i + 1 implies comps(r@)[x] == comps(v@).take(i + 1)[x] by {
                    if x < i {
                        assert(comps(before)[x] == comps(v@).take(i as int)[x]);
                        assert(r@[x] == before[x]);
                    }
                }
            }
        }
        i = i + 1;
    }
    proof {
        assert(comps(v@).take(i as int) =~= comps(v@));
    }
    r
}

// ---------------------------------------------------------------------------
// The key of a composition.
// ---------------------------------------------------------------------------

/// The key of one class: its levels sorted, joined with `+`.
pub open spec fn composition_key(c: Seq<LevelId>) -> Seq<char> {
    joined(views(c).sort_by(name_order()), seq!['+'])
}

/// The key of a composition: the keys of its classes sorted, joined with
/// `|`. It does not depend on the order of the classes.
pub open spec fn pattern_key_of(classes: Seq<Vec<LevelId>>) -> Seq<char> {
    joined(Seq::new(classes.len(), |i: int| composition_key(classes[i]@)).sort_by(name_order()), seq!['|'])
}

/// The key of a composition (see `pattern_key_of`).
pub fn pattern_key(classes: &[Vec<LevelId>]) -> (r: String)
    ensures
        r@ == pattern_key_of(classes@),
{
    let mut parts: Vec<String> = Vec::new();
    let mut i: usize = 0;
    while i < classes.len()
        invariant
            i <= classes@.len(),
            parts@.len() == i,
            forall|x: int| 0 <= x < i ==> #[trigger] parts@[x]@ == composition_key(classes@[x]@),
        decreases classes@.len() - i,
    {
        let c = sort_names(&classes[i]);
        let part = join_names(&c, "+");
        proof {
            reveal_strlit("+");
            assert("+"@ =~= seq!['+']);
        }
        parts.push(part);
        i = i + 1;
    }
    let sorted = sort_names(&parts);
    proof {
        assert(views(parts@) =~= Seq::new(classes@.len(), |x: int| composition_key(classes@[x]@)));
        reveal_strlit("|");
        assert("|"@ =~= seq!['|']);
    }
    join_names(&sorted, "|")
}

/// Each class as the multiset of its level names.
pub open spec fn class_sets(classes: Seq<Vec<LevelId>>) -> Seq<Multiset<Seq<char>>> {
    Seq::new(classes.len(), |i: int| views(classes[i]@).to_multiset())
}

/// Some sequence with the elements of `ms`.
pub open spec fn some_seq_of(ms: Multiset<Seq<char>>) -> Seq<Seq<char>> {
    choose|s: Seq<Seq<char>>| s.to_multiset() == ms
}

/// The key of a class given as a multiset of level names.
pub open spec fn set_key(ms: Multiset<Seq<char>>) -> Seq<char> {
    joined(some_seq_of(ms).sort_by(name_order()), seq!['+'])
}

/// `set_key`, as a function value.
pub open spec fn set_key_fn() -> spec_fn(Multiset<Seq<char>>) -> Seq<char> {
    |ms: Multiset<Seq<char>>| set_key(ms)
}

/// Sequences with the same elements sort alike.
proof fn lemma_sort_same(x: Seq<Seq<char>>, y: Seq<Seq<char>>)
    requires
        x.to_multiset() == y.to_multiset(),
    ensures
        x.sort_by(name_order()) == y.sort_by(name_order()),
{
    lemma_name_order_total();
    x.lemma_sort_by_ensures(name_order());
    y.lemma_sort_by_ensures(name_order());
    vstd::seq_lib::lemma_sorted_unique(x.sort_by(name_order()), y.sort_by(name_order()), name_order());
}

/// The key of a class depends only on its multiset of level names.
proof fn lemma_composition_key_set(c: Seq<LevelId>)
    ensures
        composition_key(c) == set_key(views(c).to_multiset()),
{
    let ms = views(c).to_multiset();
    assert(exists|s: Seq<Seq<char>>| s.to_multiset() == ms) by {
        assert(views(c).to_multiset() == ms);
    }
    let t = some_seq_of(ms);
    assert(t.to_multiset() == ms);
    lemma_sort_same(views(c), t);
}

/// Mapping the elements of two sequences with the same elements gives
/// sequences with the same elements.
proof fn lemma_map_multiset<A, B>(x: Seq<A>, y: Seq<A>, f: spec_fn(A) -> B)
    requires
        x.to_multiset() == y.to_multiset(),
    ensures
        x.map_values(f).to_multiset() == y.map_values(f).to_multiset(),
    decreases x.len(),
{
    broadcast use vstd::seq_lib::group_to_multiset_ensures;
    broadcast use vstd::multiset::group_multiset_axioms;

    if x.len() == 0 {
        assert(x.to_multiset().len() == 0);
        assert(y.to_multiset().len() == y.len());
        assert(x.map_values(f) =~= Seq::<B>::empty());
        assert(y.map_values(f) =~= Seq::<B>::empty());
    } else {
        let v = x.last();
        assert(x.to_multiset().count(v) > 0) by {
            assert(x.contains(v)) by {
                assert(x[x.len() - 1] == v);
            }
        }
        assert(y.contains(v));
        let i = choose|i: int| 0 <= i < y.len() && y[i] == v;
        let x0 = x.drop_last();
        let y0 = y.remove(i);
        assert(x0.to_multiset() =~= x.to_multiset().remove(v)) by {
            assert(x0 =~= x.remove(x.len() - 1));
        }
        assert(y0.to_multiset() =~= y.to_multiset().remove(v));
        lemma_map_multiset(x0, y0, f);
        assert(x.map_values(f) =~= x0.map_values(f).push(f(v)));
        assert(y.map_values(f).remove(i) =~= y0.map_values(f));
        assert(y.map_values(f)[i] == f(v));
        assert(y.map_values(f).remove(i).to_multiset() =~= y.map_values(f).to_multiset().remove(f(v)));
        assert(y.map_values(f).to_multiset().count(f(v)) > 0) by {
            assert(y.map_values(f).contains(f(v)));
        }
        assert(y.map_values(f).to_multiset() =~= y.map_values(f).to_multiset().remove(f(v)).insert(f(v)));
    }
}

/// The key of a composition does not depend on the order of its classes,
/// nor on the order of the levels within a class: compositions whose
/// classes, each taken as a multiset of level names, form the same multiset
/// have the same key.
pub proof fn lemma_pattern_key_reorder(a: Seq<Vec<LevelId>>, b: Seq<Vec<LevelId>>)
    requires
        class_sets(a).to_multiset() == class_sets(b).to_multiset(),
    ensures
        pattern_key_of(a) == pattern_key_of(b),
{
    let pa = Seq::new(a.len(), |i: int| composition_key(a[i]@));
    let pb = Seq::new(b.len(), |i: int| composition_key(b[i]@));
    lemma_map_multiset(class_sets(a), class_sets(b), set_key_fn());
    assert(pa =~= class_sets(a).map_values(set_key_fn())) by {
        assert forall|i: int| 0 <= i < a.len() implies pa[i] == set_key(#[trigger] class_sets(a)[i]) by {
            lemma_composition_key_set(a[i]@);
        }
    }
    assert(pb =~= class_sets(b).map_values(set_key_fn())) by {
        assert forall|i: int| 0 <= i < b.len() implies pb[i] == set_key(#[trigger] class_sets(b)[i]) by {
            lemma_composition_key_set(b[i]@);
        }
    }
    lemma_sort_same(pa, pb);
}

/// The keys of the classes, in class order.
pub open spec fn class_keys(classes: Seq<Vec<LevelId>>) -> Seq<Seq<char>> {
    Seq::new(classes.len(), |i: int| composition_key(classes[i]@))
}

/// A level name that is not empty and holds neither `+` nor `|`.
pub open spec fn plain_name(name: Seq<char>) -> bool {
    name.len() > 0 && !name.contains('+') && !name.contains('|')
}

/// Every class holds a level at least, and every level name is plain.
pub open spec fn plain_names(classes: Seq<Vec<LevelId>>) -> bool {
    forall|i: int|
        0 <= i < classes.len() ==> (#[trigger] classes[i])@.len() > 0 && forall|j: int|
            0 <= j < classes[i]@.len() ==> plain_name(#[trigger] classes[i]@[j]@)
}

/// The key of a class of plain names is not empty, holds no `|`, and is the
/// join of sorted plain names.
proof fn lemma_composition_key_plain(c: Seq<LevelId>)
    requires
        c.len() > 0,
        forall|j: int| 0 <= j < c.len() ==> plain_name(#[trigger] c[j]@),
    ensures
        composition_key(c).len() > 0,
        !composition_key(c).contains('|'),
        parts_ok(views(c).sort_by(name_order()), '+'),
{
    broadcast use vstd::seq_lib::group_to_multiset_ensures;

    let v = views(c);
    let t = v.sort_by(name_order());
    lemma_name_order_total();
    v.lemma_sort_by_ensures(name_order());
    assert(t.len() == v.len()) by {
        assert(t.to_multiset().len() == v.to_multiset().len());
    }
    assert forall|i: int| 0 <= i < t.len() implies (#[trigger] t[i]).len() > 0 && !t[i].contains('+') && !t[i].contains('|') by {
        assert(t.contains(t[i]));
        assert(v.contains(t[i]));
        let j = choose|j: int| 0 <= j < v.len() && v[j] == t[i];
        assert(v[j] == c[j]@);
        assert(plain_name(c[j]@));
    }
    lemma_joined_chars(t, '+', '|');
}

/// Two classes of plain names with the same key hold the same names.
proof fn lemma_composition_key_injective(c1: Seq<LevelId>, c2: Seq<LevelId>)
    requires
        c1.len() > 0,
        c2.len() > 0,
        forall|j: int| 0 <= j < c1.len() ==> plain_name(#[trigger] c1[j]@),
        forall|j: int| 0 <= j < c2.len() ==> plain_name(#[trigger] c2[j]@),
        composition_key(c1) == composition_key(c2),
    ensures
        views(c1).to_multiset() == views(c2).to_multiset(),
{
    lemma_composition_key_plain(c1);
    lemma_composition_key_plain(c2);
    lemma_name_order_total();
    views(c1).lemma_sort_by_ensures(name_order());
    views(c2).lemma_sort_by_ensures(name_order());
    lemma_joined_injective(views(c1).sort_by(name_order()), views(c2).sort_by(name_order()), '+');
}

/// Compositions of plain names whose class keys form the same multiset have
/// classes that form the same multiset.
proof fn lemma_keys_to_sets(a: Seq<Vec<LevelId>>, b: Seq<Vec<LevelId>>)
    requires
        plain_names(a),
        plain_names(b),
        class_keys(a).to_multiset() == class_keys(b).to_multiset(),
    ensures
        class_sets(a).to_multiset() == class_sets(b).to_multiset(),
    decreases a.len(),
{
    broadcast use vstd::seq_lib::group_to_multiset_ensures;
    broadcast use vstd::multiset::group_multiset_axioms;

    if a.len() == 0 {
        assert(class_keys(a).to_multiset().len() == 0);
        assert(class_keys(b).len() == 0);
        assert(class_sets(a) =~= Seq::<Multiset<Seq<char>>>::empty());
        assert(class_sets(b) =~= Seq::<Multiset<Seq<char>>>::empty());
    } else {
        let n = a.len() - 1;
        let kv = composition_key(a[n]@);
        assert(class_keys(a)[n] == kv);
        assert(class_keys(a).contains(kv));
        assert(class_keys(a).to_multiset().count(kv) > 0);
        assert(class_keys(b).to_multiset().count(kv) > 0);
        assert(class_keys(b).contains(kv));
        let i = choose|i: int| 0 <= i < class_keys(b).len() && class_keys(b)[i] == kv;
        assert(composition_key(b[i]@) == kv);
        assert(a[n]@.len() > 0 && b[i]@.len() > 0);
        assert forall|j: int| 0 <= j < a[n]@.len() implies plain_name(#[trigger] a[n]@[j]@) by {
        }
        assert forall|j: int| 0 <= j < b[i]@.len() implies plain_name(#[trigger] b[i]@[j]@) by {
        }
        lemma_composition_key_injective(a[n]@, b[i]@);
        let a0 = a.drop_last();
        let b0 = b.remove(i);
        assert(plain_names(a0)) by {
            assert forall|x: int| 0 <= x < a0.len() implies (#[trigger] a0[x])@.len() > 0 && forall|j: int|
                0 <= j < a0[x]@.len() ==> plain_name(#[trigger] a0[x]@[j]@) by {
                assert(a0[x] == a[x]);
            }
        }
        assert(plain_names(b0)) by {
            assert forall|x: int| 0 <= x < b0.len() implies (#[trigger] b0[x])@.len() > 0 && forall|j: int|
                0 <= j < b0[x]@.len() ==> plain_name(#[trigger] b0[x]@[j]@) by {
                if x < i {
                    assert(b0[x] == b[x]);
                } else {
                    assert(b0[x] == b[x + 1]);
                }
            }
        }
        assert(class_keys(a0) =~= class_keys(a).drop_last());
        assert(class_keys(b0) =~= class_keys(b).remove(i));
        assert(class_keys(a0).to_multiset() =~= class_keys(a).to_multiset().remove(kv)) by {
            assert(class_keys(a).drop_last() =~= class_keys(a).remove(n));
        }
        assert(class_keys(b0).to_multiset() =~= class_keys(b).to_multiset().remove(kv));
        lemma_keys_to_sets(a0, b0);
        let sv = views(a[n]@).to_multiset();
        assert(class_sets(a) =~= class_sets(a0).push(sv));
        assert(class_sets(b0) =~= class_sets(b).remove(i));
        assert(class_sets(b)[i] == sv);
        assert(class_sets(b0).to_multiset() =~= class_sets(b).to_multiset().remove(sv));
        assert(class_sets(b).to_multiset().count(sv) > 0) by {
            assert(class_sets(b).contains(sv));
        }
        assert(class_sets(b).to_multiset() =~= class_sets(b).to_multiset().remove(sv).insert(sv));
    }
}

/// The key of a composition gives back its classes: when every class holds
/// a level and no level name is empty or holds `+` or `|`, compositions with
/// the same key are reorderings of each other (the classes, each taken as a
/// multiset of level names, form the same multiset). With
/// `lemma_pattern_key_reorder` this makes equal keys exactly reorderings.
pub proof fn lemma_pattern_key_determines(a: Seq<Vec<LevelId>>, b: Seq<Vec<LevelId>>)
    requires
        plain_names(a),
        plain_names(b),
        pattern_key_of(a) == pattern_key_of(b),
    ensures
        class_sets(a).to_multiset() == class_sets(b).to_multiset(),
{
    broadcast use vstd::seq_lib::group_to_multiset_ensures;

    let pa = class_keys(a);
    let pb = class_keys(b);
    let sa = pa.sort_by(name_order());
    let sb = pb.sort_by(name_order());
    lemma_name_order_total();
    pa.lemma_sort_by_ensures(name_order());
    pb.lemma_sort_by_ensures(name_order());
    assert(Seq::new(a.len(), |i: int| composition_key(a[i]@)) =~= pa);
    assert(Seq::new(b.len(), |i: int| composition_key(b[i]@)) =~= pb);
    assert forall|i: int| 0 <= i < pa.len() implies (#[trigger] pa[i]).len() > 0 && !pa[i].contains('|') by {
        assert forall|j: int| 0 <= j < a[i]@.len() implies plain_name(#[trigger] a[i]@[j]@) by {
        }
        lemma_composition_key_plain(a[i]@);
    }
    assert forall|i: int| 0 <= i < pb.len() implies (#[trigger] pb[i]).len() > 0 && !pb[i].contains('|') by {
        assert forall|j: int| 0 <= j < b[i]@.len() implies plain_name(#[trigger] b[i]@[j]@) by {
        }
        lemma_composition_key_plain(b[i]@);
    }
    assert(parts_ok(sa, '|')) by {
        assert forall|i: int| 0 <= i < sa.len() implies (#[trigger] sa[i]).len() > 0 && !sa[i].contains('|') by {
            assert(sa.contains(sa[i]));
            assert(pa.contains(sa[i]));
        }
    }
    assert(parts_ok(sb, '|')) by {
        assert forall|i: int| 0 <= i < sb.len() implies (#[trigger] sb[i]).len() > 0 && !sb[i].contains('|') by {
            assert(sb.contains(sb[i]));
            assert(pb.contains(sb[i]));
        }
    }
    lemma_joined_injective(sa, sb, '|');
    lemma_keys_to_sets(a, b);
}

// ---------------------------------------------------------------------------
// Counting classes.
// ---------------------------------------------------------------------------

/// The fewest classes of at most `max_per` pupils (at least 1) that hold `n`
/// pupils.
pub open spec fn classes_needed(n: u32, max_per: u32) -> int {
    let m: int = if max_per > 1 { max_per as int } else { 1 };
    if n == 0 {
        0
    } else {
        (n + m - 1) / m
    }
}

/// The fewest classes of at most `max_per` pupils (a size of 0 counts as 1)
/// that hold `n` pupils.
pub fn min_classes_for_level(n: u32, max_per: u32) -> (r: usize)
    ensures
        r == classes_needed(n, max_per),
        r * (if max_per > 1 { max_per as int } else { 1 }) >= n,
        r == 0 || (r - 1) * (if max_per > 1 { max_per as int } else { 1 }) < n,
{
    if n == 0 {
        return 0;
    }
    let m: u64 = if max_per > 1 {
        max_per as u64
    } else {
        1
    };
    let t: u64 = n as u64 + m - 1;
    let q: u64 = t / m;
    proof {
        let ni = n as int;
        let mi = m as int;
        let ti = t as int;
        let qi = q as int;
        assert(qi == ti / mi);
        assert(qi * mi <= ti && ti < qi * mi + mi) by (nonlinear_arith)
            requires
                mi >= 1,
                qi == ti / mi,
        ;
        assert(q <= ni) by (nonlinear_arith)
            requires
                mi >= 1,
                ni >= 1,
                t == ni + mi - 1,
                q * mi <= t,
        ;
        assert((q - 1) * mi == q * mi - mi) by (nonlinear_arith);
    }
    q as usize
}

/// Number of the first `n` classes that hold the level called `name`.
pub open spec fn rows_with(pattern: Seq<Vec<LevelId>>, n: int, name: Seq<char>) -> int
    decreases n,
{
    if n <= 0 {
        0
    } else {
        rows_with(pattern, n - 1, name) + if in_group(pattern[n - 1]@, name) {
            1int
        } else {
            0int
        }
    }
}

/// Number of the classes `0..=depth_inclusive` (those that exist) that hold
/// the level called `name`.
pub open spec fn appearances_of(pattern: Seq<Vec<LevelId>>, depth_inclusive: int, name: Seq<char>) -> int {
    rows_with(pattern, if depth_inclusive < pattern.len() { depth_inclusive + 1 } else { pattern.len() as int }, name)
}

/// Number of the classes `0..=depth_inclusive` (those that exist) that hold
/// the level `level`.
pub fn appearances(pattern: &[Vec<LevelId>], depth_inclusive: usize, level: &LevelId) -> (r: usize)
    ensures
        r == appearances_of(pattern@, depth_inclusive as int, level@),
{
    let end: usize = if depth_inclusive < pattern.len() {
        depth_inclusive + 1
    } else {
        pattern.len()
    };
    let mut count: usize = 0;
    let mut i: usize = 0;
    while i < end
        invariant
            i <= end,
            end <= pattern@.len(),
            end == (if depth_inclusive < pattern@.len() { depth_inclusive + 1 } else { pattern@.len() as int }),
            count == rows_with(pattern@, i as int, level@),
            count <= i,
        decreases end - i,
    {
        if group_contains(&pattern[i], level) {
            count = count + 1;
        }
        i = i + 1;
    }
    count
}

/// Some class among the first `depth` holds the level called `name`.
pub open spec fn covered(pattern: Seq<Vec<LevelId>>, depth: int, name: Seq<char>) -> bool {
    exists|i: int| 0 <= i < depth && i < pattern.len() && in_group(#[trigger] pattern[i]@, name)
}

/// The levels of `active`, in order, that none of the first `depth` classes
/// holds.
pub open spec fn uncovered_of(pattern: Seq<Vec<LevelId>>, depth: int, active: Seq<LevelId>) -> Seq<LevelId>
    decreases active.len(),
{
    if active.len() == 0 {
        Seq::empty()
    } else {
        let r = uncovered_of(pattern, depth, active.drop_last());
        if covered(pattern, depth, active.last()@) {
            r
        } else {
            r.push(active.last())
        }
    }
}

/// Some class among the first `depth` holds the level.
fn is_covered(pattern: &[Vec<LevelId>], depth: usize, name: &LevelId) -> (b: bool)
    ensures
        b == covered(pattern@, depth as int, name@),
{
    let mut i: usize = 0;
    while i < depth && i < pattern.len()
        invariant
            forall|x: int| 0 <= x < i && x < pattern@.len() ==> !in_group(#[trigger] pattern@[x]@, name@),
            i <= depth,
        decreases depth - i,
    {
        if group_contains(&pattern[i], name) {
            return true;
        }
        i = i + 1;
    }
    false
}

/// The levels of `active`, in order, that none of the first
/// `depth_exclusive` classes holds.
pub fn uncovered_levels(pattern: &[Vec<LevelId>], depth_exclusive: usize, active: &[LevelId]) -> (r: Vec<LevelId>)
    ensures
        r@ == uncovered_of(pattern@, depth_exclusive as int, active@),
{
    let mut r: Vec<LevelId> = Vec::new();
    let mut i: usize = 0;
    while i < active.len()
        invariant
            i <= active@.len(),
            r@ == uncovered_of(pattern@, depth_exclusive as int, active@.take(i as int)),
        decreases active@.len() - i,
    {
        proof {
            assert(active@.take(i + 1).drop_last() =~= active@.take(i as int));
        }
        if !is_covered(pattern, depth_exclusive, &active[i]) {
            r.push(active[i].clone());
        }
        i = i + 1;
    }
    proof {
        assert(active@.take(i as int) =~= active@);
    }
    r
}

/// The number of pupils of the level called `name` (0 for an unknown level).
pub open spec fn count_of(counts: Seq<(LevelId, u32)>, name: Seq<char>) -> u32 {
    if level_pos(counts, name) >= 0 {
        counts[level_pos(counts, name)].1
    } else {
        0
    }
}

/// After the first `depth_after_place` classes are set, the classes left can
/// still give each active level the classes it needs.
pub open spec fn prune_ok(
    pattern: Seq<Vec<LevelId>>,
    depth_after_place: int,
    active: Seq<LevelId>,
    counts: Seq<(LevelId, u32)>,
    k: int,
    m: u32,
) -> bool {
    let remaining = if k > depth_after_place { k - depth_after_place } else { 0 };
    let d = if depth_after_place > 0 { depth_after_place - 1 } else { 0 };
    forall|i: int|
        0 <= i < active.len() ==> appearances_of(pattern, d, #[trigger] active[i]@) + remaining >= classes_needed(
            count_of(counts, active[i]@),
            m,
        )
}

/// Under a placement `x` that keeps every class within `m` pupils, the
/// pupils `x` gives to level `l` in the first `n` classes are at most `m`
/// times the number of those classes that hold the level.
proof fn lemma_level_part_bound(
    x: spec_fn(int, int) -> int,
    q: Seq<Vec<LevelId>>,
    counts: Seq<(LevelId, u32)>,
    name: Seq<char>,
    n: int,
    m: int,
)
    requires
        0 <= n <= q.len(),
        names_distinct(counts),
        forall|c: int| 0 <= c < q.len() ==> class_names_distinct(#[trigger] q[c]@),
        all_known(q, counts),
        level_pos(counts, name) >= 0,
        forall|c: int, j: int|
            0 <= c < q.len() && 0 <= j < q[c]@.len() ==> #[trigger] x(c, j) >= 0,
        forall|c: int| 0 <= c < q.len() ==> #[trigger] class_sum(x, class_levels(q, counts), c) <= m,
    ensures
        sum_up(n, level_fn(x, class_levels(q, counts), level_pos(counts, name))) <= m * rows_with(q, n, name),
    decreases n,
{
    if n > 0 {
        let cs = class_levels(q, counts);
        let l = level_pos(counts, name);
        lemma_level_part_bound(x, q, counts, name, n - 1, m);
        lemma_class_levels_ok(q, counts);
        let c = n - 1;
        lemma_class_part(x, cs, counts.len() as int, c, l);
        assert(counts[l].0@ == name);
        if in_group(q[c]@, name) {
            let j = choose|j: int| 0 <= j < q[c]@.len() && #[trigger] q[c]@[j]@ == name;
            assert(cs[c][j] == l);
            assert forall|i: int| 0 <= i < cs[c].len() implies #[trigger] row_of(x, c)(i) >= 0 by {
                assert(x(c, i) >= 0);
            }
            lemma_sum_ge_term(cs[c].len() as int, row_of(x, c), j);
            assert(class_part(x, cs, c, l) == x(c, j));
            assert(row_of(x, c)(j) == x(c, j));
            assert(class_sum(x, cs, c) <= m);
            assert(class_part(x, cs, c, l) <= m);
            assert(m * rows_with(q, n, name) == m * rows_with(q, n - 1, name) + m) by (nonlinear_arith)
                requires
                    rows_with(q, n, name) == rows_with(q, n - 1, name) + 1,
            ;
        } else {
            assert(!cs[c].contains(l)) by {
                if cs[c].contains(l) {
                    let j = choose|j: int| 0 <= j < cs[c].len() && cs[c][j] == l;
                    let nm = q[c]@[j]@;
                    assert(level_pos(counts, nm) == l);
                    assert(exists|i: int| 0 <= i < counts.len() && #[trigger] counts[i].0@ == nm);
                    assert(counts[l].0@ == nm);
                    assert(in_group(q[c]@, name));
                }
            }
            assert(class_part(x, cs, c, l) == 0);
        }
    }
}

proof fn lemma_rows_with_nonneg(q: Seq<Vec<LevelId>>, n: int, name: Seq<char>)
    ensures
        rows_with(q, n, name) >= 0,
    decreases n,
{
    if n > 0 {
        lemma_rows_with_nonneg(q, n - 1, name);
    }
}

/// At most `n - d` of the classes `d..n` hold a level.
proof fn lemma_rows_with_tail(q: Seq<Vec<LevelId>>, d: int, n: int, name: Seq<char>)
    requires
        0 <= d <= n,
    ensures
        rows_with(q, n, name) <= rows_with(q, d, name) + (n - d),
    decreases n - d,
{
    if n > d {
        lemma_rows_with_tail(q, d, n - 1, name);
    }
}

/// Pruning never cuts a feasible completion: when the first `d` classes of
/// `q` are those of `pattern`, and all the pupils can be placed in `q`'s
/// classes within the class size and the two-level minimum, `prune` passes
/// on `pattern` after `d` classes.
pub proof fn lemma_prune_keeps_feasible(
    pattern: Seq<Vec<LevelId>>,
    q: Seq<Vec<LevelId>>,
    d: int,
    active: Seq<LevelId>,
    counts: Seq<(LevelId, u32)>,
    k: int,
    m: u32,
    min_dual: u32,
)
    requires
        1 <= d <= k,
        pattern.len() == k,
        q.len() == k,
        forall|c: int| 0 <= c < d ==> #[trigger] q[c]@ == pattern[c]@,
        names_distinct(counts),
        forall|c: int| 0 <= c < k ==> class_names_distinct(#[trigger] q[c]@),
        all_known(q, counts),
        feasible_idx(level_counts_of(counts), class_levels(q, counts), m as int, effective_dual_min(min_dual)),
    ensures
        prune_ok(pattern, d, active, counts, k, m),
{
    let cs = class_levels(q, counts);
    let cnts = level_counts_of(counts);
    let x = choose|x: spec_fn(int, int) -> int| full_ok(x, cnts, cs, m as int, effective_dual_min(min_dual));
    assert forall|i: int| 0 <= i < active.len() implies appearances_of(pattern, d - 1, #[trigger] active[i]@) + (k - d)
        >= classes_needed(count_of(counts, active[i]@), m) by {
        let name = active[i]@;
        let l = level_pos(counts, name);
        lemma_rows_with_nonneg(pattern, d, name);
        assert(appearances_of(pattern, d - 1, name) == rows_with(pattern, d, name));
        if l >= 0 {
            assert forall|c: int, j: int| 0 <= c < q.len() && 0 <= j < q[c]@.len() implies #[trigger] x(c, j) >= 0 by {
                assert(cs[c].len() == q[c]@.len());
            }
            lemma_level_part_bound(x, q, counts, name, k, m as int);
            let r = rows_with(q, k, name);
            let n = count_of(counts, name);
            assert(n == cnts[l]);
            assert(level_sum(x, cs, l) == cnts[l]);
            assert(n <= m * r);
            lemma_rows_with_tail(q, d, k, name);
            lemma_rows_with_prefix(q, pattern, d, name);
            assert(appearances_of(pattern, d - 1, name) == rows_with(pattern, d, name));
            if n > 0 {
                assert(m >= 1) by (nonlinear_arith)
                    requires
                        n <= m * r,
                        n > 0,
                ;
                assert((n + m - 1) / (m as int) <= r) by (nonlinear_arith)
                    requires
                        n <= m * r,
                        m >= 1,
                ;
                assert(classes_needed(n, m) == (n + m - 1) / (m as int));
            }
        }
    }
}

/// Pruning never cuts a completion that `feasible_assignment` accepts: when
/// the first `d` classes of `q` are those of `pattern` and `a` is an
/// assignment the flow may answer for `q` (its levels known and distinct in
/// each class, as `feasible_assignment` asks), `prune` passes on `pattern`
/// after `d` classes.
pub proof fn lemma_prune_keeps_assigned(
    pattern: Seq<Vec<LevelId>>,
    q: Seq<Vec<LevelId>>,
    a: Assignment,
    d: int,
    active: Seq<LevelId>,
    counts: Seq<(LevelId, u32)>,
    k: int,
    m: u32,
    min_c: u32,
    min_dual: u32,
)
    requires
        1 <= d <= k,
        pattern.len() == k,
        q.len() == k,
        forall|c: int| 0 <= c < d ==> #[trigger] q[c]@ == pattern[c]@,
        names_distinct(counts),
        forall|c: int| 0 <= c < k ==> class_names_distinct(#[trigger] q[c]@),
        all_known(q, counts),
        assignment_ok(a, q, counts, m, min_c, min_dual),
    ensures
        prune_ok(pattern, d, active, counts, k, m),
{
    assert(full_ok(
        placed(a, q),
        level_counts_of(counts),
        class_levels(q, counts),
        m as int,
        effective_dual_min(min_dual),
    ));
    lemma_prune_keeps_feasible(pattern, q, d, active, counts, k, m, min_dual);
}

/// The classes set so far can still be completed: every active level can
/// reach the number of classes its pupils need.
pub fn prune(
    pattern: &[Vec<LevelId>],
    depth_after_place: usize,
    active: &[LevelId],
    counts: &Vec<(LevelId, u32)>,
    k: usize,
    m: u32,
) -> (r: bool)
    requires
        names_distinct(counts@),
    ensures
        r == prune_ok(pattern@, depth_after_place as int, active@, counts@, k as int, m),
{
    let remaining: usize = if k > depth_after_place {
        k - depth_after_place
    } else {
        0
    };
    let d: usize = if depth_after_place > 0 {
        depth_after_place - 1
    } else {
        0
    };
    let mut i: usize = 0;
    while i < active.len()
        invariant
            i <= active@.len(),
            names_distinct(counts@),
            remaining == (if k > depth_after_place { k - depth_after_place } else { 0 }),
            d == (if depth_after_place > 0 { depth_after_place - 1 } else { 0 }),
            forall|x: int|
                0 <= x < i ==> appearances_of(pattern@, d as int, #[trigger] active@[x]@) + remaining
                    >= classes_needed(count_of(counts@, active@[x]@), m),
        decreases active@.len() - i,
    {
        let l = &active[i];
        let n: u32 = match find_level(counts, l) {
            Some(p) => counts[p].1,
            None => 0,
        };
        let need = min_classes_for_level(n, m);
        let app = appearances(pattern, d, l);
        if app < need && need - app > remaining {
            return false;
        }
        i = i + 1;
    }
    true
}

// ---------------------------------------------------------------------------
// The compositions a class may have.
// ---------------------------------------------------------------------------

/// A two-level class: its levels in increasing order.
pub open spec fn pair_of(a: LevelId, b: LevelId) -> Seq<LevelId> {
    if name_le(a@, b@) {
        seq![a, b]
    } else {
        seq![b, a]
    }
}

/// The two-level classes `(active[i], active[j])` for `i < j < n`, `j` in
/// increasing order, but for the forbidden pairs.
pub open spec fn row_pairs(active: Seq<LevelId>, f: Seq<(LevelId, LevelId)>, i: int, n: int) -> Seq<Seq<LevelId>>
    decreases n - i,
{
    if n <= i + 1 {
        Seq::empty()
    } else {
        let r = row_pairs(active, f, i, n - 1);
        if pair_listed(f, active[i]@, active[n - 1]@) {
            r
        } else {
            r.push(pair_of(active[i], active[n - 1]))
        }
    }
}

/// The two-level classes of the rows `0..m`, row after row.
pub open spec fn all_pairs(active: Seq<LevelId>, f: Seq<(LevelId, LevelId)>, m: int) -> Seq<Seq<LevelId>>
    decreases m,
{
    if m <= 0 {
        Seq::empty()
    } else {
        all_pairs(active, f, m - 1) + row_pairs(active, f, m - 1, active.len() as int)
    }
}

/// The one-level classes, in the order of `active`.
pub open spec fn singles(active: Seq<LevelId>) -> Seq<Seq<LevelId>> {
    Seq::new(active.len(), |i: int| seq![active[i]])
}

/// Every composition a class may have: each level alone, then each allowed
/// pair of levels.
pub open spec fn compositions_of(active: Seq<LevelId>, f: Seq<(LevelId, LevelId)>) -> Seq<Seq<LevelId>> {
    singles(active) + all_pairs(active, f, active.len() as int)
}

/// The two levels, in increasing order.
fn sorted_pair(a: &LevelId, b: &LevelId) -> (r: Vec<LevelId>)
    ensures
        r@ == pair_of(*a, *b),
{
    let mut r: Vec<LevelId> = Vec::new();
    if name_less(b, a) {
        r.push(b.clone());
        r.push(a.clone());
    } else {
        r.push(a.clone());
        r.push(b.clone());
    }
    proof {
        assert(r@ =~= pair_of(*a, *b));
    }
    r
}

/// Every composition a class may have: each active level alone, then each
/// pair of active levels that is not forbidden, in increasing order.
pub fn all_mono_dual_compositions(cfg: &AppConfig, active: &[LevelId]) -> (r: Vec<Vec<LevelId>>)
    ensures
        comps(r@) == compositions_of(active@, cfg.plan.forbidden_pairs@),
{
    let ghost f = cfg.plan.forbidden_pairs@;
    let mut v: Vec<Vec<LevelId>> = Vec::new();
    let mut i: usize = 0;
    while i < active.len()
        invariant
            i <= active@.len(),
            comps(v@) == singles(active@).take(i as int),
            v@.len() == i,
        decreases active@.len() - i,
    {
        let mut one: Vec<LevelId> = Vec::new();
        one.push(active[i].clone());
        proof {
            assert(one@ =~= seq![active@[i as int]]);
        }
        let ghost before = v@;
        v.push(one);
        proof {
            assert(v@ == before.push(one));
            assert(before.len() == i);
            assert(comps(v@) =~= singles(active@).take(i + 1)) by {
                assert forall|x: int| 0 <= x < i + 1 implies comps(v@)[x] == singles(active@).take(i + 1)[x] by {
                    if x < i {
                        assert(comps(before)[x] == singles(active@).take(i as int)[x]);
                        assert(v@[x] == before[x]);
                    }
                }
            }
        }
        i = i + 1;
    }
    proof {
        assert(singles(active@).take(i as int) =~= singles(active@));
    }
    let mut i: usize = 0;
    while i < active.len()
        invariant
            i <= active@.len(),
            f == cfg.plan.forbidden_pairs@,
            comps(v@) == singles(active@) + all_pairs(active@, f, i as int),
        decreases active@.len() - i,
    {
        let mut j: usize = i + 1;
        while j < active.len()
            invariant
                i < active@.len(),
                i + 1 <= j <= active@.len(),
                f == cfg.plan.forbidden_pairs@,
                comps(v@) == singles(active@) + all_pairs(active@, f, i as int) + row_pairs(active@, f, i as int, j as int),
            decreases active@.len() - j,
        {
            if !cfg.is_forbidden_pair(&active[i], &active[j]) {
                let t = sorted_pair(&active[i], &active[j]);
                let ghost before = v@;
                v.push(t);
                proof {
                    assert(v@ == before.push(t));
                    assert(comps(v@) =~= comps(before).push(t@));
                    assert(row_pairs(active@, f, i as int, j + 1) == row_pairs(active@, f, i as int, j as int).push(
                        pair_of(active@[i as int], active@[j as int]),
                    ));
                    assert(comps(v@) =~= singles(active@) + all_pairs(active@, f, i as int) + row_pairs(
                        active@,
                        f,
                        i as int,
                        j + 1,
                    ));
                }
            }
            j = j + 1;
        }
        proof {
            assert(all_pairs(active@, f, i + 1) == all_pairs(active@, f, i as int) + row_pairs(active@, f, i as int, active@.len() as int));
            assert(comps(v@) =~= singles(active@) + all_pairs(active@, f, i + 1));
        }
        i = i + 1;
    }
    v
}

/// The compositions the search tries for class `depth`: all of `ranked`,
/// except for the last class, which must hold the levels no earlier class
/// holds (one level alone, or two as an allowed pair; none if more are left).
pub open spec fn options_at(
    ranked: Seq<Seq<LevelId>>,
    pattern: Seq<Vec<LevelId>>,
    depth: int,
    k: int,
    active: Seq<LevelId>,
    f: Seq<(LevelId, LevelId)>,
) -> Seq<Seq<LevelId>> {
    let unc = uncovered_of(pattern, depth, active);
    if depth + 1 < k {
        ranked
    } else if unc.len() == 0 {
        ranked
    } else if unc.len() == 1 {
        seq![seq![unc[0]]]
    } else if unc.len() == 2 {
        if pair_listed(f, unc[0]@, unc[1]@) {
            Seq::empty()
        } else {
            seq![pair_of(unc[0], unc[1])]
        }
    } else {
        Seq::empty()
    }
}

/// The compositions to try for class `depth` (see `options_at`). `ranked`
/// holds every composition a class may have, in the order to try them.
pub fn enumerate_options(
    cfg: &AppConfig,
    active: &[LevelId],
    ranked: &Vec<Vec<LevelId>>,
    pattern: &[Vec<LevelId>],
    depth: usize,
    k: usize,
) -> (r: Vec<Vec<LevelId>>)
    requires
        depth < k,
    ensures
        comps(r@) == options_at(comps(ranked@), pattern@, depth as int, k as int, active@, cfg.plan.forbidden_pairs@),
{
    if depth + 1 < k {
        return copy_compositions(ranked);
    }
    let unc = uncovered_levels(pattern, depth, active);
    let mut out: Vec<Vec<LevelId>> = Vec::new();
    if unc.len() == 0 {
        return copy_compositions(ranked);
    } else if unc.len() == 1 {
        let mut one: Vec<LevelId> = Vec::new();
        one.push(unc[0].clone());
        out.push(one);
        proof {
            assert(comps(out@) =~= seq![seq![unc@[0]]]);
        }
    } else if unc.len() == 2 {
        if !cfg.is_forbidden_pair(&unc[0], &unc[1]) {
            out.push(sorted_pair(&unc[0], &unc[1]));
            proof {
                assert(comps(out@) =~= seq![pair_of(unc@[0], unc@[1])]);
            }
        } else {
            proof {
                assert(comps(out@) =~= Seq::<Seq<LevelId>>::empty());
            }
        }
    } else {
        proof {
            assert(comps(out@) =~= Seq::<Seq<LevelId>>::empty());
        }
    }
    out
}


proof fn lemma_rows_with_comps(p1: Seq<Vec<LevelId>>, p2: Seq<Vec<LevelId>>, n: int, name: Seq<char>)
    requires
        comps(p1) == comps(p2),
        n <= p1.len(),
    ensures
        rows_with(p1, n, name) == rows_with(p2, n, name),
    decreases n,
{
    if n > 0 {
        lemma_rows_with_comps(p1, p2, n - 1, name);
        assert(p1.len() == comps(p1).len() && p2.len() == comps(p2).len());
        assert(comps(p1)[n - 1] == comps(p2)[n - 1]);
        assert(p1[n - 1]@ == p2[n - 1]@);
    }
}

/// `prune_ok` looks at the classes' levels only.
proof fn lemma_prune_ok_comps(
    p1: Seq<Vec<LevelId>>,
    p2: Seq<Vec<LevelId>>,
    d: int,
    active: Seq<LevelId>,
    counts: Seq<(LevelId, u32)>,
    k: int,
    m: u32,
)
    requires
        comps(p1) == comps(p2),
        prune_ok(p1, d, active, counts, k, m),
    ensures
        prune_ok(p2, d, active, counts, k, m),
{
    assert(p1.len() == comps(p1).len() && p2.len() == comps(p2).len());
    let dd = if d > 0 { d - 1 } else { 0 };
    let n = if dd < p1.len() { dd + 1 } else { p1.len() as int };
    assert forall|i: int| 0 <= i < active.len() implies appearances_of(p2, dd, #[trigger] active[i]@) == appearances_of(
        p1,
        dd,
        active[i]@,
    ) by {
        lemma_rows_with_comps(p1, p2, n, active[i]@);
    }
}

/// The levels of `uncovered_of` are levels of `active`, and distinct when
/// those are.
/// The first two uncovered levels come in the order of `active`.
proof fn lemma_uncovered_pair(pattern: Seq<Vec<LevelId>>, depth: int, active: Seq<LevelId>)
    ensures
        uncovered_of(pattern, depth, active).len() >= 2 ==> exists|i: int, j: int|
            0 <= i < j < active.len() && uncovered_of(pattern, depth, active)[0] == #[trigger] active[i]
                && uncovered_of(pattern, depth, active)[1] == #[trigger] active[j],
    decreases active.len(),
{
    if active.len() > 0 {
        let a0 = active.drop_last();
        lemma_uncovered_pair(pattern, depth, a0);
        lemma_uncovered_sub(pattern, depth, a0);
        let r0 = uncovered_of(pattern, depth, a0);
        let r = uncovered_of(pattern, depth, active);
        if r.len() >= 2 {
            if r0.len() >= 2 {
                let (i, j) = choose|i: int, j: int| 0 <= i < j < a0.len() && r0[0] == #[trigger] a0[i] && r0[1] == #[trigger] a0[j];
                assert(r[0] == r0[0] && r[1] == r0[1]);
                assert(active[i] == a0[i] && active[j] == a0[j]);
            } else {
                assert(r0.len() == 1);
                let i = choose|i: int| 0 <= i < a0.len() && #[trigger] r0[0] == a0[i];
                assert(r[0] == r0[0]);
                assert(r[1] == active[active.len() - 1]);
                assert(active[i] == a0[i]);
            }
        }
    }
}

/// An allowed pair `(active[i], active[j])`, `i < j < n`, is among the
/// pairs of row `i`.
proof fn lemma_pair_in_row(active: Seq<LevelId>, f: Seq<(LevelId, LevelId)>, i: int, j: int, n: int)
    requires
        0 <= i < j < n,
        !pair_listed(f, active[i]@, active[j]@),
    ensures
        row_pairs(active, f, i, n).contains(pair_of(active[i], active[j])),
    decreases n - i,
{
    let r = row_pairs(active, f, i, n - 1);
    if j == n - 1 {
        assert(row_pairs(active, f, i, n) == r.push(pair_of(active[i], active[j])));
        assert(row_pairs(active, f, i, n)[r.len() as int] == pair_of(active[i], active[j]));
    } else {
        lemma_pair_in_row(active, f, i, j, n - 1);
        let x = choose|x: int| 0 <= x < r.len() && r[x] == pair_of(active[i], active[j]);
        assert(row_pairs(active, f, i, n)[x] == r[x]);
    }
}

/// The pairs of row `i` are among those of the rows `0..m`, `i < m`.
proof fn lemma_row_in_all_pairs(active: Seq<LevelId>, f: Seq<(LevelId, LevelId)>, i: int, m: int, c: Seq<LevelId>)
    requires
        0 <= i < m,
        row_pairs(active, f, i, active.len() as int).contains(c),
    ensures
        all_pairs(active, f, m).contains(c),
    decreases m,
{
    let a = all_pairs(active, f, m - 1);
    let rw = row_pairs(active, f, m - 1, active.len() as int);
    if i == m - 1 {
        let x = choose|x: int| 0 <= x < rw.len() && rw[x] == c;
        assert((a + rw)[a.len() + x] == c);
    } else {
        lemma_row_in_all_pairs(active, f, i, m - 1, c);
        let x = choose|x: int| 0 <= x < a.len() && a[x] == c;
        assert((a + rw)[x] == c);
    }
}

/// Every level alone, and every pair of levels that is not forbidden (in
/// increasing order), is a composition a class may have.
pub proof fn lemma_compositions_complete(active: Seq<LevelId>, f: Seq<(LevelId, LevelId)>)
    ensures
        forall|i: int| 0 <= i < active.len() ==> compositions_of(active, f).contains(seq![#[trigger] active[i]]),
        forall|i: int, j: int|
            0 <= i < j < active.len() && !pair_listed(f, active[i]@, active[j]@) ==> compositions_of(active, f).contains(
                pair_of(#[trigger] active[i], #[trigger] active[j]),
            ),
{
    let pool = compositions_of(active, f);
    let sg = singles(active);
    let ap = all_pairs(active, f, active.len() as int);
    assert forall|i: int| 0 <= i < active.len() implies pool.contains(seq![#[trigger] active[i]]) by {
        assert(pool[i] == sg[i]);
    }
    assert forall|i: int, j: int|
        0 <= i < j < active.len() && !pair_listed(f, active[i]@, active[j]@) implies pool.contains(
            pair_of(#[trigger] active[i], #[trigger] active[j]),
        ) by {
        lemma_pair_in_row(active, f, i, j, active.len() as int);
        lemma_row_in_all_pairs(active, f, i, active.len() as int, pair_of(active[i], active[j]));
        let x = choose|x: int| 0 <= x < ap.len() && ap[x] == pair_of(active[i], active[j]);
        assert(pool[sg.len() + x] == ap[x]);
    }
}

/// Every option `options_at` gives is a composition of `compositions_of`
/// when `ranked`'s are.
proof fn lemma_options_in_pool(
    ranked: Seq<Seq<LevelId>>,
    pattern: Seq<Vec<LevelId>>,
    depth: int,
    k: int,
    active: Seq<LevelId>,
    f: Seq<(LevelId, LevelId)>,
)
    requires
        forall|c: int| 0 <= c < ranked.len() ==> compositions_of(active, f).contains(#[trigger] ranked[c]),
    ensures
        forall|c: int|
            0 <= c < options_at(ranked, pattern, depth, k, active, f).len() ==> compositions_of(active, f).contains(
                #[trigger] options_at(ranked, pattern, depth, k, active, f)[c],
            ),
{
    let unc = uncovered_of(pattern, depth, active);
    let o = options_at(ranked, pattern, depth, k, active, f);
    let pool = compositions_of(active, f);
    let sg = singles(active);
    let ap = all_pairs(active, f, active.len() as int);
    lemma_uncovered_sub(pattern, depth, active);
    lemma_uncovered_pair(pattern, depth, active);
    if depth + 1 >= k && unc.len() == 1 {
        let i = choose|i: int| 0 <= i < active.len() && #[trigger] unc[0] == active[i];
        assert(pool[i] == sg[i]);
        assert(sg[i] == seq![active[i]]);
        assert(o[0] == seq![unc[0]]);
        assert(pool.contains(o[0]));
    }
    if depth + 1 >= k && unc.len() == 2 && !pair_listed(f, unc[0]@, unc[1]@) {
        let (i, j) = choose|i: int, j: int| 0 <= i < j < active.len() && unc[0] == #[trigger] active[i] && unc[1] == #[trigger] active[j];
        lemma_pair_in_row(active, f, i, j, active.len() as int);
        lemma_row_in_all_pairs(active, f, i, active.len() as int, pair_of(active[i], active[j]));
        let x = choose|x: int| 0 <= x < ap.len() && ap[x] == pair_of(active[i], active[j]);
        assert(pool[sg.len() + x] == ap[x]);
        assert(o[0] == pair_of(unc[0], unc[1]));
        assert(pool.contains(o[0]));
    }
}

proof fn lemma_uncovered_sub(pattern: Seq<Vec<LevelId>>, depth: int, active: Seq<LevelId>)
    ensures
        forall|x: int|
            0 <= x < uncovered_of(pattern, depth, active).len() ==> exists|i: int|
                0 <= i < active.len() && #[trigger] uncovered_of(pattern, depth, active)[x] == active[i],
        class_names_distinct(active) ==> class_names_distinct(uncovered_of(pattern, depth, active)),
    decreases active.len(),
{
    if active.len() > 0 {
        let a0 = active.drop_last();
        lemma_uncovered_sub(pattern, depth, a0);
        let r0 = uncovered_of(pattern, depth, a0);
        let r = uncovered_of(pattern, depth, active);
        assert forall|x: int| 0 <= x < r.len() implies exists|i: int| 0 <= i < active.len() && #[trigger] r[x] == active[i] by {
            if x < r0.len() {
                assert(r[x] == r0[x]);
                let i = choose|i: int| 0 <= i < a0.len() && r0[x] == a0[i];
                assert(r[x] == active[i]);
            } else {
                assert(r[x] == active[active.len() - 1]);
            }
        }
        if class_names_distinct(active) {
            assert(class_names_distinct(a0)) by {
                assert forall|i: int, j: int| 0 <= i < a0.len() && 0 <= j < a0.len() && i != j implies #[trigger] a0[i]@
                    != #[trigger] a0[j]@ by {
                    assert(a0[i] == active[i] && a0[j] == active[j]);
                }
            }
            assert forall|i: int, j: int| 0 <= i < r.len() && 0 <= j < r.len() && i != j implies #[trigger] r[i]@
                != #[trigger] r[j]@ by {
                if i < r0.len() && j < r0.len() {
                    assert(r[i] == r0[i] && r[j] == r0[j]);
                } else if i < r0.len() {
                    let p = choose|p: int| 0 <= p < a0.len() && r0[i] == a0[p];
                    assert(r[i] == active[p]);
                    assert(r[j] == active[active.len() - 1]);
                } else {
                    let p = choose|p: int| 0 <= p < a0.len() && r0[j] == a0[p];
                    assert(r[j] == active[p]);
                    assert(r[i] == active[active.len() - 1]);
                }
            }
        }
    }
}

/// Every option `options_at` gives holds distinct levels.
proof fn lemma_options_distinct(
    ranked: Seq<Seq<LevelId>>,
    pattern: Seq<Vec<LevelId>>,
    depth: int,
    k: int,
    active: Seq<LevelId>,
    f: Seq<(LevelId, LevelId)>,
)
    requires
        forall|c: int| 0 <= c < ranked.len() ==> class_names_distinct(#[trigger] ranked[c]),
        class_names_distinct(active),
    ensures
        forall|c: int|
            0 <= c < options_at(ranked, pattern, depth, k, active, f).len() ==> class_names_distinct(
                #[trigger] options_at(ranked, pattern, depth, k, active, f)[c],
            ),
{
    lemma_uncovered_sub(pattern, depth, active);
    let unc = uncovered_of(pattern, depth, active);
    let o = options_at(ranked, pattern, depth, k, active, f);
    if depth + 1 >= k && unc.len() == 2 {
        assert(unc[0]@ != unc[1]@);
    }
    assert forall|c: int| 0 <= c < o.len() implies class_names_distinct(#[trigger] o[c]) by {
        if depth + 1 >= k && unc.len() == 1 {
            assert(o[c] == seq![unc[0]]);
        }
    }
}

/// A class holds one level, or two levels in increasing order that are not
/// a forbidden pair.
pub open spec fn allowed_class(c: Seq<LevelId>, f: Seq<(LevelId, LevelId)>) -> bool {
    c.len() == 1 || (c.len() == 2 && name_le(c[0]@, c[1]@) && !pair_listed(f, c[0]@, c[1]@))
}

/// Every class of a composition is allowed and names each of its levels
/// once.
pub open spec fn classes_allowed(classes: Seq<Vec<LevelId>>, f: Seq<(LevelId, LevelId)>) -> bool {
    forall|r: int|
        0 <= r < classes.len() ==> class_names_distinct(#[trigger] classes[r]@) && allowed_class(classes[r]@, f)
}

/// Every option `options_at` gives is allowed when `ranked`'s are.
proof fn lemma_options_allowed(
    ranked: Seq<Seq<LevelId>>,
    pattern: Seq<Vec<LevelId>>,
    depth: int,
    k: int,
    active: Seq<LevelId>,
    f: Seq<(LevelId, LevelId)>,
)
    requires
        forall|c: int| 0 <= c < ranked.len() ==> allowed_class(#[trigger] ranked[c], f),
    ensures
        forall|c: int|
            0 <= c < options_at(ranked, pattern, depth, k, active, f).len() ==> allowed_class(
                #[trigger] options_at(ranked, pattern, depth, k, active, f)[c],
                f,
            ),
{
    let unc = uncovered_of(pattern, depth, active);
    let o = options_at(ranked, pattern, depth, k, active, f);
    assert forall|c: int| 0 <= c < o.len() implies allowed_class(#[trigger] o[c], f) by {
        if depth + 1 >= k && unc.len() == 1 {
            assert(o[c] == seq![unc[0]]);
        }
        if depth + 1 >= k && unc.len() == 2 && !pair_listed(f, unc[0]@, unc[1]@) {
            assert(o[c] == pair_of(unc[0], unc[1]));
            lemma_name_order(unc[0]@, unc[1]@, unc[0]@);
            if !name_le(unc[0]@, unc[1]@) {
                assert(!pair_listed(f, unc[1]@, unc[0]@)) by {
                    if pair_listed(f, unc[1]@, unc[0]@) {
                        let i = choose|i: int|
                            0 <= i < f.len() && ((#[trigger] f[i].0@ == unc[1]@ && f[i].1@ == unc[0]@) || (f[i].0@
                                == unc[0]@ && f[i].1@ == unc[1]@));
                        assert(pair_listed(f, unc[0]@, unc[1]@));
                    }
                }
            }
        }
    }
}

proof fn lemma_row_pairs_allowed(active: Seq<LevelId>, f: Seq<(LevelId, LevelId)>, i: int, n: int)
    ensures
        forall|c: int| 0 <= c < row_pairs(active, f, i, n).len() ==> allowed_class(#[trigger] row_pairs(active, f, i, n)[c], f),
    decreases n - i,
{
    if n > i + 1 {
        lemma_row_pairs_allowed(active, f, i, n - 1);
        let a = active[i];
        let b = active[n - 1];
        lemma_name_order(a@, b@, a@);
        if !pair_listed(f, a@, b@) {
            assert(!pair_listed(f, b@, a@)) by {
                if pair_listed(f, b@, a@) {
                    let x = choose|x: int|
                        0 <= x < f.len() && ((#[trigger] f[x].0@ == b@ && f[x].1@ == a@) || (f[x].0@ == a@ && f[x].1@
                            == b@));
                    assert(pair_listed(f, a@, b@));
                }
            }
            assert(allowed_class(pair_of(a, b), f));
        }
        let r0 = row_pairs(active, f, i, n - 1);
        assert forall|c: int| 0 <= c < row_pairs(active, f, i, n).len() implies allowed_class(
            #[trigger] row_pairs(active, f, i, n)[c],
            f,
        ) by {
            if c < r0.len() {
                assert(row_pairs(active, f, i, n)[c] == r0[c]);
            }
        }
    }
}

/// Every composition of `compositions_of` is allowed.
proof fn lemma_compositions_allowed(active: Seq<LevelId>, f: Seq<(LevelId, LevelId)>)
    ensures
        forall|c: int| 0 <= c < compositions_of(active, f).len() ==> allowed_class(#[trigger] compositions_of(active, f)[c], f),
{
    lemma_all_pairs_allowed(active, f, active.len() as int);
    let s = singles(active);
    let p = all_pairs(active, f, active.len() as int);
    assert forall|c: int| 0 <= c < compositions_of(active, f).len() implies allowed_class(
        #[trigger] compositions_of(active, f)[c],
        f,
    ) by {
        if c < s.len() {
            assert(compositions_of(active, f)[c] == seq![active[c]]);
        } else {
            assert(compositions_of(active, f)[c] == p[c - s.len()]);
        }
    }
}

proof fn lemma_all_pairs_allowed(active: Seq<LevelId>, f: Seq<(LevelId, LevelId)>, m: int)
    ensures
        forall|c: int| 0 <= c < all_pairs(active, f, m).len() ==> allowed_class(#[trigger] all_pairs(active, f, m)[c], f),
    decreases m,
{
    if m > 0 {
        lemma_all_pairs_allowed(active, f, m - 1);
        lemma_row_pairs_allowed(active, f, m - 1, active.len() as int);
        let a = all_pairs(active, f, m - 1);
        let b = row_pairs(active, f, m - 1, active.len() as int);
        assert forall|c: int| 0 <= c < all_pairs(active, f, m).len() implies allowed_class(#[trigger] all_pairs(active, f, m)[c], f) by {
            if c < a.len() {
                assert(all_pairs(active, f, m)[c] == a[c]);
            } else {
                assert(all_pairs(active, f, m)[c] == b[c - a.len()]);
            }
        }
    }
}

// ---------------------------------------------------------------------------
// Candidates.
// ---------------------------------------------------------------------------

/// A composition of all the classes that the flow accepted, with its
/// assignment.
#[derive(Debug, Clone)]
pub struct Candidate {
    pub classes: Vec<Vec<LevelId>>,
    pub assignment: Assignment,
}

/// What a candidate holds: its assignment meets `feasible_assignment`'s
/// promise and every class holds pupils.
pub open spec fn candidate_ok(c: Candidate, counts: Seq<(LevelId, u32)>, m: u32, min_c: u32, min_dual: u32) -> bool {
    &&& all_known(c.classes@, counts)
    &&& assignment_ok(c.assignment, c.classes@, counts, m, min_c, min_dual)
    &&& forall|i: int| 0 <= i < c.assignment.class_totals@.len() ==> #[trigger] c.assignment.class_totals@[i] > 0
}

/// `c1` and `s1` are `c0` and `s0` with candidates appended: each is valid,
/// has `k` classes, and its key, appended to `s0`, is new.
pub open spec fn extends(
    c0: Seq<Candidate>,
    c1: Seq<Candidate>,
    s0: Seq<String>,
    s1: Seq<String>,
    counts: Seq<(LevelId, u32)>,
    m: u32,
    min_c: u32,
    min_dual: u32,
    k: int,
) -> bool {
    &&& c0.len() <= c1.len()
    &&& c1.take(c0.len() as int) == c0
    &&& s1.len() == s0.len() + (c1.len() - c0.len())
    &&& s1.take(s0.len() as int) == s0
    &&& forall|j: int|
        c0.len() <= j < c1.len() ==> {
            &&& candidate_ok(#[trigger] c1[j], counts, m, min_c, min_dual)
            &&& c1[j].classes@.len() == k
            &&& s1[s0.len() + (j - c0.len())]@ == pattern_key_of(c1[j].classes@)
        }
    &&& forall|x: int, y: int| s0.len() <= x < s1.len() && 0 <= y < x ==> #[trigger] s1[y]@ != #[trigger] s1[x]@
}

proof fn lemma_extends_refl(c: Seq<Candidate>, s: Seq<String>, counts: Seq<(LevelId, u32)>, m: u32, min_c: u32, min_dual: u32, k: int)
    ensures
        extends(c, c, s, s, counts, m, min_c, min_dual, k),
{
    assert(c.take(c.len() as int) =~= c);
    assert(s.take(s.len() as int) =~= s);
}

proof fn lemma_extends_trans(
    c0: Seq<Candidate>,
    c1: Seq<Candidate>,
    c2: Seq<Candidate>,
    s0: Seq<String>,
    s1: Seq<String>,
    s2: Seq<String>,
    counts: Seq<(LevelId, u32)>,
    m: u32,
    min_c: u32,
    min_dual: u32,
    k: int,
)
    requires
        extends(c0, c1, s0, s1, counts, m, min_c, min_dual, k),
        extends(c1, c2, s1, s2, counts, m, min_c, min_dual, k),
    ensures
        extends(c0, c2, s0, s2, counts, m, min_c, min_dual, k),
{
    assert(c2.take(c0.len() as int) =~= c0) by {
        assert forall|i: int| 0 <= i < c0.len() implies c2.take(c0.len() as int)[i] == c0[i] by {
            assert(c2.take(c1.len() as int)[i] == c1[i]);
            assert(c1.take(c0.len() as int)[i] == c0[i]);
        }
    }
    assert(s2.take(s0.len() as int) =~= s0) by {
        assert forall|i: int| 0 <= i < s0.len() implies s2.take(s0.len() as int)[i] == s0[i] by {
            assert(s2.take(s1.len() as int)[i] == s1[i]);
            assert(s1.take(s0.len() as int)[i] == s0[i]);
        }
    }
    assert forall|j: int| c0.len() <= j < c2.len() implies {
        &&& candidate_ok(#[trigger] c2[j], counts, m, min_c, min_dual)
        &&& c2[j].classes@.len() == k
        &&& s2[s0.len() + (j - c0.len())]@ == pattern_key_of(c2[j].classes@)
    } by {
        if j < c1.len() {
            assert(c2.take(c1.len() as int)[j] == c1[j]);
            assert(c1[j] == c2[j]);
            assert(s2.take(s1.len() as int)[s0.len() + (j - c0.len())] == s1[s0.len() + (j - c0.len())]);
        }
    }
    assert forall|x: int, y: int| s0.len() <= x < s2.len() && 0 <= y < x implies #[trigger] s2[y]@ != #[trigger] s2[x]@ by {
        if x < s1.len() {
            assert(s2.take(s1.len() as int)[x] == s1[x]);
            assert(s2.take(s1.len() as int)[y] == s1[y]);
        }
    }
}

/// Some key of `seen` is `key`.
fn key_seen(seen: &Vec<String>, key: &String) -> (b: bool)
    ensures
        b == exists|x: int| 0 <= x < seen@.len() && #[trigger] seen@[x]@ == key@,
{
    let mut i: usize = 0;
    while i < seen.len()
        invariant
            i <= seen@.len(),
            forall|x: int| 0 <= x < i ==> #[trigger] seen@[x]@ != key@,
        decreases seen@.len() - i,
    {
        if seen[i] == *key {
            return true;
        }
        i = i + 1;
    }
    false
}

/// Every class holds pupils.
fn all_positive(totals: &Vec<u32>) -> (b: bool)
    ensures
        b == forall|i: int| 0 <= i < totals@.len() ==> #[trigger] totals@[i] > 0,
{
    let mut i: usize = 0;
    while i < totals.len()
        invariant
            i <= totals@.len(),
            forall|x: int| 0 <= x < i ==> #[trigger] totals@[x] > 0,
        decreases totals@.len() - i,
    {
        if totals[i] == 0 {
            return false;
        }
        i = i + 1;
    }
    true
}

/// The composition becomes a candidate when `result`, the flow's answer for
/// it, is an assignment in which every class holds pupils, and no earlier
/// candidate has its key; its key is then recorded.
pub fn offer_candidate(
    pattern: Vec<Vec<LevelId>>,
    result: Option<Assignment>,
    candidates: &mut Vec<Candidate>,
    seen: &mut Vec<String>,
)
    ensures
        ({
            let fresh = !exists|x: int| 0 <= x < old(seen)@.len() && #[trigger] old(seen)@[x]@ == pattern_key_of(pattern@);
            let accepted = result matches Some(a) && (forall|i: int|
                0 <= i < a.class_totals@.len() ==> #[trigger] a.class_totals@[i] > 0) && fresh;
            &&& accepted ==> final(candidates)@ == old(candidates)@.push(Candidate { classes: pattern, assignment: result->0 })
            &&& accepted ==> final(seen)@.len() == old(seen)@.len() + 1 && final(seen)@.take(old(seen)@.len() as int) == old(seen)@
                && final(seen)@.last()@ == pattern_key_of(pattern@)
            &&& !accepted ==> final(candidates)@ == old(candidates)@ && final(seen)@ == old(seen)@
        }),
{
    match result {
        Some(assign) => {
            if all_positive(&assign.class_totals) {
                let key = pattern_key(pattern.as_slice());
                if !key_seen(seen, &key) {
                    let ghost s0 = seen@;
                    seen.push(key);
                    candidates.push(Candidate { classes: pattern, assignment: assign });
                    proof {
                        assert(seen@.take(s0.len() as int) =~= s0);
                    }
                }
            }
        },
        None => {},
    }
}

/// The composition goes to the flow, and becomes a candidate when the flow
/// gives an assignment in which every class holds pupils and no earlier
/// candidate has its key (see `offer_candidate`).
pub fn try_add_candidate(
    pattern: Vec<Vec<LevelId>>,
    counts: &Vec<(LevelId, u32)>,
    m: u32,
    min_c: u32,
    min_dual: u32,
    candidates: &mut Vec<Candidate>,
    seen: &mut Vec<String>,
)
    requires
        names_distinct(counts@),
        forall|c: int| 0 <= c < pattern@.len() ==> class_names_distinct(#[trigger] pattern@[c]@),
        counts@.len() + pattern@.len() + 2 < 0x4000_0000,
    ensures
        extends(
            old(candidates)@,
            final(candidates)@,
            old(seen)@,
            final(seen)@,
            counts@,
            m,
            min_c,
            min_dual,
            pattern@.len() as int,
        ),
        final(candidates)@.len() <= old(candidates)@.len() + 1,
        final(candidates)@.len() > old(candidates)@.len() ==> final(candidates)@.last().classes == pattern,
        (exists|x: int| 0 <= x < old(seen)@.len() && #[trigger] old(seen)@[x]@ == pattern_key_of(pattern@))
            ==> final(candidates)@ == old(candidates)@,
        !all_known(pattern@, counts@) ==> final(candidates)@ == old(candidates)@,
        min_c == 0 && !feasible_idx(
            level_counts_of(counts@),
            class_levels(pattern@, counts@),
            m as int,
            effective_dual_min(min_dual),
        ) ==> final(candidates)@ == old(candidates)@,
        has_key(final(seen)@, pattern_key_of(pattern@)) || flow_may_reject(pattern@, counts@, m, min_c, min_dual),
{
    let ghost c0 = candidates@;
    let ghost s0 = seen@;
    let ghost pat = pattern@;
    proof {
        lemma_extends_refl(c0, s0, counts@, m, min_c, min_dual, pattern@.len() as int);
    }
    let result = feasible_assignment(pattern.as_slice(), counts, m, min_c, min_dual);
    let ghost res = result;
    proof {
        assert(flow_may_answer(pat, counts@, m, min_c, min_dual, res));
    }
    offer_candidate(pattern, result, candidates, seen);
    proof {
        let key = pattern_key_of(pat);
        if !has_key(seen@, key) {
            if has_key(s0, key) {
                let x = choose|x: int| 0 <= x < s0.len() && #[trigger] s0[x]@ == key;
                assert(seen@ == s0);
                assert(seen@[x]@ == key);
            }
            if candidates@.len() > c0.len() {
                assert(seen@[seen@.len() - 1]@ == key);
            }
            assert(rejected(res));
        }
        if candidates@.len() > c0.len() {
            assert(candidates@.take(c0.len() as int) =~= c0);
            assert forall|x: int, y: int| s0.len() <= x < seen@.len() && 0 <= y < x implies #[trigger] seen@[y]@
                != #[trigger] seen@[x]@ by {
                assert(x == s0.len());
                assert(seen@[y] == s0[y]);
            }
            assert(candidates@[c0.len() as int].classes@ == pat);
            assert(candidates@[c0.len() as int].assignment == res->0);
        }
    }
}

/// What `feasible_assignment` may answer for a composition: its promise.
pub open spec fn flow_may_answer(
    classes: Seq<Vec<LevelId>>,
    lc: Seq<(LevelId, u32)>,
    m: u32,
    min_c: u32,
    min_dual: u32,
    r: Option<Assignment>,
) -> bool {
    let cnts = level_counts_of(lc);
    let cs = class_levels(classes, lc);
    let mdl = effective_dual_min(min_dual);
    &&& !all_known(classes, lc) ==> r is None
    &&& all_known(classes, lc) && !reserve_ok(cnts, cs, m as int, mdl) ==> r is None
    &&& r matches Some(a) ==> all_known(classes, lc) && assignment_ok(a, classes, lc, m, min_c, min_dual)
    &&& min_c == 0 ==> (r is Some <==> all_known(classes, lc) && feasible_idx(cnts, cs, m as int, mdl))
    &&& all_known(classes, lc) && feasible_idx(cnts, cs, m as int, mdl) ==> exists|x: spec_fn(int, int) -> int|
        #[trigger] full_ok(x, cnts, cs, m as int, mdl) && (r is Some <==> sums_min_ok(x, cs, min_c as int)) && (r matches Some(
            a,
        ) ==> forall|c: int, j: int| 0 <= c < cs.len() && 0 <= j < cs[c].len() ==> #[trigger] placed(a, classes)(c, j) == x(c, j))
}

/// The answer leaves the composition out: no assignment, or an empty class.
pub open spec fn rejected(r: Option<Assignment>) -> bool {
    r is None || exists|i: int| 0 <= i < r->0.class_totals@.len() && #[trigger] r->0.class_totals@[i] == 0
}

/// Some answer that `feasible_assignment` may give leaves the composition
/// out.
pub open spec fn flow_may_reject(classes: Seq<Vec<LevelId>>, lc: Seq<(LevelId, u32)>, m: u32, min_c: u32, min_dual: u32) -> bool {
    exists|r: Option<Assignment>| #[trigger] flow_may_answer(classes, lc, m, min_c, min_dual, r) && rejected(r)
}

/// From depth 0 the prefix plays no part in `search_leaf`.
proof fn lemma_leaf_from_start(
    p: Seq<Vec<LevelId>>,
    a: Seq<Vec<LevelId>>,
    b: Seq<Vec<LevelId>>,
    k: int,
    ranked: Seq<Seq<LevelId>>,
    active: Seq<LevelId>,
    counts: Seq<(LevelId, u32)>,
    m: u32,
    f: Seq<(LevelId, LevelId)>,
)
    requires
        search_leaf(p, a, 0, k, ranked, active, counts, m, f),
    ensures
        search_leaf(p, b, 0, k, ranked, active, counts, m, f),
{
}

/// The complete compositions the search reaches from the first `depth`
/// classes of `prefix`: `k` classes, the first `depth` those of `prefix`, and
/// each later one an option of its depth after which `prune` passes.
pub open spec fn search_leaf(
    p: Seq<Vec<LevelId>>,
    prefix: Seq<Vec<LevelId>>,
    depth: int,
    k: int,
    ranked: Seq<Seq<LevelId>>,
    active: Seq<LevelId>,
    counts: Seq<(LevelId, u32)>,
    m: u32,
    f: Seq<(LevelId, LevelId)>,
) -> bool {
    &&& p.len() == k
    &&& forall|c: int| 0 <= c < depth ==> #[trigger] p[c]@ == prefix[c]@
    &&& forall|d: int|
        depth <= d < k ==> #[trigger] options_at(ranked, p, d, k, active, f).contains(p[d]@) && prune_ok(
            p,
            d + 1,
            active,
            counts,
            k,
            m,
        )
}

proof fn lemma_uncovered_prefix(p: Seq<Vec<LevelId>>, q: Seq<Vec<LevelId>>, d: int, active: Seq<LevelId>)
    requires
        d <= p.len(),
        d <= q.len(),
        forall|c: int| 0 <= c < d ==> #[trigger] p[c]@ == q[c]@,
    ensures
        uncovered_of(p, d, active) == uncovered_of(q, d, active),
    decreases active.len(),
{
    if active.len() > 0 {
        lemma_uncovered_prefix(p, q, d, active.drop_last());
        let name = active.last()@;
        assert(covered(p, d, name) == covered(q, d, name)) by {
            if covered(p, d, name) {
                let i = choose|i: int| 0 <= i < d && i < p.len() && in_group(#[trigger] p[i]@, name);
                assert(in_group(q[i]@, name));
            }
            if covered(q, d, name) {
                let i = choose|i: int| 0 <= i < d && i < q.len() && in_group(#[trigger] q[i]@, name);
                assert(in_group(p[i]@, name));
            }
        }
    }
}

/// The options of a depth depend only on the classes before it.
proof fn lemma_options_prefix(
    ranked: Seq<Seq<LevelId>>,
    p: Seq<Vec<LevelId>>,
    q: Seq<Vec<LevelId>>,
    d: int,
    k: int,
    active: Seq<LevelId>,
    f: Seq<(LevelId, LevelId)>,
)
    requires
        d <= p.len(),
        d <= q.len(),
        forall|c: int| 0 <= c < d ==> #[trigger] p[c]@ == q[c]@,
    ensures
        options_at(ranked, p, d, k, active, f) == options_at(ranked, q, d, k, active, f),
{
    lemma_uncovered_prefix(p, q, d, active);
}

proof fn lemma_rows_with_prefix(p: Seq<Vec<LevelId>>, q: Seq<Vec<LevelId>>, n: int, name: Seq<char>)
    requires
        forall|c: int| 0 <= c < n ==> #[trigger] p[c]@ == q[c]@,
    ensures
        rows_with(p, n, name) == rows_with(q, n, name),
    decreases n,
{
    if n > 0 {
        lemma_rows_with_prefix(p, q, n - 1, name);
        assert(p[n - 1]@ == q[n - 1]@);
    }
}

/// `prune` after depth `d` depends only on the classes up to `d`.
proof fn lemma_prune_prefix(
    p: Seq<Vec<LevelId>>,
    q: Seq<Vec<LevelId>>,
    d: int,
    active: Seq<LevelId>,
    counts: Seq<(LevelId, u32)>,
    k: int,
    m: u32,
)
    requires
        p.len() == q.len(),
        0 <= d < p.len(),
        forall|c: int| 0 <= c <= d ==> #[trigger] p[c]@ == q[c]@,
    ensures
        prune_ok(p, d + 1, active, counts, k, m) == prune_ok(q, d + 1, active, counts, k, m),
{
    assert forall|i: int| 0 <= i < active.len() implies appearances_of(p, d, #[trigger] active[i]@) == appearances_of(
        q,
        d,
        active[i]@,
    ) by {
        lemma_rows_with_prefix(p, q, d + 1, active[i]@);
    }
}

/// The key of a composition depends only on its classes' levels.
proof fn lemma_key_views(p: Seq<Vec<LevelId>>, q: Seq<Vec<LevelId>>)
    requires
        p.len() == q.len(),
        forall|c: int| 0 <= c < p.len() ==> #[trigger] p[c]@ == q[c]@,
    ensures
        pattern_key_of(p) == pattern_key_of(q),
{
    assert(Seq::new(p.len(), |i: int| composition_key(p[i]@)) =~= Seq::new(q.len(), |i: int| composition_key(q[i]@)));
}

/// Whether an assignment fits a composition depends only on the classes'
/// levels.
proof fn lemma_assignment_views(
    a: Assignment,
    p: Seq<Vec<LevelId>>,
    q: Seq<Vec<LevelId>>,
    lc: Seq<(LevelId, u32)>,
    m: u32,
    min_c: u32,
    min_dual: u32,
)
    requires
        p.len() == q.len(),
        forall|c: int| 0 <= c < p.len() ==> #[trigger] p[c]@ == q[c]@,
        assignment_ok(a, p, lc, m, min_c, min_dual),
    ensures
        assignment_ok(a, q, lc, m, min_c, min_dual),
{
    let cs = class_levels(p, lc);
    assert(class_levels(q, lc) =~= cs) by {
        assert forall|c: int| 0 <= c < p.len() implies #[trigger] class_levels(q, lc)[c] =~= cs[c] by {
            assert(p[c]@ == q[c]@);
        }
    }
    let x = placed(a, p);
    let y = placed(a, q);
    assert forall|c: int, j: int| 0 <= c < cs.len() && 0 <= j < cs[c].len() implies #[trigger] y(c, j) == x(c, j) by {
        assert(p[c]@ == q[c]@);
    }
    crate::flow::lemma_full_ok_ext(x, y, level_counts_of(lc), cs, m as int, effective_dual_min(min_dual));
    assert forall|c: int| 0 <= c < q.len() implies #[trigger] a.per_class@[c]@ == crate::flow::positive_entries(
        q[c]@,
        Seq::new(q[c]@.len(), |j: int| placed(a, q)(c, j) as u32),
    ) by {
        assert(p[c]@ == q[c]@);
        assert(a.per_class@[c]@ == crate::flow::positive_entries(
            p[c]@,
            Seq::new(p[c]@.len(), |j: int| placed(a, p)(c, j) as u32),
        ));
        assert(Seq::new(q[c]@.len(), |j: int| placed(a, q)(c, j) as u32) =~= Seq::new(
            p[c]@.len(),
            |j: int| placed(a, p)(c, j) as u32,
        ));
    }
    assert forall|c: int| 0 <= c < q.len() implies #[trigger] a.class_totals@[c] == crate::flow::class_sum(y, cs, c) by {
        assert(a.class_totals@[c] == crate::flow::class_sum(x, cs, c));
        crate::sums::lemma_sum_ext(cs[c].len() as int, crate::sums::row_of(x, c), crate::sums::row_of(y, c));
    }
}

/// An answer the flow may give for `p` it may give for `q` when the classes
/// hold the same levels.
proof fn lemma_answer_views(
    p: Seq<Vec<LevelId>>,
    q: Seq<Vec<LevelId>>,
    lc: Seq<(LevelId, u32)>,
    m: u32,
    min_c: u32,
    min_dual: u32,
    r: Option<Assignment>,
)
    requires
        p.len() == q.len(),
        forall|c: int| 0 <= c < p.len() ==> #[trigger] p[c]@ == q[c]@,
        flow_may_answer(p, lc, m, min_c, min_dual, r),
    ensures
        flow_may_answer(q, lc, m, min_c, min_dual, r),
{
    let cs = class_levels(p, lc);
    let cnts = level_counts_of(lc);
    let mdl = effective_dual_min(min_dual);
    assert(all_known(p, lc) == all_known(q, lc)) by {
        if all_known(p, lc) {
            assert forall|c: int, j: int| 0 <= c < q.len() && 0 <= j < q[c]@.len() implies level_pos(lc, #[trigger] q[c]@[j]@) >= 0 by {
                assert(p[c]@ == q[c]@);
                assert(level_pos(lc, p[c]@[j]@) >= 0);
            }
        }
        if all_known(q, lc) {
            assert forall|c: int, j: int| 0 <= c < p.len() && 0 <= j < p[c]@.len() implies level_pos(lc, #[trigger] p[c]@[j]@) >= 0 by {
                assert(p[c]@ == q[c]@);
                assert(level_pos(lc, q[c]@[j]@) >= 0);
            }
        }
    }
    assert(cs =~= class_levels(q, lc)) by {
        assert forall|c: int| 0 <= c < p.len() implies #[trigger] class_levels(p, lc)[c] =~= class_levels(q, lc)[c] by {
            assert(p[c]@ == q[c]@);
        }
    }
    if r is Some {
        let a = r->0;
        lemma_assignment_views(a, p, q, lc, m, min_c, min_dual);
        assert forall|c: int, j: int| 0 <= c < cs.len() && 0 <= j < cs[c].len() implies #[trigger] placed(a, p)(c, j) == placed(
            a,
            q,
        )(c, j) by {
            assert(p[c]@ == q[c]@);
        }
    }
    if all_known(p, lc) && feasible_idx(cnts, cs, m as int, mdl) {
        let x = choose|x: spec_fn(int, int) -> int|
            #[trigger] full_ok(x, cnts, cs, m as int, mdl) && (r is Some <==> sums_min_ok(x, cs, min_c as int)) && (r matches Some(
                a,
            ) ==> forall|c: int, j: int| 0 <= c < cs.len() && 0 <= j < cs[c].len() ==> #[trigger] placed(a, p)(c, j) == x(c, j));
        if r is Some {
            let a = r->0;
            assert forall|c: int, j: int| 0 <= c < cs.len() && 0 <= j < cs[c].len() implies #[trigger] placed(a, q)(c, j) == x(
                c,
                j,
            ) by {
                assert(placed(a, p)(c, j) == placed(a, q)(c, j));
            }
        }
        assert(full_ok(x, cnts, class_levels(q, lc), m as int, mdl));
    }
}

/// What the flow may answer depends only on the classes' levels.
proof fn lemma_flow_views(
    p: Seq<Vec<LevelId>>,
    q: Seq<Vec<LevelId>>,
    lc: Seq<(LevelId, u32)>,
    m: u32,
    min_c: u32,
    min_dual: u32,
)
    requires
        p.len() == q.len(),
        forall|c: int| 0 <= c < p.len() ==> #[trigger] p[c]@ == q[c]@,
    ensures
        flow_may_reject(p, lc, m, min_c, min_dual) == flow_may_reject(q, lc, m, min_c, min_dual),
{
    assert forall|r: Option<Assignment>| #[trigger] flow_may_answer(p, lc, m, min_c, min_dual, r) == flow_may_answer(
        q,
        lc,
        m,
        min_c,
        min_dual,
        r,
    ) by {
        if flow_may_answer(p, lc, m, min_c, min_dual, r) {
            lemma_answer_views(p, q, lc, m, min_c, min_dual, r);
        }
        if flow_may_answer(q, lc, m, min_c, min_dual, r) {
            lemma_answer_views(q, p, lc, m, min_c, min_dual, r);
        }
    }
    if flow_may_reject(p, lc, m, min_c, min_dual) {
        let r = choose|r: Option<Assignment>| #[trigger] flow_may_answer(p, lc, m, min_c, min_dual, r) && rejected(r);
        assert(flow_may_answer(q, lc, m, min_c, min_dual, r));
    }
    if flow_may_reject(q, lc, m, min_c, min_dual) {
        let r = choose|r: Option<Assignment>| #[trigger] flow_may_answer(q, lc, m, min_c, min_dual, r) && rejected(r);
        assert(flow_may_answer(p, lc, m, min_c, min_dual, r));
    }
}

/// The most options the search tries at one depth: the number of ranked
/// compositions, and 1 when there are none.
pub open spec fn options_cap(ranked: Seq<Seq<LevelId>>) -> nat {
    if ranked.len() > 0 {
        ranked.len()
    } else {
        1
    }
}

/// A bound on the nodes the search counts below a depth with `h` classes
/// left, when each depth tries at most `r` options.
pub open spec fn tree_bound(r: nat, h: nat) -> nat
    decreases h,
{
    if h == 0 {
        1
    } else {
        1 + r * tree_bound(r, (h - 1) as nat)
    }
}

proof fn lemma_bound_step(n0: int, i: int, r: int, t: int, len: int, budget: int)
    requires
        0 <= i < len <= r,
        t >= 0,
        n0 + 1 + r * t <= budget,
    ensures
        n0 + 1 + i * t + t == n0 + 1 + (i + 1) * t,
        n0 + 1 + (i + 1) * t <= budget,
        n0 + 1 + i * t <= n0 + 1 + (i + 1) * t,
{
    assert((i + 1) * t == i * t + t) by (nonlinear_arith);
    assert((i + 1) * t <= r * t) by (nonlinear_arith)
        requires
            i + 1 <= r,
            t >= 0,
    ;
}

proof fn lemma_bound_end(n0: int, len: int, r: int, t: int)
    requires
        0 <= len <= r,
        t >= 0,
    ensures
        n0 + 1 + len * t <= n0 + 1 + r * t,
{
    assert(len * t <= r * t) by (nonlinear_arith)
        requires
            len <= r,
            t >= 0,
    ;
}

proof fn lemma_options_len(
    ranked: Seq<Seq<LevelId>>,
    pattern: Seq<Vec<LevelId>>,
    depth: int,
    k: int,
    active: Seq<LevelId>,
    f: Seq<(LevelId, LevelId)>,
)
    ensures
        options_at(ranked, pattern, depth, k, active, f).len() <= options_cap(ranked),
{
}

/// Some of the first `i` options is `row`.
pub open spec fn option_tried(opts: Seq<Vec<LevelId>>, i: int, row: Seq<LevelId>) -> bool {
    exists|x: int| 0 <= x < i && #[trigger] opts[x]@ == row
}

proof fn lemma_has_key_grow(s0: Seq<String>, s1: Seq<String>, key: Seq<char>)
    requires
        has_key(s0, key),
        s0.len() <= s1.len(),
        s1.take(s0.len() as int) == s0,
    ensures
        has_key(s1, key),
{
    let x = choose|x: int| 0 <= x < s0.len() && #[trigger] s0[x]@ == key;
    assert(s1.take(s0.len() as int)[x] == s1[x]);
}

/// Depth-first search over the compositions of the classes `depth..k`,
/// trying for each class the options of `enumerate_options` (each one of
/// `compositions_of`) in order and
/// cutting the branches that `prune` rejects; each complete composition is
/// offered to `try_add_candidate`. Each call counts one node; once more than
/// `budget` nodes are counted the search stops. The nodes are counted in
/// depth-first order (`leaf_pos`): every complete composition whose node
/// comes within the budget has its key recorded, or is one the flow may
/// leave out; when the whole search below fits in the budget it counts
/// exactly `tree_size` nodes.
pub fn dfs(
    cfg: &AppConfig,
    active: &[LevelId],
    counts: &Vec<(LevelId, u32)>,
    ranked: &Vec<Vec<LevelId>>,
    k: usize,
    m: u32,
    min_c: u32,
    min_dual: u32,
    depth: usize,
    pattern: &mut Vec<Vec<LevelId>>,
    dfs_nodes: &mut usize,
    budget: usize,
    candidates: &mut Vec<Candidate>,
    seen: &mut Vec<String>,
)
    requires
        depth <= k,
        old(pattern)@.len() == k,
        budget < usize::MAX,
        names_distinct(counts@),
        class_names_distinct(active@),
        forall|c: int| 0 <= c < ranked@.len() ==> class_names_distinct(#[trigger] ranked@[c]@),
        forall|c: int| 0 <= c < depth ==> class_names_distinct(#[trigger] old(pattern)@[c]@),
        forall|c: int| 0 <= c < ranked@.len() ==> allowed_class(#[trigger] ranked@[c]@, cfg.plan.forbidden_pairs@),
        forall|c: int| 0 <= c < depth ==> allowed_class(#[trigger] old(pattern)@[c]@, cfg.plan.forbidden_pairs@),
        forall|c: int| 0 <= c < ranked@.len() ==> compositions_of(active@, cfg.plan.forbidden_pairs@).contains(#[trigger] ranked@[c]@),
        forall|c: int| 0 <= c < depth ==> compositions_of(active@, cfg.plan.forbidden_pairs@).contains(#[trigger] old(pattern)@[c]@),
        counts@.len() + k + 2 < 0x4000_0000,
    ensures
        final(pattern)@.len() == k,
        forall|j: int|
            old(candidates)@.len() <= j < final(candidates)@.len() ==> classes_allowed(
                #[trigger] final(candidates)@[j].classes@,
                cfg.plan.forbidden_pairs@,
            ),
        forall|j: int|
            old(candidates)@.len() <= j < final(candidates)@.len() ==> drawn_from(
                #[trigger] final(candidates)@[j].classes@,
                compositions_of(active@, cfg.plan.forbidden_pairs@),
            ),
        forall|c: int| 0 <= c < depth ==> #[trigger] final(pattern)@[c] == old(pattern)@[c],
        *final(dfs_nodes) >= *old(dfs_nodes),
        *old(dfs_nodes) < usize::MAX ==> *final(dfs_nodes) > *old(dfs_nodes),
        *old(dfs_nodes) >= budget ==> final(candidates)@ == old(candidates)@ && final(seen)@ == old(seen)@,
        extends(
            old(candidates)@,
            final(candidates)@,
            old(seen)@,
            final(seen)@,
            counts@,
            m,
            min_c,
            min_dual,
            k as int,
        ),
        depth < k || prune_ok(old(pattern)@, k as int, active@, counts@, k as int, m) ==> forall|j: int|
            old(candidates)@.len() <= j < final(candidates)@.len() ==> prune_ok(
                #[trigger] final(candidates)@[j].classes@,
                k as int,
                active@,
                counts@,
                k as int,
                m,
            ),
        *old(dfs_nodes) + tree_bound(options_cap(comps(ranked@)), (k - depth) as nat) <= budget ==> *final(dfs_nodes)
            <= *old(dfs_nodes) + tree_bound(options_cap(comps(ranked@)), (k - depth) as nat),
        *final(dfs_nodes) <= budget ==> forall|p: Seq<Vec<LevelId>>|
            #[trigger] search_leaf(
                p,
                old(pattern)@,
                depth as int,
                k as int,
                comps(ranked@),
                active@,
                counts@,
                m,
                cfg.plan.forbidden_pairs@,
            ) ==> has_key(final(seen)@, pattern_key_of(p)) || flow_may_reject(p, counts@, m, min_c, min_dual),
        *old(dfs_nodes) + tree_size(
            comps(ranked@),
            comps(old(pattern)@).take(depth as int),
            k as int,
            active@,
            counts@,
            m,
            cfg.plan.forbidden_pairs@,
        ) <= budget ==> *final(dfs_nodes) == *old(dfs_nodes) + tree_size(
            comps(ranked@),
            comps(old(pattern)@).take(depth as int),
            k as int,
            active@,
            counts@,
            m,
            cfg.plan.forbidden_pairs@,
        ),
        forall|p: Seq<Vec<LevelId>>|
            #[trigger] search_leaf(
                p,
                old(pattern)@,
                depth as int,
                k as int,
                comps(ranked@),
                active@,
                counts@,
                m,
                cfg.plan.forbidden_pairs@,
            ) && *old(dfs_nodes) + leaf_pos(
                comps(ranked@),
                comps(old(pattern)@).take(depth as int),
                k as int,
                active@,
                counts@,
                m,
                cfg.plan.forbidden_pairs@,
                comps(p),
            ) <= budget ==> has_key(final(seen)@, pattern_key_of(p)) || flow_may_reject(p, counts@, m, min_c, min_dual),
    decreases k - depth,
{
    let ghost c0 = candidates@;
    let ghost s0 = seen@;
    let ghost p0 = pattern@;
    let ghost n0 = *dfs_nodes;
    let ghost pool = compositions_of(active@, cfg.plan.forbidden_pairs@);
    let ghost rv = comps(ranked@);
    let ghost pre = comps(p0).take(depth as int);
    proof {
        lemma_extends_refl(c0, s0, counts@, m, min_c, min_dual, k as int);
    }
    *dfs_nodes = (*dfs_nodes).saturating_add(1);
    if *dfs_nodes > budget {
        proof {
            assert(tree_size(rv, pre, k as int, active@, counts@, m, cfg.plan.forbidden_pairs@) >= 1);
            assert forall|lv: Seq<Seq<LevelId>>| #[trigger] leaf_pos(rv, pre, k as int, active@, counts@, m, cfg.plan.forbidden_pairs@, lv) >= 1 by {
            }
        }
        return;
    }
    if depth == k {
        let copy = copy_compositions(pattern);
        proof {
            assert(comps(copy@).len() == copy@.len());
            assert(comps(pattern@).len() == pattern@.len());
            assert forall|c: int| 0 <= c < copy@.len() implies class_names_distinct(#[trigger] copy@[c]@) by {
                assert(comps(copy@)[c] == comps(pattern@)[c]);
                assert(class_names_distinct(old(pattern)@[c]@));
            }
            assert(copy@.len() == k);
        }
        let ghost cp = copy@;
        proof {
            assert forall|r: int| 0 <= r < cp.len() implies class_names_distinct(#[trigger] cp[r]@) && allowed_class(
                cp[r]@,
                cfg.plan.forbidden_pairs@,
            ) by {
                assert(comps(copy@)[r] == comps(pattern@)[r]);
                assert(allowed_class(old(pattern)@[r]@, cfg.plan.forbidden_pairs@));
                assert(class_names_distinct(old(pattern)@[r]@));
            }
        }
        try_add_candidate(copy, counts, m, min_c, min_dual, candidates, seen);
        proof {
            assert forall|p: Seq<Vec<LevelId>>|
                #[trigger] search_leaf(
                    p,
                    p0,
                    depth as int,
                    k as int,
                    comps(ranked@),
                    active@,
                    counts@,
                    m,
                    cfg.plan.forbidden_pairs@,
                ) implies has_key(seen@, pattern_key_of(p)) || flow_may_reject(p, counts@, m, min_c, min_dual) by {
                assert forall|c: int| 0 <= c < p.len() implies #[trigger] p[c]@ == cp[c]@ by {
                    assert(p[c]@ == p0[c]@);
                    assert(comps(copy@)[c] == comps(pattern@)[c]);
                }
                lemma_key_views(p, cp);
                lemma_flow_views(p, cp, counts@, m, min_c, min_dual);
            }
            assert forall|j: int| c0.len() <= j < candidates@.len() implies classes_allowed(
                #[trigger] candidates@[j].classes@,
                cfg.plan.forbidden_pairs@,
            ) && drawn_from(candidates@[j].classes@, pool) by {
                assert(j == candidates@.len() - 1);
                assert(candidates@[j].classes@ == cp);
                assert forall|r: int| 0 <= r < cp.len() implies pool.contains(#[trigger] cp[r]@) by {
                    assert(comps(copy@)[r] == comps(p0)[r]);
                    assert(pool.contains(p0[r]@));
                }
            }
            if prune_ok(old(pattern)@, k as int, active@, counts@, k as int, m) {
                lemma_prune_ok_comps(old(pattern)@, cp, k as int, active@, counts@, k as int, m);
                assert forall|j: int| c0.len() <= j < candidates@.len() implies prune_ok(
                    #[trigger] candidates@[j].classes@,
                    k as int,
                    active@,
                    counts@,
                    k as int,
                    m,
                ) by {
                    assert(j == candidates@.len() - 1);
                    assert(candidates@[j].classes@ == cp);
                }
            }
        }
        proof {
            assert(pre.len() == k);
            assert(tree_size(rv, pre, k as int, active@, counts@, m, cfg.plan.forbidden_pairs@) == 1);
            assert forall|lv: Seq<Seq<LevelId>>| #[trigger] leaf_pos(rv, pre, k as int, active@, counts@, m, cfg.plan.forbidden_pairs@, lv) == 1 by {
            }
        }
        return;
    }
    let opts = enumerate_options(cfg, active, ranked, pattern.as_slice(), depth, k);
    proof {
        assert forall|c: int| 0 <= c < comps(ranked@).len() implies class_names_distinct(#[trigger] comps(ranked@)[c]) by {
            assert(comps(ranked@)[c] == ranked@[c]@);
        }
        lemma_options_distinct(comps(ranked@), pattern@, depth as int, k as int, active@, cfg.plan.forbidden_pairs@);
        assert forall|c: int| 0 <= c < comps(ranked@).len() implies allowed_class(#[trigger] comps(ranked@)[c], cfg.plan.forbidden_pairs@) by {
            assert(comps(ranked@)[c] == ranked@[c]@);
        }
        lemma_options_allowed(comps(ranked@), pattern@, depth as int, k as int, active@, cfg.plan.forbidden_pairs@);
        assert forall|c: int| 0 <= c < opts@.len() implies class_names_distinct(#[trigger] opts@[c]@) && allowed_class(
            opts@[c]@,
            cfg.plan.forbidden_pairs@,
        ) by {
            assert(comps(opts@)[c] == opts@[c]@);
        }
        lemma_options_len(comps(ranked@), pattern@, depth as int, k as int, active@, cfg.plan.forbidden_pairs@);
        assert(comps(opts@).len() == opts@.len());
        lemma_options_view(rv, p0, depth as int, k as int, active@, cfg.plan.forbidden_pairs@);
        lemma_found_start(
            p0,
            depth as int,
            k as int,
            rv,
            active@,
            counts@,
            m,
            cfg.plan.forbidden_pairs@,
            min_c,
            min_dual,
            comps(opts@),
            n0 as int,
            budget as int,
            seen@,
        );
        assert forall|c: int| 0 <= c < comps(ranked@).len() implies pool.contains(#[trigger] comps(ranked@)[c]) by {
            assert(comps(ranked@)[c] == ranked@[c]@);
        }
        lemma_options_in_pool(comps(ranked@), pattern@, depth as int, k as int, active@, cfg.plan.forbidden_pairs@);
        assert forall|c: int| 0 <= c < opts@.len() implies pool.contains(#[trigger] opts@[c]@) by {
            assert(comps(opts@)[c] == opts@[c]@);
        }
    }
    let ghost rcap = options_cap(comps(ranked@));
    let ghost tb = tree_bound(rcap, (k - depth - 1) as nat);
    proof {
        assert(tree_bound(rcap, (k - depth) as nat) == 1 + rcap * tb);
    }
    let mut i: usize = 0;
    while i < opts.len()
        invariant
            depth < k,
            pattern@.len() == k,
            budget < usize::MAX,
            names_distinct(counts@),
            class_names_distinct(active@),
            forall|c: int| 0 <= c < ranked@.len() ==> class_names_distinct(#[trigger] ranked@[c]@),
            forall|c: int| 0 <= c < opts@.len() ==> class_names_distinct(#[trigger] opts@[c]@),
            forall|c: int| 0 <= c < opts@.len() ==> allowed_class(#[trigger] opts@[c]@, cfg.plan.forbidden_pairs@),
            forall|c: int| 0 <= c < ranked@.len() ==> allowed_class(#[trigger] ranked@[c]@, cfg.plan.forbidden_pairs@),
            forall|c: int| 0 <= c < depth ==> #[trigger] pattern@[c] == p0[c],
            forall|c: int| 0 <= c < depth ==> class_names_distinct(#[trigger] p0[c]@),
            forall|c: int| 0 <= c < depth ==> allowed_class(#[trigger] p0[c]@, cfg.plan.forbidden_pairs@),
            pool == compositions_of(active@, cfg.plan.forbidden_pairs@),
            forall|c: int| 0 <= c < opts@.len() ==> pool.contains(#[trigger] opts@[c]@),
            forall|c: int| 0 <= c < ranked@.len() ==> pool.contains(#[trigger] ranked@[c]@),
            forall|c: int| 0 <= c < depth ==> pool.contains(#[trigger] p0[c]@),
            forall|j: int| c0.len() <= j < candidates@.len() ==> drawn_from(#[trigger] candidates@[j].classes@, pool),
            forall|j: int|
                c0.len() <= j < candidates@.len() ==> classes_allowed(
                    #[trigger] candidates@[j].classes@,
                    cfg.plan.forbidden_pairs@,
                ),
            counts@.len() + k + 2 < 0x4000_0000,
                *dfs_nodes >= n0,
            n0 < usize::MAX ==> *dfs_nodes > n0,
            extends(c0, candidates@, s0, seen@, counts@, m, min_c, min_dual, k as int),
            i <= opts@.len(),
            rcap == options_cap(comps(ranked@)),
            tb == tree_bound(rcap, (k - depth - 1) as nat),
            tree_bound(rcap, (k - depth) as nat) == 1 + rcap * tb,
            opts@.len() <= options_cap(comps(ranked@)),
            n0 + tree_bound(options_cap(comps(ranked@)), (k - depth) as nat) <= budget ==> *dfs_nodes <= n0 + 1 + i
                * tree_bound(options_cap(comps(ranked@)), (k - depth - 1) as nat),
            comps(opts@) == options_at(comps(ranked@), p0, depth as int, k as int, active@, cfg.plan.forbidden_pairs@),
            p0.len() == k,
            rv == comps(ranked@),
            pre == comps(p0).take(depth as int),
            comps(opts@) == options_v(rv, pre, k as int, active@, cfg.plan.forbidden_pairs@),
            n0 + 1 + subtrees_size(rv, pre, k as int, active@, counts@, m, cfg.plan.forbidden_pairs@, i as int) <= budget
                ==> *dfs_nodes == n0 + 1 + subtrees_size(rv, pre, k as int, active@, counts@, m, cfg.plan.forbidden_pairs@, i as int),
            leaves_found(
                p0,
                depth as int,
                k as int,
                rv,
                active@,
                counts@,
                m,
                cfg.plan.forbidden_pairs@,
                min_c,
                min_dual,
                comps(opts@),
                i as int,
                n0 as int,
                budget as int,
                seen@,
            ),
            *dfs_nodes <= budget ==> forall|p: Seq<Vec<LevelId>>|
                #[trigger] search_leaf(
                    p,
                    p0,
                    depth as int,
                    k as int,
                    comps(ranked@),
                    active@,
                    counts@,
                    m,
                    cfg.plan.forbidden_pairs@,
                ) && option_tried(opts@, i as int, p[depth as int]@) ==> has_key(seen@, pattern_key_of(p))
                    || flow_may_reject(p, counts@, m, min_c, min_dual),
            forall|j: int|
                c0.len() <= j < candidates@.len() ==> prune_ok(
                    #[trigger] candidates@[j].classes@,
                    k as int,
                    active@,
                    counts@,
                    k as int,
                    m,
                ),
        decreases opts@.len() - i,
    {
        let comp = copy_names(&opts[i]);
        let ghost cs0 = candidates@;
        let ghost ss0 = seen@;
        let ghost nn0 = *dfs_nodes;
        pattern.set(depth, comp);
        let ghost ov = comps(opts@)[i as int];
        let ghost cp = pre.push(ov);
        proof {
            assert(comps(pattern@).take(depth + 1) =~= cp) by {
                assert forall|c: int| 0 <= c < depth implies comps(pattern@).take(depth + 1)[c] == cp[c] by {
                    assert(pattern@[c] == p0[c]);
                }
            }
            lemma_prune_view(pattern@, depth as int, active@, counts@, k as int, m);
            assert(options_v(rv, pre, k as int, active@, cfg.plan.forbidden_pairs@)[i as int] == ov);
            assert(subtrees_size(rv, pre, k as int, active@, counts@, m, cfg.plan.forbidden_pairs@, i + 1) == subtrees_size(
                rv,
                pre,
                k as int,
                active@,
                counts@,
                m,
                cfg.plan.forbidden_pairs@,
                i as int,
            ) + if prune_v(cp, active@, counts@, k as int, m) {
                tree_size(rv, cp, k as int, active@, counts@, m, cfg.plan.forbidden_pairs@)
            } else {
                0
            });
        }
        proof {
            assert forall|c: int| 0 <= c < depth + 1 implies class_names_distinct(#[trigger] pattern@[c]@) && allowed_class(
                pattern@[c]@,
                cfg.plan.forbidden_pairs@,
            ) && pool.contains(pattern@[c]@) by {
                if c < depth {
                    assert(pattern@[c] == p0[c]);
                }
            }
        }
        if prune(pattern.as_slice(), depth + 1, active, counts, k, m) {
            let ghost c1 = candidates@;
            let ghost s1 = seen@;
            let ghost p1 = pattern@;
            dfs(
                cfg,
                active,
                counts,
                ranked,
                k,
                m,
                min_c,
                min_dual,
                depth + 1,
                pattern,
                dfs_nodes,
                budget,
                candidates,
                seen,
            );
            proof {
                lemma_found_pass(
                    p0,
                    p1,
                    depth as int,
                    k as int,
                    rv,
                    active@,
                    counts@,
                    m,
                    cfg.plan.forbidden_pairs@,
                    min_c,
                    min_dual,
                    comps(opts@),
                    i as int,
                    n0 as int,
                    nn0 as int,
                    budget as int,
                    s1,
                    seen@,
                );
            }
            proof {
                lemma_extends_trans(c0, c1, candidates@, s0, s1, seen@, counts@, m, min_c, min_dual, k as int);
                assert forall|c: int| 0 <= c < depth implies #[trigger] pattern@[c] == p0[c] by {
                    assert(pattern@[c] == p1[c]);
                }
                if n0 + tree_bound(rcap, (k - depth) as nat) <= budget {
                    lemma_bound_step(n0 as int, i as int, rcap as int, tb as int, opts@.len() as int, budget as int);
                    assert(nn0 + tb <= budget);
                    assert(*dfs_nodes <= nn0 + tb);
                }
                if *dfs_nodes <= budget {
                    assert forall|p: Seq<Vec<LevelId>>|
                        #[trigger] search_leaf(
                            p,
                            p0,
                            depth as int,
                            k as int,
                            comps(ranked@),
                            active@,
                            counts@,
                            m,
                            cfg.plan.forbidden_pairs@,
                        ) && option_tried(opts@, i + 1, p[depth as int]@) implies has_key(seen@, pattern_key_of(p))
                        || flow_may_reject(p, counts@, m, min_c, min_dual) by {
                        if p[depth as int]@ == opts@[i as int]@ {
                            assert(search_leaf(
                                p,
                                p1,
                                depth + 1,
                                k as int,
                                comps(ranked@),
                                active@,
                                counts@,
                                m,
                                cfg.plan.forbidden_pairs@,
                            )) by {
                                assert forall|c: int| 0 <= c < depth + 1 implies #[trigger] p[c]@ == p1[c]@ by {
                                    if c < depth {
                                        assert(p[c]@ == p0[c]@);
                                        assert(p1[c] == p0[c]);
                                    }
                                }
                            }
                        } else {
                            let x = choose|x: int| 0 <= x < i + 1 && #[trigger] opts@[x]@ == p[depth as int]@;
                            assert(option_tried(opts@, i as int, p[depth as int]@));
                            if !has_key(s1, pattern_key_of(p)) {
                                assert(flow_may_reject(p, counts@, m, min_c, min_dual));
                            } else {
                                lemma_has_key_grow(s1, seen@, pattern_key_of(p));
                            }
                        }
                    }
                }
                assert forall|j: int| c0.len() <= j < candidates@.len() implies prune_ok(
                    #[trigger] candidates@[j].classes@,
                    k as int,
                    active@,
                    counts@,
                    k as int,
                    m,
                ) && classes_allowed(candidates@[j].classes@, cfg.plan.forbidden_pairs@) && drawn_from(
                    candidates@[j].classes@,
                    pool,
                ) by {
                    if j < c1.len() {
                        assert(candidates@.take(c1.len() as int)[j] == c1[j]);
                    }
                }
            }
        } else {
            proof {
                lemma_found_skip(
                    p0,
                    depth as int,
                    k as int,
                    rv,
                    active@,
                    counts@,
                    m,
                    cfg.plan.forbidden_pairs@,
                    min_c,
                    min_dual,
                    comps(opts@),
                    i as int,
                    n0 as int,
                    budget as int,
                    seen@,
                );
            }
            proof {
                if n0 + tree_bound(rcap, (k - depth) as nat) <= budget {
                    lemma_bound_step(n0 as int, i as int, rcap as int, tb as int, opts@.len() as int, budget as int);
                }
                if *dfs_nodes <= budget {
                    assert forall|p: Seq<Vec<LevelId>>|
                        #[trigger] search_leaf(
                            p,
                            p0,
                            depth as int,
                            k as int,
                            comps(ranked@),
                            active@,
                            counts@,
                            m,
                            cfg.plan.forbidden_pairs@,
                        ) && option_tried(opts@, i + 1, p[depth as int]@) implies has_key(seen@, pattern_key_of(p))
                        || flow_may_reject(p, counts@, m, min_c, min_dual) by {
                        if p[depth as int]@ == opts@[i as int]@ {
                            assert forall|c: int| 0 <= c <= depth implies #[trigger] p[c]@ == pattern@[c]@ by {
                                if c < depth {
                                    assert(p[c]@ == p0[c]@);
                                    assert(pattern@[c] == p0[c]);
                                }
                            }
                            lemma_prune_prefix(p, pattern@, depth as int, active@, counts@, k as int, m);
                            assert(options_at(comps(ranked@), p, depth as int, k as int, active@, cfg.plan.forbidden_pairs@).contains(
                                p[depth as int]@,
                            ));
                            assert(prune_ok(p, depth + 1, active@, counts@, k as int, m));
                            assert(false);
                        } else {
                            let x = choose|x: int| 0 <= x < i + 1 && #[trigger] opts@[x]@ == p[depth as int]@;
                            assert(option_tried(opts@, i as int, p[depth as int]@));
                        }
                    }
                }
            }
        }
        i = i + 1;
    }
    proof {
        lemma_found_end(
            p0,
            depth as int,
            k as int,
            rv,
            active@,
            counts@,
            m,
            cfg.plan.forbidden_pairs@,
            min_c,
            min_dual,
            comps(opts@),
            n0 as int,
            budget as int,
            seen@,
        );
        assert(tree_size(rv, pre, k as int, active@, counts@, m, cfg.plan.forbidden_pairs@) == 1 + subtrees_size(
            rv,
            pre,
            k as int,
            active@,
            counts@,
            m,
            cfg.plan.forbidden_pairs@,
            opts@.len() as int,
        ));
    }
    proof {
        lemma_bound_end(n0 as int, opts@.len() as int, rcap as int, tb as int);
        if *dfs_nodes <= budget {
            assert forall|p: Seq<Vec<LevelId>>|
                #[trigger] search_leaf(
                    p,
                    p0,
                    depth as int,
                    k as int,
                    comps(ranked@),
                    active@,
                    counts@,
                    m,
                    cfg.plan.forbidden_pairs@,
                ) implies has_key(seen@, pattern_key_of(p)) || flow_may_reject(p, counts@, m, min_c, min_dual) by {
                assert(options_at(comps(ranked@), p, depth as int, k as int, active@, cfg.plan.forbidden_pairs@).contains(
                    p[depth as int]@,
                ));
                assert forall|c: int| 0 <= c < depth implies #[trigger] p[c]@ == p0[c]@ by {
                }
                lemma_options_prefix(comps(ranked@), p, p0, depth as int, k as int, active@, cfg.plan.forbidden_pairs@);
                let x = choose|x: int| 0 <= x < comps(opts@).len() && comps(opts@)[x] == p[depth as int]@;
                assert(opts@[x]@ == p[depth as int]@);
                assert(option_tried(opts@, i as int, p[depth as int]@));
            }
        }
    }
}

// ---------------------------------------------------------------------------
// The order in which the depth-first search visits its nodes.
// ---------------------------------------------------------------------------

/// `covered`, over the classes set so far given as their levels.
pub open spec fn covered_v(pre: Seq<Seq<LevelId>>, name: Seq<char>) -> bool {
    exists|i: int| 0 <= i < pre.len() && in_group(#[trigger] pre[i], name)
}

/// `uncovered_of`, over the classes set so far given as their levels.
pub open spec fn uncovered_v(pre: Seq<Seq<LevelId>>, active: Seq<LevelId>) -> Seq<LevelId>
    decreases active.len(),
{
    if active.len() == 0 {
        Seq::empty()
    } else {
        let r = uncovered_v(pre, active.drop_last());
        if covered_v(pre, active.last()@) {
            r
        } else {
            r.push(active.last())
        }
    }
}

/// `options_at` for the class after the classes set so far (`pre`).
pub open spec fn options_v(
    ranked: Seq<Seq<LevelId>>,
    pre: Seq<Seq<LevelId>>,
    k: int,
    active: Seq<LevelId>,
    f: Seq<(LevelId, LevelId)>,
) -> Seq<Seq<LevelId>> {
    let unc = uncovered_v(pre, active);
    if pre.len() + 1 < k {
        ranked
    } else if unc.len() == 0 {
        ranked
    } else if unc.len() == 1 {
        seq![seq![unc[0]]]
    } else if unc.len() == 2 {
        if pair_listed(f, unc[0]@, unc[1]@) {
            Seq::empty()
        } else {
            seq![pair_of(unc[0], unc[1])]
        }
    } else {
        Seq::empty()
    }
}

/// `rows_with`, over classes given as their levels.
pub open spec fn rows_v(pre: Seq<Seq<LevelId>>, n: int, name: Seq<char>) -> int
    decreases n,
{
    if n <= 0 {
        0
    } else {
        rows_v(pre, n - 1, name) + if in_group(pre[n - 1], name) {
            1int
        } else {
            0int
        }
    }
}

/// `prune_ok` after the classes set so far (`pre`).
pub open spec fn prune_v(pre: Seq<Seq<LevelId>>, active: Seq<LevelId>, counts: Seq<(LevelId, u32)>, k: int, m: u32) -> bool {
    let remaining = if k > pre.len() { k - pre.len() } else { 0 };
    forall|i: int|
        0 <= i < active.len() ==> rows_v(pre, pre.len() as int, #[trigger] active[i]@) + remaining >= classes_needed(
            count_of(counts, active[i]@),
            m,
        )
}

/// Number of nodes the search counts below the classes set so far (`pre`),
/// itself included, when nothing stops it.
pub open spec fn tree_size(
    ranked: Seq<Seq<LevelId>>,
    pre: Seq<Seq<LevelId>>,
    k: int,
    active: Seq<LevelId>,
    counts: Seq<(LevelId, u32)>,
    m: u32,
    f: Seq<(LevelId, LevelId)>,
) -> nat
    decreases 2 * (k - pre.len()) + 1, 0int,
{
    if pre.len() >= k {
        1
    } else {
        1 + subtrees_size(ranked, pre, k, active, counts, m, f, options_v(ranked, pre, k, active, f).len() as int)
    }
}

/// Number of nodes the search counts below the first `n` options of the
/// class after `pre` (an option that `prune` rejects counts none).
pub open spec fn subtrees_size(
    ranked: Seq<Seq<LevelId>>,
    pre: Seq<Seq<LevelId>>,
    k: int,
    active: Seq<LevelId>,
    counts: Seq<(LevelId, u32)>,
    m: u32,
    f: Seq<(LevelId, LevelId)>,
    n: int,
) -> nat
    decreases 2 * (k - pre.len()), n,
{
    if n <= 0 || pre.len() >= k {
        0
    } else {
        let o = options_v(ranked, pre, k, active, f)[n - 1];
        subtrees_size(ranked, pre, k, active, counts, m, f, n - 1) + if prune_v(pre.push(o), active, counts, k, m) {
            tree_size(ranked, pre.push(o), k, active, counts, m, f)
        } else {
            0
        }
    }
}

/// Position of the first of `opts[0..n]` equal to `x`, or `n`.
pub open spec fn first_at(opts: Seq<Seq<LevelId>>, x: Seq<LevelId>, n: int) -> int
    decreases n,
{
    if n <= 0 {
        0
    } else {
        let r = first_at(opts, x, n - 1);
        if r < n - 1 {
            r
        } else if opts[n - 1] == x {
            n - 1
        } else {
            n
        }
    }
}

/// The number the search gives, counting from the node of `pre` (which
/// counts 1), to the node of the complete composition `leaf` below it: the
/// nodes of the options tried before `leaf`'s at each depth, and the nodes on
/// the way down.
pub open spec fn leaf_pos(
    ranked: Seq<Seq<LevelId>>,
    pre: Seq<Seq<LevelId>>,
    k: int,
    active: Seq<LevelId>,
    counts: Seq<(LevelId, u32)>,
    m: u32,
    f: Seq<(LevelId, LevelId)>,
    leaf: Seq<Seq<LevelId>>,
) -> nat
    decreases k - pre.len(),
{
    if pre.len() >= k {
        1
    } else {
        let opts = options_v(ranked, pre, k, active, f);
        let c = leaf[pre.len() as int];
        1 + subtrees_size(ranked, pre, k, active, counts, m, f, first_at(opts, c, opts.len() as int)) + leaf_pos(
            ranked,
            pre.push(c),
            k,
            active,
            counts,
            m,
            f,
            leaf,
        )
    }
}

proof fn lemma_first_at(opts: Seq<Seq<LevelId>>, x: Seq<LevelId>, n: int)
    requires
        0 <= n <= opts.len(),
    ensures
        0 <= first_at(opts, x, n) <= n,
        first_at(opts, x, n) < n ==> opts[first_at(opts, x, n)] == x,
        (exists|j: int| 0 <= j < n && opts[j] == x) ==> first_at(opts, x, n) < n,
    decreases n,
{
    if n > 0 {
        lemma_first_at(opts, x, n - 1);
    }
}

/// The classes of a composition up to `d`, as their levels.
proof fn lemma_uncovered_view(p: Seq<Vec<LevelId>>, d: int, active: Seq<LevelId>)
    requires
        0 <= d <= p.len(),
    ensures
        uncovered_of(p, d, active) == uncovered_v(comps(p).take(d), active),
    decreases active.len(),
{
    if active.len() > 0 {
        lemma_uncovered_view(p, d, active.drop_last());
        let name = active.last()@;
        let pre = comps(p).take(d);
        assert(covered(p, d, name) == covered_v(pre, name)) by {
            if covered(p, d, name) {
                let i = choose|i: int| 0 <= i < d && i < p.len() && in_group(#[trigger] p[i]@, name);
                assert(pre[i] == p[i]@);
            }
            if covered_v(pre, name) {
                let i = choose|i: int| 0 <= i < pre.len() && in_group(#[trigger] pre[i], name);
                assert(pre[i] == p[i]@);
            }
        }
    }
}

proof fn lemma_options_view(
    ranked: Seq<Seq<LevelId>>,
    p: Seq<Vec<LevelId>>,
    d: int,
    k: int,
    active: Seq<LevelId>,
    f: Seq<(LevelId, LevelId)>,
)
    requires
        0 <= d <= p.len(),
    ensures
        options_at(ranked, p, d, k, active, f) == options_v(ranked, comps(p).take(d), k, active, f),
{
    lemma_uncovered_view(p, d, active);
}

proof fn lemma_rows_view(p: Seq<Vec<LevelId>>, pre: Seq<Seq<LevelId>>, n: int, name: Seq<char>)
    requires
        n <= pre.len(),
        n <= p.len(),
        forall|c: int| 0 <= c < n ==> #[trigger] pre[c] == p[c]@,
    ensures
        rows_with(p, n, name) == rows_v(pre, n, name),
    decreases n,
{
    if n > 0 {
        lemma_rows_view(p, pre, n - 1, name);
        assert(pre[n - 1] == p[n - 1]@);
    }
}

proof fn lemma_prune_view(
    p: Seq<Vec<LevelId>>,
    d: int,
    active: Seq<LevelId>,
    counts: Seq<(LevelId, u32)>,
    k: int,
    m: u32,
)
    requires
        0 <= d < p.len(),
    ensures
        prune_ok(p, d + 1, active, counts, k, m) == prune_v(comps(p).take(d + 1), active, counts, k, m),
{
    let pre = comps(p).take(d + 1);
    assert forall|i: int| 0 <= i < active.len() implies appearances_of(p, d, #[trigger] active[i]@) == rows_v(
        pre,
        pre.len() as int,
        active[i]@,
    ) by {
        lemma_rows_view(p, pre, d + 1, active[i]@);
    }
}

/// Every complete composition below `p0`'s first `depth` classes whose
/// option at `depth` is among the first `i` of `opts`, and whose node the
/// search counts within `budget` when it counts from `start` at the node of
/// depth `depth`, has its key among `seen` or is one the flow may leave out.
#[verifier::opaque]
pub open spec fn leaves_found(
    p0: Seq<Vec<LevelId>>,
    depth: int,
    k: int,
    rv: Seq<Seq<LevelId>>,
    active: Seq<LevelId>,
    counts: Seq<(LevelId, u32)>,
    m: u32,
    f: Seq<(LevelId, LevelId)>,
    min_c: u32,
    min_dual: u32,
    opts: Seq<Seq<LevelId>>,
    i: int,
    start: int,
    budget: int,
    seen: Seq<String>,
) -> bool {
    forall|p: Seq<Vec<LevelId>>|
        #[trigger] search_leaf(p, p0, depth, k, rv, active, counts, m, f) && first_at(opts, p[depth]@, opts.len() as int) < i
            && start + leaf_pos(rv, comps(p0).take(depth), k, active, counts, m, f, comps(p)) <= budget ==> has_key(
            seen,
            pattern_key_of(p),
        ) || flow_may_reject(p, counts, m, min_c, min_dual)
}

proof fn lemma_found_start(
    p0: Seq<Vec<LevelId>>,
    depth: int,
    k: int,
    rv: Seq<Seq<LevelId>>,
    active: Seq<LevelId>,
    counts: Seq<(LevelId, u32)>,
    m: u32,
    f: Seq<(LevelId, LevelId)>,
    min_c: u32,
    min_dual: u32,
    opts: Seq<Seq<LevelId>>,
    start: int,
    budget: int,
    seen: Seq<String>,
)
    ensures
        leaves_found(p0, depth, k, rv, active, counts, m, f, min_c, min_dual, opts, 0, start, budget, seen),
{
    reveal(leaves_found);
    assert forall|x: Seq<LevelId>| #[trigger] first_at(opts, x, opts.len() as int) >= 0 by {
        lemma_first_at(opts, x, opts.len() as int);
    }
}

/// A complete composition below `p0`'s first `depth` classes, at the option
/// `o` for class `depth`, is one below `p1`'s first `depth + 1` classes when
/// `p1` agrees with `p0` below `depth` and has `o` at `depth`.
proof fn lemma_leaf_down(
    p: Seq<Vec<LevelId>>,
    p0: Seq<Vec<LevelId>>,
    p1: Seq<Vec<LevelId>>,
    depth: int,
    k: int,
    rv: Seq<Seq<LevelId>>,
    active: Seq<LevelId>,
    counts: Seq<(LevelId, u32)>,
    m: u32,
    f: Seq<(LevelId, LevelId)>,
)
    requires
        search_leaf(p, p0, depth, k, rv, active, counts, m, f),
        0 <= depth < k,
        forall|c: int| 0 <= c < depth ==> #[trigger] p1[c] == p0[c],
        p1[depth]@ == p[depth]@,
    ensures
        search_leaf(p, p1, depth + 1, k, rv, active, counts, m, f),
{
    assert forall|c: int| 0 <= c < depth + 1 implies #[trigger] p[c]@ == p1[c]@ by {
        if c < depth {
            assert(p[c]@ == p0[c]@);
            assert(p1[c] == p0[c]);
        }
    }
}

/// The first `depth + 1` classes of a complete composition below `p0`'s
/// first `depth`, as levels.
proof fn lemma_leaf_prefix(
    p: Seq<Vec<LevelId>>,
    p0: Seq<Vec<LevelId>>,
    depth: int,
    k: int,
    rv: Seq<Seq<LevelId>>,
    active: Seq<LevelId>,
    counts: Seq<(LevelId, u32)>,
    m: u32,
    f: Seq<(LevelId, LevelId)>,
)
    requires
        search_leaf(p, p0, depth, k, rv, active, counts, m, f),
        0 <= depth < k,
        p0.len() == k,
    ensures
        comps(p).take(depth) == comps(p0).take(depth),
        comps(p).take(depth + 1) == comps(p0).take(depth).push(comps(p)[depth]),
        options_v(rv, comps(p0).take(depth), k, active, f).contains(comps(p)[depth]),
        prune_v(comps(p0).take(depth).push(comps(p)[depth]), active, counts, k, m),
{
    assert(comps(p).take(depth) =~= comps(p0).take(depth)) by {
        assert forall|c: int| 0 <= c < depth implies comps(p).take(depth)[c] == comps(p0).take(depth)[c] by {
            assert(p[c]@ == p0[c]@);
        }
    }
    assert(comps(p).take(depth + 1) =~= comps(p0).take(depth).push(comps(p)[depth]));
    assert(options_at(rv, p, depth, k, active, f).contains(p[depth]@) && prune_ok(p, depth + 1, active, counts, k, m));
    lemma_options_view(rv, p, depth, k, active, f);
    lemma_prune_view(p, depth, active, counts, k, m);
}

/// Leaving out an option that `prune` rejects loses no complete composition.
proof fn lemma_found_skip(
    p0: Seq<Vec<LevelId>>,
    depth: int,
    k: int,
    rv: Seq<Seq<LevelId>>,
    active: Seq<LevelId>,
    counts: Seq<(LevelId, u32)>,
    m: u32,
    f: Seq<(LevelId, LevelId)>,
    min_c: u32,
    min_dual: u32,
    opts: Seq<Seq<LevelId>>,
    i: int,
    start: int,
    budget: int,
    seen: Seq<String>,
)
    requires
        leaves_found(p0, depth, k, rv, active, counts, m, f, min_c, min_dual, opts, i, start, budget, seen),
        0 <= depth < k,
        p0.len() == k,
        0 <= i < opts.len(),
        !prune_v(comps(p0).take(depth).push(opts[i]), active, counts, k, m),
    ensures
        leaves_found(p0, depth, k, rv, active, counts, m, f, min_c, min_dual, opts, i + 1, start, budget, seen),
{
    reveal(leaves_found);
    assert forall|p: Seq<Vec<LevelId>>|
        #[trigger] search_leaf(p, p0, depth, k, rv, active, counts, m, f) && first_at(opts, p[depth]@, opts.len() as int) < i + 1
            && start + leaf_pos(rv, comps(p0).take(depth), k, active, counts, m, f, comps(p)) <= budget implies has_key(
            seen,
            pattern_key_of(p),
        ) || flow_may_reject(p, counts, m, min_c, min_dual) by {
        lemma_first_at(opts, p[depth]@, opts.len() as int);
        if first_at(opts, p[depth]@, opts.len() as int) == i {
            lemma_leaf_prefix(p, p0, depth, k, rv, active, counts, m, f);
            assert(comps(p)[depth] == p[depth]@);
        }
    }
}

/// The complete compositions at the option `opts[i]` that the call below
/// records, with those recorded before, are all found after it.
proof fn lemma_found_pass(
    p0: Seq<Vec<LevelId>>,
    p1: Seq<Vec<LevelId>>,
    depth: int,
    k: int,
    rv: Seq<Seq<LevelId>>,
    active: Seq<LevelId>,
    counts: Seq<(LevelId, u32)>,
    m: u32,
    f: Seq<(LevelId, LevelId)>,
    min_c: u32,
    min_dual: u32,
    opts: Seq<Seq<LevelId>>,
    i: int,
    start: int,
    child_start: int,
    budget: int,
    s1: Seq<String>,
    s2: Seq<String>,
)
    requires
        leaves_found(p0, depth, k, rv, active, counts, m, f, min_c, min_dual, opts, i, start, budget, s1),
        0 <= depth < k,
        p0.len() == k,
        p1.len() == k,
        0 <= i < opts.len(),
        opts == options_v(rv, comps(p0).take(depth), k, active, f),
        forall|c: int| 0 <= c < depth ==> #[trigger] p1[c] == p0[c],
        p1[depth]@ == opts[i],
        start + 1 + subtrees_size(rv, comps(p0).take(depth), k, active, counts, m, f, i) <= budget ==> child_start == start
            + 1 + subtrees_size(rv, comps(p0).take(depth), k, active, counts, m, f, i),
        s1.len() <= s2.len(),
        s2.take(s1.len() as int) == s1,
        forall|p: Seq<Vec<LevelId>>|
            #[trigger] search_leaf(p, p1, depth + 1, k, rv, active, counts, m, f) && child_start + leaf_pos(
                rv,
                comps(p1).take(depth + 1),
                k,
                active,
                counts,
                m,
                f,
                comps(p),
            ) <= budget ==> has_key(s2, pattern_key_of(p)) || flow_may_reject(p, counts, m, min_c, min_dual),
    ensures
        leaves_found(p0, depth, k, rv, active, counts, m, f, min_c, min_dual, opts, i + 1, start, budget, s2),
{
    reveal(leaves_found);
    let pre = comps(p0).take(depth);
    assert(comps(p1).take(depth + 1) =~= pre.push(opts[i])) by {
        assert forall|c: int| 0 <= c < depth implies comps(p1).take(depth + 1)[c] == pre.push(opts[i])[c] by {
            assert(p1[c] == p0[c]);
        }
    }
    assert forall|p: Seq<Vec<LevelId>>|
        #[trigger] search_leaf(p, p0, depth, k, rv, active, counts, m, f) && first_at(opts, p[depth]@, opts.len() as int) < i + 1
            && start + leaf_pos(rv, pre, k, active, counts, m, f, comps(p)) <= budget implies has_key(
            s2,
            pattern_key_of(p),
        ) || flow_may_reject(p, counts, m, min_c, min_dual) by {
        lemma_first_at(opts, p[depth]@, opts.len() as int);
        let j = first_at(opts, p[depth]@, opts.len() as int);
        if j < i {
            if has_key(s1, pattern_key_of(p)) {
                lemma_has_key_grow(s1, s2, pattern_key_of(p));
            }
        } else {
            assert(j == i);
            lemma_leaf_prefix(p, p0, depth, k, rv, active, counts, m, f);
            assert(comps(p)[depth] == p[depth]@);
            assert(p[depth]@ == opts[i]);
            let lp = leaf_pos(rv, pre.push(opts[i]), k, active, counts, m, f, comps(p));
            assert(leaf_pos(rv, pre, k, active, counts, m, f, comps(p)) == 1 + subtrees_size(
                rv,
                pre,
                k,
                active,
                counts,
                m,
                f,
                i,
            ) + lp);
            assert(lp >= 1);
            lemma_leaf_down(p, p0, p1, depth, k, rv, active, counts, m, f);
        }
    }
}

/// At the end of the options, every complete composition counted within the
/// budget is found.
proof fn lemma_found_end(
    p0: Seq<Vec<LevelId>>,
    depth: int,
    k: int,
    rv: Seq<Seq<LevelId>>,
    active: Seq<LevelId>,
    counts: Seq<(LevelId, u32)>,
    m: u32,
    f: Seq<(LevelId, LevelId)>,
    min_c: u32,
    min_dual: u32,
    opts: Seq<Seq<LevelId>>,
    start: int,
    budget: int,
    seen: Seq<String>,
)
    requires
        leaves_found(p0, depth, k, rv, active, counts, m, f, min_c, min_dual, opts, opts.len() as int, start, budget, seen),
        0 <= depth < k,
        p0.len() == k,
        opts == options_v(rv, comps(p0).take(depth), k, active, f),
    ensures
        forall|p: Seq<Vec<LevelId>>|
            #[trigger] search_leaf(p, p0, depth, k, rv, active, counts, m, f) && start + leaf_pos(
                rv,
                comps(p0).take(depth),
                k,
                active,
                counts,
                m,
                f,
                comps(p),
            ) <= budget ==> has_key(seen, pattern_key_of(p)) || flow_may_reject(p, counts, m, min_c, min_dual),
{
    reveal(leaves_found);
    assert forall|p: Seq<Vec<LevelId>>|
        #[trigger] search_leaf(p, p0, depth, k, rv, active, counts, m, f) && start + leaf_pos(
            rv,
            comps(p0).take(depth),
            k,
            active,
            counts,
            m,
            f,
            comps(p),
        ) <= budget implies has_key(seen, pattern_key_of(p)) || flow_may_reject(p, counts, m, min_c, min_dual) by {
        lemma_leaf_prefix(p, p0, depth, k, rv, active, counts, m, f);
        assert(comps(p)[depth] == p[depth]@);
        let x = choose|x: int| 0 <= x < opts.len() && opts[x] == p[depth]@;
        lemma_first_at(opts, p[depth]@, opts.len() as int);
    }
}

/// The random generator of `rand`, carried through and handed to `rand`.
#[verifier::external_type_specification]
#[verifier::external_body]
pub struct ExThreadRng(rand::rngs::ThreadRng);

/// `SliceRandom::choose` on a list of compositions, the choice copied out.
/// Trusted: on a non-empty list the result is one of its compositions (which
/// one rests on the generator); on an empty list there is none.
#[verifier::external_body]
fn choose_composition(opts: &Vec<Vec<LevelId>>, rng: &mut ThreadRng) -> (r: Option<Vec<LevelId>>)
    ensures
        r is None <==> opts@.len() == 0,
        r matches Some(c) ==> exists|i: int| 0 <= i < opts@.len() && c@ == #[trigger] opts@[i]@,
{
    opts.choose(rng).cloned()
}

/// Every active level has a class among those of `pattern`.
pub open spec fn covers_all(pattern: Seq<Vec<LevelId>>, active: Seq<LevelId>) -> bool {
    forall|l: int| 0 <= l < active.len() ==> covered(pattern, pattern.len() as int, #[trigger] active[l]@)
}

/// Every class of `classes` is one of `pool`.
pub open spec fn drawn_from(classes: Seq<Vec<LevelId>>, pool: Seq<Seq<LevelId>>) -> bool {
    forall|c: int| 0 <= c < classes.len() ==> pool.contains(#[trigger] classes[c]@)
}

/// Each draw has `k` classes, each one of `pool`, and each draw that gives
/// every active level a class has its key among `seen`, or is one the flow
/// may leave out.
pub open spec fn draws_recorded(
    draws: Seq<Seq<Vec<LevelId>>>,
    k: int,
    pool: Seq<Seq<LevelId>>,
    active: Seq<LevelId>,
    counts: Seq<(LevelId, u32)>,
    m: u32,
    min_c: u32,
    min_dual: u32,
    seen: Seq<String>,
) -> bool {
    forall|x: int|
        0 <= x < draws.len() ==> {
            &&& (#[trigger] draws[x]).len() == k
            &&& drawn_from(draws[x], pool)
            &&& covers_all(draws[x], active) ==> has_key(seen, pattern_key_of(draws[x])) || flow_may_reject(
                draws[x],
                counts,
                m,
                min_c,
                min_dual,
            )
        }
}

/// Each draw has `k` classes, each one of `pool`, and each draw that gives
/// every active level a class has the key of one of `cands`, or is one the
/// flow may leave out.
pub open spec fn draws_found(
    draws: Seq<Seq<Vec<LevelId>>>,
    k: int,
    pool: Seq<Seq<LevelId>>,
    active: Seq<LevelId>,
    counts: Seq<(LevelId, u32)>,
    m: u32,
    min_c: u32,
    min_dual: u32,
    cands: Seq<Candidate>,
) -> bool {
    forall|x: int|
        0 <= x < draws.len() ==> {
            &&& (#[trigger] draws[x]).len() == k
            &&& drawn_from(draws[x], pool)
            &&& covers_all(draws[x], active) ==> (exists|j: int|
                0 <= j < cands.len() && #[trigger] pattern_key_of(cands[j].classes@) == pattern_key_of(draws[x]))
                || flow_may_reject(draws[x], counts, m, min_c, min_dual)
        }
}

/// Every candidate from position `from` on has the classes of one of the
/// draws.
pub open spec fn taken_from_draws(cands: Seq<Candidate>, from: int, draws: Seq<Seq<Vec<LevelId>>>) -> bool {
    forall|j: int|
        from <= j < cands.len() ==> exists|x: int| 0 <= x < draws.len() && (#[trigger] cands[j]).classes@ == #[trigger] draws[x]
}

/// A drawn composition: when every active level has a class in it, it goes
/// to `try_add_candidate`; otherwise nothing changes. The result says
/// whether a candidate was added.
pub fn offer_pattern(
    active: &[LevelId],
    counts: &Vec<(LevelId, u32)>,
    m: u32,
    min_c: u32,
    min_dual: u32,
    pattern: Vec<Vec<LevelId>>,
    candidates: &mut Vec<Candidate>,
    seen: &mut Vec<String>,
) -> (added: bool)
    requires
        names_distinct(counts@),
        forall|c: int| 0 <= c < pattern@.len() ==> class_names_distinct(#[trigger] pattern@[c]@),
        counts@.len() + pattern@.len() + 2 < 0x4000_0000,
    ensures
        added <==> final(candidates)@.len() == old(candidates)@.len() + 1,
        added ==> covers_all(pattern@, active@) && !has_key(old(seen)@, pattern_key_of(pattern@)),
        added ==> final(candidates)@ == old(candidates)@.push(final(candidates)@.last()) && final(candidates)@.last().classes
            == pattern && candidate_ok(final(candidates)@.last(), counts@, m, min_c, min_dual),
        added ==> final(seen)@ == old(seen)@.push(final(seen)@.last()) && final(seen)@.last()@ == pattern_key_of(pattern@),
        !added ==> final(candidates)@ == old(candidates)@ && final(seen)@ == old(seen)@,
        covers_all(pattern@, active@) && !has_key(old(seen)@, pattern_key_of(pattern@)) && !added ==> flow_may_reject(
            pattern@,
            counts@,
            m,
            min_c,
            min_dual,
        ),
{
    let ghost c0 = candidates@;
    let ghost s0 = seen@;
    let ghost pat = pattern@;
    let mut l: usize = 0;
    while l < active.len()
        invariant
            l <= active@.len(),
            forall|x: int| 0 <= x < l ==> covered(pattern@, pattern@.len() as int, #[trigger] active@[x]@),
        decreases active@.len() - l,
    {
        if !is_covered(pattern.as_slice(), pattern.len(), &active[l]) {
            return false;
        }
        l = l + 1;
    }
    let n0 = candidates.len();
    try_add_candidate(pattern, counts, m, min_c, min_dual, candidates, seen);
    let added = candidates.len() > n0;
    proof {
        let key = pattern_key_of(pat);
        if added {
            let last = candidates@.last();
            assert(candidates@ =~= c0.push(last)) by {
                assert(candidates@.take(c0.len() as int) == c0);
            }
            assert(candidate_ok(candidates@[c0.len() as int], counts@, m, min_c, min_dual));
            assert(seen@[s0.len() as int]@ == pattern_key_of(candidates@[c0.len() as int].classes@));
            assert(seen@ =~= s0.push(seen@.last())) by {
                assert(seen@.take(s0.len() as int) == s0);
            }
            if has_key(s0, key) {
                let x = choose|x: int| 0 <= x < s0.len() && #[trigger] s0[x]@ == key;
                assert(candidates@ == c0);
            }
        } else {
            assert(candidates@ =~= c0) by {
                assert(candidates@.take(c0.len() as int) == c0);
            }
            assert(seen@ =~= s0) by {
                assert(seen@.take(s0.len() as int) == s0);
            }
        }
    }
    added
}

/// Random compositions: `trials` times, each of the `k` classes receives a
/// composition drawn among all those a class may have, and the draw is
/// offered by `offer_pattern`. Every draw that gives each active level a
/// class ends with its key recorded, or is one the flow may leave out, and
/// every candidate added is one of the draws.
pub fn random_search(
    cfg: &AppConfig,
    active: &[LevelId],
    counts: &Vec<(LevelId, u32)>,
    k: usize,
    m: u32,
    min_c: u32,
    min_dual: u32,
    trials: usize,
    rng: &mut ThreadRng,
    candidates: &mut Vec<Candidate>,
    seen: &mut Vec<String>,
)
    requires
        names_distinct(counts@),
        class_names_distinct(active@),
        counts@.len() + k + 2 < 0x4000_0000,
    ensures
        extends(
            old(candidates)@,
            final(candidates)@,
            old(seen)@,
            final(seen)@,
            counts@,
            m,
            min_c,
            min_dual,
            k as int,
        ),
        final(candidates)@.len() <= old(candidates)@.len() + trials,
        trials == 0 || active@.len() == 0 ==> final(candidates)@ == old(candidates)@ && final(seen)@ == old(seen)@,
        forall|j: int|
            old(candidates)@.len() <= j < final(candidates)@.len() ==> covers_all(
                #[trigger] final(candidates)@[j].classes@,
                active@,
            ),
        forall|j: int|
            old(candidates)@.len() <= j < final(candidates)@.len() ==> drawn_from(
                #[trigger] final(candidates)@[j].classes@,
                compositions_of(active@, cfg.plan.forbidden_pairs@),
            ),
        forall|j: int|
            old(candidates)@.len() <= j < final(candidates)@.len() ==> classes_allowed(
                #[trigger] final(candidates)@[j].classes@,
                cfg.plan.forbidden_pairs@,
            ),
        exists|draws: Seq<Seq<Vec<LevelId>>>|
            draws.len() == (if active@.len() > 0 { trials as int } else { 0 }) && #[trigger] draws_recorded(
                draws,
                k as int,
                compositions_of(active@, cfg.plan.forbidden_pairs@),
                active@,
                counts@,
                m,
                min_c,
                min_dual,
                final(seen)@,
            ) && taken_from_draws(final(candidates)@, old(candidates)@.len() as int, draws),
{
    let ghost c0 = candidates@;
    let ghost s0 = seen@;
    let ghost pool = compositions_of(active@, cfg.plan.forbidden_pairs@);
    proof {
        lemma_extends_refl(c0, s0, counts@, m, min_c, min_dual, k as int);
    }
    let opts = all_mono_dual_compositions(cfg, active);
    let ghost mut draws: Seq<Seq<Vec<LevelId>>> = Seq::empty();
    if opts.len() == 0 {
        proof {
            assert(comps(opts@).len() == 0);
            assert(singles(active@).len() == active@.len());
            assert(active@.len() == 0);
            assert(draws_recorded(draws, k as int, pool, active@, counts@, m, min_c, min_dual, seen@));
        }
        return;
    }
    proof {
        compositions_distinct(active@, cfg.plan.forbidden_pairs@);
        lemma_compositions_allowed(active@, cfg.plan.forbidden_pairs@);
        assert forall|c: int| 0 <= c < opts@.len() implies class_names_distinct(#[trigger] opts@[c]@) && allowed_class(
            opts@[c]@,
            cfg.plan.forbidden_pairs@,
        ) && pool.contains(opts@[c]@) by {
            assert(comps(opts@)[c] == opts@[c]@);
        }
        if active@.len() == 0 {
            assert(singles(active@).len() == 0);
            assert(all_pairs(active@, cfg.plan.forbidden_pairs@, 0).len() == 0);
            assert(comps(opts@).len() == 0);
        }
    }
    let mut t: usize = 0;
    while t < trials
        invariant
            t <= trials,
            opts@.len() > 0,
            active@.len() > 0,
            pool == compositions_of(active@, cfg.plan.forbidden_pairs@),
            names_distinct(counts@),
            class_names_distinct(active@),
            forall|c: int| 0 <= c < opts@.len() ==> class_names_distinct(#[trigger] opts@[c]@),
            forall|c: int| 0 <= c < opts@.len() ==> allowed_class(#[trigger] opts@[c]@, cfg.plan.forbidden_pairs@),
            forall|c: int| 0 <= c < opts@.len() ==> pool.contains(#[trigger] opts@[c]@),
            counts@.len() + k + 2 < 0x4000_0000,
                extends(c0, candidates@, s0, seen@, counts@, m, min_c, min_dual, k as int),
            candidates@.len() <= c0.len() + t,
            forall|j: int|
                c0.len() <= j < candidates@.len() ==> classes_allowed(
                    #[trigger] candidates@[j].classes@,
                    cfg.plan.forbidden_pairs@,
                ),
            forall|j: int| c0.len() <= j < candidates@.len() ==> covers_all(#[trigger] candidates@[j].classes@, active@),
            forall|j: int| c0.len() <= j < candidates@.len() ==> drawn_from(#[trigger] candidates@[j].classes@, pool),
            draws.len() == t,
            draws_recorded(draws, k as int, pool, active@, counts@, m, min_c, min_dual, seen@),
            taken_from_draws(candidates@, c0.len() as int, draws),
        decreases trials - t,
    {
        let mut pattern: Vec<Vec<LevelId>> = Vec::new();
        let mut c: usize = 0;
        while c < k
            invariant
                opts@.len() > 0,
                c <= k,
                pattern@.len() == c,
                forall|c: int| 0 <= c < opts@.len() ==> class_names_distinct(#[trigger] opts@[c]@),
                forall|c: int| 0 <= c < opts@.len() ==> allowed_class(#[trigger] opts@[c]@, cfg.plan.forbidden_pairs@),
                forall|c: int| 0 <= c < opts@.len() ==> pool.contains(#[trigger] opts@[c]@),
                forall|x: int| 0 <= x < c ==> class_names_distinct(#[trigger] pattern@[x]@),
                forall|x: int| 0 <= x < c ==> allowed_class(#[trigger] pattern@[x]@, cfg.plan.forbidden_pairs@),
                drawn_from(pattern@, pool),
            decreases k - c,
        {
            let comp = match choose_composition(&opts, rng) {
                Some(comp) => comp,
                None => {
                    proof {
                        assert(false);
                    }
                    Vec::new()
                },
            };
            proof {
                let i = choose|i: int| 0 <= i < opts@.len() && comp@ == #[trigger] opts@[i]@;
                assert(class_names_distinct(opts@[i]@));
                assert(allowed_class(opts@[i]@, cfg.plan.forbidden_pairs@));
                assert(pool.contains(opts@[i]@));
            }
            let ghost p0 = pattern@;
            pattern.push(comp);
            proof {
                assert forall|x: int| 0 <= x < pattern@.len() implies pool.contains(#[trigger] pattern@[x]@) by {
                    if x < p0.len() {
                        assert(pattern@[x] == p0[x]);
                    }
                }
            }
            c = c + 1;
        }
        let ghost c1 = candidates@;
        let ghost s1 = seen@;
        let ghost pat = pattern@;
        let added = offer_pattern(active, counts, m, min_c, min_dual, pattern, candidates, seen);
        proof {
            if added {
                let cand = candidates@.last();
                assert(cand.classes@ == pat);
                assert(candidates@.take(c1.len() as int) =~= c1);
                assert(seen@.take(s1.len() as int) =~= s1);
                assert forall|x: int, y: int| s0.len() <= x < seen@.len() && 0 <= y < x implies #[trigger] seen@[y]@
                    != #[trigger] seen@[x]@ by {
                    if x < s1.len() {
                        assert(seen@[x] == s1[x]);
                        assert(seen@[y] == s1[y]);
                    } else {
                        assert(seen@[y] == s1[y]);
                        if seen@[y]@ == seen@[x]@ {
                            assert(has_key(s1, pattern_key_of(pat)));
                        }
                    }
                }
                assert forall|j: int| c0.len() <= j < candidates@.len() implies {
                    &&& candidate_ok(#[trigger] candidates@[j], counts@, m, min_c, min_dual)
                    &&& candidates@[j].classes@.len() == k
                    &&& seen@[s0.len() + (j - c0.len())]@ == pattern_key_of(candidates@[j].classes@)
                    &&& classes_allowed(candidates@[j].classes@, cfg.plan.forbidden_pairs@)
                    &&& covers_all(candidates@[j].classes@, active@)
                    &&& drawn_from(candidates@[j].classes@, pool)
                } by {
                    if j < c1.len() {
                        assert(candidates@[j] == c1[j]);
                        assert(seen@[s0.len() + (j - c0.len())] == s1[s0.len() + (j - c0.len())]);
                    } else {
                        assert(candidates@[j] == cand);
                    }
                }
                assert(candidates@.take(c0.len() as int) =~= c0) by {
                    assert(c1.take(c0.len() as int) == c0);
                }
                assert(seen@.take(s0.len() as int) =~= s0) by {
                    assert(s1.take(s0.len() as int) == s0);
                }
            }
            let nd = draws.push(pat);
            assert(seen@.len() >= s1.len() && seen@.take(s1.len() as int) == s1) by {
                if added {
                    assert(seen@.take(s1.len() as int) =~= s1);
                }
            }
            assert forall|x: int| 0 <= x < nd.len() implies {
                &&& (#[trigger] nd[x]).len() == k
                &&& drawn_from(nd[x], pool)
                &&& covers_all(nd[x], active@) ==> has_key(seen@, pattern_key_of(nd[x])) || flow_may_reject(
                    nd[x],
                    counts@,
                    m,
                    min_c,
                    min_dual,
                )
            } by {
                let key = pattern_key_of(nd[x]);
                if x < draws.len() {
                    assert(nd[x] == draws[x]);
                    if has_key(s1, key) {
                        lemma_has_key_grow(s1, seen@, key);
                    }
                } else {
                    assert(nd[x] == pat);
                    if has_key(s1, key) {
                        lemma_has_key_grow(s1, seen@, key);
                    } else if added {
                        assert(seen@[seen@.len() - 1]@ == key);
                    }
                }
            }
            assert forall|j: int| c0.len() <= j < candidates@.len() implies exists|x: int|
                0 <= x < nd.len() && (#[trigger] candidates@[j]).classes@ == #[trigger] nd[x] by {
                if j < c1.len() {
                    assert(candidates@[j] == c1[j]) by {
                        if added {
                            assert(candidates@.take(c1.len() as int)[j] == c1[j]);
                        }
                    }
                    let x = choose|x: int| 0 <= x < draws.len() && (#[trigger] c1[j]).classes@ == #[trigger] draws[x];
                    assert(nd[x] == draws[x]);
                } else {
                    assert(candidates@[j].classes@ == pat);
                    assert(nd[draws.len() as int] == pat);
                }
            }
            draws = nd;
        }
        t = t + 1;
    }
    proof {
        assert(draws_recorded(draws, k as int, pool, active@, counts@, m, min_c, min_dual, seen@));
        if trials == 0 {
            assert(candidates@ =~= c0) by {
                assert(candidates@.take(c0.len() as int) == c0);
            }
            assert(seen@ =~= s0) by {
                assert(seen@.take(s0.len() as int) == s0);
            }
        }
    }
}

/// Every composition of `compositions_of` holds distinct levels when the
/// active levels are distinct.
proof fn compositions_distinct(active: Seq<LevelId>, f: Seq<(LevelId, LevelId)>)
    requires
        class_names_distinct(active),
    ensures
        forall|c: int|
            0 <= c < compositions_of(active, f).len() ==> class_names_distinct(#[trigger] compositions_of(active, f)[c]),
{
    lemma_all_pairs_distinct(active, f, active.len() as int);
    let s = singles(active);
    let p = all_pairs(active, f, active.len() as int);
    assert forall|c: int| 0 <= c < compositions_of(active, f).len() implies class_names_distinct(
        #[trigger] compositions_of(active, f)[c],
    ) by {
        if c < s.len() {
            assert(compositions_of(active, f)[c] == seq![active[c]]);
        } else {
            assert(compositions_of(active, f)[c] == p[c - s.len()]);
        }
    }
}

proof fn lemma_row_pairs_distinct(active: Seq<LevelId>, f: Seq<(LevelId, LevelId)>, i: int, n: int)
    requires
        class_names_distinct(active),
        0 <= i,
        n <= active.len(),
    ensures
        forall|c: int| 0 <= c < row_pairs(active, f, i, n).len() ==> class_names_distinct(#[trigger] row_pairs(active, f, i, n)[c]),
    decreases n - i,
{
    if n > i + 1 {
        lemma_row_pairs_distinct(active, f, i, n - 1);
        assert(active[i]@ != active[n - 1]@);
        let p = pair_of(active[i], active[n - 1]);
        assert(class_names_distinct(p)) by {
            assert(p.len() == 2);
            assert(p[0]@ != p[1]@);
        }
        let r0 = row_pairs(active, f, i, n - 1);
        assert forall|c: int| 0 <= c < row_pairs(active, f, i, n).len() implies class_names_distinct(
            #[trigger] row_pairs(active, f, i, n)[c],
        ) by {
            if c < r0.len() {
                assert(row_pairs(active, f, i, n)[c] == r0[c]);
            }
        }
    }
}

proof fn lemma_all_pairs_distinct(active: Seq<LevelId>, f: Seq<(LevelId, LevelId)>, m: int)
    requires
        class_names_distinct(active),
        m <= active.len(),
    ensures
        forall|c: int| 0 <= c < all_pairs(active, f, m).len() ==> class_names_distinct(#[trigger] all_pairs(active, f, m)[c]),
    decreases m,
{
    if m > 0 {
        lemma_all_pairs_distinct(active, f, m - 1);
        lemma_row_pairs_distinct(active, f, m - 1, active.len() as int);
        let a = all_pairs(active, f, m - 1);
        let b = row_pairs(active, f, m - 1, active.len() as int);
        assert forall|c: int| 0 <= c < all_pairs(active, f, m).len() implies class_names_distinct(#[trigger] all_pairs(active, f, m)[c]) by {
            if c < a.len() {
                assert(all_pairs(active, f, m)[c] == a[c]);
            } else {
                assert(all_pairs(active, f, m)[c] == b[c - a.len()]);
            }
        }
    }
}


// ---------------------------------------------------------------------------
// The whole search.
// ---------------------------------------------------------------------------

/// The levels with at least one pupil, with their counts, in order.
pub open spec fn active_of(levels: Seq<(LevelId, LevelData)>) -> Seq<(LevelId, u32)>
    decreases levels.len(),
{
    if levels.len() == 0 {
        Seq::empty()
    } else {
        let r = active_of(levels.drop_last());
        if levels.last().1.count > 0 {
            r.push((levels.last().0, levels.last().1.count))
        } else {
            r
        }
    }
}

/// The names of the counted levels.
pub open spec fn pair_names(c: Seq<(LevelId, u32)>) -> Seq<LevelId> {
    Seq::new(c.len(), |i: int| c[i].0)
}

proof fn lemma_active_of(levels: Seq<(LevelId, LevelData)>)
    ensures
        active_of(levels).len() <= levels.len(),
        forall|x: int|
            0 <= x < active_of(levels).len() ==> #[trigger] active_of(levels)[x].1 > 0 && exists|i: int|
                0 <= i < levels.len() && active_of(levels)[x].0 == levels[i].0 && active_of(levels)[x].1 == levels[i].1.count,
        level_names_distinct(levels) ==> names_distinct(active_of(levels)),
    decreases levels.len(),
{
    if levels.len() > 0 {
        let l0 = levels.drop_last();
        lemma_active_of(l0);
        let r0 = active_of(l0);
        let r = active_of(levels);
        assert forall|x: int| 0 <= x < r.len() implies #[trigger] r[x].1 > 0 && exists|i: int|
            0 <= i < levels.len() && r[x].0 == levels[i].0 && r[x].1 == levels[i].1.count by {
            if x < r0.len() {
                assert(r[x] == r0[x]);
                let i = choose|i: int| 0 <= i < l0.len() && r0[x].0 == l0[i].0 && r0[x].1 == l0[i].1.count;
                assert(l0[i] == levels[i]);
            } else {
                assert(r[x].0 == levels[levels.len() - 1].0);
            }
        }
        if level_names_distinct(levels) {
            assert(level_names_distinct(l0)) by {
                assert forall|i: int, j: int| 0 <= i < l0.len() && 0 <= j < l0.len() && i != j implies #[trigger] l0[i].0@
                    != #[trigger] l0[j].0@ by {
                    assert(l0[i] == levels[i] && l0[j] == levels[j]);
                }
            }
            assert forall|i: int, j: int| 0 <= i < r.len() && 0 <= j < r.len() && i != j implies #[trigger] r[i].0@
                != #[trigger] r[j].0@ by {
                if i < r0.len() && j < r0.len() {
                    assert(r[i] == r0[i] && r[j] == r0[j]);
                } else if i < r0.len() {
                    let p = choose|p: int| 0 <= p < l0.len() && r0[i].0 == l0[p].0 && r0[i].1 == l0[p].1.count;
                    assert(r[i].0 == levels[p].0);
                    assert(r[j].0 == levels[levels.len() - 1].0);
                } else {
                    let p = choose|p: int| 0 <= p < l0.len() && r0[j].0 == l0[p].0 && r0[j].1 == l0[p].1.count;
                    assert(r[j].0 == levels[p].0);
                    assert(r[i].0 == levels[levels.len() - 1].0);
                }
            }
        }
    }
}

/// The levels with at least one pupil: their names, and their names with
/// their counts.
pub fn active_levels(cfg: &AppConfig) -> (r: (Vec<LevelId>, Vec<(LevelId, u32)>))
    ensures
        r.1@ == active_of(cfg.levels@),
        r.0@ == pair_names(r.1@),
        level_names_distinct(cfg.levels@) ==> names_distinct(r.1@) && class_names_distinct(r.0@),
{
    let ghost levels = cfg.levels@;
    let mut names: Vec<LevelId> = Vec::new();
    let mut counts: Vec<(LevelId, u32)> = Vec::new();
    let mut i: usize = 0;
    while i < cfg.levels.len()
        invariant
            i <= levels.len(),
            levels == cfg.levels@,
            counts@ == active_of(levels.take(i as int)),
            names@ == pair_names(counts@),
        decreases levels.len() - i,
    {
        proof {
            assert(levels.take(i + 1).drop_last() =~= levels.take(i as int));
        }
        if cfg.levels[i].1.count > 0 {
            counts.push((cfg.levels[i].0.clone(), cfg.levels[i].1.count));
            names.push(cfg.levels[i].0.clone());
            proof {
                assert(names@ =~= pair_names(counts@));
            }
        }
        i = i + 1;
    }
    proof {
        assert(levels.take(i as int) =~= levels);
        lemma_active_of(levels);
        if level_names_distinct(levels) {
            assert forall|x: int, y: int| 0 <= x < names@.len() && 0 <= y < names@.len() && x != y implies #[trigger] names@[x]@
                != #[trigger] names@[y]@ by {
                assert(names@[x] == counts@[x].0 && names@[y] == counts@[y].0);
            }
        }
    }
    (names, counts)
}

/// The options in the order of `rank`: `opts[rank[i]]` for each `i`, the
/// indices out of range left out.
pub open spec fn ranked_by(opts: Seq<Seq<LevelId>>, rank: Seq<usize>) -> Seq<Seq<LevelId>>
    decreases rank.len(),
{
    if rank.len() == 0 {
        Seq::empty()
    } else {
        let r = ranked_by(opts, rank.drop_last());
        if rank.last() < opts.len() {
            r.push(opts[rank.last() as int])
        } else {
            r
        }
    }
}

proof fn lemma_ranked_by(opts: Seq<Seq<LevelId>>, rank: Seq<usize>)
    ensures
        forall|c: int|
            0 <= c < ranked_by(opts, rank).len() ==> exists|i: int| 0 <= i < opts.len() && #[trigger] ranked_by(opts, rank)[c] == opts[i],
    decreases rank.len(),
{
    if rank.len() > 0 {
        lemma_ranked_by(opts, rank.drop_last());
        let r0 = ranked_by(opts, rank.drop_last());
        assert forall|c: int| 0 <= c < ranked_by(opts, rank).len() implies exists|i: int|
            0 <= i < opts.len() && #[trigger] ranked_by(opts, rank)[c] == opts[i] by {
            if c < r0.len() {
                assert(ranked_by(opts, rank)[c] == r0[c]);
            }
        }
    }
}

/// The options in the order of `rank` (see `ranked_by`).
fn rank_options(opts: &Vec<Vec<LevelId>>, rank: &Vec<usize>) -> (r: Vec<Vec<LevelId>>)
    ensures
        comps(r@) == ranked_by(comps(opts@), rank@),
{
    let mut r: Vec<Vec<LevelId>> = Vec::new();
    let mut i: usize = 0;
    while i < rank.len()
        invariant
            i <= rank@.len(),
            comps(r@) == ranked_by(comps(opts@), rank@.take(i as int)),
        decreases rank@.len() - i,
    {
        proof {
            assert(rank@.take(i + 1).drop_last() =~= rank@.take(i as int));
        }
        if rank[i] < opts.len() {
            let c = copy_names(&opts[rank[i]]);
            let ghost before = r@;
            r.push(c);
            proof {
                assert(comps(r@) =~= comps(before).push(c@));
            }
        }
        i = i + 1;
    }
    proof {
        assert(rank@.take(i as int) =~= rank@);
    }
    r
}

proof fn lemma_rows_with_pos(pattern: Seq<Vec<LevelId>>, n: int, name: Seq<char>)
    requires
        rows_with(pattern, n, name) > 0,
    ensures
        exists|i: int| 0 <= i < n && in_group(#[trigger] pattern[i]@, name),
    decreases n,
{
    if n > 0 && !in_group(pattern[n - 1]@, name) {
        lemma_rows_with_pos(pattern, n - 1, name);
    }
}

/// A composition that passes `prune` once all `k` classes are set gives each
/// active level a class.
proof fn lemma_prune_covers(pattern: Seq<Vec<LevelId>>, active: Seq<LevelId>, counts: Seq<(LevelId, u32)>, k: int, m: u32, l: int)
    requires
        k >= 1,
        pattern.len() == k,
        prune_ok(pattern, k, active, counts, k, m),
        0 <= l < active.len(),
        count_of(counts, active[l]@) > 0,
    ensures
        covered(pattern, k, active[l]@),
{
    let m1: int = if m > 1 { m as int } else { 1 };
    let n = count_of(counts, active[l]@);
    assert((n + m1 - 1) / m1 >= 1) by (nonlinear_arith)
        requires
            n >= 1,
            m1 >= 1,
    ;
    assert(appearances_of(pattern, k - 1, active[l]@) >= 1);
    lemma_rows_with_pos(pattern, k, active[l]@);
}

/// The options the whole search tries at each depth, in the order of `rank`.
pub open spec fn search_ranked(cfg: AppConfig, rank: Seq<usize>) -> Seq<Seq<LevelId>> {
    ranked_by(compositions_of(pair_names(active_of(cfg.levels@)), cfg.plan.forbidden_pairs@), rank)
}

/// The node budget the search uses: the configured one, `usize::MAX`
/// counting as `usize::MAX - 1`.
pub open spec fn effective_budget(b: usize) -> int {
    if b == usize::MAX {
        usize::MAX - 1
    } else {
        b as int
    }
}

/// The candidates of the depth-first search over all the classes (options
/// tried in the order of `rank`, an order of `all_mono_dual_compositions`),
/// the keys it recorded, and whether it stayed within its node budget (a
/// budget of `usize::MAX` counts as `usize::MAX - 1`); it stays within the
/// budget when the budget is at least `tree_bound`. Every composition whose
/// node comes within the budget in depth-first order (`leaf_pos`) is a
/// candidate's key, or one the flow may leave out.
pub fn search_candidates(cfg: &AppConfig, rank: &Vec<usize>) -> (r: (Vec<Candidate>, Vec<String>, bool))
    requires
        level_names_distinct(cfg.levels@),
        cfg.levels@.len() + cfg.plan.num_classes + 2 < 0x4000_0000,
    ensures
        active_of(cfg.levels@).len() == 0 || cfg.plan.num_classes == 0 ==> r.0@.len() == 0 && r.1@.len() == 0,
        extends(
            Seq::empty(),
            r.0@,
            Seq::empty(),
            r.1@,
            active_of(cfg.levels@),
            cfg.plan.max_students_per_class,
            cfg.plan.min_students_per_class,
            cfg.plan.min_students_per_level_in_dual_class,
            cfg.plan.num_classes as int,
        ),
        forall|j: int|
            0 <= j < r.0@.len() ==> prune_ok(
                #[trigger] r.0@[j].classes@,
                cfg.plan.num_classes as int,
                pair_names(active_of(cfg.levels@)),
                active_of(cfg.levels@),
                cfg.plan.num_classes as int,
                cfg.plan.max_students_per_class,
            ) && classes_allowed(r.0@[j].classes@, cfg.plan.forbidden_pairs@) && drawn_from(
                r.0@[j].classes@,
                compositions_of(pair_names(active_of(cfg.levels@)), cfg.plan.forbidden_pairs@),
            ),
        tree_bound(options_cap(search_ranked(*cfg, rank@)), cfg.plan.num_classes as nat) <= effective_budget(
            cfg.plan.dfs_node_budget,
        ) ==> r.2,
        r.2 && active_of(cfg.levels@).len() > 0 && cfg.plan.num_classes > 0 ==> forall|p: Seq<Vec<LevelId>>|
            #[trigger] search_leaf(
                p,
                Seq::empty(),
                0,
                cfg.plan.num_classes as int,
                ranked_by(compositions_of(pair_names(active_of(cfg.levels@)), cfg.plan.forbidden_pairs@), rank@),
                pair_names(active_of(cfg.levels@)),
                active_of(cfg.levels@),
                cfg.plan.max_students_per_class,
                cfg.plan.forbidden_pairs@,
            ) ==> has_key(r.1@, pattern_key_of(p)) || flow_may_reject(
                p,
                active_of(cfg.levels@),
                cfg.plan.max_students_per_class,
                cfg.plan.min_students_per_class,
                cfg.plan.min_students_per_level_in_dual_class,
            ),
        active_of(cfg.levels@).len() > 0 && cfg.plan.num_classes > 0 ==> forall|p: Seq<Vec<LevelId>>|
            #[trigger] search_leaf(
                p,
                Seq::empty(),
                0,
                cfg.plan.num_classes as int,
                search_ranked(*cfg, rank@),
                pair_names(active_of(cfg.levels@)),
                active_of(cfg.levels@),
                cfg.plan.max_students_per_class,
                cfg.plan.forbidden_pairs@,
            ) && leaf_pos(
                search_ranked(*cfg, rank@),
                Seq::empty(),
                cfg.plan.num_classes as int,
                pair_names(active_of(cfg.levels@)),
                active_of(cfg.levels@),
                cfg.plan.max_students_per_class,
                cfg.plan.forbidden_pairs@,
                comps(p),
            ) <= effective_budget(cfg.plan.dfs_node_budget) ==> has_key(r.1@, pattern_key_of(p)) || flow_may_reject(
                p,
                active_of(cfg.levels@),
                cfg.plan.max_students_per_class,
                cfg.plan.min_students_per_class,
                cfg.plan.min_students_per_level_in_dual_class,
            ),
{
    let (active, counts) = active_levels(cfg);
    let k = cfg.plan.num_classes;
    let m = cfg.plan.max_students_per_class;
    let min_c = cfg.plan.min_students_per_class;
    let min_dual = cfg.plan.min_students_per_level_in_dual_class;
    if active.len() == 0 || k == 0 {
        proof {
            lemma_extends_refl(Seq::empty(), Seq::empty(), counts@, m, min_c, min_dual, k as int);
        }
        return (Vec::new(), Vec::new(), true);
    }
    proof {
        lemma_active_of(cfg.levels@);
    }
    let opts = all_mono_dual_compositions(cfg, active.as_slice());
    let ranked = rank_options(&opts, rank);
    proof {
        compositions_distinct(active@, cfg.plan.forbidden_pairs@);
        lemma_compositions_allowed(active@, cfg.plan.forbidden_pairs@);
        lemma_ranked_by(comps(opts@), rank@);
        assert forall|c: int| 0 <= c < ranked@.len() implies class_names_distinct(#[trigger] ranked@[c]@) && allowed_class(
            ranked@[c]@,
            cfg.plan.forbidden_pairs@,
        ) && compositions_of(active@, cfg.plan.forbidden_pairs@).contains(ranked@[c]@) by {
            assert(comps(ranked@)[c] == ranked@[c]@);
            let i = choose|i: int| 0 <= i < comps(opts@).len() && #[trigger] ranked_by(comps(opts@), rank@)[c] == comps(opts@)[i];
            assert(comps(opts@)[i] == compositions_of(active@, cfg.plan.forbidden_pairs@)[i]);
        }
    }
    let mut pattern: Vec<Vec<LevelId>> = Vec::new();
    let mut c: usize = 0;
    while c < k
        invariant
            c <= k,
            pattern@.len() == c,
        decreases k - c,
    {
        pattern.push(Vec::new());
        c = c + 1;
    }
    let ghost pat0 = pattern@;
    let budget = if cfg.plan.dfs_node_budget == usize::MAX {
        usize::MAX - 1
    } else {
        cfg.plan.dfs_node_budget
    };
    let mut nodes: usize = 0;
    let mut candidates: Vec<Candidate> = Vec::new();
    let mut seen: Vec<String> = Vec::new();
    dfs(
        cfg,
        active.as_slice(),
        &counts,
        &ranked,
        k,
        m,
        min_c,
        min_dual,
        0,
        &mut pattern,
        &mut nodes,
        budget,
        &mut candidates,
        &mut seen,
    );
    proof {
        assert(candidates@.take(0) =~= Seq::<Candidate>::empty());
        assert(comps(ranked@) == search_ranked(*cfg, rank@));
        assert(comps(pat0).take(0) =~= Seq::<Seq<LevelId>>::empty());
        let f = cfg.plan.forbidden_pairs@;
        let rk = search_ranked(*cfg, rank@);
        assert forall|p: Seq<Vec<LevelId>>|
            #[trigger] search_leaf(p, Seq::empty(), 0, k as int, rk, active@, counts@, m, f) && leaf_pos(
                rk,
                Seq::empty(),
                k as int,
                active@,
                counts@,
                m,
                f,
                comps(p),
            ) <= budget implies has_key(seen@, pattern_key_of(p)) || flow_may_reject(p, counts@, m, min_c, min_dual) by {
            lemma_leaf_from_start(p, Seq::empty(), pat0, k as int, rk, active@, counts@, m, f);
        }
        if nodes <= budget {
            let f = cfg.plan.forbidden_pairs@;
            let rk = ranked_by(compositions_of(active@, f), rank@);
            assert(comps(ranked@) == rk);
            assert forall|p: Seq<Vec<LevelId>>|
                #[trigger] search_leaf(p, Seq::empty(), 0, k as int, rk, active@, counts@, m, f) implies has_key(
                    seen@,
                    pattern_key_of(p),
                ) || flow_may_reject(p, counts@, m, min_c, min_dual) by {
                lemma_leaf_from_start(p, Seq::empty(), pat0, k as int, rk, active@, counts@, m, f);
            }
        }
    }
    (candidates, seen, nodes <= budget)
}

/// The candidates of the search: those of `search_candidates`, then those of
/// the random draws. Every candidate has one composition per class, each
/// one of `compositions_of` (one level, or an allowed pair in increasing
/// order), places every pupil of the levels with
/// pupils within the class limits, gives every class pupils and every such
/// level a class, and no two candidates share a key. Every composition whose
/// node the depth-first search counts within its budget (`leaf_pos`) has its
/// key among the candidates, or is one the flow may leave out; so has every
/// one of the `random_trials` random draws that gives each active level a
/// class.
pub fn find_candidates(cfg: &AppConfig, rank: &Vec<usize>, rng: &mut ThreadRng) -> (r: Vec<Candidate>)
    requires
        level_names_distinct(cfg.levels@),
        cfg.levels@.len() + cfg.plan.num_classes + 2 < 0x4000_0000,
    ensures
        active_of(cfg.levels@).len() == 0 || cfg.plan.num_classes == 0 ==> r@.len() == 0,
        forall|j: int|
            0 <= j < r@.len() ==> {
                &&& candidate_ok(
                    #[trigger] r@[j],
                    active_of(cfg.levels@),
                    cfg.plan.max_students_per_class,
                    cfg.plan.min_students_per_class,
                    cfg.plan.min_students_per_level_in_dual_class,
                )
                &&& r@[j].classes@.len() == cfg.plan.num_classes
                &&& forall|l: int|
                    0 <= l < active_of(cfg.levels@).len() ==> covered(
                        r@[j].classes@,
                        cfg.plan.num_classes as int,
                        active_of(cfg.levels@)[l].0@,
                    )
            },
        forall|i: int, j: int| 0 <= i < j < r@.len() ==> pattern_key_of(#[trigger] r@[i].classes@) != pattern_key_of(#[trigger] r@[j].classes@),
        forall|j: int| 0 <= j < r@.len() ==> classes_allowed(#[trigger] r@[j].classes@, cfg.plan.forbidden_pairs@),
        forall|j: int|
            0 <= j < r@.len() ==> drawn_from(
                #[trigger] r@[j].classes@,
                compositions_of(pair_names(active_of(cfg.levels@)), cfg.plan.forbidden_pairs@),
            ),
        active_of(cfg.levels@).len() > 0 && cfg.plan.num_classes > 0 ==> forall|p: Seq<Vec<LevelId>>|
            #[trigger] search_leaf(
                p,
                Seq::empty(),
                0,
                cfg.plan.num_classes as int,
                search_ranked(*cfg, rank@),
                pair_names(active_of(cfg.levels@)),
                active_of(cfg.levels@),
                cfg.plan.max_students_per_class,
                cfg.plan.forbidden_pairs@,
            ) && leaf_pos(
                search_ranked(*cfg, rank@),
                Seq::empty(),
                cfg.plan.num_classes as int,
                pair_names(active_of(cfg.levels@)),
                active_of(cfg.levels@),
                cfg.plan.max_students_per_class,
                cfg.plan.forbidden_pairs@,
                comps(p),
            ) <= effective_budget(cfg.plan.dfs_node_budget) ==> (exists|j: int|
                0 <= j < r@.len() && #[trigger] pattern_key_of(r@[j].classes@) == pattern_key_of(p)) || flow_may_reject(
                p,
                active_of(cfg.levels@),
                cfg.plan.max_students_per_class,
                cfg.plan.min_students_per_class,
                cfg.plan.min_students_per_level_in_dual_class,
            ),
        exists|draws: Seq<Seq<Vec<LevelId>>>|
            draws.len() == (if active_of(cfg.levels@).len() > 0 && cfg.plan.num_classes > 0 {
                cfg.plan.random_trials as int
            } else {
                0
            }) && #[trigger] draws_found(
                draws,
                cfg.plan.num_classes as int,
                compositions_of(pair_names(active_of(cfg.levels@)), cfg.plan.forbidden_pairs@),
                pair_names(active_of(cfg.levels@)),
                active_of(cfg.levels@),
                cfg.plan.max_students_per_class,
                cfg.plan.min_students_per_class,
                cfg.plan.min_students_per_level_in_dual_class,
                r@,
            ),
        active_of(cfg.levels@).len() > 0 && cfg.plan.num_classes > 0 && tree_bound(
            options_cap(search_ranked(*cfg, rank@)),
            cfg.plan.num_classes as nat,
        ) <= effective_budget(cfg.plan.dfs_node_budget) ==> forall|p: Seq<Vec<LevelId>>|
            #[trigger] search_leaf(
                p,
                Seq::empty(),
                0,
                cfg.plan.num_classes as int,
                search_ranked(*cfg, rank@),
                pair_names(active_of(cfg.levels@)),
                active_of(cfg.levels@),
                cfg.plan.max_students_per_class,
                cfg.plan.forbidden_pairs@,
            ) ==> (exists|j: int| 0 <= j < r@.len() && #[trigger] pattern_key_of(r@[j].classes@) == pattern_key_of(p))
                || flow_may_reject(
                p,
                active_of(cfg.levels@),
                cfg.plan.max_students_per_class,
                cfg.plan.min_students_per_class,
                cfg.plan.min_students_per_level_in_dual_class,
            ),
{
    let (active, counts) = active_levels(cfg);
    let k = cfg.plan.num_classes;
    let m = cfg.plan.max_students_per_class;
    let min_c = cfg.plan.min_students_per_class;
    let min_dual = cfg.plan.min_students_per_level_in_dual_class;
    let (mut candidates, mut seen, within) = search_candidates(cfg, rank);
    if active.len() == 0 || k == 0 {
        proof {
            let e: Seq<Seq<Vec<LevelId>>> = Seq::empty();
            assert(draws_found(
                e,
                k as int,
                compositions_of(pair_names(active_of(cfg.levels@)), cfg.plan.forbidden_pairs@),
                pair_names(active_of(cfg.levels@)),
                active_of(cfg.levels@),
                m,
                min_c,
                min_dual,
                candidates@,
            ));
        }
        return candidates;
    }
    proof {
        lemma_active_of(cfg.levels@);
    }
    let ghost c1 = candidates@;
    let ghost s1 = seen@;
    random_search(
        cfg,
        active.as_slice(),
        &counts,
        k,
        m,
        min_c,
        min_dual,
        cfg.plan.random_trials,
        rng,
        &mut candidates,
        &mut seen,
    );
    proof {
        let e: Seq<Candidate> = Seq::empty();
        let es: Seq<String> = Seq::empty();
        lemma_extends_trans(e, c1, candidates@, es, s1, seen@, counts@, m, min_c, min_dual, k as int);
        let f = cfg.plan.forbidden_pairs@;
        let pool = compositions_of(active@, f);
        let draws = choose|draws: Seq<Seq<Vec<LevelId>>>|
            draws.len() == (if active@.len() > 0 { cfg.plan.random_trials as int } else { 0 }) && #[trigger] draws_recorded(
                draws,
                k as int,
                pool,
                active@,
                counts@,
                m,
                min_c,
                min_dual,
                seen@,
            ) && taken_from_draws(candidates@, c1.len() as int, draws);
        assert forall|x: int| 0 <= x < draws.len() implies {
            &&& (#[trigger] draws[x]).len() == k
            &&& drawn_from(draws[x], pool)
            &&& covers_all(draws[x], active@) ==> (exists|j: int|
                0 <= j < candidates@.len() && #[trigger] pattern_key_of(candidates@[j].classes@) == pattern_key_of(draws[x]))
                || flow_may_reject(draws[x], counts@, m, min_c, min_dual)
        } by {
            if covers_all(draws[x], active@) && has_key(seen@, pattern_key_of(draws[x])) {
                let y = choose|y: int| 0 <= y < seen@.len() && #[trigger] seen@[y]@ == pattern_key_of(draws[x]);
                assert(seen@[y]@ == pattern_key_of(candidates@[y].classes@));
            }
        }
        assert(draws_found(draws, k as int, pool, active@, counts@, m, min_c, min_dual, candidates@));
        assert forall|j: int| 0 <= j < candidates@.len() implies forall|l: int|
            0 <= l < active_of(cfg.levels@).len() ==> covered(
                #[trigger] candidates@[j].classes@,
                k as int,
                active_of(cfg.levels@)[l].0@,
            ) by {
            assert forall|l: int| 0 <= l < active_of(cfg.levels@).len() implies covered(
                candidates@[j].classes@,
                k as int,
                active_of(cfg.levels@)[l].0@,
            ) by {
                assert(active@[l] == counts@[l].0);
                if j < c1.len() {
                    assert(candidates@.take(c1.len() as int)[j] == c1[j]);
                    assert(count_of(counts@, active@[l]@) > 0) by {
                        assert(counts@[l].0@ == active@[l]@);
                        assert(counts@[l].1 > 0);
                        let p = level_pos(counts@, active@[l]@);
                        assert(0 <= p < counts@.len() && counts@[p].0@ == active@[l]@);
                        if p != l {
                            assert(counts@[p].0@ != counts@[l].0@);
                        }
                    }
                    assert(prune_ok(c1[j].classes@, k as int, active@, counts@, k as int, m));
                    lemma_prune_covers(candidates@[j].classes@, active@, counts@, k as int, m, l);
                } else {
                    assert(covered(candidates@[j].classes@, k as int, active@[l]@));
                }
            }
        }
        assert forall|j: int| 0 <= j < candidates@.len() implies classes_allowed(
            #[trigger] candidates@[j].classes@,
            cfg.plan.forbidden_pairs@,
        ) && drawn_from(candidates@[j].classes@, compositions_of(active@, cfg.plan.forbidden_pairs@)) by {
            if j < c1.len() {
                assert(candidates@.take(c1.len() as int)[j] == c1[j]);
            }
        }
        assert forall|i: int, j: int| 0 <= i < j < candidates@.len() implies pattern_key_of(#[trigger] candidates@[i].classes@)
            != pattern_key_of(#[trigger] candidates@[j].classes@) by {
            assert(seen@[i]@ == pattern_key_of(candidates@[i].classes@));
            assert(seen@[j]@ == pattern_key_of(candidates@[j].classes@));
            assert(seen@[i]@ != seen@[j]@);
        }
        {
            let lv = active_of(cfg.levels@);
            assert forall|p: Seq<Vec<LevelId>>|
                #[trigger] search_leaf(p, Seq::empty(), 0, k as int, search_ranked(*cfg, rank@), pair_names(lv), lv, m, f)
                    && leaf_pos(
                    search_ranked(*cfg, rank@),
                    Seq::empty(),
                    k as int,
                    pair_names(lv),
                    lv,
                    m,
                    f,
                    comps(p),
                ) <= effective_budget(cfg.plan.dfs_node_budget) implies (exists|j: int|
                    0 <= j < candidates@.len() && #[trigger] pattern_key_of(candidates@[j].classes@) == pattern_key_of(p))
                    || flow_may_reject(p, lv, m, min_c, min_dual) by {
                if !flow_may_reject(p, lv, m, min_c, min_dual) {
                    assert(has_key(s1, pattern_key_of(p)));
                    let x = choose|x: int| 0 <= x < s1.len() && #[trigger] s1[x]@ == pattern_key_of(p);
                    assert(s1[x]@ == pattern_key_of(c1[x].classes@));
                    assert(candidates@.take(c1.len() as int)[x] == c1[x]);
                    assert(pattern_key_of(candidates@[x].classes@) == pattern_key_of(p));
                }
            }
        }
        if within {
            let f = cfg.plan.forbidden_pairs@;
            let lv = active_of(cfg.levels@);
            assert forall|p: Seq<Vec<LevelId>>|
                #[trigger] search_leaf(
                    p,
                    Seq::empty(),
                    0,
                    k as int,
                    search_ranked(*cfg, rank@),
                    pair_names(lv),
                    lv,
                    m,
                    f,
                ) implies (exists|j: int| 0 <= j < candidates@.len() && #[trigger] pattern_key_of(candidates@[j].classes@)
                == pattern_key_of(p)) || flow_may_reject(p, lv, m, min_c, min_dual) by {
                if !flow_may_reject(p, lv, m, min_c, min_dual) {
                    assert(has_key(s1, pattern_key_of(p)));
                    let x = choose|x: int| 0 <= x < s1.len() && #[trigger] s1[x]@ == pattern_key_of(p);
                    assert(s1[x]@ == pattern_key_of(c1[x].classes@));
                    assert(candidates@.take(c1.len() as int)[x] == c1[x]);
                    assert(pattern_key_of(candidates@[x].classes@) == pattern_key_of(p));
                }
            }
        }
    }
    candidates
}


// ---------------------------------------------------------------------------
// Choosing the plans.
// ---------------------------------------------------------------------------

/// Number of plans to produce: the number asked for, at most 20.
pub fn plans_wanted(num_plans: usize) -> (r: usize)
    ensures
        r == (if num_plans > 20 {
            20
        } else {
            num_plans
        }),
{
    if num_plans > 20 {
        20
    } else {
        num_plans
    }
}

/// The keys of the candidates.
pub open spec fn candidate_keys(cands: Seq<Candidate>) -> Seq<Seq<char>> {
    Seq::new(cands.len(), |i: int| pattern_key_of(cands[i].classes@))
}

/// The positions among the first `n` whose key no earlier position has.
pub open spec fn first_keys(keys: Seq<Seq<char>>, n: int) -> Seq<int>
    decreases n,
{
    if n <= 0 {
        Seq::empty()
    } else {
        let r = first_keys(keys, n - 1);
        if exists|j: int| 0 <= j < n - 1 && #[trigger] keys[j] == keys[n - 1] {
            r
        } else {
            r.push(n - 1)
        }
    }
}

/// The positions `select_diverse` keeps: the first of each key, at most
/// `want` of them.
pub open spec fn selected(keys: Seq<Seq<char>>, want: usize) -> Seq<int> {
    let all = first_keys(keys, keys.len() as int);
    if all.len() <= want {
        all
    } else {
        all.take(want as int)
    }
}

proof fn lemma_first_keys_prefix(keys: Seq<Seq<char>>, i: int, n: int)
    requires
        0 <= i <= n,
    ensures
        first_keys(keys, i).len() <= first_keys(keys, n).len(),
        first_keys(keys, n).take(first_keys(keys, i).len() as int) == first_keys(keys, i),
    decreases n,
{
    if i == n {
        assert(first_keys(keys, n).take(first_keys(keys, i).len() as int) =~= first_keys(keys, i));
    } else {
        lemma_first_keys_prefix(keys, i, n - 1);
        let a = first_keys(keys, i);
        let b = first_keys(keys, n - 1);
        assert(first_keys(keys, n).take(a.len() as int) =~= b.take(a.len() as int));
    }
}

/// No earlier position has the key of position `p`.
pub open spec fn first_of_key(keys: Seq<Seq<char>>, p: int) -> bool {
    forall|j: int| 0 <= j < p ==> keys[j] != keys[p]
}

/// `sel` keeps the best distinct plans, up to `want`: as many positions as
/// the smaller of `want` and the number of distinct keys, each the first
/// position of its key, in increasing order, and no first position of a key
/// left out before the last one kept (one is left out only when `want` are
/// kept).
pub open spec fn keeps_first_of_each_key(keys: Seq<Seq<char>>, sel: Seq<int>, want: usize) -> bool {
    &&& sel.len() == (if (want as int) < keys.to_set().len() { want as int } else { keys.to_set().len() as int })
    &&& forall|i: int| 0 <= i < sel.len() ==> 0 <= #[trigger] sel[i] < keys.len() && first_of_key(keys, sel[i])
    &&& forall|i: int, j: int| 0 <= i < j < sel.len() ==> #[trigger] sel[i] < #[trigger] sel[j]
    &&& forall|p: int|
        0 <= p < keys.len() && first_of_key(keys, p) && !sel.contains(p) ==> sel.len() == want && forall|i: int|
            0 <= i < sel.len() ==> #[trigger] sel[i] < p
}

proof fn lemma_first_keys_props(keys: Seq<Seq<char>>, n: int)
    requires
        0 <= n <= keys.len(),
    ensures
        forall|i: int|
            0 <= i < first_keys(keys, n).len() ==> 0 <= #[trigger] first_keys(keys, n)[i] < n && first_of_key(
                keys,
                first_keys(keys, n)[i],
            ),
        forall|i: int, j: int|
            0 <= i < j < first_keys(keys, n).len() ==> #[trigger] first_keys(keys, n)[i] < #[trigger] first_keys(keys, n)[j],
        forall|p: int| 0 <= p < n && first_of_key(keys, p) ==> first_keys(keys, n).contains(p),
        first_keys(keys, n).len() == keys.take(n).to_set().len(),
    decreases n,
{
    broadcast use vstd::seq_lib::seq_to_set_is_finite;
    broadcast use vstd::set::group_set_axioms;

    if n == 0 {
        assert(keys.take(0).to_set() =~= Set::<Seq<char>>::empty());
    } else {
        lemma_first_keys_props(keys, n - 1);
        let r = first_keys(keys, n - 1);
        let fk = first_keys(keys, n);
        assert(keys.take(n).to_set() =~= keys.take(n - 1).to_set().insert(keys[n - 1])) by {
            assert forall|x: Seq<char>| keys.take(n).to_set().contains(x) <==> keys.take(n - 1).to_set().insert(
                keys[n - 1],
            ).contains(x) by {
                if keys.take(n).to_set().contains(x) {
                    let q = choose|q: int| 0 <= q < n && #[trigger] keys.take(n)[q] == x;
                    if q < n - 1 {
                        assert(keys.take(n - 1)[q] == x);
                    }
                }
                if keys.take(n - 1).to_set().contains(x) {
                    let q = choose|q: int| 0 <= q < n - 1 && #[trigger] keys.take(n - 1)[q] == x;
                    assert(keys.take(n)[q] == x);
                }
                if x == keys[n - 1] {
                    assert(keys.take(n)[n - 1] == x);
                }
            }
        }
        if exists|j: int| 0 <= j < n - 1 && #[trigger] keys[j] == keys[n - 1] {
            let j = choose|j: int| 0 <= j < n - 1 && #[trigger] keys[j] == keys[n - 1];
            assert(keys.take(n - 1)[j] == keys[n - 1]);
            assert(keys.take(n - 1).to_set().contains(keys[n - 1]));
            assert(keys.take(n - 1).to_set().insert(keys[n - 1]) =~= keys.take(n - 1).to_set());
            assert(!first_of_key(keys, n - 1));
        } else {
            assert(fk == r.push(n - 1));
            assert(!keys.take(n - 1).to_set().contains(keys[n - 1])) by {
                if keys.take(n - 1).to_set().contains(keys[n - 1]) {
                    let q = choose|q: int| 0 <= q < n - 1 && #[trigger] keys.take(n - 1)[q] == keys[n - 1];
                    assert(keys[q] == keys[n - 1]);
                }
            }
            assert(first_of_key(keys, n - 1));
            assert(fk[r.len() as int] == n - 1);
            assert forall|p: int| 0 <= p < n && first_of_key(keys, p) implies fk.contains(p) by {
                if p < n - 1 {
                    let x = choose|x: int| 0 <= x < r.len() && r[x] == p;
                    assert(fk[x] == p);
                }
            }
        }
    }
}

/// `selected` keeps the best distinct plans, up to `want`
/// (`keeps_first_of_each_key`).
pub proof fn lemma_selected_keeps_first_of_each_key(keys: Seq<Seq<char>>, want: usize)
    ensures
        keeps_first_of_each_key(keys, selected(keys, want), want),
{
    let n = keys.len() as int;
    lemma_first_keys_props(keys, n);
    assert(keys.take(n) =~= keys);
    let all = first_keys(keys, n);
    let sel = selected(keys, want);
    if all.len() > want {
        assert forall|p: int|
            0 <= p < keys.len() && first_of_key(keys, p) && !sel.contains(p) implies sel.len() == want && forall|i: int|
            0 <= i < sel.len() ==> #[trigger] sel[i] < p by {
            let q = choose|q: int| 0 <= q < all.len() && all[q] == p;
            if q < want {
                assert(sel[q] == p);
            }
            assert forall|i: int| 0 <= i < sel.len() implies #[trigger] sel[i] < p by {
                assert(sel[i] == all[i]);
            }
        }
        assert forall|i: int, j: int| 0 <= i < j < sel.len() implies #[trigger] sel[i] < #[trigger] sel[j] by {
            assert(sel[i] == all[i] && sel[j] == all[j]);
        }
        assert forall|i: int| 0 <= i < sel.len() implies 0 <= #[trigger] sel[i] < keys.len() && first_of_key(keys, sel[i]) by {
            assert(sel[i] == all[i]);
        }
    }
}

/// Some key of `kept` is `key`.
pub open spec fn has_key(kept: Seq<String>, key: Seq<char>) -> bool {
    exists|x: int| 0 <= x < kept.len() && #[trigger] kept[x]@ == key
}

/// The candidates to turn into plans, taken in order (best first): the first
/// candidate of each key, until `want` are kept.
pub fn select_diverse(cands: &Vec<Candidate>, want: usize) -> (r: Vec<usize>)
    ensures
        Seq::new(r@.len(), |i: int| r@[i] as int) == selected(candidate_keys(cands@), want),
        keeps_first_of_each_key(candidate_keys(cands@), Seq::new(r@.len(), |i: int| r@[i] as int), want),
{
    proof {
        lemma_selected_keeps_first_of_each_key(candidate_keys(cands@), want);
    }
    let ghost keys = candidate_keys(cands@);
    let cap: usize = want;
    let mut out: Vec<usize> = Vec::new();
    let mut kept: Vec<String> = Vec::new();
    let mut i: usize = 0;
    while i < cands.len() && out.len() < cap
        invariant
            i <= cands@.len(),
            keys == candidate_keys(cands@),
            out@.len() <= cap,
            Seq::new(out@.len(), |x: int| out@[x] as int) == first_keys(keys, i as int),
            kept@.len() == out@.len(),
            forall|x: int| 0 <= x < out@.len() ==> #[trigger] out@[x] < i,
            forall|x: int| 0 <= x < out@.len() ==> #[trigger] kept@[x]@ == keys[out@[x] as int],
            forall|j: int| 0 <= j < i ==> has_key(kept@, #[trigger] keys[j]),
        decreases cands@.len() - i,
    {
        let key = pattern_key(cands[i].classes.as_slice());
        proof {
            assert(key@ == keys[i as int]);
        }
        let seen = key_seen(&kept, &key);
        proof {
            if seen {
                let x = choose|x: int| 0 <= x < kept@.len() && #[trigger] kept@[x]@ == key@;
                assert(keys[out@[x] as int] == keys[i as int]);
            } else {
                assert forall|j: int| 0 <= j < i implies keys[j] != keys[i as int] by {
                    assert(has_key(kept@, keys[j]));
                }
            }
        }
        let ghost kept0 = kept@;
        let ghost out0 = out@;
        if !seen {
            out.push(i);
            kept.push(key);
            proof {
                assert(Seq::new(out@.len(), |x: int| out@[x] as int) =~= first_keys(keys, i + 1));
                assert forall|x: int| 0 <= x < out@.len() implies #[trigger] kept@[x]@ == keys[out@[x] as int] by {
                    if x < out0.len() {
                        assert(out@[x] == out0[x]);
                        assert(kept@[x] == kept0[x]);
                        assert(kept0[x]@ == keys[out0[x] as int]);
                    } else {
                        assert(out@[x] == i);
                        assert(kept@[x] == key);
                    }
                }
                assert forall|x: int| 0 <= x < out@.len() implies #[trigger] out@[x] < i + 1 by {
                    if x < out0.len() {
                        assert(out@[x] == out0[x]);
                        assert(out0[x] < i);
                    }
                }
                assert forall|j: int| 0 <= j < i + 1 implies has_key(kept@, #[trigger] keys[j]) by {
                    if j == i {
                        assert(kept@[kept@.len() - 1]@ == keys[j]);
                    } else {
                        assert(has_key(kept0, keys[j]));
                        let x = choose|x: int| 0 <= x < kept0.len() && #[trigger] kept0[x]@ == keys[j];
                        assert(kept@[x] == kept0[x]);
                    }
                }
            }
        } else {
            proof {
                assert(first_keys(keys, i + 1) == first_keys(keys, i as int));
                assert forall|x: int| 0 <= x < out@.len() implies #[trigger] out@[x] < i + 1 by {
                    assert(out0[x] < i);
                }
                assert forall|j: int| 0 <= j < i + 1 implies has_key(kept@, #[trigger] keys[j]) by {
                    if j == i {
                        let x = choose|x: int| 0 <= x < kept@.len() && #[trigger] kept@[x]@ == key@;
                    } else {
                        assert(has_key(kept0, keys[j]));
                    }
                }
            }
        }
        i = i + 1;
    }
    proof {
        lemma_first_keys_prefix(keys, i as int, cands@.len() as int);
        let all = first_keys(keys, cands@.len() as int);
        let got = first_keys(keys, i as int);
        if i < cands@.len() {
            assert(got.len() == cap);
            assert(all.take(cap as int) =~= got);
            if all.len() <= cap {
                assert(all =~= got);
            }
        } else {
            assert(got == all);
        }
    }
    out
}


/// The two-level classes of a composition, as pairs of levels, in class
/// order.
pub open spec fn dual_pairs(classes: Seq<Vec<LevelId>>) -> Seq<(LevelId, LevelId)>
    decreases classes.len(),
{
    if classes.len() == 0 {
        Seq::empty()
    } else {
        let r = dual_pairs(classes.drop_last());
        let c = classes.last()@;
        if c.len() == 2 {
            r.push((c[0], c[1]))
        } else {
            r
        }
    }
}

/// The classes that hold exactly two levels.
pub open spec fn is_two_level(c: Vec<LevelId>) -> bool {
    c@.len() == 2
}

/// A two-level class as the pair of its levels.
pub open spec fn as_pair(c: Vec<LevelId>) -> (LevelId, LevelId) {
    (c@[0], c@[1])
}

/// The pairs reported are those of the classes holding exactly two levels,
/// every one of them, in class order: there are as many as such classes,
/// and each such class gives its pair.
pub proof fn lemma_dual_pairs_are_two_level_classes(classes: Seq<Vec<LevelId>>)
    ensures
        dual_pairs(classes) == classes.filter(|c: Vec<LevelId>| is_two_level(c)).map_values(|c: Vec<LevelId>| as_pair(c)),
        dual_pairs(classes).len() == classes.filter(|c: Vec<LevelId>| is_two_level(c)).len(),
        forall|i: int| 0 <= i < classes.len() && #[trigger] classes[i]@.len() == 2 ==> dual_pairs(classes).contains(
            (classes[i]@[0], classes[i]@[1]),
        ),
    decreases classes.len(),
{
    let pred = |c: Vec<LevelId>| is_two_level(c);
    let f = |c: Vec<LevelId>| as_pair(c);
    reveal(Seq::filter);
    if classes.len() == 0 {
        assert(classes.filter(pred) =~= Seq::<Vec<LevelId>>::empty());
        assert(classes.filter(pred).map_values(f) =~= Seq::<(LevelId, LevelId)>::empty());
    } else {
        let rest = classes.drop_last();
        lemma_dual_pairs_are_two_level_classes(rest);
        let c = classes.last();
        if c@.len() == 2 {
            assert(classes.filter(pred) == rest.filter(pred).push(c));
            assert(classes.filter(pred).map_values(f) =~= rest.filter(pred).map_values(f).push(f(c)));
        } else {
            assert(classes.filter(pred) == rest.filter(pred));
        }
        assert forall|i: int| 0 <= i < classes.len() && #[trigger] classes[i]@.len() == 2 implies dual_pairs(
            classes,
        ).contains((classes[i]@[0], classes[i]@[1])) by {
            if i < rest.len() {
                assert(rest[i] == classes[i]);
                assert(rest[i]@.len() == 2);
                let x = choose|x: int| 0 <= x < dual_pairs(rest).len() && dual_pairs(rest)[x] == (rest[i]@[0], rest[i]@[1]);
                assert(dual_pairs(classes)[x] == dual_pairs(rest)[x]);
            } else {
                assert(dual_pairs(classes).last() == (c@[0], c@[1]));
            }
        }
    }
}

/// The two-level classes of a composition, as pairs of levels, in class
/// order; their number is the number of two-level classes.
pub fn double_level_pairs(classes: &[Vec<LevelId>]) -> (r: Vec<(LevelId, LevelId)>)
    ensures
        r@ == dual_pairs(classes@),
        r@ == classes@.filter(|c: Vec<LevelId>| is_two_level(c)).map_values(|c: Vec<LevelId>| as_pair(c)),
        forall|i: int| 0 <= i < classes@.len() && #[trigger] classes@[i]@.len() == 2 ==> r@.contains(
            (classes@[i]@[0], classes@[i]@[1]),
        ),
{
    proof {
        lemma_dual_pairs_are_two_level_classes(classes@);
    }
    let mut r: Vec<(LevelId, LevelId)> = Vec::new();
    let mut i: usize = 0;
    while i < classes.len()
        invariant
            i <= classes@.len(),
            r@ == dual_pairs(classes@.take(i as int)),
        decreases classes@.len() - i,
    {
        proof {
            assert(classes@.take(i + 1).drop_last() =~= classes@.take(i as int));
        }
        if classes[i].len() == 2 {
            r.push((classes[i][0].clone(), classes[i][1].clone()));
        }
        i = i + 1;
    }
    proof {
        assert(classes@.take(i as int) =~= classes@);
    }
    r
}

} // verus!
