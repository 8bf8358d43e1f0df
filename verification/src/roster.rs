//! The lists of pupils' names handed out to the classes of a plan: each
//! named level's list is cut, in the order it is given, into consecutive slices
//! given to the classes in class order.

use vstd::prelude::*;
use crate::config::{AppConfig, LevelData, LevelId, in_group};
use crate::flow::{Assignment, class_names_distinct, entry_amount};

verus! {

/// For one class: each level with names, and the names it gives the class.
pub type ClassRoster = Vec<(LevelId, Vec<String>)>;

/// No two levels of the configuration share a name.
pub open spec fn level_names_distinct(levels: Seq<(LevelId, LevelData)>) -> bool {
    forall|i: int, j: int|
        0 <= i < levels.len() && 0 <= j < levels.len() && i != j ==> #[trigger] levels[i].0@ != #[trigger] levels[j].0@
}

/// Position of the level called `name` among the configuration's levels, or
/// -1.
pub open spec fn level_slot(levels: Seq<(LevelId, LevelData)>, name: Seq<char>) -> int {
    if exists|i: int| 0 <= i < levels.len() && #[trigger] levels[i].0@ == name {
        choose|i: int| 0 <= i < levels.len() && #[trigger] levels[i].0@ == name
    } else {
        -1
    }
}

/// Pupils that class `c` receives from the level called `name`.
pub open spec fn amount_in(a: Assignment, c: int, name: Seq<char>) -> int {
    if 0 <= c < a.per_class@.len() {
        entry_amount(a.per_class@[c]@, name)
    } else {
        0
    }
}

/// Pupils of the level called `name` that the classes before `c` receive.
pub open spec fn placed_before(classes: Seq<Vec<LevelId>>, a: Assignment, name: Seq<char>, c: int) -> int
    decreases c,
{
    if c <= 0 {
        0
    } else {
        placed_before(classes, a, name, c - 1) + if in_group(classes[c - 1]@, name) {
            amount_in(a, c - 1, name)
        } else {
            0
        }
    }
}

/// Some class receives pupils of a level the configuration does not have.
pub open spec fn unknown_level_used(classes: Seq<Vec<LevelId>>, a: Assignment, levels: Seq<(LevelId, LevelData)>) -> bool {
    exists|c: int, j: int|
        0 <= c < classes.len() && 0 <= j < classes[c]@.len() && amount_in(a, c, #[trigger] classes[c]@[j]@) > 0
            && level_slot(levels, classes[c]@[j]@) < 0
}

/// Every level with names has all of them handed out, no more.
pub open spec fn names_exhausted(classes: Seq<Vec<LevelId>>, a: Assignment, levels: Seq<(LevelId, LevelData)>) -> bool {
    forall|i: int|
        0 <= i < levels.len() && #[trigger] levels[i].1.students@.len() > 0 ==> placed_before(
            classes,
            a,
            levels[i].0@,
            classes.len() as int,
        ) == levels[i].1.students@.len()
}

/// The names class `c` receives from its first `j` levels: for each level
/// with names and at least one pupil in the class, the next slice of its list.
pub open spec fn roster_entries(
    classes: Seq<Vec<LevelId>>,
    a: Assignment,
    levels: Seq<(LevelId, LevelData)>,
    c: int,
    j: int,
) -> Seq<(LevelId, Seq<String>)>
    decreases j,
{
    if j <= 0 {
        Seq::empty()
    } else {
        let r = roster_entries(classes, a, levels, c, j - 1);
        let name = classes[c]@[j - 1];
        let n = amount_in(a, c, name@);
        let s = level_slot(levels, name@);
        let from = placed_before(classes, a, name@, c);
        if n > 0 && s >= 0 && levels[s].1.students@.len() > 0 {
            r.push((name, levels[s].1.students@.subrange(from, from + n)))
        } else {
            r
        }
    }
}

/// A roster as values.
pub open spec fn roster_view(r: Seq<ClassRoster>) -> Seq<Seq<(LevelId, Seq<String>)>> {
    Seq::new(r.len(), |c: int| Seq::new(r[c]@.len(), |e: int| (r[c]@[e].0, r[c]@[e].1@)))
}

/// What `build_named_roster` answers.
pub open spec fn roster_outcome(
    classes: Seq<Vec<LevelId>>,
    a: Assignment,
    levels: Seq<(LevelId, LevelData)>,
    r: Option<Vec<ClassRoster>>,
) -> bool {
    let has_named = exists|i: int| 0 <= i < levels.len() && #[trigger] levels[i].1.students@.len() > 0;
    if has_named && !unknown_level_used(classes, a, levels) && names_exhausted(classes, a, levels) {
        r matches Some(v) && roster_view(v@) == Seq::new(
            classes.len(),
            |c: int| roster_entries(classes, a, levels, c, classes[c]@.len() as int),
        )
    } else {
        r is None
    }
}


/// Pupils of the level called `name` that classes before `c`, and the first
/// `j` levels of class `c`, receive.
pub open spec fn placed_upto(classes: Seq<Vec<LevelId>>, a: Assignment, name: Seq<char>, c: int, j: int) -> int {
    placed_before(classes, a, name, c) + if in_group(classes[c]@.take(j), name) {
        amount_in(a, c, name)
    } else {
        0
    }
}

/// The position reached in each level's list once the classes before `c`,
/// and the first `j` levels of class `c`, are served.
pub open spec fn cursor_ok(
    cursor: Seq<usize>,
    classes: Seq<Vec<LevelId>>,
    a: Assignment,
    levels: Seq<(LevelId, LevelData)>,
    c: int,
    j: int,
) -> bool {
    &&& cursor.len() == levels.len()
    &&& forall|s: int|
        0 <= s < levels.len() ==> #[trigger] cursor[s] == if levels[s].1.students@.len() > 0 {
            placed_upto(classes, a, levels[s].0@, c, j)
        } else {
            0
        }
    &&& forall|s: int| 0 <= s < levels.len() ==> #[trigger] cursor[s] <= levels[s].1.students@.len()
}

/// No level served so far is unknown while receiving pupils.
pub open spec fn served_known(
    classes: Seq<Vec<LevelId>>,
    a: Assignment,
    levels: Seq<(LevelId, LevelData)>,
    c: int,
    j: int,
) -> bool {
    forall|c2: int, j2: int|
        0 <= c2 <= c && 0 <= j2 < classes[c2]@.len() && (c2 < c || j2 < j) && amount_in(a, c2, #[trigger] classes[c2]@[j2]@) > 0
            ==> level_slot(levels, classes[c2]@[j2]@) >= 0
}

proof fn lemma_entry_amount_nonneg(entries: Seq<(LevelId, u32)>, name: Seq<char>)
    ensures
        0 <= entry_amount(entries, name),
    decreases entries.len(),
{
    if entries.len() > 0 {
        lemma_entry_amount_nonneg(entries.drop_first(), name);
    }
}

proof fn lemma_placed_mono(classes: Seq<Vec<LevelId>>, a: Assignment, name: Seq<char>, c: int, c2: int)
    requires
        0 <= c <= c2,
    ensures
        placed_before(classes, a, name, c) <= placed_before(classes, a, name, c2),
    decreases c2,
{
    if c < c2 {
        lemma_placed_mono(classes, a, name, c, c2 - 1);
        if 0 <= c2 - 1 < a.per_class@.len() {
            lemma_entry_amount_nonneg(a.per_class@[c2 - 1]@, name);
        }
    }
}

/// Position of the level called `name` among the configuration's levels.
fn find_slot(levels: &Vec<(LevelId, LevelData)>, name: &LevelId) -> (r: Option<usize>)
    requires
        level_names_distinct(levels@),
    ensures
        r matches Some(i) ==> i < levels@.len() && i == level_slot(levels@, name@),
        r is None ==> level_slot(levels@, name@) == -1,
{
    let mut i: usize = 0;
    while i < levels.len()
        invariant
            i <= levels@.len(),
            level_names_distinct(levels@),
            forall|x: int| 0 <= x < i ==> #[trigger] levels@[x].0@ != name@,
        decreases levels@.len() - i,
    {
        if levels[i].0 == *name {
            proof {
                let p = level_slot(levels@, name@);
                assert(levels@[i as int].0@ == name@);
                if p != i {
                    assert(levels@[p].0@ != levels@[i as int].0@);
                }
            }
            return Some(i);
        }
        i = i + 1;
    }
    None
}

/// Pupils that class `c` receives from the level called `name`.
fn amount_of(a: &Assignment, c: usize, name: &LevelId) -> (n: u32)
    ensures
        n == amount_in(*a, c as int, name@),
{
    if c >= a.per_class.len() {
        return 0;
    }
    let entries = &a.per_class[c];
    proof {
        assert(entries@.skip(0) =~= entries@);
    }
    let mut i: usize = 0;
    while i < entries.len()
        invariant
            c < a.per_class@.len(),
            *entries == a.per_class@[c as int],
            i <= entries@.len(),
            entry_amount(entries@, name@) == entry_amount(entries@.skip(i as int), name@),
        decreases entries@.len() - i,
    {
        proof {
            assert(entries@.skip(i as int)[0] == entries@[i as int]);
            assert(entries@.skip(i as int).drop_first() =~= entries@.skip(i + 1));
        }
        if entries[i].0 == *name {
            return entries[i].1;
        }
        i = i + 1;
    }
    proof {
        assert(entries@.skip(i as int).len() == 0);
    }
    0
}

/// The names `v[from..to]`.
fn copy_slice(v: &Vec<String>, from: usize, to: usize) -> (r: Vec<String>)
    requires
        from <= to <= v@.len(),
    ensures
        r@ == v@.subrange(from as int, to as int),
{
    let mut r: Vec<String> = Vec::new();
    let mut i: usize = from;
    while i < to
        invariant
            from <= i <= to,
            to <= v@.len(),
            r@ == v@.subrange(from as int, i as int),
        decreases to - i,
    {
        r.push(v[i].clone());
        proof {
            assert(r@ =~= v@.subrange(from as int, i + 1));
        }
        i = i + 1;
    }
    r
}

/// Hands out the lists of pupils' names: for each class in order, for each
/// of its levels in order that has names and pupils in the class, the next
/// slice of the level's list, as long as the class's number of pupils of
/// that level. `None` when no level has names, when a class receives pupils
/// of a level the configuration lacks, or when a list is not handed out
/// exactly.
pub fn build_named_roster(classes: &[Vec<LevelId>], assignment: &Assignment, cfg: &AppConfig) -> (r: Option<
    Vec<ClassRoster>,
>)
    requires
        level_names_distinct(cfg.levels@),
        forall|c: int| 0 <= c < classes@.len() ==> class_names_distinct(#[trigger] classes@[c]@),
    ensures
        roster_outcome(classes@, *assignment, cfg.levels@, r),
{
    let ghost cl = classes@;
    let ghost a = *assignment;
    let ghost levels = cfg.levels@;
    if !cfg.has_named_students() {
        return None;
    }
    let k = classes.len();
    let mut cursor: Vec<usize> = Vec::new();
    let mut s: usize = 0;
    while s < cfg.levels.len()
        invariant
            s <= levels.len(),
            levels == cfg.levels@,
            cursor@.len() == s,
            forall|x: int| 0 <= x < s ==> #[trigger] cursor@[x] == 0usize,
        decreases levels.len() - s,
    {
        cursor.push(0);
        s = s + 1;
    }
    proof {
        assert forall|x: int| 0 <= x < levels.len() implies #[trigger] cursor@[x] == if levels[x].1.students@.len() > 0 {
            placed_upto(cl, a, levels[x].0@, 0, 0)
        } else {
            0
        } by {
            assert(cl[0]@.take(0) =~= Seq::<LevelId>::empty());
        }
    }
    let mut roster: Vec<ClassRoster> = Vec::new();
    let mut ci: usize = 0;
    while ci < k
        invariant
            ci <= k,
            k == cl.len(),
            cl == classes@,
            a == *assignment,
            levels == cfg.levels@,
            level_names_distinct(levels),
            forall|c: int| 0 <= c < cl.len() ==> class_names_distinct(#[trigger] cl[c]@),
            cursor_ok(cursor@, cl, a, levels, ci as int, 0),
            served_known(cl, a, levels, ci as int, 0),
            roster@.len() == ci,
            forall|c: int| 0 <= c < ci ==> #[trigger] roster_view(roster@)[c] == roster_entries(cl, a, levels, c, cl[c]@.len() as int),
        decreases k - ci,
    {
        let comp = &classes[ci];
        let mut entries: ClassRoster = Vec::new();
        let mut j: usize = 0;
        while j < comp.len()
            invariant
                ci < k,
                k == cl.len(),
                cl == classes@,
                *comp == cl[ci as int],
                a == *assignment,
                levels == cfg.levels@,
                level_names_distinct(levels),
                class_names_distinct(cl[ci as int]@),
                j <= comp@.len(),
                cursor_ok(cursor@, cl, a, levels, ci as int, j as int),
                served_known(cl, a, levels, ci as int, j as int),
                Seq::new(entries@.len(), |e: int| (entries@[e].0, entries@[e].1@)) == roster_entries(cl, a, levels, ci as int, j as int),
            decreases comp@.len() - j,
        {
            let name = &comp[j];
            let n = amount_of(assignment, ci, name);
            let ghost nm = name@;
            proof {
                assert(cl[ci as int]@.take(j + 1) =~= cl[ci as int]@.take(j as int).push(*name));
                assert(!in_group(cl[ci as int]@.take(j as int), nm)) by {
                    if in_group(cl[ci as int]@.take(j as int), nm) {
                        let x = choose|x: int| 0 <= x < cl[ci as int]@.take(j as int).len() && #[trigger] cl[ci as int]@.take(j as int)[x]@ == nm;
                        assert(cl[ci as int]@[x]@ == cl[ci as int]@[j as int]@);
                    }
                }
                assert(in_group(cl[ci as int]@.take(j + 1), nm)) by {
                    assert(cl[ci as int]@.take(j + 1)[j as int]@ == nm);
                }
                assert(in_group(cl[ci as int]@, nm)) by {
                    assert(cl[ci as int]@[j as int]@ == nm);
                }
            }
            if n > 0 {
                match find_slot(&cfg.levels, name) {
                    None => {
                        proof {
                            assert(unknown_level_used(cl, a, levels)) by {
                                assert(amount_in(a, ci as int, cl[ci as int]@[j as int]@) > 0);
                            }
                        }
                        return None;
                    },
                    Some(slot) => {
                        let students = &cfg.levels[slot].1.students;
                        if students.len() > 0 {
                            let start = cursor[slot];
                            proof {
                                assert(start == placed_before(cl, a, nm, ci as int));
                            }
                            if n as usize > students.len() - start {
                                proof {
                                    lemma_placed_mono(cl, a, nm, ci + 1, cl.len() as int);
                                    assert(placed_before(cl, a, nm, ci + 1) == start + n);
                                    assert(!names_exhausted(cl, a, levels)) by {
                                        assert(levels[slot as int].1.students@.len() > 0);
                                        assert(levels[slot as int].0@ == nm);
                                    }
                                }
                                return None;
                            }
                            let end = start + n as usize;
                            let names = copy_slice(students, start, end);
                            let ghost before = entries@;
                            entries.push((name.clone(), names));
                            cursor.set(slot, end);
                            proof {
                                assert forall|x: int| 0 <= x < levels.len() implies #[trigger] cursor@[x] == if levels[x].1.students@.len() > 0 {
                                    placed_upto(cl, a, levels[x].0@, ci as int, j + 1)
                                } else {
                                    0
                                } by {
                                    if x != slot {
                                        assert(levels[x].0@ != levels[slot as int].0@);
                                        assert(in_group(cl[ci as int]@.take(j + 1), levels[x].0@) == in_group(
                                            cl[ci as int]@.take(j as int),
                                            levels[x].0@,
                                        )) by {
                                            if in_group(cl[ci as int]@.take(j + 1), levels[x].0@) {
                                                let y = choose|y: int| 0 <= y < cl[ci as int]@.take(j + 1).len() && #[trigger] cl[ci as int]@.take(j + 1)[y]@ == levels[x].0@;
                                                assert(y != j);
                                                assert(cl[ci as int]@.take(j as int)[y]@ == levels[x].0@);
                                            }
                                        }
                                    }
                                }
                                assert(Seq::new(entries@.len(), |e: int| (entries@[e].0, entries@[e].1@)) =~= roster_entries(
                                    cl,
                                    a,
                                    levels,
                                    ci as int,
                                    j + 1,
                                ));
                            }
                        } else {
                            proof {
                                assert(cursor_ok(cursor@, cl, a, levels, ci as int, j + 1)) by {
                                    assert forall|x: int| 0 <= x < levels.len() implies #[trigger] cursor@[x] == if levels[x].1.students@.len() > 0 {
                                        placed_upto(cl, a, levels[x].0@, ci as int, j + 1)
                                    } else {
                                        0
                                    } by {
                                        if x != slot && levels[x].1.students@.len() > 0 {
                                            assert(levels[x].0@ != levels[slot as int].0@);
                                            if in_group(cl[ci as int]@.take(j + 1), levels[x].0@) {
                                                let y = choose|y: int| 0 <= y < cl[ci as int]@.take(j + 1).len() && #[trigger] cl[ci as int]@.take(j + 1)[y]@ == levels[x].0@;
                                                assert(y != j);
                                                assert(cl[ci as int]@.take(j as int)[y]@ == levels[x].0@);
                                            }
                                        }
                                    }
                                }
                            }
                        }
                    },
                }
            } else {
                proof {
                    assert forall|x: int| 0 <= x < levels.len() implies #[trigger] cursor@[x] == if levels[x].1.students@.len() > 0 {
                        placed_upto(cl, a, levels[x].0@, ci as int, j + 1)
                    } else {
                        0
                    } by {
                        if levels[x].1.students@.len() > 0 && levels[x].0@ != nm {
                            if in_group(cl[ci as int]@.take(j + 1), levels[x].0@) {
                                let y = choose|y: int| 0 <= y < cl[ci as int]@.take(j + 1).len() && #[trigger] cl[ci as int]@.take(j + 1)[y]@ == levels[x].0@;
                                assert(y != j);
                                assert(cl[ci as int]@.take(j as int)[y]@ == levels[x].0@);
                            }
                        }
                    }
                }
            }
            j = j + 1;
        }
        let ghost before = roster@;
        roster.push(entries);
        proof {
            assert(cl[ci as int]@.take(j as int) =~= cl[ci as int]@);
            assert forall|x: int| 0 <= x < levels.len() implies #[trigger] cursor@[x] == if levels[x].1.students@.len() > 0 {
                placed_upto(cl, a, levels[x].0@, ci + 1, 0)
            } else {
                0
            } by {
                assert(cl[ci + 1]@.take(0) =~= Seq::<LevelId>::empty());
            }
            assert forall|c: int| 0 <= c < ci + 1 implies #[trigger] roster_view(roster@)[c] == roster_entries(
                cl,
                a,
                levels,
                c,
                cl[c]@.len() as int,
            ) by {
                if c < ci {
                    assert(roster@[c] == before[c]);
                    assert(roster_view(before)[c] == roster_entries(cl, a, levels, c, cl[c]@.len() as int));
                }
            }
        }
        ci = ci + 1;
    }
    let mut s: usize = 0;
    while s < cfg.levels.len()
        invariant
            s <= levels.len(),
            levels == cfg.levels@,
            cl == classes@,
            a == *assignment,
            cursor_ok(cursor@, cl, a, levels, cl.len() as int, 0),
            forall|x: int| 0 <= x < s && #[trigger] levels[x].1.students@.len() > 0 ==> placed_before(
                cl,
                a,
                levels[x].0@,
                cl.len() as int,
            ) == levels[x].1.students@.len(),
        decreases levels.len() - s,
    {
        if cfg.levels[s].1.students.len() > 0 && cursor[s] != cfg.levels[s].1.students.len() {
            proof {
                assert(cl[cl.len() as int]@.take(0) =~= Seq::<LevelId>::empty());
            }
            return None;
        }
        proof {
            assert(cl[cl.len() as int]@.take(0) =~= Seq::<LevelId>::empty());
        }
        s = s + 1;
    }
    proof {
        assert(roster_view(roster@) =~= Seq::new(cl.len(), |c: int| roster_entries(cl, a, levels, c, cl[c]@.len() as int)));
    }
    Some(roster)
}


// ---------------------------------------------------------------------------
// Every list is handed out whole and in order.
// ---------------------------------------------------------------------------

/// The names that a class's entries give to the level called `name` (its
/// last entry for that level), or none.
pub open spec fn given_in(entries: Seq<(LevelId, Seq<String>)>, name: Seq<char>) -> Seq<String>
    decreases entries.len(),
{
    if entries.len() == 0 {
        Seq::empty()
    } else if entries.last().0@ == name {
        entries.last().1
    } else {
        given_in(entries.drop_last(), name)
    }
}

/// The names the first `n` classes receive from the level called `name`,
/// class after class.
pub open spec fn given_upto(rv: Seq<Seq<(LevelId, Seq<String>)>>, name: Seq<char>, n: int) -> Seq<String>
    decreases n,
{
    if n <= 0 {
        Seq::empty()
    } else {
        given_upto(rv, name, n - 1) + given_in(rv[n - 1], name)
    }
}

proof fn lemma_slot_of(levels: Seq<(LevelId, LevelData)>, s: int)
    requires
        level_names_distinct(levels),
        0 <= s < levels.len(),
    ensures
        level_slot(levels, levels[s].0@) == s,
{
    let p = level_slot(levels, levels[s].0@);
    assert(levels[s].0@ == levels[s].0@);
    if p != s {
        assert(levels[p].0@ != levels[s].0@);
    }
}

/// What class `c`'s first `j` entries give to level `s`.
proof fn lemma_given_in_class(
    classes: Seq<Vec<LevelId>>,
    a: Assignment,
    levels: Seq<(LevelId, LevelData)>,
    c: int,
    j: int,
    s: int,
)
    requires
        level_names_distinct(levels),
        0 <= c < classes.len(),
        class_names_distinct(classes[c]@),
        0 <= j <= classes[c]@.len(),
        0 <= s < levels.len(),
        levels[s].1.students@.len() > 0,
    ensures
        given_in(roster_entries(classes, a, levels, c, j), levels[s].0@) == if in_group(
            classes[c]@.take(j),
            levels[s].0@,
        ) && amount_in(a, c, levels[s].0@) > 0 {
            levels[s].1.students@.subrange(
                placed_before(classes, a, levels[s].0@, c),
                placed_before(classes, a, levels[s].0@, c) + amount_in(a, c, levels[s].0@),
            )
        } else {
            Seq::empty()
        },
    decreases j,
{
    let ns = levels[s].0@;
    lemma_slot_of(levels, s);
    if j == 0 {
        assert(classes[c]@.take(0) =~= Seq::<LevelId>::empty());
    } else {
        lemma_given_in_class(classes, a, levels, c, j - 1, s);
        let name = classes[c]@[j - 1];
        assert(classes[c]@.take(j) =~= classes[c]@.take(j - 1).push(name));
        let r0 = roster_entries(classes, a, levels, c, j - 1);
        let n = amount_in(a, c, name@);
        let sl = level_slot(levels, name@);
        let from = placed_before(classes, a, name@, c);
        if n > 0 && sl >= 0 && levels[sl].1.students@.len() > 0 {
            let e = (name, levels[sl].1.students@.subrange(from, from + n));
            assert(roster_entries(classes, a, levels, c, j) == r0.push(e));
            assert(r0.push(e).drop_last() =~= r0);
            assert(r0.push(e).last() == e);
        } else {
            assert(roster_entries(classes, a, levels, c, j) == r0);
        }
        if name@ == ns {
            assert(level_slot(levels, name@) == s);
            assert(in_group(classes[c]@.take(j), ns)) by {
                assert(classes[c]@.take(j)[j - 1]@ == ns);
            }
            assert(!in_group(classes[c]@.take(j - 1), ns)) by {
                if in_group(classes[c]@.take(j - 1), ns) {
                    let x = choose|x: int| 0 <= x < classes[c]@.take(j - 1).len() && #[trigger] classes[c]@.take(j - 1)[x]@ == ns;
                    assert(classes[c]@[x]@ == classes[c]@[j - 1]@);
                }
            }
        } else {
            assert(in_group(classes[c]@.take(j), ns) == in_group(classes[c]@.take(j - 1), ns)) by {
                if in_group(classes[c]@.take(j), ns) {
                    let x = choose|x: int| 0 <= x < classes[c]@.take(j).len() && #[trigger] classes[c]@.take(j)[x]@ == ns;
                    assert(x != j - 1);
                    assert(classes[c]@.take(j - 1)[x]@ == ns);
                }
            }
        }
    }
}

/// What the first `n` classes give to level `s`: the start of its list.
proof fn lemma_given_upto(
    classes: Seq<Vec<LevelId>>,
    a: Assignment,
    levels: Seq<(LevelId, LevelData)>,
    rv: Seq<Seq<(LevelId, Seq<String>)>>,
    s: int,
    n: int,
)
    requires
        level_names_distinct(levels),
        forall|c: int| 0 <= c < classes.len() ==> class_names_distinct(#[trigger] classes[c]@),
        rv == Seq::new(classes.len(), |c: int| roster_entries(classes, a, levels, c, classes[c]@.len() as int)),
        0 <= s < levels.len(),
        levels[s].1.students@.len() > 0,
        placed_before(classes, a, levels[s].0@, classes.len() as int) == levels[s].1.students@.len(),
        0 <= n <= classes.len(),
    ensures
        given_upto(rv, levels[s].0@, n) == levels[s].1.students@.subrange(0, placed_before(classes, a, levels[s].0@, n)),
    decreases n,
{
    let ns = levels[s].0@;
    let st = levels[s].1.students@;
    if n == 0 {
        assert(st.subrange(0, 0) =~= Seq::<String>::empty());
    } else {
        lemma_given_upto(classes, a, levels, rv, s, n - 1);
        let c = n - 1;
        lemma_given_in_class(classes, a, levels, c, classes[c]@.len() as int, s);
        assert(classes[c]@.take(classes[c]@.len() as int) =~= classes[c]@);
        lemma_placed_mono(classes, a, ns, n, classes.len() as int);
        lemma_placed_mono(classes, a, ns, n - 1, n);
        if 0 <= c < a.per_class@.len() {
            lemma_entry_amount_nonneg(a.per_class@[c]@, ns);
        }
        lemma_placed_mono(classes, a, ns, 0, c);
        let p0 = placed_before(classes, a, ns, c);
        let p1 = placed_before(classes, a, ns, n);
        if in_group(classes[c]@, ns) && amount_in(a, c, ns) > 0 {
            assert(st.subrange(0, p0) + st.subrange(p0, p1) =~= st.subrange(0, p1));
        } else {
            assert(given_in(rv[c], ns) =~= Seq::<String>::empty());
            assert(st.subrange(0, p0) + Seq::<String>::empty() =~= st.subrange(0, p1));
        }
    }
}

/// Each level with names gets its whole list handed out, in its given
/// order: the names the classes receive from it, read class after class,
/// are its list.
pub proof fn lemma_roster_partition(
    classes: Seq<Vec<LevelId>>,
    a: Assignment,
    levels: Seq<(LevelId, LevelData)>,
    r: Vec<ClassRoster>,
    s: int,
)
    requires
        level_names_distinct(levels),
        forall|c: int| 0 <= c < classes.len() ==> class_names_distinct(#[trigger] classes[c]@),
        roster_outcome(classes, a, levels, Some(r)),
        0 <= s < levels.len(),
        levels[s].1.students@.len() > 0,
    ensures
        given_upto(roster_view(r@), levels[s].0@, classes.len() as int) == levels[s].1.students@,
{
    let rv = roster_view(r@);
    assert(rv == Seq::new(classes.len(), |c: int| roster_entries(classes, a, levels, c, classes[c]@.len() as int)));
    assert(names_exhausted(classes, a, levels));
    lemma_given_upto(classes, a, levels, rv, s, classes.len() as int);
    assert(levels[s].1.students@.subrange(0, levels[s].1.students@.len() as int) =~= levels[s].1.students@);
}

} // verus!
