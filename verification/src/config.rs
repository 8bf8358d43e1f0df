//! The school's configuration: levels with their pupils, the parameters of
//! the plans, and the checks they must pass.

use vstd::prelude::*;
use crate::strings::{sort_names, names_sorted};
use crate::roster::level_names_distinct;

verus! {

/// Name of a level (`CP`, `CE1`, ...).
pub type LevelId = String;

/// Pupils of a level: their number and, optionally, their names.
#[derive(Debug, Clone)]
pub struct LevelData {
    pub count: u32,
    /// Empty when the level is given by its count only.
    pub students: Vec<String>,
}

/// A level as the configuration file gives it: a bare count, or a count
/// and/or the list of its pupils' names.
#[derive(Debug, Clone)]
pub enum LevelInput {
    Count(u32),
    Detailed { count: Option<u32>, students: Vec<String> },
}

/// Parameters of the plans to build.
#[derive(Debug, Clone)]
pub struct PlanConfig {
    /// Number of classes (teachers).
    pub num_classes: usize,
    /// Hard upper bound on the size of a class.
    pub max_students_per_class: u32,
    /// Lower bound on the size of a class holding pupils (0: none).
    pub min_students_per_class: u32,
    /// Pupils of each level that a two-level class must at least hold.
    pub min_students_per_level_in_dual_class: u32,
    /// Number of plans wanted.
    pub num_plans: usize,
    /// Node budget of the depth-first enumeration.
    pub dfs_node_budget: usize,
    /// Number of random compositions tried after the enumeration.
    pub random_trials: usize,
    /// Order of the levels (adjacent levels are consecutive).
    pub level_order: Vec<LevelId>,
    /// Pairs of levels that may not share a class.
    pub forbidden_pairs: Vec<(LevelId, LevelId)>,
    /// Groups of levels of the same cycle.
    pub same_cycle_groups: Vec<Vec<LevelId>>,
}

/// A configuration as read, before its levels are checked.
#[derive(Debug, Clone)]
pub struct RawConfig {
    pub plan: PlanConfig,
    pub levels: Vec<(LevelId, LevelInput)>,
}

/// A checked configuration.
#[derive(Debug, Clone)]
pub struct AppConfig {
    pub plan: PlanConfig,
    pub levels: Vec<(LevelId, LevelData)>,
}

/// Why a configuration is rejected.
#[derive(Debug, Clone, PartialEq, Eq)]
pub enum ConfigError {
    NoClasses,
    NoLevels,
    LevelNotInOrder(LevelId),
    /// Two levels have the same name.
    DuplicateLevel(LevelId),
    OverCapacity { total: u64, num_classes: usize, max_students_per_class: u32 },
    DualMinimumZero,
    DualMinimumTooLarge { min_per_level: u32, max_students_per_class: u32 },
    BlankStudentName(LevelId),
    DuplicateStudent(String),
    CountMismatch { level: LevelId, count: u32, listed: u32 },
    MissingCount(LevelId),
}

/// Default largest class size.
pub fn default_max_class() -> (r: u32)
    ensures
        r == 25,
{
    25
}

/// Default minimum of pupils per level in a two-level class.
pub fn default_min_per_level_dual() -> (r: u32)
    ensures
        r == 2,
{
    2
}

/// Default number of plans to produce.
pub fn default_num_plans() -> (r: usize)
    ensures
        r == 8,
{
    8
}

/// Default node budget of the depth-first search.
pub fn default_dfs_budget() -> (r: usize)
    ensures
        r == 250_000,
{
    250_000
}

/// Default number of random compositions tried.
pub fn default_random_trials() -> (r: usize)
    ensures
        r == 30_000,
{
    30_000
}

/// The characters with Unicode's `White_Space` property, those that
/// `str::trim` removes.
pub open spec fn is_white_space(c: char) -> bool {
    let u = c as u32;
    ||| 0x9 <= u <= 0xD
    ||| u == 0x20
    ||| u == 0x85
    ||| u == 0xA0
    ||| u == 0x1680
    ||| 0x2000 <= u <= 0x200A
    ||| u == 0x2028
    ||| u == 0x2029
    ||| u == 0x202F
    ||| u == 0x205F
    ||| u == 0x3000
}

/// A name made of whitespace only (the empty name among them).
pub open spec fn blank(s: Seq<char>) -> bool {
    forall|i: int| 0 <= i < s.len() ==> is_white_space(#[trigger] s[i])
}

/// Whether `c` is Unicode whitespace (`is_white_space`).
fn white_char(c: char) -> (b: bool)
    ensures
        b == is_white_space(c),
{
    let u = c as u32;
    (0x9 <= u && u <= 0xD) || u == 0x20 || u == 0x85 || u == 0xA0 || u == 0x1680 || (0x2000 <= u && u <= 0x200A)
        || u == 0x2028 || u == 0x2029 || u == 0x202F || u == 0x205F || u == 0x3000
}

/// The name is empty once trimmed: every character is whitespace.
fn is_blank(s: &String) -> (b: bool)
    ensures
        b == blank(s@),
{
    broadcast use vstd::string::axiom_spec_iter;
    broadcast use vstd::string::next_postcondition;

    let mut it = s.as_str().chars();
    let ghost mut k: int = 0;
    loop
        invariant
            0 <= k <= s@.len(),
            vstd::std_specs::iter::IteratorSpec::remaining(&it) == s@.skip(k),
            forall|i: int| 0 <= i < k ==> is_white_space(#[trigger] s@[i]),
        decreases s@.len() - k,
    {
        match it.next() {
            None => {
                proof {
                    assert(s@.skip(k).len() == 0);
                }
                return true;
            },
            Some(c) => {
                proof {
                    assert(s@.skip(k)[0] == s@[k]);
                }
                if !white_char(c) {
                    return false;
                }
                proof {
                    assert(s@.skip(k).drop_first() =~= s@.skip(k + 1));
                    k = k + 1;
                }
            },
        }
    }
}

// ---------------------------------------------------------------------------
// One level of the file.
// ---------------------------------------------------------------------------

/// A level as the checks see it: its name, its count and its pupils' names.
pub open spec fn level_view(name: LevelId, d: LevelData) -> (LevelId, u32, Seq<String>) {
    (name, d.count, d.students@)
}

/// The levels of a configuration as the checks see them.
pub open spec fn levels_view(levels: Seq<(LevelId, LevelData)>) -> Seq<(LevelId, u32, Seq<String>)> {
    Seq::new(levels.len(), |i: int| level_view(levels[i].0, levels[i].1))
}

/// Why a level of the file cannot be read, if it cannot.
pub open spec fn level_error(level_name: LevelId, input: LevelInput) -> Option<ConfigError> {
    match input {
        LevelInput::Count(_) => None,
        LevelInput::Detailed { count, students } => if students@.len() > 0 {
            let n = students@.len() as u32;
            if count is Some && count->0 != n {
                Some(ConfigError::CountMismatch { level: level_name, count: count->0, listed: n })
            } else {
                None
            }
        } else if count is None {
            Some(ConfigError::MissingCount(level_name))
        } else {
            None
        },
    }
}

/// What a level of the file becomes when it can be read.
pub open spec fn input_view(level_name: LevelId, input: LevelInput) -> (LevelId, u32, Seq<String>) {
    match input {
        LevelInput::Count(n) => (level_name, n, Seq::empty()),
        LevelInput::Detailed { count, students } => if students@.len() > 0 {
            (level_name, students@.len() as u32, students@)
        } else {
            (level_name, count->0, Seq::empty())
        },
    }
}

/// A level that gives both a count and a non-empty list of names is read
/// exactly when the count is the number of names listed; otherwise the
/// error names the level, the count and the number listed.
pub proof fn lemma_count_must_match(level_name: LevelId, c: u32, students: Vec<String>)
    requires
        0 < students@.len() <= u32::MAX,
    ensures
        (level_error(level_name, LevelInput::Detailed { count: Some(c), students }) is None) <==> c == students@.len(),
        c != students@.len() ==> level_error(level_name, LevelInput::Detailed { count: Some(c), students }) == Some(
            ConfigError::CountMismatch { level: level_name, count: c, listed: students@.len() as u32 },
        ),
{
}

/// One level of the file: a count alone, a list of names (the count is its
/// length and must match a count given beside it), or a count alone in the
/// detailed form.
pub fn level_input_to_data(level_name: &LevelId, input: LevelInput) -> (r: Result<LevelData, ConfigError>)
    ensures
        level_error(*level_name, input) matches Some(e) ==> r == Err::<LevelData, ConfigError>(e),
        level_error(*level_name, input) is None ==> (r matches Ok(d) && level_view(*level_name, d)
            == input_view(*level_name, input)),
        (match input {
            LevelInput::Detailed { count: Some(c), students } => 0 < students@.len() <= u32::MAX ==> (r is Ok <==> c
                == students@.len()),
            _ => true,
        }),
{
    let ghost inp = input;
    proof {
        match inp {
            LevelInput::Detailed { count: Some(c), students } => {
                if 0 < students@.len() <= u32::MAX {
                    lemma_count_must_match(*level_name, c, students);
                }
            },
            _ => {},
        }
    }
    match input {
        LevelInput::Count(n) => Ok(LevelData { count: n, students: Vec::new() }),
        LevelInput::Detailed { count, students } => {
            if students.len() > 0 {
                let n = students.len() as u32;
                if let Some(c) = count {
                    if c != n {
                        return Err(ConfigError::CountMismatch { level: level_name.clone(), count: c, listed: n });
                    }
                }
                Ok(LevelData { count: n, students })
            } else {
                match count {
                    None => Err(ConfigError::MissingCount(level_name.clone())),
                    Some(c) => Ok(LevelData { count: c, students: Vec::new() }),
                }
            }
        },
    }
}

// ---------------------------------------------------------------------------
// The checks of a configuration.
// ---------------------------------------------------------------------------

/// The names of the levels.
pub open spec fn view_names(lv: Seq<(LevelId, u32, Seq<String>)>) -> Seq<String> {
    Seq::new(lv.len(), |i: int| lv[i].0)
}

/// `name` occurs in `order`.
pub open spec fn in_order(order: Seq<LevelId>, name: Seq<char>) -> bool {
    exists|i: int| 0 <= i < order.len() && #[trigger] order[i]@ == name
}

/// Index of the first level missing from `order`, or -1.
pub open spec fn first_unlisted(lv: Seq<(LevelId, u32, Seq<String>)>, order: Seq<LevelId>) -> int
    decreases lv.len(),
{
    if lv.len() == 0 {
        -1
    } else {
        let p = first_unlisted(lv.drop_last(), order);
        if p >= 0 {
            p
        } else if !in_order(order, lv.last().0@) {
            lv.len() - 1
        } else {
            -1
        }
    }
}

/// Total number of pupils.
pub open spec fn total_count(lv: Seq<(LevelId, u32, Seq<String>)>) -> int
    decreases lv.len(),
{
    if lv.len() == 0 {
        0
    } else {
        total_count(lv.drop_last()) + lv.last().1
    }
}

/// The names of a level's pupils, each with the level's name.
pub open spec fn tagged(name: LevelId, students: Seq<String>) -> Seq<(LevelId, String)> {
    Seq::new(students.len(), |j: int| (name, students[j]))
}

/// All pupils' names with their levels, level after level.
pub open spec fn flat_students(lv: Seq<(LevelId, u32, Seq<String>)>) -> Seq<(LevelId, String)>
    decreases lv.len(),
{
    if lv.len() == 0 {
        Seq::empty()
    } else {
        flat_students(lv.drop_last()) + tagged(lv.last().0, lv.last().2)
    }
}

/// First problem among the pupils' names from position `p` on: a blank name,
/// or a name already seen.
pub open spec fn student_problem(flat: Seq<(LevelId, String)>, p: int) -> Option<ConfigError>
    decreases flat.len() - p,
{
    if p < 0 || p >= flat.len() {
        None
    } else if blank(flat[p].1@) {
        Some(ConfigError::BlankStudentName(flat[p].0))
    } else if exists|q: int| 0 <= q < p && #[trigger] flat[q].1@ == flat[p].1@ {
        Some(ConfigError::DuplicateStudent(flat[p].1))
    } else {
        student_problem(flat, p + 1)
    }
}

/// The level order the checks use: the one given, or the names of the
/// levels when none is given.
pub open spec fn order_used(plan: PlanConfig, lv: Seq<(LevelId, u32, Seq<String>)>) -> Seq<LevelId> {
    if plan.level_order@.len() == 0 {
        view_names(lv)
    } else {
        plan.level_order@
    }
}

/// Some level before `j` has the name of level `j`.
pub open spec fn repeated_at(lv: Seq<(LevelId, u32, Seq<String>)>, j: int) -> bool {
    exists|i: int| 0 <= i < j && #[trigger] lv[i].0@ == lv[j].0@
}

/// Index of the first of the levels `0..n` whose name an earlier level has,
/// or -1.
pub open spec fn first_repeated(lv: Seq<(LevelId, u32, Seq<String>)>, n: int) -> int
    decreases n,
{
    if n <= 0 {
        -1
    } else {
        let r = first_repeated(lv, n - 1);
        if r >= 0 {
            r
        } else if repeated_at(lv, n - 1) {
            n - 1
        } else {
            -1
        }
    }
}

proof fn lemma_first_repeated_none(lv: Seq<(LevelId, u32, Seq<String>)>, n: int)
    requires
        first_repeated(lv, n) == -1,
        n <= lv.len(),
    ensures
        forall|i: int, j: int| 0 <= i < j < n ==> #[trigger] lv[i].0@ != #[trigger] lv[j].0@,
    decreases n,
{
    if n > 0 {
        lemma_first_repeated_none(lv, n - 1);
        assert forall|i: int, j: int| 0 <= i < j < n implies #[trigger] lv[i].0@ != #[trigger] lv[j].0@ by {
            if j == n - 1 && lv[i].0@ == lv[j].0@ {
                assert(repeated_at(lv, n - 1));
            }
        }
    }
}

/// What checking a configuration answers.
pub open spec fn normalize_outcome(plan: PlanConfig, lv: Seq<(LevelId, u32, Seq<String>)>) -> Result<(), ConfigError> {
    let mdl = plan.min_students_per_level_in_dual_class;
    let order = order_used(plan, lv);
    if plan.num_classes == 0 {
        Err(ConfigError::NoClasses)
    } else if lv.len() == 0 {
        Err(ConfigError::NoLevels)
    } else if first_repeated(lv, lv.len() as int) >= 0 {
        Err(ConfigError::DuplicateLevel(lv[first_repeated(lv, lv.len() as int)].0))
    } else if first_unlisted(lv, order) >= 0 {
        Err(ConfigError::LevelNotInOrder(lv[first_unlisted(lv, order)].0))
    } else if total_count(lv) > plan.num_classes * plan.max_students_per_class {
        Err(
            ConfigError::OverCapacity {
                total: total_count(lv) as u64,
                num_classes: plan.num_classes,
                max_students_per_class: plan.max_students_per_class,
            },
        )
    } else if mdl < 1 {
        Err(ConfigError::DualMinimumZero)
    } else if mdl * 2 > plan.max_students_per_class {
        Err(ConfigError::DualMinimumTooLarge { min_per_level: mdl, max_students_per_class: plan.max_students_per_class })
    } else {
        match student_problem(flat_students(lv), 0) {
            Some(e) => Err(e),
            None => Ok(()),
        }
    }
}

/// The level order is filled in from the levels' names.
pub open spec fn takes_default_order(plan: PlanConfig, lv: Seq<(LevelId, u32, Seq<String>)>) -> bool {
    plan.num_classes > 0 && lv.len() > 0 && plan.level_order@.len() == 0
}

/// The level order after the checks: the names of the levels sorted when it
/// was filled in, the same order otherwise.
pub open spec fn order_settled(plan: PlanConfig, lv: Seq<(LevelId, u32, Seq<String>)>, order: Seq<LevelId>) -> bool {
    if takes_default_order(plan, lv) {
        names_sorted(order) && order.to_multiset() == view_names(lv).to_multiset()
    } else {
        order == plan.level_order@
    }
}

/// The plan parameters other than the level order are the same.
pub open spec fn same_plan_but_order(a: PlanConfig, b: PlanConfig) -> bool {
    &&& a.num_classes == b.num_classes
    &&& a.max_students_per_class == b.max_students_per_class
    &&& a.min_students_per_class == b.min_students_per_class
    &&& a.min_students_per_level_in_dual_class == b.min_students_per_level_in_dual_class
    &&& a.num_plans == b.num_plans
    &&& a.dfs_node_budget == b.dfs_node_budget
    &&& a.random_trials == b.random_trials
    &&& a.forbidden_pairs@ == b.forbidden_pairs@
    &&& a.same_cycle_groups@ == b.same_cycle_groups@
}


/// Nothing is wrong with the first `p` pupils' names.
pub open spec fn clean_upto(flat: Seq<(LevelId, String)>, p: int) -> bool {
    forall|q: int|
        0 <= q < p ==> !blank(#[trigger] flat[q].1@) && forall|x: int| 0 <= x < q ==> flat[x].1@ != flat[q].1@
}

/// The first problem among the levels of the file, if any.
pub open spec fn input_failure(raw: Seq<(LevelId, LevelInput)>) -> Option<ConfigError>
    decreases raw.len(),
{
    if raw.len() == 0 {
        None
    } else {
        match input_failure(raw.drop_last()) {
            Some(e) => Some(e),
            None => level_error(raw.last().0, raw.last().1),
        }
    }
}

/// The levels of the file as the checks see them, once read.
pub open spec fn raw_levels_view(raw: Seq<(LevelId, LevelInput)>) -> Seq<(LevelId, u32, Seq<String>)> {
    Seq::new(raw.len(), |i: int| input_view(raw[i].0, raw[i].1))
}

// ---------------------------------------------------------------------------
// Lemmas.
// ---------------------------------------------------------------------------

proof fn lemma_take_last<A>(s: Seq<A>, i: int)
    requires
        0 <= i < s.len(),
    ensures
        s.take(i + 1).drop_last() == s.take(i),
        s.take(i + 1).last() == s[i],
{
    assert(s.take(i + 1).drop_last() =~= s.take(i));
}

proof fn lemma_first_unlisted_prefix(lv: Seq<(LevelId, u32, Seq<String>)>, order: Seq<LevelId>, j: int)
    requires
        0 <= j <= lv.len(),
        first_unlisted(lv.take(j), order) >= 0,
    ensures
        first_unlisted(lv, order) == first_unlisted(lv.take(j), order),
    decreases lv.len(),
{
    if j == lv.len() {
        assert(lv.take(j) =~= lv);
    } else {
        assert(lv.drop_last().take(j) =~= lv.take(j));
        lemma_first_unlisted_prefix(lv.drop_last(), order, j);
    }
}

proof fn lemma_all_listed(lv: Seq<(LevelId, u32, Seq<String>)>, order: Seq<LevelId>)
    requires
        forall|i: int| 0 <= i < lv.len() ==> in_order(order, #[trigger] lv[i].0@),
    ensures
        first_unlisted(lv, order) == -1,
    decreases lv.len(),
{
    if lv.len() > 0 {
        assert forall|i: int| 0 <= i < lv.drop_last().len() implies in_order(order, #[trigger] lv.drop_last()[i].0@) by {
            assert(lv.drop_last()[i] == lv[i]);
        }
        lemma_all_listed(lv.drop_last(), order);
        assert(in_order(order, lv[lv.len() - 1].0@));
    }
}

proof fn lemma_total_prefix(lv: Seq<(LevelId, u32, Seq<String>)>, j: int)
    requires
        0 <= j <= lv.len(),
    ensures
        total_count(lv.take(j)) <= total_count(lv),
    decreases lv.len(),
{
    if j == lv.len() {
        assert(lv.take(j) =~= lv);
    } else {
        assert(lv.drop_last().take(j) =~= lv.take(j));
        lemma_total_prefix(lv.drop_last(), j);
    }
}

proof fn lemma_total_bound(lv: Seq<(LevelId, u32, Seq<String>)>)
    ensures
        0 <= total_count(lv) <= lv.len() * 0xFFFF_FFFF,
    decreases lv.len(),
{
    if lv.len() > 0 {
        lemma_total_bound(lv.drop_last());
    }
}

proof fn lemma_flat_prefix(lv: Seq<(LevelId, u32, Seq<String>)>, j: int)
    requires
        0 <= j <= lv.len(),
    ensures
        flat_students(lv.take(j)).len() <= flat_students(lv).len(),
        forall|q: int|
            0 <= q < flat_students(lv.take(j)).len() ==> #[trigger] flat_students(lv)[q] == flat_students(
                lv.take(j),
            )[q],
    decreases lv.len(),
{
    if j == lv.len() {
        assert(lv.take(j) =~= lv);
    } else {
        assert(lv.drop_last().take(j) =~= lv.take(j));
        lemma_flat_prefix(lv.drop_last(), j);
    }
}

proof fn lemma_problem_from(flat: Seq<(LevelId, String)>, p: int)
    requires
        0 <= p <= flat.len(),
        clean_upto(flat, p),
    ensures
        student_problem(flat, 0) == student_problem(flat, p),
    decreases p,
{
    if p > 0 {
        lemma_problem_from(flat, p - 1);
        let q = p - 1;
        assert(!blank(flat[q].1@));
        assert(!exists|x: int| 0 <= x < q && #[trigger] flat[x].1@ == flat[q].1@);
    }
}

proof fn lemma_input_failure_prefix(raw: Seq<(LevelId, LevelInput)>, j: int)
    requires
        0 <= j <= raw.len(),
        input_failure(raw.take(j)) is Some,
    ensures
        input_failure(raw) == input_failure(raw.take(j)),
    decreases raw.len(),
{
    if j == raw.len() {
        assert(raw.take(j) =~= raw);
    } else {
        assert(raw.drop_last().take(j) =~= raw.take(j));
        lemma_input_failure_prefix(raw.drop_last(), j);
    }
}

// ---------------------------------------------------------------------------
// The checks, executed.
// ---------------------------------------------------------------------------

/// `name` occurs in `order`.
fn order_contains(order: &Vec<LevelId>, name: &LevelId) -> (b: bool)
    ensures
        b == in_order(order@, name@),
{
    let mut i: usize = 0;
    while i < order.len()
        invariant
            i <= order@.len(),
            forall|x: int| 0 <= x < i ==> #[trigger] order@[x]@ != name@,
        decreases order@.len() - i,
    {
        if order[i] == *name {
            return true;
        }
        i = i + 1;
    }
    false
}

/// Index of the first level whose name an earlier level has.
fn first_repeated_level(levels: &Vec<(LevelId, LevelData)>) -> (r: Option<usize>)
    ensures
        r matches Some(j) ==> j < levels@.len() && j as int == first_repeated(
            levels_view(levels@),
            levels@.len() as int,
        ),
        r is None ==> first_repeated(levels_view(levels@), levels@.len() as int) == -1,
{
    let ghost lv = levels_view(levels@);
    let mut j: usize = 0;
    while j < levels.len()
        invariant
            j <= levels@.len(),
            lv == levels_view(levels@),
            first_repeated(lv, j as int) == -1,
        decreases levels@.len() - j,
    {
        let mut i: usize = 0;
        while i < j
            invariant
                i <= j,
                j < levels@.len(),
                lv == levels_view(levels@),
                forall|x: int| 0 <= x < i ==> #[trigger] lv[x].0@ != lv[j as int].0@,
                first_repeated(lv, j as int) == -1,
            decreases j - i,
        {
            if levels[i].0 == levels[j].0 {
                proof {
                    assert(lv[i as int].0@ == lv[j as int].0@);
                    assert(repeated_at(lv, j as int));
                    assert(first_repeated(lv, j + 1) == j);
                    lemma_first_repeated_stays(lv, j as int + 1, levels@.len() as int);
                }
                return Some(j);
            }
            i = i + 1;
        }
        proof {
            assert(!repeated_at(lv, j as int));
        }
        j = j + 1;
    }
    None
}

proof fn lemma_first_repeated_stays(lv: Seq<(LevelId, u32, Seq<String>)>, a: int, b: int)
    requires
        0 < a <= b,
        first_repeated(lv, a) >= 0,
    ensures
        first_repeated(lv, b) == first_repeated(lv, a),
    decreases b - a,
{
    if b > a {
        lemma_first_repeated_stays(lv, a, b - 1);
    }
}

/// Index of the first level missing from `order`.
fn first_unlisted_level(levels: &Vec<(LevelId, LevelData)>, order: &Vec<LevelId>) -> (r: Option<usize>)
    ensures
        r matches Some(i) ==> i < levels@.len() && i as int == first_unlisted(levels_view(levels@), order@),
        r is None ==> first_unlisted(levels_view(levels@), order@) == -1,
{
    let ghost lv = levels_view(levels@);
    let mut i: usize = 0;
    while i < levels.len()
        invariant
            i <= levels@.len(),
            lv == levels_view(levels@),
            first_unlisted(lv.take(i as int), order@) == -1,
        decreases levels@.len() - i,
    {
        proof {
            lemma_take_last(lv, i as int);
        }
        if !order_contains(order, &levels[i].0) {
            proof {
                lemma_first_unlisted_prefix(lv, order@, i + 1);
            }
            return Some(i);
        }
        i = i + 1;
    }
    proof {
        assert(lv.take(i as int) =~= lv);
    }
    None
}

/// Total number of pupils.
fn total_pupils(levels: &Vec<(LevelId, LevelData)>) -> (t: u64)
    requires
        total_count(levels_view(levels@)) <= u64::MAX,
    ensures
        t == total_count(levels_view(levels@)),
{
    let ghost lv = levels_view(levels@);
    let mut t: u64 = 0;
    let mut i: usize = 0;
    while i < levels.len()
        invariant
            i <= levels@.len(),
            lv == levels_view(levels@),
            total_count(lv) <= u64::MAX,
            t == total_count(lv.take(i as int)),
        decreases levels@.len() - i,
    {
        proof {
            lemma_take_last(lv, i as int);
            lemma_total_prefix(lv, i + 1);
        }
        t = t + levels[i].1.count as u64;
        i = i + 1;
    }
    proof {
        assert(lv.take(i as int) =~= lv);
    }
    t
}

/// The first blank or repeated name among the pupils, level after level.
fn first_student_problem(levels: &Vec<(LevelId, LevelData)>) -> (r: Option<ConfigError>)
    ensures
        r == student_problem(flat_students(levels_view(levels@)), 0),
{
    let ghost lv = levels_view(levels@);
    let ghost flat = flat_students(lv);
    let mut seen: Vec<String> = Vec::new();
    let mut i: usize = 0;
    while i < levels.len()
        invariant
            i <= levels@.len(),
            lv == levels_view(levels@),
            flat == flat_students(lv),
            seen@.len() == flat_students(lv.take(i as int)).len(),
            seen@.len() <= flat.len(),
            forall|q: int| 0 <= q < seen@.len() ==> seen@[q] == #[trigger] flat[q].1,
            clean_upto(flat, seen@.len() as int),
        decreases levels@.len() - i,
    {
        let students = &levels[i].1.students;
        let ghost base = seen@.len() as int;
        proof {
            lemma_take_last(lv, i as int);
            lemma_flat_prefix(lv, i + 1);
            let pre = flat_students(lv.take(i + 1));
            assert(pre == flat_students(lv.take(i as int)) + tagged(lv[i as int].0, lv[i as int].2));
            assert forall|x: int| 0 <= x < students@.len() implies flat[base + x] == (
                levels@[i as int].0,
                students@[x],
            ) by {
                assert(pre[base + x] == flat[base + x]);
            }
        }
        let mut j: usize = 0;
        while j < students.len()
            invariant
                i < levels@.len(),
                lv == levels_view(levels@),
                flat == flat_students(lv),
                *students == levels@[i as int].1.students,
                j <= students@.len(),
                seen@.len() == base + j,
                base + students@.len() <= flat.len(),
                base + students@.len() == flat_students(lv.take(i + 1)).len(),
                forall|x: int| 0 <= x < students@.len() ==> flat[base + x] == (levels@[i as int].0, #[trigger] students@[x]),
                forall|q: int| 0 <= q < seen@.len() ==> seen@[q] == #[trigger] flat[q].1,
                clean_upto(flat, seen@.len() as int),
            decreases students@.len() - j,
        {
            let s = &students[j];
            let ghost p = seen@.len() as int;
            assert(flat[p] == (levels@[i as int].0, students@[j as int]));
            if is_blank(s) {
                proof {
                    lemma_problem_from(flat, p);
                }
                return Some(ConfigError::BlankStudentName(levels[i].0.clone()));
            }
            let mut q: usize = 0;
            while q < seen.len()
                invariant
                    q <= seen@.len(),
                    lv == levels_view(levels@),
                    flat == flat_students(lv),
                    p == seen@.len(),
                    p < flat.len(),
                    flat[p].1 == *s,
                    !blank(s@),
                    forall|x: int| 0 <= x < seen@.len() ==> seen@[x] == #[trigger] flat[x].1,
                    clean_upto(flat, p),
                    forall|x: int| 0 <= x < q ==> #[trigger] seen@[x]@ != s@,
                decreases seen@.len() - q,
            {
                if seen[q] == *s {
                    proof {
                        lemma_problem_from(flat, p);
                        assert(flat[q as int].1@ == flat[p].1@);
                    }
                    return Some(ConfigError::DuplicateStudent(s.clone()));
                }
                q = q + 1;
            }
            proof {
                assert forall|x: int| 0 <= x < p implies flat[x].1@ != flat[p].1@ by {
                    assert(seen@[x] == flat[x].1);
                }
            }
            seen.push(s.clone());
            j = j + 1;
        }
        i = i + 1;
    }
    proof {
        assert(lv.take(i as int) =~= lv);
        lemma_problem_from(flat, seen@.len() as int);
    }
    None
}

impl AppConfig {
    /// Checks the configuration, in this order: at least one class, at least
    /// one level, every level in the level order (which, when none is given,
    /// becomes the levels' names in increasing order), the pupils fit in the
    /// classes, the minimum per level of a two-level class is at least 1 and
    /// at most half a class, and the pupils' names are neither blank nor
    /// repeated.
    pub fn normalize(&mut self) -> (r: Result<(), ConfigError>)
        requires
            total_count(levels_view(old(self).levels@)) <= u64::MAX,
        ensures
            final(self).levels@ == old(self).levels@,
            same_plan_but_order(final(self).plan, old(self).plan),
            order_settled(old(self).plan, levels_view(old(self).levels@), final(self).plan.level_order@),
            r == normalize_outcome(old(self).plan, levels_view(old(self).levels@)),
            r is Ok ==> level_names_distinct(final(self).levels@),
    {
        let ghost lv = levels_view(self.levels@);
        if self.plan.num_classes == 0 {
            return Err(ConfigError::NoClasses);
        }
        if self.levels.len() == 0 {
            return Err(ConfigError::NoLevels);
        }
        if self.plan.level_order.len() == 0 {
            let mut names: Vec<String> = Vec::new();
            let mut i: usize = 0;
            while i < self.levels.len()
                invariant
                    i <= self.levels@.len(),
                    lv == levels_view(self.levels@),
                    names@ == view_names(lv).take(i as int),
                decreases self.levels@.len() - i,
            {
                names.push(self.levels[i].0.clone());
                proof {
                    assert(names@ =~= view_names(lv).take(i + 1));
                }
                i = i + 1;
            }
            proof {
                assert(names@ =~= view_names(lv));
            }
            let sorted = sort_names(&names);
            proof {
                broadcast use vstd::seq_lib::group_to_multiset_ensures;

                assert forall|x: int| 0 <= x < lv.len() implies in_order(sorted@, #[trigger] lv[x].0@) by {
                    assert(names@[x] == lv[x].0);
                    assert(names@.contains(lv[x].0));
                    assert(sorted@.to_multiset().count(lv[x].0) > 0);
                    assert(sorted@.contains(lv[x].0));
                    let y = choose|y: int| 0 <= y < sorted@.len() && sorted@[y] == lv[x].0;
                    assert(sorted@[y]@ == lv[x].0@);
                }
                lemma_all_listed(lv, sorted@);
                assert forall|x: int| 0 <= x < lv.len() implies in_order(view_names(lv), #[trigger] lv[x].0@) by {
                    assert(view_names(lv)[x]@ == lv[x].0@);
                }
                lemma_all_listed(lv, view_names(lv));
            }
            self.plan.level_order = sorted;
        }
        match first_repeated_level(&self.levels) {
            Some(j) => {
                return Err(ConfigError::DuplicateLevel(self.levels[j].0.clone()));
            },
            None => {},
        }
        proof {
            lemma_first_repeated_none(lv, lv.len() as int);
            assert forall|i: int, j: int|
                0 <= i < self.levels@.len() && 0 <= j < self.levels@.len() && i != j implies #[trigger] self.levels@[i].0@
                != #[trigger] self.levels@[j].0@ by {
                assert(lv[i].0 == self.levels@[i].0);
                assert(lv[j].0 == self.levels@[j].0);
                if i < j {
                    assert(lv[i].0@ != lv[j].0@);
                } else {
                    assert(lv[j].0@ != lv[i].0@);
                }
            }
            assert(level_names_distinct(self.levels@));
        }
        match first_unlisted_level(&self.levels, &self.plan.level_order) {
            Some(i) => {
                return Err(ConfigError::LevelNotInOrder(self.levels[i].0.clone()));
            },
            None => {},
        }
        let total = total_pupils(&self.levels);
        let nc = self.plan.num_classes as u128;
        let mx = self.plan.max_students_per_class as u128;
        assert(nc * mx <= 0xFFFF_FFFF_FFFF_FFFF * 0xFFFF_FFFF) by (nonlinear_arith)
            requires
                nc <= 0xFFFF_FFFF_FFFF_FFFF,
                mx <= 0xFFFF_FFFF,
        ;
        let cap = nc * mx;
        if total as u128 > cap {
            return Err(
                ConfigError::OverCapacity {
                    total,
                    num_classes: self.plan.num_classes,
                    max_students_per_class: self.plan.max_students_per_class,
                },
            );
        }
        let mdl = self.plan.min_students_per_level_in_dual_class;
        if mdl < 1 {
            return Err(ConfigError::DualMinimumZero);
        }
        if mdl as u64 * 2 > self.plan.max_students_per_class as u64 {
            return Err(
                ConfigError::DualMinimumTooLarge {
                    min_per_level: mdl,
                    max_students_per_class: self.plan.max_students_per_class,
                },
            );
        }
        match first_student_problem(&self.levels) {
            Some(e) => Err(e),
            None => Ok(()),
        }
    }

    /// Reads the levels of the file, then checks the configuration
    /// (`normalize`). The first level that cannot be read gives the error.
    pub fn from_raw(raw: RawConfig) -> (r: Result<AppConfig, ConfigError>)
        requires
            raw.levels@.len() <= 0xFFFF_FFFF,
        ensures
            input_failure(raw.levels@) matches Some(e) ==> r == Err::<AppConfig, ConfigError>(e),
            input_failure(raw.levels@) is None ==> match r {
                Ok(cfg) => {
                    &&& normalize_outcome(raw.plan, raw_levels_view(raw.levels@)) is Ok
                    &&& levels_view(cfg.levels@) == raw_levels_view(raw.levels@)
                    &&& same_plan_but_order(cfg.plan, raw.plan)
                    &&& order_settled(raw.plan, raw_levels_view(raw.levels@), cfg.plan.level_order@)
                    &&& level_names_distinct(cfg.levels@)
                },
                Err(e) => normalize_outcome(raw.plan, raw_levels_view(raw.levels@)) == Err::<(), ConfigError>(e),
            },
    {
        let ghost all = raw.levels@;
        let RawConfig { plan, levels } = raw;
        let mut rest = levels;
        let mut out: Vec<(LevelId, LevelData)> = Vec::new();
        while rest.len() > 0
            invariant
                all == raw.levels@,
                out@.len() + rest@.len() == all.len(),
                rest@ == all.skip(out@.len() as int),
                input_failure(all.take(out@.len() as int)) is None,
                forall|x: int|
                    0 <= x < out@.len() ==> level_view(#[trigger] out@[x].0, out@[x].1) == input_view(
                        all[x].0,
                        all[x].1,
                    ),
            decreases rest@.len(),
        {
            let ghost n = out@.len() as int;
            let (name, input) = rest.remove(0);
            proof {
                assert(all[n] == (name, input));
                lemma_take_last(all, n);
            }
            match level_input_to_data(&name, input) {
                Err(e) => {
                    proof {
                        assert(level_error(all[n].0, all[n].1) == Some(e));
                        assert(input_failure(all.take(n + 1)) == Some(e));
                        lemma_input_failure_prefix(all, n + 1);
                    }
                    return Err(e);
                },
                Ok(d) => {
                    out.push((name, d));
                    proof {
                        assert(rest@ =~= all.skip(out@.len() as int));
                    }
                },
            }
        }
        proof {
            assert(all.take(out@.len() as int) =~= all);
            assert(levels_view(out@) =~= raw_levels_view(all));
            lemma_total_bound(levels_view(out@));
            assert(levels_view(out@).len() * 0xFFFF_FFFF <= 0xFFFF_FFFF * 0xFFFF_FFFF) by (nonlinear_arith)
                requires
                    levels_view(out@).len() <= 0xFFFF_FFFF,
            ;
        }
        let mut cfg = AppConfig { plan, levels: out };
        match cfg.normalize() {
            Ok(()) => Ok(cfg),
            Err(e) => Err(e),
        }
    }

    /// At least one level lists its pupils' names.
    pub fn has_named_students(&self) -> (b: bool)
        ensures
            b == exists|i: int| 0 <= i < self.levels@.len() && #[trigger] self.levels@[i].1.students@.len() > 0,
    {
        let mut i: usize = 0;
        while i < self.levels.len()
            invariant
                i <= self.levels@.len(),
                forall|x: int| 0 <= x < i ==> #[trigger] self.levels@[x].1.students@.len() == 0,
            decreases self.levels@.len() - i,
        {
            if self.levels[i].1.students.len() > 0 {
                return true;
            }
            i = i + 1;
        }
        false
    }
}


/// `i` is the first position of `name` in `order`.
pub open spec fn is_first_index(order: Seq<LevelId>, name: Seq<char>, i: int) -> bool {
    &&& 0 <= i < order.len()
    &&& order[i]@ == name
    &&& forall|j: int| 0 <= j < i ==> #[trigger] order[j]@ != name
}

/// The pair `{a, b}` is listed, in either order, among the forbidden pairs.
pub open spec fn pair_listed(pairs: Seq<(LevelId, LevelId)>, a: Seq<char>, b: Seq<char>) -> bool {
    exists|i: int|
        0 <= i < pairs.len() && ((#[trigger] pairs[i].0@ == a && pairs[i].1@ == b) || (pairs[i].0@ == b
            && pairs[i].1@ == a))
}

/// `name` belongs to the group.
pub open spec fn in_group(group: Seq<LevelId>, name: Seq<char>) -> bool {
    exists|i: int| 0 <= i < group.len() && #[trigger] group[i]@ == name
}

/// Some group of the same cycle holds both levels.
pub open spec fn share_cycle(groups: Seq<Vec<LevelId>>, a: Seq<char>, b: Seq<char>) -> bool {
    exists|g: int| 0 <= g < groups.len() && in_group(#[trigger] groups[g]@, a) && in_group(groups[g]@, b)
}

/// `name` belongs to the group.
pub(crate) fn group_contains(group: &Vec<LevelId>, name: &LevelId) -> (b: bool)
    ensures
        b == in_group(group@, name@),
{
    let mut i: usize = 0;
    while i < group.len()
        invariant
            i <= group@.len(),
            forall|x: int| 0 <= x < i ==> #[trigger] group@[x]@ != name@,
        decreases group@.len() - i,
    {
        if group[i] == *name {
            return true;
        }
        i = i + 1;
    }
    false
}

impl AppConfig {
    /// Position of a level in the level order.
    pub fn level_index(&self, id: &LevelId) -> (r: Option<usize>)
        ensures
            r matches Some(i) ==> is_first_index(self.plan.level_order@, id@, i as int),
            r is None ==> !in_order(self.plan.level_order@, id@),
    {
        let order = &self.plan.level_order;
        let mut i: usize = 0;
        while i < order.len()
            invariant
                *order == self.plan.level_order,
                i <= order@.len(),
                forall|x: int| 0 <= x < i ==> #[trigger] order@[x]@ != id@,
            decreases order@.len() - i,
        {
            if order[i] == *id {
                return Some(i);
            }
            i = i + 1;
        }
        None
    }

    /// The two levels may not share a class.
    pub fn is_forbidden_pair(&self, a: &LevelId, b: &LevelId) -> (r: bool)
        ensures
            r == pair_listed(self.plan.forbidden_pairs@, a@, b@),
    {
        let pairs = &self.plan.forbidden_pairs;
        let mut i: usize = 0;
        while i < pairs.len()
            invariant
                *pairs == self.plan.forbidden_pairs,
                i <= pairs@.len(),
                forall|x: int|
                    0 <= x < i ==> !((#[trigger] pairs@[x].0@ == a@ && pairs@[x].1@ == b@) || (pairs@[x].0@
                        == b@ && pairs@[x].1@ == a@)),
            decreases pairs@.len() - i,
        {
            let (x, y) = &pairs[i];
            if (*x == *a && *y == *b) || (*x == *b && *y == *a) {
                return true;
            }
            i = i + 1;
        }
        false
    }

    /// How far apart two levels stand in the level order, when both are in it.
    pub fn level_gap(&self, a: &LevelId, b: &LevelId) -> (r: Option<usize>)
        ensures
            r matches Some(d) ==> exists|ia: int, ib: int|
                is_first_index(self.plan.level_order@, a@, ia) && is_first_index(self.plan.level_order@, b@, ib)
                    && d == (if ia >= ib { ia - ib } else { ib - ia }),
            r is None <==> !in_order(self.plan.level_order@, a@) || !in_order(self.plan.level_order@, b@),
    {
        match (self.level_index(a), self.level_index(b)) {
            (Some(ia), Some(ib)) => {
                proof {
                    assert(in_order(self.plan.level_order@, a@));
                    assert(in_order(self.plan.level_order@, b@));
                }
                if ia >= ib {
                    Some(ia - ib)
                } else {
                    Some(ib - ia)
                }
            },
            (ra, rb) => {
                proof {
                    if ra is Some {
                        assert(in_order(self.plan.level_order@, a@));
                    }
                    if rb is Some {
                        assert(in_order(self.plan.level_order@, b@));
                    }
                }
                None
            },
        }
    }

    /// Some group of the same cycle holds both levels.
    pub fn in_same_cycle(&self, a: &LevelId, b: &LevelId) -> (r: bool)
        ensures
            r == share_cycle(self.plan.same_cycle_groups@, a@, b@),
    {
        let groups = &self.plan.same_cycle_groups;
        let mut g: usize = 0;
        while g < groups.len()
            invariant
                *groups == self.plan.same_cycle_groups,
                g <= groups@.len(),
                forall|x: int| 0 <= x < g ==> !(in_group(#[trigger] groups@[x]@, a@) && in_group(groups@[x]@, b@)),
            decreases groups@.len() - g,
        {
            if group_contains(&groups[g], a) && group_contains(&groups[g], b) {
                return true;
            }
            g = g + 1;
        }
        false
    }
}

} // verus!
