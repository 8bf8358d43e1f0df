use repartition_classes::config::{AppConfig, LevelInput, PlanConfig, RawConfig};
use repartition_classes::flow::Assignment;
use repartition_classes::roster::build_named_roster;
use repartition_classes::search::{
    active_levels, all_mono_dual_compositions, appearances, dfs, double_level_pairs, enumerate_options,
    find_candidates, min_classes_for_level, offer_candidate, offer_pattern, pattern_key, plans_wanted, prune, random_search,
    search_candidates, select_diverse, try_add_candidate, uncovered_levels, Candidate,
};

fn s(x: &str) -> String {
    x.to_string()
}

fn names(v: &[&str]) -> Vec<String> {
    v.iter().map(|x| x.to_string()).collect()
}

fn rows(r: &[&[&str]]) -> Vec<Vec<String>> {
    r.iter().map(|c| names(c)).collect()
}

fn plan(num_classes: usize, max: u32) -> PlanConfig {
    PlanConfig {
        num_classes,
        max_students_per_class: max,
        min_students_per_class: 0,
        min_students_per_level_in_dual_class: 2,
        num_plans: 8,
        dfs_node_budget: 250_000,
        random_trials: 30_000,
        level_order: vec![],
        forbidden_pairs: vec![],
        same_cycle_groups: vec![],
    }
}

fn config(p: PlanConfig, levels: Vec<(&str, LevelInput)>) -> AppConfig {
    AppConfig::from_raw(RawConfig { plan: p, levels: levels.into_iter().map(|(n, i)| (s(n), i)).collect() })
        .unwrap()
}

/// The plans of the search, in the order of the candidates (the order of
/// the scores is the program's).
fn plans(cfg: &AppConfig) -> Vec<Candidate> {
    let (active, _) = active_levels(cfg);
    let opts = all_mono_dual_compositions(cfg, &active);
    let rank: Vec<usize> = (0..opts.len()).collect();
    let mut rng = rand::thread_rng();
    let cands = find_candidates(cfg, &rank, &mut rng);
    let keep = select_diverse(&cands, plans_wanted(cfg.plan.num_plans));
    keep.into_iter().map(|i| cands[i].clone()).collect()
}

fn fake(classes: Vec<Vec<String>>) -> Candidate {
    let k = classes.len();
    Candidate { classes, assignment: Assignment { per_class: vec![vec![]; k], class_totals: vec![1; k] } }
}

#[test]
fn single_class_single_level() {
    let cfg = config(plan(1, 30), vec![("CP", LevelInput::Count(24))]);
    let plans = plans(&cfg);
    assert_eq!(plans.len(), 1);
    assert_eq!(plans[0].classes[0], vec!["CP"]);
}

#[test]
fn one_teacher_two_levels_must_be_double_or_infeasible() {
    let cfg = config(plan(1, 40), vec![("CP", LevelInput::Count(20)), ("CE1", LevelInput::Count(18))]);
    let plans = plans(&cfg);
    assert_eq!(plans.len(), 1);
    assert_eq!(plans[0].classes[0].len(), 2);
}

#[test]
fn imbalanced_requires_split_across_classes() {
    let cfg = config(plan(2, 12), vec![("CP", LevelInput::Count(24))]);
    let plans = plans(&cfg);
    assert!(!plans.is_empty());
    let appearances = plans[0].classes.iter().filter(|c| c.contains(&"CP".to_string())).count();
    assert_eq!(appearances, 2);
}

#[test]
fn forbidden_pair_eliminates_dual() {
    let mut p = plan(2, 25);
    p.forbidden_pairs = vec![(s("CP"), s("CM2"))];
    p.level_order = names(&["CP", "CE1", "CE2", "CM1", "CM2"]);
    let cfg = config(p, vec![("CP", LevelInput::Count(10)), ("CM2", LevelInput::Count(10))]);
    let plans = plans(&cfg);
    for p in &plans {
        for c in &p.classes {
            if c.len() == 2 {
                let a = &c[0];
                let b = &c[1];
                assert!(!(a == "CP" && b == "CM2"));
                assert!(!(a == "CM2" && b == "CP"));
            }
        }
    }
}

#[test]
fn named_students_list_partitioned_by_class_order() {
    let mut p = plan(2, 10);
    p.num_plans = 3;
    p.dfs_node_budget = 50000;
    p.random_trials = 5000;
    p.level_order = names(&["CP", "CE1"]);
    let cfg = config(
        p,
        vec![
            ("CP", LevelInput::Detailed { count: None, students: names(&["Ana", "Bob", "Cid", "Dan", "Eva"]) }),
            ("CE1", LevelInput::Count(6)),
        ],
    );
    assert!(cfg.has_named_students());
    let plans = plans(&cfg);
    assert!(!plans.is_empty());
    for p in &plans {
        let roster = build_named_roster(&p.classes, &p.assignment, &cfg).expect("roster");
        let mut cp_all: Vec<String> = Vec::new();
        for entries in &roster {
            for (lvl, v) in entries {
                if lvl == "CP" {
                    cp_all.extend(v.clone());
                }
            }
        }
        assert_eq!(cp_all.len(), 5);
        assert_eq!(cp_all, vec!["Ana", "Bob", "Cid", "Dan", "Eva"]);
    }
}

#[test]
fn min_students_per_level_in_dual_config_excludes_all_plans_when_only_double_possible() {
    let mut p = plan(1, 40);
    p.min_students_per_level_in_dual_class = 3;
    p.level_order = names(&["CM1", "CM2"]);
    let cfg = config(p, vec![("CM1", LevelInput::Count(29)), ("CM2", LevelInput::Count(1))]);
    let plans = plans(&cfg);
    assert!(plans.is_empty());
}

#[test]
fn every_candidate_is_sound_and_distinct() {
    let mut p = plan(3, 25);
    p.level_order = names(&["CP", "CE1", "CE2"]);
    p.dfs_node_budget = 20_000;
    p.random_trials = 2_000;
    let cfg = config(
        p,
        vec![("CP", LevelInput::Count(20)), ("CE1", LevelInput::Count(18)), ("CE2", LevelInput::Count(22))],
    );
    let (active, _) = active_levels(&cfg);
    let opts = all_mono_dual_compositions(&cfg, &active);
    let rank: Vec<usize> = (0..opts.len()).rev().collect();
    let mut rng = rand::thread_rng();
    let cands = find_candidates(&cfg, &rank, &mut rng);
    assert!(!cands.is_empty());
    let mut keys: Vec<String> = Vec::new();
    for c in &cands {
        assert_eq!(c.classes.len(), 3);
        let total: u32 = c.assignment.class_totals.iter().sum();
        assert_eq!(total, 60);
        for &t in &c.assignment.class_totals {
            assert!(t > 0 && t <= 25);
        }
        for l in ["CP", "CE1", "CE2"] {
            assert!(c.classes.iter().any(|row| row.iter().any(|x| x == l)));
        }
        let k = pattern_key(&c.classes);
        assert!(!keys.contains(&k));
        keys.push(k);
    }
}

#[test]
fn pattern_key_joins_sorted_classes() {
    assert_eq!(pattern_key(&rows(&[&["CP"], &["CE1", "CP"]])), "CE1+CP|CP");
    assert_eq!(pattern_key(&rows(&[&["CP", "CE1"], &["CP"]])), "CE1+CP|CP");
    assert_eq!(pattern_key(&rows(&[])), "");
    assert_ne!(pattern_key(&rows(&[&["CP"], &["CE1"]])), pattern_key(&rows(&[&["CE1", "CP"]])));
}

#[test]
fn pattern_key_ignores_class_order() {
    let a = rows(&[&["CM1", "CM2"], &["CP"], &["CE1", "CE2"]]);
    let b = rows(&[&["CE2", "CE1"], &["CM2", "CM1"], &["CP"]]);
    assert_eq!(pattern_key(&a), pattern_key(&b));
}

#[test]
fn classes_needed_for_a_level() {
    assert_eq!(min_classes_for_level(0, 10), 0);
    assert_eq!(min_classes_for_level(24, 12), 2);
    assert_eq!(min_classes_for_level(25, 12), 3);
    assert_eq!(min_classes_for_level(5, 0), 5);
    assert_eq!(min_classes_for_level(1, 1), 1);
    assert_eq!(min_classes_for_level(u32::MAX, 1), u32::MAX as usize);
}

#[test]
fn appearances_count_rows_up_to_depth() {
    let p = rows(&[&["CP"], &["CE1", "CP"], &["CE1"]]);
    assert_eq!(appearances(&p, 0, &s("CP")), 1);
    assert_eq!(appearances(&p, 1, &s("CP")), 2);
    assert_eq!(appearances(&p, 10, &s("CP")), 2);
    assert_eq!(appearances(&p, 2, &s("CE1")), 2);
    assert_eq!(appearances(&rows(&[]), 3, &s("CP")), 0);
}

#[test]
fn uncovered_levels_keep_active_order() {
    let p = rows(&[&["CP"], &["CE2"], &[]]);
    let active = names(&["CP", "CE1", "CE2"]);
    assert_eq!(uncovered_levels(&p, 1, &active), names(&["CE1", "CE2"]));
    assert_eq!(uncovered_levels(&p, 2, &active), names(&["CE1"]));
    assert_eq!(uncovered_levels(&p, 0, &active), active);
}

#[test]
fn prune_rejects_when_classes_run_out() {
    let counts = vec![(s("CP"), 30u32), (s("CE1"), 10u32)];
    let active = names(&["CP", "CE1"]);
    let p = rows(&[&["CE1"], &[], &[]]);
    assert!(!prune(&p, 1, &active, &counts, 3, 12));
    let p = rows(&[&["CP"], &[], &[]]);
    assert!(prune(&p, 1, &active, &counts, 3, 12));
    let p = rows(&[&["CP"], &["CP"], &["CP"]]);
    assert!(!prune(&p, 3, &active, &counts, 3, 12));
}

#[test]
fn compositions_skip_forbidden_pairs() {
    let mut p = plan(2, 30);
    p.forbidden_pairs = vec![(s("CE2"), s("CP"))];
    let cfg = config(
        p,
        vec![("CP", LevelInput::Count(10)), ("CE1", LevelInput::Count(10)), ("CE2", LevelInput::Count(10))],
    );
    let active = names(&["CP", "CE1", "CE2"]);
    let all = all_mono_dual_compositions(&cfg, &active);
    assert_eq!(all, rows(&[&["CP"], &["CE1"], &["CE2"], &["CE1", "CP"], &["CE1", "CE2"]]));
}

#[test]
fn options_of_the_last_class() {
    let mut p = plan(3, 30);
    p.forbidden_pairs = vec![(s("CP"), s("CE2"))];
    let cfg = config(
        p,
        vec![("CP", LevelInput::Count(10)), ("CE1", LevelInput::Count(10)), ("CE2", LevelInput::Count(10))],
    );
    let active = names(&["CP", "CE1", "CE2"]);
    let ranked = rows(&[&["CE1"], &["CP"]]);
    let p = rows(&[&["CP"], &["CE1"], &[]]);
    assert_eq!(enumerate_options(&cfg, &active, &ranked, &p, 0, 3), ranked);
    assert_eq!(enumerate_options(&cfg, &active, &ranked, &p, 2, 3), rows(&[&["CE2"]]));
    let p = rows(&[&["CE1"], &[], &[]]);
    assert_eq!(enumerate_options(&cfg, &active, &ranked, &p, 1, 2), Vec::<Vec<String>>::new());
    let p = rows(&[&["CP"], &[], &[]]);
    assert_eq!(enumerate_options(&cfg, &active, &ranked, &p, 1, 2), rows(&[&["CE1", "CE2"]]));
    let p = rows(&[&[], &[], &[]]);
    assert_eq!(enumerate_options(&cfg, &active, &ranked, &p, 0, 1), Vec::<Vec<String>>::new());
    let p = rows(&[&["CP", "CE1"], &["CE2"], &[]]);
    assert_eq!(enumerate_options(&cfg, &active, &ranked, &p, 2, 3), ranked);
}

#[test]
fn number_of_plans_is_capped() {
    assert_eq!(plans_wanted(0), 0);
    assert_eq!(plans_wanted(1), 1);
    assert_eq!(plans_wanted(5), 5);
    assert_eq!(plans_wanted(20), 20);
    assert_eq!(plans_wanted(50), 20);
}

#[test]
fn selection_keeps_first_of_each_key() {
    let cands = vec![
        fake(rows(&[&["A"], &["B"]])),
        fake(rows(&[&["B"], &["A"]])),
        fake(rows(&[&["A", "B"], &["A"]])),
        fake(rows(&[&["B"], &["B"]])),
    ];
    assert_eq!(select_diverse(&cands, 10), vec![0, 2, 3]);
    assert_eq!(select_diverse(&cands, 2), vec![0, 2]);
    assert_eq!(select_diverse(&cands, 0), Vec::<usize>::new());
    assert_eq!(select_diverse(&Vec::new(), 3), Vec::<usize>::new());
}

#[test]
fn two_level_classes_are_listed() {
    let classes = rows(&[&["CP"], &["CE1", "CP"], &["CE2", "CM1"]]);
    assert_eq!(double_level_pairs(&classes), vec![(s("CE1"), s("CP")), (s("CE2"), s("CM1"))]);
    assert!(double_level_pairs(&rows(&[&["CP"]])).is_empty());
}

#[test]
fn zero_budget_explores_nothing() {
    let cfg = config(plan(1, 30), vec![("CP", LevelInput::Count(24))]);
    let (active, counts) = active_levels(&cfg);
    let ranked = all_mono_dual_compositions(&cfg, &active);
    let mut pattern = vec![vec![]];
    let mut nodes = 0usize;
    let mut cands = Vec::new();
    let mut seen = Vec::new();
    dfs(&cfg, &active, &counts, &ranked, 1, 30, 0, 2, 0, &mut pattern, &mut nodes, 0, &mut cands, &mut seen);
    assert!(cands.is_empty());
    assert_eq!(nodes, 1);
    dfs(&cfg, &active, &counts, &ranked, 1, 30, 0, 2, 0, &mut pattern, &mut nodes, 100, &mut cands, &mut seen);
    assert_eq!(cands.len(), 1);
    assert_eq!(seen, vec![s("CP")]);
}

#[test]
fn random_draws_find_the_only_plan() {
    let cfg = config(plan(1, 30), vec![("CP", LevelInput::Count(24))]);
    let (active, counts) = active_levels(&cfg);
    let mut rng = rand::thread_rng();
    let mut cands = Vec::new();
    let mut seen = Vec::new();
    random_search(&cfg, &active, &counts, 1, 30, 0, 2, 50, &mut rng, &mut cands, &mut seen);
    assert_eq!(cands.len(), 1);
    assert_eq!(cands[0].classes, rows(&[&["CP"]]));
    assert_eq!(cands[0].assignment.class_totals, vec![24]);
}

#[test]
fn a_seen_key_is_not_added_twice() {
    let counts = vec![(s("CP"), 10u32)];
    let mut cands = Vec::new();
    let mut seen = Vec::new();
    try_add_candidate(rows(&[&["CP"]]), &counts, 25, 0, 1, &mut cands, &mut seen);
    try_add_candidate(rows(&[&["CP"]]), &counts, 25, 0, 1, &mut cands, &mut seen);
    assert_eq!(cands.len(), 1);
    try_add_candidate(rows(&[&["CP"], &["CP"]]), &counts, 25, 0, 1, &mut cands, &mut seen);
    assert!(cands.len() <= 2);
    try_add_candidate(rows(&[&["CP"]]), &counts, 5, 0, 1, &mut cands, &mut seen);
    assert!(cands.len() <= 2);
}

#[test]
fn levels_without_pupils_are_not_active() {
    let cfg = config(
        plan(2, 30),
        vec![("CP", LevelInput::Count(10)), ("GS", LevelInput::Count(0)), ("CE1", LevelInput::Count(4))],
    );
    let (active, counts) = active_levels(&cfg);
    assert_eq!(active, names(&["CP", "CE1"]));
    assert_eq!(counts, vec![(s("CP"), 10), (s("CE1"), 4)]);
}

#[test]
fn depth_first_phase_reports_its_budget() {
    let cfg = config(plan(1, 30), vec![("CP", LevelInput::Count(24))]);
    let (cands, seen, within) = search_candidates(&cfg, &vec![0]);
    assert!(within);
    assert_eq!(cands.len(), 1);
    assert_eq!(seen, vec![s("CP")]);

    let mut p = plan(2, 25);
    p.dfs_node_budget = 1;
    let cfg = config(p, vec![("CP", LevelInput::Count(20)), ("CE1", LevelInput::Count(20))]);
    let (cands, seen, within) = search_candidates(&cfg, &vec![0, 1, 2]);
    assert!(!within);
    assert!(cands.is_empty());
    assert!(seen.is_empty());
}

#[test]
fn depth_first_phase_finds_every_split_of_two_levels() {
    let cfg = config(plan(2, 25), vec![("CP", LevelInput::Count(20)), ("CE1", LevelInput::Count(20))]);
    let (active, _) = active_levels(&cfg);
    let opts = all_mono_dual_compositions(&cfg, &active);
    let rank: Vec<usize> = (0..opts.len()).collect();
    let (cands, seen, within) = search_candidates(&cfg, &rank);
    assert!(within);
    assert_eq!(cands.len(), seen.len());
    assert!(seen.contains(&s("CE1|CP")));
}

#[test]
fn offer_keeps_only_new_keys_with_full_classes() {
    let mut cands = Vec::new();
    let mut seen = Vec::new();
    let full = Assignment { per_class: vec![vec![(s("CP"), 3)]], class_totals: vec![3] };
    let empty_class = Assignment { per_class: vec![vec![], vec![(s("CP"), 3)]], class_totals: vec![0, 3] };
    offer_candidate(rows(&[&["CP"]]), None, &mut cands, &mut seen);
    assert!(cands.is_empty());
    offer_candidate(rows(&[&["CP"], &["CP"]]), Some(empty_class), &mut cands, &mut seen);
    assert!(cands.is_empty());
    offer_candidate(rows(&[&["CP"]]), Some(full.clone()), &mut cands, &mut seen);
    assert_eq!(cands.len(), 1);
    assert_eq!(seen, vec![s("CP")]);
    offer_candidate(rows(&[&["CP"]]), Some(full), &mut cands, &mut seen);
    assert_eq!(cands.len(), 1);
}

#[test]
fn a_draw_is_offered_only_when_it_covers_every_level() {
    let active = names(&["CP", "CE1"]);
    let counts = vec![(s("CP"), 10u32), (s("CE1"), 12u32)];
    let mut cands = Vec::new();
    let mut seen = Vec::new();
    assert!(!offer_pattern(&active, &counts, 30, 0, 1, rows(&[&["CP"], &["CP"]]), &mut cands, &mut seen));
    assert!(cands.is_empty());
    assert!(seen.is_empty());
    assert!(offer_pattern(&active, &counts, 30, 0, 1, rows(&[&["CP"], &["CE1"]]), &mut cands, &mut seen));
    assert_eq!(cands.len(), 1);
    assert_eq!(cands[0].classes, rows(&[&["CP"], &["CE1"]]));
    assert_eq!(cands[0].assignment.class_totals, vec![10, 12]);
    assert_eq!(seen, vec![s("CE1|CP")]);
    assert!(!offer_pattern(&active, &counts, 30, 0, 1, rows(&[&["CE1"], &["CP"]]), &mut cands, &mut seen));
    assert_eq!(cands.len(), 1);
    assert!(!offer_pattern(&active, &counts, 11, 0, 1, rows(&[&["CE1", "CP"]]), &mut cands, &mut seen));
    assert_eq!(cands.len(), 1);
    assert_eq!(seen.len(), 1);
}

#[test]
fn pruning_keeps_the_prefix_of_a_feasible_composition() {
    let active = names(&["CP", "CE1"]);
    let counts = vec![(s("CP"), 30u32), (s("CE1"), 10u32)];
    let p = rows(&[&["CP"], &[]]);
    assert!(prune(&p, 1, &active, &counts, 2, 30));
    let p = rows(&[&["CE1"], &[]]);
    assert!(prune(&p, 1, &active, &counts, 2, 30));
    let p = rows(&[&["CE1"], &[]]);
    assert!(!prune(&p, 1, &active, &counts, 2, 20));
}

#[test]
fn random_draws_alone_find_the_plan() {
    let mut p = plan(1, 30);
    p.dfs_node_budget = 0;
    p.random_trials = 20;
    let cfg = config(p, vec![("CP", LevelInput::Count(24))]);
    let (active, _) = active_levels(&cfg);
    let opts = all_mono_dual_compositions(&cfg, &active);
    let rank: Vec<usize> = (0..opts.len()).collect();
    let mut rng = rand::thread_rng();
    let cands = find_candidates(&cfg, &rank, &mut rng);
    assert_eq!(cands.len(), 1);
    assert_eq!(cands[0].classes, rows(&[&["CP"]]));
}

#[test]
fn the_first_plans_in_search_order_are_kept_within_a_small_budget() {
    let mut p = plan(2, 25);
    p.dfs_node_budget = 3;
    p.random_trials = 0;
    let cfg = config(p, vec![("CP", LevelInput::Count(20)), ("CE1", LevelInput::Count(20))]);
    let (active, _) = active_levels(&cfg);
    let opts = all_mono_dual_compositions(&cfg, &active);
    let rank: Vec<usize> = (0..opts.len()).collect();
    let (cands, seen, within) = search_candidates(&cfg, &rank);
    assert!(!within);
    assert_eq!(cands.len(), 1);
    assert_eq!(seen, vec![s("CE1|CP")]);
}
