use repartition_classes::config::{
    default_dfs_budget, default_max_class, default_min_per_level_dual, default_num_plans, default_random_trials,
    level_input_to_data, AppConfig, ConfigError, LevelData, LevelInput, PlanConfig, RawConfig,
};

fn plan(num_classes: usize, max: u32) -> PlanConfig {
    PlanConfig {
        num_classes,
        max_students_per_class: max,
        min_students_per_class: 0,
        min_students_per_level_in_dual_class: default_min_per_level_dual(),
        num_plans: default_num_plans(),
        dfs_node_budget: default_dfs_budget(),
        random_trials: default_random_trials(),
        level_order: vec![],
        forbidden_pairs: vec![],
        same_cycle_groups: vec![],
    }
}

fn names(v: &[&str]) -> Vec<String> {
    v.iter().map(|s| s.to_string()).collect()
}

fn raw(plan: PlanConfig, levels: Vec<(&str, LevelInput)>) -> RawConfig {
    RawConfig { plan, levels: levels.into_iter().map(|(n, i)| (n.to_string(), i)).collect() }
}

#[test]
fn defaults_match_the_documentation() {
    assert_eq!(default_max_class(), 25);
    assert_eq!(default_min_per_level_dual(), 2);
    assert_eq!(default_num_plans(), 8);
    assert_eq!(default_dfs_budget(), 250_000);
    assert_eq!(default_random_trials(), 30_000);
}

#[test]
fn level_given_as_a_count() {
    let d = level_input_to_data(&"CP".to_string(), LevelInput::Count(24)).unwrap();
    assert_eq!(d.count, 24);
    assert!(d.students.is_empty());
}

#[test]
fn level_given_as_a_list() {
    let d = level_input_to_data(
        &"CE1".to_string(),
        LevelInput::Detailed { count: None, students: names(&["Alice", "Bob", "Chloé"]) },
    )
    .unwrap();
    assert_eq!(d.count, 3);
    assert_eq!(d.students, names(&["Alice", "Bob", "Chloé"]));
}

#[test]
fn level_given_with_matching_count_and_list() {
    let d = level_input_to_data(
        &"CE2".to_string(),
        LevelInput::Detailed { count: Some(2), students: names(&["Diane", "Eve"]) },
    )
    .unwrap();
    assert_eq!(d.count, 2);
}

#[test]
fn level_count_and_list_disagree() {
    let r = level_input_to_data(
        &"CE2".to_string(),
        LevelInput::Detailed { count: Some(3), students: names(&["Diane", "Eve"]) },
    );
    assert_eq!(
        r.unwrap_err(),
        ConfigError::CountMismatch { level: "CE2".to_string(), count: 3, listed: 2 }
    );
}

#[test]
fn level_with_neither_count_nor_list() {
    let r = level_input_to_data(&"GS".to_string(), LevelInput::Detailed { count: None, students: vec![] });
    assert_eq!(r.unwrap_err(), ConfigError::MissingCount("GS".to_string()));
}

#[test]
fn level_with_count_in_detailed_form() {
    let d = level_input_to_data(&"GS".to_string(), LevelInput::Detailed { count: Some(7), students: vec![] })
        .unwrap();
    assert_eq!(d.count, 7);
    assert!(d.students.is_empty());
}

#[test]
fn default_level_order_is_sorted_names() {
    let cfg = AppConfig::from_raw(raw(
        plan(3, 30),
        vec![("CM1", LevelInput::Count(20)), ("CE1", LevelInput::Count(20)), ("CP", LevelInput::Count(20))],
    ))
    .unwrap();
    assert_eq!(cfg.plan.level_order, names(&["CE1", "CM1", "CP"]));
    assert_eq!(cfg.levels.len(), 3);
    assert_eq!(cfg.levels[0].0, "CM1");
    assert_eq!(cfg.levels[0].1.count, 20);
}

#[test]
fn given_level_order_is_kept() {
    let mut p = plan(2, 30);
    p.level_order = names(&["CP", "CE1"]);
    let cfg = AppConfig::from_raw(raw(p, vec![("CE1", LevelInput::Count(20)), ("CP", LevelInput::Count(20))])).unwrap();
    assert_eq!(cfg.plan.level_order, names(&["CP", "CE1"]));
}

#[test]
fn no_class_is_rejected() {
    let r = AppConfig::from_raw(raw(plan(0, 30), vec![("CP", LevelInput::Count(20))]));
    assert_eq!(r.unwrap_err(), ConfigError::NoClasses);
}

#[test]
fn no_level_is_rejected() {
    let r = AppConfig::from_raw(raw(plan(1, 30), vec![]));
    assert_eq!(r.unwrap_err(), ConfigError::NoLevels);
}

#[test]
fn level_missing_from_order_is_rejected() {
    let mut p = plan(2, 30);
    p.level_order = names(&["CP"]);
    let r = AppConfig::from_raw(raw(p, vec![("CP", LevelInput::Count(20)), ("CE1", LevelInput::Count(20))]));
    assert_eq!(r.unwrap_err(), ConfigError::LevelNotInOrder("CE1".to_string()));
}

#[test]
fn too_many_pupils_are_rejected() {
    let r = AppConfig::from_raw(raw(plan(2, 20), vec![("CP", LevelInput::Count(41))]));
    assert_eq!(
        r.unwrap_err(),
        ConfigError::OverCapacity { total: 41, num_classes: 2, max_students_per_class: 20 }
    );
    assert!(AppConfig::from_raw(raw(plan(2, 20), vec![("CP", LevelInput::Count(40))])).is_ok());
}

#[test]
fn zero_dual_minimum_is_rejected() {
    let mut p = plan(1, 30);
    p.min_students_per_level_in_dual_class = 0;
    let r = AppConfig::from_raw(raw(p, vec![("CP", LevelInput::Count(20))]));
    assert_eq!(r.unwrap_err(), ConfigError::DualMinimumZero);
}

#[test]
fn dual_minimum_above_half_a_class_is_rejected() {
    let mut p = plan(1, 30);
    p.min_students_per_level_in_dual_class = 16;
    let r = AppConfig::from_raw(raw(p, vec![("CP", LevelInput::Count(20))]));
    assert_eq!(
        r.unwrap_err(),
        ConfigError::DualMinimumTooLarge { min_per_level: 16, max_students_per_class: 30 }
    );
    let mut p = plan(1, 30);
    p.min_students_per_level_in_dual_class = 15;
    assert!(AppConfig::from_raw(raw(p, vec![("CP", LevelInput::Count(20))])).is_ok());
}

#[test]
fn huge_dual_minimum_is_rejected_without_overflow() {
    let mut p = plan(1, 30);
    p.min_students_per_level_in_dual_class = u32::MAX;
    let r = AppConfig::from_raw(raw(p, vec![("CP", LevelInput::Count(20))]));
    assert_eq!(
        r.unwrap_err(),
        ConfigError::DualMinimumTooLarge { min_per_level: u32::MAX, max_students_per_class: 30 }
    );
}

#[test]
fn blank_student_name_is_rejected() {
    let mut p = plan(1, 10);
    p.level_order = names(&["CP"]);
    let r = AppConfig::from_raw(raw(
        p,
        vec![("CP", LevelInput::Detailed { count: None, students: names(&["Ana", " \t "]) })],
    ));
    assert_eq!(r.unwrap_err(), ConfigError::BlankStudentName("CP".to_string()));
}

#[test]
fn name_with_surrounding_spaces_is_accepted() {
    let r = AppConfig::from_raw(raw(
        plan(1, 10),
        vec![("CP", LevelInput::Detailed { count: None, students: names(&[" Ana ", "Bob"]) })],
    ));
    assert!(r.is_ok());
}

#[test]
fn duplicate_student_name_rejected() {
    let mut p = plan(1, 10);
    p.level_order = names(&["CP", "CE1"]);
    let r = AppConfig::from_raw(raw(
        p,
        vec![
            ("CP", LevelInput::Detailed { count: None, students: names(&["Same", "X"]) }),
            ("CE1", LevelInput::Detailed { count: None, students: names(&["Same"]) }),
        ],
    ));
    assert!(r.is_err());
    assert_eq!(r.unwrap_err(), ConfigError::DuplicateStudent("Same".to_string()));
}

#[test]
fn first_unreadable_level_is_reported() {
    let r = AppConfig::from_raw(raw(
        plan(0, 10),
        vec![
            ("CP", LevelInput::Count(3)),
            ("CE1", LevelInput::Detailed { count: None, students: vec![] }),
            ("CE2", LevelInput::Detailed { count: Some(1), students: names(&["A", "B"]) }),
        ],
    ));
    assert_eq!(r.unwrap_err(), ConfigError::MissingCount("CE1".to_string()));
}

#[test]
fn named_students_are_detected() {
    let cfg = AppConfig::from_raw(raw(
        plan(2, 10),
        vec![
            ("CP", LevelInput::Detailed { count: None, students: names(&["Ana", "Bob"]) }),
            ("CE1", LevelInput::Count(6)),
        ],
    ))
    .unwrap();
    assert!(cfg.has_named_students());
    let cfg = AppConfig::from_raw(raw(plan(2, 10), vec![("CE1", LevelInput::Count(6))])).unwrap();
    assert!(!cfg.has_named_students());
}

#[test]
fn level_positions_gaps_and_pairs() {
    let mut p = plan(3, 30);
    p.level_order = names(&["CP", "CE1", "CE2", "CM1", "CM2"]);
    p.forbidden_pairs = vec![("CP".to_string(), "CM2".to_string())];
    p.same_cycle_groups = vec![names(&["CP", "CE1", "CE2"]), names(&["CM1", "CM2"])];
    let cfg = AppConfig { plan: p, levels: vec![("CP".to_string(), LevelData { count: 1, students: vec![] })] };
    let s = |x: &str| x.to_string();
    assert_eq!(cfg.level_index(&s("CE2")), Some(2));
    assert_eq!(cfg.level_index(&s("GS")), None);
    assert_eq!(cfg.level_gap(&s("CP"), &s("CM1")), Some(3));
    assert_eq!(cfg.level_gap(&s("CM1"), &s("CP")), Some(3));
    assert_eq!(cfg.level_gap(&s("CP"), &s("GS")), None);
    assert!(cfg.is_forbidden_pair(&s("CP"), &s("CM2")));
    assert!(cfg.is_forbidden_pair(&s("CM2"), &s("CP")));
    assert!(!cfg.is_forbidden_pair(&s("CP"), &s("CE1")));
    assert!(cfg.in_same_cycle(&s("CP"), &s("CE2")));
    assert!(!cfg.in_same_cycle(&s("CE2"), &s("CM1")));
}

#[test]
fn normalize_keeps_the_levels() {
    let mut cfg = AppConfig {
        plan: plan(1, 30),
        levels: vec![
            ("B".to_string(), LevelData { count: 3, students: vec![] }),
            ("A".to_string(), LevelData { count: 4, students: vec![] }),
        ],
    };
    assert_eq!(cfg.normalize(), Ok(()));
    assert_eq!(cfg.plan.level_order, names(&["A", "B"]));
    assert_eq!(cfg.levels[0].0, "B");
    assert_eq!(cfg.levels[1].1.count, 4);
}

#[test]
fn a_repeated_level_name_is_refused() {
    let p = plan(2, 30);
    let r = AppConfig::from_raw(raw(p, vec![("CP", LevelInput::Count(20)), ("CP", LevelInput::Count(5))]));
    assert_eq!(r.unwrap_err(), ConfigError::DuplicateLevel("CP".to_string()));
}
