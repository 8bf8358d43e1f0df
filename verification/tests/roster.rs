use repartition_classes::config::{AppConfig, LevelData, PlanConfig};
use repartition_classes::flow::Assignment;
use repartition_classes::report::{class_detail, class_label};
use repartition_classes::roster::build_named_roster;

fn names(v: &[&str]) -> Vec<String> {
    v.iter().map(|x| x.to_string()).collect()
}

fn cfg(levels: Vec<(&str, u32, Vec<String>)>) -> AppConfig {
    AppConfig {
        plan: PlanConfig {
            num_classes: 2,
            max_students_per_class: 10,
            min_students_per_class: 0,
            min_students_per_level_in_dual_class: 1,
            num_plans: 3,
            dfs_node_budget: 100,
            random_trials: 0,
            level_order: vec![],
            forbidden_pairs: vec![],
            same_cycle_groups: vec![],
        },
        levels: levels
            .into_iter()
            .map(|(n, c, s)| (n.to_string(), LevelData { count: c, students: s }))
            .collect(),
    }
}

fn assignment(per_class: Vec<Vec<(&str, u32)>>) -> Assignment {
    let per_class: Vec<Vec<(String, u32)>> =
        per_class.into_iter().map(|r| r.into_iter().map(|(l, n)| (l.to_string(), n)).collect()).collect();
    let class_totals = per_class.iter().map(|r| r.iter().map(|(_, n)| n).sum()).collect();
    Assignment { per_class, class_totals }
}

#[test]
fn lists_are_cut_in_class_order() {
    let cfg = cfg(vec![("CP", 5, names(&["Ana", "Bob", "Cid", "Dan", "Eva"])), ("CE1", 6, vec![])]);
    let classes = vec![names(&["CP"]), names(&["CP", "CE1"])];
    let a = assignment(vec![vec![("CP", 3)], vec![("CP", 2), ("CE1", 6)]]);
    let r = build_named_roster(&classes, &a, &cfg).expect("roster");
    assert_eq!(r.len(), 2);
    assert_eq!(r[0], vec![("CP".to_string(), names(&["Ana", "Bob", "Cid"]))]);
    assert_eq!(r[1], vec![("CP".to_string(), names(&["Dan", "Eva"]))]);
}

#[test]
fn list_not_handed_out_exactly_gives_none() {
    let cfg = cfg(vec![("CP", 5, names(&["Ana", "Bob", "Cid", "Dan", "Eva"]))]);
    let classes = vec![names(&["CP"]), names(&["CP"])];
    let short = assignment(vec![vec![("CP", 3)], vec![("CP", 1)]]);
    assert!(build_named_roster(&classes, &short, &cfg).is_none());
    let long = assignment(vec![vec![("CP", 3)], vec![("CP", 3)]]);
    assert!(build_named_roster(&classes, &long, &cfg).is_none());
}

#[test]
fn no_named_level_gives_none() {
    let cfg = cfg(vec![("CP", 5, vec![])]);
    let classes = vec![names(&["CP"])];
    let a = assignment(vec![vec![("CP", 5)]]);
    assert!(build_named_roster(&classes, &a, &cfg).is_none());
}

#[test]
fn unknown_level_with_pupils_gives_none() {
    let cfg = cfg(vec![("CP", 2, names(&["Ana", "Bob"]))]);
    let classes = vec![names(&["CP", "GS"])];
    let a = assignment(vec![vec![("CP", 2), ("GS", 1)]]);
    assert!(build_named_roster(&classes, &a, &cfg).is_none());
}

#[test]
fn classes_without_pupils_of_a_level_get_no_entry() {
    let cfg = cfg(vec![("CP", 2, names(&["Ana", "Bob"])), ("CE1", 1, names(&["Zoé"]))]);
    let classes = vec![names(&["CE1", "CP"]), names(&["CP"])];
    let a = assignment(vec![vec![("CE1", 1)], vec![("CP", 2)]]);
    let r = build_named_roster(&classes, &a, &cfg).expect("roster");
    assert_eq!(r[0], vec![("CE1".to_string(), names(&["Zoé"]))]);
    assert_eq!(r[1], vec![("CP".to_string(), names(&["Ana", "Bob"]))]);
}

#[test]
fn class_labels_and_details_are_written_out() {
    assert_eq!(class_label(&vec!["CP".to_string()]), "CP");
    assert_eq!(class_label(&vec!["CE1".to_string(), "CP".to_string()]), "CE1 + CP");
    assert_eq!(class_detail(&vec![]), "");
    assert_eq!(class_detail(&vec![("CE1".to_string(), 7), ("CP".to_string(), 120)]), "CE1:7, CP:120");
    assert_eq!(class_detail(&vec![("CP".to_string(), 0)]), "CP:0");
}
