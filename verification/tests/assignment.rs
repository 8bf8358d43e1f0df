use repartition_classes::flow::{feasible_assignment, Assignment};

fn counts(pairs: &[(&str, u32)]) -> Vec<(String, u32)> {
    pairs.iter().map(|(n, c)| (n.to_string(), *c)).collect()
}

fn classes(rows: &[&[&str]]) -> Vec<Vec<String>> {
    rows.iter().map(|r| r.iter().map(|x| x.to_string()).collect()).collect()
}

fn amount(a: &Assignment, class: usize, level: &str) -> u32 {
    a.per_class[class]
        .iter()
        .find(|(l, _)| l == level)
        .map(|(_, n)| *n)
        .unwrap_or(0)
}

#[test]
fn flow_infeasible_returns_none() {
    let counts = counts(&[("A", 30), ("B", 30)]);
    let classes = classes(&[&["A", "B"]]);
    assert!(feasible_assignment(&classes, &counts, 25, 0, 1).is_none());
}

#[test]
fn dual_class_requires_at_least_one_per_level() {
    let counts = counts(&[("A", 5), ("B", 5)]);
    let classes = classes(&[&["A", "B"]]);
    let a = feasible_assignment(&classes, &counts, 15, 0, 1).expect("faisable");
    assert!(amount(&a, 0, "A") >= 1);
    assert!(amount(&a, 0, "B") >= 1);
}

#[test]
fn min_students_per_level_in_dual_rejects_imbalanced_pair() {
    let counts = counts(&[("CM1", 29), ("CM2", 1)]);
    let classes = classes(&[&["CM1", "CM2"]]);
    assert!(feasible_assignment(&classes, &counts, 40, 0, 3).is_none());
    assert!(feasible_assignment(&classes, &counts, 40, 0, 1).is_some());
}

#[test]
fn flow_feasible_split() {
    let counts = counts(&[("A", 30)]);
    let classes = classes(&[&["A"], &["A"]]);
    let a = feasible_assignment(&classes, &counts, 25, 0, 1);
    assert!(a.is_some());
    let a = a.unwrap();
    let s: u32 = a.class_totals.iter().sum();
    assert_eq!(s, 30);
}

#[test]
fn unknown_level_in_a_class_gives_none() {
    let counts = counts(&[("A", 10)]);
    let classes = classes(&[&["A"], &["B"]]);
    assert!(feasible_assignment(&classes, &counts, 25, 0, 1).is_none());
}

#[test]
fn every_pupil_is_placed_and_no_class_overflows() {
    let counts = counts(&[("CP", 22), ("CE1", 19), ("CE2", 25)]);
    let classes = classes(&[&["CP"], &["CP", "CE1"], &["CE1", "CE2"], &["CE2"]]);
    let a = feasible_assignment(&classes, &counts, 20, 0, 2).expect("feasible");
    assert_eq!(a.per_class.len(), 4);
    assert_eq!(a.class_totals.len(), 4);
    let total: u32 = a.class_totals.iter().sum();
    assert_eq!(total, 66);
    for (c, row) in classes.iter().enumerate() {
        assert!(a.class_totals[c] <= 20);
        let sum: u32 = row.iter().map(|l| amount(&a, c, l)).sum();
        assert_eq!(sum, a.class_totals[c]);
        if row.len() == 2 {
            for l in row {
                assert!(amount(&a, c, l) >= 2);
            }
        }
    }
    for (l, n) in &counts {
        let placed: u32 = (0..4).map(|c| amount(&a, c, l)).sum();
        assert_eq!(placed, *n);
    }
}

#[test]
fn reservation_larger_than_class_gives_none() {
    let counts = counts(&[("A", 10), ("B", 10)]);
    let classes = classes(&[&["A", "B"]]);
    assert!(feasible_assignment(&classes, &counts, 9, 0, 5).is_none());
    assert!(feasible_assignment(&classes, &counts, 20, 0, 5).is_some());
}

#[test]
fn minimum_class_size_is_respected() {
    let counts = counts(&[("A", 12)]);
    let classes = classes(&[&["A"], &["A"]]);
    let a = feasible_assignment(&classes, &counts, 12, 5, 1).expect("feasible");
    for &t in &a.class_totals {
        assert!(t == 0 || t >= 5);
    }
    let total: u32 = a.class_totals.iter().sum();
    assert_eq!(total, 12);
}

#[test]
fn entries_list_only_levels_with_pupils() {
    let counts = counts(&[("A", 10), ("B", 3)]);
    let classes = classes(&[&["A", "B"]]);
    let a = feasible_assignment(&classes, &counts, 13, 0, 1).expect("feasible");
    assert_eq!(a.per_class[0].len(), 2);
    assert_eq!(amount(&a, 0, "A"), 10);
    assert_eq!(amount(&a, 0, "B"), 3);
    assert_eq!(a.class_totals, vec![13]);
}

#[test]
fn zero_dual_minimum_counts_as_one() {
    let counts = counts(&[("A", 5), ("B", 0)]);
    let classes = classes(&[&["A", "B"]]);
    assert!(feasible_assignment(&classes, &counts, 10, 0, 0).is_none());
}

#[test]
fn a_class_below_the_minimum_size_gives_none() {
    let counts = counts(&[("A", 3)]);
    let classes = classes(&[&["A"]]);
    assert!(feasible_assignment(&classes, &counts, 10, 5, 1).is_none());
    let a = feasible_assignment(&classes, &counts, 10, 3, 1).expect("feasible");
    assert_eq!(a.class_totals, vec![3]);
}
