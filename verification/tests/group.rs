use airflow_analytics::group::group_indices;

fn names(list: &[&str]) -> Vec<Vec<char>> {
    list.iter().map(|s| s.chars().collect()).collect()
}

#[test]
fn groups_in_name_order_with_their_rows() {
    let n = names(&["b", "a", "b", "c", "a"]);
    let groups = group_indices(&n, &vec![true, true, true, false, true]);
    let summary: Vec<(String, Vec<usize>)> = groups
        .iter()
        .map(|g| (g.name.iter().collect(), g.members.clone()))
        .collect();
    assert_eq!(
        summary,
        [("a".to_string(), vec![1, 4]), ("b".to_string(), vec![0, 2])]
    );
}

#[test]
fn every_selected_row_in_one_group() {
    let n = names(&["x", "", "y", "x", "", "z", "y"]);
    let selected = vec![true, true, false, true, true, true, true];
    let groups = group_indices(&n, &selected);
    let total: usize = groups.iter().map(|g| g.members.len()).sum();
    assert_eq!(total, selected.iter().filter(|s| **s).count());
    let mut seen: Vec<usize> = groups.iter().flat_map(|g| g.members.clone()).collect();
    seen.sort();
    assert_eq!(seen, vec![0, 1, 3, 4, 5, 6]);
}

#[test]
fn no_rows_no_groups() {
    assert!(group_indices(&Vec::new(), &Vec::new()).is_empty());
    assert!(group_indices(&names(&["a"]), &vec![false]).is_empty());
}
