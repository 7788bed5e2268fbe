use planets::grouping::{group_collisions, CollisionGroups};

#[test]
fn no_collisions_no_groups() {
    let groups = group_collisions(&vec![]);
    assert_eq!(groups.len(), 0);
    assert_eq!(groups.into_groups(), Vec::<Vec<usize>>::new());
}

#[test]
fn one_collision_founds_a_group_of_two() {
    let groups = group_collisions(&vec![(3, 7)]).into_groups();
    assert_eq!(groups, vec![vec![3, 7]]);
}

#[test]
fn chain_of_collisions_gives_one_group() {
    // A touches B and B touches C; A and C never touch.
    let groups = group_collisions(&vec![(0, 1), (1, 2)]).into_groups();
    assert_eq!(groups, vec![vec![0, 1, 2]]);
}

#[test]
fn a_body_joins_the_group_of_the_other() {
    let groups = group_collisions(&vec![(1, 2), (0, 2)]).into_groups();
    assert_eq!(groups, vec![vec![1, 2, 0]]);
}

#[test]
fn separate_collisions_give_separate_groups_in_order_of_discovery() {
    let groups = group_collisions(&vec![(4, 5), (0, 1), (2, 3)]).into_groups();
    assert_eq!(groups, vec![vec![4, 5], vec![0, 1], vec![2, 3]]);
}

#[test]
fn a_collision_between_two_groups_unites_them() {
    let groups = group_collisions(&vec![(0, 2), (1, 3), (2, 3)]).into_groups();
    assert_eq!(groups, vec![vec![0, 2, 1, 3]]);
}

#[test]
fn uniting_keeps_the_earlier_group_in_its_place() {
    let groups = group_collisions(&vec![(0, 1), (2, 3), (4, 5), (5, 2)]).into_groups();
    assert_eq!(groups, vec![vec![0, 1], vec![2, 3, 4, 5]]);
}

#[test]
fn a_repeated_collision_changes_nothing() {
    let groups = group_collisions(&vec![(0, 1), (1, 0), (0, 1)]).into_groups();
    assert_eq!(groups, vec![vec![0, 1]]);
}

#[test]
fn a_body_does_not_collide_with_itself() {
    let groups = group_collisions(&vec![(5, 5)]).into_groups();
    assert_eq!(groups, Vec::<Vec<usize>>::new());
    let groups = group_collisions(&vec![(1, 2), (2, 2)]).into_groups();
    assert_eq!(groups, vec![vec![1, 2]]);
}

#[test]
fn groups_are_disjoint_and_plural() {
    let pairs = vec![(0, 9), (1, 8), (2, 7), (9, 8), (3, 4), (7, 3), (5, 6), (6, 5)];
    let groups = group_collisions(&pairs).into_groups();
    let mut seen: Vec<usize> = Vec::new();
    for group in &groups {
        assert!(group.len() >= 2);
        for member in group {
            assert!(!seen.contains(member));
            seen.push(*member);
        }
    }
    assert_eq!(groups, vec![vec![0, 9, 1, 8], vec![2, 7, 3, 4], vec![5, 6]]);
}

#[test]
fn record_grows_the_groups_step_by_step() {
    let mut groups = CollisionGroups::new();
    assert_eq!(groups.len(), 0);
    groups.record(10, 20);
    assert_eq!(groups.len(), 1);
    assert_eq!(groups.group(0), &vec![10, 20]);
    groups.record(30, 40);
    assert_eq!(groups.len(), 2);
    groups.record(40, 10);
    assert_eq!(groups.len(), 1);
    assert_eq!(groups.group(0), &vec![10, 20, 30, 40]);
}

#[test]
fn find_tells_the_group_of_a_body() {
    let groups = group_collisions(&vec![(0, 1), (2, 3), (3, 4)]);
    assert_eq!(groups.find(0), Some(0));
    assert_eq!(groups.find(1), Some(0));
    assert_eq!(groups.find(4), Some(1));
    assert_eq!(groups.find(5), None);
}
