use align_comments::sections::{group_into_sections, Utils};

#[test]
fn at_returns_the_item_or_none() {
    let numbers: Vec<usize> = vec![4, 8, 15];
    assert_eq!(numbers.at(0), Some(4));
    assert_eq!(numbers.at(2), Some(15));
    assert_eq!(numbers.at(3), None);
    assert_eq!(numbers.at(usize::MAX), None);
    let words = vec!["a".to_string(), "b".to_string()];
    assert_eq!(words.at(1), Some("b".to_string()));
    assert_eq!(words.at(2), None);
    let empty: Vec<char> = Vec::new();
    assert_eq!(empty.at(0), None);
}

#[test]
fn empty_list_has_no_sections() {
    assert_eq!(group_into_sections(vec![]), Vec::<Vec<usize>>::new());
}

#[test]
fn single_number_is_a_section() {
    assert_eq!(group_into_sections(vec![7]), vec![vec![7]]);
}

#[test]
fn neighbours_share_a_section() {
    assert_eq!(group_into_sections(vec![0, 1]), vec![vec![0, 1]]);
    assert_eq!(group_into_sections(vec![3, 4, 5, 6]), vec![vec![3, 4, 5, 6]]);
}

#[test]
fn a_gap_starts_a_new_section() {
    assert_eq!(
        group_into_sections(vec![0, 1, 3, 4, 5, 9, 10]),
        vec![vec![0, 1], vec![3, 4, 5], vec![9, 10]]
    );
    assert_eq!(group_into_sections(vec![1, 2, 5]), vec![vec![1, 2], vec![5]]);
    assert_eq!(group_into_sections(vec![0, 2, 4]), vec![vec![0], vec![2], vec![4]]);
}

#[test]
fn the_number_before_a_gap_closes_its_section() {
    assert_eq!(group_into_sections(vec![5, 6, 7, 20]), vec![vec![5, 6, 7], vec![20]]);
    assert_eq!(group_into_sections(vec![5, 20, 21]), vec![vec![5], vec![20, 21]]);
}

#[test]
fn a_difference_of_two_is_a_gap() {
    assert_eq!(group_into_sections(vec![0, 2]), vec![vec![0], vec![2]]);
    assert_eq!(group_into_sections(vec![0, 1, 2]), vec![vec![0, 1, 2]]);
}

#[test]
fn repeated_and_falling_numbers_are_no_gap() {
    assert_eq!(group_into_sections(vec![4, 4, 5]), vec![vec![4, 4, 5]]);
    assert_eq!(group_into_sections(vec![9, 3, 4, 8]), vec![vec![9, 3, 4], vec![8]]);
}

#[test]
fn sections_laid_end_to_end_give_the_list() {
    let list: Vec<usize> = vec![2, 3, 4, 8, 11, 12, 40, 41, 42, 43];
    let joined: Vec<usize> = group_into_sections(list.clone()).into_iter().flatten().collect();
    assert_eq!(joined, list);
}

#[test]
fn largest_numbers_do_not_overflow() {
    assert_eq!(
        group_into_sections(vec![0, usize::MAX - 1, usize::MAX]),
        vec![vec![0], vec![usize::MAX - 1, usize::MAX]]
    );
}
