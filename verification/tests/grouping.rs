use lyneate::classify::MultilineAnnotation;
use lyneate::group::{group_multiline, largest_group_size, MultilineGroup};

fn ann(id: usize, start_line: usize, end_line: usize) -> MultilineAnnotation {
    MultilineAnnotation { id, start_line, end_line, pre_len: 0, end_len: 0 }
}

fn group(first_line: usize, last_line: usize, members: Vec<usize>) -> MultilineGroup {
    MultilineGroup { first_line, last_line, members }
}

#[test]
fn no_annotations_form_no_group() {
    let groups = group_multiline(&Vec::new());
    assert!(groups.is_empty());
    assert_eq!(largest_group_size(&groups), 0);
}

#[test]
fn overlapping_pair_shares_a_group() {
    let groups = group_multiline(&vec![ann(0, 1, 4), ann(1, 3, 6)]);
    assert_eq!(groups, vec![group(1, 6, vec![0, 1])]);
    assert_eq!(largest_group_size(&groups), 2);
}

#[test]
fn pair_that_shares_one_line_shares_a_group() {
    let groups = group_multiline(&vec![ann(0, 1, 3), ann(1, 3, 5)]);
    assert_eq!(groups, vec![group(1, 5, vec![0, 1])]);
}

#[test]
fn disjoint_pair_forms_two_groups() {
    let groups = group_multiline(&vec![ann(0, 1, 2), ann(1, 5, 6)]);
    assert_eq!(groups, vec![group(1, 2, vec![0]), group(5, 6, vec![1])]);
    assert_eq!(largest_group_size(&groups), 1);
}

#[test]
fn adjacent_lines_do_not_touch() {
    let groups = group_multiline(&vec![ann(0, 1, 2), ann(1, 3, 4)]);
    assert_eq!(groups, vec![group(1, 2, vec![0]), group(3, 4, vec![1])]);
}

#[test]
fn later_annotation_widens_the_group_to_the_left() {
    let groups = group_multiline(&vec![ann(0, 5, 8), ann(1, 2, 6)]);
    assert_eq!(groups, vec![group(2, 8, vec![0, 1])]);
}

#[test]
fn bridging_annotation_joins_the_first_group_only() {
    // the third annotation touches both groups; it joins the first and the
    // groups stay apart, so it ends up apart from the second annotation
    // although their line ranges overlap
    let groups = group_multiline(&vec![ann(0, 1, 2), ann(1, 5, 6), ann(2, 2, 5)]);
    assert_eq!(groups, vec![group(1, 5, vec![0, 2]), group(5, 6, vec![1])]);
    assert_eq!(largest_group_size(&groups), 2);
}

#[test]
fn grown_group_takes_in_an_annotation_disjoint_from_its_first_member() {
    // the first and the third annotation share no line, but the second has
    // widened the group to reach the third
    let groups = group_multiline(&vec![ann(0, 1, 2), ann(1, 2, 5), ann(2, 5, 6)]);
    assert_eq!(groups, vec![group(1, 6, vec![0, 1, 2])]);
    assert_eq!(largest_group_size(&groups), 3);
}

#[test]
fn side_index_is_the_order_of_joining() {
    let groups = group_multiline(&vec![ann(0, 10, 12), ann(1, 1, 4), ann(2, 11, 13), ann(3, 2, 3)]);
    assert_eq!(
        groups,
        vec![group(10, 13, vec![0, 2]), group(1, 4, vec![1, 3])]
    );
}
