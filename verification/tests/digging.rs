use advent2023::days::day18::{adjacent, move_from, to_vertices};

#[test]
fn to_vertices_walks_a_square() {
    let moves = vec![('R', 6), ('D', 5), ('L', 6), ('U', 5)];
    assert_eq!(to_vertices(&moves), Some(vec![(0, 0), (0, 6), (5, 6), (5, 0), (0, 0)]));
    assert_eq!(to_vertices(&vec![]), Some(vec![(0, 0)]));
}

#[test]
fn to_vertices_refuses_open_or_unknown_plans() {
    assert_eq!(to_vertices(&vec![('R', 6), ('D', 5), ('L', 6)]), None);
    assert_eq!(to_vertices(&vec![('R', 6), ('X', 5), ('L', 6)]), None);
    assert_eq!(to_vertices(&vec![('R', isize::MAX), ('R', 1), ('L', 1), ('L', isize::MAX)]), None);
    assert_eq!(to_vertices(&vec![('U', 3), ('D', 3)]), Some(vec![(0, 0), (-3, 0), (0, 0)]));
}

#[test]
fn move_from_follows_the_four_letters() {
    assert_eq!(move_from((1, 1), 'R', 4), Some((1, 5)));
    assert_eq!(move_from((1, 1), 'L', 4), Some((1, -3)));
    assert_eq!(move_from((1, 1), 'D', 4), Some((5, 1)));
    assert_eq!(move_from((1, 1), 'U', 4), Some((-3, 1)));
    assert_eq!(move_from((1, 1), 'r', 4), None);
    assert_eq!(move_from((isize::MIN, 0), 'U', 1), None);
}

#[test]
fn adjacent_lists_right_left_down_up() {
    assert_eq!(adjacent((0, 0)), vec![(0, 1), (0, -1), (1, 0), (-1, 0)]);
}
