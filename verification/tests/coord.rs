use iomrascalai::board::Coord;

fn has(n: &Vec<Coord>, col: u8, row: u8) -> bool {
    n.iter().any(|c| c.col == col && c.row == row)
}

#[test]
fn test_test_neighbours_contain_n_s_e_w() {
    let n = Coord::new(10, 10).neighbours(19);
    assert!(has(&n, 10, 9));
    assert!(has(&n, 9, 10));
    assert!(has(&n, 10, 11));
    assert!(has(&n, 11, 10));
}

#[test]
fn test_test_neighbours_do_not_contain_diagonals() {
    let n = Coord::new(10, 10).neighbours(19);
    assert!(!has(&n, 11, 11));
    assert!(!has(&n, 9, 11));
    assert!(!has(&n, 11, 9));
    assert!(!has(&n, 9, 9));
}

#[test]
fn test_test_neighbours_do_not_contain_itself() {
    let n = Coord::new(10, 10).neighbours(19);
    assert!(!has(&n, 10, 10));
}

#[test]
fn test_is_inside_valid_coords_pass() {
    assert!(Coord::new(1, 1).is_inside(19));
    assert!(Coord::new(19, 19).is_inside(19));
    assert!(Coord::new(10, 10).is_inside(19));
}

#[test]
fn test_is_inside_0_0_fails() {
    assert!(!Coord::new(0, 0).is_inside(19));
}

#[test]
fn test_is_inside_invalid_coords_fail() {
    assert!(!Coord::new(4, 21).is_inside(19));
    assert!(!Coord::new(21, 4).is_inside(19));
    assert!(!Coord::new(18, 18).is_inside(9));
}

#[test]
fn test_from_gtp_converts_correctly() {
    assert_eq!(Coord::new(10, 10), Coord::from_gtp("K10"));
    assert_eq!(Coord::new(10, 10), Coord::from_gtp("k10"));
    assert_eq!(Coord::new(16, 15), Coord::from_gtp("Q15"));
    assert_eq!(Coord::new(1, 1), Coord::from_gtp("A1"));
    assert_eq!(Coord::new(19, 19), Coord::from_gtp("T19"));
    assert_eq!(Coord::new(9, 10), Coord::from_gtp("J10"));
    assert_eq!(Coord::new(8, 10), Coord::from_gtp("H10"));
}

#[test]
fn test_to_gtp_converts_correctly() {
    assert_eq!(Coord::new(10, 10).to_gtp(), String::from("K10"));
    assert_eq!(Coord::new(16, 15).to_gtp(), String::from("Q15"));
    assert_eq!(Coord::new(1, 1).to_gtp(), String::from("A1"));
    assert_eq!(Coord::new(19, 19).to_gtp(), String::from("T19"));
    assert_eq!(Coord::new(9, 10).to_gtp(), String::from("J10"));
    assert_eq!(Coord::new(8, 10).to_gtp(), String::from("H10"));
}

#[test]
fn for_board_size_returns_the_right_number_of_coords() {
    let coords = Coord::for_board_size(3);
    assert_eq!(9, coords.len());
}

#[test]
fn for_board_size_sets_the_coordinates_correctly() {
    let coords = Coord::for_board_size(1);
    assert_eq!(coords[0], Coord::new(1, 1));
}

#[test]
fn distance_to_border() {
    let size = 9;
    assert_eq!(0, Coord::new(1, 5).distance_to_border(size));
    assert_eq!(0, Coord::new(5, 1).distance_to_border(size));
    assert_eq!(0, Coord::new(9, 5).distance_to_border(size));
    assert_eq!(0, Coord::new(5, 9).distance_to_border(size));
    assert_eq!(1, Coord::new(2, 5).distance_to_border(size));
    assert_eq!(1, Coord::new(8, 6).distance_to_border(size));
}

#[test]
fn manhattan_distance_three_neighbours_middle_of_board() {
    let coord = Coord::new(5, 5);
    let size = 9;
    assert_eq!(24, coord.manhattan_distance_three_neighbours(size).len());
}

#[test]
fn manhattan_distance_three_neighbours_in_a_corner() {
    let coord = Coord::new(1, 1);
    let size = 9;
    assert_eq!(9, coord.manhattan_distance_three_neighbours(size).len());
}

#[test]
fn coord_test_test_neighbours_contain_n_s_e_w() {
    let n = Coord::new(10, 10).neighbours(19);
    assert!(has(&n, 10, 9));
    assert!(has(&n, 9, 10));
    assert!(has(&n, 10, 11));
    assert!(has(&n, 11, 10));
}

#[test]
fn coord_test_test_neighbours_do_not_contain_diagonals() {
    let n = Coord::new(10, 10).neighbours(19);
    assert!(!has(&n, 11, 11));
    assert!(!has(&n, 9, 11));
    assert!(!has(&n, 11, 9));
    assert!(!has(&n, 9, 9));
}

#[test]
fn coord_test_test_neighbours_do_not_contain_itself() {
    let n = Coord::new(10, 10).neighbours(19);
    assert!(!has(&n, 10, 10));
}

#[test]
fn coord_test_is_inside_valid_coords_pass() {
    assert!(Coord::new(1, 1).is_inside(19));
    assert!(Coord::new(19, 19).is_inside(19));
    assert!(Coord::new(10, 10).is_inside(19));
}

#[test]
fn coord_test_is_inside_0_0_fails() {
    assert!(!Coord::new(0, 0).is_inside(19));
}

#[test]
fn coord_test_is_inside_invalid_coords_fail() {
    assert!(!Coord::new(4, 21).is_inside(19));
    assert!(!Coord::new(21, 4).is_inside(19));
    assert!(!Coord::new(18, 18).is_inside(9));
}

#[test]
fn coord_test_from_gtp_converts_correctly() {
    assert_eq!(Coord::new(10, 10), Coord::from_gtp("K10"));
    assert_eq!(Coord::new(10, 10), Coord::from_gtp("k10"));
    assert_eq!(Coord::new(16, 15), Coord::from_gtp("Q15"));
    assert_eq!(Coord::new(1, 1), Coord::from_gtp("A1"));
    assert_eq!(Coord::new(19, 19), Coord::from_gtp("T19"));
    assert_eq!(Coord::new(9, 10), Coord::from_gtp("J10"));
    assert_eq!(Coord::new(8, 10), Coord::from_gtp("H10"));
}

#[test]
fn coord_test_to_gtp_converts_correctly() {
    assert_eq!(Coord::new(10, 10).to_gtp(), String::from("K10"));
    assert_eq!(Coord::new(16, 15).to_gtp(), String::from("Q15"));
    assert_eq!(Coord::new(1, 1).to_gtp(), String::from("A1"));
    assert_eq!(Coord::new(19, 19).to_gtp(), String::from("T19"));
    assert_eq!(Coord::new(9, 10).to_gtp(), String::from("J10"));
    assert_eq!(Coord::new(8, 10).to_gtp(), String::from("H10"));
}

#[test]
fn index_and_point_correspond() {
    let c = Coord::new(3, 2);
    assert_eq!(c.to_index(9), 11);
    assert_eq!(Coord::from_index(11, 9), c);
}

#[test]
fn diagonals_in_a_corner() {
    let d = Coord::new(1, 1).diagonals(9);
    assert_eq!(d, vec![Coord::new(2, 2)]);
}

#[test]
fn gtp_text_reads_back() {
    for col in 1..=25u8 {
        let c = Coord::new(col, 7);
        assert_eq!(Coord::from_gtp(&c.to_gtp()), c);
    }
}
