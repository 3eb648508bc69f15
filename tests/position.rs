use mineraker::position::Position;

#[test]
fn index_round_trip() {
    let p = Position::new(3, 2);
    assert_eq!(p.to_index(8), 19);
    assert_eq!(Position::from_index(19, 8), p);
    assert_eq!(Position::from_index(7, 8), Position::new(7, 0));
    assert_eq!(Position::from_index(8, 8), Position::new(0, 1));
}

#[test]
fn from_pair_and_default() {
    assert_eq!(Position::from((1, 2)), Position::new(1, 2));
    assert_eq!(Position::default(), Position::new(0, 0));
}

#[test]
fn neighbors_against_lower_bound() {
    let neighbors = Position::new(1, 0).neighbors(8, 8);
    assert_eq!(
        neighbors,
        vec![
            Position::new(0, 0),
            Position::new(2, 0),
            Position::new(0, 1),
            Position::new(1, 1),
            Position::new(2, 1),
        ]
    );
}

#[test]
fn neighbors_inside_are_all_eight_in_row_major_order() {
    let neighbors = Position::new(1, 1).neighbors(3, 3);
    assert_eq!(
        neighbors,
        vec![
            Position::new(0, 0),
            Position::new(1, 0),
            Position::new(2, 0),
            Position::new(0, 1),
            Position::new(2, 1),
            Position::new(0, 2),
            Position::new(1, 2),
            Position::new(2, 2),
        ]
    );
}

#[test]
fn neighbors_at_upper_corner_and_outside() {
    assert_eq!(
        Position::new(2, 2).neighbors(3, 3),
        vec![Position::new(1, 1), Position::new(2, 1), Position::new(1, 2)]
    );
    assert_eq!(Position::new(0, 0).neighbors(1, 1), Vec::<Position>::new());
    assert_eq!(
        Position::new(3, 0).neighbors(3, 1),
        vec![Position::new(2, 0)]
    );
    assert_eq!(
        Position::new(usize::MAX, usize::MAX).neighbors(usize::MAX, usize::MAX),
        vec![Position::new(usize::MAX - 1, usize::MAX - 1)]
    );
}
