use goban::{Goban, GobanError, Operation, Stone, StoneColor};

fn stones_set(g: &Goban) -> Vec<(u8, u8, StoneColor)> {
    let mut v: Vec<(u8, u8, StoneColor)> = g.stones().iter().map(|s| (s.x, s.y, s.color)).collect();
    v.sort();
    v
}

#[test]
fn new_board_is_empty() {
    let g = Goban::new((9, 9));
    assert_eq!(g.size(), (9, 9));
    assert_eq!(g.move_number(), 0);
    assert_eq!(g.black_captures(), 0);
    assert_eq!(g.white_captures(), 0);
    assert!(g.stones().is_empty());
    assert_eq!(g.occupant((4, 4)), None);
}

#[test]
fn add_stone_places_without_counter() {
    let mut g = Goban::new((9, 9));
    g.add_stone(Stone::new(2, 3, StoneColor::Black)).unwrap();
    assert_eq!(g.occupant((2, 3)), Some(StoneColor::Black));
    assert_eq!(g.move_number(), 0);
    assert_eq!(g.black_captures(), 0);
    assert_eq!(g.white_captures(), 0);
}

#[test]
fn add_stone_rejects_occupied_point() {
    let mut g = Goban::new((9, 9));
    g.add_stone(Stone::new(2, 3, StoneColor::Black)).unwrap();
    let r = g.add_stone(Stone::new(2, 3, StoneColor::White));
    assert_eq!(r, Err(GobanError::InvalidMoveError));
    assert_eq!(g.occupant((2, 3)), Some(StoneColor::Black));
}

#[test]
fn bounds_rejection_leaves_board_unchanged() {
    let mut g = Goban::new((9, 9));
    g.add_stone(Stone::new(1, 1, StoneColor::White)).unwrap();
    let before = stones_set(&g);
    // (width, y), (x, height), and anything beyond must all fail.
    assert_eq!(
        g.play_stone(Stone::new(9, 4, StoneColor::Black)),
        Err(GobanError::InvalidMoveError)
    );
    assert_eq!(
        g.play_stone(Stone::new(4, 9, StoneColor::Black)),
        Err(GobanError::InvalidMoveError)
    );
    assert_eq!(
        g.add_stone(Stone::new(200, 0, StoneColor::Black)),
        Err(GobanError::InvalidMoveError)
    );
    assert_eq!(stones_set(&g), before);
    assert_eq!(g.move_number(), 0);
    assert_eq!(g.black_captures(), 0);
    assert_eq!(g.white_captures(), 0);
}

#[test]
fn clear_point_removes_and_is_total() {
    let mut g = Goban::new((9, 9));
    g.add_stone(Stone::new(2, 3, StoneColor::Black)).unwrap();
    g.clear_point((2, 3));
    assert_eq!(g.occupant((2, 3)), None);
    // Clearing an empty or off-board point never fails and changes nothing.
    let before = stones_set(&g);
    g.clear_point((2, 3));
    g.clear_point((100, 100));
    assert_eq!(stones_set(&g), before);
    assert_eq!(g.move_number(), 0);
    assert_eq!(g.black_captures(), 0);
    assert_eq!(g.white_captures(), 0);
}

#[test]
fn set_move_number_overwrites_counter_only() {
    let mut g = Goban::new((9, 9));
    g.add_stone(Stone::new(0, 0, StoneColor::Black)).unwrap();
    g.set_move_number(41);
    assert_eq!(g.move_number(), 41);
    assert_eq!(g.occupant((0, 0)), Some(StoneColor::Black));
    assert_eq!(g.black_captures(), 0);
}

#[test]
fn counter_independence() {
    let mut g = Goban::new((9, 9));
    g.add_stone(Stone::new(0, 0, StoneColor::Black)).unwrap();
    g.add_stone(Stone::new(8, 8, StoneColor::White)).unwrap();
    assert_eq!(g.move_number(), 0);
    g.play_stone(Stone::new(4, 4, StoneColor::Black)).unwrap();
    assert_eq!(g.move_number(), 1);
    g.play_stone(Stone::new(5, 5, StoneColor::White)).unwrap();
    assert_eq!(g.move_number(), 2);
    g.add_stone(Stone::new(7, 7, StoneColor::Black)).unwrap();
    assert_eq!(g.move_number(), 2);
}

#[test]
fn single_stone_capture() {
    let mut g = Goban::new((9, 9));
    // White in the corner with one liberty left.
    g.add_stone(Stone::new(0, 0, StoneColor::White)).unwrap();
    g.add_stone(Stone::new(1, 0, StoneColor::Black)).unwrap();
    g.play_stone(Stone::new(0, 1, StoneColor::Black)).unwrap();
    assert_eq!(g.occupant((0, 0)), None);
    assert_eq!(g.occupant((0, 1)), Some(StoneColor::Black));
    assert_eq!(g.white_captures(), 1);
    assert_eq!(g.black_captures(), 0);
}

#[test]
fn group_capture_counts_all_stones() {
    let mut g = Goban::new((9, 9));
    // A White pair surrounded but for one liberty.
    g.add_stone(Stone::new(4, 4, StoneColor::White)).unwrap();
    g.add_stone(Stone::new(5, 4, StoneColor::White)).unwrap();
    for p in [(3, 4), (4, 3), (5, 3), (4, 5), (5, 5)] {
        g.add_stone(Stone::new(p.0, p.1, StoneColor::Black)).unwrap();
    }
    g.play_stone(Stone::new(6, 4, StoneColor::Black)).unwrap();
    assert_eq!(g.occupant((4, 4)), None);
    assert_eq!(g.occupant((5, 4)), None);
    assert_eq!(g.occupant((6, 4)), Some(StoneColor::Black));
    assert_eq!(g.white_captures(), 2);
    assert_eq!(g.black_captures(), 0);
    assert_eq!(g.move_number(), 1);
}

#[test]
fn self_capture_ordering_opponent_first() {
    let mut g = Goban::new((9, 9));
    // Playing Black at (0, 1) has no liberty of its own, but it takes the
    // last liberty of White (0, 0): White dies first and Black survives.
    g.add_stone(Stone::new(0, 0, StoneColor::White)).unwrap();
    g.add_stone(Stone::new(1, 0, StoneColor::Black)).unwrap();
    g.add_stone(Stone::new(1, 1, StoneColor::White)).unwrap();
    g.add_stone(Stone::new(0, 2, StoneColor::White)).unwrap();
    g.play_stone(Stone::new(0, 1, StoneColor::Black)).unwrap();
    assert_eq!(g.occupant((0, 0)), None);
    assert_eq!(g.occupant((0, 1)), Some(StoneColor::Black));
    assert_eq!(g.white_captures(), 1);
    assert_eq!(g.black_captures(), 0);
}

#[test]
fn true_suicide_removes_played_stone() {
    let mut g = Goban::new((9, 9));
    // White stones surround (4, 4); Black playing there frees nothing.
    for p in [(3, 4), (5, 4), (4, 3), (4, 5)] {
        g.add_stone(Stone::new(p.0, p.1, StoneColor::White)).unwrap();
    }
    let r = g.play_stone(Stone::new(4, 4, StoneColor::Black));
    assert!(r.is_ok());
    assert_eq!(g.occupant((4, 4)), None);
    assert_eq!(g.black_captures(), 1);
    assert_eq!(g.white_captures(), 0);
    assert_eq!(g.move_number(), 1);
    for p in [(3, 4), (5, 4), (4, 3), (4, 5)] {
        assert_eq!(g.occupant(p), Some(StoneColor::White));
    }
}

#[test]
fn multi_stone_suicide_counts_group() {
    let mut g = Goban::new((9, 9));
    // Black (0, 0) already on the board; Black (1, 0) connects to it inside
    // a dead White shell: both Black stones are removed.
    g.add_stone(Stone::new(0, 0, StoneColor::Black)).unwrap();
    for p in [(0, 1), (1, 1), (2, 0)] {
        g.add_stone(Stone::new(p.0, p.1, StoneColor::White)).unwrap();
    }
    g.play_stone(Stone::new(1, 0, StoneColor::Black)).unwrap();
    assert_eq!(g.occupant((0, 0)), None);
    assert_eq!(g.occupant((1, 0)), None);
    assert_eq!(g.black_captures(), 2);
    assert_eq!(g.white_captures(), 0);
}

#[test]
fn stones_lists_each_occupied_point_once() {
    let mut g = Goban::new((9, 9));
    g.add_stone(Stone::new(0, 0, StoneColor::Black)).unwrap();
    g.add_stone(Stone::new(8, 8, StoneColor::White)).unwrap();
    g.add_stone(Stone::new(3, 5, StoneColor::Black)).unwrap();
    assert_eq!(
        stones_set(&g),
        vec![
            (0, 0, StoneColor::Black),
            (3, 5, StoneColor::Black),
            (8, 8, StoneColor::White),
        ]
    );
}

#[test]
fn hoshi_points_for_thirteen() {
    let g = Goban::new((13, 13));
    let mut pts = g.hoshi_points();
    pts.sort();
    assert_eq!(pts, vec![(3, 3), (3, 9), (6, 6), (9, 3), (9, 9)]);
}

#[test]
fn hoshi_points_for_other_sizes() {
    let g9 = Goban::new((9, 9));
    let mut p9 = g9.hoshi_points();
    p9.sort();
    assert_eq!(p9, vec![(2, 2), (2, 6), (6, 2), (6, 6)]);
    let g19 = Goban::new((19, 19));
    assert_eq!(g19.hoshi_points().len(), 9);
    assert!(g19.hoshi_points().contains(&(9, 9)));
    let g10 = Goban::new((10, 10));
    assert!(g10.hoshi_points().is_empty());
    let g0 = Goban::new((0, 0));
    assert!(g0.hoshi_points().is_empty());
}

#[test]
fn is_tt_pass_convention() {
    let small = Goban::new((9, 9));
    assert!(small.is_tt_pass(19, 19));
    assert!(!small.is_tt_pass(18, 19));
    let nineteen = Goban::new((19, 19));
    assert!(nineteen.is_tt_pass(19, 19));
    let big = Goban::new((21, 21));
    assert!(!big.is_tt_pass(19, 19));
}

#[test]
fn apply_dispatches_operations() {
    let mut g = Goban::new((9, 9));
    g.apply(Operation::Setup(Stone::new(0, 0, StoneColor::White)))
        .unwrap();
    assert_eq!(g.move_number(), 0);
    g.apply(Operation::Play(Stone::new(1, 0, StoneColor::Black)))
        .unwrap();
    assert_eq!(g.move_number(), 1);
    g.apply(Operation::SetMoveNumber(7)).unwrap();
    assert_eq!(g.move_number(), 7);
    g.apply(Operation::Clear((0, 0))).unwrap();
    assert_eq!(g.occupant((0, 0)), None);
    let r = g.apply(Operation::Play(Stone::new(1, 0, StoneColor::White)));
    assert_eq!(r, Err(GobanError::InvalidMoveError));
}

#[test]
fn zero_sized_board_rejects_everything() {
    let mut g = Goban::new((0, 0));
    assert_eq!(
        g.play_stone(Stone::new(0, 0, StoneColor::Black)),
        Err(GobanError::InvalidMoveError)
    );
    assert!(g.stones().is_empty());
}

#[test]
fn capture_on_board_edge_wall() {
    let mut g = Goban::new((5, 5));
    // A White wall along the top edge dies as one group of three.
    for x in [1, 2, 3] {
        g.add_stone(Stone::new(x, 0, StoneColor::White)).unwrap();
    }
    for p in [(0, 0), (1, 1), (2, 1), (3, 1)] {
        g.add_stone(Stone::new(p.0, p.1, StoneColor::Black)).unwrap();
    }
    g.play_stone(Stone::new(4, 0, StoneColor::Black)).unwrap();
    assert_eq!(g.white_captures(), 3);
    for x in [1, 2, 3] {
        assert_eq!(g.occupant((x, 0)), None);
    }
    assert_eq!(g.occupant((4, 0)), Some(StoneColor::Black));
}
