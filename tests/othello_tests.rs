use othello::board::Board;
use othello::game::{Game, Phase, TestGame};
use othello::point::{Direction, Point, StateColor};

fn count_stones(b: &Board) -> usize {
    let mut n = 0;
    for x in 0..8 {
        for y in 0..8 {
            if b.get(Point { x, y }).is_some() {
                n += 1;
            }
        }
    }
    n
}

#[test]
fn random_tests() {
    for _ in 0..1000 {
        let (game, placed) = TestGame::random();
        assert!(game.board.check_end());
        assert!(placed <= 60);
        assert_eq!(count_stones(&game.board), 4 + placed);
    }
}

#[test]
fn put_in_points() {
    let points = vec![
        Point { x: 3, y: 2 },
        Point { x: 2, y: 4 },
        Point { x: 1, y: 5 },
        Point { x: 3, y: 1 },
        Point { x: 2, y: 3 },
        Point { x: 2, y: 2 },
        Point { x: 2, y: 1 },
        Point { x: 1, y: 4 },
        Point { x: 1, y: 3 },
        Point { x: 1, y: 1 },
        Point { x: 1, y: 0 },
        Point { x: 0, y: 6 },
        Point { x: 4, y: 0 },
        Point { x: 4, y: 1 },
        Point { x: 2, y: 5 },
        Point { x: 0, y: 3 },
        Point { x: 0, y: 0 },
        Point { x: 5, y: 3 },
        Point { x: 0, y: 5 },
        Point { x: 3, y: 5 },
        Point { x: 0, y: 4 },
        Point { x: 1, y: 6 },
        Point { x: 3, y: 6 },
        Point { x: 4, y: 2 },
        Point { x: 0, y: 2 },
        Point { x: 3, y: 7 },
        Point { x: 5, y: 1 },
        Point { x: 2, y: 6 },
        Point { x: 6, y: 3 },
        Point { x: 3, y: 0 },
        Point { x: 1, y: 7 },
        Point { x: 5, y: 4 },
        Point { x: 4, y: 7 },
        Point { x: 5, y: 7 },
        Point { x: 4, y: 5 },
        Point { x: 0, y: 1 },
        Point { x: 2, y: 0 },
        Point { x: 2, y: 7 },
        Point { x: 1, y: 2 },
        Point { x: 7, y: 2 },
        Point { x: 7, y: 3 },
        Point { x: 6, y: 2 },
        Point { x: 5, y: 5 },
        Point { x: 6, y: 4 },
        Point { x: 6, y: 7 },
        Point { x: 5, y: 2 },
        Point { x: 7, y: 1 },
        Point { x: 6, y: 0 },
        Point { x: 5, y: 0 },
        Point { x: 6, y: 1 },
        Point { x: 7, y: 5 },
        Point { x: 7, y: 4 },
        Point { x: 0, y: 7 },
        Point { x: 4, y: 6 },
        Point { x: 6, y: 6 },
        Point { x: 7, y: 6 },
        Point { x: 5, y: 6 },
        Point { x: 7, y: 0 },
        Point { x: 6, y: 5 },
        Point { x: 7, y: 7 },
    ];
    TestGame::put_in_points(points);
}

#[test]
fn new_board_layout() {
    let b = Board::new();
    assert_eq!(b.get(Point { x: 3, y: 3 }), Some(StateColor::White));
    assert_eq!(b.get(Point { x: 4, y: 4 }), Some(StateColor::White));
    assert_eq!(b.get(Point { x: 3, y: 4 }), Some(StateColor::Black));
    assert_eq!(b.get(Point { x: 4, y: 3 }), Some(StateColor::Black));
    assert_eq!(count_stones(&b), 4);
}

#[test]
fn opening_move_flips_one() {
    let mut b = Board::new();
    let p = Point { x: 2, y: 3 };
    assert!(b.can_place(p, StateColor::Black));
    assert!(b.put(p, StateColor::Black));
    assert_eq!(b.get(Point { x: 2, y: 3 }), Some(StateColor::Black));
    assert_eq!(b.get(Point { x: 3, y: 3 }), Some(StateColor::Black));
    assert_eq!(b.get(Point { x: 3, y: 4 }), Some(StateColor::Black));
    assert_eq!(b.get(Point { x: 4, y: 4 }), Some(StateColor::White));
    assert_eq!(b.get(Point { x: 4, y: 3 }), Some(StateColor::Black));
    assert_eq!(count_stones(&b), 5);
}

#[test]
fn last_flippable_tile_is_last_opposite_stone() {
    let b = Board::new();
    let p = Point { x: 2, y: 3 };
    assert_eq!(
        b.get_last_flippable_tile_in_direction(p, StateColor::Black, &Direction::Up),
        Some(Point { x: 3, y: 3 })
    );
    assert_eq!(b.get_last_flippable_tile_in_direction(p, StateColor::Black, &Direction::Down), None);
    assert_eq!(b.get_last_flippable_tile_in_direction(p, StateColor::White, &Direction::Up), None);
    let occupied = Point { x: 3, y: 3 };
    assert_eq!(b.get_last_flippable_tile_in_direction(occupied, StateColor::Black, &Direction::Up), None);
}

#[test]
fn long_run_is_flipped_whole() {
    let mut b = Board([[None; 8]; 8]);
    b.0[0][0] = Some(StateColor::Black);
    for i in 1..6 {
        b.0[i][i] = Some(StateColor::White);
    }
    b.0[7][7] = Some(StateColor::White);
    let p = Point { x: 6, y: 6 };
    assert_eq!(
        b.get_last_flippable_tile_in_direction(p, StateColor::Black, &Direction::DownLeft),
        Some(Point { x: 1, y: 1 })
    );
    assert!(b.put(p, StateColor::Black));
    for i in 0..7 {
        assert_eq!(b.0[i][i], Some(StateColor::Black));
    }
    assert_eq!(b.0[7][7], Some(StateColor::White));
}

#[test]
fn run_reaching_edge_captures_nothing() {
    let mut b = Board([[None; 8]; 8]);
    b.0[0][1] = Some(StateColor::White);
    b.0[0][2] = Some(StateColor::White);
    let before = b.0;
    let p = Point { x: 0, y: 3 };
    assert!(!b.can_place(p, StateColor::Black));
    assert!(!b.put(p, StateColor::Black));
    assert_eq!(b.0, before);
}

#[test]
fn run_ending_on_empty_captures_nothing() {
    let mut b = Board([[None; 8]; 8]);
    b.0[0][1] = Some(StateColor::White);
    b.0[0][2] = Some(StateColor::White);
    let p = Point { x: 0, y: 3 };
    assert_eq!(b.get_last_flippable_tile_in_direction(p, StateColor::Black, &Direction::Left), None);
    assert!(!b.check_valid_put_all(StateColor::Black));
    assert!(b.check_end());
}

#[test]
fn two_directions_flip_together() {
    let mut b = Board([[None; 8]; 8]);
    b.0[2][2] = Some(StateColor::Black);
    b.0[3][2] = Some(StateColor::White);
    b.0[2][4] = Some(StateColor::Black);
    b.0[3][3] = Some(StateColor::White);
    b.0[5][2] = Some(StateColor::White);
    let p = Point { x: 4, y: 2 };
    assert!(b.put(p, StateColor::Black));
    assert_eq!(b.0[3][2], Some(StateColor::Black));
    assert_eq!(b.0[3][3], Some(StateColor::Black));
    assert_eq!(b.0[4][2], Some(StateColor::Black));
    assert_eq!(b.0[5][2], Some(StateColor::White));
    assert_eq!(count_stones(&b), 6);
}

#[test]
fn illegal_put_leaves_board() {
    let mut b = Board::new();
    let before = b.0;
    assert!(!b.put(Point { x: 0, y: 0 }, StateColor::Black));
    assert_eq!(b.0, before);
    assert!(!b.put(Point { x: 2, y: 4 }, StateColor::Black));
    assert_eq!(b.0, before);
}

#[test]
fn put_on_occupied_square_fails() {
    let mut b = Board::new();
    let before = b.0;
    for x in 3..5 {
        for y in 3..5 {
            assert!(!b.put(Point { x, y }, StateColor::Black));
            assert!(!b.put(Point { x, y }, StateColor::White));
        }
    }
    assert_eq!(b.0, before);
}

#[test]
fn legal_moves_on_new_board() {
    let b = Board::new();
    let moves = b.can_put_points(StateColor::Black);
    assert_eq!(
        moves,
        vec![
            Point { x: 2, y: 3 },
            Point { x: 3, y: 2 },
            Point { x: 4, y: 5 },
            Point { x: 5, y: 4 },
        ]
    );
    for p in &moves {
        assert!(b.get(*p).is_none());
        assert!(b.can_place(*p, StateColor::Black));
    }
    assert_eq!(b.can_put_points(StateColor::White).len(), 4);
    assert!(b.check_valid_put_all(StateColor::Black));
    assert!(b.check_valid_put_all(StateColor::White));
    assert!(!b.check_end());
}

#[test]
fn game_over_iff_no_color_moves() {
    let full = Board([[Some(StateColor::Black); 8]; 8]);
    assert!(full.check_end());
    let mut b = Board([[None; 8]; 8]);
    b.0[0][0] = Some(StateColor::Black);
    b.0[0][1] = Some(StateColor::White);
    assert!(b.check_valid_put_all(StateColor::Black));
    assert!(!b.check_valid_put_all(StateColor::White));
    assert!(!b.check_end());
}

#[test]
fn parse_notation() {
    assert_eq!(Point::from_input("c4"), Some(Point { x: 3, y: 2 }));
    assert_eq!(Point::from_input("z9"), None);
    assert_eq!(Point::from_input("a1"), Some(Point { x: 0, y: 0 }));
    assert_eq!(Point::from_input("h8\n"), Some(Point { x: 7, y: 7 }));
    assert_eq!(Point::from_input("a0"), None);
    assert_eq!(Point::from_input("a9"), None);
    assert_eq!(Point::from_input("i1"), None);
    assert_eq!(Point::from_input("c"), None);
    assert_eq!(Point::from_input(""), None);
}

#[test]
fn step_stays_on_board() {
    let corner = Point { x: 0, y: 0 };
    assert_eq!(Point::point_calc_in_direction(corner, &Direction::Down), None);
    assert_eq!(Point::point_calc_in_direction(corner, &Direction::Left), None);
    assert_eq!(Point::point_calc_in_direction(corner, &Direction::UpRight), Some(Point { x: 1, y: 1 }));
    let far = Point { x: 7, y: 7 };
    assert_eq!(Point::point_calc_in_direction(far, &Direction::Up), None);
    assert_eq!(Point::point_calc_in_direction(far, &Direction::Right), None);
    assert_eq!(Point::point_calc_in_direction(far, &Direction::DownLeft), Some(Point { x: 6, y: 6 }));
    assert_eq!(Point::point_calc_in_direction(Point { x: 3, y: 3 }, &Direction::UpLeft), Some(Point { x: 4, y: 2 }));
}

#[test]
fn colors_alternate() {
    assert_eq!(StateColor::Black.another(), StateColor::White);
    assert_eq!(StateColor::White.another(), StateColor::Black);
}

#[test]
fn game_turns_and_passes() {
    let mut game = Game::new();
    assert_eq!(game.advance(), Phase::AwaitingMove(StateColor::Black));
    assert!(!game.play(Point { x: 0, y: 0 }));
    assert_eq!(game.turn, StateColor::Black);
    assert!(game.play(Point { x: 2, y: 3 }));
    assert_eq!(game.turn, StateColor::White);

    let mut b = Board([[None; 8]; 8]);
    b.0[0][0] = Some(StateColor::Black);
    b.0[0][1] = Some(StateColor::White);
    let mut passing = Game { board: b, turn: StateColor::White };
    assert_eq!(passing.advance(), Phase::Passed(StateColor::White));
    assert_eq!(passing.turn, StateColor::Black);
    assert_eq!(passing.advance(), Phase::AwaitingMove(StateColor::Black));

    let mut over = Game { board: Board([[Some(StateColor::White); 8]; 8]), turn: StateColor::Black };
    assert_eq!(over.advance(), Phase::GameOver);
    assert_eq!(over.turn, StateColor::Black);
}
