use vstd::prelude::*;
use crate::board::{lemma_any_legal_iff_moves, lemma_legal_moves_sound, lemma_occupied_at_most_64, Board};
use crate::point::{in_bounds, Point, StateColor};

verus! {

/// What the game asks for next.
#[derive(Debug, Clone, Copy, PartialEq, Eq, Structural)]
pub enum Phase {
    /// Neither color can move: the game has ended.
    GameOver,
    /// The given color had no legal move; the turn went to the other color.
    Passed(StateColor),
    /// The given color is to move and has a legal move.
    AwaitingMove(StateColor),
}

/// A two-player game: the board and the color to move.
pub struct Game {
    pub board: Board,
    pub turn: StateColor,
}

impl Game {
    /// A new game; black moves first.
    pub fn new() -> (r: Self)
        ensures
            r.turn == StateColor::Black,
            forall|q: (int, int)| in_bounds(q) ==> #[trigger] r.board.cell(q) == Board::initial_cell(q),
            r.board.occupied() == 4,
    {
        Game { board: Board::new(), turn: StateColor::Black }
    }

    /// Decides what happens next: the game ends where neither color can
    /// move; a color without a legal move passes; otherwise the color to move
    /// is asked for a move.
    pub fn advance(&mut self) -> (r: Phase)
        ensures
            final(self).board == old(self).board,
            old(self).board.game_over() ==> r == Phase::GameOver && final(self).turn == old(
                self,
            ).turn,
            !old(self).board.game_over() && !old(self).board.any_legal(old(self).turn) ==> r
                == Phase::Passed(old(self).turn) && final(self).turn == old(self).turn.opposite(),
            !old(self).board.game_over() && old(self).board.any_legal(old(self).turn) ==> r
                == Phase::AwaitingMove(old(self).turn) && final(self).turn == old(self).turn,
    {
        if self.board.check_end() {
            return Phase::GameOver;
        }
        let turn = self.turn;
        if !self.board.check_valid_put_all(turn) {
            self.turn = turn.another();
            return Phase::Passed(turn);
        }
        Phase::AwaitingMove(turn)
    }

    /// The color to move plays on `point`; where that is a legal move the
    /// turn goes to the other color, otherwise nothing changes.
    pub fn play(&mut self, point: Point) -> (r: bool)
        requires
            point.valid(),
        ensures
            r == old(self).board.legal(point.pos(), old(self).turn),
            !r ==> *final(self) == *old(self),
            r ==> final(self).turn == old(self).turn.opposite(),
            forall|q: (int, int)|
                in_bounds(q) ==> #[trigger] final(self).board.cell(q) == old(self).board.after_put(
                    point.pos(),
                    old(self).turn,
                    q,
                ),
            r ==> final(self).board.occupied() == old(self).board.occupied() + 1,
    {
        let turn = self.turn;
        let ok = self.board.put(point, turn);
        if ok {
            self.turn = turn.another();
        }
        ok
    }
}

/// `b` is the board a game starts with.
pub open spec fn is_initial(b: Board) -> bool {
    forall|q: (int, int)| in_bounds(q) ==> #[trigger] b.cell(q) == Board::initial_cell(q)
}

/// `after` is `before` once `c` has played on `p` (unchanged where that is
/// not a legal move).
pub open spec fn placed(before: Board, p: (int, int), c: StateColor, after: Board) -> bool {
    forall|q: (int, int)| in_bounds(q) ==> #[trigger] after.cell(q) == before.after_put(p, c, q)
}

/// `(b, t)` is reached from a new game by playing the squares of `moves`
/// in order, the colors taking turns from black, each move applied whether
/// or not it was legal.
pub open spec fn replayed(moves: Seq<(int, int)>, b: Board, t: StateColor) -> bool
    decreases moves.len(),
{
    if moves.len() == 0 {
        is_initial(b) && t == StateColor::Black
    } else {
        exists|b0: Board|
            replayed(moves.drop_last(), b0, t.opposite()) && #[trigger] placed(
                b0,
                moves.last(),
                t.opposite(),
                b,
            )
    }
}

/// `(b, t)` is reached from a new game in `moves` placements and `passes`
/// passes: each placement a legal move of the color to move, each pass made
/// by a color without a legal move while the other has one.
pub open spec fn reachable(b: Board, t: StateColor, moves: nat, passes: nat) -> bool
    decreases moves + passes,
{
    if moves == 0 && passes == 0 {
        is_initial(b) && t == StateColor::Black
    } else {
        (passes > 0 && !b.game_over() && !b.any_legal(t.opposite()) && reachable(
            b,
            t.opposite(),
            moves,
            (passes - 1) as nat,
        )) || (moves > 0 && exists|b0: Board, p: (int, int)|
            reachable(b0, t.opposite(), (moves - 1) as nat, passes) && in_bounds(p)
                && b0.cell(p) is None && b0.legal(p, t.opposite()) && #[trigger] placed(
                b0,
                p,
                t.opposite(),
                b,
            ))
    }
}

/// A game driven by a list of moves or by random choices.
pub struct TestGame {
    pub board: Board,
    pub turn: StateColor,
}

/// Relies on rand's `thread_rng` and `SliceRandom::choose`, which returns one
/// element of a non-empty slice.
#[verifier::external_body]
fn choose_point(points: &Vec<Point>) -> (r: Point)
    requires
        points.len() > 0,
    ensures
        points@.contains(r),
{
    *rand::seq::SliceRandom::choose(points.as_slice(), &mut rand::thread_rng()).unwrap()
}

impl TestGame {
    /// A new game; black moves first.
    pub fn new() -> (r: Self)
        ensures
            r.turn == StateColor::Black,
            forall|q: (int, int)| in_bounds(q) ==> #[trigger] r.board.cell(q) == Board::initial_cell(q),
            r.board.occupied() == 4,
    {
        TestGame { board: Board::new(), turn: StateColor::Black }
    }

    /// Plays the moves in order, the colors taking turns from black whether
    /// or not a move was legal; returns the game reached.
    pub fn put_in_points(points: Vec<Point>) -> (r: TestGame)
        requires
            forall|k: int| 0 <= k < points.len() ==> (#[trigger] points@[k]).valid(),
        ensures
            replayed(points@.map_values(|q: Point| q.pos()), r.board, r.turn),
            r.turn == if points.len() % 2 == 0 {
                StateColor::Black
            } else {
                StateColor::White
            },
            4 <= r.board.occupied() <= 4 + points.len(),
    {
        let ghost moves = points@.map_values(|q: Point| q.pos());
        let mut game = TestGame::new();
        let mut i: usize = 0;
        while i < points.len()
            invariant
                i <= points.len(),
                moves == points@.map_values(|q: Point| q.pos()),
                forall|k: int| 0 <= k < points.len() ==> (#[trigger] points@[k]).valid(),
                replayed(moves.take(i as int), game.board, game.turn),
                game.turn == if i % 2 == 0 {
                    StateColor::Black
                } else {
                    StateColor::White
                },
                4 <= game.board.occupied() <= 4 + i,
            decreases points.len() - i,
        {
            let point = points[i];
            let ghost before = game.board;
            game.board.put(point, game.turn);
            game.turn = game.turn.another();
            proof {
                let m = moves.take(i + 1);
                assert(m.drop_last() =~= moves.take(i as int));
                assert(m.last() == point.pos());
                assert(placed(before, m.last(), game.turn.opposite(), game.board));
                assert(game.turn.opposite().opposite() == game.turn);
            }
            i = i + 1;
        }
        proof {
            assert(moves.take(points.len() as int) =~= moves);
        }
        game
    }

    /// Plays a whole game, each move drawn at random among the legal moves,
    /// a color without a move passing; returns the final game and the number
    /// of stones placed. Every move made is legal, and the game always ends,
    /// after at most 60 moves.
    pub fn random() -> (r: (TestGame, usize))
        ensures
            exists|passes: nat| #[trigger] reachable(r.0.board, r.0.turn, r.1 as nat, passes),
            r.0.board.game_over(),
            r.0.board.occupied() == 4 + r.1,
            r.1 <= 60,
    {
        let mut game = TestGame::new();
        let mut placed_count: usize = 0;
        let ghost mut passes: nat = 0;
        loop
            invariant
                reachable(game.board, game.turn, placed_count as nat, passes),
                game.board.occupied() == 4 + placed_count,
                game.board.occupied() <= 64,
            ensures
                reachable(game.board, game.turn, placed_count as nat, passes),
                game.board.game_over(),
                game.board.occupied() == 4 + placed_count,
                game.board.occupied() <= 64,
            decreases 64 - game.board.occupied(), if game.board.any_legal(game.turn) {
                0int
            } else {
                1int
            },
        {
            if game.board.check_end() {
                break;
            }
            if !game.board.check_valid_put_all(game.turn) {
                proof {
                    assert(game.board.any_legal(game.turn.opposite())) by {
                        match game.turn {
                            StateColor::Black => {},
                            StateColor::White => {},
                        }
                    }
                }
                let ghost before = game.turn;
                game.turn = game.turn.another();
                proof {
                    passes = passes + 1;
                    assert(game.turn.opposite() == before);
                }
                continue;
            }
            let points = game.board.can_put_points(game.turn);
            proof {
                lemma_any_legal_iff_moves(game.board, game.turn);
                lemma_legal_moves_sound(game.board, game.turn);
                assert(points@.map_values(|q: Point| q.pos()).len() == points.len());
            }
            let point = choose_point(&points);
            proof {
                let k = choose|k: int| 0 <= k < points.len() && points@[k] == point;
                assert(points@.map_values(|q: Point| q.pos())[k] == point.pos());
            }
            let ghost before = game.board;
            let ghost mover = game.turn;
            if game.board.put(point, game.turn) {
                game.turn = game.turn.another();
                placed_count = placed_count + 1;
                proof {
                    assert(game.turn.opposite() == mover);
                    assert(placed(before, point.pos(), mover, game.board));
                    assert(reachable(before, mover, (placed_count - 1) as nat, passes));
                }
            }
            proof {
                lemma_occupied_at_most_64(game.board);
            }
        }
        let r = (game, placed_count);
        proof {
            assert(reachable(r.0.board, r.0.turn, r.1 as nat, passes));
        }
        r
    }
}

} // verus!
