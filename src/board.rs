use vstd::prelude::*;
use crate::point::{direction_at, in_bounds, ray, Direction, Point, State, StateColor};

verus! {

/// The 8x8 grid, indexed by row and then column.
#[derive(Debug, Clone, Copy)]
pub struct Board(pub [[State; 8]; 8]);

/// How many steps from `p` in direction `d` lead to `q`; only meaningful
/// where `q` lies on that ray.
pub open spec fn distance(p: (int, int), q: (int, int), d: Direction) -> int {
    match d {
        Direction::Up | Direction::UpLeft | Direction::UpRight => q.0 - p.0,
        Direction::Down | Direction::DownLeft | Direction::DownRight => p.0 - q.0,
        Direction::Left => p.1 - q.1,
        Direction::Right => q.1 - p.1,
    }
}

/// `q` is reached from `p` by zero or more steps in direction `d`.
pub open spec fn on_ray(p: (int, int), q: (int, int), d: Direction) -> bool {
    distance(p, q, d) >= 0 && ray(p.0, p.1, d, distance(p, q, d)) == q
}

impl Board {
    pub open spec fn cell(self, q: (int, int)) -> State {
        self.0[q.0][q.1]
    }

    /// Number of consecutive opposite-colored stones met from step `i` on,
    /// going from `p` in direction `d`, for a stone of color `c`.
    pub open spec fn run_len(self, p: (int, int), c: StateColor, d: Direction, i: int) -> nat
        decreases 8 - i,
    {
        if 1 <= i < 8 && in_bounds(ray(p.0, p.1, d, i)) && self.cell(ray(p.0, p.1, d, i)) == Some(
            c.opposite(),
        ) {
            1 + self.run_len(p, c, d, i + 1)
        } else {
            0
        }
    }

    /// How many stones a stone of color `c` placed on `p` turns over in
    /// direction `d`: the run of opposite stones next to `p`, where it is not
    /// empty and a stone of color `c` closes it; zero otherwise, and zero
    /// where `p` is not an empty square.
    pub open spec fn flip_count(self, p: (int, int), c: StateColor, d: Direction) -> nat {
        let k = self.run_len(p, c, d, 1) as int;
        if in_bounds(p) && self.cell(p) is None && k >= 1 && in_bounds(ray(p.0, p.1, d, k + 1))
            && self.cell(ray(p.0, p.1, d, k + 1)) == Some(c) {
            k as nat
        } else {
            0
        }
    }

    /// A stone of color `c` may be placed on `p`: some direction turns over a stone.
    pub open spec fn legal(self, p: (int, int), c: StateColor) -> bool {
        exists|i: int| 0 <= i < 8 && #[trigger] self.flip_count(p, c, direction_at(i)) > 0
    }

    /// `q` is one of the stones turned over in direction `d` when `c` plays on `p`.
    pub open spec fn covers(self, p: (int, int), c: StateColor, d: Direction, q: (int, int)) -> bool {
        on_ray(p, q, d) && 1 <= distance(p, q, d) <= self.flip_count(p, c, d)
    }

    /// `q` is turned over, in some direction, when `c` plays on `p`.
    pub open spec fn captured(self, p: (int, int), c: StateColor, q: (int, int)) -> bool {
        exists|i: int| 0 <= i < 8 && #[trigger] self.covers(p, c, direction_at(i), q)
    }

    /// What square `q` holds after `c` plays on `p`.
    pub open spec fn after_put(self, p: (int, int), c: StateColor, q: (int, int)) -> State {
        if self.legal(p, c) && (q == p || self.captured(p, c, q)) {
            Some(c)
        } else {
            self.cell(q)
        }
    }

    /// Some empty square is a legal move for `c`.
    pub open spec fn any_legal(self, c: StateColor) -> bool {
        exists|x: int, y: int|
            in_bounds((x, y)) && self.cell((x, y)) is None && #[trigger] self.legal((x, y), c)
    }

    pub open spec fn game_over(self) -> bool {
        !self.any_legal(StateColor::Black) && !self.any_legal(StateColor::White)
    }

    /// Stones on row `x` from column `y` on.
    pub open spec fn row_count(self, x: int, y: int) -> nat
        decreases 8 - y,
    {
        if 0 <= y < 8 {
            (if self.cell((x, y)) is Some {
                1nat
            } else {
                0nat
            }) + self.row_count(x, y + 1)
        } else {
            0
        }
    }

    /// Stones on the rows from `x` on.
    pub open spec fn rows_count(self, x: int) -> nat
        decreases 8 - x,
    {
        if 0 <= x < 8 {
            self.row_count(x, 0) + self.rows_count(x + 1)
        } else {
            0
        }
    }

    /// Number of stones on the board.
    pub open spec fn occupied(self) -> nat {
        self.rows_count(0)
    }

    /// The square at `q` on a new board: the four center squares hold
    /// stones, like colors on a diagonal; all others are empty.
    pub open spec fn initial_cell(q: (int, int)) -> State {
        if q == (3int, 3int) || q == (4int, 4int) {
            Some(StateColor::White)
        } else if q == (3int, 4int) || q == (4int, 3int) {
            Some(StateColor::Black)
        } else {
            None
        }
    }

    /// The empty squares that are legal moves for `c` among the first `n`
    /// squares in row-major order, in that order.
    pub open spec fn legal_points(self, c: StateColor, n: int) -> Seq<(int, int)>
        decreases n,
    {
        if n <= 0 {
            Seq::empty()
        } else {
            let q = ((n - 1) / 8, (n - 1) % 8);
            let s = self.legal_points(c, n - 1);
            if self.cell(q) is None && self.legal(q, c) {
                s.push(q)
            } else {
                s
            }
        }
    }

    /// The board a game starts with.
    pub fn new() -> (r: Self)
        ensures
            forall|q: (int, int)| in_bounds(q) ==> #[trigger] r.cell(q) == Self::initial_cell(q),
            r.occupied() == 4,
    {
        let mut bord: [[State; 8]; 8] = [[None; 8]; 8];
        bord[3][3] = Some(StateColor::White);
        bord[4][4] = Some(StateColor::White);
        bord[3][4] = Some(StateColor::Black);
        bord[4][3] = Some(StateColor::Black);
        let r = Board(bord);
        proof {
            reveal_with_fuel(Board::rows_count, 9);
            reveal_with_fuel(Board::row_count, 9);
        }
        r
    }

    /// Whether the game is over: neither color has a legal move.
    pub fn check_end(&self) -> (r: bool)
        ensures
            r == self.game_over(),
    {
        !(self.check_valid_put_all(StateColor::Black) || self.check_valid_put_all(StateColor::White))
    }

    /// Whether `state_color` has a legal move; if not, it has to pass.
    pub fn check_valid_put_all(&self, state_color: StateColor) -> (r: bool)
        ensures
            r == self.any_legal(state_color),
    {
        let mut x: usize = 0;
        while x < 8
            invariant
                x <= 8,
                forall|a: int, b: int|
                    in_bounds((a, b)) && a < x ==> !(self.cell((a, b)) is None
                        && #[trigger] self.legal((a, b), state_color)),
            decreases 8 - x,
        {
            let mut y: usize = 0;
            while y < 8
                invariant
                    x < 8,
                    y <= 8,
                    forall|a: int, b: int|
                        in_bounds((a, b)) && (a < x || (a == x && b < y)) ==> !(self.cell((a, b))
                            is None && #[trigger] self.legal((a, b), state_color)),
                decreases 8 - y,
            {
                if self.0[x][y].is_none() {
                    let point = Point { x, y };
                    if self.can_place(point, state_color) {
                        return true;
                    }
                }
                y = y + 1;
            }
            x = x + 1;
        }
        false
    }

    /// Every legal move of `state_color`, in row-major order.
    pub fn can_put_points(&self, state_color: StateColor) -> (r: Vec<Point>)
        ensures
            r@.map_values(|q: Point| q.pos()) == self.legal_points(state_color, 64),
            forall|k: int| 0 <= k < r.len() ==> (#[trigger] r@[k]).valid(),
    {
        let mut result: Vec<Point> = Vec::new();
        let mut x: usize = 0;
        while x < 8
            invariant
                x <= 8,
                result@.map_values(|q: Point| q.pos()) == self.legal_points(state_color, 8 * x),
                forall|k: int| 0 <= k < result.len() ==> (#[trigger] result@[k]).valid(),
            decreases 8 - x,
        {
            let mut y: usize = 0;
            while y < 8
                invariant
                    x < 8,
                    y <= 8,
                    result@.map_values(|q: Point| q.pos()) == self.legal_points(
                        state_color,
                        8 * x + y,
                    ),
                    forall|k: int| 0 <= k < result.len() ==> (#[trigger] result@[k]).valid(),
                decreases 8 - y,
            {
                let ghost n = 8 * x + y;
                proof {
                    assert((n / 8, n % 8) == (x as int, y as int)) by (nonlinear_arith)
                        requires
                            n == 8 * x + y,
                            y < 8,
                    ;
                }
                let ghost before = result@;
                if self.0[x][y].is_none() {
                    let point = Point { x, y };
                    if self.can_place(point, state_color) {
                        result.push(point);
                        proof {
                            assert(result@.map_values(|q: Point| q.pos()) =~= before.map_values(
                                |q: Point| q.pos(),
                            ).push(point.pos()));
                        }
                    }
                }
                y = y + 1;
            }
            x = x + 1;
        }
        result
    }

    /// The square at `p`.
    pub fn get(&self, p: Point) -> (r: State)
        requires
            p.valid(),
        ensures
            r == self.cell(p.pos()),
    {
        self.0[p.x][p.y]
    }

    /// The last stone turned over in `direction` when `state_color` plays on
    /// `point`, or `None` where that direction turns nothing over.
    pub fn get_last_flippable_tile_in_direction(
        &self,
        point: Point,
        state_color: StateColor,
        direction: &Direction,
    ) -> (r: Option<Point>)
        requires
            point.valid(),
        ensures
            r is Some <==> self.flip_count(point.pos(), state_color, *direction) > 0,
            r matches Some(q) ==> q.valid() && q.pos() == ray(
                point.x as int,
                point.y as int,
                *direction,
                self.flip_count(point.pos(), state_color, *direction) as int,
            ),
    {
        let ghost p = point.pos();
        let ghost d = *direction;
        if self.0[point.x][point.y].is_some() {
            return None;
        }
        let mut tmp_point = point;
        let mut found_another_color = false;
        let ghost mut i: int = 0;
        loop
            invariant
                0 <= i <= 7,
                tmp_point.valid(),
                tmp_point.pos() == ray(p.0, p.1, d, i),
                found_another_color == (i > 0),
                self.run_len(p, state_color, d, 1) == i + self.run_len(p, state_color, d, i + 1),
                self.cell(p) is None,
                p == point.pos(),
                point.valid(),
                d == *direction,
            decreases 7 - i,
        {
            let next = match Point::point_calc_in_direction(tmp_point, direction) {
                Some(q) => q,
                None => return None,
            };
            match self.0[next.x][next.y] {
                None => {
                    return None;
                },
                Some(color) => {
                    if color.another() == state_color {
                        found_another_color = true;
                        tmp_point = next;
                        proof {
                            i = i + 1;
                        }
                    } else if found_another_color {
                        return Some(tmp_point);
                    } else {
                        return None;
                    }
                },
            }
        }
    }

    /// Turns every square from `put_point` to `end_point`, both included,
    /// along `direction`, to `state_color`.
    fn flip_tiles_in_direction(
        &mut self,
        put_point: Point,
        end_point: Point,
        state_color: StateColor,
        direction: &Direction,
    )
        requires
            put_point.valid(),
            end_point.valid(),
            on_ray(put_point.pos(), end_point.pos(), *direction),
            distance(put_point.pos(), end_point.pos(), *direction) >= 1,
        ensures
            forall|q: (int, int)|
                in_bounds(q) ==> #[trigger] final(self).cell(q) == if on_ray(
                    put_point.pos(),
                    q,
                    *direction,
                ) && distance(put_point.pos(), q, *direction) <= distance(
                    put_point.pos(),
                    end_point.pos(),
                    *direction,
                ) {
                    Some(state_color)
                } else {
                    old(self).cell(q)
                },
    {
        let ghost p = put_point.pos();
        let ghost d = *direction;
        let ghost k = distance(p, end_point.pos(), d);
        let ghost old_board = *self;
        let mut flip_point = put_point;
        let ghost mut j: int = 0;
        loop
            invariant_except_break
                forall|q: (int, int)|
                    in_bounds(q) ==> #[trigger] self.cell(q) == if on_ray(p, q, d) && distance(
                        p,
                        q,
                        d,
                    ) < j {
                        Some(state_color)
                    } else {
                        old_board.cell(q)
                    },
            invariant
                0 <= j <= k,
                flip_point.valid(),
                flip_point.pos() == ray(p.0, p.1, d, j),
                p == put_point.pos(),
                d == *direction,
                k == distance(p, end_point.pos(), d),
                on_ray(p, end_point.pos(), d),
                end_point.valid(),
                old_board == *old(self),
            ensures
                forall|q: (int, int)|
                    in_bounds(q) ==> #[trigger] self.cell(q) == if on_ray(p, q, d) && distance(
                        p,
                        q,
                        d,
                    ) <= k {
                        Some(state_color)
                    } else {
                        old_board.cell(q)
                    },
            decreases k - j,
        {
            let ghost before = *self;
            self.0[flip_point.x][flip_point.y] = Some(state_color);
            proof {
                assert forall|q: (int, int)| in_bounds(q) implies #[trigger] self.cell(q) == if on_ray(
                    p,
                    q,
                    d,
                ) && distance(p, q, d) <= j {
                    Some(state_color)
                } else {
                    old_board.cell(q)
                } by {
                    if q == flip_point.pos() {
                        assert(on_ray(p, q, d) && distance(p, q, d) == j);
                    } else {
                        assert(self.cell(q) == before.cell(q));
                        if on_ray(p, q, d) {
                            assert(distance(p, q, d) != j);
                        }
                    }
                }
            }
            if flip_point == end_point {
                proof {
                    assert(j == k);
                }
                break;
            }
            proof {
                assert(j < k);
                assert(in_bounds(ray(p.0, p.1, d, j + 1)));
            }
            match Point::point_calc_in_direction(flip_point, direction) {
                Some(q) => flip_point = q,
                None => break,
            }
            proof {
                j = j + 1;
            }
        }
    }

    /// Whether `state_color` may play on `point`.
    pub fn can_place(&self, point: Point, state_color: StateColor) -> (r: bool)
        requires
            point.valid(),
        ensures
            r == self.legal(point.pos(), state_color),
    {
        let mut result = false;
        let mut i: usize = 0;
        while i < 8
            invariant
                i <= 8,
                point.valid(),
                result <==> exists|j: int|
                    0 <= j < i && #[trigger] self.flip_count(point.pos(), state_color, direction_at(j))
                        > 0,
            decreases 8 - i,
        {
            let d = Direction::nth(i);
            let tmp = self.get_last_flippable_tile_in_direction(point, state_color, &d);
            if tmp.is_some() {
                result = true;
            }
            i = i + 1;
        }
        result
    }

    /// Plays `state_color` on `point`: where that is a legal move, turns over
    /// every captured stone, sets the square and returns `true`; otherwise
    /// leaves the board as it is and returns `false`. All runs are found
    /// before any square changes.
    pub fn put(&mut self, point: Point, state_color: StateColor) -> (r: bool)
        requires
            point.valid(),
        ensures
            r == old(self).legal(point.pos(), state_color),
            !r ==> *final(self) == *old(self),
            forall|q: (int, int)|
                in_bounds(q) ==> #[trigger] final(self).cell(q) == old(self).after_put(
                    point.pos(),
                    state_color,
                    q,
                ),
            r ==> final(self).occupied() == old(self).occupied() + 1,
    {
        let ghost p = point.pos();
        let ghost old_board = *self;
        let mut result = false;
        let mut ends: Vec<Option<Point>> = Vec::new();
        let mut i: usize = 0;
        while i < 8
            invariant
                i <= 8,
                ends.len() == i,
                point.valid(),
                p == point.pos(),
                forall|j: int|
                    0 <= j < i ==> (#[trigger] ends@[j] is Some <==> self.flip_count(
                        p,
                        state_color,
                        direction_at(j),
                    ) > 0),
                forall|j: int|
                    0 <= j < i ==> (#[trigger] ends@[j] matches Some(e) ==> e.valid() && e.pos()
                        == ray(
                        p.0,
                        p.1,
                        direction_at(j),
                        self.flip_count(p, state_color, direction_at(j)) as int,
                    )),
                result <==> exists|j: int|
                    0 <= j < i && #[trigger] self.flip_count(p, state_color, direction_at(j)) > 0,
            decreases 8 - i,
        {
            let d = Direction::nth(i);
            let tmp = self.get_last_flippable_tile_in_direction(point, state_color, &d);
            if tmp.is_some() {
                result = true;
            }
            ends.push(tmp);
            i = i + 1;
        }
        let mut i: usize = 0;
        while i < 8
            invariant
                i <= 8,
                ends.len() == 8,
                point.valid(),
                p == point.pos(),
                old_board == *old(self),
                forall|j: int|
                    0 <= j < 8 ==> (#[trigger] ends@[j] is Some <==> old_board.flip_count(
                        p,
                        state_color,
                        direction_at(j),
                    ) > 0),
                forall|j: int|
                    0 <= j < 8 ==> (#[trigger] ends@[j] matches Some(e) ==> e.valid() && e.pos()
                        == ray(
                        p.0,
                        p.1,
                        direction_at(j),
                        old_board.flip_count(p, state_color, direction_at(j)) as int,
                    )),
                result <==> exists|j: int|
                    0 <= j < 8 && #[trigger] old_board.flip_count(p, state_color, direction_at(j))
                        > 0,
                !result ==> *self == old_board,
                forall|q: (int, int)|
                    in_bounds(q) ==> #[trigger] self.cell(q) == old_board.put_upto(
                        p,
                        state_color,
                        i as int,
                        q,
                    ),
            decreases 8 - i,
        {
            let ghost before = *self;
            if let Some(end_point) = ends[i] {
                let d = Direction::nth(i);
                self.flip_tiles_in_direction(point, end_point, state_color, &d);
            }
            proof {
                let d = direction_at(i as int);
                let k = old_board.flip_count(p, state_color, d) as int;
                assert forall|q: (int, int)| in_bounds(q) implies #[trigger] self.cell(q)
                    == old_board.put_upto(p, state_color, i + 1, q) by {
                    assert(before.cell(q) == old_board.put_upto(p, state_color, i as int, q));
                    if k > 0 && on_ray(p, q, d) && distance(p, q, d) <= k {
                        if q == p {
                            assert(old_board.flip_count(p, state_color, direction_at(i as int)) > 0);
                        } else {
                            assert(old_board.covers(p, state_color, direction_at(i as int), q));
                        }
                    }
                    if old_board.covers(p, state_color, direction_at(i as int), q) {
                        assert(k > 0);
                    }
                }
            }
            i = i + 1;
        }
        proof {
            assert forall|q: (int, int)| in_bounds(q) implies #[trigger] self.cell(q)
                == old_board.after_put(p, state_color, q) by {
                assert(self.cell(q) == old_board.put_upto(p, state_color, 8, q));
            }
            if result {
                assert forall|q: (int, int)| in_bounds(q) && q != p implies (#[trigger] self.cell(
                    q,
                ) is Some) == (old_board.cell(q) is Some) by {
                    assert(self.cell(q) == old_board.put_upto(p, state_color, 8, q));
                    if old_board.captured(p, state_color, q) {
                        lemma_captured_was_opposite(old_board, p, state_color, q);
                    }
                }
                assert(self.cell(p) == old_board.put_upto(p, state_color, 8, p));
                lemma_one_more_stone(old_board, *self, p);
            }
        }
        result
    }

    /// What square `q` holds once the runs of the first `n` scanned
    /// directions have been turned over.
    spec fn put_upto(self, p: (int, int), c: StateColor, n: int, q: (int, int)) -> State {
        if (q == p && exists|j: int| 0 <= j < n && #[trigger] self.flip_count(p, c, direction_at(j)) > 0)
            || exists|j: int| 0 <= j < n && #[trigger] self.covers(p, c, direction_at(j), q) {
            Some(c)
        } else {
            self.cell(q)
        }
    }
}


proof fn lemma_run_cells(b: Board, p: (int, int), c: StateColor, d: Direction, i: int, j: int)
    requires
        1 <= i <= j < i + b.run_len(p, c, d, i),
    ensures
        in_bounds(ray(p.0, p.1, d, j)),
        b.cell(ray(p.0, p.1, d, j)) == Some(c.opposite()),
    decreases j - i,
{
    if j > i {
        lemma_run_cells(b, p, c, d, i + 1, j);
    }
}

/// A captured square held a stone of the opposite color.
proof fn lemma_captured_was_opposite(b: Board, p: (int, int), c: StateColor, q: (int, int))
    requires
        b.captured(p, c, q),
    ensures
        b.cell(q) == Some(c.opposite()),
{
    let i = choose|i: int| 0 <= i < 8 && #[trigger] b.covers(p, c, direction_at(i), q);
    let d = direction_at(i);
    lemma_run_cells(b, p, c, d, 1, distance(p, q, d));
}

proof fn lemma_row_one_more(a: Board, b: Board, p: (int, int), x: int, y: int)
    requires
        in_bounds(p),
        0 <= x < 8,
        0 <= y,
        a.cell(p) is None,
        b.cell(p) is Some,
        forall|q: (int, int)|
            in_bounds(q) && q != p ==> (#[trigger] b.cell(q) is Some) == (a.cell(q) is Some),
    ensures
        b.row_count(x, y) == a.row_count(x, y) + if x == p.0 && y <= p.1 {
            1int
        } else {
            0int
        },
    decreases 8 - y,
{
    if y < 8 {
        lemma_row_one_more(a, b, p, x, y + 1);
        assert(b.cell((x, y)) is Some == a.cell((x, y)) is Some || (x, y) == p);
    }
}

proof fn lemma_rows_one_more(a: Board, b: Board, p: (int, int), x: int)
    requires
        in_bounds(p),
        0 <= x,
        a.cell(p) is None,
        b.cell(p) is Some,
        forall|q: (int, int)|
            in_bounds(q) && q != p ==> (#[trigger] b.cell(q) is Some) == (a.cell(q) is Some),
    ensures
        b.rows_count(x) == a.rows_count(x) + if x <= p.0 {
            1int
        } else {
            0int
        },
    decreases 8 - x,
{
    if x < 8 {
        lemma_rows_one_more(a, b, p, x + 1);
        lemma_row_one_more(a, b, p, x, 0);
    }
}

/// Filling one empty square, and changing no other square between empty and
/// occupied, adds exactly one stone.
proof fn lemma_one_more_stone(a: Board, b: Board, p: (int, int))
    requires
        in_bounds(p),
        a.cell(p) is None,
        b.cell(p) is Some,
        forall|q: (int, int)|
            in_bounds(q) && q != p ==> (#[trigger] b.cell(q) is Some) == (a.cell(q) is Some),
    ensures
        b.occupied() == a.occupied() + 1,
{
    lemma_rows_one_more(a, b, p, 0);
}


/// Every square that `legal_points` lists is on the board, empty, and a
/// legal move; every empty square that is a legal move is listed.
proof fn lemma_legal_points(b: Board, c: StateColor, n: int)
    requires
        0 <= n <= 64,
    ensures
        forall|k: int|
            0 <= k < b.legal_points(c, n).len() ==> in_bounds(#[trigger] b.legal_points(c, n)[k])
                && b.cell(b.legal_points(c, n)[k]) is None && b.legal(b.legal_points(c, n)[k], c),
        forall|x: int, y: int|
            0 <= x < 8 && 0 <= y < 8 && 8 * x + y < n && b.cell((x, y)) is None && #[trigger] b.legal(
                (x, y),
                c,
            ) ==> b.legal_points(c, n).contains((x, y)),
    decreases n,
{
    if n > 0 {
        lemma_legal_points(b, c, n - 1);
        let q = ((n - 1) / 8, (n - 1) % 8);
        let s = b.legal_points(c, n - 1);
        assert forall|x: int, y: int|
            0 <= x < 8 && 0 <= y < 8 && 8 * x + y < n && b.cell((x, y)) is None && #[trigger] b.legal(
                (x, y),
                c,
            ) implies b.legal_points(c, n).contains((x, y)) by {
            if 8 * x + y == n - 1 {
                assert((x, y) == q) by (nonlinear_arith)
                    requires
                        8 * x + y == n - 1,
                        0 <= y < 8,
                        q == ((n - 1) / 8, (n - 1) % 8),
                ;
                assert(b.legal_points(c, n) == s.push(q));
                assert(b.legal_points(c, n)[s.len() as int] == q);
            } else {
                let k = choose|k: int| 0 <= k < s.len() && s[k] == (x, y);
                if b.cell(q) is None && b.legal(q, c) {
                    assert(b.legal_points(c, n)[k] == (x, y));
                } else {
                    assert(b.legal_points(c, n)[k] == (x, y));
                }
            }
        }
    }
}

/// The list of legal moves holds only empty squares that are legal moves.
pub proof fn lemma_legal_moves_sound(b: Board, c: StateColor)
    ensures
        forall|k: int|
            0 <= k < b.legal_points(c, 64).len() ==> in_bounds(#[trigger] b.legal_points(c, 64)[k])
                && b.cell(b.legal_points(c, 64)[k]) is None && b.legal(b.legal_points(c, 64)[k], c),
{
    lemma_legal_points(b, c, 64);
}

/// Every empty square that is a legal move is in the list of legal moves.
pub proof fn lemma_legal_moves_complete(b: Board, c: StateColor, q: (int, int))
    requires
        in_bounds(q),
        b.cell(q) is None,
        b.legal(q, c),
    ensures
        b.legal_points(c, 64).contains(q),
{
    lemma_legal_points(b, c, 64);
    assert(b.legal((q.0, q.1), c));
}

/// A color has some legal move exactly when its list of legal moves is not empty.
pub proof fn lemma_any_legal_iff_moves(b: Board, c: StateColor)
    ensures
        b.any_legal(c) <==> b.legal_points(c, 64).len() > 0,
{
    lemma_legal_points(b, c, 64);
    if b.any_legal(c) {
        let (x, y) = choose|x: int, y: int|
            in_bounds((x, y)) && b.cell((x, y)) is None && #[trigger] b.legal((x, y), c);
        lemma_legal_moves_complete(b, c, (x, y));
    }
    if b.legal_points(c, 64).len() > 0 {
        let q = b.legal_points(c, 64)[0];
        assert(b.legal((q.0, q.1), c));
    }
}

/// No color may play on an occupied square, so playing there changes nothing.
pub proof fn lemma_occupied_square_not_legal(b: Board, p: (int, int), c: StateColor)
    requires
        in_bounds(p),
        b.cell(p) is Some,
    ensures
        !b.legal(p, c),
        forall|q: (int, int)| in_bounds(q) ==> #[trigger] b.after_put(p, c, q) == b.cell(q),
{
}

/// Playing never empties a square: a stone may change color, never leave.
pub proof fn lemma_put_keeps_stones(b: Board, p: (int, int), c: StateColor, q: (int, int))
    requires
        in_bounds(q),
        b.cell(q) is Some,
    ensures
        b.after_put(p, c, q) is Some,
{
}

proof fn lemma_row_count_bound(b: Board, x: int, y: int)
    requires
        0 <= y <= 8,
    ensures
        b.row_count(x, y) <= 8 - y,
    decreases 8 - y,
{
    if y < 8 {
        lemma_row_count_bound(b, x, y + 1);
    }
}

proof fn lemma_rows_count_bound(b: Board, x: int)
    requires
        0 <= x <= 8,
    ensures
        b.rows_count(x) <= 8 * (8 - x),
    decreases 8 - x,
{
    if x < 8 {
        lemma_rows_count_bound(b, x + 1);
        lemma_row_count_bound(b, x, 0);
    }
}

/// A board holds at most 64 stones.
pub proof fn lemma_occupied_at_most_64(b: Board)
    ensures
        b.occupied() <= 64,
{
    lemma_rows_count_bound(b, 0);
}

} // verus!
