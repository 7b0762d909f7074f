use vstd::prelude::*;

verus! {

/// The color of a stone.
#[derive(Debug, Clone, Copy, PartialEq, Eq, Structural)]
pub enum StateColor {
    Black,
    White,
}

/// What a square holds: nothing, or a stone of one color.
pub type State = Option<StateColor>;

impl StateColor {
    pub open spec fn opposite(self) -> StateColor {
        match self {
            StateColor::Black => StateColor::White,
            StateColor::White => StateColor::Black,
        }
    }

    /// The other color.
    pub fn another(&self) -> (r: StateColor)
        ensures
            r == self.opposite(),
            r != *self,
    {
        match self {
            StateColor::Black => StateColor::White,
            StateColor::White => StateColor::Black,
        }
    }
}

/// One of the eight unit steps on the board (four along the axes, four diagonal).
#[derive(Debug, Clone, Copy, PartialEq, Eq, Structural)]
pub enum Direction {
    Up,
    Down,
    Left,
    Right,
    UpLeft,
    UpRight,
    DownLeft,
    DownRight,
}

/// The `i`-th of the eight directions, in the fixed order in which they are scanned.
pub open spec fn direction_at(i: int) -> Direction {
    if i == 0 {
        Direction::Up
    } else if i == 1 {
        Direction::Down
    } else if i == 2 {
        Direction::Left
    } else if i == 3 {
        Direction::Right
    } else if i == 4 {
        Direction::UpLeft
    } else if i == 5 {
        Direction::UpRight
    } else if i == 6 {
        Direction::DownLeft
    } else {
        Direction::DownRight
    }
}

impl Direction {
    /// The `i`-th direction of the scanning order.
    pub fn nth(i: usize) -> (d: Direction)
        requires
            i < 8,
        ensures
            d == direction_at(i as int),
    {
        if i == 0 {
            Direction::Up
        } else if i == 1 {
            Direction::Down
        } else if i == 2 {
            Direction::Left
        } else if i == 3 {
            Direction::Right
        } else if i == 4 {
            Direction::UpLeft
        } else if i == 5 {
            Direction::UpRight
        } else if i == 6 {
            Direction::DownLeft
        } else {
            Direction::DownRight
        }
    }
}

/// The square reached from `(x, y)` after `i` steps in direction `d`.
pub open spec fn ray(x: int, y: int, d: Direction, i: int) -> (int, int) {
    match d {
        Direction::Up => (x + i, y),
        Direction::Down => (x - i, y),
        Direction::Left => (x, y - i),
        Direction::Right => (x, y + i),
        Direction::UpLeft => (x + i, y - i),
        Direction::UpRight => (x + i, y + i),
        Direction::DownLeft => (x - i, y - i),
        Direction::DownRight => (x - i, y + i),
    }
}

pub open spec fn in_bounds(q: (int, int)) -> bool {
    0 <= q.0 < 8 && 0 <= q.1 < 8
}

/// A square of the board: `x` is the row, `y` the column.
#[derive(Debug, Clone, Copy, PartialEq, Eq, Structural)]
pub struct Point {
    pub x: usize,
    pub y: usize,
}

impl Point {
    pub open spec fn pos(self) -> (int, int) {
        (self.x as int, self.y as int)
    }

    pub open spec fn valid(self) -> bool {
        in_bounds(self.pos())
    }

    /// The square one step away in `direction`, or `None` where that step
    /// leaves the board.
    pub fn point_calc_in_direction(point: Point, direction: &Direction) -> (r: Option<Point>)
        ensures
            r is Some <==> in_bounds(ray(point.x as int, point.y as int, *direction, 1)),
            r matches Some(q) ==> q.pos() == ray(point.x as int, point.y as int, *direction, 1),
    {
        let tmp = match direction {
            Direction::Up => (point.x.checked_add(1), Some(point.y)),
            Direction::Down => (point.x.checked_sub(1), Some(point.y)),
            Direction::Left => (Some(point.x), point.y.checked_sub(1)),
            Direction::Right => (Some(point.x), point.y.checked_add(1)),
            Direction::UpLeft => (point.x.checked_add(1), point.y.checked_sub(1)),
            Direction::UpRight => (point.x.checked_add(1), point.y.checked_add(1)),
            Direction::DownLeft => (point.x.checked_sub(1), point.y.checked_sub(1)),
            Direction::DownRight => (point.x.checked_sub(1), point.y.checked_add(1)),
        };
        match tmp {
            (Some(x), Some(y)) => {
                if x <= 7 && y <= 7 {
                    Some(Point { x, y })
                } else {
                    None
                }
            },
            _ => None,
        }
    }

    /// Reads a move written as a column letter `a`..`h` followed by a row
    /// digit `1`..`8`; what follows those two characters is not read.
    pub fn from_input(input: &str) -> (r: Option<Point>)
        ensures
            r is Some <==> notation_ok(input@),
            r matches Some(p) ==> p.x == input@[1] as int - '1' as int && p.y == input@[0]
                as int - 'a' as int,
    {
        let n = input.unicode_len();
        if n < 2 {
            return None;
        }
        let col = input.get_char(0);
        let row = input.get_char(1);
        if !('a' <= col && col <= 'h') || !('1' <= row && row <= '8') {
            return None;
        }
        let y = (col as u32 - 'a' as u32) as usize;
        let x = (row as u32 - '1' as u32) as usize;
        Some(Point { x, y })
    }
}

/// A move in the notation read by `Point::from_input`.
pub open spec fn notation_ok(s: Seq<char>) -> bool {
    &&& s.len() >= 2
    &&& 'a' <= s[0] <= 'h'
    &&& '1' <= s[1] <= '8'
}

} // verus!
