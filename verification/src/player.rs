//! The agent: where it stands, where it faces, and its one arrow.
//!
//! Movement and aiming are stated in the display frame the player sees;
//! the arrow's flight is traced in the storage frame, room by room, and
//! fells the first wampus on its path through the board's single
//! liveness write path.

use vstd::prelude::*;

use crate::board::{in_bounds, lemma_board_index, Board};
use crate::percepts::Occupant;
use crate::point::Point;

verus! {

/// A compass direction in the display frame.
#[derive(Clone, Copy, Debug, PartialEq, Eq, Structural)]
pub enum Direction {
    North,
    East,
    South,
    West,
}

/// The direction after a left turn.
pub open spec fn left_of(d: Direction) -> Direction {
    match d {
        Direction::North => Direction::West,
        Direction::East => Direction::North,
        Direction::South => Direction::East,
        Direction::West => Direction::South,
    }
}

/// The direction after a right turn.
pub open spec fn right_of(d: Direction) -> Direction {
    match d {
        Direction::West => Direction::North,
        Direction::North => Direction::East,
        Direction::East => Direction::South,
        Direction::South => Direction::West,
    }
}

/// One step in the storage frame: row and column deltas.
pub open spec fn step_of(d: Direction) -> (int, int) {
    match d {
        Direction::North => (-1, 0),
        Direction::South => (1, 0),
        Direction::East => (0, 1),
        Direction::West => (0, -1),
    }
}

/// The first room holding the wampus on the arrow's path from storage
/// room `(i, j)` in direction `d`, the room itself included; `None` if
/// the arrow leaves the board first.
pub open spec fn ray_hit(b: Board, d: Direction, i: int, j: int) -> Option<(int, int)>
    decreases (if d is North {
        i + 1
    } else if d is West {
        j + 1
    } else if d is South {
        b.rows() - i
    } else {
        b.cols() - j
    }),
{
    if !in_bounds(b.rows(), b.cols(), i, j) {
        None
    } else if b.wampus_at(i, j) {
        Some((i, j))
    } else if (d is North && i == 0) || (d is West && j == 0) {
        None
    } else {
        ray_hit(b, d, i + step_of(d).0, j + step_of(d).1)
    }
}

/// The agent: display-frame position, facing, and arrows left.
#[derive(Debug)]
pub struct Player {
    pub pos: Point,
    pub dir: Direction,
    pub arrows: u8,
}

impl Player {
    /// A fresh agent at the display origin, facing east, one arrow in
    /// the quiver.
    pub fn new() -> (r: Player)
        ensures
            r.pos == (Point { x: 0, y: 0 }),
            r.dir == Direction::East,
            r.arrows == 1,
    {
        Player { pos: Point { x: 0, y: 0 }, dir: Direction::East, arrows: 1u8 }
    }

    /// Turns a quarter turn to the left.
    pub fn turn_left(&mut self)
        ensures
            final(self).dir == left_of(old(self).dir),
            final(self).pos == old(self).pos,
            final(self).arrows == old(self).arrows,
    {
        self.dir = match self.dir {
            Direction::North => Direction::West,
            Direction::East => Direction::North,
            Direction::South => Direction::East,
            Direction::West => Direction::South,
        };
    }

    /// Turns a quarter turn to the right.
    pub fn turn_right(&mut self)
        ensures
            final(self).dir == right_of(old(self).dir),
            final(self).pos == old(self).pos,
            final(self).arrows == old(self).arrows,
    {
        self.dir = match self.dir {
            Direction::West => Direction::North,
            Direction::North => Direction::East,
            Direction::East => Direction::South,
            Direction::South => Direction::West,
        };
    }

    /// Steps one room in the facing direction, in the display frame of
    /// a board with `rows` rows and `cols` columns, unless a wall is in
    /// the way.  Returns whether the agent moved; the caller narrates
    /// the bump.
    pub fn forward(&mut self, rows: usize, cols: usize) -> (moved: bool)
        requires
            rows >= 1,
            cols >= 1,
            old(self).pos.x < cols,
            old(self).pos.y < rows,
        ensures
            final(self).dir == old(self).dir,
            final(self).arrows == old(self).arrows,
            moved == (match old(self).dir {
                Direction::West => old(self).pos.x > 0,
                Direction::North => old(self).pos.y + 1 < rows,
                Direction::East => old(self).pos.x + 1 < cols,
                Direction::South => old(self).pos.y > 0,
            }),
            final(self).pos == (if moved {
                match old(self).dir {
                    Direction::West => Point { x: (old(self).pos.x - 1) as usize, y: old(self).pos.y },
                    Direction::North => Point { x: old(self).pos.x, y: (old(self).pos.y + 1) as usize },
                    Direction::East => Point { x: (old(self).pos.x + 1) as usize, y: old(self).pos.y },
                    Direction::South => Point { x: old(self).pos.x, y: (old(self).pos.y - 1) as usize },
                }
            } else {
                old(self).pos
            }),
    {
        match self.dir {
            Direction::West => {
                if self.pos.x > 0 {
                    self.pos.x = self.pos.x - 1;
                    true
                } else {
                    false
                }
            },
            Direction::North => {
                if rows - 1 > self.pos.y {
                    self.pos.y = self.pos.y + 1;
                    true
                } else {
                    false
                }
            },
            Direction::East => {
                if cols - 1 > self.pos.x {
                    self.pos.x = self.pos.x + 1;
                    true
                } else {
                    false
                }
            },
            Direction::South => {
                if self.pos.y > 0 {
                    self.pos.y = self.pos.y - 1;
                    true
                } else {
                    false
                }
            },
        }
    }

    /// The cues the agent senses in the room it stands in: a breeze,
    /// and a stink.  The caller narrates them.
    pub fn observe(&self, board: &Board) -> (r: (bool, bool))
        requires
            board.wf_shape(),
            self.pos.y < board.rows(),
            self.pos.x < board.cols(),
        ensures
            r.0 == board.has_breeze(board.rows() - 1 - self.pos.y, self.pos.x as int),
            r.1 == board.has_stink(board.rows() - 1 - self.pos.y, self.pos.x as int),
    {
        let rows = board.grid.len();
        let p = self.pos.board_perspective(rows);
        let cues = board.cues_at(p);
        (cues.1, cues.2)
    }

    /// Fires an arrow, if one is left, straight along the facing
    /// direction: the first room on its path holding the wampus — the
    /// agent's own room included — has it felled.  Returns whether
    /// anything was hit; the caller narrates the outcome.
    pub fn shoot(&mut self, board: &mut Board) -> (hit: bool)
        requires
            old(board).wf_shape(),
            old(self).pos.y < old(board).rows(),
            old(self).pos.x < old(board).cols(),
        ensures
            final(self).pos == old(self).pos,
            final(self).dir == old(self).dir,
            old(self).arrows == 0 ==> final(self).arrows == 0 && *final(board) == *old(board)
                && !hit,
            old(self).arrows > 0 ==> {
                let s = ray_hit(
                    *old(board),
                    old(self).dir,
                    old(board).rows() - 1 - old(self).pos.y,
                    old(self).pos.x as int,
                );
                &&& final(self).arrows == old(self).arrows - 1
                &&& hit == (s is Some)
                &&& (s is None ==> *final(board) == *old(board))
                &&& (s matches Some(cell) ==> crate::board::fragged(
                    *old(board),
                    *final(board),
                    cell.0,
                    cell.1,
                ) && (old(board).wf() ==> final(board).wf()))
            },
    {
        if self.arrows == 0 {
            return false;
        }
        self.arrows = self.arrows - 1;
        let rows = board.grid.len();
        let d = board.dim();
        let mut cur = self.pos.board_perspective(rows);
        let ghost start = cur;
        while cur.x < d.x && cur.y < d.y
            invariant
                *board == *old(board),
                board.wf_shape(),
                d.x as int == board.rows(),
                d.y as int == board.cols(),
                self.pos == old(self).pos,
                self.dir == old(self).dir,
                self.arrows == old(self).arrows - 1,
                ray_hit(*board, self.dir, start.x as int, start.y as int) == ray_hit(
                    *board,
                    self.dir,
                    cur.x as int,
                    cur.y as int,
                ),
                start.x as int == board.rows() - 1 - self.pos.y,
                start.y as int == self.pos.x as int,
            decreases (if self.dir is North {
                cur.x as int + 1
            } else if self.dir is West {
                cur.y as int + 1
            } else if self.dir is South {
                board.rows() - cur.x
            } else {
                board.cols() - cur.y
            }),
        {
            proof {
                lemma_board_index(*board, cur.x as int);
            }
            let occ = board.grid[cur.x][cur.y].occupant;
            if matches!(occ, Some(Occupant::Wampus(_))) {
                proof {
                    assert(board.wampus_at(cur.x as int, cur.y as int));
                }
                board.frag_wampus(cur);
                return true;
            }
            proof {
                assert(!board.wampus_at(cur.x as int, cur.y as int));
            }
            match self.dir {
                Direction::North => {
                    if cur.x == 0 {
                        return false;
                    }
                    cur.x = cur.x - 1;
                },
                Direction::South => {
                    cur.x = cur.x + 1;
                },
                Direction::East => {
                    cur.y = cur.y + 1;
                },
                Direction::West => {
                    if cur.y == 0 {
                        return false;
                    }
                    cur.y = cur.y - 1;
                },
            }
        }
        false
    }
}

} // verus!
