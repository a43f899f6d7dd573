//! The hidden board: a rectangular grid of rooms, each with at most one
//! occupant, and the cues felt in each room.
//!
//! Cues are derived once, when the board is built: a room feels a breeze
//! exactly when an orthogonally adjacent room holds a pit, a stink exactly
//! when one holds the wampus, and a glitter exactly when the room itself
//! holds the gold.  [`Board::wf`] records this consistency; every board a
//! constructor hands out satisfies it, and the inference engine's
//! soundness rests on it.

use vstd::prelude::*;

use crate::percepts::{Breeze, Glitter, Occupant, PassivePercept, Stink, Tile, Wampus};
use crate::point::Point;

verus! {

/// A grid of `r` rows, each of `c` columns.
pub open spec fn rect_grid<T>(g: Seq<Seq<T>>, r: int, c: int) -> bool {
    g.len() == r && forall|i: int| 0 <= i < r ==> (#[trigger] g[i]).len() == c
}

/// Whether `(i, j)` indexes a room of an `r` by `c` grid.
pub open spec fn in_bounds(r: int, c: int, i: int, j: int) -> bool {
    0 <= i < r && 0 <= j < c
}

/// Whether `(i2, j2)` is orthogonally adjacent to `(i, j)`.
pub open spec fn adj(i: int, j: int, i2: int, j2: int) -> bool {
    ||| (i2 == i - 1 && j2 == j)
    ||| (i2 == i && j2 == j - 1)
    ||| (i2 == i + 1 && j2 == j)
    ||| (i2 == i && j2 == j + 1)
}

/// The mathematical contents of a grid held as a vector of row vectors.
pub open spec fn grid_view<T>(g: Vec<Vec<T>>) -> Seq<Seq<T>> {
    Seq::new(g@.len(), |i: int| g@[i]@)
}

/// Whether the occupant is a pit.
pub open spec fn is_pit_occ(o: Option<Occupant>) -> bool {
    o matches Some(Occupant::Pit(_))
}

/// Whether the occupant is the wampus, alive or not.
pub open spec fn is_wampus_occ(o: Option<Occupant>) -> bool {
    o matches Some(Occupant::Wampus(_))
}

/// Whether the occupant is the gold.
pub open spec fn is_gold_occ(o: Option<Occupant>) -> bool {
    o matches Some(Occupant::Gold(_))
}

/// The cues of one room, in canonical order: breeze, then stink, then
/// glitter, each present or absent.
pub open spec fn canonical_cues(np: bool, nw: bool, sg: bool) -> Seq<PassivePercept> {
    (if np { seq![PassivePercept::Breeze(Breeze)] } else { Seq::empty() })
    + (if nw { seq![PassivePercept::Stink(Stink)] } else { Seq::empty() })
    + (if sg { seq![PassivePercept::Glitter(Glitter)] } else { Seq::empty() })
}

/// A cue list holds a breeze somewhere.
pub open spec fn cues_have_breeze(s: Seq<PassivePercept>) -> bool {
    exists|k: int| 0 <= k < s.len() && (#[trigger] s[k]) is Breeze
}

/// A cue list holds a stink somewhere.
pub open spec fn cues_have_stink(s: Seq<PassivePercept>) -> bool {
    exists|k: int| 0 <= k < s.len() && (#[trigger] s[k]) is Stink
}

/// A cue list holds a glitter somewhere.
pub open spec fn cues_have_glitter(s: Seq<PassivePercept>) -> bool {
    exists|k: int| 0 <= k < s.len() && (#[trigger] s[k]) is Glitter
}

/// The canonical cue list holds exactly the cues it was built from.
proof fn lemma_canonical_cues(np: bool, nw: bool, sg: bool)
    ensures
        cues_have_breeze(canonical_cues(np, nw, sg)) <==> np,
        cues_have_stink(canonical_cues(np, nw, sg)) <==> nw,
        cues_have_glitter(canonical_cues(np, nw, sg)) <==> sg,
{
    let s = canonical_cues(np, nw, sg);
    if np {
        assert(s[0] is Breeze);
    }
    if nw {
        let k: int = if np { 1 } else { 0 };
        assert(s[k] is Stink);
    }
    if sg {
        let k: int = (if np { 1int } else { 0int }) + (if nw { 1int } else { 0int });
        assert(s[k] is Glitter);
    }
}

/// The rows of a grid's mathematical contents are the views of its row
/// vectors.
pub proof fn lemma_grid_view_index<T>(g: Vec<Vec<T>>, i: int)
    requires
        0 <= i < g@.len(),
    ensures
        grid_view(g).len() == g@.len(),
        grid_view(g)[i] == g@[i]@,
{
}

/// Two boards whose rooms hold the same hazard kinds everywhere agree on
/// where hazards are adjacent.
pub proof fn lemma_adjacent_congruence(a: Board, b: Board, i: int, j: int)
    requires
        a.rows() == b.rows(),
        a.cols() == b.cols(),
        forall|i2: int, j2: int|
            in_bounds(a.rows(), a.cols(), i2, j2) ==> (#[trigger] a.pit_at(i2, j2)) == b.pit_at(i2, j2),
        forall|i2: int, j2: int|
            in_bounds(a.rows(), a.cols(), i2, j2) ==> (#[trigger] a.wampus_at(i2, j2)) == b.wampus_at(i2, j2),
    ensures
        a.pit_adjacent(i, j) == b.pit_adjacent(i, j),
        a.wampus_adjacent(i, j) == b.wampus_adjacent(i, j),
{
    if a.pit_adjacent(i, j) {
        let (i2, j2) = choose|i2: int, j2: int|
            in_bounds(a.rows(), a.cols(), i2, j2) && adj(i, j, i2, j2) && #[trigger] a.pit_at(i2, j2);
        assert(b.pit_at(i2, j2));
    }
    if b.pit_adjacent(i, j) {
        let (i2, j2) = choose|i2: int, j2: int|
            in_bounds(b.rows(), b.cols(), i2, j2) && adj(i, j, i2, j2) && #[trigger] b.pit_at(i2, j2);
        assert(a.pit_at(i2, j2));
    }
    if a.wampus_adjacent(i, j) {
        let (i2, j2) = choose|i2: int, j2: int|
            in_bounds(a.rows(), a.cols(), i2, j2) && adj(i, j, i2, j2) && #[trigger] a.wampus_at(i2, j2);
        assert(b.wampus_at(i2, j2));
    }
    if b.wampus_adjacent(i, j) {
        let (i2, j2) = choose|i2: int, j2: int|
            in_bounds(b.rows(), b.cols(), i2, j2) && adj(i, j, i2, j2) && #[trigger] b.wampus_at(i2, j2);
        assert(a.wampus_at(i2, j2));
    }
}

/// What an arrow hit in room `(i, j)` does to a board: every other
/// room is untouched, the room's cues are untouched, and a wampus
/// there is no longer alive.
pub open spec fn fragged(b0: Board, b1: Board, i: int, j: int) -> bool {
    &&& b1@.len() == b0@.len()
    &&& (forall|i2: int| 0 <= i2 < b0@.len() ==> (#[trigger] b1@[i2]).len() == b0@[i2].len())
    &&& (forall|i2: int, j2: int|
        in_bounds(b0.rows(), b0.cols(), i2, j2) && !(i2 == i && j2 == j)
            ==> #[trigger] b1@[i2][j2] == b0@[i2][j2])
    &&& b1@[i][j].passive_percepts@ == b0@[i][j].passive_percepts@
    &&& b1.occ(i, j) == (match b0.occ(i, j) {
        Some(Occupant::Wampus(w)) => Some(Occupant::Wampus(Wampus(w.0, false))),
        o => o,
    })
}

/// Two boards describe the same rooms: same shape, same occupants,
/// same cues everywhere.
pub open spec fn same_rooms(a: Board, b: Board) -> bool {
    &&& a.rows() == b.rows()
    &&& a.cols() == b.cols()
    &&& forall|i: int, j: int|
        in_bounds(b.rows(), b.cols(), i, j) ==> #[trigger] a@[i][j].occupant == b@[i][j].occupant
    &&& forall|i: int, j: int|
        in_bounds(b.rows(), b.cols(), i, j)
            ==> #[trigger] a@[i][j].passive_percepts@ == b@[i][j].passive_percepts@
}

/// The hidden board.  Built once by a constructor and then read by the
/// player and the inference engine; only [`Board::frag_wampus`] ever
/// writes to it afterwards, and it never touches occupant kinds or cues.
#[derive(Debug)]
pub struct Board {
    pub grid: Vec<Vec<Tile>>,
}

impl View for Board {
    type V = Seq<Seq<Tile>>;

    open spec fn view(&self) -> Seq<Seq<Tile>> {
        grid_view(self.grid)
    }
}

/// Bridges a well-formed board's view to its row vectors: every in-range
/// row of the view is the view of the stored row, of full width.
pub proof fn lemma_board_index(b: Board, i: int)
    requires
        b.wf_shape(),
        0 <= i < b.rows(),
    ensures
        b.grid@.len() == b.rows(),
        b@[i] == b.grid@[i]@,
        b.grid@[i]@.len() == b.cols(),
{
    lemma_grid_view_index(b.grid, i);
    assert(b@[i].len() == b.cols());
}

impl Board {
    /// Number of rows.
    pub open spec fn rows(self) -> int {
        self@.len() as int
    }

    /// Number of columns.
    pub open spec fn cols(self) -> int {
        self@[0].len() as int
    }

    /// A non-empty rectangular grid.
    pub open spec fn wf_shape(self) -> bool {
        self.rows() > 0 && self.cols() > 0 && rect_grid(self@, self.rows(), self.cols())
    }

    /// The occupant of room `(i, j)`.
    pub open spec fn occ(self, i: int, j: int) -> Option<Occupant> {
        self@[i][j].occupant
    }

    /// Room `(i, j)` holds a pit.
    pub open spec fn pit_at(self, i: int, j: int) -> bool {
        is_pit_occ(self.occ(i, j))
    }

    /// Room `(i, j)` holds the wampus.
    pub open spec fn wampus_at(self, i: int, j: int) -> bool {
        is_wampus_occ(self.occ(i, j))
    }

    /// Room `(i, j)` holds the gold.
    pub open spec fn gold_at(self, i: int, j: int) -> bool {
        is_gold_occ(self.occ(i, j))
    }

    /// A breeze is felt in room `(i, j)`.
    pub open spec fn has_breeze(self, i: int, j: int) -> bool {
        cues_have_breeze(self@[i][j].passive_percepts@)
    }

    /// A stink is felt in room `(i, j)`.
    pub open spec fn has_stink(self, i: int, j: int) -> bool {
        cues_have_stink(self@[i][j].passive_percepts@)
    }

    /// A glitter is seen in room `(i, j)`.
    pub open spec fn has_glitter(self, i: int, j: int) -> bool {
        cues_have_glitter(self@[i][j].passive_percepts@)
    }

    /// Some room adjacent to `(i, j)` holds a pit.
    pub open spec fn pit_adjacent(self, i: int, j: int) -> bool {
        exists|i2: int, j2: int|
            in_bounds(self.rows(), self.cols(), i2, j2) && adj(i, j, i2, j2) && #[trigger] self.pit_at(i2, j2)
    }

    /// Some room adjacent to `(i, j)` holds the wampus.
    pub open spec fn wampus_adjacent(self, i: int, j: int) -> bool {
        exists|i2: int, j2: int|
            in_bounds(self.rows(), self.cols(), i2, j2) && adj(i, j, i2, j2) && #[trigger] self.wampus_at(i2, j2)
    }

    /// No cue at all is felt in room `(i, j)`.
    pub open spec fn no_cues(self, i: int, j: int) -> bool {
        self@[i][j].passive_percepts@.len() == 0
    }

    /// The cues of room `(i, j)` report exactly what its surroundings
    /// hold.
    pub open spec fn cue_ok(self, i: int, j: int) -> bool {
        &&& self.has_breeze(i, j) <==> self.pit_adjacent(i, j)
        &&& self.has_stink(i, j) <==> self.wampus_adjacent(i, j)
        &&& self.has_glitter(i, j) <==> self.gold_at(i, j)
    }

    /// Every room's cues are consistent with the occupants around it.
    pub open spec fn cue_consistent(self) -> bool {
        forall|i: int, j: int|
            in_bounds(self.rows(), self.cols(), i, j) ==> #[trigger] self.cue_ok(i, j)
    }

    /// A well-formed board: rectangular, non-empty, cues consistent.
    pub open spec fn wf(self) -> bool {
        self.wf_shape() && self.cue_consistent()
    }

    /// The board's dimensions, rows in `x` and columns in `y`.
    pub fn dim(&self) -> (r: Point)
        requires
            self.wf_shape(),
        ensures
            r.x == self.rows(),
            r.y == self.cols(),
    {
        Point { x: self.grid.len(), y: self.grid[0].len() }
    }

    /// The room at `p` holds the gold: the agent has won.
    pub fn wincon(&self, p: Point) -> (r: bool)
        requires
            self.wf_shape(),
            in_bounds(self.rows(), self.cols(), p.x as int, p.y as int),
        ensures
            r == self.gold_at(p.x as int, p.y as int),
    {
        proof {
            lemma_board_index(*self, p.x as int);
        }
        if let Some(Occupant::Gold(_)) = self.grid[p.x][p.y].occupant {
            return true;
        }
        false
    }

    /// The room at `p` holds the wampus: the agent has lost.
    pub fn wampus_losecon(&self, p: Point) -> (r: bool)
        requires
            self.wf_shape(),
            in_bounds(self.rows(), self.cols(), p.x as int, p.y as int),
        ensures
            r == self.wampus_at(p.x as int, p.y as int),
    {
        proof {
            lemma_board_index(*self, p.x as int);
        }
        if let Some(Occupant::Wampus(_)) = self.grid[p.x][p.y].occupant {
            return true;
        }
        false
    }

    /// The room at `p` holds a pit: the agent has lost.
    pub fn pit_losecon(&self, p: Point) -> (r: bool)
        requires
            self.wf_shape(),
            in_bounds(self.rows(), self.cols(), p.x as int, p.y as int),
        ensures
            r == self.pit_at(p.x as int, p.y as int),
    {
        proof {
            lemma_board_index(*self, p.x as int);
        }
        if let Some(Occupant::Pit(_)) = self.grid[p.x][p.y].occupant {
            return true;
        }
        false
    }

    /// Senses the room at `p`: whether no cue at all is felt there, and
    /// whether a breeze and a stink are among its cues.
    pub fn cues_at(&self, p: Point) -> (r: (bool, bool, bool))
        requires
            self.wf_shape(),
            in_bounds(self.rows(), self.cols(), p.x as int, p.y as int),
        ensures
            r.0 == self.no_cues(p.x as int, p.y as int),
            r.1 == self.has_breeze(p.x as int, p.y as int),
            r.2 == self.has_stink(p.x as int, p.y as int),
    {
        proof {
            lemma_board_index(*self, p.x as int);
        }
        let tile = &self.grid[p.x][p.y];
        let ghost cues = self@[p.x as int][p.y as int].passive_percepts@;
        let n = tile.passive_percepts.len();
        let mut bp = false;
        let mut sp = false;
        let mut i: usize = 0;
        while i < n
            invariant
                n == cues.len(),
                cues == tile.passive_percepts@,
                i <= n,
                bp == exists|k: int| 0 <= k < i && (#[trigger] cues[k]) is Breeze,
                sp == exists|k: int| 0 <= k < i && (#[trigger] cues[k]) is Stink,
            decreases n - i,
        {
            match tile.passive_percepts[i] {
                PassivePercept::Breeze(_) => {
                    bp = true;
                },
                PassivePercept::Stink(_) => {
                    sp = true;
                },
                PassivePercept::Glitter(_) => {},
            }
            i = i + 1;
        }
        proof {
            assert(bp == cues_have_breeze(cues));
            assert(sp == cues_have_stink(cues));
        }
        (n == 0, bp, sp)
    }

    /// A board of `p.x` by `p.y` unoccupied rooms.
    pub fn empty(p: Point) -> (r: Board)
        requires
            p.x >= 1,
            p.y >= 1,
        ensures
            r.wf(),
            r.rows() == p.x,
            r.cols() == p.y,
            forall|i: int, j: int|
                in_bounds(p.x as int, p.y as int, i, j) ==> (#[trigger] r.occ(i, j)) is None,
            forall|i: int, j: int|
                in_bounds(p.x as int, p.y as int, i, j)
                    ==> (#[trigger] r@[i][j]).passive_percepts@.len() == 0,
    {
        let mut grid: Vec<Vec<Tile>> = Vec::new();
        for i in 0..p.x
            invariant
                grid@.len() == i,
                forall|i2: int| 0 <= i2 < i ==> (#[trigger] grid@[i2])@.len() == p.y,
                forall|i2: int, j2: int|
                    0 <= i2 < i && 0 <= j2 < p.y ==> {
                        let t = #[trigger] grid@[i2]@[j2];
                        t.occupant is None && t.passive_percepts@.len() == 0
                    },
        {
            let mut temp: Vec<Tile> = Vec::new();
            for j in 0..p.y
                invariant
                    temp@.len() == j,
                    forall|j2: int|
                        0 <= j2 < j ==> {
                            let t = #[trigger] temp@[j2];
                            t.occupant is None && t.passive_percepts@.len() == 0
                        },
            {
                temp.push(Tile::empty());
            }
            grid.push(temp);
        }
        let out = Board { grid };
        proof {
            assert forall|i2: int| 0 <= i2 < p.x implies #[trigger] out@[i2] == out.grid@[i2]@ by {
                lemma_grid_view_index(out.grid, i2);
            }
            assert forall|i: int, j: int|
                in_bounds(p.x as int, p.y as int, i, j) implies #[trigger] out.cue_ok(i, j) by {
                assert(!out.pit_adjacent(i, j));
                assert(!out.wampus_adjacent(i, j));
            }
        }
        out
    }

    /// Records an arrow hit in the room at `p`: if the wampus is there it
    /// is no longer alive.  Nothing else on the board changes, so cue
    /// consistency is untouched.
    pub fn frag_wampus(&mut self, p: Point)
        requires
            old(self).wf_shape(),
            in_bounds(old(self).rows(), old(self).cols(), p.x as int, p.y as int),
        ensures
            fragged(*old(self), *final(self), p.x as int, p.y as int),
            old(self).wf() ==> final(self).wf(),
    {
        proof {
            lemma_board_index(*old(self), p.x as int);
        }
        let o = self.grid[p.x][p.y].occupant;
        if let Some(Occupant::Wampus(mut w)) = o {
            w.frag_it();
            self.grid[p.x][p.y].occupant = Some(Occupant::Wampus(w));
        }
        proof {
            let px = p.x as int;
            let py = p.y as int;
            assert(self.grid@.len() == old(self).grid@.len());
            assert forall|i: int| 0 <= i < old(self)@.len() implies #[trigger] self@[i] == self.grid@[i]@
                && old(self)@[i] == old(self).grid@[i]@ by {
                lemma_grid_view_index(self.grid, i);
                lemma_grid_view_index(old(self).grid, i);
            }
            assert forall|i: int| 0 <= i < old(self)@.len() && i != px implies #[trigger] self.grid@[i]
                == old(self).grid@[i] by {}
            assert(self.grid@[px]@ =~= old(self).grid@[px]@.update(py, self.grid@[px]@[py]));
            assert(self@[px][py].passive_percepts@ == old(self)@[px][py].passive_percepts@);
            if old(self).wf() {
                assert forall|i2: int, j2: int|
                    in_bounds(self.rows(), self.cols(), i2, j2) implies (
                        #[trigger] self.pit_at(i2, j2) == old(self).pit_at(i2, j2)
                    ) by {
                    if i2 == px && j2 == py {
                        assert(self@[i2][j2].occupant matches Some(Occupant::Wampus(_))
                            <==> old(self)@[i2][j2].occupant matches Some(Occupant::Wampus(_)));
                    } else {
                        assert(self@[i2][j2] == old(self)@[i2][j2]);
                    }
                }
                assert forall|i2: int, j2: int|
                    in_bounds(self.rows(), self.cols(), i2, j2) implies (
                        #[trigger] self.wampus_at(i2, j2) == old(self).wampus_at(i2, j2)
                    ) by {
                    if i2 == px && j2 == py {
                        assert(self@[i2][j2].occupant matches Some(Occupant::Wampus(_))
                            <==> old(self)@[i2][j2].occupant matches Some(Occupant::Wampus(_)));
                    } else {
                        assert(self@[i2][j2] == old(self)@[i2][j2]);
                    }
                }
                assert forall|i: int, j: int|
                    in_bounds(self.rows(), self.cols(), i, j) implies #[trigger] self.cue_ok(i, j) by {
                    assert(old(self).cue_ok(i, j));
                    assert(self@[i][j].passive_percepts@ == old(self)@[i][j].passive_percepts@);
                    assert(self.gold_at(i, j) == old(self).gold_at(i, j));
                    lemma_adjacent_congruence(*self, *old(self), i, j);
                }
            }
        }
    }

    /// An independent board with the same rooms: same occupants, same
    /// cues, and the same consistency.
    pub fn duplicate(&self) -> (r: Board)
        requires
            self.wf_shape(),
        ensures
            r.wf_shape(),
            same_rooms(r, *self),
            self.wf() ==> r.wf(),
    {
        let rows = self.grid.len();
        let cols = self.grid[0].len();
        proof {
            lemma_grid_view_index(self.grid, 0);
        }
        let mut grid: Vec<Vec<Tile>> = Vec::new();
        for i in 0..rows
            invariant
                rows == self.grid@.len(),
                self.wf_shape(),
                cols == self.cols(),
                grid@.len() == i,
                forall|i2: int| 0 <= i2 < i ==> (#[trigger] grid@[i2])@.len() == cols,
                forall|i2: int, j2: int|
                    0 <= i2 < i && 0 <= j2 < cols ==> {
                        let t = #[trigger] grid@[i2]@[j2];
                        t.occupant == self@[i2][j2].occupant
                            && t.passive_percepts@ == self@[i2][j2].passive_percepts@
                    },
        {
            proof {
                lemma_board_index(*self, i as int);
            }
            let mut temp: Vec<Tile> = Vec::new();
            for j in 0..cols
                invariant
                    rows == self.grid@.len(),
                    self.wf_shape(),
                    cols == self.cols(),
                    i < rows,
                    self.grid@[i as int]@.len() == cols,
                    self@[i as int] == self.grid@[i as int]@,
                    temp@.len() == j,
                    forall|j2: int|
                        0 <= j2 < j ==> {
                            let t = #[trigger] temp@[j2];
                            t.occupant == self@[i as int][j2].occupant
                                && t.passive_percepts@ == self@[i as int][j2].passive_percepts@
                        },
            {
                let src = &self.grid[i][j];
                let mut ps: Vec<PassivePercept> = Vec::new();
                let n = src.passive_percepts.len();
                let mut m: usize = 0;
                while m < n
                    invariant
                        n == src.passive_percepts@.len(),
                        m <= n,
                        ps@ == src.passive_percepts@.take(m as int),
                    decreases n - m,
                {
                    ps.push(src.passive_percepts[m]);
                    proof {
                        assert(ps@ =~= src.passive_percepts@.take(m as int + 1));
                    }
                    m = m + 1;
                }
                proof {
                    assert(ps@ =~= src.passive_percepts@);
                }
                temp.push(Tile { occupant: src.occupant, passive_percepts: ps });
            }
            grid.push(temp);
        }
        let out = Board { grid };
        proof {
            assert forall|i2: int| 0 <= i2 < rows implies #[trigger] out@[i2] == out.grid@[i2]@ by {
                lemma_grid_view_index(out.grid, i2);
            }
            assert(same_rooms(out, *self));
            if self.wf() {
                assert forall|i2: int, j2: int|
                    in_bounds(out.rows(), out.cols(), i2, j2) implies (
                        #[trigger] out.pit_at(i2, j2) == self.pit_at(i2, j2)
                    ) by {}
                assert forall|i2: int, j2: int|
                    in_bounds(out.rows(), out.cols(), i2, j2) implies (
                        #[trigger] out.wampus_at(i2, j2) == self.wampus_at(i2, j2)
                    ) by {}
                assert forall|i: int, j: int|
                    in_bounds(out.rows(), out.cols(), i, j) implies #[trigger] out.cue_ok(i, j) by {
                    assert(self.cue_ok(i, j));
                    assert(out@[i][j].passive_percepts@ == self@[i][j].passive_percepts@);
                    assert(out.gold_at(i, j) == self.gold_at(i, j));
                    lemma_adjacent_congruence(out, *self, i, j);
                }
            }
        }
        out
    }

    /// Builds a board from a grid of parsed rooms: checks the shape,
    /// keeps the occupants, and derives every room's cues from the
    /// occupants around it.  Returns `None` exactly when the grid is
    /// empty or not rectangular.
    pub fn from_tiles(tiles: &Vec<Vec<Tile>>) -> (r: Option<Board>)
        ensures
            r is Some <==> tile_shape_ok(grid_view(*tiles)),
            r matches Some(b) ==> {
                let tv = grid_view(*tiles);
                &&& b.wf()
                &&& b.rows() == tv.len()
                &&& b.cols() == tv[0].len()
                &&& forall|i: int, j: int|
                    in_bounds(tv.len() as int, tv[0].len() as int, i, j)
                        ==> #[trigger] b.occ(i, j) == tv[i][j].occupant
                &&& forall|i: int, j: int|
                    in_bounds(tv.len() as int, tv[0].len() as int, i, j)
                        ==> (#[trigger] b@[i][j]).passive_percepts@ == canonical_cues(
                        tiles_pit_adjacent(tv, i, j),
                        tiles_wampus_adjacent(tv, i, j),
                        is_gold_occ(tv[i][j].occupant),
                    )
            },
    {
        let rows = tiles.len();
        if rows == 0 {
            return None;
        }
        let cols = tiles[0].len();
        proof {
            lemma_grid_view_index(*tiles, 0);
        }
        if cols == 0 {
            return None;
        }
        for i in 0..rows
            invariant
                rows == tiles@.len(),
                cols == tiles@[0]@.len(),
                cols > 0,
                forall|i2: int| 0 <= i2 < i ==> (#[trigger] tiles@[i2])@.len() == cols,
        {
            if tiles[i].len() != cols {
                proof {
                    lemma_grid_view_index(*tiles, 0);
                    lemma_grid_view_index(*tiles, i as int);
                }
                return None;
            }
        }
        let ghost tv = grid_view(*tiles);
        proof {
            assert forall|i2: int| 0 <= i2 < rows implies #[trigger] tv[i2] == tiles@[i2]@ by {
                lemma_grid_view_index(*tiles, i2);
            }
            assert(tile_shape_ok(tv));
        }

        let mut grid: Vec<Vec<Tile>> = Vec::new();
        for i in 0..rows
            invariant
                rows == tiles@.len(),
                cols == tiles@[0]@.len(),
                cols > 0,
                tv == grid_view(*tiles),
                forall|i2: int| 0 <= i2 < rows ==> (#[trigger] tiles@[i2])@.len() == cols,
                grid@.len() == i,
                forall|i2: int| 0 <= i2 < i ==> (#[trigger] grid@[i2])@.len() == cols,
                forall|i2: int, j2: int|
                    0 <= i2 < i && 0 <= j2 < cols ==> {
                        let t = #[trigger] grid@[i2]@[j2];
                        &&& t.occupant == tv[i2][j2].occupant
                        &&& t.passive_percepts@ == canonical_cues(
                            tiles_pit_adjacent(tv, i2, j2),
                            tiles_wampus_adjacent(tv, i2, j2),
                            is_gold_occ(tv[i2][j2].occupant),
                        )
                    },
        {
            let mut temp: Vec<Tile> = Vec::new();
            for j in 0..cols
                invariant
                    rows == tiles@.len(),
                    cols == tiles@[0]@.len(),
                    cols > 0,
                    i < rows,
                    tv == grid_view(*tiles),
                    forall|i2: int| 0 <= i2 < rows ==> (#[trigger] tiles@[i2])@.len() == cols,
                    temp@.len() == j,
                    forall|j2: int|
                        0 <= j2 < j ==> {
                            let t = #[trigger] temp@[j2];
                            &&& t.occupant == tv[i as int][j2].occupant
                            &&& t.passive_percepts@ == canonical_cues(
                                tiles_pit_adjacent(tv, i as int, j2),
                                tiles_wampus_adjacent(tv, i as int, j2),
                                is_gold_occ(tv[i as int][j2].occupant),
                            )
                        },
            {
                let mut np = false;
                let mut nw = false;
                if i > 0 {
                    let o = tiles[i - 1][j].occupant;
                    np = np || matches!(o, Some(Occupant::Pit(_)));
                    nw = nw || matches!(o, Some(Occupant::Wampus(_)));
                }
                if j > 0 {
                    let o = tiles[i][j - 1].occupant;
                    np = np || matches!(o, Some(Occupant::Pit(_)));
                    nw = nw || matches!(o, Some(Occupant::Wampus(_)));
                }
                if i + 1 < rows {
                    let o = tiles[i + 1][j].occupant;
                    np = np || matches!(o, Some(Occupant::Pit(_)));
                    nw = nw || matches!(o, Some(Occupant::Wampus(_)));
                }
                if j + 1 < cols {
                    let o = tiles[i][j + 1].occupant;
                    np = np || matches!(o, Some(Occupant::Pit(_)));
                    nw = nw || matches!(o, Some(Occupant::Wampus(_)));
                }
                let own = tiles[i][j].occupant;
                let sg = matches!(own, Some(Occupant::Gold(_)));
                proof {
                    assert forall|i2: int| 0 <= i2 < rows implies #[trigger] tv[i2] == tiles@[i2]@ by {
                        lemma_grid_view_index(*tiles, i2);
                    }
                    lemma_tiles_adjacent_cases(tv, i as int, j as int);
                    assert(np == tiles_pit_adjacent(tv, i as int, j as int));
                    assert(nw == tiles_wampus_adjacent(tv, i as int, j as int));
                }
                let mut ps: Vec<PassivePercept> = Vec::new();
                if np {
                    ps.push(PassivePercept::Breeze(Breeze));
                }
                if nw {
                    ps.push(PassivePercept::Stink(Stink));
                }
                if sg {
                    ps.push(PassivePercept::Glitter(Glitter));
                }
                proof {
                    assert(ps@ =~= canonical_cues(np, nw, sg));
                }
                temp.push(Tile { occupant: own, passive_percepts: ps });
            }
            grid.push(temp);
        }
        let out = Board { grid };
        proof {
            assert forall|i2: int| 0 <= i2 < rows implies #[trigger] out@[i2] == out.grid@[i2]@
                && tv[i2] == tiles@[i2]@ by {
                lemma_grid_view_index(out.grid, i2);
                lemma_grid_view_index(*tiles, i2);
            }
            assert(out.rows() == rows && out.cols() == cols);
            assert forall|i: int, j: int|
                in_bounds(out.rows(), out.cols(), i, j) implies #[trigger] out.cue_ok(i, j) by {
                lemma_canonical_cues(
                    tiles_pit_adjacent(tv, i, j),
                    tiles_wampus_adjacent(tv, i, j),
                    is_gold_occ(tv[i][j].occupant),
                );
                assert forall|i2: int, j2: int|
                    in_bounds(out.rows(), out.cols(), i2, j2) implies (
                        #[trigger] out.pit_at(i2, j2) == is_pit_occ(tv[i2][j2].occupant)
                    ) by {}
                assert forall|i2: int, j2: int|
                    in_bounds(out.rows(), out.cols(), i2, j2) implies (
                        #[trigger] out.wampus_at(i2, j2) == is_wampus_occ(tv[i2][j2].occupant)
                    ) by {}
                if tiles_pit_adjacent(tv, i, j) {
                    let (i2, j2) = choose|i2: int, j2: int|
                        in_bounds(tv.len() as int, tv[0].len() as int, i2, j2) && adj(i, j, i2, j2)
                            && is_pit_occ(#[trigger] tv[i2][j2].occupant);
                    assert(out.pit_at(i2, j2));
                }
                if out.pit_adjacent(i, j) {
                    let (i2, j2) = choose|i2: int, j2: int|
                        in_bounds(out.rows(), out.cols(), i2, j2) && adj(i, j, i2, j2)
                            && #[trigger] out.pit_at(i2, j2);
                    assert(is_pit_occ(tv[i2][j2].occupant));
                }
                if tiles_wampus_adjacent(tv, i, j) {
                    let (i2, j2) = choose|i2: int, j2: int|
                        in_bounds(tv.len() as int, tv[0].len() as int, i2, j2) && adj(i, j, i2, j2)
                            && is_wampus_occ(#[trigger] tv[i2][j2].occupant);
                    assert(out.wampus_at(i2, j2));
                }
                if out.wampus_adjacent(i, j) {
                    let (i2, j2) = choose|i2: int, j2: int|
                        in_bounds(out.rows(), out.cols(), i2, j2) && adj(i, j, i2, j2)
                            && #[trigger] out.wampus_at(i2, j2);
                    assert(is_wampus_occ(tv[i2][j2].occupant));
                }
                assert(out.pit_adjacent(i, j) == tiles_pit_adjacent(tv, i, j));
                assert(out.wampus_adjacent(i, j) == tiles_wampus_adjacent(tv, i, j));
            }
        }
        Some(out)
    }
}

/// A non-empty rectangular grid of parsed rooms.
pub open spec fn tile_shape_ok(tv: Seq<Seq<Tile>>) -> bool {
    tv.len() > 0 && tv[0].len() > 0 && rect_grid(tv, tv.len() as int, tv[0].len() as int)
}

/// Some room adjacent to `(i, j)` in the parsed grid holds a pit.
pub open spec fn tiles_pit_adjacent(tv: Seq<Seq<Tile>>, i: int, j: int) -> bool {
    exists|i2: int, j2: int|
        in_bounds(tv.len() as int, tv[0].len() as int, i2, j2) && adj(i, j, i2, j2)
            && is_pit_occ(#[trigger] tv[i2][j2].occupant)
}

/// Some room adjacent to `(i, j)` in the parsed grid holds the wampus.
pub open spec fn tiles_wampus_adjacent(tv: Seq<Seq<Tile>>, i: int, j: int) -> bool {
    exists|i2: int, j2: int|
        in_bounds(tv.len() as int, tv[0].len() as int, i2, j2) && adj(i, j, i2, j2)
            && is_wampus_occ(#[trigger] tv[i2][j2].occupant)
}

/// An adjacent room is one of at most four candidates, so the adjacency
/// quantifiers reduce to checking those.
proof fn lemma_tiles_adjacent_cases(tv: Seq<Seq<Tile>>, i: int, j: int)
    requires
        tile_shape_ok(tv),
        in_bounds(tv.len() as int, tv[0].len() as int, i, j),
    ensures
        tiles_pit_adjacent(tv, i, j) <==> {
            ||| (i > 0 && is_pit_occ(tv[i - 1][j].occupant))
            ||| (j > 0 && is_pit_occ(tv[i][j - 1].occupant))
            ||| (i + 1 < tv.len() && is_pit_occ(tv[i + 1][j].occupant))
            ||| (j + 1 < tv[0].len() && is_pit_occ(tv[i][j + 1].occupant))
        },
        tiles_wampus_adjacent(tv, i, j) <==> {
            ||| (i > 0 && is_wampus_occ(tv[i - 1][j].occupant))
            ||| (j > 0 && is_wampus_occ(tv[i][j - 1].occupant))
            ||| (i + 1 < tv.len() && is_wampus_occ(tv[i + 1][j].occupant))
            ||| (j + 1 < tv[0].len() && is_wampus_occ(tv[i][j + 1].occupant))
        },
{
    let r = tv.len() as int;
    let c = tv[0].len() as int;
    if i > 0 && is_pit_occ(tv[i - 1][j].occupant) {
        assert(in_bounds(r, c, i - 1, j) && adj(i, j, i - 1, j));
    }
    if j > 0 && is_pit_occ(tv[i][j - 1].occupant) {
        assert(in_bounds(r, c, i, j - 1) && adj(i, j, i, j - 1));
    }
    if i + 1 < r && is_pit_occ(tv[i + 1][j].occupant) {
        assert(in_bounds(r, c, i + 1, j) && adj(i, j, i + 1, j));
    }
    if j + 1 < c && is_pit_occ(tv[i][j + 1].occupant) {
        assert(in_bounds(r, c, i, j + 1) && adj(i, j, i, j + 1));
    }
    if i > 0 && is_wampus_occ(tv[i - 1][j].occupant) {
        assert(in_bounds(r, c, i - 1, j) && adj(i, j, i - 1, j));
    }
    if j > 0 && is_wampus_occ(tv[i][j - 1].occupant) {
        assert(in_bounds(r, c, i, j - 1) && adj(i, j, i, j - 1));
    }
    if i + 1 < r && is_wampus_occ(tv[i + 1][j].occupant) {
        assert(in_bounds(r, c, i + 1, j) && adj(i, j, i + 1, j));
    }
    if j + 1 < c && is_wampus_occ(tv[i][j + 1].occupant) {
        assert(in_bounds(r, c, i, j + 1) && adj(i, j, i, j + 1));
    }
}

} // verus!
