//! The inference engine: a grid of beliefs and the rules that move them.
//!
//! For every room the engine keeps a tri-state belief per hazard kind —
//! unknown (`None`), possible (`Some(true)`), impossible (`Some(false)`)
//! — together with whether the room was visited, whether it is proven
//! safe, and whether a hazard there is confirmed.  Beliefs only ever move
//! forward along unknown → possible → impossible, and a safe or confirmed
//! verdict is permanent.
//!
//! [`BoardAnalyzer::observe`] folds the cues of a newly entered room into
//! the beliefs of its neighbors; [`BoardAnalyzer::analyze`] sweeps the
//! grid for rooms whose suspected hazard can only be explained one way
//! and confirms them; [`BoardAnalyzer::advise`] reports the findings
//! around a room.  The invariant [`BoardAnalyzer::wf`] ties every belief
//! to the hidden board: a room marked safe holds no hazard, a belief
//! marked impossible is truly absent, and a confirmed hazard is truly
//! there.  Every operation preserves it.
//!
//! One policy is stricter here than bare cue-absence elimination: a room
//! is marked safe by elimination only once *both* hazard kinds are
//! impossible there, which keeps the safety claim sound even when the two
//! kinds are suspected from unrelated observations.

use vstd::prelude::*;

use crate::board::{adj, grid_view, in_bounds, lemma_grid_view_index, rect_grid, same_rooms, Board};
use crate::point::Point;

verus! {

/// A hazard kind a room can be confirmed to hold.
#[derive(Clone, Copy, Debug, PartialEq, Eq, Structural)]
pub enum PossibleOccupant {
    Pit,
    Wampus,
}

/// The engine's knowledge about one room.
#[derive(Clone, Copy, Debug, PartialEq, Eq)]
pub struct InternalTile {
    /// The agent has entered this room.
    pub seen: bool,
    /// `Some(true)` once the room is proven to hold no hazard; `None`
    /// until then.
    pub empty: Option<bool>,
    /// Belief that the room holds a pit: unknown, possible, impossible.
    pub m_pit: Option<bool>,
    /// Belief that the room holds the wampus.
    pub m_wampus: Option<bool>,
    /// A confirmed hazard, set at most once.
    pub definite_occupant: Option<PossibleOccupant>,
}

impl InternalTile {
    /// The belief state before anything is known.
    pub open spec fn initial() -> InternalTile {
        InternalTile {
            seen: false,
            empty: None,
            m_pit: None,
            m_wampus: None,
            definite_occupant: None,
        }
    }

    /// A room nothing is known about yet.
    pub fn empty() -> (r: InternalTile)
        ensures
            r == InternalTile::initial(),
    {
        InternalTile {
            seen: false,
            empty: None,
            m_pit: None,
            m_wampus: None,
            definite_occupant: None,
        }
    }
}

/// A belief moved forward, or stayed: unknown may become anything,
/// possible may become impossible, impossible is final.
pub open spec fn belief_forward(a: Option<bool>, b: Option<bool>) -> bool {
    match (a, b) {
        (Option::None, _) => true,
        (Option::Some(x), Option::Some(y)) => x == y || (x && !y),
        (Option::Some(_), Option::None) => false,
    }
}

/// One room's knowledge moved forward: beliefs along their order, and
/// the visited, safe and confirmed verdicts never retract.
pub open spec fn tile_forward(a: InternalTile, b: InternalTile) -> bool {
    &&& belief_forward(a.m_pit, b.m_pit)
    &&& belief_forward(a.m_wampus, b.m_wampus)
    &&& (a.seen ==> b.seen)
    &&& (a.empty == Some(true) ==> b.empty == Some(true))
    &&& (a.definite_occupant is Some ==> b.definite_occupant == a.definite_occupant)
}

/// Moving forward is transitive.
pub proof fn lemma_tile_forward_trans(a: InternalTile, b: InternalTile, c: InternalTile)
    requires
        tile_forward(a, b),
        tile_forward(b, c),
    ensures
        tile_forward(a, c),
{
}

/// The in-bounds orthogonal neighbors of `p` on an `r` by `c` grid, in
/// the fixed order row above, column left, row below, column right.
pub open spec fn neighbors_seq(r: int, c: int, p: Point) -> Seq<Point> {
    (if p.x > 0 {
        seq![Point { x: (p.x - 1) as usize, y: p.y }]
    } else {
        Seq::empty()
    }) + (if p.y > 0 {
        seq![Point { x: p.x, y: (p.y - 1) as usize }]
    } else {
        Seq::empty()
    }) + (if p.x + 1 < r {
        seq![Point { x: (p.x + 1) as usize, y: p.y }]
    } else {
        Seq::empty()
    }) + (if p.y + 1 < c {
        seq![Point { x: p.x, y: (p.y + 1) as usize }]
    } else {
        Seq::empty()
    })
}

/// What the neighbor list contains: exactly the in-bounds rooms adjacent
/// to `p`, each once, and never `p` itself.
pub proof fn lemma_neighbors_seq(r: int, c: int, p: Point)
    requires
        in_bounds(r, c, p.x as int, p.y as int),
        r <= usize::MAX as int,
        c <= usize::MAX as int,
    ensures
        neighbors_seq(r, c, p).len() <= 4,
        forall|m: int| 0 <= m < neighbors_seq(r, c, p).len() ==> {
            let q = #[trigger] neighbors_seq(r, c, p)[m];
            in_bounds(r, c, q.x as int, q.y as int) && adj(p.x as int, p.y as int, q.x as int, q.y as int)
                && q != p
        },
        forall|m: int, m2: int|
            0 <= m < m2 < neighbors_seq(r, c, p).len()
                ==> #[trigger] neighbors_seq(r, c, p)[m] != #[trigger] neighbors_seq(r, c, p)[m2],
        forall|i2: int, j2: int|
            in_bounds(r, c, i2, j2) && #[trigger] adj(p.x as int, p.y as int, i2, j2)
                ==> neighbors_seq(r, c, p).contains(Point { x: i2 as usize, y: j2 as usize }),
{
    let ns = neighbors_seq(r, c, p);
    let s1 = if p.x > 0 {
        seq![Point { x: (p.x - 1) as usize, y: p.y }]
    } else {
        Seq::<Point>::empty()
    };
    let s2 = if p.y > 0 {
        seq![Point { x: p.x, y: (p.y - 1) as usize }]
    } else {
        Seq::<Point>::empty()
    };
    let s3 = if p.x + 1 < r {
        seq![Point { x: (p.x + 1) as usize, y: p.y }]
    } else {
        Seq::<Point>::empty()
    };
    let s4 = if p.y + 1 < c {
        seq![Point { x: p.x, y: (p.y + 1) as usize }]
    } else {
        Seq::<Point>::empty()
    };
    assert(ns == s1 + s2 + s3 + s4);
    assert forall|m: int| 0 <= m < ns.len() implies {
        let q = #[trigger] ns[m];
        in_bounds(r, c, q.x as int, q.y as int) && adj(p.x as int, p.y as int, q.x as int, q.y as int)
            && q != p
    } by {
        if m < s1.len() {
            assert(ns[m] == s1[m]);
        } else if m < s1.len() + s2.len() {
            assert(ns[m] == s2[m - s1.len()]);
        } else if m < s1.len() + s2.len() + s3.len() {
            assert(ns[m] == s3[m - s1.len() - s2.len()]);
        } else {
            assert(ns[m] == s4[m - s1.len() - s2.len() - s3.len()]);
        }
    }
    assert forall|m: int, m2: int|
        0 <= m < m2 < ns.len() implies #[trigger] ns[m] != #[trigger] ns[m2] by {
        if m < s1.len() {
            assert(ns[m] == s1[m]);
        } else if m < s1.len() + s2.len() {
            assert(ns[m] == s2[m - s1.len()]);
        } else if m < s1.len() + s2.len() + s3.len() {
            assert(ns[m] == s3[m - s1.len() - s2.len()]);
        } else {
            assert(ns[m] == s4[m - s1.len() - s2.len() - s3.len()]);
        }
        if m2 < s1.len() {
            assert(ns[m2] == s1[m2]);
        } else if m2 < s1.len() + s2.len() {
            assert(ns[m2] == s2[m2 - s1.len()]);
        } else if m2 < s1.len() + s2.len() + s3.len() {
            assert(ns[m2] == s3[m2 - s1.len() - s2.len()]);
        } else {
            assert(ns[m2] == s4[m2 - s1.len() - s2.len() - s3.len()]);
        }
    }
    assert forall|i2: int, j2: int|
        in_bounds(r, c, i2, j2) && #[trigger] adj(p.x as int, p.y as int, i2, j2)
            implies ns.contains(Point { x: i2 as usize, y: j2 as usize }) by {
        let q = Point { x: i2 as usize, y: j2 as usize };
        if i2 == p.x - 1 && j2 == p.y {
            assert(ns[0] == q);
        } else if i2 == p.x && j2 == p.y - 1 {
            assert(ns[s1.len() as int] == q);
        } else if i2 == p.x + 1 && j2 == p.y {
            assert(ns[(s1.len() + s2.len()) as int] == q);
        } else {
            assert(i2 == p.x && j2 == p.y + 1);
            assert(ns[(s1.len() + s2.len() + s3.len()) as int] == q);
        }
    }
}

/// The board of beliefs, one [`InternalTile`] per room, always shaped
/// like the board it shadows.
#[derive(Debug)]
pub struct InternalBoard {
    pub grid: Vec<Vec<InternalTile>>,
}

impl InternalBoard {
    /// The mathematical contents of the belief grid.
    pub open spec fn k(self) -> Seq<Seq<InternalTile>> {
        grid_view(self.grid)
    }

    /// Number of rows.
    pub open spec fn rows(self) -> int {
        self.k().len() as int
    }

    /// Number of columns.
    pub open spec fn cols(self) -> int {
        self.k()[0].len() as int
    }

    /// A non-empty rectangular belief grid.
    pub open spec fn wf_shape(self) -> bool {
        self.rows() > 0 && self.cols() > 0 && rect_grid(self.k(), self.rows(), self.cols())
    }

    /// The belief about room `(i, j)`.
    pub open spec fn at(self, i: int, j: int) -> InternalTile {
        self.k()[i][j]
    }

    /// A belief grid of `p.x` by `p.y` rooms, nothing known yet.
    pub fn empty(p: Point) -> (r: InternalBoard)
        requires
            p.x >= 1,
            p.y >= 1,
        ensures
            r.wf_shape(),
            r.rows() == p.x,
            r.cols() == p.y,
            forall|i: int, j: int|
                in_bounds(p.x as int, p.y as int, i, j) ==> #[trigger] r.at(i, j) == InternalTile::initial(),
    {
        let mut grid: Vec<Vec<InternalTile>> = Vec::new();
        for i in 0..p.x
            invariant
                grid@.len() == i,
                forall|i2: int| 0 <= i2 < i ==> (#[trigger] grid@[i2])@.len() == p.y,
                forall|i2: int, j2: int|
                    0 <= i2 < i && 0 <= j2 < p.y ==> #[trigger] grid@[i2]@[j2] == InternalTile::initial(),
        {
            let mut temp: Vec<InternalTile> = Vec::new();
            for j in 0..p.y
                invariant
                    temp@.len() == j,
                    forall|j2: int| 0 <= j2 < j ==> #[trigger] temp@[j2] == InternalTile::initial(),
            {
                temp.push(InternalTile::empty());
            }
            grid.push(temp);
        }
        let out = InternalBoard { grid };
        proof {
            assert forall|i2: int| 0 <= i2 < p.x implies #[trigger] out.k()[i2] == out.grid@[i2]@ by {
                lemma_grid_view_index(out.grid, i2);
            }
        }
        out
    }

    /// The belief grid's dimensions, rows in `x` and columns in `y`.
    pub fn dim(&self) -> (r: Point)
        requires
            self.wf_shape(),
        ensures
            r.x == self.rows(),
            r.y == self.cols(),
    {
        proof {
            lemma_grid_view_index(self.grid, 0);
        }
        Point { x: self.grid.len(), y: self.grid[0].len() }
    }

    /// Reads the belief about the room at `p`.
    pub fn get(&self, p: Point) -> (t: InternalTile)
        requires
            self.wf_shape(),
            in_bounds(self.rows(), self.cols(), p.x as int, p.y as int),
        ensures
            t == self.at(p.x as int, p.y as int),
    {
        proof {
            lemma_grid_view_index(self.grid, p.x as int);
            assert(self.k()[p.x as int].len() == self.cols());
        }
        self.grid[p.x][p.y]
    }

    /// Replaces the belief about the room at `p`, leaving every other
    /// room untouched.
    pub fn set(&mut self, p: Point, t: InternalTile)
        requires
            old(self).wf_shape(),
            in_bounds(old(self).rows(), old(self).cols(), p.x as int, p.y as int),
        ensures
            final(self).wf_shape(),
            final(self).rows() == old(self).rows(),
            final(self).cols() == old(self).cols(),
            forall|i: int, j: int|
                in_bounds(old(self).rows(), old(self).cols(), i, j)
                    ==> #[trigger] final(self).at(i, j) == if i == p.x && j == p.y {
                        t
                    } else {
                        old(self).at(i, j)
                    },
    {
        proof {
            lemma_grid_view_index(old(self).grid, p.x as int);
            assert(old(self).k()[p.x as int].len() == old(self).cols());
        }
        self.grid[p.x][p.y] = t;
        proof {
            assert forall|i: int| 0 <= i < old(self).k().len() implies #[trigger] self.k()[i]
                == self.grid@[i]@ && old(self).k()[i] == old(self).grid@[i]@ by {
                lemma_grid_view_index(self.grid, i);
                lemma_grid_view_index(old(self).grid, i);
            }
            assert(self.grid@[p.x as int]@ =~= old(self).grid@[p.x as int]@.update(
                p.y as int,
                self.grid@[p.x as int]@[p.y as int],
            ));
            assert forall|i: int, j: int|
                in_bounds(old(self).rows(), old(self).cols(), i, j) implies #[trigger] self.at(i, j)
                == if i == p.x && j == p.y { t } else { old(self).at(i, j) } by {
                if i != p.x {
                    assert(self.grid@[i] == old(self).grid@[i]);
                }
            }
        }
    }

    /// The in-bounds orthogonal neighbors of `p`, in a fixed order.
    pub fn neighbors(&self, p: Point) -> (out: Vec<Point>)
        requires
            self.wf_shape(),
            in_bounds(self.rows(), self.cols(), p.x as int, p.y as int),
        ensures
            out@ == neighbors_seq(self.rows(), self.cols(), p),
    {
        let d = self.dim();
        let mut out: Vec<Point> = Vec::new();
        if p.x > 0 {
            out.push(Point { x: p.x - 1, y: p.y });
        }
        if p.y > 0 {
            out.push(Point { x: p.x, y: p.y - 1 });
        }
        if p.x < d.x - 1 {
            out.push(Point { x: p.x + 1, y: p.y });
        }
        if p.y < d.y - 1 {
            out.push(Point { x: p.x, y: p.y + 1 });
        }
        proof {
            assert(out@ =~= neighbors_seq(self.rows(), self.cols(), p));
        }
        out
    }
}

/// What cue-raising does to one neighboring room: a hazard kind whose
/// cue is present becomes possible where it was unknown, in rooms not
/// yet resolved.
pub open spec fn raise_stage(t: InternalTile, bp: bool, sp: bool) -> InternalTile {
    if t.empty is None {
        InternalTile {
            m_pit: if bp && t.m_pit is None {
                Some(true)
            } else {
                t.m_pit
            },
            m_wampus: if sp && t.m_wampus is None {
                Some(true)
            } else {
                t.m_wampus
            },
            ..t
        }
    } else {
        t
    }
}

/// Whether cue-absence elimination proves a neighboring room safe: some
/// suspected hazard kind is eliminated there, and the other kind ends up
/// impossible too.  Requiring both kinds is the stricter reading of
/// elimination, and the one the safety invariant supports.
pub open spec fn elim_safe(t: InternalTile, bp: bool, sp: bool) -> bool {
    t.empty is None && (
        (!bp && t.m_pit == Some(true) && t.m_wampus == Some(false))
        || (!sp && t.m_wampus == Some(true) && (!bp || t.m_pit == Some(false)))
    )
}

/// What cue-absence elimination does to one neighboring room: a hazard
/// kind whose cue is absent becomes impossible, and the room becomes
/// safe when both kinds are impossible and one was suspected.
pub open spec fn elim_stage(t: InternalTile, bp: bool, sp: bool) -> InternalTile {
    if t.empty is None {
        InternalTile {
            m_pit: if !bp {
                Some(false)
            } else {
                t.m_pit
            },
            m_wampus: if !sp {
                Some(false)
            } else {
                t.m_wampus
            },
            empty: if elim_safe(t, bp, sp) {
                Some(true)
            } else {
                t.empty
            },
            ..t
        }
    } else {
        t
    }
}

/// What observing a room with no cues at all does to one of its
/// neighbors: every unresolved neighbor is safe, both hazard kinds
/// impossible.
pub open spec fn clear_stage(t: InternalTile) -> InternalTile {
    if !t.seen && t.empty != Some(true) && t.definite_occupant is None {
        InternalTile { empty: Some(true), m_pit: Some(false), m_wampus: Some(false), ..t }
    } else {
        t
    }
}

/// What entering a room does to its own belief: visited, and safe by
/// survival.
pub open spec fn observed_tile(t: InternalTile) -> InternalTile {
    InternalTile { seen: true, empty: Some(true), ..t }
}

/// What one observation does to the belief about one neighboring room.
pub open spec fn obs_neighbor(t: InternalTile, nocue: bool, bp: bool, sp: bool) -> InternalTile {
    if nocue {
        clear_stage(t)
    } else {
        elim_stage(raise_stage(t, bp, sp), bp, sp)
    }
}

/// Whether one observation newly proves a neighboring room safe by
/// elimination; such rooms are reported to the caller.
pub open spec fn obs_reported(t: InternalTile, nocue: bool, bp: bool, sp: bool) -> bool {
    !nocue && elim_safe(raise_stage(t, bp, sp), bp, sp)
}

/// The belief grid of a fresh engine: nothing known about any room.
pub open spec fn initial_grid(r: int, c: int) -> Seq<Seq<InternalTile>> {
    Seq::new(r as nat, |i: int| Seq::new(c as nat, |j: int| InternalTile::initial()))
}

/// The whole belief grid after observing room `p`: the room itself is
/// visited and safe, each neighbor goes through cue-raising and
/// elimination (or clearing, if no cue at all was felt), and every other
/// room is untouched.  Observing an already visited room changes
/// nothing.
pub open spec fn observe_model(
    k: Seq<Seq<InternalTile>>,
    nocue: bool,
    bp: bool,
    sp: bool,
    p: Point,
) -> Seq<Seq<InternalTile>> {
    if k[p.x as int][p.y as int].seen {
        k
    } else {
        Seq::new(
            k.len(),
            |i: int|
                Seq::new(
                    k[i].len(),
                    |j: int|
                        if i == p.x as int && j == p.y as int {
                            observed_tile(k[i][j])
                        } else if adj(p.x as int, p.y as int, i, j) {
                            obs_neighbor(k[i][j], nocue, bp, sp)
                        } else {
                            k[i][j]
                        },
                ),
        )
    }
}

/// The rooms among the first `m` neighbors that an observation newly
/// proves safe, in neighbor order.
pub open spec fn observe_report(
    k: Seq<Seq<InternalTile>>,
    ns: Seq<Point>,
    nocue: bool,
    bp: bool,
    sp: bool,
    m: int,
) -> Seq<Point>
    decreases m,
{
    if m <= 0 {
        Seq::empty()
    } else {
        observe_report(k, ns, nocue, bp, sp, m - 1)
            + (if obs_reported(k[ns[m - 1].x as int][ns[m - 1].y as int], nocue, bp, sp) {
                seq![ns[m - 1]]
            } else {
                Seq::empty()
            })
    }
}

/// The inference engine: the hidden board it reads ground truth from,
/// and the belief grid it maintains.
#[derive(Debug)]
pub struct BoardAnalyzer {
    pub board: Board,
    pub internal_board: InternalBoard,
}

impl BoardAnalyzer {
    /// Number of rows.
    pub open spec fn rows(self) -> int {
        self.board.rows()
    }

    /// Number of columns.
    pub open spec fn cols(self) -> int {
        self.board.cols()
    }

    /// The belief about room `(i, j)`.
    pub open spec fn at(self, i: int, j: int) -> InternalTile {
        self.internal_board.at(i, j)
    }

    /// The engine's invariant: [`k_wf`] of its board and belief grid.
    pub open spec fn wf(self) -> bool {
        &&& k_wf(self.board, self.internal_board.k())
        &&& self.internal_board.wf_shape()
        &&& self.internal_board.rows() == self.rows()
        &&& self.internal_board.cols() == self.cols()
    }

    /// A fresh engine for a board: nothing known anywhere, and then one
    /// observation of the agent's starting room — the storage-frame
    /// image of the display origin, which the game guarantees is free
    /// of hazards.  The engine keeps its own copy of the board's rooms.
    pub fn new(board: &Board) -> (out: BoardAnalyzer)
        requires
            board.wf(),
            !board.pit_at(board.rows() - 1, 0),
            !board.wampus_at(board.rows() - 1, 0),
        ensures
            out.wf(),
            same_rooms(out.board, *board),
            out.internal_board.k() == observe_model(
                initial_grid(board.rows(), board.cols()),
                board.no_cues(board.rows() - 1, 0),
                board.has_breeze(board.rows() - 1, 0),
                board.has_stink(board.rows() - 1, 0),
                Point { x: (board.rows() - 1) as usize, y: 0 },
            ),
    {
        let copied = board.duplicate();
        let rows = board.grid.len();
        let start = Point { x: 0, y: 0 }.board_perspective(rows);
        let ghost sx = board.rows() - 1;
        let internal_board = InternalBoard::empty(copied.dim());
        let mut out = BoardAnalyzer { board: copied, internal_board };
        proof {
            let b = out.board;
            let k = out.internal_board.k();
            assert(b.rows() == board.rows() && b.cols() == board.cols());
            assert forall|i: int| 0 <= i < board.rows() implies #[trigger] k[i] =~= initial_grid(
                board.rows(),
                board.cols(),
            )[i] by {
                assert(k[i].len() == b.cols());
                assert forall|j: int| 0 <= j < board.cols() implies #[trigger] k[i][j]
                    == InternalTile::initial() by {
                    assert(out.internal_board.at(i, j) == k[i][j]);
                }
            }
            assert(k =~~= initial_grid(board.rows(), board.cols()));
            assert forall|i: int, j: int|
                in_bounds(b.rows(), b.cols(), i, j) implies #[trigger] k_cell_sound(b, k, i, j) by {
                assert(k[i][j] == InternalTile::initial());
            }
            assert forall|i: int, j: int|
                in_bounds(b.rows(), b.cols(), i, j) implies #[trigger] k_seen_covered(b, k, i, j) by {
                assert(k[i][j] == InternalTile::initial());
            }
            assert(k_wf(b, k));
            assert(out.wf());
            assert(start.x as int == sx && start.y as int == 0);
            assert(out.board.pit_at(sx, 0) == board.pit_at(sx, 0));
            assert(out.board.wampus_at(sx, 0) == board.wampus_at(sx, 0));
        }
        let _newly_safe = out.observe(start);
        proof {
            assert(out.board.no_cues(sx, 0) == board.no_cues(sx, 0));
            assert(out.board.has_breeze(sx, 0) == board.has_breeze(sx, 0));
            assert(out.board.has_stink(sx, 0) == board.has_stink(sx, 0));
        }
        out
    }

    /// Folds the cues felt at `p`, a room the agent has just entered and
    /// survived, into the knowledge grid, exactly as
    /// [`observe_model`] describes.  A second visit changes nothing.
    /// Returns the rooms newly proven safe by cue-absence elimination,
    /// in neighbor order, for the caller to report.
    #[verifier::rlimit(60)]
    pub fn observe(&mut self, p: Point) -> (newly_safe: Vec<Point>)
        requires
            old(self).wf(),
            in_bounds(old(self).rows(), old(self).cols(), p.x as int, p.y as int),
            !old(self).board.pit_at(p.x as int, p.y as int),
            !old(self).board.wampus_at(p.x as int, p.y as int),
        ensures
            final(self).wf(),
            final(self).board == old(self).board,
            final(self).internal_board.k() == observe_model(
                old(self).internal_board.k(),
                old(self).board.no_cues(p.x as int, p.y as int),
                old(self).board.has_breeze(p.x as int, p.y as int),
                old(self).board.has_stink(p.x as int, p.y as int),
                p,
            ),
            newly_safe@ == if old(self).at(p.x as int, p.y as int).seen {
                Seq::<Point>::empty()
            } else {
                observe_report(
                    old(self).internal_board.k(),
                    neighbors_seq(old(self).rows(), old(self).cols(), p),
                    old(self).board.no_cues(p.x as int, p.y as int),
                    old(self).board.has_breeze(p.x as int, p.y as int),
                    old(self).board.has_stink(p.x as int, p.y as int),
                    neighbors_seq(old(self).rows(), old(self).cols(), p).len() as int,
                )
            },
    {
        let ghost k0 = self.internal_board.k();
        let ghost r = self.rows();
        let ghost c = self.cols();
        let ghost px = p.x as int;
        let ghost py = p.y as int;
        let ghost nocue_s = self.board.no_cues(px, py);
        let ghost bp_s = self.board.has_breeze(px, py);
        let ghost sp_s = self.board.has_stink(px, py);
        let mut out: Vec<Point> = Vec::new();

        let t0 = self.internal_board.get(p);
        if t0.seen {
            proof {
                assert(self.internal_board.k() == observe_model(k0, nocue_s, bp_s, sp_s, p));
            }
            return out;
        }
        let mut tp = t0;
        tp.seen = true;
        tp.empty = Some(true);
        self.internal_board.set(p, tp);
        proof {
            assert(tp == observed_tile(k0[px][py]));
        }

        let cues = self.board.cues_at(p);
        let nocue = cues.0;
        let bp = cues.1;
        let sp = cues.2;

        let d = self.internal_board.dim();
        let neighbors = self.internal_board.neighbors(p);
        let ghost ns = neighbors_seq(r, c, p);
        proof {
            assert(r == d.x as int && c == d.y as int);
            lemma_neighbors_seq(r, c, p);
        }

        let mut idx: usize = 0;
        while idx < neighbors.len()
            invariant
                self.board == old(self).board,
                self.internal_board.wf_shape(),
                self.internal_board.rows() == r,
                self.internal_board.cols() == c,
                r > 0,
                c > 0,
                r <= usize::MAX as int,
                c <= usize::MAX as int,
                rect_grid(k0, r, c),
                in_bounds(r, c, px, py),
                px == p.x as int,
                py == p.y as int,
                !k0[px][py].seen,
                nocue == nocue_s,
                bp == bp_s,
                sp == sp_s,
                neighbors@ == ns,
                idx <= ns.len(),
                forall|m: int| 0 <= m < ns.len() ==> {
                    let q = #[trigger] ns[m];
                    in_bounds(r, c, q.x as int, q.y as int)
                        && adj(px, py, q.x as int, q.y as int) && q != p
                },
                forall|m: int, m2: int|
                    0 <= m < m2 < ns.len() ==> #[trigger] ns[m] != #[trigger] ns[m2],
                forall|i: int, j: int|
                    in_bounds(r, c, i, j) ==> #[trigger] self.internal_board.at(i, j) == (
                        if i == px && j == py {
                            observed_tile(k0[i][j])
                        } else if exists|m: int|
                            0 <= m < idx && ns[m] == (Point { x: i as usize, y: j as usize }) {
                            obs_neighbor(k0[i][j], nocue_s, bp_s, sp_s)
                        } else {
                            k0[i][j]
                        }),
                out@ == observe_report(k0, ns, nocue_s, bp_s, sp_s, idx as int),
            decreases ns.len() - idx,
        {
            let q = neighbors[idx];
            proof {
                assert(ns[idx as int] == q);
                assert(in_bounds(r, c, q.x as int, q.y as int));
                assert((Point { x: q.x, y: q.y }) == q);
                assert forall|m: int| 0 <= m < idx implies ns[m] != q by {
                    assert(ns[m] != ns[idx as int]);
                }
                assert(self.internal_board.at(q.x as int, q.y as int) == k0[q.x as int][q.y as int]);
            }
            let mut t = self.internal_board.get(q);
            let ghost tq0 = t;
            let mut made_safe = false;
            if nocue {
                if !t.seen && !matches!(t.empty, Some(true)) && t.definite_occupant.is_none() {
                    t.empty = Some(true);
                    t.m_pit = Some(false);
                    t.m_wampus = Some(false);
                }
                proof {
                    assert(t == clear_stage(tq0));
                    assert(t == obs_neighbor(tq0, nocue_s, bp_s, sp_s));
                    assert(!obs_reported(tq0, nocue_s, bp_s, sp_s));
                }
            } else {
                if t.empty.is_none() {
                    if bp && t.m_pit.is_none() {
                        t.m_pit = Some(true);
                    }
                    if sp && t.m_wampus.is_none() {
                        t.m_wampus = Some(true);
                    }
                }
                proof {
                    assert(t == raise_stage(tq0, bp_s, sp_s));
                }
                let ghost t1 = t;
                if t.empty.is_none() {
                    if !bp {
                        let was = matches!(t.m_pit, Some(true));
                        t.m_pit = Some(false);
                        if was && matches!(t.m_wampus, Some(false)) {
                            t.empty = Some(true);
                            made_safe = true;
                        }
                    }
                    if !sp {
                        let was = matches!(t.m_wampus, Some(true));
                        t.m_wampus = Some(false);
                        if was && matches!(t.m_pit, Some(false)) {
                            t.empty = Some(true);
                            made_safe = true;
                        }
                    }
                }
                proof {
                    assert(t == elim_stage(t1, bp_s, sp_s));
                    assert(made_safe == elim_safe(t1, bp_s, sp_s));
                    assert(t == obs_neighbor(tq0, nocue_s, bp_s, sp_s));
                    assert(made_safe == obs_reported(tq0, nocue_s, bp_s, sp_s));
                }
            }
            self.internal_board.set(q, t);
            if made_safe {
                out.push(q);
            }
            idx = idx + 1;
            proof {
                assert(out@ =~= observe_report(k0, ns, nocue_s, bp_s, sp_s, idx as int));
                assert forall|i: int, j: int|
                    in_bounds(r, c, i, j) implies #[trigger] self.internal_board.at(i, j) == (
                        if i == px && j == py {
                            observed_tile(k0[i][j])
                        } else if exists|m: int|
                            0 <= m < idx && ns[m] == (Point { x: i as usize, y: j as usize }) {
                            obs_neighbor(k0[i][j], nocue_s, bp_s, sp_s)
                        } else {
                            k0[i][j]
                        }) by {
                    let qq = Point { x: i as usize, y: j as usize };
                    assert(qq.x as int == i && qq.y as int == j);
                    if i == q.x as int && j == q.y as int {
                        assert(qq == q);
                        assert(ns[idx - 1] == q);
                    } else {
                        assert(qq != q);
                        if exists|m: int| 0 <= m < idx && ns[m] == qq {
                            let m = choose|m: int| 0 <= m < idx && ns[m] == qq;
                            assert(ns[idx - 1] == q);
                            assert(m != idx - 1);
                            assert(0 <= m < idx - 1 && ns[m] == qq);
                            assert(exists|m2: int| 0 <= m2 < idx - 1 && ns[m2] == qq);
                        }
                    }
                }
            }
        }
        proof {
            let kk = self.internal_board.k();
            let model = observe_model(k0, nocue_s, bp_s, sp_s, p);
            assert(kk.len() == r);
            assert(model.len() == r);
            assert(idx as int == ns.len());
            assert forall|i: int| 0 <= i < r implies #[trigger] kk[i].len() == c
                && model[i].len() == c && kk[i] =~= model[i] by {
                assert(k0[i].len() == c);
                assert forall|j: int| 0 <= j < c implies #[trigger] kk[i][j] == model[i][j] by {
                    let qq = Point { x: i as usize, y: j as usize };
                    assert(qq.x as int == i && qq.y as int == j);
                    assert(self.internal_board.at(i, j) == kk[i][j]);
                    if i == px && j == py {
                        assert(kk[i][j] == observed_tile(k0[i][j]));
                    } else if adj(px, py, i, j) {
                        assert(ns.contains(qq));
                        let m = choose|m: int| 0 <= m < ns.len() && ns[m] == qq;
                        assert(0 <= m < idx && ns[m] == qq);
                        assert(exists|m2: int| 0 <= m2 < idx && ns[m2] == qq);
                        assert(kk[i][j] == obs_neighbor(k0[i][j], nocue_s, bp_s, sp_s));
                    } else {
                        if exists|m: int| 0 <= m < idx && ns[m] == qq {
                            let m = choose|m: int| 0 <= m < idx && ns[m] == qq;
                            assert(adj(px, py, ns[m].x as int, ns[m].y as int));
                            assert(false);
                        }
                        assert(kk[i][j] == k0[i][j]);
                    }
                }
            }
            assert(kk =~~= model);
            lemma_observe_preserves_wf(self.board, k0, kk, p);
        }
        out
    }
    /// The uniqueness test, with its consequences.  `percept_neighbor`
    /// is a visited neighbor of the candidate `p`: if every other
    /// neighbor of it is disqualified as a source of `po`, the cue felt
    /// there can only come from `p`; the test then succeeds, and the
    /// other neighbors' suspicion of `po` — now explained by `p` — is
    /// withdrawn.  A failed test changes nothing.
    pub fn can_only_come_from(&mut self, percept_neighbor: Point, p: Point, po: PossibleOccupant) -> (r: bool)
        requires
            old(self).internal_board.wf_shape(),
            in_bounds(
                old(self).internal_board.rows(),
                old(self).internal_board.cols(),
                percept_neighbor.x as int,
                percept_neighbor.y as int,
            ),
            in_bounds(
                old(self).internal_board.rows(),
                old(self).internal_board.cols(),
                p.x as int,
                p.y as int,
            ),
        ensures
            final(self).board == old(self).board,
            final(self).internal_board.wf_shape(),
            final(self).internal_board.rows() == old(self).internal_board.rows(),
            final(self).internal_board.cols() == old(self).internal_board.cols(),
            r == cocf_ok(
                old(self).internal_board.k(),
                old(self).internal_board.rows(),
                old(self).internal_board.cols(),
                percept_neighbor,
                p,
                po,
            ),
            final(self).internal_board.k() == if r {
                cocf_apply(
                    old(self).internal_board.k(),
                    old(self).internal_board.rows(),
                    old(self).internal_board.cols(),
                    percept_neighbor,
                    p,
                    po,
                )
            } else {
                old(self).internal_board.k()
            },
    {
        let ghost k0 = self.internal_board.k();
        let ghost r_ = self.internal_board.rows();
        let ghost c_ = self.internal_board.cols();
        let ghost nx = percept_neighbor.x as int;
        let ghost ny = percept_neighbor.y as int;
        let ghost px = p.x as int;
        let ghost py = p.y as int;
        let pn_tile = self.internal_board.get(percept_neighbor);
        if !pn_tile.seen {
            // An unvisited room reports no cue the agent could have
            // heard, so it proves nothing.
            return false;
        }
        let d = self.internal_board.dim();
        let pn_neighbors = self.internal_board.neighbors(percept_neighbor);
        let ghost ns = neighbors_seq(r_, c_, percept_neighbor);
        proof {
            assert(r_ == d.x as int && c_ == d.y as int);
            lemma_neighbors_seq(r_, c_, percept_neighbor);
        }
        let mut m: usize = 0;
        while m < pn_neighbors.len()
            invariant
                self.board == old(self).board,
                self.internal_board.wf_shape(),
                self.internal_board.k() == k0,
                self.internal_board.rows() == r_,
                self.internal_board.cols() == c_,
                in_bounds(r_, c_, nx, ny),
                nx == percept_neighbor.x as int,
                ny == percept_neighbor.y as int,
                px == p.x as int,
                py == p.y as int,
                k0[nx][ny].seen,
                pn_neighbors@ == ns,
                m <= ns.len(),
                forall|m2: int| 0 <= m2 < ns.len() ==> {
                    let q = #[trigger] ns[m2];
                    in_bounds(r_, c_, q.x as int, q.y as int) && adj(nx, ny, q.x as int, q.y as int)
                },
                forall|m2: int| 0 <= m2 < m ==> {
                    let q = #[trigger] ns[m2];
                    q == p || {
                        let o = k0[q.x as int][q.y as int];
                        o.definite_occupant != Some(po)
                            && !(o.empty is None && m_of(o, po) == Some(true))
                    }
                },
            decreases ns.len() - m,
        {
            let o = pn_neighbors[m];
            if !(o.x == p.x && o.y == p.y) {
                let tile = self.internal_board.get(o);
                if same_kind(tile.definite_occupant, po) {
                    proof {
                        assert(!(o.x as int == px && o.y as int == py));
                        assert(!cocf_ok(k0, r_, c_, percept_neighbor, p, po));
                    }
                    return false;
                }
                let m_po = match po {
                    PossibleOccupant::Pit => tile.m_pit,
                    PossibleOccupant::Wampus => tile.m_wampus,
                };
                if tile.empty.is_none() && matches!(m_po, Some(true)) {
                    proof {
                        assert(!(o.x as int == px && o.y as int == py));
                        assert(m_of(k0[o.x as int][o.y as int], po) == Some(true));
                        assert(!cocf_ok(k0, r_, c_, percept_neighbor, p, po));
                    }
                    return false;
                }
            }
            m = m + 1;
        }
        proof {
            assert forall|i2: int, j2: int|
                in_bounds(r_, c_, i2, j2) && adj(nx, ny, i2, j2) && !(i2 == px && j2 == py)
                    implies {
                    let o = #[trigger] k0[i2][j2];
                    o.definite_occupant != Some(po) && !(o.empty is None && m_of(o, po) == Some(true))
                } by {
                let qq = Point { x: i2 as usize, y: j2 as usize };
                assert(qq.x as int == i2 && qq.y as int == j2);
                assert(ns.contains(qq));
                let mm = choose|mm: int| 0 <= mm < ns.len() && ns[mm] == qq;
                assert(0 <= mm < m);
                assert(qq != p);
            }
            assert(cocf_ok(k0, r_, c_, percept_neighbor, p, po));
        }
        let mut m2: usize = 0;
        while m2 < pn_neighbors.len()
            invariant
                self.board == old(self).board,
                self.internal_board.wf_shape(),
                self.internal_board.rows() == r_,
                self.internal_board.cols() == c_,
                r_ > 0,
                c_ > 0,
                in_bounds(r_, c_, nx, ny),
                nx == percept_neighbor.x as int,
                ny == percept_neighbor.y as int,
                px == p.x as int,
                py == p.y as int,
                r_ <= usize::MAX as int,
                c_ <= usize::MAX as int,
                rect_grid(k0, r_, c_),
                pn_neighbors@ == ns,
                m2 <= ns.len(),
                forall|mm: int| 0 <= mm < ns.len() ==> {
                    let q = #[trigger] ns[mm];
                    in_bounds(r_, c_, q.x as int, q.y as int) && adj(nx, ny, q.x as int, q.y as int)
                },
                forall|mm: int, mm2: int|
                    0 <= mm < mm2 < ns.len() ==> #[trigger] ns[mm] != #[trigger] ns[mm2],
                forall|i: int, j: int|
                    in_bounds(r_, c_, i, j) ==> #[trigger] self.internal_board.at(i, j) == (
                        if (exists|mm: int|
                            0 <= mm < m2 && ns[mm] == (Point { x: i as usize, y: j as usize }))
                            && !(i == px && j == py) {
                            with_m(k0[i][j], po, Some(false))
                        } else {
                            k0[i][j]
                        }),
            decreases ns.len() - m2,
        {
            let o = pn_neighbors[m2];
            proof {
                assert(ns[m2 as int] == o);
                assert((Point { x: o.x, y: o.y }) == o);
                assert forall|mm: int| 0 <= mm < m2 implies ns[mm] != o by {
                    assert(ns[mm] != ns[m2 as int]);
                }
            }
            if !(o.x == p.x && o.y == p.y) {
                let mut tile = self.internal_board.get(o);
                proof {
                    assert(tile == k0[o.x as int][o.y as int]);
                }
                let ghost t0 = tile;
                match po {
                    PossibleOccupant::Pit => {
                        tile.m_pit = Some(false);
                    },
                    PossibleOccupant::Wampus => {
                        tile.m_wampus = Some(false);
                    },
                }
                proof {
                    assert(tile == with_m(t0, po, Some(false)));
                }
                self.internal_board.set(o, tile);
            }
            m2 = m2 + 1;
            proof {
                assert forall|i: int, j: int|
                    in_bounds(r_, c_, i, j) implies #[trigger] self.internal_board.at(i, j) == (
                        if (exists|mm: int|
                            0 <= mm < m2 && ns[mm] == (Point { x: i as usize, y: j as usize }))
                            && !(i == px && j == py) {
                            with_m(k0[i][j], po, Some(false))
                        } else {
                            k0[i][j]
                        }) by {
                    let qq = Point { x: i as usize, y: j as usize };
                    assert(qq.x as int == i && qq.y as int == j);
                    if i == o.x as int && j == o.y as int {
                        assert(qq == o);
                        assert(ns[m2 - 1] == o);
                    } else {
                        assert(qq != o);
                        if exists|mm: int| 0 <= mm < m2 && ns[mm] == qq {
                            let mm = choose|mm: int| 0 <= mm < m2 && ns[mm] == qq;
                            assert(ns[m2 - 1] == o);
                            assert(mm != m2 - 1);
                            assert(0 <= mm < m2 - 1 && ns[mm] == qq);
                            assert(exists|mm2: int| 0 <= mm2 < m2 - 1 && ns[mm2] == qq);
                        }
                    }
                }
            }
        }
        proof {
            let kk = self.internal_board.k();
            let model = cocf_apply(k0, r_, c_, percept_neighbor, p, po);
            assert(m2 as int == ns.len());
            assert(kk.len() == r_);
            assert(model.len() == r_);
            assert forall|i: int| 0 <= i < r_ implies #[trigger] kk[i].len() == c_
                && model[i].len() == c_ && kk[i] =~= model[i] by {
                assert(k0[i].len() == c_);
                assert forall|j: int| 0 <= j < c_ implies #[trigger] kk[i][j] == model[i][j] by {
                    let qq = Point { x: i as usize, y: j as usize };
                    assert(qq.x as int == i && qq.y as int == j);
                    assert(self.internal_board.at(i, j) == kk[i][j]);
                    if adj(nx, ny, i, j) {
                        assert(ns.contains(qq));
                        let mm = choose|mm: int| 0 <= mm < ns.len() && ns[mm] == qq;
                        assert(0 <= mm < m2 && ns[mm] == qq);
                        assert(exists|mm2: int| 0 <= mm2 < m2 && ns[mm2] == qq);
                    } else {
                        if exists|mm: int| 0 <= mm < m2 && ns[mm] == qq {
                            let mm = choose|mm: int| 0 <= mm < m2 && ns[mm] == qq;
                            assert(adj(nx, ny, ns[mm].x as int, ns[mm].y as int));
                            assert(false);
                        }
                        assert(kk[i][j] == k0[i][j]);
                    }
                }
            }
            assert(kk =~~= model);
        }
        true
    }

    /// Whether room `p` definitely holds `po`: some visited neighbor's
    /// cue can only come from it.  The first witness to pass the test,
    /// in neighbor order, has its consequences applied; later
    /// candidates are not tried.
    pub fn is_def(&mut self, p: Point, po: PossibleOccupant) -> (r: bool)
        requires
            old(self).internal_board.wf_shape(),
            in_bounds(
                old(self).internal_board.rows(),
                old(self).internal_board.cols(),
                p.x as int,
                p.y as int,
            ),
        ensures
            final(self).board == old(self).board,
            final(self).internal_board.wf_shape(),
            final(self).internal_board.rows() == old(self).internal_board.rows(),
            final(self).internal_board.cols() == old(self).internal_board.cols(),
            r == is_def_model(
                old(self).internal_board.k(),
                old(self).internal_board.rows(),
                old(self).internal_board.cols(),
                p,
                po,
            ).0,
            final(self).internal_board.k() == is_def_model(
                old(self).internal_board.k(),
                old(self).internal_board.rows(),
                old(self).internal_board.cols(),
                p,
                po,
            ).1,
    {
        let ghost k0 = self.internal_board.k();
        let ghost r_ = self.internal_board.rows();
        let ghost c_ = self.internal_board.cols();
        let d = self.internal_board.dim();
        let percept_neighbors = self.internal_board.neighbors(p);
        let ghost ns = neighbors_seq(r_, c_, p);
        proof {
            assert(r_ == d.x as int && c_ == d.y as int);
            lemma_neighbors_seq(r_, c_, p);
        }
        let mut m: usize = 0;
        while m < percept_neighbors.len()
            invariant
                self.board == old(self).board,
                self.internal_board.wf_shape(),
                self.internal_board.k() == k0,
                self.internal_board.rows() == r_,
                self.internal_board.cols() == c_,
                k0 == old(self).internal_board.k(),
                r_ == old(self).internal_board.rows(),
                c_ == old(self).internal_board.cols(),
                in_bounds(r_, c_, p.x as int, p.y as int),
                ns == neighbors_seq(r_, c_, p),
                percept_neighbors@ == ns,
                m <= ns.len(),
                forall|m2: int| 0 <= m2 < ns.len() ==> {
                    let q = #[trigger] ns[m2];
                    in_bounds(r_, c_, q.x as int, q.y as int)
                },
                forall|m2: int|
                    0 <= m2 < m ==> !cocf_ok(k0, r_, c_, #[trigger] ns[m2], p, po),
            decreases ns.len() - m,
        {
            let pn = percept_neighbors[m];
            let ghost m_snap = m as int;
            if self.can_only_come_from(pn, p, po) {
                proof {
                    lemma_is_def_skip(k0, r_, c_, p, po, m_snap);
                    assert(is_def_from(k0, r_, c_, p, po, m_snap) == (
                        true,
                        cocf_apply(k0, r_, c_, ns[m_snap], p, po),
                    ));
                }
                return true;
            }
            m = m + 1;
        }
        proof {
            lemma_is_def_skip(k0, r_, c_, p, po, m as int);
        }
        false
    }

    /// The consistency sweep: visits every room once, in row-major
    /// order, and confirms each suspected hazard whose cue can only be
    /// explained one way, exactly as [`analyze_model`] describes.
    /// Returns the newly confirmed hazards, in the order they were
    /// found, so the caller can report them once.
    #[verifier::rlimit(60)]
    pub fn analyze(&mut self) -> (out: Vec<(Point, PossibleOccupant)>)
        requires
            old(self).wf(),
        ensures
            final(self).wf(),
            final(self).board == old(self).board,
            final(self).internal_board.k() == analyze_model(
                old(self).internal_board.k(),
                old(self).rows(),
                old(self).cols(),
            ).0,
            out@ == analyze_model(old(self).internal_board.k(), old(self).rows(), old(self).cols()).1,
    {
        let ghost b = self.board;
        let ghost k0 = self.internal_board.k();
        let ghost r_ = self.rows();
        let ghost c_ = self.cols();
        let mut out: Vec<(Point, PossibleOccupant)> = Vec::new();
        let d = self.internal_board.dim();
        let mut i: usize = 0;
        while i < d.x
            invariant
                self.board == old(self).board,
                b == old(self).board,
                k0 == old(self).internal_board.k(),
                r_ == old(self).rows(),
                c_ == old(self).cols(),
                d.x as int == r_,
                d.y as int == c_,
                k_wf(b, k0),
                self.internal_board.wf_shape(),
                self.internal_board.rows() == r_,
                self.internal_board.cols() == c_,
                i <= d.x,
                self.internal_board.k() == analyze_rows(k0, r_, c_, i as int).0,
                out@ == analyze_rows(k0, r_, c_, i as int).1,
            decreases d.x - i,
        {
            let ghost ki = analyze_rows(k0, r_, c_, i as int).0;
            let ghost outi = analyze_rows(k0, r_, c_, i as int).1;
            proof {
                lemma_analyze_rows_wf(b, k0, i as int);
            }
            let mut j: usize = 0;
            while j < d.y
                invariant
                    self.board == old(self).board,
                    b == old(self).board,
                    r_ == old(self).rows(),
                    c_ == old(self).cols(),
                    d.x as int == r_,
                    d.y as int == c_,
                    i < d.x,
                    j <= d.y,
                    k_wf(b, ki),
                    ki == analyze_rows(k0, r_, c_, i as int).0,
                    outi == analyze_rows(k0, r_, c_, i as int).1,
                    self.internal_board.wf_shape(),
                    self.internal_board.rows() == r_,
                    self.internal_board.cols() == c_,
                    self.internal_board.k() == analyze_row(ki, r_, c_, i as int, j as int).0,
                    out@ == outi + analyze_row(ki, r_, c_, i as int, j as int).1,
                decreases d.y - j,
            {
                let ghost j0 = j as int;
                let ghost i0 = i as int;
                let ghost kc = self.internal_board.k();
                let ghost out0 = out@;
                proof {
                    lemma_analyze_row_wf(b, ki, i0, j0);
                    assert(k_wf(b, kc));
                }
                let pt = Point { x: i, y: j };
                let t = self.internal_board.get(pt);
                let ghost step = analyze_cell(kc, r_, c_, i0, j0);
                if !(t.seen || matches!(t.empty, Some(true))
                    || (matches!(t.m_wampus, Some(false)) && matches!(t.m_pit, Some(false)))
                    || t.definite_occupant.is_some()) {
                    let ghost s1 = is_def_model(kc, r_, c_, pt, PossibleOccupant::Wampus);
                    if matches!(t.m_wampus, Some(true)) {
                        if self.is_def(pt, PossibleOccupant::Wampus) {
                            out.push((pt, PossibleOccupant::Wampus));
                            let mut t2 = self.internal_board.get(pt);
                            t2.definite_occupant = Some(PossibleOccupant::Wampus);
                            proof {
                                assert(k_cell_sound(b, kc, i0, j0));
                                match kc[i0][j0].empty {
                                    Option::Some(x) => {
                                        assert(false);
                                    },
                                    Option::None => {},
                                }
                                lemma_is_def_from_wf(b, kc, pt, PossibleOccupant::Wampus, 0);
                                assert(b.rows() == r_ && b.cols() == c_);
                                assert(s1 == is_def_from(kc, b.rows(), b.cols(), pt, PossibleOccupant::Wampus, 0));
                                assert(s1.0);
                                assert(s1.1[i0][j0] == kc[i0][j0]);
                                assert(t2 == (InternalTile {
                                    definite_occupant: Some(PossibleOccupant::Wampus),
                                    ..s1.1[i0][j0]
                                }));
                            }
                            self.internal_board.set(pt, t2);
                            proof {
                                assert(rect_grid(self.internal_board.k(), r_, c_));
                                assert forall|i2: int| 0 <= i2 < r_
                                    implies (#[trigger] s1.1[i2]).len() == c_ by {
                                    assert(s1.1[i2].len() == kc[i2].len());
                                    assert(kc[i2].len() == c_);
                                }
                                assert forall|i2: int, j2: int|
                                    in_bounds(r_, c_, i2, j2)
                                        implies #[trigger] self.internal_board.k()[i2][j2] == (
                                        if i2 == i0 && j2 == j0 {
                                            InternalTile {
                                                definite_occupant: Some(PossibleOccupant::Wampus),
                                                ..s1.1[i0][j0]
                                            }
                                        } else {
                                            s1.1[i2][j2]
                                        }) by {
                                    assert(self.internal_board.at(i2, j2) == self.internal_board.k()[i2][j2]);
                                }
                                lemma_set_definite_eq(
                                    s1.1,
                                    self.internal_board.k(),
                                    r_,
                                    c_,
                                    i0,
                                    j0,
                                    PossibleOccupant::Wampus,
                                );
                            }
                        }
                    }
                    let ghost k1 = self.internal_board.k();
                    let ghost s2 = is_def_model(k1, r_, c_, pt, PossibleOccupant::Pit);
                    if matches!(t.m_pit, Some(true)) {
                        proof {
                            if matches!(t.m_wampus, Some(true)) {
                                lemma_is_def_from_wf(b, kc, pt, PossibleOccupant::Wampus, 0);
                            }
                            assert(k_wf(b, k1));
                            assert(k1[i0][j0].m_pit == kc[i0][j0].m_pit);
                            assert(k1[i0][j0].empty == kc[i0][j0].empty);
                            assert(k_cell_sound(b, kc, i0, j0));
                            match kc[i0][j0].empty {
                                Option::Some(x) => {
                                    assert(false);
                                },
                                Option::None => {},
                            }
                        }
                        if self.is_def(pt, PossibleOccupant::Pit) {
                            out.push((pt, PossibleOccupant::Pit));
                            let mut t2 = self.internal_board.get(pt);
                            t2.definite_occupant = Some(PossibleOccupant::Pit);
                            proof {
                                lemma_is_def_from_wf(b, k1, pt, PossibleOccupant::Pit, 0);
                                assert(s2.1[i0][j0] == k1[i0][j0]);
                                assert(t2 == (InternalTile {
                                    definite_occupant: Some(PossibleOccupant::Pit),
                                    ..s2.1[i0][j0]
                                }));
                            }
                            self.internal_board.set(pt, t2);
                            proof {
                                lemma_is_def_from_wf(b, k1, pt, PossibleOccupant::Pit, 0);
                                assert(rect_grid(self.internal_board.k(), r_, c_));
                                assert forall|i2: int| 0 <= i2 < r_
                                    implies (#[trigger] s2.1[i2]).len() == c_ by {
                                    assert(s2.1[i2].len() == k1[i2].len());
                                    assert(k1[i2].len() == c_);
                                }
                                assert(s2.1[i0][j0] == k1[i0][j0]);
                                assert forall|i2: int, j2: int|
                                    in_bounds(r_, c_, i2, j2)
                                        implies #[trigger] self.internal_board.k()[i2][j2] == (
                                        if i2 == i0 && j2 == j0 {
                                            InternalTile {
                                                definite_occupant: Some(PossibleOccupant::Pit),
                                                ..s2.1[i0][j0]
                                            }
                                        } else {
                                            s2.1[i2][j2]
                                        }) by {
                                    assert(self.internal_board.at(i2, j2) == self.internal_board.k()[i2][j2]);
                                }
                                lemma_set_definite_eq(
                                    s2.1,
                                    self.internal_board.k(),
                                    r_,
                                    c_,
                                    i0,
                                    j0,
                                    PossibleOccupant::Pit,
                                );
                            }
                        }
                    }
                    proof {
                        assert(self.internal_board.k() == step.0);
                        assert(out@ =~= out0 + step.1);
                    }
                } else {
                    proof {
                        assert(step.0 == kc);
                        assert(step.1 =~= Seq::<(Point, PossibleOccupant)>::empty());
                        assert(out@ =~= out0 + step.1);
                    }
                }
                j = j + 1;
                proof {
                    assert(analyze_row(ki, r_, c_, i0, j0 + 1).0 == step.0);
                    assert(out@ =~= outi + analyze_row(ki, r_, c_, i0, j0 + 1).1);
                }
            }
            i = i + 1;
            proof {
                assert(analyze_rows(k0, r_, c_, i as int).0 == analyze_row(ki, r_, c_, i as int - 1, c_).0);
                assert(out@ =~= analyze_rows(k0, r_, c_, i as int).1);
            }
        }
        proof {
            lemma_analyze_rows_wf(b, k0, r_);
        }
        out
    }

    /// Runs the consistency sweep, then reports the findings around
    /// `p`: first every hazard the sweep just confirmed, then, for each
    /// neighbor of `p` that is not proven safe, its confirmed hazard
    /// (unless the sweep already reported it) or the hazards it may
    /// contain.  The caller renders these; a neighbor with no finding
    /// is safe to enter.
    pub fn advise(&mut self, p: Point) -> (out: Vec<(Point, Advice)>)
        requires
            old(self).wf(),
            in_bounds(old(self).rows(), old(self).cols(), p.x as int, p.y as int),
        ensures
            final(self).wf(),
            final(self).board == old(self).board,
            final(self).internal_board.k() == analyze_model(
                old(self).internal_board.k(),
                old(self).rows(),
                old(self).cols(),
            ).0,
            out@ == ({
                let res = analyze_model(old(self).internal_board.k(), old(self).rows(), old(self).cols());
                defs_advice(res.1, res.1.len() as int) + advise_entries(
                    res.0,
                    neighbors_seq(old(self).rows(), old(self).cols(), p),
                    res.1,
                    neighbors_seq(old(self).rows(), old(self).cols(), p).len() as int,
                )
            }),
    {
        let ghost r_ = self.rows();
        let ghost c_ = self.cols();
        let new_defs = self.analyze();
        let mut out: Vec<(Point, Advice)> = Vec::new();
        let mut a: usize = 0;
        while a < new_defs.len()
            invariant
                                a <= new_defs@.len(),
                out@ == defs_advice(new_defs@, a as int),
            decreases new_defs@.len() - a,
        {
            let e = new_defs[a];
            out.push((e.0, Advice::DefiniteHazard(e.1)));
            a = a + 1;
            proof {
                assert(out@ =~= defs_advice(new_defs@, a as int));
            }
        }
        let ghost ka = self.internal_board.k();
        let ghost base = out@;
        let d = self.internal_board.dim();
        let neighbors = self.internal_board.neighbors(p);
        let ghost ns = neighbors_seq(r_, c_, p);
        proof {
            assert(r_ == d.x as int && c_ == d.y as int);
            lemma_neighbors_seq(r_, c_, p);
        }
        let mut m: usize = 0;
        while m < neighbors.len()
            invariant
                self.board == old(self).board,
                self.internal_board.wf_shape(),
                self.internal_board.k() == ka,
                self.internal_board.rows() == r_,
                self.internal_board.cols() == c_,
                                neighbors@ == ns,
                m <= ns.len(),
                forall|m2: int| 0 <= m2 < ns.len() ==> {
                    let q = #[trigger] ns[m2];
                    in_bounds(r_, c_, q.x as int, q.y as int)
                },
                out@ == base + advise_entries(ka, ns, new_defs@, m as int),
            decreases ns.len() - m,
        {
            let q = neighbors[m];
            let t = self.internal_board.get(q);
            let ghost before = out@;
            if matches!(t.empty, Some(true)) {
            } else if t.definite_occupant.is_some() {
                let x = match t.definite_occupant {
                    Some(x) => x,
                    None => PossibleOccupant::Pit,
                };
                if !contains_point(&new_defs, q) {
                    out.push((q, Advice::DefiniteHazard(x)));
                }
            } else {
                if matches!(t.m_wampus, Some(true)) {
                    out.push((q, Advice::PossibleHazard(PossibleOccupant::Wampus)));
                }
                if matches!(t.m_pit, Some(true)) {
                    out.push((q, Advice::PossibleHazard(PossibleOccupant::Pit)));
                }
            }
            m = m + 1;
            proof {
                assert(out@ =~= before + advice_for(ka[q.x as int][q.y as int], q, new_defs@));
                assert(out@ =~= base + advise_entries(ka, ns, new_defs@, m as int));
            }
        }
        out
    }
}

/// What the beliefs about one room may claim, against the hidden
/// board: a safe room holds no hazard, an impossible hazard is absent,
/// a confirmed hazard is present (and still suspected, in an unresolved
/// room), and a visited room is safe.
pub open spec fn k_cell_sound(b: Board, k: Seq<Seq<InternalTile>>, i: int, j: int) -> bool {
    let t = k[i][j];
    &&& (t.empty == Some(true) ==> !b.pit_at(i, j) && !b.wampus_at(i, j))
    &&& t.empty != Some(false)
    &&& (t.m_pit == Some(false) ==> !b.pit_at(i, j))
    &&& (t.m_wampus == Some(false) ==> !b.wampus_at(i, j))
    &&& (t.definite_occupant == Some(PossibleOccupant::Pit) ==> b.pit_at(i, j)
        && t.m_pit == Some(true) && t.empty is None)
    &&& (t.definite_occupant == Some(PossibleOccupant::Wampus) ==> b.wampus_at(i, j)
        && t.m_wampus == Some(true) && t.empty is None)
    &&& (t.seen ==> t.empty == Some(true))
}

/// What a visit to room `(i, j)` guarantees about its neighbor
/// `(i2, j2)`: for each hazard kind, either the neighbor is resolved,
/// or — the kind's cue being present at `(i, j)` — its belief is at
/// least settled one way, or — the cue being absent — the kind is
/// impossible there.
pub open spec fn k_nbr_covered(
    b: Board,
    k: Seq<Seq<InternalTile>>,
    i: int,
    j: int,
    i2: int,
    j2: int,
) -> bool {
    let o = k[i2][j2];
    &&& (o.empty is Some || (if b.has_breeze(i, j) {
        o.m_pit is Some
    } else {
        o.m_pit == Some(false)
    }))
    &&& (o.empty is Some || (if b.has_stink(i, j) {
        o.m_wampus is Some
    } else {
        o.m_wampus == Some(false)
    }))
}

/// Every visited room has left its mark on all its neighbors.
pub open spec fn k_seen_covered(b: Board, k: Seq<Seq<InternalTile>>, i: int, j: int) -> bool {
    k[i][j].seen ==> forall|i2: int, j2: int|
        in_bounds(b.rows(), b.cols(), i2, j2) && adj(i, j, i2, j2)
            ==> #[trigger] k_nbr_covered(b, k, i, j, i2, j2)
}

/// The engine's invariant, over a board and a belief grid: the board is
/// well formed, the grid has its shape, every room's beliefs are sound
/// against the board, and every visited room has informed its
/// neighbors.  Everything the engine ever concludes rests on this.
pub open spec fn k_wf(b: Board, k: Seq<Seq<InternalTile>>) -> bool {
    &&& b.wf()
    &&& k.len() == b.rows()
    &&& forall|i: int| 0 <= i < b.rows() ==> (#[trigger] k[i]).len() == b.cols()
    &&& forall|i: int, j: int|
        in_bounds(b.rows(), b.cols(), i, j) ==> #[trigger] k_cell_sound(b, k, i, j)
    &&& forall|i: int, j: int|
        in_bounds(b.rows(), b.cols(), i, j) ==> #[trigger] k_seen_covered(b, k, i, j)
}

/// Observation only moves knowledge forward, room by room: beliefs along
/// unknown → possible → impossible, and visited, safe and confirmed
/// verdicts kept.
pub proof fn lemma_observe_model_forward(
    k: Seq<Seq<InternalTile>>,
    nocue: bool,
    bp: bool,
    sp: bool,
    p: Point,
    r: int,
    c: int,
)
    requires
        r > 0,
        c > 0,
        rect_grid(k, r, c),
        in_bounds(r, c, p.x as int, p.y as int),
    ensures
        forall|i: int, j: int|
            in_bounds(r, c, i, j) ==> #[trigger] tile_forward(
                k[i][j],
                observe_model(k, nocue, bp, sp, p)[i][j],
            ),
{
    let k1 = observe_model(k, nocue, bp, sp, p);
    assert forall|i: int, j: int|
        in_bounds(r, c, i, j) implies #[trigger] tile_forward(k[i][j], k1[i][j]) by {
        if k[p.x as int][p.y as int].seen {
            assert(k1[i][j] == k[i][j]);
        } else {
            if i == p.x as int && j == p.y as int {
                assert(k1[i][j] == observed_tile(k[i][j]));
            } else if adj(p.x as int, p.y as int, i, j) {
                assert(k1[i][j] == obs_neighbor(k[i][j], nocue, bp, sp));
            } else {
                assert(k1[i][j] == k[i][j]);
            }
        }
    }
}

/// Whether a confirmed occupant is of kind `h`.
fn same_kind(d: Option<PossibleOccupant>, h: PossibleOccupant) -> (r: bool)
    ensures
        r == (d == Some(h)),
{
    match (d, h) {
        (Some(PossibleOccupant::Pit), PossibleOccupant::Pit) => true,
        (Some(PossibleOccupant::Wampus), PossibleOccupant::Wampus) => true,
        _ => false,
    }
}

/// The belief a room's knowledge holds about hazard kind `h`.
pub open spec fn m_of(t: InternalTile, h: PossibleOccupant) -> Option<bool> {
    match h {
        PossibleOccupant::Pit => t.m_pit,
        PossibleOccupant::Wampus => t.m_wampus,
    }
}

/// The same knowledge with the belief about `h` replaced.
pub open spec fn with_m(t: InternalTile, h: PossibleOccupant, v: Option<bool>) -> InternalTile {
    match h {
        PossibleOccupant::Pit => InternalTile { m_pit: v, ..t },
        PossibleOccupant::Wampus => InternalTile { m_wampus: v, ..t },
    }
}

/// Room `(i, j)` truly holds hazard kind `h`.
pub open spec fn hazard_at(b: Board, h: PossibleOccupant, i: int, j: int) -> bool {
    match h {
        PossibleOccupant::Pit => b.pit_at(i, j),
        PossibleOccupant::Wampus => b.wampus_at(i, j),
    }
}

/// The cue of hazard kind `h` is felt in room `(i, j)`.
pub open spec fn cue_at(b: Board, h: PossibleOccupant, i: int, j: int) -> bool {
    match h {
        PossibleOccupant::Pit => b.has_breeze(i, j),
        PossibleOccupant::Wampus => b.has_stink(i, j),
    }
}

/// Some room adjacent to `(i, j)` truly holds hazard kind `h`.
pub open spec fn hazard_adjacent(b: Board, h: PossibleOccupant, i: int, j: int) -> bool {
    match h {
        PossibleOccupant::Pit => b.pit_adjacent(i, j),
        PossibleOccupant::Wampus => b.wampus_adjacent(i, j),
    }
}

/// The test behind the uniqueness rule: the candidate `t` can only have
/// caused the cue at `n` if `n` was visited and every other neighbor of
/// `n` is disqualified as a source of `h` — it neither already holds a
/// confirmed `h` nor is an unresolved room where `h` is still possible.
pub open spec fn cocf_ok(
    k: Seq<Seq<InternalTile>>,
    r: int,
    c: int,
    n: Point,
    t: Point,
    h: PossibleOccupant,
) -> bool {
    k[n.x as int][n.y as int].seen && forall|i2: int, j2: int|
        in_bounds(r, c, i2, j2) && adj(n.x as int, n.y as int, i2, j2)
            && !(i2 == t.x as int && j2 == t.y as int) ==> {
            let o = #[trigger] k[i2][j2];
            o.definite_occupant != Some(h) && !(o.empty is None && m_of(o, h) == Some(true))
        }
}

/// What a successful uniqueness test changes: the cue at the witness
/// `n` is now explained by `t`, so `h` becomes impossible at every
/// other neighbor of `n`.
pub open spec fn cocf_apply(
    k: Seq<Seq<InternalTile>>,
    r: int,
    c: int,
    n: Point,
    t: Point,
    h: PossibleOccupant,
) -> Seq<Seq<InternalTile>> {
    Seq::new(
        k.len(),
        |i: int|
            Seq::new(
                k[i].len(),
                |j: int|
                    if adj(n.x as int, n.y as int, i, j) && !(i == t.x as int && j == t.y as int) {
                        with_m(k[i][j], h, Some(false))
                    } else {
                        k[i][j]
                    },
            ),
    )
}

/// The knowledge grid with a hazard confirmed in room `(i, j)`.
pub open spec fn set_definite(
    k: Seq<Seq<InternalTile>>,
    i: int,
    j: int,
    h: PossibleOccupant,
) -> Seq<Seq<InternalTile>> {
    k.update(i, k[i].update(j, InternalTile { definite_occupant: Some(h), ..k[i][j] }))
}

/// The heart of the uniqueness rule.  If the knowledge is sound, the
/// candidate `t` is an unresolved room where `h` is still possible, and
/// some visited neighbor `n` of `t` passes the test — every other
/// neighbor of `n` disqualified — then `t` truly holds `h`, and no
/// other neighbor of `n` does.
pub proof fn lemma_cocf_sound(
    b: Board,
    k: Seq<Seq<InternalTile>>,
    n: Point,
    t: Point,
    h: PossibleOccupant,
)
    requires
        k_wf(b, k),
        in_bounds(b.rows(), b.cols(), t.x as int, t.y as int),
        in_bounds(b.rows(), b.cols(), n.x as int, n.y as int),
        adj(t.x as int, t.y as int, n.x as int, n.y as int),
        cocf_ok(k, b.rows(), b.cols(), n, t, h),
        m_of(k[t.x as int][t.y as int], h) == Some(true),
        k[t.x as int][t.y as int].empty is None,
    ensures
        hazard_at(b, h, t.x as int, t.y as int),
        forall|i2: int, j2: int|
            in_bounds(b.rows(), b.cols(), i2, j2) && #[trigger] adj(n.x as int, n.y as int, i2, j2)
                && !(i2 == t.x as int && j2 == t.y as int) ==> !hazard_at(b, h, i2, j2),
{
    let r = b.rows();
    let c = b.cols();
    let nx = n.x as int;
    let ny = n.y as int;
    let tx = t.x as int;
    let ty = t.y as int;
    assert(k[nx][ny].seen);
    assert(k_seen_covered(b, k, nx, ny));
    assert(k_cell_sound(b, k, tx, ty));
    assert(adj(nx, ny, tx, ty));
    assert(k_nbr_covered(b, k, nx, ny, tx, ty));
    // The cue of kind `h` must be felt at the visited witness: were it
    // absent, `h` would already be impossible at `t`.
    if !cue_at(b, h, nx, ny) {
        match h {
            PossibleOccupant::Pit => {
                assert(k[tx][ty].m_pit == Some(false));
            },
            PossibleOccupant::Wampus => {
                assert(k[tx][ty].m_wampus == Some(false));
            },
        }
        assert(false);
    }
    assert(b.cue_ok(nx, ny));
    assert(hazard_adjacent(b, h, nx, ny));
    // No other neighbor of the witness can hold `h`.
    assert forall|i2: int, j2: int|
        in_bounds(r, c, i2, j2) && #[trigger] adj(nx, ny, i2, j2) && !(i2 == tx && j2 == ty)
            implies !hazard_at(b, h, i2, j2) by {
        if hazard_at(b, h, i2, j2) {
            let o = k[i2][j2];
            assert(k_cell_sound(b, k, i2, j2));
            assert(o.definite_occupant != Some(h) && !(o.empty is None && m_of(o, h) == Some(true)));
            // Soundness forces the room to be unresolved.
            match o.empty {
                Option::Some(x) => {
                    if x {
                        match h {
                            PossibleOccupant::Pit => { assert(!b.pit_at(i2, j2)); },
                            PossibleOccupant::Wampus => { assert(!b.wampus_at(i2, j2)); },
                        }
                    }
                    assert(false);
                },
                Option::None => {},
            }
            // The visit to the witness settled the belief one way.
            assert(k_nbr_covered(b, k, nx, ny, i2, j2));
            match h {
                PossibleOccupant::Pit => {
                    assert(b.has_breeze(nx, ny));
                    assert(o.m_pit is Some);
                    match o.m_pit {
                        Option::Some(x) => {
                            if x {
                                assert(m_of(o, h) == Some(true));
                            } else {
                                assert(!b.pit_at(i2, j2));
                            }
                        },
                        Option::None => {},
                    }
                },
                PossibleOccupant::Wampus => {
                    assert(b.has_stink(nx, ny));
                    assert(o.m_wampus is Some);
                    match o.m_wampus {
                        Option::Some(x) => {
                            if x {
                                assert(m_of(o, h) == Some(true));
                            } else {
                                assert(!b.wampus_at(i2, j2));
                            }
                        },
                        Option::None => {},
                    }
                },
            }
            assert(false);
        }
    }
    // The hazard the cue reports must then sit in the candidate itself.
    match h {
        PossibleOccupant::Pit => {
            let (wi, wj) = choose|i2: int, j2: int|
                in_bounds(b.rows(), b.cols(), i2, j2) && adj(nx, ny, i2, j2) && #[trigger] b.pit_at(i2, j2);
            if !(wi == tx && wj == ty) {
                assert(!hazard_at(b, h, wi, wj));
                assert(false);
            }
        },
        PossibleOccupant::Wampus => {
            let (wi, wj) = choose|i2: int, j2: int|
                in_bounds(b.rows(), b.cols(), i2, j2) && adj(nx, ny, i2, j2) && #[trigger] b.wampus_at(i2, j2);
            if !(wi == tx && wj == ty) {
                assert(!hazard_at(b, h, wi, wj));
                assert(false);
            }
        },
    }
}

/// Confirming a hazard found by the uniqueness rule — and downgrading
/// the witness's other neighbors, whose suspicion it now explains —
/// keeps the engine's invariant.
pub proof fn lemma_promote_preserves_wf(
    b: Board,
    k: Seq<Seq<InternalTile>>,
    n: Point,
    t: Point,
    h: PossibleOccupant,
)
    requires
        k_wf(b, k),
        in_bounds(b.rows(), b.cols(), t.x as int, t.y as int),
        in_bounds(b.rows(), b.cols(), n.x as int, n.y as int),
        adj(t.x as int, t.y as int, n.x as int, n.y as int),
        cocf_ok(k, b.rows(), b.cols(), n, t, h),
        m_of(k[t.x as int][t.y as int], h) == Some(true),
        k[t.x as int][t.y as int].empty is None,
    ensures
        k_wf(b, set_definite(cocf_apply(k, b.rows(), b.cols(), n, t, h), t.x as int, t.y as int, h)),
{
    let r = b.rows();
    let c = b.cols();
    let nx = n.x as int;
    let ny = n.y as int;
    let tx = t.x as int;
    let ty = t.y as int;
    lemma_cocf_sound(b, k, n, t, h);
    let ka = cocf_apply(k, r, c, n, t, h);
    let k1 = set_definite(ka, tx, ty, h);
    assert(ka.len() == r);
    assert forall|i: int| 0 <= i < r implies (#[trigger] ka[i]).len() == c by {
        assert(k[i].len() == c);
    }
    assert forall|i: int, j: int| in_bounds(r, c, i, j) implies #[trigger] ka[i][j] == (
        if adj(nx, ny, i, j) && !(i == tx && j == ty) {
            with_m(k[i][j], h, Some(false))
        } else {
            k[i][j]
        }) by {}
    assert(ka[tx][ty] == k[tx][ty]);
    assert(k1.len() == r);
    assert forall|i: int| 0 <= i < r implies (#[trigger] k1[i]).len() == c by {
        assert(ka[i].len() == c);
        if i == tx {
            assert(k1[i] == ka[tx].update(ty, InternalTile {
                definite_occupant: Some(h),
                ..ka[tx][ty]
            }));
        } else {
            assert(k1[i] == ka[i]);
        }
    }
    assert forall|i: int, j: int| in_bounds(r, c, i, j) implies #[trigger] k1[i][j] == (
        if i == tx && j == ty {
            InternalTile { definite_occupant: Some(h), ..k[tx][ty] }
        } else {
            ka[i][j]
        }) by {
        if i == tx {
            assert(k1[i] == ka[tx].update(ty, InternalTile {
                definite_occupant: Some(h),
                ..ka[tx][ty]
            }));
        } else {
            assert(k1[i] == ka[i]);
        }
    }
    // Every room's new beliefs are sound.
    assert forall|i: int, j: int| in_bounds(r, c, i, j) implies #[trigger] k_cell_sound(b, k1, i, j) by {
        assert(k_cell_sound(b, k, i, j));
        if i == tx && j == ty {
            assert(hazard_at(b, h, tx, ty));
            match h {
                PossibleOccupant::Pit => {
                    assert(k1[i][j].m_pit == Some(true));
                    assert(b.pit_at(i, j));
                },
                PossibleOccupant::Wampus => {
                    assert(k1[i][j].m_wampus == Some(true));
                    assert(b.wampus_at(i, j));
                },
            }
        } else if adj(nx, ny, i, j) {
            assert(!hazard_at(b, h, i, j));
            assert(k1[i][j] == with_m(k[i][j], h, Some(false)));
            match h {
                PossibleOccupant::Pit => {
                    assert(!b.pit_at(i, j));
                    assert(k1[i][j].m_wampus == k[i][j].m_wampus);
                    assert(k[i][j].definite_occupant != Some(PossibleOccupant::Pit));
                },
                PossibleOccupant::Wampus => {
                    assert(!b.wampus_at(i, j));
                    assert(k1[i][j].m_pit == k[i][j].m_pit);
                    assert(k[i][j].definite_occupant != Some(PossibleOccupant::Wampus));
                },
            }
        } else {
            assert(k1[i][j] == k[i][j]);
        }
    }
    // Every visited room still covers its neighbors.
    assert forall|i: int, j: int| in_bounds(r, c, i, j) implies #[trigger] k_seen_covered(b, k1, i, j) by {
        if k1[i][j].seen {
            assert(k[i][j].seen);
            assert(k_seen_covered(b, k, i, j));
            assert forall|i2: int, j2: int|
                in_bounds(r, c, i2, j2) && adj(i, j, i2, j2)
                    implies #[trigger] k_nbr_covered(b, k1, i, j, i2, j2) by {
                assert(k_nbr_covered(b, k, i, j, i2, j2));
                let o0 = k[i2][j2];
                let o1 = k1[i2][j2];
                assert(o1.empty == o0.empty);
                match h {
                    PossibleOccupant::Pit => {
                        assert(o1.m_wampus == o0.m_wampus);
                        assert(o1.m_pit == o0.m_pit || o1.m_pit == Some(false));
                    },
                    PossibleOccupant::Wampus => {
                        assert(o1.m_pit == o0.m_pit);
                        assert(o1.m_wampus == o0.m_wampus || o1.m_wampus == Some(false));
                    },
                }
            }
        }
    }
}

/// Where the candidate's neighbors are tried as witnesses, from index
/// `m` on, in neighbor order: the first that passes the uniqueness test
/// has its consequences applied; if none passes, nothing changes.
pub open spec fn is_def_from(
    k: Seq<Seq<InternalTile>>,
    r: int,
    c: int,
    t: Point,
    h: PossibleOccupant,
    m: int,
) -> (bool, Seq<Seq<InternalTile>>)
    decreases neighbors_seq(r, c, t).len() - m,
{
    let ns = neighbors_seq(r, c, t);
    if m < 0 || m >= ns.len() {
        (false, k)
    } else if cocf_ok(k, r, c, ns[m], t, h) {
        (true, cocf_apply(k, r, c, ns[m], t, h))
    } else {
        is_def_from(k, r, c, t, h, m + 1)
    }
}

/// Whether some visited neighbor of `t` proves `t` holds `h`, and what
/// the knowledge becomes.
pub open spec fn is_def_model(
    k: Seq<Seq<InternalTile>>,
    r: int,
    c: int,
    t: Point,
    h: PossibleOccupant,
) -> (bool, Seq<Seq<InternalTile>>) {
    is_def_from(k, r, c, t, h, 0)
}

/// Witnesses that fail the test contribute nothing: the search may
/// start past them.
pub proof fn lemma_is_def_skip(
    k: Seq<Seq<InternalTile>>,
    r: int,
    c: int,
    t: Point,
    h: PossibleOccupant,
    m: int,
)
    requires
        0 <= m <= neighbors_seq(r, c, t).len(),
        forall|m2: int|
            0 <= m2 < m ==> !cocf_ok(k, r, c, #[trigger] neighbors_seq(r, c, t)[m2], t, h),
    ensures
        is_def_model(k, r, c, t, h) == is_def_from(k, r, c, t, h, m),
    decreases m,
{
    if m > 0 {
        lemma_is_def_skip(k, r, c, t, h, m - 1);
        assert(is_def_from(k, r, c, t, h, m - 1) == is_def_from(k, r, c, t, h, m));
    }
}

/// A finding reported for a neighboring room: the hazard it definitely
/// contains, or one it may contain (possibly one finding per kind).  A
/// room with no finding is implicitly safe.
#[derive(Clone, Copy, Debug, PartialEq, Eq, Structural)]
pub enum Advice {
    DefiniteHazard(PossibleOccupant),
    PossibleHazard(PossibleOccupant),
}

/// The first `m` promotions, rendered as definite findings.
pub open spec fn defs_advice(nd: Seq<(Point, PossibleOccupant)>, m: int) -> Seq<(Point, Advice)>
    decreases m,
{
    if m <= 0 {
        Seq::empty()
    } else {
        defs_advice(nd, m - 1) + seq![(nd[m - 1].0, Advice::DefiniteHazard(nd[m - 1].1))]
    }
}

/// The findings for one neighboring room: nothing if it is safe; its
/// confirmed hazard, unless that was already reported among this
/// sweep's promotions; otherwise one possible-hazard finding per
/// suspected kind, the wampus first.
pub open spec fn advice_for(
    t: InternalTile,
    q: Point,
    nd: Seq<(Point, PossibleOccupant)>,
) -> Seq<(Point, Advice)> {
    if t.empty == Some(true) {
        Seq::empty()
    } else if t.definite_occupant is Some {
        if exists|m: int| 0 <= m < nd.len() && (#[trigger] nd[m]).0 == q {
            Seq::empty()
        } else {
            seq![(q, Advice::DefiniteHazard(t.definite_occupant->Some_0))]
        }
    } else {
        (if t.m_wampus == Some(true) {
            seq![(q, Advice::PossibleHazard(PossibleOccupant::Wampus))]
        } else {
            Seq::empty()
        }) + (if t.m_pit == Some(true) {
            seq![(q, Advice::PossibleHazard(PossibleOccupant::Pit))]
        } else {
            Seq::empty()
        })
    }
}

/// The findings for the first `m` neighbors, in neighbor order.
pub open spec fn advise_entries(
    k: Seq<Seq<InternalTile>>,
    ns: Seq<Point>,
    nd: Seq<(Point, PossibleOccupant)>,
    m: int,
) -> Seq<(Point, Advice)>
    decreases m,
{
    if m <= 0 {
        Seq::empty()
    } else {
        advise_entries(k, ns, nd, m - 1)
            + advice_for(k[ns[m - 1].x as int][ns[m - 1].y as int], ns[m - 1], nd)
    }
}

/// Whether some promotion in the list names room `q`.
fn contains_point(v: &Vec<(Point, PossibleOccupant)>, q: Point) -> (r: bool)
    ensures
        r == exists|m: int| 0 <= m < v@.len() && (#[trigger] v@[m]).0 == q,
{
    let mut m: usize = 0;
    while m < v.len()
        invariant
            m <= v@.len(),
            forall|m2: int| 0 <= m2 < m ==> (#[trigger] v@[m2]).0 != q,
        decreases v@.len() - m,
    {
        if v[m].0.x == q.x && v[m].0.y == q.y {
            proof {
                assert(v@[m as int].0 == q);
            }
            return true;
        }
        m = m + 1;
    }
    false
}

/// One candidate room's share of the consistency sweep.  A resolved or
/// still-uninteresting room is skipped; otherwise each hazard kind that
/// is possible there is put to the uniqueness test, and a passing test
/// confirms the hazard.  Returns the new knowledge and the promotions,
/// in the order they are found.
pub open spec fn analyze_cell(
    k: Seq<Seq<InternalTile>>,
    r: int,
    c: int,
    i: int,
    j: int,
) -> (Seq<Seq<InternalTile>>, Seq<(Point, PossibleOccupant)>) {
    let t = k[i][j];
    let pt = Point { x: i as usize, y: j as usize };
    if t.seen || t.empty == Some(true) || (t.m_wampus == Some(false) && t.m_pit == Some(false))
        || t.definite_occupant is Some {
        (k, Seq::empty())
    } else {
        let mw = t.m_wampus;
        let mp = t.m_pit;
        let s1 = is_def_model(k, r, c, pt, PossibleOccupant::Wampus);
        let k1 = if mw == Some(true) {
            if s1.0 {
                set_definite(s1.1, i, j, PossibleOccupant::Wampus)
            } else {
                s1.1
            }
        } else {
            k
        };
        let o1: Seq<(Point, PossibleOccupant)> = if mw == Some(true) && s1.0 {
            seq![(pt, PossibleOccupant::Wampus)]
        } else {
            Seq::empty()
        };
        let s2 = is_def_model(k1, r, c, pt, PossibleOccupant::Pit);
        let k2 = if mp == Some(true) {
            if s2.0 {
                set_definite(s2.1, i, j, PossibleOccupant::Pit)
            } else {
                s2.1
            }
        } else {
            k1
        };
        let o2: Seq<(Point, PossibleOccupant)> = if mp == Some(true) && s2.0 {
            seq![(pt, PossibleOccupant::Pit)]
        } else {
            Seq::empty()
        };
        (k2, o1 + o2)
    }
}

/// The sweep over the first `j` rooms of row `i`.
pub open spec fn analyze_row(
    k: Seq<Seq<InternalTile>>,
    r: int,
    c: int,
    i: int,
    j: int,
) -> (Seq<Seq<InternalTile>>, Seq<(Point, PossibleOccupant)>)
    decreases j,
{
    if j <= 0 {
        (k, Seq::empty())
    } else {
        let p = analyze_row(k, r, c, i, j - 1);
        let q = analyze_cell(p.0, r, c, i, j - 1);
        (q.0, p.1 + q.1)
    }
}

/// The sweep over the first `i` full rows.
pub open spec fn analyze_rows(
    k: Seq<Seq<InternalTile>>,
    r: int,
    c: int,
    i: int,
) -> (Seq<Seq<InternalTile>>, Seq<(Point, PossibleOccupant)>)
    decreases i,
{
    if i <= 0 {
        (k, Seq::empty())
    } else {
        let p = analyze_rows(k, r, c, i - 1);
        let q = analyze_row(p.0, r, c, i - 1, c);
        (q.0, p.1 + q.1)
    }
}

/// The whole consistency sweep, every room once, in row-major order.
pub open spec fn analyze_model(
    k: Seq<Seq<InternalTile>>,
    r: int,
    c: int,
) -> (Seq<Seq<InternalTile>>, Seq<(Point, PossibleOccupant)>) {
    analyze_rows(k, r, c, r)
}

/// What the witness search leaves behind when the knowledge is sound:
/// a failed search changes nothing; a successful one keeps the grid's
/// shape and the candidate's own room, proves the hazard truly there,
/// and confirming it keeps the invariant.
pub proof fn lemma_is_def_from_wf(
    b: Board,
    k: Seq<Seq<InternalTile>>,
    t: Point,
    h: PossibleOccupant,
    m: int,
)
    requires
        k_wf(b, k),
        in_bounds(b.rows(), b.cols(), t.x as int, t.y as int),
        b.rows() <= usize::MAX as int,
        b.cols() <= usize::MAX as int,
        m_of(k[t.x as int][t.y as int], h) == Some(true),
        k[t.x as int][t.y as int].empty is None,
        0 <= m,
    ensures
        ({
            let res = is_def_from(k, b.rows(), b.cols(), t, h, m);
            &&& (!res.0 ==> res.1 == k)
            &&& (res.0 ==> k_wf(b, set_definite(res.1, t.x as int, t.y as int, h)))
            &&& (res.0 ==> res.1.len() == k.len()
                && (forall|i2: int| 0 <= i2 < k.len() ==> (#[trigger] res.1[i2]).len() == k[i2].len())
                && res.1[t.x as int][t.y as int] == k[t.x as int][t.y as int])
            &&& (res.0 ==> hazard_at(b, h, t.x as int, t.y as int))
        }),
    decreases neighbors_seq(b.rows(), b.cols(), t).len() - m,
{
    let r = b.rows();
    let c = b.cols();
    let tx = t.x as int;
    let ty = t.y as int;
    let ns = neighbors_seq(r, c, t);
    lemma_neighbors_seq(r, c, t);
    if m >= ns.len() {
    } else if cocf_ok(k, r, c, ns[m], t, h) {
        let n = ns[m];
        assert(in_bounds(r, c, n.x as int, n.y as int) && adj(tx, ty, n.x as int, n.y as int));
        lemma_promote_preserves_wf(b, k, n, t, h);
        lemma_cocf_sound(b, k, n, t, h);
        let ka = cocf_apply(k, r, c, n, t, h);
        assert(ka.len() == k.len());
        assert forall|i2: int| 0 <= i2 < k.len() implies (#[trigger] ka[i2]).len() == k[i2].len() by {}
        assert(ka[tx][ty] == k[tx][ty]);
    } else {
        lemma_is_def_from_wf(b, k, t, h, m + 1);
    }
}

/// One room's share of the sweep keeps the engine's invariant, and
/// every promotion it reports is a hazard truly on the board.
pub proof fn lemma_analyze_cell_wf(b: Board, k: Seq<Seq<InternalTile>>, i: int, j: int)
    requires
        k_wf(b, k),
        in_bounds(b.rows(), b.cols(), i, j),
        b.rows() <= usize::MAX as int,
        b.cols() <= usize::MAX as int,
    ensures
        k_wf(b, analyze_cell(k, b.rows(), b.cols(), i, j).0),
{
    let r = b.rows();
    let c = b.cols();
    let t = k[i][j];
    let pt = Point { x: i as usize, y: j as usize };
    if t.seen || t.empty == Some(true) || (t.m_wampus == Some(false) && t.m_pit == Some(false))
        || t.definite_occupant is Some {
    } else {
        assert(k_cell_sound(b, k, i, j));
        match t.empty {
            Option::Some(x) => {
                assert(false);
            },
            Option::None => {},
        }
        assert(pt.x as int == i && pt.y as int == j);
        let mw = t.m_wampus;
        let mp = t.m_pit;
        let s1 = is_def_model(k, r, c, pt, PossibleOccupant::Wampus);
        let k1 = if mw == Some(true) {
            if s1.0 {
                set_definite(s1.1, i, j, PossibleOccupant::Wampus)
            } else {
                s1.1
            }
        } else {
            k
        };
        if mw == Some(true) {
            lemma_is_def_from_wf(b, k, pt, PossibleOccupant::Wampus, 0);
        }
        assert(k_wf(b, k1));
        assert(k1[i][j].m_pit == t.m_pit && k1[i][j].empty == t.empty);
        let s2 = is_def_model(k1, r, c, pt, PossibleOccupant::Pit);
        if mp == Some(true) {
            lemma_is_def_from_wf(b, k1, pt, PossibleOccupant::Pit, 0);
        }
        let k2 = if mp == Some(true) {
            if s2.0 {
                set_definite(s2.1, i, j, PossibleOccupant::Pit)
            } else {
                s2.1
            }
        } else {
            k1
        };
        assert(k_wf(b, k2));
        assert(analyze_cell(k, r, c, i, j).0 == k2);
    }
}

/// Sweeping a row keeps the engine's invariant.
pub proof fn lemma_analyze_row_wf(b: Board, k: Seq<Seq<InternalTile>>, i: int, j: int)
    requires
        k_wf(b, k),
        0 <= i < b.rows(),
        0 <= j <= b.cols(),
        b.rows() <= usize::MAX as int,
        b.cols() <= usize::MAX as int,
    ensures
        k_wf(b, analyze_row(k, b.rows(), b.cols(), i, j).0),
    decreases j,
{
    if j > 0 {
        lemma_analyze_row_wf(b, k, i, j - 1);
        lemma_analyze_cell_wf(b, analyze_row(k, b.rows(), b.cols(), i, j - 1).0, i, j - 1);
    }
}

/// Sweeping whole rows keeps the engine's invariant.
pub proof fn lemma_analyze_rows_wf(b: Board, k: Seq<Seq<InternalTile>>, i: int)
    requires
        k_wf(b, k),
        0 <= i <= b.rows(),
        b.rows() <= usize::MAX as int,
        b.cols() <= usize::MAX as int,
    ensures
        k_wf(b, analyze_rows(k, b.rows(), b.cols(), i).0),
    decreases i,
{
    if i > 0 {
        lemma_analyze_rows_wf(b, k, i - 1);
        lemma_analyze_row_wf(b, analyze_rows(k, b.rows(), b.cols(), i - 1).0, i - 1, b.cols());
    }
}

/// A grid that matches a one-room update cell for cell is that update.
proof fn lemma_set_definite_eq(
    k: Seq<Seq<InternalTile>>,
    kk: Seq<Seq<InternalTile>>,
    r: int,
    c: int,
    i: int,
    j: int,
    h: PossibleOccupant,
)
    requires
        k.len() == r,
        forall|i2: int| 0 <= i2 < r ==> (#[trigger] k[i2]).len() == c,
        in_bounds(r, c, i, j),
        kk.len() == r,
        forall|i2: int| 0 <= i2 < r ==> (#[trigger] kk[i2]).len() == c,
        forall|i2: int, j2: int|
            in_bounds(r, c, i2, j2) ==> #[trigger] kk[i2][j2] == (if i2 == i && j2 == j {
                InternalTile { definite_occupant: Some(h), ..k[i][j] }
            } else {
                k[i2][j2]
            }),
    ensures
        kk == set_definite(k, i, j, h),
{
    let sd = set_definite(k, i, j, h);
    assert(sd.len() == r);
    assert forall|i2: int| 0 <= i2 < r implies #[trigger] kk[i2] =~= sd[i2] by {
        if i2 == i {
            assert(sd[i2] == k[i].update(j, InternalTile { definite_occupant: Some(h), ..k[i][j] }));
        } else {
            assert(sd[i2] == k[i2]);
        }
        assert(sd[i2].len() == c);
        assert forall|j2: int| 0 <= j2 < c implies #[trigger] kk[i2][j2] == sd[i2][j2] by {}
    }
    assert(kk =~~= sd);
}

/// Observing a survivable room keeps the engine's invariant.
pub proof fn lemma_observe_preserves_wf(
    b: Board,
    k0: Seq<Seq<InternalTile>>,
    k1: Seq<Seq<InternalTile>>,
    p: Point,
)
    requires
        k_wf(b, k0),
        in_bounds(b.rows(), b.cols(), p.x as int, p.y as int),
        !b.pit_at(p.x as int, p.y as int),
        !b.wampus_at(p.x as int, p.y as int),
        k1 == observe_model(
            k0,
            b.no_cues(p.x as int, p.y as int),
            b.has_breeze(p.x as int, p.y as int),
            b.has_stink(p.x as int, p.y as int),
            p,
        ),
    ensures
        k_wf(b, k1),
{
    let px = p.x as int;
    let py = p.y as int;
    let r = b.rows();
    let c = b.cols();
    let nocue = b.no_cues(px, py);
    let bp = b.has_breeze(px, py);
    let sp = b.has_stink(px, py);
    assert(b.cue_ok(px, py));
    if nocue {
        assert(!bp);
        assert(!sp);
    }
    if k0[px][py].seen {
        assert(k1 == k0);
        assert forall|i: int, j: int| in_bounds(r, c, i, j) implies #[trigger] k_cell_sound(b, k1, i, j) by {
            assert(k_cell_sound(b, k0, i, j));
        }
        assert forall|i: int, j: int| in_bounds(r, c, i, j) implies #[trigger] k_seen_covered(b, k1, i, j) by {
            assert(k_seen_covered(b, k0, i, j));
            if k1[i][j].seen {
                assert forall|i2: int, j2: int|
                    in_bounds(r, c, i2, j2) && adj(i, j, i2, j2) implies #[trigger] k_nbr_covered(b, k1, i, j, i2, j2) by {
                    assert(k_nbr_covered(b, k0, i, j, i2, j2));
                }
            }
        }
        return;
    }
    // Shape of the new grid, and the value of every room.
    assert(k1.len() == r);
    assert forall|i: int| 0 <= i < r implies (#[trigger] k1[i]).len() == c by {
        assert(k0[i].len() == c);
    }
    assert forall|i: int, j: int| in_bounds(r, c, i, j) implies #[trigger] k1[i][j] == (
        if i == px && j == py {
            observed_tile(k0[i][j])
        } else if adj(px, py, i, j) {
            obs_neighbor(k0[i][j], nocue, bp, sp)
        } else {
            k0[i][j]
        }) by {}
    // If a cue is absent, the matching hazard is absent around p.
    assert forall|i2: int, j2: int|
        in_bounds(r, c, i2, j2) && adj(px, py, i2, j2) && !bp implies !b.pit_at(i2, j2) by {
        if b.pit_at(i2, j2) {
            assert(b.pit_adjacent(px, py));
        }
    }
    assert forall|i2: int, j2: int|
        in_bounds(r, c, i2, j2) && adj(px, py, i2, j2) && !sp implies !b.wampus_at(i2, j2) by {
        if b.wampus_at(i2, j2) {
            assert(b.wampus_adjacent(px, py));
        }
    }
    // Soundness of every room's new beliefs.
    assert forall|i: int, j: int| in_bounds(r, c, i, j) implies #[trigger] k_cell_sound(b, k1, i, j) by {
        assert(k_cell_sound(b, k0, i, j));
        let t0 = k0[i][j];
        if i == px && j == py {
            assert(k1[i][j] == observed_tile(t0));
            if t0.definite_occupant == Some(PossibleOccupant::Pit) {
                assert(b.pit_at(i, j));
            }
            if t0.definite_occupant == Some(PossibleOccupant::Wampus) {
                assert(b.wampus_at(i, j));
            }
        } else if adj(px, py, i, j) {
            assert(k1[i][j] == obs_neighbor(t0, nocue, bp, sp));
            if nocue {
                if t0.definite_occupant == Some(PossibleOccupant::Pit) {
                    assert(b.pit_at(i, j));
                }
                if t0.definite_occupant == Some(PossibleOccupant::Wampus) {
                    assert(b.wampus_at(i, j));
                }
            } else {
                let t1 = raise_stage(t0, bp, sp);
                assert(k1[i][j] == elim_stage(t1, bp, sp));
                if t0.definite_occupant == Some(PossibleOccupant::Pit) && !bp {
                    assert(b.pit_at(i, j));
                }
                if t0.definite_occupant == Some(PossibleOccupant::Wampus) && !sp {
                    assert(b.wampus_at(i, j));
                }
            }
        } else {
            assert(k1[i][j] == t0);
        }
    }
    // Every visited room still covers its neighbors.
    lemma_observe_model_forward(k0, nocue, bp, sp, p, r, c);
    assert forall|i: int, j: int| in_bounds(r, c, i, j) implies #[trigger] k_seen_covered(b, k1, i, j) by {
        if k1[i][j].seen {
            if i == px && j == py {
                assert forall|i2: int, j2: int|
                    in_bounds(r, c, i2, j2) && adj(i, j, i2, j2) implies #[trigger] k_nbr_covered(b, k1, i, j, i2, j2) by {
                    let o0 = k0[i2][j2];
                    let o1 = obs_neighbor(o0, nocue, bp, sp);
                    assert(k1[i2][j2] == o1);
                    assert(k_cell_sound(b, k0, i2, j2));
                    assert(b.has_breeze(i, j) == bp);
                    assert(b.has_stink(i, j) == sp);
                    if o0.empty is None {
                        if nocue {
                            match o0.definite_occupant {
                                Option::Some(PossibleOccupant::Pit) => {
                                    assert(b.pit_at(i2, j2));
                                    assert(b.pit_adjacent(px, py));
                                },
                                Option::Some(PossibleOccupant::Wampus) => {
                                    assert(b.wampus_at(i2, j2));
                                    assert(b.wampus_adjacent(px, py));
                                },
                                Option::None => {},
                            }
                            assert(o0.definite_occupant is None);
                            if o0.seen {
                                assert(o0.empty == Some(true));
                            }
                            assert(o1 == clear_stage(o0));
                            assert(o1.m_pit == Some(false) && o1.m_wampus == Some(false));
                        } else {
                            let t1 = raise_stage(o0, bp, sp);
                            assert(o1 == elim_stage(t1, bp, sp));
                            if bp {
                                assert(o1.m_pit is Some);
                            } else {
                                assert(o1.m_pit == Some(false));
                            }
                            if sp {
                                assert(o1.m_wampus is Some);
                            } else {
                                assert(o1.m_wampus == Some(false));
                            }
                        }
                    } else {
                        assert(o0.empty == Some(true));
                        assert(o1.empty == Some(true));
                    }
                }
            } else {
                assert(k1[i][j].seen == k0[i][j].seen || k1[i][j] == obs_neighbor(k0[i][j], nocue, bp, sp));
                assert(k0[i][j].seen);
                assert(k_seen_covered(b, k0, i, j));
                assert forall|i2: int, j2: int|
                    in_bounds(r, c, i2, j2) && adj(i, j, i2, j2) implies #[trigger] k_nbr_covered(b, k1, i, j, i2, j2) by {
                    assert(k_nbr_covered(b, k0, i, j, i2, j2));
                    assert(tile_forward(k0[i2][j2], k1[i2][j2]));
                    assert(b.has_breeze(i, j) == b.has_breeze(i, j));
                }
            }
        }
    }
}

/// The witness search only moves beliefs forward, keeps the grid's
/// shape, and never touches the candidate's own room.
proof fn lemma_is_def_from_forward(
    k: Seq<Seq<InternalTile>>,
    r: int,
    c: int,
    t: Point,
    h: PossibleOccupant,
    m: int,
)
    requires
        rect_grid(k, r, c),
        in_bounds(r, c, t.x as int, t.y as int),
    ensures
        ({
            let res = is_def_from(k, r, c, t, h, m);
            &&& res.1.len() == k.len()
            &&& (forall|i: int| 0 <= i < r ==> (#[trigger] res.1[i]).len() == k[i].len())
            &&& (forall|i: int, j: int|
                in_bounds(r, c, i, j) ==> #[trigger] tile_forward(k[i][j], res.1[i][j]))
            &&& res.1[t.x as int][t.y as int] == k[t.x as int][t.y as int]
        }),
    decreases neighbors_seq(r, c, t).len() - m,
{
    let ns = neighbors_seq(r, c, t);
    if m < 0 || m >= ns.len() {
        assert forall|i: int, j: int|
            in_bounds(r, c, i, j) implies #[trigger] tile_forward(k[i][j], k[i][j]) by {}
    } else if cocf_ok(k, r, c, ns[m], t, h) {
        let ka = cocf_apply(k, r, c, ns[m], t, h);
        assert forall|i: int| 0 <= i < r implies (#[trigger] ka[i]).len() == k[i].len() by {}
        assert forall|i: int, j: int|
            in_bounds(r, c, i, j) implies #[trigger] tile_forward(k[i][j], ka[i][j]) by {
            if adj(ns[m].x as int, ns[m].y as int, i, j) && !(i == t.x as int && j == t.y as int) {
                assert(ka[i][j] == with_m(k[i][j], h, Some(false)));
            } else {
                assert(ka[i][j] == k[i][j]);
            }
        }
    } else {
        lemma_is_def_from_forward(k, r, c, t, h, m + 1);
    }
}

/// One room's share of the consistency sweep only moves knowledge
/// forward, everywhere.  Soundness matters here: it rules out a room
/// being promoted for both hazard kinds, which would overwrite one
/// confirmed verdict with the other.
proof fn lemma_analyze_cell_forward(b: Board, k: Seq<Seq<InternalTile>>, i: int, j: int)
    requires
        k_wf(b, k),
        in_bounds(b.rows(), b.cols(), i, j),
        b.rows() <= usize::MAX as int,
        b.cols() <= usize::MAX as int,
    ensures
        ({
            let res = analyze_cell(k, b.rows(), b.cols(), i, j);
            &&& res.0.len() == k.len()
            &&& (forall|i2: int| 0 <= i2 < b.rows() ==> (#[trigger] res.0[i2]).len() == k[i2].len())
            &&& (forall|i2: int, j2: int|
                in_bounds(b.rows(), b.cols(), i2, j2) ==> #[trigger] tile_forward(
                    k[i2][j2],
                    res.0[i2][j2],
                ))
        }),
{
    let r = b.rows();
    let c = b.cols();
    let t = k[i][j];
    let pt = Point { x: i as usize, y: j as usize };
    if t.seen || t.empty == Some(true) || (t.m_wampus == Some(false) && t.m_pit == Some(false))
        || t.definite_occupant is Some {
        assert forall|i2: int, j2: int|
            in_bounds(r, c, i2, j2) implies #[trigger] tile_forward(k[i2][j2], k[i2][j2]) by {}
    } else {
        assert(pt.x as int == i && pt.y as int == j);
        assert(k_cell_sound(b, k, i, j));
        match t.empty {
            Option::Some(x) => {
                assert(false);
            },
            Option::None => {},
        }
        let mw = t.m_wampus;
        let mp = t.m_pit;
        let s1 = is_def_model(k, r, c, pt, PossibleOccupant::Wampus);
        lemma_is_def_from_forward(k, r, c, pt, PossibleOccupant::Wampus, 0);
        if mw == Some(true) {
            lemma_is_def_from_wf(b, k, pt, PossibleOccupant::Wampus, 0);
        }
        let k1 = if mw == Some(true) {
            if s1.0 {
                set_definite(s1.1, i, j, PossibleOccupant::Wampus)
            } else {
                s1.1
            }
        } else {
            k
        };
        assert(k_wf(b, k1));
        assert(k1.len() == k.len());
        assert forall|i2: int| 0 <= i2 < r implies (#[trigger] k1[i2]).len() == k[i2].len() by {
            if mw == Some(true) && s1.0 && i2 == i {
                assert(k1[i2] == s1.1[i].update(j, InternalTile {
                    definite_occupant: Some(PossibleOccupant::Wampus),
                    ..s1.1[i][j]
                }));
            }
        }
        assert forall|i2: int, j2: int|
            in_bounds(r, c, i2, j2) implies #[trigger] tile_forward(k[i2][j2], k1[i2][j2]) by {
            if mw == Some(true) && s1.0 {
                if i2 == i && j2 == j {
                    assert(s1.1[i][j] == k[i][j]);
                    assert(k1[i2][j2] == (InternalTile {
                        definite_occupant: Some(PossibleOccupant::Wampus),
                        ..s1.1[i][j]
                    }));
                } else {
                    assert(k1[i2][j2] == s1.1[i2][j2]);
                    assert(tile_forward(k[i2][j2], s1.1[i2][j2]));
                }
            }
        }
        assert(k1[i][j].m_pit == mp && k1[i][j].empty is None);
        lemma_is_def_from_forward(k1, r, c, pt, PossibleOccupant::Pit, 0);
        if mp == Some(true) {
            lemma_is_def_from_wf(b, k1, pt, PossibleOccupant::Pit, 0);
        }
        let s2 = is_def_model(k1, r, c, pt, PossibleOccupant::Pit);
        let k2 = if mp == Some(true) {
            if s2.0 {
                set_definite(s2.1, i, j, PossibleOccupant::Pit)
            } else {
                s2.1
            }
        } else {
            k1
        };
        assert(k2.len() == k.len());
        assert forall|i2: int| 0 <= i2 < r implies (#[trigger] k2[i2]).len() == k[i2].len() by {
            assert(s2.1[i2].len() == k1[i2].len());
            if mp == Some(true) && s2.0 && i2 == i {
                assert(k2[i2] == s2.1[i].update(j, InternalTile {
                    definite_occupant: Some(PossibleOccupant::Pit),
                    ..s2.1[i][j]
                }));
            }
        }
        assert forall|i2: int, j2: int|
            in_bounds(r, c, i2, j2) implies #[trigger] tile_forward(k1[i2][j2], k2[i2][j2]) by {
            if mp == Some(true) && s2.0 {
                if i2 == i && j2 == j {
                    if mw == Some(true) && s1.0 {
                        // The room cannot be promoted for both kinds:
                        // it would have to hold both hazards.
                        assert(hazard_at(b, PossibleOccupant::Wampus, i, j));
                        assert(hazard_at(b, PossibleOccupant::Pit, i, j));
                        assert(false);
                    }
                    assert(k1[i][j].definite_occupant is None);
                    assert(s2.1[i][j] == k1[i][j]);
                    assert(k2[i2][j2] == (InternalTile {
                        definite_occupant: Some(PossibleOccupant::Pit),
                        ..s2.1[i][j]
                    }));
                } else {
                    assert(k2[i2][j2] == s2.1[i2][j2]);
                    assert(tile_forward(k1[i2][j2], s2.1[i2][j2]));
                }
            }
        }
        assert forall|i2: int, j2: int|
            in_bounds(r, c, i2, j2) implies #[trigger] tile_forward(k[i2][j2], k2[i2][j2]) by {
            lemma_tile_forward_trans(k[i2][j2], k1[i2][j2], k2[i2][j2]);
        }
        assert(analyze_cell(k, r, c, i, j).0 == k2);
    }
}

/// Sweeping a row only moves knowledge forward.
proof fn lemma_analyze_row_forward(b: Board, k: Seq<Seq<InternalTile>>, i: int, j: int)
    requires
        k_wf(b, k),
        0 <= i < b.rows(),
        0 <= j <= b.cols(),
        b.rows() <= usize::MAX as int,
        b.cols() <= usize::MAX as int,
    ensures
        ({
            let res = analyze_row(k, b.rows(), b.cols(), i, j);
            &&& k_wf(b, res.0)
            &&& (forall|i2: int, j2: int|
                in_bounds(b.rows(), b.cols(), i2, j2) ==> #[trigger] tile_forward(
                    k[i2][j2],
                    res.0[i2][j2],
                ))
        }),
    decreases j,
{
    let r = b.rows();
    let c = b.cols();
    if j <= 0 {
        assert forall|i2: int, j2: int|
            in_bounds(r, c, i2, j2) implies #[trigger] tile_forward(k[i2][j2], k[i2][j2]) by {}
    } else {
        lemma_analyze_row_forward(b, k, i, j - 1);
        let kp = analyze_row(k, r, c, i, j - 1).0;
        lemma_analyze_cell_forward(b, kp, i, j - 1);
        lemma_analyze_cell_wf(b, kp, i, j - 1);
        let kq = analyze_cell(kp, r, c, i, j - 1).0;
        assert forall|i2: int, j2: int|
            in_bounds(r, c, i2, j2) implies #[trigger] tile_forward(k[i2][j2], kq[i2][j2]) by {
            assert(tile_forward(kp[i2][j2], kq[i2][j2]));
            lemma_tile_forward_trans(k[i2][j2], kp[i2][j2], kq[i2][j2]);
        }
    }
}

/// Sweeping whole rows only moves knowledge forward.
proof fn lemma_analyze_rows_forward(b: Board, k: Seq<Seq<InternalTile>>, i: int)
    requires
        k_wf(b, k),
        0 <= i <= b.rows(),
        b.rows() <= usize::MAX as int,
        b.cols() <= usize::MAX as int,
    ensures
        ({
            let res = analyze_rows(k, b.rows(), b.cols(), i);
            &&& k_wf(b, res.0)
            &&& (forall|i2: int, j2: int|
                in_bounds(b.rows(), b.cols(), i2, j2) ==> #[trigger] tile_forward(
                    k[i2][j2],
                    res.0[i2][j2],
                ))
        }),
    decreases i,
{
    let r = b.rows();
    let c = b.cols();
    if i <= 0 {
        assert forall|i2: int, j2: int|
            in_bounds(r, c, i2, j2) implies #[trigger] tile_forward(k[i2][j2], k[i2][j2]) by {}
    } else {
        lemma_analyze_rows_forward(b, k, i - 1);
        let kp = analyze_rows(k, r, c, i - 1).0;
        lemma_analyze_row_forward(b, kp, i - 1, c);
        let kq = analyze_row(kp, r, c, i - 1, c).0;
        assert forall|i2: int, j2: int|
            in_bounds(r, c, i2, j2) implies #[trigger] tile_forward(k[i2][j2], kq[i2][j2]) by {
            lemma_tile_forward_trans(k[i2][j2], kp[i2][j2], kq[i2][j2]);
        }
    }
}

/// Beliefs never regress: the consistency sweep, like observation, only
/// moves every room's knowledge forward along unknown → possible →
/// impossible, and keeps every visited, safe and confirmed verdict.
/// Together with [`lemma_observe_model_forward`] and
/// [`lemma_tile_forward_trans`], any sequence of observations and
/// sweeps only moves knowledge forward.
pub proof fn lemma_analyze_model_forward(b: Board, k: Seq<Seq<InternalTile>>)
    requires
        k_wf(b, k),
        b.rows() <= usize::MAX as int,
        b.cols() <= usize::MAX as int,
    ensures
        forall|i: int, j: int|
            in_bounds(b.rows(), b.cols(), i, j) ==> #[trigger] tile_forward(
                k[i][j],
                analyze_model(k, b.rows(), b.cols()).0[i][j],
            ),
{
    lemma_analyze_rows_forward(b, k, b.rows());
}

/// Observing a room twice changes nothing more than observing it once:
/// the first observation leaves the room visited, and observing a
/// visited room is a no-op.
pub proof fn lemma_observe_idempotent(
    k: Seq<Seq<InternalTile>>,
    nocue: bool,
    bp: bool,
    sp: bool,
    p: Point,
    r: int,
    c: int,
)
    requires
        rect_grid(k, r, c),
        in_bounds(r, c, p.x as int, p.y as int),
    ensures
        observe_model(observe_model(k, nocue, bp, sp, p), nocue, bp, sp, p) == observe_model(
            k,
            nocue,
            bp,
            sp,
            p,
        ),
{
    let k1 = observe_model(k, nocue, bp, sp, p);
    if !k[p.x as int][p.y as int].seen {
        assert(k[p.x as int].len() == c);
        assert(k1[p.x as int][p.y as int] == observed_tile(k[p.x as int][p.y as int]));
        assert(k1[p.x as int][p.y as int].seen);
    }
}

/// A room proven safe holds neither a pit nor the wampus, and no hazard
/// is ever confirmed there.
pub proof fn lemma_safe_implies_no_hazard(b: Board, k: Seq<Seq<InternalTile>>, i: int, j: int)
    requires
        k_wf(b, k),
        in_bounds(b.rows(), b.cols(), i, j),
        k[i][j].empty == Some(true),
    ensures
        !b.pit_at(i, j),
        !b.wampus_at(i, j),
        k[i][j].definite_occupant is None,
{
    assert(k_cell_sound(b, k, i, j));
    match k[i][j].definite_occupant {
        Option::Some(PossibleOccupant::Pit) => {
            assert(false);
        },
        Option::Some(PossibleOccupant::Wampus) => {
            assert(false);
        },
        Option::None => {},
    }
}

/// No false certainty: a hazard is never confirmed in a room unless the
/// board truly places that hazard there.
pub proof fn lemma_definite_implies_hazard(
    b: Board,
    k: Seq<Seq<InternalTile>>,
    i: int,
    j: int,
    h: PossibleOccupant,
)
    requires
        k_wf(b, k),
        in_bounds(b.rows(), b.cols(), i, j),
        k[i][j].definite_occupant == Some(h),
    ensures
        hazard_at(b, h, i, j),
{
    assert(k_cell_sound(b, k, i, j));
    match h {
        PossibleOccupant::Pit => {
            assert(b.pit_at(i, j));
        },
        PossibleOccupant::Wampus => {
            assert(b.wampus_at(i, j));
        },
    }
}

} // verus!
