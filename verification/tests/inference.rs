use wampus_world::board::Board;
use wampus_world::board_analyzer::{Advice, BoardAnalyzer, InternalBoard, InternalTile, PossibleOccupant};
use wampus_world::percepts::{Occupant, Tile};
use wampus_world::point::Point;

fn board_of(rows: &[&str]) -> Board {
    let mut tiles: Vec<Vec<Tile>> = Vec::new();
    for r in rows {
        let mut row: Vec<Tile> = Vec::new();
        for ch in r.chars() {
            row.push(Tile::from_char(&ch.to_string()).unwrap());
        }
        tiles.push(row);
    }
    Board::from_tiles(&tiles).unwrap()
}

fn snapshot(a: &BoardAnalyzer, rows: usize, cols: usize) -> Vec<Vec<InternalTile>> {
    let mut out = Vec::new();
    for i in 0..rows {
        let mut row = Vec::new();
        for j in 0..cols {
            row.push(a.internal_board.get(Point { x: i, y: j }));
        }
        out.push(row);
    }
    out
}

fn belief_moved_forward(a: Option<bool>, b: Option<bool>) -> bool {
    a == b || (a.is_none() && b.is_some()) || (a == Some(true) && b == Some(false))
}

#[test]
fn scenario_empty_room() {
    let b = board_of(&["...", "...", "..."]);
    let mut a = BoardAnalyzer::new(&b);
    a.observe(Point { x: 0, y: 0 });
    let t = a.internal_board.get(Point { x: 0, y: 0 });
    assert!(t.seen);
    assert_eq!(t.empty, Some(true));
    for q in [Point { x: 0, y: 1 }, Point { x: 1, y: 0 }] {
        let n = a.internal_board.get(q);
        assert_eq!(n.empty, Some(true));
    }
}

#[test]
fn scenario_single_pit() {
    let b = board_of(&["...", ".P.", "..."]);
    let mut a = BoardAnalyzer::new(&b);
    a.observe(Point { x: 0, y: 1 });
    a.observe(Point { x: 1, y: 0 });
    let t = a.internal_board.get(Point { x: 1, y: 1 });
    assert_eq!(t.m_pit, Some(true));
    assert_eq!(t.definite_occupant, None);
    // Once the remaining alternative source around a witness is ruled
    // out, the pit's room is confirmed.
    a.observe(Point { x: 0, y: 0 });
    a.analyze();
    let t = a.internal_board.get(Point { x: 1, y: 1 });
    assert_eq!(t.definite_occupant, Some(PossibleOccupant::Pit));
}

#[test]
fn scenario_cue_absence_elimination() {
    let b = board_of(&["...", "...", "..."]);
    let mut a = BoardAnalyzer::new(&b);
    a.observe(Point { x: 1, y: 1 });
    for q in [
        Point { x: 0, y: 1 },
        Point { x: 1, y: 0 },
        Point { x: 2, y: 1 },
        Point { x: 1, y: 2 },
    ] {
        let n = a.internal_board.get(q);
        assert_eq!(n.empty, Some(true));
        assert_eq!(n.m_pit, Some(false));
        assert_eq!(n.m_wampus, Some(false));
    }
}

#[test]
fn scenario_re_observation() {
    let b = board_of(&["...", ".P.", "..."]);
    let mut a = BoardAnalyzer::new(&b);
    a.observe(Point { x: 0, y: 1 });
    a.observe(Point { x: 1, y: 0 });
    let before = snapshot(&a, 3, 3);
    let report = a.observe(Point { x: 0, y: 1 });
    assert!(report.is_empty());
    let after = snapshot(&a, 3, 3);
    assert_eq!(before, after);
}

#[test]
fn observe_twice_equals_once() {
    let b = board_of(&["...", ".P.", "..."]);
    let mut once = BoardAnalyzer::new(&b);
    let mut twice = BoardAnalyzer::new(&b);
    once.observe(Point { x: 0, y: 1 });
    twice.observe(Point { x: 0, y: 1 });
    twice.observe(Point { x: 0, y: 1 });
    assert_eq!(snapshot(&once, 3, 3), snapshot(&twice, 3, 3));
}

#[test]
fn beliefs_only_move_forward() {
    let b = board_of(&["W...", "....", ".P..", "...."]);
    let mut a = BoardAnalyzer::new(&b);
    let mut prev = snapshot(&a, 4, 4);
    let moves = [
        Point { x: 3, y: 1 },
        Point { x: 2, y: 0 },
        Point { x: 1, y: 1 },
        Point { x: 1, y: 0 },
        Point { x: 3, y: 1 },
        Point { x: 1, y: 2 },
    ];
    for p in moves {
        a.observe(p);
        a.analyze();
        let cur = snapshot(&a, 4, 4);
        for i in 0..4 {
            for j in 0..4 {
                assert!(belief_moved_forward(prev[i][j].m_pit, cur[i][j].m_pit));
                assert!(belief_moved_forward(prev[i][j].m_wampus, cur[i][j].m_wampus));
                assert!(!prev[i][j].seen || cur[i][j].seen);
                if prev[i][j].empty == Some(true) {
                    assert_eq!(cur[i][j].empty, Some(true));
                }
                if prev[i][j].definite_occupant.is_some() {
                    assert_eq!(cur[i][j].definite_occupant, prev[i][j].definite_occupant);
                }
            }
        }
        prev = cur;
    }
}

#[test]
fn safe_rooms_hold_no_hazard() {
    let b = board_of(&["W...", "....", ".P..", "...."]);
    let mut a = BoardAnalyzer::new(&b);
    for p in [
        Point { x: 3, y: 1 },
        Point { x: 2, y: 0 },
        Point { x: 1, y: 1 },
        Point { x: 1, y: 0 },
    ] {
        a.observe(p);
        a.analyze();
        for i in 0..4 {
            for j in 0..4 {
                let t = a.internal_board.get(Point { x: i, y: j });
                if t.empty == Some(true) {
                    assert_eq!(t.definite_occupant, None);
                    let hazardous = matches!(
                        b.grid[i][j].occupant,
                        Some(Occupant::Pit(_)) | Some(Occupant::Wampus(_))
                    );
                    assert!(!hazardous);
                }
            }
        }
    }
}

#[test]
fn no_false_certainty() {
    let b = board_of(&["...", ".P.", "..."]);
    let mut a = BoardAnalyzer::new(&b);
    for p in [
        Point { x: 0, y: 1 },
        Point { x: 1, y: 0 },
        Point { x: 0, y: 0 },
        Point { x: 2, y: 1 },
    ] {
        a.observe(p);
        a.analyze();
        for i in 0..3 {
            for j in 0..3 {
                let t = a.internal_board.get(Point { x: i, y: j });
                match t.definite_occupant {
                    Some(PossibleOccupant::Pit) => {
                        assert!(matches!(b.grid[i][j].occupant, Some(Occupant::Pit(_))));
                    }
                    Some(PossibleOccupant::Wampus) => {
                        assert!(matches!(b.grid[i][j].occupant, Some(Occupant::Wampus(_))));
                    }
                    None => {}
                }
            }
        }
    }
}

#[test]
fn elimination_reports_newly_safe_room() {
    let b = board_of(&["P..", "...", "..W"]);
    let mut a = BoardAnalyzer::new(&b);
    a.observe(Point { x: 0, y: 1 });
    let t = a.internal_board.get(Point { x: 1, y: 1 });
    assert_eq!(t.m_pit, Some(true));
    assert_eq!(t.m_wampus, Some(false));
    // (2,1) smells only the wampus: no breeze there rules the pit out
    // at (1,1), whose other suspicion is already gone, so it is newly
    // safe and reported as such.
    let report = a.observe(Point { x: 2, y: 1 });
    assert!(report.contains(&Point { x: 1, y: 1 }));
    let t = a.internal_board.get(Point { x: 1, y: 1 });
    assert_eq!(t.empty, Some(true));
}

#[test]
fn advise_lists_possible_hazards() {
    let b = board_of(&["...", ".P.", "..."]);
    let mut a = BoardAnalyzer::new(&b);
    a.observe(Point { x: 0, y: 1 });
    let findings = a.advise(Point { x: 0, y: 1 });
    assert_eq!(
        findings,
        vec![
            (Point { x: 0, y: 0 }, Advice::PossibleHazard(PossibleOccupant::Pit)),
            (Point { x: 1, y: 1 }, Advice::PossibleHazard(PossibleOccupant::Pit)),
            (Point { x: 0, y: 2 }, Advice::PossibleHazard(PossibleOccupant::Pit)),
        ]
    );
}

#[test]
fn advise_reports_definite_hazard_once() {
    let b = board_of(&["...", ".P.", "..."]);
    let mut a = BoardAnalyzer::new(&b);
    a.observe(Point { x: 0, y: 1 });
    a.observe(Point { x: 1, y: 0 });
    a.observe(Point { x: 0, y: 0 });
    let findings = a.advise(Point { x: 1, y: 0 });
    // The sweep just confirmed the pit; the finding appears as a fresh
    // promotion and is not repeated in the neighbor listing.
    assert_eq!(
        findings,
        vec![(Point { x: 1, y: 1 }, Advice::DefiniteHazard(PossibleOccupant::Pit))]
    );
    // A later advisory around the same room reports it as a known
    // definite hazard.
    let findings = a.advise(Point { x: 1, y: 0 });
    assert_eq!(
        findings,
        vec![(Point { x: 1, y: 1 }, Advice::DefiniteHazard(PossibleOccupant::Pit))]
    );
}

#[test]
fn wampus_confirmed_by_uniqueness() {
    let b = board_of(&["...", ".W.", "..."]);
    let mut a = BoardAnalyzer::new(&b);
    a.observe(Point { x: 0, y: 1 });
    a.observe(Point { x: 1, y: 0 });
    a.observe(Point { x: 0, y: 0 });
    a.analyze();
    let t = a.internal_board.get(Point { x: 1, y: 1 });
    assert_eq!(t.definite_occupant, Some(PossibleOccupant::Wampus));
}

#[test]
fn both_kinds_may_be_reported_for_one_room() {
    // A pit above and the wampus below the observed room: both cues are
    // felt there, so every unresolved neighbor is suspected of both.
    let b = board_of(&[".P.", "...", ".W."]);
    let mut a = BoardAnalyzer::new(&b);
    a.observe(Point { x: 1, y: 1 });
    let findings = a.advise(Point { x: 1, y: 1 });
    // The starting room (2,0) already smelled the wampus without any
    // breeze, so pits are ruled out at its neighbors (1,0) and (2,1);
    // the rooms first suspected from (1,1) are suspected of both kinds.
    let expected: Vec<(Point, Advice)> = vec![
        (Point { x: 0, y: 1 }, Advice::PossibleHazard(PossibleOccupant::Wampus)),
        (Point { x: 0, y: 1 }, Advice::PossibleHazard(PossibleOccupant::Pit)),
        (Point { x: 1, y: 0 }, Advice::PossibleHazard(PossibleOccupant::Wampus)),
        (Point { x: 2, y: 1 }, Advice::PossibleHazard(PossibleOccupant::Wampus)),
        (Point { x: 1, y: 2 }, Advice::PossibleHazard(PossibleOccupant::Wampus)),
        (Point { x: 1, y: 2 }, Advice::PossibleHazard(PossibleOccupant::Pit)),
    ];
    assert_eq!(findings, expected);
}

#[test]
fn knowledge_grid_get_set_neighbors() {
    let mut g = InternalBoard::empty(Point { x: 2, y: 3 });
    assert_eq!(g.dim(), Point { x: 2, y: 3 });
    let fresh = g.get(Point { x: 1, y: 2 });
    assert_eq!(fresh, InternalTile::empty());
    let mut t = fresh;
    t.seen = true;
    t.empty = Some(true);
    g.set(Point { x: 1, y: 2 }, t);
    assert_eq!(g.get(Point { x: 1, y: 2 }), t);
    assert_eq!(g.get(Point { x: 0, y: 2 }), fresh);
    // Corner, edge and middle rooms have two, three and four neighbors.
    assert_eq!(
        g.neighbors(Point { x: 0, y: 0 }),
        vec![Point { x: 1, y: 0 }, Point { x: 0, y: 1 }]
    );
    assert_eq!(
        g.neighbors(Point { x: 1, y: 1 }),
        vec![
            Point { x: 0, y: 1 },
            Point { x: 1, y: 0 },
            Point { x: 1, y: 2 }
        ]
    );
    assert_eq!(
        g.neighbors(Point { x: 0, y: 1 }),
        vec![
            Point { x: 0, y: 0 },
            Point { x: 1, y: 1 },
            Point { x: 0, y: 2 }
        ]
    );
}

#[test]
fn starting_room_is_observed_by_new() {
    let b = board_of(&["...", "...", "..."]);
    let a = BoardAnalyzer::new(&b);
    let t = a.internal_board.get(Point { x: 2, y: 0 });
    assert!(t.seen);
    assert_eq!(t.empty, Some(true));
}
