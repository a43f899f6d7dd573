use wampus_world::board::Board;
use wampus_world::percepts::{
    Breeze, Effect, Glitter, Occupant, PassivePercept, PassivePerceptTrait, Stink, Tile,
};
use wampus_world::player::{Direction, Player};
use wampus_world::point::Point;

fn board_of(rows: &[&str]) -> Board {
    let mut tiles: Vec<Vec<Tile>> = Vec::new();
    for r in rows {
        let mut row: Vec<Tile> = Vec::new();
        for ch in r.chars() {
            row.push(Tile::from_char(&ch.to_string()).unwrap());
        }
        tiles.push(row);
    }
    Board::from_tiles(&tiles).unwrap()
}

fn has_breeze(b: &Board, i: usize, j: usize) -> bool {
    b.grid[i][j]
        .passive_percepts
        .iter()
        .any(|p| matches!(p, PassivePercept::Breeze(_)))
}

fn has_stink(b: &Board, i: usize, j: usize) -> bool {
    b.grid[i][j]
        .passive_percepts
        .iter()
        .any(|p| matches!(p, PassivePercept::Stink(_)))
}

#[test]
fn from_char_reads_map_tokens() {
    assert!(matches!(
        Tile::from_char("P").unwrap().occupant,
        Some(Occupant::Pit(_))
    ));
    assert!(matches!(
        Tile::from_char("G").unwrap().occupant,
        Some(Occupant::Gold(_))
    ));
    let w = Tile::from_char("W").unwrap();
    match w.occupant {
        Some(Occupant::Wampus(ref wam)) => assert!(wam.is_alive()),
        _ => panic!("expected a wampus"),
    }
    assert!(Tile::from_char(".").unwrap().occupant.is_none());
    assert!(Tile::from_char("PP").unwrap().occupant.is_none());
    assert!(Tile::from_char("").unwrap().occupant.is_none());
}

#[test]
fn tile_add_appends_cues() {
    let mut t = Tile::empty();
    assert!(t.passive_percepts.is_empty());
    t.add(PassivePercept::Breeze(Breeze));
    t.add(PassivePercept::Stink(Stink));
    assert_eq!(t.passive_percepts.len(), 2);
    assert!(matches!(t.passive_percepts[0], PassivePercept::Breeze(_)));
    assert!(matches!(t.passive_percepts[1], PassivePercept::Stink(_)));
}

#[test]
fn cue_effects_and_wording() {
    assert_eq!(Stink.effect(), Effect::Neighbors);
    assert_eq!(Breeze.effect(), Effect::Neighbors);
    assert_eq!(Glitter.effect(), Effect::NotNeighbors);
    assert_eq!(Stink.describe(), "You smell something foul");
    assert_eq!(Breeze.describe(), "You feel a strong Breeze ");
    assert_eq!(
        Glitter.describe(),
        "You see a bright Gitter! You've found the Gold"
    );
    assert_eq!(
        PassivePercept::Breeze(Breeze).describe(),
        "You feel a strong Breeze "
    );
}

#[test]
fn percepts_propagate_to_neighbors_only() {
    let b = board_of(&["...", ".P.", "..."]);
    assert!(has_breeze(&b, 0, 1));
    assert!(has_breeze(&b, 1, 0));
    assert!(has_breeze(&b, 1, 2));
    assert!(has_breeze(&b, 2, 1));
    assert!(!has_breeze(&b, 0, 0));
    assert!(!has_breeze(&b, 1, 1));
    assert!(!has_breeze(&b, 2, 2));
}

#[test]
fn stink_and_glitter_placement() {
    let b = board_of(&["W.", ".G"]);
    assert!(has_stink(&b, 0, 1));
    assert!(has_stink(&b, 1, 0));
    assert!(!has_stink(&b, 0, 0));
    assert!(!has_stink(&b, 1, 1));
    let glitter_here = b.grid[1][1]
        .passive_percepts
        .iter()
        .any(|p| matches!(p, PassivePercept::Glitter(_)));
    assert!(glitter_here);
    let glitter_neighbor = b.grid[0][1]
        .passive_percepts
        .iter()
        .any(|p| matches!(p, PassivePercept::Glitter(_)));
    assert!(!glitter_neighbor);
}

#[test]
fn from_tiles_rejects_bad_shapes() {
    assert!(Board::from_tiles(&Vec::new()).is_none());
    let empty_row: Vec<Vec<Tile>> = vec![Vec::new()];
    assert!(Board::from_tiles(&empty_row).is_none());
    let ragged = vec![
        vec![Tile::empty(), Tile::empty()],
        vec![Tile::empty()],
    ];
    assert!(Board::from_tiles(&ragged).is_none());
}

#[test]
fn board_empty_and_dim() {
    let b = Board::empty(Point { x: 2, y: 3 });
    let d = b.dim();
    assert_eq!(d, Point { x: 2, y: 3 });
    for row in &b.grid {
        for t in row {
            assert!(t.occupant.is_none());
            assert!(t.passive_percepts.is_empty());
        }
    }
}

#[test]
fn win_and_lose_conditions() {
    let b = board_of(&["G..", ".W.", "..P"]);
    assert!(b.wincon(Point { x: 0, y: 0 }));
    assert!(!b.wincon(Point { x: 1, y: 1 }));
    assert!(b.wampus_losecon(Point { x: 1, y: 1 }));
    assert!(!b.wampus_losecon(Point { x: 2, y: 2 }));
    assert!(b.pit_losecon(Point { x: 2, y: 2 }));
    assert!(!b.pit_losecon(Point { x: 0, y: 1 }));
}

#[test]
fn perspective_conversions() {
    // The display origin sits on the bottom row of storage.
    assert_eq!(
        Point { x: 0, y: 0 }.board_perspective(3),
        Point { x: 2, y: 0 }
    );
    assert_eq!(
        Point { x: 1, y: 2 }.board_perspective(3),
        Point { x: 0, y: 1 }
    );
    assert_eq!(
        Point { x: 2, y: 0 }.player_perspective(3),
        Point { x: 0, y: 0 }
    );
    let p = Point { x: 1, y: 2 };
    let rows = 4;
    assert_eq!(p.board_perspective(rows).player_perspective(rows), p);
    assert_eq!(p.player_perspective(rows).board_perspective(rows), p);
}

#[test]
fn player_turns() {
    let mut p = Player::new();
    assert_eq!(p.dir, Direction::East);
    p.turn_left();
    assert_eq!(p.dir, Direction::North);
    p.turn_left();
    assert_eq!(p.dir, Direction::West);
    p.turn_right();
    assert_eq!(p.dir, Direction::North);
    p.turn_right();
    p.turn_right();
    assert_eq!(p.dir, Direction::South);
}

#[test]
fn player_forward_and_walls() {
    let mut p = Player::new();
    // Facing east from the origin of a 2x2 board: one step, then the
    // wall.
    assert!(p.forward(2, 2));
    assert_eq!(p.pos, Point { x: 1, y: 0 });
    assert!(!p.forward(2, 2));
    assert_eq!(p.pos, Point { x: 1, y: 0 });
    p.turn_left();
    assert!(p.forward(2, 2));
    assert_eq!(p.pos, Point { x: 1, y: 1 });
    assert!(!p.forward(2, 2));
    p.turn_left();
    assert!(p.forward(2, 2));
    assert_eq!(p.pos, Point { x: 0, y: 1 });
}

#[test]
fn player_senses_cues() {
    let b = board_of(&["...", ".P.", "..."]);
    let mut p = Player::new();
    // Display (1, 0) is storage (2, 1), adjacent to the pit.
    assert!(p.forward(3, 3));
    let (breeze, stink) = p.observe(&b);
    assert!(breeze);
    assert!(!stink);
}

#[test]
fn shooting_fells_the_first_wampus_on_the_path() {
    let mut b = board_of(&["...", "...", "..W"]);
    let mut p = Player::new();
    assert_eq!(p.arrows, 1);
    // Facing east from display (0,0) — storage (2,0) — the arrow flies
    // along the bottom storage row into the wampus.
    let hit = p.shoot(&mut b);
    assert!(hit);
    assert_eq!(p.arrows, 0);
    match &b.grid[2][2].occupant {
        Some(Occupant::Wampus(w)) => assert!(!w.is_alive()),
        _ => panic!("the wampus should still occupy its room"),
    }
    // No arrows left: nothing happens.
    let hit = p.shoot(&mut b);
    assert!(!hit);
    assert_eq!(p.arrows, 0);
}

#[test]
fn shooting_past_the_wall_hits_nothing() {
    let mut b = board_of(&["W..", "...", "..."]);
    let mut p = Player::new();
    // Facing east along the bottom storage row: the wampus sits on the
    // top row, out of the arrow's path.
    let hit = p.shoot(&mut b);
    assert!(!hit);
    assert_eq!(p.arrows, 0);
    match &b.grid[0][0].occupant {
        Some(Occupant::Wampus(w)) => assert!(w.is_alive()),
        _ => panic!("the wampus should still occupy its room"),
    }
}

#[test]
fn fragging_silences_the_wampus() {
    let mut b = board_of(&["W."]);
    b.frag_wampus(Point { x: 0, y: 0 });
    match &b.grid[0][0].occupant {
        Some(Occupant::Wampus(w)) => assert!(!w.is_alive()),
        _ => panic!("the wampus should still occupy its room"),
    }
    // Fragging an unoccupied room changes nothing.
    b.frag_wampus(Point { x: 0, y: 1 });
    assert!(b.grid[0][1].occupant.is_none());
}

#[test]
fn duplicate_reproduces_the_rooms() {
    let b = board_of(&["G.W", ".P.", "..."]);
    let copy = b.duplicate();
    assert_eq!(copy.grid.len(), b.grid.len());
    for i in 0..3 {
        for j in 0..3 {
            assert_eq!(
                copy.grid[i][j].passive_percepts,
                b.grid[i][j].passive_percepts
            );
            match (&copy.grid[i][j].occupant, &b.grid[i][j].occupant) {
                (None, None) => {}
                (Some(Occupant::Pit(_)), Some(Occupant::Pit(_))) => {}
                (Some(Occupant::Gold(_)), Some(Occupant::Gold(_))) => {}
                (Some(Occupant::Wampus(_)), Some(Occupant::Wampus(_))) => {}
                _ => panic!("occupants differ"),
            }
        }
    }
}
