//! Rooms and what lives in them.
//!
//! A room holds at most one occupant: a pit, the wampus, or the gold.
//! Every occupant produces one passive percept — a cue.  A pit's breeze
//! and the wampus' stink are felt in the orthogonally adjacent rooms; the
//! gold's glitter is seen only in its own room.  Occupants and cues are
//! closed enumerations, so a cue is an immutable fact once the board is
//! built.

use vstd::prelude::*;

verus! {

/// Where a cue is felt relative to the room of the occupant producing it.
#[derive(Clone, Copy, Debug, PartialEq, Eq, Structural)]
pub enum Effect {
    Neighbors,
    NotNeighbors,
}

/// The stink of the wampus, felt in adjacent rooms.
#[derive(Clone, Copy, Debug, PartialEq, Eq, Structural)]
pub struct Stink;

/// The glitter of the gold, seen only in its own room.
#[derive(Clone, Copy, Debug, PartialEq, Eq, Structural)]
pub struct Glitter;

/// The breeze of a pit, felt in adjacent rooms.
#[derive(Clone, Copy, Debug, PartialEq, Eq, Structural)]
pub struct Breeze;

/// A cue felt in a room.
#[derive(Clone, Copy, Debug, PartialEq, Eq, Structural)]
pub enum PassivePercept {
    Stink(Stink),
    Glitter(Glitter),
    Breeze(Breeze),
}

/// The wampus: its cue, and whether it is still alive.  Liveness changes
/// only through [`Wampus::frag_it`], the single write path reserved for
/// the agent's arrow; inference never reads it.
#[derive(Clone, Copy, Debug, PartialEq, Eq, Structural)]
pub struct Wampus(pub PassivePercept, pub bool);

/// The gold and its glitter.
#[derive(Clone, Copy, Debug, PartialEq, Eq, Structural)]
pub struct Gold(pub PassivePercept);

/// A pit and its breeze.
#[derive(Clone, Copy, Debug, PartialEq, Eq, Structural)]
pub struct Pit(pub PassivePercept);

/// What occupies a room, if anything.
#[derive(Clone, Copy, Debug, PartialEq, Eq, Structural)]
pub enum Occupant {
    Pit(Pit),
    Wampus(Wampus),
    Gold(Gold),
}

/// An occupant produces exactly one cue.
pub trait OccupantTrait {
    fn get_percept_produced(&self) -> PassivePercept;
}

/// A cue can describe itself and says where it is felt.
pub trait PassivePerceptTrait {
    fn describe(&self) -> String;

    fn effect(&self) -> Effect;
}

impl OccupantTrait for Occupant {
    fn get_percept_produced(&self) -> (r: PassivePercept)
        ensures
            r == self.spec_percept_produced(),
    {
        match self {
            Occupant::Pit(x) => x.get_percept_produced(),
            Occupant::Wampus(x) => x.get_percept_produced(),
            Occupant::Gold(x) => x.get_percept_produced(),
        }
    }
}

impl Occupant {
    /// The cue this occupant produces, as a mathematical value.
    pub open spec fn spec_percept_produced(self) -> PassivePercept {
        match self {
            Occupant::Pit(x) => x.0,
            Occupant::Wampus(x) => x.0,
            Occupant::Gold(x) => x.0,
        }
    }
}

impl OccupantTrait for Wampus {
    fn get_percept_produced(&self) -> (r: PassivePercept)
        ensures
            r == self.0,
    {
        self.0
    }
}

impl OccupantTrait for Gold {
    fn get_percept_produced(&self) -> (r: PassivePercept)
        ensures
            r == self.0,
    {
        self.0
    }
}

impl OccupantTrait for Pit {
    fn get_percept_produced(&self) -> (r: PassivePercept)
        ensures
            r == self.0,
    {
        self.0
    }
}

impl Wampus {
    /// Whether the wampus has not been hit by an arrow yet.
    pub fn is_alive(&self) -> (r: bool)
        ensures
            r == self.1,
    {
        if self.1 {
            return true;
        }
        false
    }

    /// Records an arrow hit.  This is the only place liveness is written.
    pub fn frag_it(&mut self)
        ensures
            final(self).0 == old(self).0,
            final(self).1 == false,
    {
        self.1 = false;
    }
}

impl PassivePerceptTrait for PassivePercept {
    fn describe(&self) -> (r: String)
        ensures
            r@ == self.spec_describe(),
    {
        match self {
            PassivePercept::Breeze(x) => x.describe(),
            PassivePercept::Stink(x) => x.describe(),
            PassivePercept::Glitter(x) => x.describe(),
        }
    }

    fn effect(&self) -> (r: Effect)
        ensures
            r == self.spec_effect(),
    {
        match self {
            PassivePercept::Breeze(x) => x.effect(),
            PassivePercept::Stink(x) => x.effect(),
            PassivePercept::Glitter(x) => x.effect(),
        }
    }
}

impl PassivePercept {
    /// The wording of this cue.
    pub open spec fn spec_describe(self) -> Seq<char> {
        match self {
            PassivePercept::Breeze(_) => "You feel a strong Breeze "@,
            PassivePercept::Stink(_) => "You smell something foul"@,
            PassivePercept::Glitter(_) => "You see a bright Gitter! You've found the Gold"@,
        }
    }

    /// Where this cue is felt.
    pub open spec fn spec_effect(self) -> Effect {
        match self {
            PassivePercept::Breeze(_) => Effect::Neighbors,
            PassivePercept::Stink(_) => Effect::Neighbors,
            PassivePercept::Glitter(_) => Effect::NotNeighbors,
        }
    }
}

impl PassivePerceptTrait for Stink {
    fn describe(&self) -> (r: String)
        ensures
            r@ == "You smell something foul"@,
    {
        "You smell something foul".to_owned()
    }

    fn effect(&self) -> (r: Effect)
        ensures
            r == Effect::Neighbors,
    {
        Effect::Neighbors
    }
}

impl PassivePerceptTrait for Glitter {
    fn describe(&self) -> (r: String)
        ensures
            r@ == "You see a bright Gitter! You've found the Gold"@,
    {
        "You see a bright Gitter! You've found the Gold".to_owned()
    }

    fn effect(&self) -> (r: Effect)
        ensures
            r == Effect::NotNeighbors,
    {
        Effect::NotNeighbors
    }
}

impl PassivePerceptTrait for Breeze {
    fn describe(&self) -> (r: String)
        ensures
            r@ == "You feel a strong Breeze "@,
    {
        "You feel a strong Breeze ".to_owned()
    }

    fn effect(&self) -> (r: Effect)
        ensures
            r == Effect::Neighbors,
    {
        Effect::Neighbors
    }
}

/// One room of the board: its occupant, if any, and the cues felt there.
#[derive(Clone, Debug)]
pub struct Tile {
    pub occupant: Option<Occupant>,
    pub passive_percepts: Vec<PassivePercept>,
}

/// The occupant, if any, that a one-letter map token stands for: `P` a
/// pit, `W` the wampus (alive), `G` the gold; anything else, none.
pub open spec fn spec_occupant_of_token(s: Seq<char>) -> Option<Occupant> {
    if s.len() == 1 && s[0] == 'P' {
        Some(Occupant::Pit(Pit(PassivePercept::Breeze(Breeze))))
    } else if s.len() == 1 && s[0] == 'G' {
        Some(Occupant::Gold(Gold(PassivePercept::Glitter(Glitter))))
    } else if s.len() == 1 && s[0] == 'W' {
        Some(Occupant::Wampus(Wampus(PassivePercept::Stink(Stink), true)))
    } else {
        None
    }
}

impl Tile {
    /// A room with no occupant and no cues.
    pub fn empty() -> (r: Tile)
        ensures
            r.occupant is None,
            r.passive_percepts@ =~= Seq::<PassivePercept>::empty(),
    {
        Tile { occupant: None, passive_percepts: Vec::new() }
    }

    /// Reads one map token.  Every token parses: an unrecognised one
    /// gives an unoccupied room.
    pub fn from_char(c: &str) -> (r: Option<Tile>)
        ensures
            r is Some,
            r->Some_0.occupant == spec_occupant_of_token(c@),
            r->Some_0.passive_percepts@ =~= Seq::<PassivePercept>::empty(),
    {
        let occupant: Option<Occupant> = if c.unicode_len() == 1 {
            let ch = c.get_char(0);
            if ch == 'P' {
                Some(Occupant::Pit(Pit(PassivePercept::Breeze(Breeze))))
            } else if ch == 'G' {
                Some(Occupant::Gold(Gold(PassivePercept::Glitter(Glitter))))
            } else if ch == 'W' {
                Some(Occupant::Wampus(Wampus(PassivePercept::Stink(Stink), true)))
            } else {
                None
            }
        } else {
            None
        };
        Some(Tile { occupant, passive_percepts: Vec::new() })
    }

    /// Records one more cue as felt in this room.
    pub fn add(&mut self, percept: PassivePercept)
        ensures
            final(self).occupant == old(self).occupant,
            final(self).passive_percepts@ == old(self).passive_percepts@.push(percept),
    {
        self.passive_percepts.push(percept);
    }
}

} // verus!
