use vstd::prelude::*;

pub mod tag;

verus! {

use crate::{Component, Tag};

// The space-shooter game built on this store supplies its own component and
// tag types. The plain data carriers live here, with the game's type
// identities; the game loop, rendering and input stay with the embedding
// application.

/// The type identity of a [`Score`] component.
pub const SCORE_KIND: u64 = 1;

/// The type identity of a [`Lifespan`] component.
pub const LIFESPAN_KIND: u64 = 2;

/// The type identity of a [`SpeedBoost`] component.
pub const SPEED_BOOST_KIND: u64 = 3;

/// The type identity of a [`Spawner`] component.
pub const SPAWNER_KIND: u64 = 4;

/// The type identity of a [`Scoreboard`] component.
pub const SCOREBOARD_KIND: u64 = 5;

/// Spawns entities of one sort on a fixed interval, up to a cap.
#[derive(Debug, Clone, PartialEq, Eq)]
pub struct Spawner {
    /// How many spawned entities may exist at once.
    pub max: usize,
    /// The spawn interval, in milliseconds.
    pub interval_ms: u64,
    /// Time since the last spawn, in milliseconds.
    pub last_spawned_ms: u64,
}

/// The running score of the game.
#[derive(Debug, Clone, PartialEq, Eq)]
pub struct Scoreboard {
    /// The current score.
    pub current_score: i32,
}

/// A request to show a line of text for a while.
#[derive(Debug, Clone, PartialEq, Eq)]
pub struct DisplayTextEvent {
    /// The text to show.
    pub text: String,
    /// How long to show it, in milliseconds.
    pub dur_ms: u64,
}

/// The points an entity is worth when destroyed.
#[derive(Debug, Clone, PartialEq, Eq)]
pub struct Score(pub i32);

/// A bounded time to live.
#[derive(Debug, Clone, PartialEq, Eq)]
pub struct Lifespan {
    /// Time left before expiry, in milliseconds.
    pub time_left_ms: u64,
    /// The full span, in milliseconds.
    pub total_time_ms: u64,
}

impl Lifespan {
    /// Advances the span by `delta_ms`, stopping at zero, and reports
    /// whether it is now exhausted.
    pub fn tick(&mut self, delta_ms: u64) -> (expired: bool)
        ensures
            final(self).total_time_ms == old(self).total_time_ms,
            final(self).time_left_ms == if old(self).time_left_ms >= delta_ms {
                (old(self).time_left_ms - delta_ms) as u64
            } else {
                0u64
            },
            expired == (final(self).time_left_ms == 0),
    {
        if self.time_left_ms >= delta_ms {
            self.time_left_ms = self.time_left_ms - delta_ms;
        } else {
            self.time_left_ms = 0;
        }
        self.time_left_ms == 0
    }
}

/// A temporary speed boost with a cooldown.
#[derive(Debug, Clone, PartialEq, Eq)]
pub struct SpeedBoost {
    /// Whether the boost is engaged.
    pub is_boosting: bool,
    /// When the boost was last engaged, in milliseconds since start, where
    /// it ever was.
    pub last_boost_ms: Option<u64>,
    /// Boost time left, in milliseconds.
    pub time_left_ms: u64,
}

/// The shape a rendered entity takes.
#[derive(Debug, Clone, Copy, PartialEq, Eq)]
pub enum Geometry {
    /// An axis-aligned rectangle.
    Rectangle,
    /// A circle.
    Circle,
}

/// The game's components, each carrying its own type identity.
#[derive(Debug, Clone, PartialEq, Eq)]
pub enum GameComponent {
    /// The points an entity is worth.
    Score(Score),
    /// A bounded time to live.
    Lifespan(Lifespan),
    /// A temporary speed boost.
    SpeedBoost(SpeedBoost),
    /// An interval spawner.
    Spawner(Spawner),
    /// The running score.
    Scoreboard(Scoreboard),
}

impl Component for GameComponent {
    open spec fn kind_spec(&self) -> u64 {
        match *self {
            GameComponent::Score(_) => SCORE_KIND,
            GameComponent::Lifespan(_) => LIFESPAN_KIND,
            GameComponent::SpeedBoost(_) => SPEED_BOOST_KIND,
            GameComponent::Spawner(_) => SPAWNER_KIND,
            GameComponent::Scoreboard(_) => SCOREBOARD_KIND,
        }
    }

    fn kind(&self) -> (k: u64) {
        match *self {
            GameComponent::Score(_) => SCORE_KIND,
            GameComponent::Lifespan(_) => LIFESPAN_KIND,
            GameComponent::SpeedBoost(_) => SPEED_BOOST_KIND,
            GameComponent::Spawner(_) => SPAWNER_KIND,
            GameComponent::Scoreboard(_) => SCOREBOARD_KIND,
        }
    }
}

/// The game's tags as one label type, for a manager that partitions the
/// game's entities. Each variant keys the same bucket as the matching
/// label type in [`tag`].
#[derive(Debug, Clone, Copy, PartialEq, Eq)]
pub enum GameTag {
    /// The player entity.
    Player,
    /// An enemy entity.
    Enemy,
    /// A bullet entity.
    Bullet,
    /// An interface entity.
    Ui,
    /// A spawner entity.
    Spawner,
}

impl Tag for GameTag {
    open spec fn tag_key_spec(&self) -> u64 {
        match *self {
            GameTag::Player => 1,
            GameTag::Enemy => 2,
            GameTag::Bullet => 3,
            GameTag::Ui => 4,
            GameTag::Spawner => 5,
        }
    }

    fn tag_key(&self) -> (k: u64) {
        match *self {
            GameTag::Player => 1,
            GameTag::Enemy => 2,
            GameTag::Bullet => 3,
            GameTag::Ui => 4,
            GameTag::Spawner => 5,
        }
    }
}

/// The axis a window-bound collision happened on.
#[derive(Debug, Clone, Copy, PartialEq, Eq)]
pub enum BoundAxis {
    /// The horizontal axis.
    X,
    /// The vertical axis.
    Y,
}

/// An entity hit a window bound on the given axis.
#[derive(Debug, Clone, Copy, PartialEq, Eq)]
pub struct BoundCollide(pub crate::entity::EntityId, pub BoundAxis);

} // verus!
