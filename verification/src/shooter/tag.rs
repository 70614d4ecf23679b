use vstd::prelude::*;

verus! {

use crate::Tag;

/// The tag of the player entity.
#[derive(Debug, Clone, Copy, PartialEq, Eq)]
pub struct Player;

/// The tag of enemy entities.
#[derive(Debug, Clone, Copy, PartialEq, Eq)]
pub struct Enemy;

/// The tag of bullet entities.
#[derive(Debug, Clone, Copy, PartialEq, Eq)]
pub struct Bullet;

/// The tag of interface entities.
#[derive(Debug, Clone, Copy, PartialEq, Eq)]
pub struct Ui;

/// The tag of spawner entities.
#[derive(Debug, Clone, Copy, PartialEq, Eq)]
pub struct Spawner;

impl Tag for Player {
    open spec fn tag_key_spec(&self) -> u64 {
        1
    }

    fn tag_key(&self) -> (k: u64) {
        1
    }
}

impl Tag for Enemy {
    open spec fn tag_key_spec(&self) -> u64 {
        2
    }

    fn tag_key(&self) -> (k: u64) {
        2
    }
}

impl Tag for Bullet {
    open spec fn tag_key_spec(&self) -> u64 {
        3
    }

    fn tag_key(&self) -> (k: u64) {
        3
    }
}

impl Tag for Ui {
    open spec fn tag_key_spec(&self) -> u64 {
        4
    }

    fn tag_key(&self) -> (k: u64) {
        4
    }
}

impl Tag for Spawner {
    open spec fn tag_key_spec(&self) -> u64 {
        5
    }

    fn tag_key(&self) -> (k: u64) {
        5
    }
}

} // verus!
