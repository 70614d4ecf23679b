//! A small in-process entity-component store for frame-stepped simulations.
//!
//! An [`entity::Entity`] owns a unique identifier, a tag, a liveness flag
//! and at most one component per component-type identity; it keeps a
//! precomputed enumeration of every combination of its component types.
//! The [`manager::EntityManager`] owns all entities, buffers creations and
//! defers destructions until its per-frame commit, and answers queries by
//! identifier, by tag and by component-type combination through two
//! secondary bucket indices. Component and tag types are the embedding
//! application's own: anything carrying a [`Component`] type identity can
//! be attached, and anything with a [`Tag`] key can partition entities.
//!
//! Every operation carries a contract tying it to the store's model — the
//! rows of live and pending entities and the two index views — and the
//! laws the design rests on (complete combination enumeration, order-blind
//! multi-type queries, commit-time reaping that leaves no stale index
//! entry) are stated and proved alongside the operations they govern.

use vstd::prelude::*;

pub mod index;

pub mod entity;
pub mod event;
pub mod manager;
pub mod shooter;
pub mod type_query;

verus! {

/// A label attached to each entity at creation, used to partition entities
/// into buckets for fast group lookup. Any type that can canonicalize itself
/// to a hashable integer key may serve as a tag; two tags with the same key
/// fall into the same bucket.
pub trait Tag {
    /// The canonical key of this tag value.
    spec fn tag_key_spec(&self) -> u64;

    /// Returns the canonical key of this tag value.
    fn tag_key(&self) -> (k: u64)
        ensures
            k == self.tag_key_spec(),
    ;
}

impl Tag for u64 {
    open spec fn tag_key_spec(&self) -> u64 {
        *self
    }

    fn tag_key(&self) -> (k: u64) {
        *self
    }
}

/// A component: a plain owned value of an application-defined type, attached
/// to at most one entity slot per type identity. The application gives every
/// component value a process-stable type identity, an integer that plays the
/// role a concrete type plays in a reflective component store: values with
/// the same identity are values of the same component type.
pub trait Component {
    /// The type identity of this component value.
    spec fn kind_spec(&self) -> u64;

    /// Returns the type identity of this component value.
    fn kind(&self) -> (k: u64)
        ensures
            k == self.kind_spec(),
    ;
}

/// A ready-made component carrier: any payload `V` paired with an explicit
/// type identity. Applications that do not want to define their own
/// component enumeration can attach `Kinded` values directly.
#[derive(Debug, Clone, PartialEq, Eq)]
pub struct Kinded<V> {
    /// The type identity under which this value is stored.
    pub kind: u64,
    /// The carried payload.
    pub value: V,
}

impl<V> Component for Kinded<V> {
    open spec fn kind_spec(&self) -> u64 {
        self.kind
    }

    fn kind(&self) -> (k: u64) {
        self.kind
    }
}

} // verus!
