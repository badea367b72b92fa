//! The table of the objects of one tick, keyed by their handles.
//!
//! The host fills the table with what each object carries, lets the systems
//! of this crate work on it, and reads the result back.

use vstd::prelude::*;
use crate::aliens::alien_avoid::AARectAlienAvoid;
use crate::entity::Entity;
use crate::health::Health;
use crate::physics::components::{
    AARectCollider, Acceleration, CircleCollider, Mass, Physics, Velocity,
};
use crate::vec2::{Rotation, Vec2};

verus! {

/// What one object carries.
#[derive(Clone, Copy, Debug)]
pub struct Components {
    /// Where the object is.
    pub translation: Vec2,
    /// Which way the object faces.
    pub rotation: Rotation,
    /// Whether the object is entered into the quadtree.
    pub quad_tree_element: bool,
    pub physics: Option<Physics>,
    pub velocity: Option<Velocity>,
    pub acceleration: Option<Acceleration>,
    pub mass: Option<Mass>,
    pub circle_collider: Option<CircleCollider>,
    pub aa_rect_collider: Option<AARectCollider>,
    /// Whether the object is a flocking alien.
    pub alien: bool,
    pub alien_avoid: Option<AARectAlienAvoid>,
    /// Whether the object is the ship that the aliens seek.
    pub ship: bool,
    pub health: Option<Health>,
}

/// A filled slot of the table.
#[derive(Clone, Copy, Debug)]
pub struct Row {
    pub entity: Entity,
    pub components: Components,
}

/// The table of objects. Slot `i` is empty or holds the object whose handle
/// has index `i`.
pub struct Entities {
    rows: Vec<Option<Row>>,
}

/// Every filled slot holds a handle with the number of the slot.
pub open spec fn table_wf(table: Seq<Option<Row>>) -> bool {
    forall|i: int|
        0 <= i < table.len() ==> ((#[trigger] table[i]) matches Some(row) ==> row.entity.index
            == i)
}

/// What the object with this handle carries; nothing where the slot is empty,
/// lies beyond the table, or holds another generation.
pub open spec fn lookup(table: Seq<Option<Row>>, entity: Entity) -> Option<Components> {
    if entity.index < table.len() {
        match table[entity.index as int] {
            Some(row) => if row.entity == entity {
                Some(row.components)
            } else {
                None
            },
            None => None,
        }
    } else {
        None
    }
}

/// The table extended by empty slots to at least `len` slots.
pub open spec fn padded(table: Seq<Option<Row>>, len: int) -> Seq<Option<Row>> {
    if table.len() >= len {
        table
    } else {
        table + Seq::new((len - table.len()) as nat, |i: int| None::<Row>)
    }
}

/// A slot with its object changed by `step`.
pub open spec fn row_after(row: Option<Row>, step: spec_fn(Components) -> Components) -> Option<
    Row,
> {
    match row {
        Some(r) => Some(Row { entity: r.entity, components: step(r.components) }),
        None => None,
    }
}

/// The table with every object changed by `step`.
pub open spec fn table_after(
    table: Seq<Option<Row>>,
    step: spec_fn(Components) -> Components,
) -> Seq<Option<Row>> {
    Seq::new(table.len(), |i: int| row_after(table[i], step))
}

impl Components {
    /// An object at `translation` that faces along the x axis and carries
    /// nothing else.
    pub fn at(translation: Vec2) -> (c: Components)
        ensures
            c.translation == translation,
            c.rotation.cos == crate::fixed::ONE && c.rotation.sin == 0,
            !c.quad_tree_element && !c.alien && !c.ship,
            c.physics.is_none() && c.velocity.is_none() && c.acceleration.is_none(),
            c.mass.is_none() && c.circle_collider.is_none() && c.aa_rect_collider.is_none(),
            c.alien_avoid.is_none() && c.health.is_none(),
    {
        Components {
            translation,
            rotation: Rotation::identity(),
            quad_tree_element: false,
            physics: None,
            velocity: None,
            acceleration: None,
            mass: None,
            circle_collider: None,
            aa_rect_collider: None,
            alien: false,
            alien_avoid: None,
            ship: false,
            health: None,
        }
    }
}

impl View for Entities {
    type V = Seq<Option<Row>>;

    closed spec fn view(&self) -> Seq<Option<Row>> {
        self.rows@
    }
}

impl Entities {
    /// The invariant of the table.
    pub open spec fn wf(&self) -> bool {
        table_wf(self@)
    }

    /// The empty table.
    pub fn new() -> (table: Entities)
        ensures
            table@.len() == 0,
            table.wf(),
    {
        Entities { rows: Vec::new() }
    }

    /// The number of slots, filled or not.
    pub fn len(&self) -> (n: usize)
        ensures
            n == self@.len(),
    {
        self.rows.len()
    }

    /// What slot `i` holds.
    pub fn row(&self, i: usize) -> (row: Option<Row>)
        ensures
            i < self@.len() ==> row == self@[i as int],
            i >= self@.len() ==> row.is_none(),
    {
        if i < self.rows.len() {
            self.rows[i]
        } else {
            None
        }
    }

    /// What the object with this handle carries.
    pub fn get(&self, entity: Entity) -> (found: Option<Components>)
        ensures
            found == lookup(self@, entity),
    {
        let i: usize = entity.index as usize;
        if i < self.rows.len() {
            match self.rows[i] {
                Some(row) => {
                    if row.entity == entity {
                        Some(row.components)
                    } else {
                        None
                    }
                },
                None => None,
            }
        } else {
            None
        }
    }

    /// Enters the object under its handle. Whatever its slot held before is
    /// replaced; the table grows by empty slots where the slot lies beyond it.
    pub fn insert(&mut self, entity: Entity, components: Components)
        requires
            old(self).wf(),
        ensures
            final(self).wf(),
            final(self)@ == padded(old(self)@, entity.index + 1).update(
                entity.index as int,
                Some(Row { entity, components }),
            ),
            lookup(final(self)@, entity) == Some(components),
    {
        let i: usize = entity.index as usize;
        while self.rows.len() <= i
            invariant
                i == entity.index,
                self.rows@.len() >= old(self)@.len(),
                self.rows@.len() <= i + 1 || self.rows@.len() == old(self)@.len(),
                self.rows@ =~= padded(old(self)@, self.rows@.len() as int),
            decreases i + 1 - self.rows@.len(),
        {
            self.rows.push(None);
        }
        assert(self.rows@ =~= padded(old(self)@, entity.index + 1));
        self.rows.set(i, Some(Row { entity, components }));
    }

    /// Takes the object with this handle out of the table. The answer says
    /// whether it was there.
    pub fn remove(&mut self, entity: Entity) -> (removed: bool)
        requires
            old(self).wf(),
        ensures
            final(self).wf(),
            removed == lookup(old(self)@, entity).is_some(),
            removed ==> final(self)@ == old(self)@.update(entity.index as int, None),
            !removed ==> final(self)@ == old(self)@,
    {
        let i: usize = entity.index as usize;
        if i < self.rows.len() {
            match self.rows[i] {
                Some(row) => {
                    if row.entity == entity {
                        self.rows.set(i, None);
                        return true;
                    }
                },
                None => {},
            }
        }
        false
    }

    /// Replaces what the object in slot `i` carries.
    pub fn set_components(&mut self, i: usize, components: Components)
        requires
            old(self).wf(),
            i < old(self)@.len(),
            old(self)@[i as int].is_some(),
        ensures
            final(self).wf(),
            final(self)@ == old(self)@.update(
                i as int,
                Some(Row { entity: old(self)@[i as int].unwrap().entity, components }),
            ),
    {
        let row: Option<Row> = self.rows[i];
        match row {
            Some(r) => {
                self.rows.set(i, Some(Row { entity: r.entity, components }));
            },
            None => {},
        }
    }
}

} // verus!
