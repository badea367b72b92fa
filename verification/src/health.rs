//! Health, and the requests to change it.

use vstd::prelude::*;
use crate::entities::{lookup, Components, Entities, Row};
use crate::entity::Entity;
use crate::fixed::clamp_spec;

verus! {

/// How much an object can still take.
#[derive(Clone, Copy, Debug, PartialEq, Eq, Structural)]
pub struct Health {
    pub value: i32,
    pub max_value: i32,
}

impl Health {
    /// Full health.
    pub fn new(max_value: i32) -> (h: Health)
        ensures
            h.value == max_value,
            h.max_value == max_value,
    {
        Health { value: max_value, max_value }
    }
}

/// What a request does to the health of its object.
#[derive(Clone, Copy, Debug, PartialEq, Eq, Structural)]
pub enum ChangeHealthMode {
    Damage,
    Heal,
    SetTo,
}

/// A request to change the health of an object.
#[derive(Clone, Copy, Debug, PartialEq, Eq, Structural)]
pub struct ChangeHealthEvent {
    pub value: i32,
    pub change_health_mode: ChangeHealthMode,
    pub entity: Entity,
}

impl ChangeHealthEvent {
    /// The request to change the health of `entity` by or to `value`.
    pub fn new(value: i32, change_health_mode: ChangeHealthMode, entity: Entity) -> (event:
        ChangeHealthEvent)
        ensures
            event.value == value,
            event.change_health_mode == change_health_mode,
            event.entity == entity,
    {
        ChangeHealthEvent { value, change_health_mode, entity }
    }
}

/// The health of the named object has run out.
#[derive(Clone, Copy, Debug, PartialEq, Eq, Structural)]
pub struct HealthRunoutEvent(pub Entity);

/// The number limited to what a health value can hold.
pub open spec fn held(x: int) -> int {
    clamp_spec(x, i32::MIN as int, i32::MAX as int)
}

/// The health after a request. Damage takes the value away and healing adds
/// it, up to the maximum; setting puts the value in its place, again up to
/// the maximum unless it is zero or less.
pub open spec fn changed(health: Health, value: int, mode: ChangeHealthMode) -> Health {
    match mode {
        ChangeHealthMode::Damage => Health { value: held(health.value - value) as i32, ..health },
        ChangeHealthMode::Heal => {
            let sum = held(health.value + value);
            Health {
                value: (if sum > health.max_value {
                    health.max_value as int
                } else {
                    sum
                }) as i32,
                ..health
            }
        },
        ChangeHealthMode::SetTo => Health {
            value: (if value > 0 && value > health.max_value {
                health.max_value as int
            } else {
                value
            }) as i32,
            ..health
        },
    }
}

/// The request leaves the object without health: damage or a set value that
/// brings it to zero or below. Healing never does.
pub open spec fn runs_out(health: Health, value: int, mode: ChangeHealthMode) -> bool {
    match mode {
        ChangeHealthMode::Damage => held(health.value - value) <= 0,
        ChangeHealthMode::Heal => false,
        ChangeHealthMode::SetTo => value <= 0,
    }
}

/// The table after one request; a request for an object that the table does
/// not hold, or that has no health, changes nothing.
pub open spec fn health_changed(table: Seq<Option<Row>>, event: ChangeHealthEvent) -> Seq<
    Option<Row>,
> {
    match lookup(table, event.entity) {
        Some(c) => match c.health {
            Some(health) => table.update(
                event.entity.index as int,
                Some(
                    Row {
                        entity: event.entity,
                        components: Components {
                            health: Some(
                                changed(health, event.value as int, event.change_health_mode),
                            ),
                            ..c
                        },
                    },
                ),
            ),
            None => table,
        },
        None => table,
    }
}

/// The table after the requests have been served in order.
pub open spec fn health_changed_all(table: Seq<Option<Row>>, events: Seq<ChangeHealthEvent>) -> Seq<
    Option<Row>,
>
    decreases events.len(),
{
    if events.len() == 0 {
        table
    } else {
        health_changed(health_changed_all(table, events.drop_last()), events.last())
    }
}

/// The objects whose health runs out while the requests are served, one
/// entry for every request that leaves its object without health.
pub open spec fn runouts(table: Seq<Option<Row>>, events: Seq<ChangeHealthEvent>) -> Seq<
    HealthRunoutEvent,
>
    decreases events.len(),
{
    if events.len() == 0 {
        Seq::empty()
    } else {
        let rest = runouts(table, events.drop_last());
        let before = health_changed_all(table, events.drop_last());
        let event = events.last();
        match lookup(before, event.entity) {
            Some(c) => match c.health {
                Some(health) => if runs_out(
                    health,
                    event.value as int,
                    event.change_health_mode,
                ) {
                    rest.push(HealthRunoutEvent(event.entity))
                } else {
                    rest
                },
                None => rest,
            },
            None => rest,
        }
    }
}

/// The number limited to what a health value can hold.
fn hold(x: i64) -> (h: i32)
    ensures
        h == held(x as int),
{
    if x < i32::MIN as i64 {
        i32::MIN
    } else if x > i32::MAX as i64 {
        i32::MAX
    } else {
        x as i32
    }
}

/// The health after one request, and whether it has run out.
pub fn apply_change(health: Health, value: i32, mode: ChangeHealthMode) -> (r: (Health, bool))
    ensures
        r.0 == changed(health, value as int, mode),
        r.1 == runs_out(health, value as int, mode),
{
    match mode {
        ChangeHealthMode::Damage => {
            let left: i32 = hold(health.value as i64 - value as i64);
            (Health { value: left, max_value: health.max_value }, left <= 0)
        },
        ChangeHealthMode::Heal => {
            let sum: i32 = hold(health.value as i64 + value as i64);
            let capped: i32 = if sum > health.max_value {
                health.max_value
            } else {
                sum
            };
            (Health { value: capped, max_value: health.max_value }, false)
        },
        ChangeHealthMode::SetTo => {
            if value <= 0 {
                (Health { value, max_value: health.max_value }, true)
            } else if value > health.max_value {
                (Health { value: health.max_value, max_value: health.max_value }, false)
            } else {
                (Health { value, max_value: health.max_value }, false)
            }
        },
    }
}

/// Serves the requests of a tick in order and reports whose health ran out.
pub fn change_health(events: &Vec<ChangeHealthEvent>, entities: &mut Entities) -> (runout: Vec<
    HealthRunoutEvent,
>)
    requires
        old(entities).wf(),
    ensures
        final(entities).wf(),
        final(entities)@ == health_changed_all(old(entities)@, events@),
        runout@ == runouts(old(entities)@, events@),
{
    let mut runout: Vec<HealthRunoutEvent> = Vec::new();
    let mut i: usize = 0;
    while i < events.len()
        invariant
            i <= events.len(),
            entities.wf(),
            entities@ == health_changed_all(old(entities)@, events@.take(i as int)),
            runout@ == runouts(old(entities)@, events@.take(i as int)),
        decreases events.len() - i,
    {
        let event: ChangeHealthEvent = events[i];
        proof {
            assert(events@.take(i + 1).drop_last() == events@.take(i as int));
        }
        match entities.get(event.entity) {
            Some(c) => match c.health {
                Some(health) => {
                    let (after, gone) = apply_change(health, event.value, event.change_health_mode);
                    let mut next: Components = c;
                    next.health = Some(after);
                    entities.set_components(event.entity.index as usize, next);
                    if gone {
                        runout.push(HealthRunoutEvent(event.entity));
                    }
                },
                None => {},
            },
            None => {},
        }
        i += 1;
    }
    proof {
        assert(events@.take(i as int) == events@);
    }
    runout
}

} // verus!
