//! Finding the overlaps of one tick, and pushing circles out of walls.

use vstd::prelude::*;
use crate::entities::{lookup, Components, Entities, Row};
use crate::entity::Entity;
use crate::fixed::{
    floor_sqrt, isqrt, lemma_square_le, lemma_trunc_div_bound, trunc_div, ONE,
};
use crate::physics::components::{
    axis_gap, lemma_signed_distance_le, max_of, nearest_clamped, nearest_on_edge,
    rect_contains_strictly, rect_outside_sq, rect_within, AARectCollider, CircleCollider,
    CollisionLayerNames, Velocity,
};
use crate::quad_tree::{lemma_query_complete, Entry, QuadTree, TreeModel, AABB};
use crate::vec2::{
    length_sq, lemma_axis_unit, lemma_unit_component_bound, normalize, unit_component, Vec2,
    WideVec2,
};

verus! {

/// How far beyond its own radius a circle looks for others, for a host that
/// counts one unit to the pixel. Whatever distance is used must exceed the
/// radius of the largest collider; nothing checks that.
pub const COLLIDER_CHECK_DISTANCE: i32 = 100;

/// The two circles touch or overlap: their centers are no farther apart than
/// the sum of the radii.
pub open spec fn circles_collide(
    a: CircleCollider,
    a_translation: Vec2,
    b: CircleCollider,
    b_translation: Vec2,
) -> bool {
    let reach = a.radius + b.radius;
    reach >= 0 && a_translation.spec_distance_squared(b_translation) <= reach * reach
}

/// Whether the two circles touch or overlap.
pub fn circle_circle_collision(
    a: &CircleCollider,
    a_translation: Vec2,
    b: &CircleCollider,
    b_translation: Vec2,
) -> (collides: bool)
    ensures
        collides == circles_collide(*a, a_translation, *b, b_translation),
{
    let reach: i64 = a.radius as i64 + b.radius as i64;
    if reach < 0 {
        return false;
    }
    let wide: u128 = reach as u128;
    proof {
        lemma_square_le(wide as int, 0x1_0000_0000);
    }
    a_translation.distance_squared(b_translation) <= wide * wide
}

/// Whether the circle touches or overlaps the rectangle: the signed distance
/// from its center to the edge of the rectangle is at most its radius.
pub fn circle_aa_rect_collision(
    a: &CircleCollider,
    a_translation: Vec2,
    b: &AARectCollider,
    b_translation: Vec2,
) -> (collides: bool)
    ensures
        collides == rect_within(b.spec_half_size(), a_translation, b_translation, a.radius as int),
{
    proof {
        lemma_signed_distance_le(b.spec_half_size(), a_translation, b_translation, a.radius as int);
    }
    b.dist(a_translation, b_translation) <= a.radius as i64
}

/// Either argument may come first.
pub proof fn lemma_circles_collide_symmetric(
    a: CircleCollider,
    a_translation: Vec2,
    b: CircleCollider,
    b_translation: Vec2,
)
    ensures
        circles_collide(a, a_translation, b, b_translation) == circles_collide(
            b,
            b_translation,
            a,
            a_translation,
        ),
{
    let dx = a_translation.x - b_translation.x;
    let dy = a_translation.y - b_translation.y;
    assert(dx * dx == (-dx) * (-dx)) by (nonlinear_arith);
    assert(dy * dy == (-dy) * (-dy)) by (nonlinear_arith);
}

/// One layer of the table: the layers whose members its own members are
/// tested against, and its members.
pub struct CollisionLayer {
    pub collides_with: Vec<CollisionLayerNames>,
    pub in_layer: Vec<Entity>,
}

impl CollisionLayer {
    /// A layer without members.
    pub fn new(collides_with: Vec<CollisionLayerNames>) -> (layer: CollisionLayer)
        ensures
            layer.collides_with@ == collides_with@,
            layer.in_layer@.len() == 0,
    {
        CollisionLayer { collides_with, in_layer: Vec::new() }
    }
}

/// The layer table, one layer per name, in the order of the names.
pub struct CollisionLayers {
    pub layers: Vec<CollisionLayer>,
}

impl Default for CollisionLayers {
    /// Shots are tested against aliens; the ship against health packs, aliens
    /// and walls; aliens against walls; health packs and walls against nothing.
    fn default() -> (table: CollisionLayers)
        ensures
            table.layers@.len() == 5,
            table.layers@[0].collides_with@ == seq![CollisionLayerNames::Aliens],
            table.layers@[1].collides_with@ == seq![
                CollisionLayerNames::HealthPacks,
                CollisionLayerNames::Aliens,
                CollisionLayerNames::Walls,
            ],
            table.layers@[2].collides_with@ == seq![CollisionLayerNames::Walls],
            table.layers@[3].collides_with@.len() == 0,
            table.layers@[4].collides_with@.len() == 0,
            forall|i: int| 0 <= i < 5 ==> (#[trigger] table.layers@[i]).in_layer@.len() == 0,
    {
        let mut shots: Vec<CollisionLayerNames> = Vec::new();
        shots.push(CollisionLayerNames::Aliens);
        let mut ship: Vec<CollisionLayerNames> = Vec::new();
        ship.push(CollisionLayerNames::HealthPacks);
        ship.push(CollisionLayerNames::Aliens);
        ship.push(CollisionLayerNames::Walls);
        let mut aliens: Vec<CollisionLayerNames> = Vec::new();
        aliens.push(CollisionLayerNames::Walls);
        let mut layers: Vec<CollisionLayer> = Vec::new();
        layers.push(CollisionLayer::new(shots));
        layers.push(CollisionLayer::new(ship));
        layers.push(CollisionLayer::new(aliens));
        layers.push(CollisionLayer::new(Vec::new()));
        layers.push(CollisionLayer::new(Vec::new()));
        proof {
            assert(layers@[0].collides_with@ =~= seq![CollisionLayerNames::Aliens]);
            assert(layers@[1].collides_with@ =~= seq![
                CollisionLayerNames::HealthPacks,
                CollisionLayerNames::Aliens,
                CollisionLayerNames::Walls,
            ]);
            assert(layers@[2].collides_with@ =~= seq![CollisionLayerNames::Walls]);
        }
        CollisionLayers { layers }
    }
}

impl CollisionLayers {
    /// Whether the table has one layer for every layer name, as the systems
    /// take for granted. A host does well to make sure of this when it starts.
    pub fn is_complete(&self) -> (complete: bool)
        ensures
            complete == (self.layers@.len() == 5),
    {
        self.layers.len() == 5
    }

    /// Makes the object a member of the layer. The answer is false, and
    /// nothing changes, where the table has no such layer.
    pub fn assign(&mut self, layer: CollisionLayerNames, entity: Entity) -> (assigned: bool)
        ensures
            assigned == (layer.spec_index() < old(self).layers@.len()),
            final(self).layers@.len() == old(self).layers@.len(),
            forall|i: int|
                0 <= i < old(self).layers@.len() ==> (#[trigger] final(self).layers@[i]).collides_with@
                    == old(self).layers@[i].collides_with@,
            forall|i: int|
                0 <= i < old(self).layers@.len() && i != layer.spec_index() ==> (
                #[trigger] final(self).layers@[i]).in_layer@ == old(self).layers@[i].in_layer@,
            assigned ==> final(self).layers@[layer.spec_index()].in_layer@ == old(
                self,
            ).layers@[layer.spec_index()].in_layer@.push(entity),
    {
        let i: usize = layer.index();
        if i < self.layers.len() {
            self.layers[i].in_layer.push(entity);
            true
        } else {
            false
        }
    }
}

/// The handles, in order, that the table still knows.
pub open spec fn live(members: Seq<Entity>, table: Seq<Option<Row>>) -> Seq<Entity>
    decreases members.len(),
{
    if members.len() == 0 {
        Seq::empty()
    } else {
        let rest = live(members.drop_last(), table);
        if lookup(table, members.last()).is_some() {
            rest.push(members.last())
        } else {
            rest
        }
    }
}

impl CollisionLayer {
    /// Drops the members that the table no longer knows; the others keep
    /// their order.
    pub fn prune(&mut self, entities: &Entities)
        ensures
            final(self).collides_with@ == old(self).collides_with@,
            final(self).in_layer@ == live(old(self).in_layer@, entities@),
    {
        let mut kept: Vec<Entity> = Vec::new();
        let mut i: usize = 0;
        while i < self.in_layer.len()
            invariant
                i <= self.in_layer@.len(),
                self.in_layer@ == old(self).in_layer@,
                self.collides_with@ == old(self).collides_with@,
                kept@ == live(self.in_layer@.take(i as int), entities@),
            decreases self.in_layer@.len() - i,
        {
            let member: Entity = self.in_layer[i];
            proof {
                assert(self.in_layer@.take(i + 1).drop_last() == self.in_layer@.take(i as int));
            }
            if entities.get(member).is_some() {
                kept.push(member);
            }
            i += 1;
        }
        proof {
            assert(self.in_layer@.take(i as int) == self.in_layer@);
        }
        self.in_layer = kept;
    }
}

impl CollisionLayers {
    /// Drops from every layer the members that the table no longer knows.
    pub fn prune(&mut self, entities: &Entities)
        ensures
            final(self).layers@.len() == old(self).layers@.len(),
            forall|i: int|
                0 <= i < old(self).layers@.len() ==> (#[trigger] final(self).layers@[i]).collides_with@
                    == old(self).layers@[i].collides_with@ && final(self).layers@[i].in_layer@
                    == live(old(self).layers@[i].in_layer@, entities@),
    {
        let n: usize = self.layers.len();
        let mut l: usize = 0;
        while l < n
            invariant
                l <= n,
                n == self.layers@.len(),
                n == old(self).layers@.len(),
                forall|i: int|
                    0 <= i < l ==> (#[trigger] self.layers@[i]).collides_with@ == old(
                        self,
                    ).layers@[i].collides_with@ && self.layers@[i].in_layer@ == live(
                        old(self).layers@[i].in_layer@,
                        entities@,
                    ),
                forall|i: int|
                    l <= i < n ==> (#[trigger] self.layers@[i]).collides_with@ == old(
                        self,
                    ).layers@[i].collides_with@ && self.layers@[i].in_layer@ == old(
                        self,
                    ).layers@[i].in_layer@,
            decreases n - l,
        {
            self.layers[l].prune(entities);
            l += 1;
        }
    }
}

/// An overlap found in a tick: `a` found `b`.
#[derive(Clone, Copy, Debug, PartialEq, Eq, Structural)]
pub struct CollideEvent {
    pub a: Entity,
    pub b: Entity,
}

impl CollideEvent {
    /// The overlap that `a` found with `b`.
    pub fn new(a: Entity, b: Entity) -> (event: CollideEvent)
        ensures
            event.a == a,
            event.b == b,
    {
        CollideEvent { a, b }
    }
}

/// The first overlap of `a` with `b` in a tick.
#[derive(Clone, Copy, Debug, PartialEq, Eq, Structural)]
pub struct UniqueCollideEvent {
    pub a: Entity,
    pub b: Entity,
}

impl UniqueCollideEvent {
    /// The first overlap of the pair of `collide_event`.
    pub fn new(collide_event: CollideEvent) -> (event: UniqueCollideEvent)
        ensures
            event.a == collide_event.a,
            event.b == collide_event.b,
    {
        UniqueCollideEvent { a: collide_event.a, b: collide_event.b }
    }
}

/// The pairs that have been reported in the current tick, in the order in
/// which they were found. The host empties it when a tick begins.
pub struct CollideEventsThisFrame(pub Vec<(Entity, Entity)>);

impl Default for CollideEventsThisFrame {
    fn default() -> (seen: CollideEventsThisFrame)
        ensures
            seen.0@.len() == 0,
    {
        CollideEventsThisFrame(Vec::new())
    }
}

/// The square in which a circle at `center` looks for others.
pub open spec fn search_range(center: Vec2, radius: int, check_distance: int) -> AABB {
    AABB { center, half_dimension: (radius + check_distance) as i64 }
}

/// The circle `a` at `a_translation` overlaps the object `b_entity`, and the
/// layer of that object is one that `a` is tested against. An object with a
/// circle is taken as that circle; one without, as its rectangle; one with
/// neither, or one that the table does not hold, overlaps nothing.
pub open spec fn overlaps(
    table: Seq<Option<Row>>,
    a: CircleCollider,
    a_translation: Vec2,
    b_entity: Entity,
    collides_with: Seq<CollisionLayerNames>,
) -> bool {
    match lookup(table, b_entity) {
        None => false,
        Some(c) => match c.circle_collider {
            Some(b) => collides_with.contains(b.layer) && circles_collide(
                a,
                a_translation,
                b,
                c.translation,
            ),
            None => match c.aa_rect_collider {
                Some(b) => collides_with.contains(b.layer) && rect_within(
                    b.spec_half_size(),
                    a_translation,
                    c.translation,
                    a.radius as int,
                ),
                None => false,
            },
        },
    }
}

/// The overlaps of the circle `a` with the candidates, in their order.
pub open spec fn contacts(
    table: Seq<Option<Row>>,
    a: CircleCollider,
    a_translation: Vec2,
    a_entity: Entity,
    candidates: Seq<Entity>,
    collides_with: Seq<CollisionLayerNames>,
) -> Seq<CollideEvent>
    decreases candidates.len(),
{
    if candidates.len() == 0 {
        Seq::empty()
    } else {
        let rest = contacts(
            table,
            a,
            a_translation,
            a_entity,
            candidates.drop_last(),
            collides_with,
        );
        if overlaps(table, a, a_translation, candidates.last(), collides_with) {
            rest.push(CollideEvent { a: a_entity, b: candidates.last() })
        } else {
            rest
        }
    }
}

/// The pairs seen once these overlaps have been reported, starting from `seen`.
pub open spec fn seen_after(raw: Seq<CollideEvent>, seen: Seq<(Entity, Entity)>) -> Seq<
    (Entity, Entity),
>
    decreases raw.len(),
{
    if raw.len() == 0 {
        seen
    } else {
        let before = seen_after(raw.drop_last(), seen);
        let pair = (raw.last().a, raw.last().b);
        if before.contains(pair) {
            before
        } else {
            before.push(pair)
        }
    }
}

/// Those of the overlaps, in order, whose pair had not been seen when they
/// were found.
pub open spec fn fresh_events(raw: Seq<CollideEvent>, seen: Seq<(Entity, Entity)>) -> Seq<
    UniqueCollideEvent,
>
    decreases raw.len(),
{
    if raw.len() == 0 {
        Seq::empty()
    } else {
        let rest = fresh_events(raw.drop_last(), seen);
        let pair = (raw.last().a, raw.last().b);
        if seen_after(raw.drop_last(), seen).contains(pair) {
            rest
        } else {
            rest.push(UniqueCollideEvent { a: raw.last().a, b: raw.last().b })
        }
    }
}

/// The overlaps that the object `entity` finds: those of its circle with what
/// the quadtree yields around it. An object without a circle finds nothing.
pub open spec fn member_contacts(
    table: Seq<Option<Row>>,
    tree: TreeModel,
    check_distance: int,
    entity: Entity,
    collides_with: Seq<CollisionLayerNames>,
) -> Seq<CollideEvent> {
    match lookup(table, entity) {
        None => Seq::empty(),
        Some(c) => match c.circle_collider {
            None => Seq::empty(),
            Some(a) => contacts(
                table,
                a,
                c.translation,
                entity,
                tree.query(search_range(c.translation, a.radius as int, check_distance)),
                collides_with,
            ),
        },
    }
}

/// The overlaps that the first `count` members of a layer find.
pub open spec fn layer_contacts(
    table: Seq<Option<Row>>,
    tree: TreeModel,
    check_distance: int,
    members: Seq<Entity>,
    collides_with: Seq<CollisionLayerNames>,
    count: int,
) -> Seq<CollideEvent>
    decreases count,
{
    if count <= 0 {
        Seq::empty()
    } else {
        layer_contacts(table, tree, check_distance, members, collides_with, count - 1)
            + member_contacts(table, tree, check_distance, members[count - 1], collides_with)
    }
}

/// The overlaps that the first `count` layers find. A layer that is tested
/// against nothing is passed over.
pub open spec fn all_contacts(
    table: Seq<Option<Row>>,
    tree: TreeModel,
    check_distance: int,
    layers: Seq<CollisionLayer>,
    count: int,
) -> Seq<CollideEvent>
    decreases count,
{
    if count <= 0 {
        Seq::empty()
    } else {
        let layer = layers[count - 1];
        all_contacts(table, tree, check_distance, layers, count - 1) + (if layer.collides_with@.len()
            == 0 {
            Seq::empty()
        } else {
            layer_contacts(
                table,
                tree,
                check_distance,
                layer.in_layer@,
                layer.collides_with@,
                layer.in_layer@.len() as int,
            )
        })
    }
}

/// The overlaps of a circle with its candidates are exactly the candidates
/// that it overlaps, each reported with the circle's own handle first.
pub proof fn lemma_contacts_exact(
    table: Seq<Option<Row>>,
    a: CircleCollider,
    a_translation: Vec2,
    a_entity: Entity,
    candidates: Seq<Entity>,
    collides_with: Seq<CollisionLayerNames>,
    event: CollideEvent,
)
    ensures
        contacts(table, a, a_translation, a_entity, candidates, collides_with).contains(event)
            <==> (event.a == a_entity && candidates.contains(event.b) && overlaps(
            table,
            a,
            a_translation,
            event.b,
            collides_with,
        )),
    decreases candidates.len(),
{
    let found = contacts(table, a, a_translation, a_entity, candidates, collides_with);
    if candidates.len() > 0 {
        let rest = contacts(
            table,
            a,
            a_translation,
            a_entity,
            candidates.drop_last(),
            collides_with,
        );
        lemma_contacts_exact(
            table,
            a,
            a_translation,
            a_entity,
            candidates.drop_last(),
            collides_with,
            event,
        );
        let last = candidates.last();
        let hit = overlaps(table, a, a_translation, last, collides_with);
        if found.contains(event) {
            let i = choose|i: int| 0 <= i < found.len() && found[i] == event;
            if hit && i == found.len() - 1 {
                assert(candidates[candidates.len() - 1] == event.b);
            } else {
                assert(rest[i] == event);
                let k = choose|k: int|
                    0 <= k < candidates.drop_last().len() && candidates.drop_last()[k] == event.b;
                assert(candidates[k] == event.b);
            }
        }
        if event.a == a_entity && candidates.contains(event.b) && overlaps(
            table,
            a,
            a_translation,
            event.b,
            collides_with,
        ) {
            let k = choose|k: int| 0 <= k < candidates.len() && candidates[k] == event.b;
            if k == candidates.len() - 1 {
                assert(found[found.len() - 1] == event);
            } else {
                assert(candidates.drop_last()[k] == event.b);
                let i = choose|i: int| 0 <= i < rest.len() && rest[i] == event;
                assert(found[i] == event);
            }
        }
    }
}

/// What an object carries is smaller than the check distance: its circle has
/// a smaller radius, or, where it has no circle, its rectangle reaches less
/// far from its center on either axis.
pub open spec fn within_check_distance(c: Components, check_distance: int) -> bool {
    match c.circle_collider {
        Some(circle) => circle.radius < check_distance,
        None => match c.aa_rect_collider {
            Some(rect) => rect.spec_half_size().x < check_distance && rect.spec_half_size().y < check_distance,
            None => true,
        },
    }
}

/// Every collider in the first `count` slots is smaller than the check distance.
pub open spec fn all_within_check_distance(
    table: Seq<Option<Row>>,
    check_distance: int,
    count: int,
) -> bool {
    forall|i: int|
        0 <= i < count && i < table.len() ==> ((#[trigger] table[i]) matches Some(row)
            ==> within_check_distance(row.components, check_distance))
}

/// Whether the check distance exceeds the size of every collider in the
/// table, as the collision detection takes for granted.
pub fn check_distance_suffices(entities: &Entities, check_distance: i32) -> (enough: bool)
    ensures
        enough == all_within_check_distance(
            entities@,
            check_distance as int,
            entities@.len() as int,
        ),
{
    let mut i: usize = 0;
    while i < entities.len()
        invariant
            i <= entities@.len(),
            all_within_check_distance(entities@, check_distance as int, i as int),
        decreases entities@.len() - i,
    {
        match entities.row(i) {
            Some(row) => {
                let covered: bool = match row.components.circle_collider {
                    Some(circle) => circle.radius < check_distance,
                    None => match row.components.aa_rect_collider {
                        Some(rect) => rect.half_size().x < check_distance && rect.half_size().y
                            < check_distance,
                        None => true,
                    },
                };
                if !covered {
                    assert(!within_check_distance(row.components, check_distance as int));
                    return false;
                }
            },
            None => {},
        }
        i += 1;
    }
    true
}

/// With a check distance that exceeds the size of every collider, no overlap
/// is missed: a circle reports every object in the quadtree that it overlaps
/// on a layer it is tested against.
pub proof fn lemma_no_overlap_missed(
    table: Seq<Option<Row>>,
    tree: TreeModel,
    check_distance: int,
    a_entity: Entity,
    b_entity: Entity,
    collides_with: Seq<CollisionLayerNames>,
)
    requires
        tree.wf(),
        i32::MIN <= check_distance <= i32::MAX,
        lookup(table, a_entity).is_some(),
        lookup(table, a_entity).unwrap().circle_collider.is_some(),
        lookup(table, b_entity).is_some(),
        tree.holds(
            (Entry { position: lookup(table, b_entity).unwrap().translation, entity: b_entity }),
        ),
        within_check_distance(lookup(table, b_entity).unwrap(), check_distance),
        overlaps(
            table,
            lookup(table, a_entity).unwrap().circle_collider.unwrap(),
            lookup(table, a_entity).unwrap().translation,
            b_entity,
            collides_with,
        ),
    ensures
        member_contacts(table, tree, check_distance, a_entity, collides_with).contains(
            (CollideEvent { a: a_entity, b: b_entity }),
        ),
{
    let ca = lookup(table, a_entity).unwrap();
    let cb = lookup(table, b_entity).unwrap();
    let a = ca.circle_collider.unwrap();
    let p = ca.translation;
    let t = cb.translation;
    let range = search_range(p, a.radius as int, check_distance);
    let dx = p.x - t.x;
    let dy = p.y - t.y;
    assert(range.spec_contains_strictly(t)) by {
        match cb.circle_collider {
            Some(b) => {
                let reach = a.radius + b.radius;
                assert(dx * dx >= 0 && dy * dy >= 0) by (nonlinear_arith);
                let ax = if dx >= 0 { dx } else { -dx };
                let ay = if dy >= 0 { dy } else { -dy };
                assert(ax * ax == dx * dx && ay * ay == dy * dy) by (nonlinear_arith)
                    requires
                        ax == dx || ax == -dx,
                        ay == dy || ay == -dy,
                ;
                if ax > reach {
                    lemma_square_le(reach + 1, ax);
                    assert((reach + 1) * (reach + 1) > reach * reach) by (nonlinear_arith)
                        requires
                            reach >= 0,
                    ;
                }
                if ay > reach {
                    lemma_square_le(reach + 1, ay);
                    assert((reach + 1) * (reach + 1) > reach * reach) by (nonlinear_arith)
                        requires
                            reach >= 0,
                    ;
                }
            },
            None => {
                let half = cb.aa_rect_collider.unwrap().spec_half_size();
                let gx = axis_gap(t.x as int, half.x as int, p.x as int);
                let gy = axis_gap(t.y as int, half.y as int, p.y as int);
                let ox = max_of(gx, 0);
                let oy = max_of(gy, 0);
                let r = a.radius as int;
                assert(ox * ox >= 0 && oy * oy >= 0) by (nonlinear_arith);
                if rect_outside_sq(half, p, t) > 0 {
                    if ox > r {
                        lemma_square_le(r + 1, ox);
                        assert((r + 1) * (r + 1) > r * r) by (nonlinear_arith)
                            requires
                                r >= 0,
                        ;
                    }
                    if oy > r {
                        lemma_square_le(r + 1, oy);
                        assert((r + 1) * (r + 1) > r * r) by (nonlinear_arith)
                            requires
                                r >= 0,
                        ;
                    }
                } else {
                    assert(ox > 0 ==> ox * ox > 0) by (nonlinear_arith);
                    assert(oy > 0 ==> oy * oy > 0) by (nonlinear_arith);
                }
            },
        }
    }
    let entry = Entry { position: t, entity: b_entity };
    lemma_query_complete(tree, range, entry);
    lemma_contacts_exact(
        table,
        a,
        p,
        a_entity,
        tree.query(range),
        collides_with,
        CollideEvent { a: a_entity, b: b_entity },
    );
}

/// Reporting two runs of overlaps one after the other is reporting their
/// concatenation.
pub proof fn lemma_fresh_events_concat(
    first: Seq<CollideEvent>,
    second: Seq<CollideEvent>,
    seen: Seq<(Entity, Entity)>,
)
    ensures
        seen_after(first + second, seen) == seen_after(second, seen_after(first, seen)),
        fresh_events(first + second, seen) == fresh_events(first, seen) + fresh_events(
            second,
            seen_after(first, seen),
        ),
    decreases second.len(),
{
    if second.len() == 0 {
        assert(first + second =~= first);
        assert(fresh_events(first, seen) + Seq::<UniqueCollideEvent>::empty() =~= fresh_events(
            first,
            seen,
        ));
    } else {
        lemma_fresh_events_concat(first, second.drop_last(), seen);
        assert((first + second).drop_last() =~= first + second.drop_last());
        assert((first + second).last() == second.last());
        let mid = seen_after(first, seen);
        let rest = fresh_events(second.drop_last(), mid);
        let pair = (second.last().a, second.last().b);
        if !seen_after(second.drop_last(), mid).contains(pair) {
            assert(fresh_events(first, seen) + rest.push(
                UniqueCollideEvent { a: second.last().a, b: second.last().b },
            ) =~= (fresh_events(first, seen) + rest).push(
                UniqueCollideEvent { a: second.last().a, b: second.last().b },
            ));
        }
    }
}

/// Within a tick no pair is reported twice as a first overlap: if the list of
/// seen pairs held no pair twice, it holds none twice afterwards; it has
/// grown by exactly the pairs of the first overlaps, in order; and no two
/// first overlaps name the same pair in the same order.
pub proof fn lemma_fresh_events_distinct(raw: Seq<CollideEvent>, seen: Seq<(Entity, Entity)>)
    requires
        seen.no_duplicates(),
    ensures
        seen_after(raw, seen).no_duplicates(),
        seen_after(raw, seen) == seen + fresh_events(raw, seen).map_values(
            |e: UniqueCollideEvent| (e.a, e.b),
        ),
        forall|i: int, j: int|
            0 <= i < j < fresh_events(raw, seen).len() ==> (
            fresh_events(raw, seen)[i].a,
            fresh_events(raw, seen)[i].b,
        ) != (fresh_events(raw, seen)[j].a, fresh_events(raw, seen)[j].b),
        forall|i: int|
            0 <= i < fresh_events(raw, seen).len() ==> !seen.contains(
                (fresh_events(raw, seen)[i].a, fresh_events(raw, seen)[i].b),
            ),
    decreases raw.len(),
{
    let pair_of = |e: UniqueCollideEvent| (e.a, e.b);
    if raw.len() == 0 {
        assert(seen + Seq::<UniqueCollideEvent>::empty().map_values(pair_of) =~= seen);
    } else {
        lemma_fresh_events_distinct(raw.drop_last(), seen);
        let before = seen_after(raw.drop_last(), seen);
        let rest = fresh_events(raw.drop_last(), seen);
        let pair = (raw.last().a, raw.last().b);
        let event = UniqueCollideEvent { a: raw.last().a, b: raw.last().b };
        if !before.contains(pair) {
            let fresh = rest.push(event);
            assert(fresh.map_values(pair_of) =~= rest.map_values(pair_of).push(pair));
            assert(before.push(pair) =~= seen + fresh.map_values(pair_of));
            assert forall|i: int, j: int| 0 <= i < j < fresh.len() implies (fresh[i].a, fresh[i].b)
                != (fresh[j].a, fresh[j].b) by {
                if j == fresh.len() - 1 {
                    assert(before[seen.len() + i] == rest.map_values(pair_of)[i]);
                    assert(before.contains((fresh[i].a, fresh[i].b)));
                }
            }
            assert forall|i: int| 0 <= i < fresh.len() implies !seen.contains(
                (fresh[i].a, fresh[i].b),
            ) by {
                if i == fresh.len() - 1 {
                    if seen.contains(pair) {
                        let k = choose|k: int| 0 <= k < seen.len() && seen[k] == pair;
                        assert(before[k] == pair);
                    }
                }
            }
        }
    }
}

/// Whether the layer is in the list.
fn layer_listed(list: &Vec<CollisionLayerNames>, layer: CollisionLayerNames) -> (listed: bool)
    ensures
        listed == list@.contains(layer),
{
    let mut i: usize = 0;
    while i < list.len()
        invariant
            i <= list.len(),
            forall|k: int| 0 <= k < i ==> list@[k] != layer,
        decreases list.len() - i,
    {
        if list[i] == layer {
            return true;
        }
        i += 1;
    }
    false
}

/// Whether the pair is in the list.
fn pair_seen(seen: &Vec<(Entity, Entity)>, a: Entity, b: Entity) -> (found: bool)
    ensures
        found == seen@.contains((a, b)),
{
    let mut i: usize = 0;
    while i < seen.len()
        invariant
            i <= seen.len(),
            forall|k: int| 0 <= k < i ==> seen@[k] != (a, b),
        decreases seen.len() - i,
    {
        let pair: (Entity, Entity) = seen[i];
        if pair.0 == a && pair.1 == b {
            assert(seen@[i as int] == (a, b));
            return true;
        }
        i += 1;
    }
    false
}

/// Whether the circle `a` overlaps the object `b_entity` on a layer that it
/// is tested against.
fn overlap_test(
    a: &CircleCollider,
    a_translation: Vec2,
    b_entity: Entity,
    entities: &Entities,
    collides_with: &Vec<CollisionLayerNames>,
) -> (hit: bool)
    ensures
        hit == overlaps(entities@, *a, a_translation, b_entity, collides_with@),
{
    match entities.get(b_entity) {
        None => false,
        Some(c) => match c.circle_collider {
            Some(b) => layer_listed(collides_with, b.layer) && circle_circle_collision(
                a,
                a_translation,
                &b,
                c.translation,
            ),
            None => match c.aa_rect_collider {
                Some(b) => layer_listed(collides_with, b.layer) && circle_aa_rect_collision(
                    a,
                    a_translation,
                    &b,
                    c.translation,
                ),
                None => false,
            },
        },
    }
}

/// Tests one circle against what the quadtree yields around it. Every
/// overlap is appended to `collide_events`; the first overlap of a pair in
/// this tick is also appended to `unique_collide_events`, and the pair to the
/// list of seen pairs.
pub fn handle_circle_collisions(
    a: &CircleCollider,
    a_translation: Vec2,
    a_entity: Entity,
    entities: &Entities,
    quad_tree: &QuadTree,
    check_distance: i32,
    collides_with: &Vec<CollisionLayerNames>,
    collide_events: &mut Vec<CollideEvent>,
    unique_collide_events: &mut Vec<UniqueCollideEvent>,
    collide_events_this_frame: &mut CollideEventsThisFrame,
)
    ensures
        final(collide_events)@ == old(collide_events)@ + contacts(
            entities@,
            *a,
            a_translation,
            a_entity,
            quad_tree@.query(search_range(a_translation, a.radius as int, check_distance as int)),
            collides_with@,
        ),
        final(unique_collide_events)@ == old(unique_collide_events)@ + fresh_events(
            contacts(
                entities@,
                *a,
                a_translation,
                a_entity,
                quad_tree@.query(
                    search_range(a_translation, a.radius as int, check_distance as int),
                ),
                collides_with@,
            ),
            old(collide_events_this_frame).0@,
        ),
        final(collide_events_this_frame).0@ == seen_after(
            contacts(
                entities@,
                *a,
                a_translation,
                a_entity,
                quad_tree@.query(
                    search_range(a_translation, a.radius as int, check_distance as int),
                ),
                collides_with@,
            ),
            old(collide_events_this_frame).0@,
        ),
{
    let range = AABB::new(a_translation, a.radius as i64 + check_distance as i64);
    let candidates: Vec<Entity> = quad_tree.query_range(&range);
    let ghost raw0 = collide_events@;
    let ghost unique0 = unique_collide_events@;
    let ghost seen0 = collide_events_this_frame.0@;
    let mut i: usize = 0;
    while i < candidates.len()
        invariant
            i <= candidates.len(),
            collide_events@ == raw0 + contacts(
                entities@,
                *a,
                a_translation,
                a_entity,
                candidates@.take(i as int),
                collides_with@,
            ),
            unique_collide_events@ == unique0 + fresh_events(
                contacts(
                    entities@,
                    *a,
                    a_translation,
                    a_entity,
                    candidates@.take(i as int),
                    collides_with@,
                ),
                seen0,
            ),
            collide_events_this_frame.0@ == seen_after(
                contacts(
                    entities@,
                    *a,
                    a_translation,
                    a_entity,
                    candidates@.take(i as int),
                    collides_with@,
                ),
                seen0,
            ),
        decreases candidates.len() - i,
    {
        let b_entity: Entity = candidates[i];
        let ghost found = contacts(
            entities@,
            *a,
            a_translation,
            a_entity,
            candidates@.take(i as int),
            collides_with@,
        );
        proof {
            assert(candidates@.take(i + 1).drop_last() == candidates@.take(i as int));
        }
        if overlap_test(a, a_translation, b_entity, entities, collides_with) {
            let collide_event = CollideEvent::new(a_entity, b_entity);
            collide_events.push(collide_event);
            proof {
                assert(found.push(collide_event).drop_last() == found);
                assert(raw0 + found.push(collide_event) =~= (raw0 + found).push(collide_event));
            }
            if !pair_seen(&collide_events_this_frame.0, a_entity, b_entity) {
                let unique = UniqueCollideEvent::new(collide_event);
                unique_collide_events.push(unique);
                collide_events_this_frame.0.push((a_entity, b_entity));
                proof {
                    assert(unique0 + fresh_events(found, seen0).push(unique) =~= (unique0
                        + fresh_events(found, seen0)).push(unique));
                }
            }
        }
        i += 1;
    }
    proof {
        assert(candidates@.take(i as int) == candidates@);
    }
}

/// Finds the overlaps of one tick. Layer by layer, passing over the layers
/// that are tested against nothing, every member that carries a circle is
/// tested against what the quadtree yields within its radius plus
/// `check_distance`. The first list holds every overlap, in the order found;
/// the second the first overlap of every pair not yet in the list of seen
/// pairs, to which those pairs are added.
pub fn find_collisions(
    entities: &Entities,
    collision_layers: &CollisionLayers,
    quad_tree: &QuadTree,
    check_distance: i32,
    collide_events_this_frame: &mut CollideEventsThisFrame,
) -> (events: (Vec<CollideEvent>, Vec<UniqueCollideEvent>))
    ensures
        events.0@ == all_contacts(
            entities@,
            quad_tree@,
            check_distance as int,
            collision_layers.layers@,
            collision_layers.layers@.len() as int,
        ),
        events.1@ == fresh_events(events.0@, old(collide_events_this_frame).0@),
        final(collide_events_this_frame).0@ == seen_after(
            events.0@,
            old(collide_events_this_frame).0@,
        ),
{
    let mut collide_events: Vec<CollideEvent> = Vec::new();
    let mut unique_collide_events: Vec<UniqueCollideEvent> = Vec::new();
    let ghost seen0 = collide_events_this_frame.0@;
    let mut l: usize = 0;
    while l < collision_layers.layers.len()
        invariant
            l <= collision_layers.layers@.len(),
            collide_events@ == all_contacts(
                entities@,
                quad_tree@,
                check_distance as int,
                collision_layers.layers@,
                l as int,
            ),
            unique_collide_events@ == fresh_events(collide_events@, seen0),
            collide_events_this_frame.0@ == seen_after(collide_events@, seen0),
        decreases collision_layers.layers@.len() - l,
    {
        let layer: &CollisionLayer = &collision_layers.layers[l];
        if layer.collides_with.len() == 0 {
            proof {
                assert(collide_events@ + Seq::<CollideEvent>::empty() =~= collide_events@);
            }
            l += 1;
            continue;
        }
        let ghost raw_before = collide_events@;
        let mut m: usize = 0;
        while m < layer.in_layer.len()
            invariant
                m <= layer.in_layer@.len(),
                collide_events@ == raw_before + layer_contacts(
                    entities@,
                    quad_tree@,
                    check_distance as int,
                    layer.in_layer@,
                    layer.collides_with@,
                    m as int,
                ),
                unique_collide_events@ == fresh_events(collide_events@, seen0),
                collide_events_this_frame.0@ == seen_after(collide_events@, seen0),
            decreases layer.in_layer@.len() - m,
        {
            let entity: Entity = layer.in_layer[m];
            let ghost so_far = layer_contacts(
                entities@,
                quad_tree@,
                check_distance as int,
                layer.in_layer@,
                layer.collides_with@,
                m as int,
            );
            let ghost found = member_contacts(
                entities@,
                quad_tree@,
                check_distance as int,
                entity,
                layer.collides_with@,
            );
            let ghost raw_now = collide_events@;
            proof {
                lemma_fresh_events_concat(raw_now, found, seen0);
                assert(raw_before + (so_far + found) =~= raw_now + found);
            }
            match entities.get(entity) {
                Some(c) => match c.circle_collider {
                    Some(circle_collider) => {
                        handle_circle_collisions(
                            &circle_collider,
                            c.translation,
                            entity,
                            entities,
                            quad_tree,
                            check_distance,
                            &layer.collides_with,
                            &mut collide_events,
                            &mut unique_collide_events,
                            collide_events_this_frame,
                        );
                    },
                    None => {
                        proof {
                            assert(raw_now + found =~= raw_now);
                        }
                    },
                },
                None => {
                    proof {
                        assert(raw_now + found =~= raw_now);
                    }
                },
            }
            m += 1;
        }
        l += 1;
    }
    (collide_events, unique_collide_events)
}

/// The vector from the nearest point of the rectangle's edge to the center of
/// the circle.
pub open spec fn contact_normal(half: Vec2, p: Vec2, rect_translation: Vec2) -> (int, int) {
    let contact = if rect_contains_strictly(half, p, rect_translation) {
        nearest_on_edge(half, p, rect_translation)
    } else {
        nearest_clamped(half, p, rect_translation)
    };
    (p.x - contact.x, p.y - contact.y)
}

/// The fixed-point unit vector along which the circle is pushed: away from
/// the nearest point of the edge for a center outside the rectangle, toward
/// it, and so out through the nearest face, for a center inside.
pub open spec fn push_direction(half: Vec2, p: Vec2, rect_translation: Vec2) -> (int, int) {
    let n = contact_normal(half, p, rect_translation);
    if rect_contains_strictly(half, p, rect_translation) {
        (-unit_component(n.0, n.0, n.1), -unit_component(n.1, n.0, n.1))
    } else {
        (unit_component(n.0, n.0, n.1), unit_component(n.1, n.0, n.1))
    }
}

/// The signed distance from the center of the circle to the nearest point of
/// the edge, in whole units rounded toward zero; negative inside.
pub open spec fn contact_distance(half: Vec2, p: Vec2, rect_translation: Vec2) -> int {
    let n = contact_normal(half, p, rect_translation);
    let length = floor_sqrt(n.0 * n.0 + n.1 * n.1);
    if rect_contains_strictly(half, p, rect_translation) {
        -length
    } else {
        length
    }
}

/// Where the center of the circle is put: moved along the push direction by
/// the radius less the signed distance. Where that cannot be named by the
/// coordinates, the center stays.
pub open spec fn resolved_translation(
    half: Vec2,
    p: Vec2,
    radius: int,
    rect_translation: Vec2,
) -> Vec2 {
    let direction = push_direction(half, p, rect_translation);
    let depth = radius - contact_distance(half, p, rect_translation);
    let x = p.x + trunc_div(direction.0 * depth, ONE as int);
    let y = p.y + trunc_div(direction.1 * depth, ONE as int);
    if i32::MIN <= x <= i32::MAX && i32::MIN <= y <= i32::MAX {
        Vec2 { x: x as i32, y: y as i32 }
    } else {
        p
    }
}

/// The velocity of the circle with its part along the push direction taken
/// out, so that the circle slides along the wall. Where the result cannot be
/// held, the velocity stays.
pub open spec fn resolved_velocity(
    half: Vec2,
    p: Vec2,
    velocity: Vec2,
    rect_translation: Vec2,
) -> Vec2 {
    let direction = push_direction(half, p, rect_translation);
    let along = direction.0 * velocity.x + direction.1 * velocity.y;
    let x = velocity.x - trunc_div(direction.0 * along, ONE as int * ONE as int);
    let y = velocity.y - trunc_div(direction.1 * along, ONE as int * ONE as int);
    if i32::MIN <= x <= i32::MAX && i32::MIN <= y <= i32::MAX {
        Vec2 { x: x as i32, y: y as i32 }
    } else {
        velocity
    }
}

/// The sign of a number, as minus one, zero or one.
pub open spec fn sign(x: int) -> int {
    if x > 0 {
        1
    } else if x < 0 {
        -1
    } else {
        0
    }
}

/// A circle whose center lies strictly inside a rectangle leaves it through
/// the nearest face. The push goes straight outward across that face; the
/// center ends up beyond the face by the radius (where the coordinates can
/// name that point); and the velocity loses its part across the face and
/// keeps its part along it.
pub proof fn lemma_pushed_out_through_nearest_face(
    half: Vec2,
    p: Vec2,
    velocity: Vec2,
    radius: int,
    rect_translation: Vec2,
)
    requires
        rect_contains_strictly(half, p, rect_translation),
    ensures
        ({
            let face = nearest_on_edge(half, p, rect_translation);
            let out = (sign(face.x - p.x), sign(face.y - p.y));
            let x = face.x + out.0 * radius;
            let y = face.y + out.1 * radius;
            &&& (out.0 == 0) != (out.1 == 0)
            &&& push_direction(half, p, rect_translation) == (out.0 * ONE, out.1 * ONE)
            &&& (i32::MIN <= x <= i32::MAX && i32::MIN <= y <= i32::MAX) ==> resolved_translation(
                half,
                p,
                radius,
                rect_translation,
            ) == Vec2 { x: x as i32, y: y as i32 }
            &&& resolved_velocity(half, p, velocity, rect_translation) == if out.0 != 0 {
                Vec2 { x: 0, y: velocity.y }
            } else {
                Vec2 { x: velocity.x, y: 0 }
            }
        }),
{
    let face = nearest_on_edge(half, p, rect_translation);
    let n = contact_normal(half, p, rect_translation);
    let direction = push_direction(half, p, rect_translation);
    let distance = contact_distance(half, p, rect_translation);
    let depth = radius - distance;
    let out = (sign(face.x - p.x), sign(face.y - p.y));
    let one = ONE as int;
    assert(n == (p.x - face.x, p.y - face.y));
    if n.0 != 0 {
        assert(n.1 == 0);
        lemma_axis_unit(n.0);
        assert(n.0 * n.0 + n.1 * n.1 == length_sq(n.0, 0)) by (nonlinear_arith)
            requires
                n.1 == 0,
                length_sq(n.0, 0) == n.0 * n.0 + 0 * 0,
        ;
        assert(unit_component(n.1, n.0, n.1) == 0);
        if n.0 < 0 {
            assert(out == (1int, 0int));
            assert(direction == (one, 0int));
            assert(distance == n.0);
            lemma_scaled_back(1, depth);
            lemma_slide(1, velocity.x as int, velocity.y as int);
        } else {
            assert(out == (-1int, 0int));
            assert(direction == (-one, 0int));
            assert(distance == -n.0);
            lemma_scaled_back(-1, depth);
            lemma_slide(-1, velocity.x as int, velocity.y as int);
        }
        lemma_scaled_back(0, depth);
        assert(direction.1 * depth == (0 * ONE) * depth);
        assert(direction.0 * depth == (out.0 * ONE) * depth);
        assert(trunc_div(direction.0 * depth, one) == out.0 * depth);
        assert(trunc_div(direction.1 * depth, one) == 0);
        assert(out.0 * depth == out.0 * radius + (face.x - p.x));
        let along = direction.0 * velocity.x + direction.1 * velocity.y;
        assert(along == (out.0 * ONE) * velocity.x + 0 * velocity.y);
        assert(direction.0 * along == (out.0 * ONE) * ((out.0 * ONE) * velocity.x + 0
            * velocity.y));
        assert(direction.1 * along == 0 * ((out.0 * ONE) * velocity.x + 0 * velocity.y));
        assert(trunc_div(direction.0 * along, one * one) == velocity.x);
        assert(trunc_div(direction.1 * along, one * one) == 0);
    } else {
        assert(n.1 != 0);
        lemma_axis_unit(n.1);
        assert(n.0 * n.0 + n.1 * n.1 == length_sq(0, n.1)) by (nonlinear_arith)
            requires
                n.0 == 0,
                length_sq(0, n.1) == 0 * 0 + n.1 * n.1,
        ;
        assert(unit_component(n.0, n.0, n.1) == 0);
        if n.1 < 0 {
            assert(out == (0int, 1int));
            assert(direction == (0int, one));
            assert(distance == n.1);
            lemma_scaled_back(1, depth);
            lemma_slide(1, velocity.y as int, velocity.x as int);
        } else {
            assert(out == (0int, -1int));
            assert(direction == (0int, -one));
            assert(distance == -n.1);
            lemma_scaled_back(-1, depth);
            lemma_slide(-1, velocity.y as int, velocity.x as int);
        }
        lemma_scaled_back(0, depth);
        assert(direction.0 * depth == (0 * ONE) * depth);
        assert(direction.1 * depth == (out.1 * ONE) * depth);
        assert(trunc_div(direction.1 * depth, one) == out.1 * depth);
        assert(trunc_div(direction.0 * depth, one) == 0);
        assert(out.1 * depth == out.1 * radius + (face.y - p.y));
        let along = direction.0 * velocity.x + direction.1 * velocity.y;
        assert(along == (out.1 * ONE) * velocity.y + 0 * velocity.x);
        assert(direction.1 * along == (out.1 * ONE) * ((out.1 * ONE) * velocity.y + 0
            * velocity.x));
        assert(direction.0 * along == 0 * ((out.1 * ONE) * velocity.y + 0 * velocity.x));
        assert(trunc_div(direction.1 * along, one * one) == velocity.y);
        assert(trunc_div(direction.0 * along, one * one) == 0);
    }
}

/// A whole number of units times a signed one, in fixed point, is that
/// number with the sign.
pub proof fn lemma_scaled_back(s: int, depth: int)
    requires
        s == 1 || s == -1 || s == 0,
    ensures
        trunc_div((s * ONE) * depth, ONE as int) == s * depth,
{
    let a = if depth >= 0 { depth } else { -depth };
    assert((ONE * a) / (ONE as int) == a) by (nonlinear_arith)
        requires
            ONE == 1_000_000,
            a >= 0,
    ;
    assert((s * ONE) * depth == ONE * a || (s * ONE) * depth == -(ONE * a) || (s * ONE) * depth
        == 0) by (nonlinear_arith)
        requires
            s == 1 || s == -1 || s == 0,
            a == depth || a == -depth,
    ;
    assert(ONE * a >= 0) by (nonlinear_arith)
        requires
            ONE == 1_000_000,
            a >= 0,
    ;
    assert(s * depth == a || s * depth == -a || s * depth == 0) by (nonlinear_arith)
        requires
            s == 1 || s == -1 || s == 0,
            a == depth || a == -depth,
    ;
    if s == 0 {
        assert((s * ONE) * depth == 0 && s * depth == 0) by (nonlinear_arith)
            requires
                s == 0,
        ;
    } else if (s == 1) == (depth >= 0) {
        assert((s * ONE) * depth == ONE * a && s * depth == a) by (nonlinear_arith)
            requires
                (s == 1 && depth >= 0 && a == depth) || (s == -1 && depth < 0 && a == -depth),
        ;
    } else {
        assert((s * ONE) * depth == -(ONE * a) && s * depth == -a) by (nonlinear_arith)
            requires
                (s == 1 && depth < 0 && a == -depth) || (s == -1 && depth >= 0 && a == depth),
        ;
    }
}

/// Along a signed axis the part of a velocity across the axis is the whole
/// component, and the part along the other axis is nothing.
pub proof fn lemma_slide(s: int, across: int, other: int)
    requires
        s == 1 || s == -1,
    ensures
        trunc_div((s * ONE) * ((s * ONE) * across + 0 * other), ONE as int * ONE as int) == across,
        trunc_div(0 * ((s * ONE) * across + 0 * other), ONE as int * ONE as int) == 0,
{
    let a = if across >= 0 { across } else { -across };
    let big = ONE as int * ONE as int;
    assert(big == 1_000_000_000_000);
    assert((big * a) / big == a) by (nonlinear_arith)
        requires
            big == 1_000_000_000_000,
            a >= 0,
    ;
    assert(big * a >= 0) by (nonlinear_arith)
        requires
            big == 1_000_000_000_000,
            a >= 0,
    ;
    assert((s * ONE) * ((s * ONE) * across + 0 * other) == big * across) by (nonlinear_arith)
        requires
            s == 1 || s == -1,
            big == ONE * ONE,
    ;
    assert(big * across == big * a || big * across == -(big * a)) by (nonlinear_arith)
        requires
            a == across || a == -across,
    ;
    if across >= 0 {
        assert(big * across == big * a);
    } else {
        assert(big * across == -(big * a)) by (nonlinear_arith)
            requires
                a == -across,
        ;
        assert(big * a > 0) by (nonlinear_arith)
            requires
                big == 1_000_000_000_000,
                a > 0,
        ;
    }
    assert(0 * ((s * ONE) * across + 0 * other) == 0) by (nonlinear_arith);
    assert(0int / big == 0);
}

/// Pushes a circle out of a rectangle. The answer is the new center and the
/// new velocity.
pub fn resolve_circle_rect(
    p: Vec2,
    velocity: Vec2,
    radius: i32,
    rect: &AARectCollider,
    rect_translation: Vec2,
) -> (r: (Vec2, Vec2))
    ensures
        r.0 == resolved_translation(rect.spec_half_size(), p, radius as int, rect_translation),
        r.1 == resolved_velocity(rect.spec_half_size(), p, velocity, rect_translation),
{
    let (contact_point, in_rect) = rect.nearest_point(p, rect_translation);
    let nx: i64 = p.x as i64 - contact_point.x;
    let ny: i64 = p.y as i64 - contact_point.y;
    let unit: WideVec2 = normalize(nx, ny);
    let wx: i128 = nx as i128;
    let wy: i128 = ny as i128;
    proof {
        lemma_square_le(if wx >= 0 { wx as int } else { -wx }, 0x4_0000_0000);
        lemma_square_le(if wy >= 0 { wy as int } else { -wy }, 0x4_0000_0000);
        assert(wx * wx == (-wx) * (-wx)) by (nonlinear_arith);
        assert(wy * wy == (-wy) * (-wy)) by (nonlinear_arith);
    }
    let length: u64 = isqrt((wx * wx + wy * wy) as u128);
    proof {
        if length > 0x8_0000_0000 {
            lemma_square_le(0x8_0000_0001, length as int);
        }
    }
    let (ux, uy, distance): (i128, i128, i128) = if in_rect {
        (-(unit.x as i128), -(unit.y as i128), -(length as i128))
    } else {
        (unit.x as i128, unit.y as i128, length as i128)
    };
    let depth: i128 = radius as i128 - distance;
    proof {
        lemma_unit_component_bound(nx as int, nx as int, ny as int);
        lemma_unit_component_bound(ny as int, nx as int, ny as int);
        let direction = push_direction(rect.spec_half_size(), p, rect_translation);
        assert(contact_normal(rect.spec_half_size(), p, rect_translation) == (nx as int, ny as int));
        assert(direction == (ux as int, uy as int));
        assert(distance == contact_distance(rect.spec_half_size(), p, rect_translation));
    }
    let one: i128 = 1_000_000;
    proof {
        assert(-0x10_0000_0000 * 1_000_000 <= ux * depth <= 0x10_0000_0000 * 1_000_000)
            by (nonlinear_arith)
            requires
                -1_000_000 <= ux <= 1_000_000,
                -0x10_0000_0000 <= depth <= 0x10_0000_0000,
        ;
        assert(-0x10_0000_0000 * 1_000_000 <= uy * depth <= 0x10_0000_0000 * 1_000_000)
            by (nonlinear_arith)
            requires
                -1_000_000 <= uy <= 1_000_000,
                -0x10_0000_0000 <= depth <= 0x10_0000_0000,
        ;
        assert(ONE as int * ONE as int == 1_000_000_000_000);
    }
    let offset_x: i128 = (ux * depth) / one;
    let offset_y: i128 = (uy * depth) / one;
    proof {
        lemma_trunc_div_bound((ux * depth) as int, one as int, 0x10_0000_0000);
        lemma_trunc_div_bound((uy * depth) as int, one as int, 0x10_0000_0000);
    }
    let translation: Vec2 = match Vec2::from_wide(p.x as i128 + offset_x, p.y as i128 + offset_y) {
        Some(moved) => moved,
        None => p,
    };
    let vx: i128 = velocity.x as i128;
    let vy: i128 = velocity.y as i128;
    proof {
        assert(-0x8000_0000 * 1_000_000 <= ux * vx <= 0x8000_0000 * 1_000_000) by (nonlinear_arith)
            requires
                -1_000_000 <= ux <= 1_000_000,
                -0x8000_0000 <= vx <= 0x8000_0000,
        ;
        assert(-0x8000_0000 * 1_000_000 <= uy * vy <= 0x8000_0000 * 1_000_000) by (nonlinear_arith)
            requires
                -1_000_000 <= uy <= 1_000_000,
                -0x8000_0000 <= vy <= 0x8000_0000,
        ;
    }
    let along: i128 = ux * vx + uy * vy;
    proof {
        assert(-0x1_0000_0000 * 1_000_000_000_000 <= ux * along <= 0x1_0000_0000
            * 1_000_000_000_000) by (nonlinear_arith)
            requires
                -1_000_000 <= ux <= 1_000_000,
                -0x1_0000_0000 * 1_000_000 <= along <= 0x1_0000_0000 * 1_000_000,
        ;
        assert(-0x1_0000_0000 * 1_000_000_000_000 <= uy * along <= 0x1_0000_0000
            * 1_000_000_000_000) by (nonlinear_arith)
            requires
                -1_000_000 <= uy <= 1_000_000,
                -0x1_0000_0000 * 1_000_000 <= along <= 0x1_0000_0000 * 1_000_000,
        ;
        lemma_trunc_div_bound((ux * along) as int, 1_000_000_000_000, 0x1_0000_0000);
        lemma_trunc_div_bound((uy * along) as int, 1_000_000_000_000, 0x1_0000_0000);
    }
    let slide_x: i128 = vx - (ux * along) / 1_000_000_000_000;
    let slide_y: i128 = vy - (uy * along) / 1_000_000_000_000;
    let new_velocity: Vec2 = match Vec2::from_wide(slide_x, slide_y) {
        Some(slid) => slid,
        None => velocity,
    };
    (translation, new_velocity)
}

/// Whether the event is one that moves `a`: `a` carries a circle, a velocity
/// and no rectangle, takes part in the physics and asks to be pushed out of
/// walls, and `b` carries a rectangle and no circle.
pub open spec fn responds(table: Seq<Option<Row>>, event: CollideEvent) -> bool {
    &&& lookup(table, event.a) matches Some(a)
    &&& a.physics matches Some(physics)
    &&& physics.use_collisions
    &&& a.circle_collider.is_some()
    &&& a.velocity.is_some()
    &&& a.aa_rect_collider.is_none()
    &&& lookup(table, event.b) matches Some(b)
    &&& b.aa_rect_collider.is_some()
    &&& b.circle_collider.is_none()
}

/// The table after one event has been answered: where the event is one that
/// moves `a`, the circle of `a` has been pushed out of the rectangle of `b`;
/// otherwise nothing has changed.
pub open spec fn answered(table: Seq<Option<Row>>, event: CollideEvent) -> Seq<Option<Row>> {
    if responds(table, event) {
        let a = lookup(table, event.a).unwrap();
        let b = lookup(table, event.b).unwrap();
        let half = b.aa_rect_collider.unwrap().spec_half_size();
        table.update(
            event.a.index as int,
            Some(
                Row {
                    entity: event.a,
                    components: Components {
                        translation: resolved_translation(
                            half,
                            a.translation,
                            a.circle_collider.unwrap().radius as int,
                            b.translation,
                        ),
                        velocity: Some(
                            Velocity(
                                resolved_velocity(
                                    half,
                                    a.translation,
                                    a.velocity.unwrap().0,
                                    b.translation,
                                ),
                            ),
                        ),
                        ..a
                    },
                },
            ),
        )
    } else {
        table
    }
}

/// The table after the events have been answered in order.
pub open spec fn answered_all(table: Seq<Option<Row>>, events: Seq<CollideEvent>) -> Seq<
    Option<Row>,
>
    decreases events.len(),
{
    if events.len() == 0 {
        table
    } else {
        answered(answered_all(table, events.drop_last()), events.last())
    }
}

/// Answers the overlaps of a tick: every circle that asks for it is pushed
/// out of the rectangle it overlaps and loses the part of its velocity that
/// points into the wall.
pub fn handle_collisions(events: &Vec<CollideEvent>, entities: &mut Entities)
    requires
        old(entities).wf(),
    ensures
        final(entities).wf(),
        final(entities)@ == answered_all(old(entities)@, events@),
{
    let mut i: usize = 0;
    while i < events.len()
        invariant
            i <= events.len(),
            entities.wf(),
            entities@ == answered_all(old(entities)@, events@.take(i as int)),
        decreases events.len() - i,
    {
        let event: CollideEvent = events[i];
        proof {
            assert(events@.take(i + 1).drop_last() == events@.take(i as int));
        }
        answer(event, entities);
        i += 1;
    }
    proof {
        assert(events@.take(i as int) == events@);
    }
}

/// Answers one overlap.
fn answer(event: CollideEvent, entities: &mut Entities)
    requires
        old(entities).wf(),
    ensures
        final(entities).wf(),
        final(entities)@ == answered(old(entities)@, event),
{
    let a = match entities.get(event.a) {
        Some(a) => a,
        None => {
            return ;
        },
    };
    let b = match entities.get(event.b) {
        Some(b) => b,
        None => {
            return ;
        },
    };
    let use_collisions: bool = match a.physics {
        Some(physics) => physics.use_collisions,
        None => false,
    };
    if !use_collisions || a.aa_rect_collider.is_some() || b.circle_collider.is_some() {
        return ;
    }
    match (a.circle_collider, a.velocity, b.aa_rect_collider) {
        (Some(collider_a), Some(velocity_a), Some(collider_b)) => {
            let (translation, velocity) = resolve_circle_rect(
                a.translation,
                velocity_a.0,
                collider_a.radius,
                &collider_b,
                b.translation,
            );
            let mut moved: Components = a;
            moved.translation = translation;
            moved.velocity = Some(Velocity(velocity));
            entities.set_components(event.a.index as usize, moved);
        },
        _ => {},
    }
}

} // verus!
