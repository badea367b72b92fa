//! A point quadtree over the world plane, rebuilt from scratch every tick.
//!
//! The executable tree keeps its nodes in an arena and names children by
//! their places in it. It is described by a mathematical model,
//! [`TreeModel`]: what `insert` and `query_range` do is defined on the model,
//! and the laws at the end of this file are proved of it.

use vstd::prelude::*;
use vstd::multiset::Multiset;
use vstd::seq_lib::{to_multiset_build, to_multiset_contains};
use crate::entities::{Entities, Row};
use crate::entity::Entity;
use crate::vec2::Vec2;

verus! {

/// The number of entries a node takes before it splits.
pub const CAPACITY: usize = 4;

/// An axis-aligned square: its center and half the length of its side.
#[derive(Clone, Copy, Debug, PartialEq, Eq, Structural)]
pub struct AABB {
    pub center: Vec2,
    pub half_dimension: i64,
}

/// A position with the handle of the object that is there.
#[derive(Clone, Copy, Debug, PartialEq, Eq, Structural)]
pub struct Entry {
    pub position: Vec2,
    pub entity: Entity,
}

impl AABB {
    /// The square around `center` that reaches `half_dimension` to each side.
    pub fn new(center: Vec2, half_dimension: i64) -> (b: AABB)
        ensures
            b.center == center,
            b.half_dimension == half_dimension,
    {
        AABB { center, half_dimension }
    }

    /// The point lies in the square; the edges belong to the square.
    pub open spec fn spec_contains_point(self, point: Vec2) -> bool {
        !(point.x > self.center.x + self.half_dimension || point.x < self.center.x
            - self.half_dimension || point.y > self.center.y + self.half_dimension || point.y
            < self.center.y - self.half_dimension)
    }

    /// The point lies in the square and not on its edges.
    pub open spec fn spec_contains_strictly(self, point: Vec2) -> bool {
        &&& self.center.x - self.half_dimension < point.x < self.center.x + self.half_dimension
        &&& self.center.y - self.half_dimension < point.y < self.center.y + self.half_dimension
    }

    /// The squares overlap: on each axis the centers are closer than the sum
    /// of the half-dimensions. Squares that only touch do not overlap.
    pub open spec fn spec_intersects(self, other: AABB) -> bool {
        let reach = self.half_dimension + other.half_dimension;
        &&& -reach < self.center.x - other.center.x < reach
        &&& -reach < self.center.y - other.center.y < reach
    }

    /// The square can be cut into four smaller ones: its side is long enough
    /// to be halved, and it lies within the plane that the coordinates can
    /// name, so that the centers of the quadrants can be named too.
    pub open spec fn spec_splittable(self) -> bool {
        &&& self.half_dimension >= 2
        &&& i32::MIN <= self.center.x - self.half_dimension
        &&& self.center.x + self.half_dimension <= i32::MAX
        &&& i32::MIN <= self.center.y - self.half_dimension
        &&& self.center.y + self.half_dimension <= i32::MAX
    }

    /// One of the four quadrants. Its center lies half of the half-dimension
    /// (rounded down) from the center of the square, and it reaches from there
    /// to the edge of the square: where the half-dimension is odd, neighbouring
    /// quadrants share a strip one unit wide on either side of the middle.
    /// A square that cannot be cut into smaller ones is its own quadrant, four
    /// times over.
    pub open spec fn spec_quadrant(self, east: bool, north: bool) -> AABB {
        if self.spec_splittable() {
            let step = self.half_dimension / 2;
            AABB {
                center: Vec2 {
                    x: (if east {
                        self.center.x + step
                    } else {
                        self.center.x - step
                    }) as i32,
                    y: (if north {
                        self.center.y + step
                    } else {
                        self.center.y - step
                    }) as i32,
                },
                half_dimension: (self.half_dimension - step) as i64,
            }
        } else {
            self
        }
    }

    /// Whether the point lies in the square, edges included.
    pub fn contains_point(&self, point: Vec2) -> (inside: bool)
        ensures
            inside == self.spec_contains_point(point),
    {
        let cx: i128 = self.center.x as i128;
        let cy: i128 = self.center.y as i128;
        let h: i128 = self.half_dimension as i128;
        let px: i128 = point.x as i128;
        let py: i128 = point.y as i128;
        !(px > cx + h || px < cx - h || py > cy + h || py < cy - h)
    }

    /// Whether the two squares overlap.
    pub fn intersects_aabb(&self, other: &AABB) -> (overlap: bool)
        ensures
            overlap == self.spec_intersects(*other),
    {
        let reach: i128 = self.half_dimension as i128 + other.half_dimension as i128;
        let dx: i128 = self.center.x as i128 - other.center.x as i128;
        let dy: i128 = self.center.y as i128 - other.center.y as i128;
        -reach < dx && dx < reach && -reach < dy && dy < reach
    }

    /// Whether the square can be cut into four smaller ones.
    pub fn splittable(&self) -> (yes: bool)
        ensures
            yes == self.spec_splittable(),
    {
        let cx: i128 = self.center.x as i128;
        let cy: i128 = self.center.y as i128;
        let h: i128 = self.half_dimension as i128;
        h >= 2 && i32::MIN as i128 <= cx - h && cx + h <= i32::MAX as i128 && i32::MIN as i128
            <= cy - h && cy + h <= i32::MAX as i128
    }

    /// One of the four quadrants of the square.
    pub fn quadrant(&self, east: bool, north: bool) -> (q: AABB)
        ensures
            q == self.spec_quadrant(east, north),
    {
        if !self.splittable() {
            return *self;
        }
        let step: i64 = self.half_dimension / 2;
        let x: i64 = if east {
            self.center.x as i64 + step
        } else {
            self.center.x as i64 - step
        };
        let y: i64 = if north {
            self.center.y as i64 + step
        } else {
            self.center.y as i64 - step
        };
        AABB { center: Vec2 { x: x as i32, y: y as i32 }, half_dimension: self.half_dimension - step }
    }
}

/// The handles of those entries, in order, whose position lies in `range`.
pub open spec fn select(points: Seq<Entry>, range: AABB) -> Seq<Entity>
    decreases points.len(),
{
    if points.len() == 0 {
        Seq::empty()
    } else {
        let rest = select(points.drop_last(), range);
        if range.spec_contains_point(points.last().position) {
            rest.push(points.last().entity)
        } else {
            rest
        }
    }
}

/// The larger of two numbers.
pub open spec fn larger(a: nat, b: nat) -> nat {
    if a >= b {
        a
    } else {
        b
    }
}

/// The mathematical content of a quadtree node: its square, the entries it
/// holds itself, and its four children once it has split.
pub struct TreeModel {
    pub boundary: AABB,
    pub points: Seq<Entry>,
    pub children: Option<Box<ChildrenModel>>,
}

/// The four children of a node, named by their quadrant.
pub struct ChildrenModel {
    pub ne: TreeModel,
    pub nw: TreeModel,
    pub se: TreeModel,
    pub sw: TreeModel,
}

impl ChildrenModel {
    /// Four empty leaves over the quadrants of `boundary`.
    pub open spec fn fresh(boundary: AABB) -> ChildrenModel {
        ChildrenModel {
            ne: TreeModel::empty(boundary.spec_quadrant(true, true)),
            nw: TreeModel::empty(boundary.spec_quadrant(false, true)),
            se: TreeModel::empty(boundary.spec_quadrant(true, false)),
            sw: TreeModel::empty(boundary.spec_quadrant(false, false)),
        }
    }

    /// The entry appended to the first child, in the order north-east,
    /// north-west, south-east, south-west, whose square contains it.
    pub open spec fn place(self, e: Entry) -> ChildrenModel {
        if self.ne.boundary.spec_contains_point(e.position) {
            ChildrenModel { ne: self.ne.push_entry(e), ..self }
        } else if self.nw.boundary.spec_contains_point(e.position) {
            ChildrenModel { nw: self.nw.push_entry(e), ..self }
        } else if self.se.boundary.spec_contains_point(e.position) {
            ChildrenModel { se: self.se.push_entry(e), ..self }
        } else if self.sw.boundary.spec_contains_point(e.position) {
            ChildrenModel { sw: self.sw.push_entry(e), ..self }
        } else {
            self
        }
    }
}

impl TreeModel {
    /// The tree over `boundary` that holds nothing.
    pub open spec fn empty(boundary: AABB) -> TreeModel {
        TreeModel { boundary, points: Seq::empty(), children: None }
    }

    /// The node with one more entry of its own.
    pub open spec fn push_entry(self, e: Entry) -> TreeModel {
        TreeModel { points: self.points.push(e), ..self }
    }

    /// The invariant of the tree. A node's own entries lie in its square, and
    /// no node holds more than [`CAPACITY`] of them. A node that has split is
    /// full, and its children are well-formed trees over its four quadrants.
    pub open spec fn wf(self) -> bool
        decreases self,
    {
        &&& forall|i: int|
            0 <= i < self.points.len() ==> self.boundary.spec_contains_point(
                (#[trigger] self.points[i]).position,
            )
        &&& match self.children {
            None => self.points.len() <= CAPACITY,
            Some(c) => {
                &&& self.points.len() == CAPACITY
                &&& c.ne.boundary == self.boundary.spec_quadrant(true, true)
                &&& c.nw.boundary == self.boundary.spec_quadrant(false, true)
                &&& c.se.boundary == self.boundary.spec_quadrant(true, false)
                &&& c.sw.boundary == self.boundary.spec_quadrant(false, false)
                &&& c.ne.wf()
                &&& c.nw.wf()
                &&& c.se.wf()
                &&& c.sw.wf()
            },
        }
    }

    /// All entries of the tree, each as often as it is stored.
    pub open spec fn entries(self) -> Multiset<Entry>
        decreases self,
    {
        match self.children {
            None => self.points.to_multiset(),
            Some(c) => self.points.to_multiset().add(c.ne.entries()).add(c.nw.entries()).add(
                c.se.entries(),
            ).add(c.sw.entries()),
        }
    }

    /// The tree holds the entry.
    pub open spec fn holds(self, e: Entry) -> bool {
        self.entries().count(e) > 0
    }

    /// The tree after the entry has been offered to it.
    ///
    /// An entry outside the square changes nothing. A leaf with room takes
    /// the entry itself. Otherwise the node splits, if it has not yet, and the
    /// entry goes to the first child, in the order north-east, north-west,
    /// south-east, south-west, whose square contains it. The entries that a
    /// node holds stay with it when it splits.
    pub open spec fn insert(self, e: Entry) -> TreeModel
        decreases self,
    {
        if !self.boundary.spec_contains_point(e.position) {
            self
        } else if self.children.is_none() && self.points.len() < CAPACITY {
            self.push_entry(e)
        } else {
            match self.children {
                None => TreeModel {
                    children: Some(Box::new(ChildrenModel::fresh(self.boundary).place(e))),
                    ..self
                },
                Some(c) => {
                    if c.ne.boundary.spec_contains_point(e.position) {
                        TreeModel {
                            children: Some(Box::new(ChildrenModel { ne: c.ne.insert(e), ..*c })),
                            ..self
                        }
                    } else if c.nw.boundary.spec_contains_point(e.position) {
                        TreeModel {
                            children: Some(Box::new(ChildrenModel { nw: c.nw.insert(e), ..*c })),
                            ..self
                        }
                    } else if c.se.boundary.spec_contains_point(e.position) {
                        TreeModel {
                            children: Some(Box::new(ChildrenModel { se: c.se.insert(e), ..*c })),
                            ..self
                        }
                    } else if c.sw.boundary.spec_contains_point(e.position) {
                        TreeModel {
                            children: Some(Box::new(ChildrenModel { sw: c.sw.insert(e), ..*c })),
                            ..self
                        }
                    } else {
                        self
                    }
                },
            }
        }
    }

    /// How many times the tree has split along its longest branch.
    pub open spec fn depth(self) -> nat
        decreases self,
    {
        match self.children {
            None => 0,
            Some(c) => 1 + larger(
                larger(c.ne.depth(), c.nw.depth()),
                larger(c.se.depth(), c.sw.depth()),
            ),
        }
    }

    /// The tree after the entries have been offered to it one by one.
    pub open spec fn insert_all(self, items: Seq<Entry>) -> TreeModel
        decreases items.len(),
    {
        if items.len() == 0 {
            self
        } else {
            self.insert_all(items.drop_last()).insert(items.last())
        }
    }

    /// The tree over the same square that was built from these entries alone.
    pub open spec fn rebuild(self, items: Seq<Entry>) -> TreeModel {
        TreeModel::empty(self.boundary).insert_all(items)
    }

    /// The handles found in `range`.
    ///
    /// A node whose square does not overlap the range yields nothing, and its
    /// children are not asked. Otherwise it yields those of its own entries
    /// that lie in the range, in the order they arrived, and then what its
    /// children yield, north-east, north-west, south-east, south-west.
    pub open spec fn query(self, range: AABB) -> Seq<Entity>
        decreases self,
    {
        if !self.boundary.spec_intersects(range) {
            Seq::empty()
        } else {
            match self.children {
                None => select(self.points, range),
                Some(c) => select(self.points, range) + c.ne.query(range) + c.nw.query(range)
                    + c.se.query(range) + c.sw.query(range),
            }
        }
    }
}

/// One node of the quadtree: its square, the entries it holds itself, and
/// the places of its four children in the arena once it has split.
struct Node {
    boundary: AABB,
    points: Vec<Entry>,
    ne: Option<usize>,
    nw: Option<usize>,
    se: Option<usize>,
    sw: Option<usize>,
}

/// The quadtree: an arena of nodes, the root first. A node names its children
/// by their places in the arena; children always lie behind their parent.
pub struct QuadTree {
    nodes: Vec<Node>,
    shape: Ghost<Shape>,
}

/// Which place of the arena plays which part in the tree.
struct Shape {
    index: int,
    kids: Option<Box<Kids>>,
}

/// The shapes of the four children of a node.
struct Kids {
    ne: Shape,
    nw: Shape,
    se: Shape,
    sw: Shape,
}

/// The square that stands for the root of an arena without nodes.
pub open spec fn no_square() -> AABB {
    AABB { center: Vec2 { x: 0, y: 0 }, half_dimension: -1i64 }
}

/// The places of the four children of node `i`, where it names four places
/// that lie behind it in the arena.
spec fn the_children(nodes: Seq<Node>, i: int) -> Option<(int, int, int, int)> {
    let n = nodes[i];
    if n.ne.is_some() && n.nw.is_some() && n.se.is_some() && n.sw.is_some() && i < n.ne.unwrap()
        < nodes.len() && i < n.nw.unwrap() < nodes.len() && i < n.se.unwrap() < nodes.len() && i
        < n.sw.unwrap() < nodes.len() {
        Some(
            (
                n.ne.unwrap() as int,
                n.nw.unwrap() as int,
                n.se.unwrap() as int,
                n.sw.unwrap() as int,
            ),
        )
    } else {
        None
    }
}

/// The content of the tree below node `i` of the arena.
spec fn model_at(nodes: Seq<Node>, i: int) -> TreeModel
    decreases nodes.len() - i,
{
    if 0 <= i < nodes.len() {
        TreeModel {
            boundary: nodes[i].boundary,
            points: nodes[i].points@,
            children: match the_children(nodes, i) {
                None => None,
                Some(c) => Some(
                    Box::new(
                        ChildrenModel {
                            ne: model_at(nodes, c.0),
                            nw: model_at(nodes, c.1),
                            se: model_at(nodes, c.2),
                            sw: model_at(nodes, c.3),
                        },
                    ),
                ),
            },
        }
    } else {
        TreeModel::empty(no_square())
    }
}

impl Shape {
    /// The shape of a node without children.
    spec fn leaf(index: int) -> Shape {
        Shape { index, kids: None }
    }

    /// The places of the arena that belong to the shape.
    spec fn span(self) -> Set<int>
        decreases self,
    {
        match self.kids {
            None => set![self.index],
            Some(k) => set![self.index].union(k.ne.span()).union(k.nw.span()).union(
                k.se.span(),
            ).union(k.sw.span()),
        }
    }

    /// The arena has this shape: the nodes name each other as the shape says,
    /// children lie behind their parent, and no place belongs to two
    /// children of one node.
    spec fn fits(self, nodes: Seq<Node>) -> bool
        decreases self,
    {
        &&& 0 <= self.index < nodes.len()
        &&& match self.kids {
            None => {
                let n = nodes[self.index];
                n.ne.is_none() && n.nw.is_none() && n.se.is_none() && n.sw.is_none()
            },
            Some(k) => {
                let n = nodes[self.index];
                &&& n.ne.is_some() && n.ne.unwrap() as int == k.ne.index
                &&& n.nw.is_some() && n.nw.unwrap() as int == k.nw.index
                &&& n.se.is_some() && n.se.unwrap() as int == k.se.index
                &&& n.sw.is_some() && n.sw.unwrap() as int == k.sw.index
                &&& self.index < k.ne.index
                &&& self.index < k.nw.index
                &&& self.index < k.se.index
                &&& self.index < k.sw.index
                &&& k.ne.fits(nodes)
                &&& k.nw.fits(nodes)
                &&& k.se.fits(nodes)
                &&& k.sw.fits(nodes)
                &&& k.ne.span().disjoint(k.nw.span())
                &&& k.ne.span().disjoint(k.se.span())
                &&& k.ne.span().disjoint(k.sw.span())
                &&& k.nw.span().disjoint(k.se.span())
                &&& k.nw.span().disjoint(k.sw.span())
                &&& k.se.span().disjoint(k.sw.span())
            },
        }
    }
}

/// The places of a shape that fits lie in the arena, at or behind its root.
proof fn lemma_span_bounds(sh: Shape, nodes: Seq<Node>)
    requires
        sh.fits(nodes),
    ensures
        forall|k: int| sh.span().contains(k) ==> sh.index <= k < nodes.len(),
        sh.span().contains(sh.index),
        0 <= sh.index < nodes.len(),
    decreases sh,
{
    match sh.kids {
        None => {},
        Some(k) => {
            lemma_span_bounds(k.ne, nodes);
            lemma_span_bounds(k.nw, nodes);
            lemma_span_bounds(k.se, nodes);
            lemma_span_bounds(k.sw, nodes);
        },
    }
}

/// What lies below a node depends on the places of its shape alone: an
/// arena that has grown and agrees on those places has the same shape and
/// the same content there.
proof fn lemma_frame(sh: Shape, a: Seq<Node>, b: Seq<Node>)
    requires
        sh.fits(a),
        a.len() <= b.len(),
        forall|k: int| 0 <= k < a.len() && sh.span().contains(k) ==> b[k] == a[k],
    ensures
        sh.fits(b),
        model_at(b, sh.index) == model_at(a, sh.index),
    decreases sh,
{
    lemma_span_bounds(sh, a);
    assert(b[sh.index] == a[sh.index]);
    match sh.kids {
        None => {
            assert(the_children(a, sh.index).is_none());
            assert(the_children(b, sh.index).is_none());
        },
        Some(k) => {
            lemma_span_bounds(k.ne, a);
            lemma_span_bounds(k.nw, a);
            lemma_span_bounds(k.se, a);
            lemma_span_bounds(k.sw, a);
            lemma_frame(k.ne, a, b);
            lemma_frame(k.nw, a, b);
            lemma_frame(k.se, a, b);
            lemma_frame(k.sw, a, b);
            let c = (k.ne.index, k.nw.index, k.se.index, k.sw.index);
            assert(the_children(a, sh.index) == Some(c));
            assert(the_children(b, sh.index) == Some(c));
        },
    }
}

/// The tree below a node is no deeper than the arena is long behind it.
proof fn lemma_depth_at(nodes: Seq<Node>, i: int)
    ensures
        model_at(nodes, i).depth() <= if 0 <= i < nodes.len() {
            nodes.len() - 1 - i
        } else {
            0
        },
    decreases nodes.len() - i,
{
    if 0 <= i < nodes.len() {
        match the_children(nodes, i) {
            None => {},
            Some(c) => {
                lemma_depth_at(nodes, c.0);
                lemma_depth_at(nodes, c.1);
                lemma_depth_at(nodes, c.2);
                lemma_depth_at(nodes, c.3);
            },
        }
    }
}

impl Node {
    /// A node over `boundary` without entries and without children.
    fn leaf(boundary: AABB) -> (n: Node)
        ensures
            n.boundary == boundary,
            n.points@ == Seq::<Entry>::empty(),
            n.ne.is_none() && n.nw.is_none() && n.se.is_none() && n.sw.is_none(),
    {
        Node { boundary, points: Vec::new(), ne: None, nw: None, se: None, sw: None }
    }
}

/// The places of the four children of node `i`.
fn children_of(nodes: &Vec<Node>, i: usize) -> (c: Option<(usize, usize, usize, usize)>)
    requires
        i < nodes@.len(),
    ensures
        match c {
            Some(c) => the_children(nodes@, i as int) == Some(
                (c.0 as int, c.1 as int, c.2 as int, c.3 as int),
            ),
            None => the_children(nodes@, i as int).is_none(),
        },
{
    let n: &Node = &nodes[i];
    match (n.ne, n.nw, n.se, n.sw) {
        (Some(ne), Some(nw), Some(se), Some(sw)) => {
            let len: usize = nodes.len();
            if i < ne && ne < len && i < nw && nw < len && i < se && se < len && i < sw && sw
                < len {
                Some((ne, nw, se, sw))
            } else {
                None
            }
        },
        _ => None,
    }
}

/// The handles found in `range` below node `i`.
fn query_at(nodes: &Vec<Node>, i: usize, range: &AABB) -> (found: Vec<Entity>)
    ensures
        found@ == model_at(nodes@, i as int).query(*range),
    decreases nodes@.len() - i,
{
    let mut found: Vec<Entity> = Vec::new();
    if i >= nodes.len() {
        return found;
    }
    let node: &Node = &nodes[i];
    if !node.boundary.intersects_aabb(range) {
        return found;
    }
    let mut k: usize = 0;
    while k < node.points.len()
        invariant
            k <= node.points.len(),
            found@ == select(node.points@.take(k as int), *range),
        decreases node.points.len() - k,
    {
        let entry: Entry = node.points[k];
        if range.contains_point(entry.position) {
            found.push(entry.entity);
        }
        proof {
            assert(node.points@.take(k + 1).drop_last() == node.points@.take(k as int));
        }
        k += 1;
    }
    proof {
        assert(node.points@.take(k as int) == node.points@);
    }
    match children_of(nodes, i) {
        None => {},
        Some((ne, nw, se, sw)) => {
            let mut part: Vec<Entity> = query_at(nodes, ne, range);
            found.append(&mut part);
            let mut part: Vec<Entity> = query_at(nodes, nw, range);
            found.append(&mut part);
            let mut part: Vec<Entity> = query_at(nodes, se, range);
            found.append(&mut part);
            let mut part: Vec<Entity> = query_at(nodes, sw, range);
            found.append(&mut part);
        },
    }
    found
}

/// How many times the tree below node `i` has split along its longest branch.
fn depth_at(nodes: &Vec<Node>, i: usize) -> (d: u64)
    ensures
        d == model_at(nodes@, i as int).depth(),
    decreases nodes@.len() - i,
{
    if i >= nodes.len() {
        return 0;
    }
    match children_of(nodes, i) {
        None => 0,
        Some((ne, nw, se, sw)) => {
            proof {
                lemma_depth_at(nodes@, ne as int);
                lemma_depth_at(nodes@, nw as int);
                lemma_depth_at(nodes@, se as int);
                lemma_depth_at(nodes@, sw as int);
            }
            let north: u64 = greater(depth_at(nodes, ne), depth_at(nodes, nw));
            let south: u64 = greater(depth_at(nodes, se), depth_at(nodes, sw));
            1 + greater(north, south)
        },
    }
}

/// Gives the full leaf `i` its four empty children, at the end of the arena.
fn subdivide(nodes: &mut Vec<Node>, i: usize) -> (kids: (usize, usize, usize, usize))
    requires
        Shape::leaf(i as int).fits(old(nodes)@),
    ensures
        final(nodes)@.len() == old(nodes)@.len() + 4,
        kids.0 == old(nodes)@.len(),
        kids.1 == old(nodes)@.len() + 1,
        kids.2 == old(nodes)@.len() + 2,
        kids.3 == old(nodes)@.len() + 3,
        forall|k: int| 0 <= k < old(nodes)@.len() && k != i ==> final(nodes)@[k] == old(nodes)@[k],
        final(nodes)@[i as int].boundary == old(nodes)@[i as int].boundary,
        final(nodes)@[i as int].points@ == old(nodes)@[i as int].points@,
        the_children(final(nodes)@, i as int) == Some(
            (kids.0 as int, kids.1 as int, kids.2 as int, kids.3 as int),
        ),
        split_shape(i as int, old(nodes)@.len() as int).fits(final(nodes)@),
        model_at(final(nodes)@, i as int) == (TreeModel {
            children: Some(Box::new(ChildrenModel::fresh(old(nodes)@[i as int].boundary))),
            ..model_at(old(nodes)@, i as int)
        }),
{
    let boundary: AABB = nodes[i].boundary;
    nodes.push(Node::leaf(boundary.quadrant(true, true)));
    nodes.push(Node::leaf(boundary.quadrant(false, true)));
    nodes.push(Node::leaf(boundary.quadrant(true, false)));
    nodes.push(Node::leaf(boundary.quadrant(false, false)));
    let end: usize = nodes.len();
    let kids: (usize, usize, usize, usize) = (end - 4, end - 3, end - 2, end - 1);
    let ghost grown = nodes@;
    nodes[i].ne = Some(kids.0);
    nodes[i].nw = Some(kids.1);
    nodes[i].se = Some(kids.2);
    nodes[i].sw = Some(kids.3);
    proof {
        let sh = split_shape(i as int, old(nodes)@.len() as int);
        let k = sh.kids.unwrap();
        assert(nodes@.len() == grown.len());
        assert(forall|j: int| 0 <= j < grown.len() && j != i ==> nodes@[j] == grown[j]);
        assert(nodes@[i as int].ne == Some(kids.0) && nodes@[i as int].nw == Some(kids.1));
        assert(nodes@[i as int].se == Some(kids.2) && nodes@[i as int].sw == Some(kids.3));
        assert(k.ne.fits(nodes@));
        assert(k.nw.fits(nodes@));
        assert(k.se.fits(nodes@));
        assert(k.sw.fits(nodes@));
        assert(k.ne.span() =~= set![kids.0 as int]);
        assert(k.nw.span() =~= set![kids.1 as int]);
        assert(k.se.span() =~= set![kids.2 as int]);
        assert(k.sw.span() =~= set![kids.3 as int]);
        assert(model_at(nodes@, kids.0 as int) == TreeModel::empty(
            old(nodes)@[i as int].boundary.spec_quadrant(true, true),
        ));
        assert(model_at(nodes@, kids.1 as int) == TreeModel::empty(
            old(nodes)@[i as int].boundary.spec_quadrant(false, true),
        ));
        assert(model_at(nodes@, kids.2 as int) == TreeModel::empty(
            old(nodes)@[i as int].boundary.spec_quadrant(true, false),
        ));
        assert(model_at(nodes@, kids.3 as int) == TreeModel::empty(
            old(nodes)@[i as int].boundary.spec_quadrant(false, false),
        ));
    }
    kids
}

/// The shape of a node at `index` whose four children are leaves at `base`
/// and the three places behind it.
spec fn split_shape(index: int, base: int) -> Shape {
    Shape {
        index,
        kids: Some(
            Box::new(
                Kids {
                    ne: Shape::leaf(base),
                    nw: Shape::leaf(base + 1),
                    se: Shape::leaf(base + 2),
                    sw: Shape::leaf(base + 3),
                },
            ),
        ),
    }
}

/// One of the four children of a shape: 0 the north-east, 1 the north-west,
/// 2 the south-east, 3 the south-west.
spec fn kid(sh: Shape, q: int) -> Shape {
    let k = sh.kids.unwrap();
    if q == 0 {
        k.ne
    } else if q == 1 {
        k.nw
    } else if q == 2 {
        k.se
    } else {
        k.sw
    }
}

/// The shape with one of its four children replaced.
spec fn with_kid(sh: Shape, q: int, child: Shape) -> Shape {
    let k = sh.kids.unwrap();
    Shape {
        index: sh.index,
        kids: Some(
            Box::new(
                if q == 0 {
                    Kids { ne: child, ..*k }
                } else if q == 1 {
                    Kids { nw: child, ..*k }
                } else if q == 2 {
                    Kids { se: child, ..*k }
                } else {
                    Kids { sw: child, ..*k }
                },
            ),
        ),
    }
}

/// The content of a node with one of its four children replaced.
spec fn with_child(t: TreeModel, q: int, child: TreeModel) -> TreeModel {
    let c = t.children.unwrap();
    TreeModel {
        children: Some(
            Box::new(
                if q == 0 {
                    ChildrenModel { ne: child, ..*c }
                } else if q == 1 {
                    ChildrenModel { nw: child, ..*c }
                } else if q == 2 {
                    ChildrenModel { se: child, ..*c }
                } else {
                    ChildrenModel { sw: child, ..*c }
                },
            ),
        ),
        ..t
    }
}

/// A shape that fits and has children names them as the arena does.
proof fn lemma_kids(sh: Shape, nodes: Seq<Node>)
    requires
        sh.fits(nodes),
        sh.kids.is_some(),
    ensures
        the_children(nodes, sh.index) == Some(
            (kid(sh, 0).index, kid(sh, 1).index, kid(sh, 2).index, kid(sh, 3).index),
        ),
        forall|q: int| 0 <= q < 4 ==> (#[trigger] kid(sh, q)).fits(nodes) && sh.index < kid(sh, q).index
            < nodes.len(),
        forall|q: int|
            0 <= q < 4 ==> model_at(nodes, (#[trigger] kid(sh, q)).index) == (if q == 0 {
                model_at(nodes, sh.index).children.unwrap().ne
            } else if q == 1 {
                model_at(nodes, sh.index).children.unwrap().nw
            } else if q == 2 {
                model_at(nodes, sh.index).children.unwrap().se
            } else {
                model_at(nodes, sh.index).children.unwrap().sw
            }),
{
    let k = sh.kids.unwrap();
    lemma_span_bounds(k.ne, nodes);
    lemma_span_bounds(k.nw, nodes);
    lemma_span_bounds(k.se, nodes);
    lemma_span_bounds(k.sw, nodes);
}

/// A leaf that fits names no children.
proof fn lemma_leaf(sh: Shape, nodes: Seq<Node>)
    requires
        sh.fits(nodes),
    ensures
        sh.kids.is_none() <==> the_children(nodes, sh.index).is_none(),
        sh.kids.is_none() ==> sh == Shape::leaf(sh.index),
{
    if sh.kids.is_some() {
        lemma_kids(sh, nodes);
    }
}

/// After the tree below one child of a node has changed, grown at the end of
/// the arena at most, the node has the shape with that child replaced, and
/// its content is the old one with the content of that child replaced.
proof fn lemma_replaced(sh: Shape, mid: Seq<Node>, fin: Seq<Node>, q: int, child: Shape)
    requires
        sh.fits(mid),
        sh.kids.is_some(),
        0 <= q < 4,
        mid.len() <= fin.len(),
        child.index == kid(sh, q).index,
        child.fits(fin),
        forall|k: int| 0 <= k < mid.len() && !kid(sh, q).span().contains(k) ==> fin[k] == mid[k],
        forall|k: int|
            child.span().contains(k) ==> kid(sh, q).span().contains(k) || mid.len() <= k
                < fin.len(),
    ensures
        with_kid(sh, q, child).fits(fin),
        forall|k: int|
            with_kid(sh, q, child).span().contains(k) ==> sh.span().contains(k) || mid.len() <= k
                < fin.len(),
        model_at(fin, sh.index) == with_child(
            model_at(mid, sh.index),
            q,
            model_at(fin, child.index),
        ),
{
    let k = sh.kids.unwrap();
    lemma_span_bounds(sh, mid);
    lemma_span_bounds(k.ne, mid);
    lemma_span_bounds(k.nw, mid);
    lemma_span_bounds(k.se, mid);
    lemma_span_bounds(k.sw, mid);
    lemma_span_bounds(child, fin);
    lemma_kids(sh, mid);
    assert(fin[sh.index] == mid[sh.index]);
    let after = with_kid(sh, q, child);
    let c = (k.ne.index, k.nw.index, k.se.index, k.sw.index);
    assert(the_children(mid, sh.index) == Some(c));
    assert(the_children(fin, sh.index) == Some(c));
    if q != 0 {
        lemma_frame(k.ne, mid, fin);
        assert(child.span().disjoint(k.ne.span()));
    }
    if q != 1 {
        lemma_frame(k.nw, mid, fin);
        assert(child.span().disjoint(k.nw.span()));
    }
    if q != 2 {
        lemma_frame(k.se, mid, fin);
        assert(child.span().disjoint(k.se.span()));
    }
    if q != 3 {
        lemma_frame(k.sw, mid, fin);
        assert(child.span().disjoint(k.sw.span()));
    }
    let ak = after.kids.unwrap();
    assert(ak.ne.fits(fin) && ak.nw.fits(fin) && ak.se.fits(fin) && ak.sw.fits(fin));
    assert(ak.ne.span().disjoint(ak.nw.span()));
    assert(ak.ne.span().disjoint(ak.se.span()));
    assert(ak.ne.span().disjoint(ak.sw.span()));
    assert(ak.nw.span().disjoint(ak.se.span()));
    assert(ak.nw.span().disjoint(ak.sw.span()));
    assert(ak.se.span().disjoint(ak.sw.span()));
    assert(after.fits(fin));
}

/// Offers an entry to one child of node `i` and, where the child takes it,
/// brings the shape of the node up to date.
fn offer_to_child(
    nodes: &mut Vec<Node>,
    i: usize,
    child: usize,
    Ghost(sh): Ghost<Shape>,
    Ghost(q): Ghost<int>,
    entry: Entry,
) -> (r: (bool, Ghost<Shape>))
    requires
        sh.index == i,
        sh.fits(old(nodes)@),
        sh.kids.is_some(),
        0 <= q < 4,
        child == kid(sh, q).index,
        model_at(old(nodes)@, i as int).wf(),
    ensures
        r.1@.index == i,
        r.1@.fits(final(nodes)@),
        r.1@.kids.is_some(),
        r.0 == model_at(old(nodes)@, child as int).boundary.spec_contains_point(entry.position),
        model_at(final(nodes)@, i as int) == with_child(
            model_at(old(nodes)@, i as int),
            q,
            model_at(old(nodes)@, child as int).insert(entry),
        ),
        final(nodes)@.len() >= old(nodes)@.len(),
        forall|k: int|
            0 <= k < old(nodes)@.len() && !sh.span().contains(k) ==> final(nodes)@[k] == old(
                nodes)@[k],
        forall|k: int|
            r.1@.span().contains(k) ==> sh.span().contains(k) || old(nodes)@.len() <= k < final(
                nodes)@.len(),
        !r.0 ==> final(nodes)@ == old(nodes)@ && r.1@ == sh,
    decreases old(nodes)@.len() - i, 0int,
{
    let ghost mid = nodes@;
    proof {
        lemma_kids(sh, mid);
        assert(model_at(mid, child as int).wf());
    }
    let (taken, Ghost(after)) = insert_at(nodes, child, Ghost(kid(sh, q)), entry);
    proof {
        if taken {
            lemma_replaced(sh, mid, nodes@, q, after);
        } else {
            assert(with_kid(sh, q, after) == sh);
            assert(with_child(model_at(mid, i as int), q, model_at(mid, child as int)) == model_at(
                mid,
                i as int,
            ));
        }
    }
    (taken, Ghost(with_kid(sh, q, after)))
}

/// Offers an entry to one child of node `i` that has just been made, and is
/// an empty leaf still.
fn offer_to_fresh(
    nodes: &mut Vec<Node>,
    i: usize,
    child: usize,
    Ghost(sh): Ghost<Shape>,
    Ghost(q): Ghost<int>,
    entry: Entry,
) -> (r: (bool, Ghost<Shape>))
    requires
        sh.index == i,
        sh.fits(old(nodes)@),
        sh.kids.is_some(),
        0 <= q < 4,
        child == kid(sh, q).index,
        kid(sh, q).kids.is_none(),
        old(nodes)@[child as int].points@.len() == 0,
    ensures
        r.1@.index == i,
        r.1@.fits(final(nodes)@),
        r.1@.kids.is_some(),
        r.0 == model_at(old(nodes)@, child as int).boundary.spec_contains_point(entry.position),
        model_at(final(nodes)@, i as int) == with_child(
            model_at(old(nodes)@, i as int),
            q,
            model_at(old(nodes)@, child as int).insert(entry),
        ),
        final(nodes)@.len() >= old(nodes)@.len(),
        forall|k: int|
            0 <= k < old(nodes)@.len() && !sh.span().contains(k) ==> final(nodes)@[k] == old(
                nodes)@[k],
        forall|k: int|
            r.1@.span().contains(k) ==> sh.span().contains(k) || old(nodes)@.len() <= k < final(
                nodes)@.len(),
        !r.0 ==> final(nodes)@ == old(nodes)@ && r.1@ == sh,
{
    let ghost mid = nodes@;
    let ghost leaf = kid(sh, q);
    proof {
        lemma_kids(sh, mid);
        lemma_leaf(leaf, mid);
        lemma_span_bounds(leaf, mid);
        assert(leaf.span() =~= set![child as int]);
        assert(with_kid(sh, q, leaf) == sh);
        assert(with_child(model_at(mid, i as int), q, model_at(mid, child as int)) == model_at(
            mid,
            i as int,
        ));
    }
    if !nodes[child].boundary.contains_point(entry.position) {
        return (false, Ghost(sh));
    }
    nodes[child].points.push(entry);
    proof {
        assert(the_children(nodes@, child as int).is_none());
        assert(leaf.fits(nodes@));
        assert(model_at(nodes@, child as int) == model_at(mid, child as int).insert(entry));
        lemma_replaced(sh, mid, nodes@, q, leaf);
    }
    (true, Ghost(sh))
}

/// Offers an entry to the tree below node `i`, whose shape is `sh`. The
/// answer says whether the tree took it, and gives the shape afterwards.
fn insert_at(nodes: &mut Vec<Node>, i: usize, Ghost(sh): Ghost<Shape>, entry: Entry) -> (r: (
    bool,
    Ghost<Shape>,
))
    requires
        sh.index == i,
        sh.fits(old(nodes)@),
        model_at(old(nodes)@, i as int).wf(),
    ensures
        r.1@.index == i,
        r.1@.fits(final(nodes)@),
        model_at(final(nodes)@, i as int) == model_at(old(nodes)@, i as int).insert(entry),
        r.0 == model_at(old(nodes)@, i as int).boundary.spec_contains_point(entry.position),
        final(nodes)@.len() >= old(nodes)@.len(),
        forall|k: int|
            0 <= k < old(nodes)@.len() && !sh.span().contains(k) ==> final(nodes)@[k] == old(
                nodes)@[k],
        forall|k: int|
            r.1@.span().contains(k) ==> sh.span().contains(k) || old(nodes)@.len() <= k < final(
                nodes)@.len(),
        !r.0 ==> final(nodes)@ == old(nodes)@ && r.1@ == sh,
    decreases old(nodes)@.len() - i, 1int,
{
    let ghost before = nodes@;
    let ghost model = model_at(before, i as int);
    proof {
        lemma_span_bounds(sh, before);
        lemma_leaf(sh, before);
    }
    if !nodes[i].boundary.contains_point(entry.position) {
        return (false, Ghost(sh));
    }
    let kids = children_of(nodes, i);
    if kids.is_none() && nodes[i].points.len() < CAPACITY {
        nodes[i].points.push(entry);
        proof {
            assert(the_children(nodes@, i as int).is_none());
            assert(sh.fits(nodes@));
        }
        return (true, Ghost(sh));
    }
    proof {
        lemma_quadrants_cover(model.boundary, entry.position);
    }
    match kids {
        Some((ne, nw, se, sw)) => {
            proof {
                lemma_kids(sh, before);
            }
            let (taken, Ghost(after)) = offer_to_child(nodes, i, ne, Ghost(sh), Ghost(0), entry);
            if taken {
                return (true, Ghost(after));
            }
            let (taken, Ghost(after)) = offer_to_child(nodes, i, nw, Ghost(sh), Ghost(1), entry);
            if taken {
                return (true, Ghost(after));
            }
            let (taken, Ghost(after)) = offer_to_child(nodes, i, se, Ghost(sh), Ghost(2), entry);
            if taken {
                return (true, Ghost(after));
            }
            let (taken, Ghost(after)) = offer_to_child(nodes, i, sw, Ghost(sh), Ghost(3), entry);
            (taken, Ghost(after))
        },
        None => {
            let (ne, nw, se, sw) = subdivide(nodes, i);
            let ghost shape = split_shape(i as int, before.len() as int);
            let ghost mid = nodes@;
            let ghost split = model_at(mid, i as int);
            proof {
                lemma_kids(shape, mid);
                let fresh = ChildrenModel::fresh(model.boundary);
                assert(model.children.is_none());
                assert(model.points.len() == CAPACITY);
                assert(split == TreeModel { children: Some(Box::new(fresh)), ..model });
                assert(fresh.ne.insert(entry) == if fresh.ne.boundary.spec_contains_point(
                    entry.position,
                ) {
                    fresh.ne.push_entry(entry)
                } else {
                    fresh.ne
                });
                assert(fresh.nw.insert(entry) == if fresh.nw.boundary.spec_contains_point(
                    entry.position,
                ) {
                    fresh.nw.push_entry(entry)
                } else {
                    fresh.nw
                });
                assert(fresh.se.insert(entry) == if fresh.se.boundary.spec_contains_point(
                    entry.position,
                ) {
                    fresh.se.push_entry(entry)
                } else {
                    fresh.se
                });
                assert(fresh.sw.insert(entry) == if fresh.sw.boundary.spec_contains_point(
                    entry.position,
                ) {
                    fresh.sw.push_entry(entry)
                } else {
                    fresh.sw
                });
                assert(split.insert(entry) == model.insert(entry));
                lemma_span_bounds(shape, mid);
                let k = shape.kids.unwrap();
                assert(k.ne.span() =~= set![before.len() as int]);
                assert(k.nw.span() =~= set![before.len() as int + 1]);
                assert(k.se.span() =~= set![before.len() as int + 2]);
                assert(k.sw.span() =~= set![before.len() as int + 3]);
                assert(forall|k: int|
                    shape.span().contains(k) ==> sh.span().contains(k) || before.len() <= k
                        < mid.len());
            }
            let (taken, Ghost(after)) = offer_to_fresh(nodes, i, ne, Ghost(shape), Ghost(0), entry);
            if taken {
                return (true, Ghost(after));
            }
            let (taken, Ghost(after)) = offer_to_fresh(nodes, i, nw, Ghost(shape), Ghost(1), entry);
            if taken {
                return (true, Ghost(after));
            }
            let (taken, Ghost(after)) = offer_to_fresh(nodes, i, se, Ghost(shape), Ghost(2), entry);
            if taken {
                return (true, Ghost(after));
            }
            let (taken, Ghost(after)) = offer_to_fresh(nodes, i, sw, Ghost(shape), Ghost(3), entry);
            (taken, Ghost(after))
        },
    }
}

impl View for QuadTree {
    type V = TreeModel;

    closed spec fn view(&self) -> TreeModel {
        model_at(self.nodes@, 0)
    }
}

impl QuadTree {
    /// The invariant of the tree: the arena has the shape of a tree whose
    /// root is the first node, and what it holds is well-formed.
    pub closed spec fn wf(&self) -> bool {
        &&& self.shape@.index == 0
        &&& self.shape@.fits(self.nodes@)
        &&& self@.wf()
    }

    /// The content of a tree that meets its invariant is well-formed.
    pub proof fn lemma_wf(&self)
        requires
            self.wf(),
        ensures
            self@.wf(),
    {
    }

    /// The empty tree over `boundary`.
    pub fn new(boundary: AABB) -> (tree: QuadTree)
        ensures
            tree@ == TreeModel::empty(boundary),
            tree.wf(),
            tree@.wf(),
    {
        let mut nodes: Vec<Node> = Vec::new();
        nodes.push(Node::leaf(boundary));
        QuadTree { nodes, shape: Ghost(Shape::leaf(0)) }
    }

    /// The square that the tree covers.
    pub fn boundary(&self) -> (b: AABB)
        ensures
            b == self@.boundary,
    {
        if self.nodes.len() > 0 {
            self.nodes[0].boundary
        } else {
            AABB { center: Vec2 { x: 0, y: 0 }, half_dimension: -1 }
        }
    }

    /// How many times the tree has split along its longest branch.
    pub fn depth(&self) -> (d: u64)
        ensures
            d == self@.depth(),
    {
        depth_at(&self.nodes, 0)
    }

    /// Offers an entry to the tree. The answer says whether the tree took it,
    /// which it does exactly when the position lies in its square.
    pub fn insert(&mut self, point: Vec2, entity: Entity) -> (inserted: bool)
        requires
            old(self).wf(),
        ensures
            final(self)@ == old(self)@.insert((Entry { position: point, entity })),
            inserted == old(self)@.boundary.spec_contains_point(point),
            final(self).wf(),
            final(self)@.wf(),
    {
        let entry = Entry { position: point, entity };
        proof {
            lemma_insert_wf(self@, entry);
        }
        let (inserted, shape) = insert_at(&mut self.nodes, 0, Ghost(self.shape@), entry);
        self.shape = shape;
        inserted
    }

    /// The handles of the entries found in `range`.
    pub fn query_range(&self, range: &AABB) -> (found: Vec<Entity>)
        ensures
            found@ == self@.query(*range),
    {
        query_at(&self.nodes, 0, range)
    }

    /// Forgets everything and takes the given entries in order. Those whose
    /// position lies outside the square of the tree are left out.
    pub fn rebuild(&mut self, items: &Vec<Entry>)
        ensures
            final(self)@ == old(self)@.rebuild(items@),
            final(self).wf(),
            final(self)@.wf(),
    {
        let boundary: AABB = self.boundary();
        self.nodes.clear();
        self.nodes.push(Node::leaf(boundary));
        self.shape = Ghost(Shape::leaf(0));
        let mut i: usize = 0;
        while i < items.len()
            invariant
                i <= items.len(),
                self@ == TreeModel::empty(old(self)@.boundary).insert_all(items@.take(i as int)),
                self.wf(),
            decreases items.len() - i,
        {
            let item: Entry = items[i];
            self.insert(item.position, item.entity);
            proof {
                assert(items@.take(i + 1).drop_last() == items@.take(i as int));
            }
            i += 1;
        }
        proof {
            assert(items@.take(i as int) == items@);
        }
    }
}

/// The positions and handles of the objects in the first `count` slots of the
/// table that are entered into the quadtree, in the order of the slots.
pub open spec fn indexed(table: Seq<Option<Row>>, count: int) -> Seq<Entry>
    decreases count,
{
    if count <= 0 {
        Seq::empty()
    } else {
        let rest = indexed(table, count - 1);
        match table[count - 1] {
            Some(row) => if row.components.quad_tree_element {
                rest.push(Entry { position: row.components.translation, entity: row.entity })
            } else {
                rest
            },
            None => rest,
        }
    }
}

/// Rebuilds the quadtree from the objects of the table that are entered into
/// it. What lies outside the square of the tree is left out.
pub fn buildtree(entities: &Entities, quad_tree: &mut QuadTree)
    ensures
        final(quad_tree)@ == old(quad_tree)@.rebuild(indexed(entities@, entities@.len() as int)),
        final(quad_tree)@.wf(),
{
    let mut items: Vec<Entry> = Vec::new();
    let mut i: usize = 0;
    while i < entities.len()
        invariant
            i <= entities@.len(),
            items@ == indexed(entities@, i as int),
        decreases entities@.len() - i,
    {
        match entities.row(i) {
            Some(row) => {
                if row.components.quad_tree_element {
                    items.push(Entry { position: row.components.translation, entity: row.entity });
                }
            },
            None => {},
        }
        i += 1;
    }
    quad_tree.rebuild(&items);
}

/// The larger of two numbers.
fn greater(a: u64, b: u64) -> (m: u64)
    ensures
        m == larger(a as nat, b as nat),
{
    if a >= b {
        a
    } else {
        b
    }
}

/// The quadrants of a square cover it: a point of the square lies in one of
/// them.
pub proof fn lemma_quadrants_cover(b: AABB, p: Vec2)
    requires
        b.spec_contains_point(p),
    ensures
        b.spec_quadrant(true, true).spec_contains_point(p) || b.spec_quadrant(
            false,
            true,
        ).spec_contains_point(p) || b.spec_quadrant(true, false).spec_contains_point(p)
            || b.spec_quadrant(false, false).spec_contains_point(p),
{
}

/// The quadrants of a square lie in the square.
pub proof fn lemma_quadrant_inside(b: AABB, east: bool, north: bool, p: Vec2)
    ensures
        b.spec_quadrant(east, north).spec_contains_point(p) ==> b.spec_contains_point(p),
{
}

/// Offering an entry keeps the tree well-formed and its square unchanged.
pub proof fn lemma_insert_wf(t: TreeModel, e: Entry)
    requires
        t.wf(),
    ensures
        t.insert(e).wf(),
        t.insert(e).boundary == t.boundary,
    decreases t,
{
    if !t.boundary.spec_contains_point(e.position) {
    } else if t.children.is_none() && t.points.len() < CAPACITY {
        let after = t.push_entry(e);
        assert forall|i: int| 0 <= i < after.points.len() implies after.boundary.spec_contains_point(
            (#[trigger] after.points[i]).position,
        ) by {
            if i < t.points.len() {
                assert(after.points[i] == t.points[i]);
            }
        }
    } else {
        match t.children {
            None => {
                let placed = ChildrenModel::fresh(t.boundary).place(e);
                lemma_quadrant_inside(t.boundary, true, true, e.position);
                lemma_quadrant_inside(t.boundary, false, true, e.position);
                lemma_quadrant_inside(t.boundary, true, false, e.position);
                lemma_quadrant_inside(t.boundary, false, false, e.position);
                assert(placed.ne.wf());
                assert(placed.nw.wf());
                assert(placed.se.wf());
                assert(placed.sw.wf());
            },
            Some(c) => {
                lemma_insert_wf(c.ne, e);
                lemma_insert_wf(c.nw, e);
                lemma_insert_wf(c.se, e);
                lemma_insert_wf(c.sw, e);
            },
        }
    }
}

/// An entry that is offered never moves what a node holds already: the node's
/// own entries stay as they are, or, where it is a leaf with room, grow by the
/// new entry at the end.
pub proof fn lemma_insert_keeps_own(t: TreeModel, e: Entry)
    ensures
        t.insert(e).points == t.points || (t.children.is_none() && t.points.len() < CAPACITY
            && t.insert(e).points == t.points.push(e)),
{
}

/// Offering entries one by one keeps the tree well-formed and its square unchanged.
pub proof fn lemma_insert_all_wf(t: TreeModel, items: Seq<Entry>)
    requires
        t.wf(),
    ensures
        t.insert_all(items).wf(),
        t.insert_all(items).boundary == t.boundary,
    decreases items.len(),
{
    if items.len() > 0 {
        lemma_insert_all_wf(t, items.drop_last());
        lemma_insert_wf(t.insert_all(items.drop_last()), items.last());
    }
}

/// The empty sequence holds nothing.
pub proof fn lemma_empty_to_multiset<A>()
    ensures
        Seq::<A>::empty().to_multiset() == Multiset::<A>::empty(),
{
    let nothing = Seq::<A>::empty();
    assert forall|a: A| nothing.to_multiset().count(a) == 0 by {
        to_multiset_contains(nothing, a);
    }
    assert(nothing.to_multiset() =~= Multiset::<A>::empty());
}

/// A well-formed tree takes an entry exactly when the position lies in its
/// square, and then holds it once more than before; nothing else changes in
/// what it holds.
pub proof fn lemma_insert_entries(t: TreeModel, e: Entry)
    requires
        t.wf(),
    ensures
        t.boundary.spec_contains_point(e.position) ==> t.insert(e).entries() == t.entries().insert(e),
        !t.boundary.spec_contains_point(e.position) ==> t.insert(e) == t,
    decreases t,
{
    if !t.boundary.spec_contains_point(e.position) {
    } else if t.children.is_none() && t.points.len() < CAPACITY {
        to_multiset_build(t.points, e);
    } else {
        lemma_quadrants_cover(t.boundary, e.position);
        match t.children {
            None => {
                let nothing = Seq::<Entry>::empty();
                to_multiset_build(nothing, e);
                lemma_empty_to_multiset::<Entry>();
                let none = Multiset::<Entry>::empty();
                let one = none.insert(e);
                let fresh = ChildrenModel::fresh(t.boundary);
                let placed = fresh.place(e);
                assert(fresh.ne.entries() == none && fresh.nw.entries() == none);
                assert(fresh.se.entries() == none && fresh.sw.entries() == none);
                assert(fresh.ne.push_entry(e).entries() == one);
                assert(fresh.nw.push_entry(e).entries() == one);
                assert(fresh.se.push_entry(e).entries() == one);
                assert(fresh.sw.push_entry(e).entries() == one);
                let own = t.points.to_multiset();
                assert(t.insert(e).entries() == own.add(placed.ne.entries()).add(
                    placed.nw.entries(),
                ).add(placed.se.entries()).add(placed.sw.entries()));
                assert(t.insert(e).entries() =~= t.entries().insert(e));
            },
            Some(c) => {
                lemma_insert_entries(c.ne, e);
                lemma_insert_entries(c.nw, e);
                lemma_insert_entries(c.se, e);
                lemma_insert_entries(c.sw, e);
                assert(t.insert(e).entries() =~= t.entries().insert(e));
            },
        }
    }
}

/// Every entry that a well-formed tree holds lies in the square of the tree.
pub proof fn lemma_entries_inside(t: TreeModel, e: Entry)
    requires
        t.wf(),
        t.holds(e),
    ensures
        t.boundary.spec_contains_point(e.position),
    decreases t,
{
    to_multiset_contains(t.points, e);
    if t.points.contains(e) {
        let i = choose|i: int| 0 <= i < t.points.len() && t.points[i] == e;
        assert(t.boundary.spec_contains_point(t.points[i].position));
    } else {
        match t.children {
            None => {},
            Some(c) => {
                if c.ne.holds(e) {
                    lemma_entries_inside(c.ne, e);
                    lemma_quadrant_inside(t.boundary, true, true, e.position);
                } else if c.nw.holds(e) {
                    lemma_entries_inside(c.nw, e);
                    lemma_quadrant_inside(t.boundary, false, true, e.position);
                } else if c.se.holds(e) {
                    lemma_entries_inside(c.se, e);
                    lemma_quadrant_inside(t.boundary, true, false, e.position);
                } else {
                    assert(c.sw.holds(e));
                    lemma_entries_inside(c.sw, e);
                    lemma_quadrant_inside(t.boundary, false, false, e.position);
                }
            },
        }
    }
}

/// Whatever `select` yields is the handle of one of the entries, and that
/// entry lies in the range.
pub proof fn lemma_select_sound(points: Seq<Entry>, range: AABB, handle: Entity)
    requires
        select(points, range).contains(handle),
    ensures
        exists|k: int|
            0 <= k < points.len() && (#[trigger] points[k]).entity == handle
                && range.spec_contains_point(points[k].position),
    decreases points.len(),
{
    if points.len() > 0 {
        let rest = select(points.drop_last(), range);
        let last = points.last();
        if range.spec_contains_point(last.position) && last.entity == handle {
            assert(points[points.len() - 1] == last);
        } else {
            let found = select(points, range);
            let i = choose|i: int| 0 <= i < found.len() && found[i] == handle;
            assert(rest[i] == handle);
            lemma_select_sound(points.drop_last(), range, handle);
            let k = choose|k: int|
                0 <= k < points.drop_last().len() && (#[trigger] points.drop_last()[k]).entity
                    == handle && range.spec_contains_point(points.drop_last()[k].position);
            assert(points[k] == points.drop_last()[k]);
        }
    }
}

/// `select` yields the handle of every entry that lies in the range.
pub proof fn lemma_select_complete(points: Seq<Entry>, range: AABB, k: int)
    requires
        0 <= k < points.len(),
        range.spec_contains_point(points[k].position),
    ensures
        select(points, range).contains(points[k].entity),
    decreases points.len(),
{
    let found = select(points, range);
    let rest = select(points.drop_last(), range);
    if k == points.len() - 1 {
        assert(found[found.len() - 1] == points[k].entity);
    } else {
        lemma_select_complete(points.drop_last(), range, k);
        assert(points.drop_last()[k] == points[k]);
        let i = choose|i: int| 0 <= i < rest.len() && rest[i] == points[k].entity;
        assert(found[i] == points[k].entity);
    }
}

/// A handle that occurs in a concatenation occurs in one of the two parts.
pub proof fn lemma_contains_concat<A>(a: Seq<A>, b: Seq<A>, x: A)
    ensures
        (a + b).contains(x) <==> a.contains(x) || b.contains(x),
{
    if (a + b).contains(x) {
        let i = choose|i: int| 0 <= i < (a + b).len() && (a + b)[i] == x;
        if i < a.len() {
            assert(a[i] == x);
        } else {
            assert(b[i - a.len()] == x);
        }
    }
    if a.contains(x) {
        let i = choose|i: int| 0 <= i < a.len() && a[i] == x;
        assert((a + b)[i] == x);
    }
    if b.contains(x) {
        let i = choose|i: int| 0 <= i < b.len() && b[i] == x;
        assert((a + b)[a.len() + i] == x);
    }
}

/// A query yields nothing but handles of entries that the tree holds and that
/// lie in the range.
pub proof fn lemma_query_sound(t: TreeModel, range: AABB, handle: Entity)
    requires
        t.query(range).contains(handle),
    ensures
        exists|e: Entry| #[trigger]
            t.holds(e) && e.entity == handle && range.spec_contains_point(e.position),
    decreases t,
{
    let own = select(t.points, range);
    if own.contains(handle) {
        lemma_select_sound(t.points, range, handle);
        let k = choose|k: int|
            0 <= k < t.points.len() && (#[trigger] t.points[k]).entity == handle
                && range.spec_contains_point(t.points[k].position);
        to_multiset_contains(t.points, t.points[k]);
        assert(t.holds(t.points[k]));
    } else {
        match t.children {
            None => {},
            Some(c) => {
                let a = own + c.ne.query(range);
                let b = a + c.nw.query(range);
                let d = b + c.se.query(range);
                lemma_contains_concat(d, c.sw.query(range), handle);
                lemma_contains_concat(b, c.se.query(range), handle);
                lemma_contains_concat(a, c.nw.query(range), handle);
                lemma_contains_concat(own, c.ne.query(range), handle);
                if c.ne.query(range).contains(handle) {
                    lemma_query_sound(c.ne, range, handle);
                    let e = choose|e: Entry| #[trigger]
                        c.ne.holds(e) && e.entity == handle && range.spec_contains_point(
                            e.position,
                        );
                    assert(t.holds(e));
                } else if c.nw.query(range).contains(handle) {
                    lemma_query_sound(c.nw, range, handle);
                    let e = choose|e: Entry| #[trigger]
                        c.nw.holds(e) && e.entity == handle && range.spec_contains_point(
                            e.position,
                        );
                    assert(t.holds(e));
                } else if c.se.query(range).contains(handle) {
                    lemma_query_sound(c.se, range, handle);
                    let e = choose|e: Entry| #[trigger]
                        c.se.holds(e) && e.entity == handle && range.spec_contains_point(
                            e.position,
                        );
                    assert(t.holds(e));
                } else {
                    lemma_query_sound(c.sw, range, handle);
                    let e = choose|e: Entry| #[trigger]
                        c.sw.holds(e) && e.entity == handle && range.spec_contains_point(
                            e.position,
                        );
                    assert(t.holds(e));
                }
            },
        }
    }
}

/// A square that contains a point overlaps every square that has the point
/// strictly inside.
pub proof fn lemma_overlap(b: AABB, range: AABB, p: Vec2)
    requires
        b.spec_contains_point(p),
        range.spec_contains_strictly(p),
    ensures
        b.spec_intersects(range),
{
}

/// A query yields the handle of every entry that a well-formed tree holds
/// strictly inside the range.
///
/// For an entry on the edge of the range this can fail: the node that stores
/// it may have a square that only touches the range, and such a node is not
/// asked.
pub proof fn lemma_query_complete(t: TreeModel, range: AABB, e: Entry)
    requires
        t.wf(),
        t.holds(e),
        range.spec_contains_strictly(e.position),
    ensures
        t.query(range).contains(e.entity),
    decreases t,
{
    lemma_entries_inside(t, e);
    lemma_overlap(t.boundary, range, e.position);
    let own = select(t.points, range);
    to_multiset_contains(t.points, e);
    if t.points.contains(e) {
        let k = choose|k: int| 0 <= k < t.points.len() && t.points[k] == e;
        lemma_select_complete(t.points, range, k);
    }
    match t.children {
        None => {},
        Some(c) => {
            let a = own + c.ne.query(range);
            let b = a + c.nw.query(range);
            let d = b + c.se.query(range);
            lemma_contains_concat(d, c.sw.query(range), e.entity);
            lemma_contains_concat(b, c.se.query(range), e.entity);
            lemma_contains_concat(a, c.nw.query(range), e.entity);
            lemma_contains_concat(own, c.ne.query(range), e.entity);
            if t.points.contains(e) {
            } else if c.ne.holds(e) {
                lemma_query_complete(c.ne, range, e);
            } else if c.nw.holds(e) {
                lemma_query_complete(c.nw, range, e);
            } else if c.se.holds(e) {
                lemma_query_complete(c.se, range, e);
            } else {
                assert(c.sw.holds(e));
                lemma_query_complete(c.sw, range, e);
            }
        },
    }
}

/// After a rebuild the tree holds each of the given entries that lies in its
/// square as often as it was given, and nothing else.
pub proof fn lemma_rebuild_entries(t: TreeModel, items: Seq<Entry>, e: Entry)
    ensures
        t.rebuild(items).entries().count(e) == if t.boundary.spec_contains_point(e.position) {
            items.to_multiset().count(e)
        } else {
            0
        },
    decreases items.len(),
{
    let start = TreeModel::empty(t.boundary);
    if items.len() == 0 {
        lemma_empty_to_multiset::<Entry>();
        assert(items =~= Seq::<Entry>::empty());
    } else {
        let before = start.insert_all(items.drop_last());
        lemma_rebuild_entries(t, items.drop_last(), e);
        lemma_insert_all_wf(start, items.drop_last());
        lemma_insert_entries(before, items.last());
        to_multiset_build(items.drop_last(), items.last());
        assert(items.drop_last().push(items.last()) == items);
    }
}

/// After a rebuild, a query finds every given entry that lies in the square
/// of the tree and strictly inside the range.
pub proof fn lemma_rebuild_query_complete(t: TreeModel, items: Seq<Entry>, range: AABB, k: int)
    requires
        0 <= k < items.len(),
        t.boundary.spec_contains_point(items[k].position),
        range.spec_contains_strictly(items[k].position),
    ensures
        t.rebuild(items).query(range).contains(items[k].entity),
{
    let start = TreeModel::empty(t.boundary);
    lemma_insert_all_wf(start, items);
    lemma_rebuild_entries(t, items, items[k]);
    to_multiset_contains(items, items[k]);
    assert(items.contains(items[k]));
    lemma_query_complete(t.rebuild(items), range, items[k]);
}

/// After a rebuild, whatever a query finds is the handle of a given entry
/// that lies in the square of the tree and in the range.
pub proof fn lemma_rebuild_query_sound(t: TreeModel, items: Seq<Entry>, range: AABB, handle: Entity)
    requires
        t.rebuild(items).query(range).contains(handle),
    ensures
        exists|k: int|
            0 <= k < items.len() && (#[trigger] items[k]).entity == handle
                && range.spec_contains_point(items[k].position)
                && t.boundary.spec_contains_point(items[k].position),
{
    let built = t.rebuild(items);
    lemma_query_sound(built, range, handle);
    let e = choose|e: Entry| #[trigger]
        built.holds(e) && e.entity == handle && range.spec_contains_point(e.position);
    lemma_rebuild_entries(t, items, e);
    to_multiset_contains(items, e);
    let k = choose|k: int| 0 <= k < items.len() && items[k] == e;
    assert(items[k].entity == handle);
}

/// What a rebuild leaves behind depends on the square of the tree and on the
/// entries given, not on what the tree held before: two rebuilds from the same
/// entries answer every query alike, and so does a rebuild of a rebuilt tree.
pub proof fn lemma_rebuild_idempotent(a: TreeModel, b: TreeModel, items: Seq<Entry>, range: AABB)
    requires
        a.boundary == b.boundary,
    ensures
        a.rebuild(items) == b.rebuild(items),
        a.rebuild(items).rebuild(items) == a.rebuild(items),
        a.rebuild(items).query(range).to_multiset() == b.rebuild(items).query(range).to_multiset(),
        a.rebuild(items).rebuild(items).query(range) == a.rebuild(items).query(range),
{
    lemma_insert_all_wf(TreeModel::empty(a.boundary), items);
}

} // verus!
