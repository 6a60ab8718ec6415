//! The collision engine.
//!
//! Each tick the engine is handed, for every entity that has colliders, its
//! colliders in world space together with what the broad phase needs of it. It
//! tests every unordered pair of entities once: first the cheap rejection by
//! bounds, then every collider of the one against every collider of the other.
//! The geometry itself is the caller's: the engine asks two questions, "may
//! these two touch at all" and "do these two shapes overlap", and is proved
//! for every pair of answers.

use vstd::prelude::*;
use crate::dispatch::Event;
use crate::ecs::{occupied, EntityId, ECS};
use crate::table::{
    has_key, increasing, lemma_has_key, lemma_put, lemma_without, put, value_of, without, Table,
};

verus! {

/// Detected collision data with involved [EntityId]
#[derive(Clone, Copy, Debug, PartialEq, Eq, PartialOrd, Ord, Structural)]
pub struct Collision(pub EntityId);

/// The sign of a signed area.
#[derive(Clone, Copy, Debug, PartialEq, Eq, Structural)]
pub enum Sign {
    /// Strictly below zero
    Negative,
    /// Neither below nor above zero
    Zero,
    /// Strictly above zero
    Positive,
}

/// A point lies inside a triangle, its edges included, when the three signed
/// areas that it forms with the edges do not hold both a strictly negative and
/// a strictly positive value.
pub open spec fn inside(determinants: [Sign; 3]) -> bool {
    !((exists|i: int| 0 <= i < 3 && determinants[i] == Sign::Negative) && (exists|j: int|
        0 <= j < 3 && determinants[j] == Sign::Positive))
}

/// Checks that point lies inside triangle, given the signs of the three
/// signed areas that the point forms with the triangle's edges
pub fn barycentric_triangle_point_test(determinants: [Sign; 3]) -> (result: bool)
    ensures
        result == inside(determinants),
{
    let negative = determinants[0] == Sign::Negative || determinants[1] == Sign::Negative
        || determinants[2] == Sign::Negative;
    let positive = determinants[0] == Sign::Positive || determinants[1] == Sign::Positive
        || determinants[2] == Sign::Positive;
    !(negative && positive)
}

/// Tests collision of triangle and point: the point must lie within the
/// activation radius and inside the triangle
pub fn triangle_point_collision_test(within_radius: bool, determinants: [Sign; 3]) -> (result: bool)
    ensures
        result == (within_radius && inside(determinants)),
{
    if !within_radius {
        return false;
    }
    barycentric_triangle_point_test(determinants)
}

/// Some vertex of a triangle, given by the signs it forms with the other
/// triangle, lies inside that other triangle.
pub open spec fn any_inside(vertices: [[Sign; 3]; 3]) -> bool {
    exists|i: int| 0 <= i < 3 && inside(#[trigger] vertices[i])
}

/// Tests collision of two triangles: they must lie within each other's
/// activation radius, and a vertex of either must lie inside the other.
/// `left_in_right` holds, for each vertex of the left triangle, the signs it
/// forms with the edges of the right one; `right_in_left` the reverse
pub fn triangle_triangle_collision_test(
    within_radius: bool,
    left_in_right: [[Sign; 3]; 3],
    right_in_left: [[Sign; 3]; 3],
) -> (result: bool)
    ensures
        result == (within_radius && (any_inside(left_in_right) || any_inside(right_in_left))),
{
    if !within_radius {
        return false;
    }
    let left = barycentric_triangle_point_test(left_in_right[0])
        || barycentric_triangle_point_test(left_in_right[1]) || barycentric_triangle_point_test(
        left_in_right[2],
    );
    let right = barycentric_triangle_point_test(right_in_left[0])
        || barycentric_triangle_point_test(right_in_left[1]) || barycentric_triangle_point_test(
        right_in_left[2],
    );
    left || right
}

/// Collider: a point or a triangle, each with the data that the caller's
/// geometry keeps of it
#[derive(Clone, Copy, Debug, PartialEq)]
pub enum Collider<P, T> {
    /// Variant with the data of a point collider
    Point(P),
    /// Variant with the data of a triangle collider
    Triangle(T),
}

impl<P, T> Collider<P, T> {
    /// `result` is an outcome of testing this collider against another: the
    /// test of the two kinds of shape was made, with the triangle first where
    /// a triangle meets a point.
    pub open spec fn collided<
        PP: Fn(&P, &P) -> bool,
        TP: Fn(&T, &P) -> bool,
        TT: Fn(&T, &T) -> bool,
    >(
        self,
        collider: Collider<P, T>,
        point_point: PP,
        triangle_point: TP,
        triangle_triangle: TT,
        result: bool,
    ) -> bool {
        match (self, collider) {
            (Collider::Point(left), Collider::Point(right)) => call_ensures(
                point_point,
                (&left, &right),
                result,
            ),
            (Collider::Point(left), Collider::Triangle(right)) => call_ensures(
                triangle_point,
                (&right, &left),
                result,
            ),
            (Collider::Triangle(left), Collider::Point(right)) => call_ensures(
                triangle_point,
                (&left, &right),
                result,
            ),
            (Collider::Triangle(left), Collider::Triangle(right)) => call_ensures(
                triangle_triangle,
                (&left, &right),
                result,
            ),
        }
    }

    /// The test of the two kinds of shape can be made.
    pub open spec fn collidable<
        PP: Fn(&P, &P) -> bool,
        TP: Fn(&T, &P) -> bool,
        TT: Fn(&T, &T) -> bool,
    >(
        self,
        collider: Collider<P, T>,
        point_point: PP,
        triangle_point: TP,
        triangle_triangle: TT,
    ) -> bool {
        match (self, collider) {
            (Collider::Point(left), Collider::Point(right)) => call_requires(
                point_point,
                (&left, &right),
            ),
            (Collider::Point(left), Collider::Triangle(right)) => call_requires(
                triangle_point,
                (&right, &left),
            ),
            (Collider::Triangle(left), Collider::Point(right)) => call_requires(
                triangle_point,
                (&left, &right),
            ),
            (Collider::Triangle(left), Collider::Triangle(right)) => call_requires(
                triangle_triangle,
                (&left, &right),
            ),
        }
    }

    /// Performs collision test of two colliders: picks the test for the two
    /// kinds of shape and makes it
    pub fn collision_test<PP: Fn(&P, &P) -> bool, TP: Fn(&T, &P) -> bool, TT: Fn(&T, &T) -> bool>(
        &self,
        collider: &Collider<P, T>,
        point_point: &PP,
        triangle_point: &TP,
        triangle_triangle: &TT,
    ) -> (result: bool)
        requires
            self.collidable(*collider, *point_point, *triangle_point, *triangle_triangle),
        ensures
            self.collided(*collider, *point_point, *triangle_point, *triangle_triangle, result),
    {
        match self {
            Collider::Point(left) => match collider {
                Collider::Point(right) => point_point(left, right),
                Collider::Triangle(right) => triangle_point(right, left),
            },
            Collider::Triangle(left) => match collider {
                Collider::Point(right) => triangle_point(left, right),
                Collider::Triangle(right) => triangle_triangle(left, right),
            },
        }
    }

    /// Applies transformation to collider: a point is moved by `point`, a
    /// triangle is turned and moved by `triangle`, and the kind of shape stays
    pub fn transform<X, FP: Fn(&P, &X) -> P, FT: Fn(&T, &X) -> T>(
        &self,
        placement: &X,
        point: &FP,
        triangle: &FT,
    ) -> (transformed: Collider<P, T>)
        requires
            match *self {
                Collider::Point(collider) => call_requires(*point, (&collider, placement)),
                Collider::Triangle(collider) => call_requires(*triangle, (&collider, placement)),
            },
        ensures
            match *self {
                Collider::Point(collider) => transformed matches Collider::Point(moved)
                    && call_ensures(*point, (&collider, placement), moved),
                Collider::Triangle(collider) => transformed matches Collider::Triangle(moved)
                    && call_ensures(*triangle, (&collider, placement), moved),
            },
    {
        match self {
            Collider::Point(collider) => Collider::Point(point(collider, placement)),
            Collider::Triangle(collider) => Collider::Triangle(triangle(collider, placement)),
        }
    }
}

/// What the engine holds of one entity: its bounds for the broad phase and
/// its colliders in world space
#[derive(Debug)]
pub struct ColliderGroup<B, C> {
    /// Origin and bounding radius of the entity
    pub bounds: B,
    /// The entity's colliders, transformed
    pub colliders: Vec<C>,
}

/// The two questions can be asked of every pair of these two groups.
pub open spec fn askable<B, C, P: Fn(&B, &B) -> bool, N: Fn(&C, &C) -> bool>(
    left: ColliderGroup<B, C>,
    right: ColliderGroup<B, C>,
    broad: P,
    narrow: N,
) -> bool {
    &&& call_requires(broad, (&left.bounds, &right.bounds))
    &&& forall|i: int, j: int|
        0 <= i < left.colliders@.len() && 0 <= j < right.colliders@.len() ==> call_requires(
            narrow,
            (&#[trigger] left.colliders@[i], &#[trigger] right.colliders@[j]),
        )
}

/// `hit` is an outcome of testing two groups. They collide when the broad
/// phase lets them pass and some collider of the one overlaps some collider of
/// the other. They do not when the broad phase rejects them, or when no
/// collider of the one overlaps any of the other.
pub open spec fn tested<B, C, P: Fn(&B, &B) -> bool, N: Fn(&C, &C) -> bool>(
    left: ColliderGroup<B, C>,
    right: ColliderGroup<B, C>,
    broad: P,
    narrow: N,
    hit: bool,
) -> bool {
    if hit {
        &&& call_ensures(broad, (&left.bounds, &right.bounds), true)
        &&& exists|i: int, j: int|
            0 <= i < left.colliders@.len() && 0 <= j < right.colliders@.len() && call_ensures(
                narrow,
                (&#[trigger] left.colliders@[i], &#[trigger] right.colliders@[j]),
                true,
            )
    } else {
        ||| call_ensures(broad, (&left.bounds, &right.bounds), false)
        ||| forall|i: int, j: int|
            0 <= i < left.colliders@.len() && 0 <= j < right.colliders@.len() ==> call_ensures(
                narrow,
                (&#[trigger] left.colliders@[i], &#[trigger] right.colliders@[j]),
                false,
            )
    }
}

/// Tests two entities: the broad phase first, then every collider of the
/// first against every collider of the second, until two overlap
pub fn groups_collide<B, C, P: Fn(&B, &B) -> bool, N: Fn(&C, &C) -> bool>(
    left: &ColliderGroup<B, C>,
    right: &ColliderGroup<B, C>,
    broad: &P,
    narrow: &N,
) -> (hit: bool)
    requires
        askable(*left, *right, *broad, *narrow),
    ensures
        tested(*left, *right, *broad, *narrow, hit),
{
    if !broad(&left.bounds, &right.bounds) {
        return false;
    }
    let mut i: usize = 0;
    while i < left.colliders.len()
        invariant
            i <= left.colliders@.len(),
            askable(*left, *right, *broad, *narrow),
            call_ensures(*broad, (&left.bounds, &right.bounds), true),
            forall|a: int, b: int|
                0 <= a < i && 0 <= b < right.colliders@.len() ==> call_ensures(
                    *narrow,
                    (&#[trigger] left.colliders@[a], &#[trigger] right.colliders@[b]),
                    false,
                ),
        decreases left.colliders@.len() - i,
    {
        let mut j: usize = 0;
        while j < right.colliders.len()
            invariant
                i < left.colliders@.len(),
                j <= right.colliders@.len(),
                askable(*left, *right, *broad, *narrow),
                call_ensures(*broad, (&left.bounds, &right.bounds), true),
                forall|a: int, b: int|
                    0 <= a < i && 0 <= b < right.colliders@.len() ==> call_ensures(
                        *narrow,
                        (&#[trigger] left.colliders@[a], &#[trigger] right.colliders@[b]),
                        false,
                    ),
                forall|b: int|
                    0 <= b < j ==> call_ensures(
                        *narrow,
                        (&left.colliders@[i as int], &#[trigger] right.colliders@[b]),
                        false,
                    ),
            decreases right.colliders@.len() - j,
        {
            if narrow(&left.colliders[i], &right.colliders[j]) {
                assert(call_ensures(
                    *narrow,
                    (&left.colliders@[i as int], &right.colliders@[j as int]),
                    true,
                ));
                return true;
            }
            j += 1;
        }
        i += 1;
    }
    false
}

/// The order of pairs: by the first id, then by the second.
pub open spec fn pair_less(a: (EntityId, EntityId), b: (EntityId, EntityId)) -> bool {
    a.0 < b.0 || (a.0 == b.0 && a.1 < b.1)
}

/// Every pair holds the lower id first, and comes before all pairs behind it.
pub open spec fn pairs_increasing(pairs: Seq<(EntityId, EntityId)>) -> bool {
    &&& forall|k: int| 0 <= k < pairs.len() ==> (#[trigger] pairs[k]).0 < pairs[k].1
    &&& forall|i: int, j: int|
        0 <= i < j < pairs.len() ==> pair_less(#[trigger] pairs[i], #[trigger] pairs[j])
}

/// The two entities collide: the pair of them, lower id first, is among the
/// pairs.
pub open spec fn collides_with(pairs: Seq<(EntityId, EntityId)>, a: EntityId, b: EntityId) -> bool {
    pairs.contains((a, b)) || pairs.contains((b, a))
}

/// The ids of two groups, as a pair.
pub open spec fn pair_at<V>(groups: Seq<(EntityId, V)>, i: int, j: int) -> (EntityId, EntityId) {
    (groups[i].0, groups[j].0)
}

/// The pair holds the ids of two of the groups, the earlier one first.
pub open spec fn among<V>(groups: Seq<(EntityId, V)>, pair: (EntityId, EntityId)) -> bool {
    exists|i: int, j: int| 0 <= i < j < groups.len() && #[trigger] pair_at(groups, i, j) == pair
}

/// `pairs` is an outcome of testing `groups`: every unordered pair of
/// entities is tested once, and the pairs that collide are listed, each once
/// and lower id first, in the order of pairs.
pub open spec fn detected<B, C, P: Fn(&B, &B) -> bool, N: Fn(&C, &C) -> bool>(
    groups: Seq<(EntityId, ColliderGroup<B, C>)>,
    broad: P,
    narrow: N,
    pairs: Seq<(EntityId, EntityId)>,
) -> bool {
    &&& pairs_increasing(pairs)
    &&& forall|k: int| 0 <= k < pairs.len() ==> among(groups, #[trigger] pairs[k])
    &&& forall|i: int, j: int|
        0 <= i < j < groups.len() ==> tested(
            (#[trigger] groups[i]).1,
            (#[trigger] groups[j]).1,
            broad,
            narrow,
            pairs.contains((groups[i].0, groups[j].0)),
        )
}

/// Every unordered pair of groups can be tested.
pub open spec fn all_askable<B, C, P: Fn(&B, &B) -> bool, N: Fn(&C, &C) -> bool>(
    groups: Seq<(EntityId, ColliderGroup<B, C>)>,
    broad: P,
    narrow: N,
) -> bool {
    forall|i: int, j: int|
        0 <= i < j < groups.len() ==> askable(
            (#[trigger] groups[i]).1,
            (#[trigger] groups[j]).1,
            broad,
            narrow,
        )
}

/// Finds the pairs of entities that collide: broad phase, then narrow phase,
/// for every unordered pair of entities once
#[verifier::rlimit(50)]
pub fn detect<B, C, P: Fn(&B, &B) -> bool, N: Fn(&C, &C) -> bool>(
    groups: &Table<ColliderGroup<B, C>>,
    broad: &P,
    narrow: &N,
) -> (pairs: Vec<(EntityId, EntityId)>)
    requires
        groups.wf(),
        all_askable(groups@, *broad, *narrow),
    ensures
        detected(groups@, *broad, *narrow, pairs@),
{
    let mut pairs: Vec<(EntityId, EntityId)> = Vec::new();
    let ghost mut sources: Seq<(int, int)> = Seq::empty();
    let count = groups.len();
    let mut i: usize = 0;
    while i < count
        invariant
            count == groups@.len(),
            i <= count,
            groups.wf(),
            all_askable(groups@, *broad, *narrow),
            sources.len() == pairs@.len(),
            pairs_increasing(pairs@),
            forall|k: int|
                0 <= k < pairs@.len() ==> {
                    &&& 0 <= (#[trigger] sources[k]).0 < sources[k].1 < count
                    &&& sources[k].0 < i
                    &&& pairs@[k] == (groups@[sources[k].0].0, groups@[sources[k].1].0)
                },
            forall|a: int, b: int|
                0 <= a < b < count && a < i ==> tested(
                    (#[trigger] groups@[a]).1,
                    (#[trigger] groups@[b]).1,
                    *broad,
                    *narrow,
                    pairs@.contains((groups@[a].0, groups@[b].0)),
                ),
        decreases count - i,
    {
        let (left_id, left) = groups.entry(i);
        let mut j: usize = i + 1;
        while j < count
            invariant
                count == groups@.len(),
                i < count,
                i < j <= count,
                groups.wf(),
                all_askable(groups@, *broad, *narrow),
                left_id == groups@[i as int].0,
                *left == groups@[i as int].1,
                sources.len() == pairs@.len(),
                pairs_increasing(pairs@),
                forall|k: int|
                    0 <= k < pairs@.len() ==> {
                        &&& 0 <= (#[trigger] sources[k]).0 < sources[k].1 < count
                        &&& (sources[k].0 < i || (sources[k].0 == i && sources[k].1 < j))
                        &&& pairs@[k] == (groups@[sources[k].0].0, groups@[sources[k].1].0)
                    },
                forall|a: int, b: int|
                    0 <= a < b < count && (a < i || (a == i && b < j)) ==> tested(
                        (#[trigger] groups@[a]).1,
                        (#[trigger] groups@[b]).1,
                        *broad,
                        *narrow,
                        pairs@.contains((groups@[a].0, groups@[b].0)),
                    ),
            decreases count - j,
        {
            let (right_id, right) = groups.entry(j);
            assert(askable(groups@[i as int].1, groups@[j as int].1, *broad, *narrow));
            let hit = groups_collide(left, right, broad, narrow);
            let ghost before = pairs@;
            if hit {
                pairs.push((left_id, right_id));
                proof {
                    sources = sources.push((i as int, j as int));
                    assert(groups@[i as int].0 < groups@[j as int].0);
                    assert forall|x: int, y: int| 0 <= x < y < pairs@.len() implies pair_less(
                        #[trigger] pairs@[x],
                        #[trigger] pairs@[y],
                    ) by {
                        if y == pairs@.len() - 1 {
                            let from = sources[x];
                            assert(pairs@[x] == (groups@[from.0].0, groups@[from.1].0));
                            if from.0 < i {
                                assert(groups@[from.0].0 < groups@[i as int].0);
                            } else {
                                assert(groups@[from.1].0 < groups@[j as int].0);
                            }
                        } else {
                            assert(pairs@[x] == before[x] && pairs@[y] == before[y]);
                        }
                    }
                    assert forall|k: int| 0 <= k < pairs@.len() implies (#[trigger] pairs@[k]).0
                        < pairs@[k].1 by {
                        if k < before.len() {
                            assert(pairs@[k] == before[k]);
                        }
                    }
                    assert(pairs@[pairs@.len() - 1] == (left_id, right_id));
                }
            }
            proof {
                assert forall|a: int, b: int|
                    0 <= a < b < count && (a < i || (a == i && b < j + 1)) implies tested(
                    (#[trigger] groups@[a]).1,
                    (#[trigger] groups@[b]).1,
                    *broad,
                    *narrow,
                    pairs@.contains((groups@[a].0, groups@[b].0)),
                ) by {
                    let pair = (groups@[a].0, groups@[b].0);
                    if a == i && b == j {
                        if !hit {
                            if before.contains(pair) {
                                let k = choose|k: int| 0 <= k < before.len() && before[k] == pair;
                                let from = sources[k];
                                assert(groups@[from.0].0 == groups@[i as int].0);
                                assert(groups@[from.1].0 == groups@[j as int].0);
                                if from.0 < i {
                                    assert(groups@[from.0].0 < groups@[i as int].0);
                                }
                                if from.1 < j {
                                    assert(groups@[from.1].0 < groups@[j as int].0);
                                }
                                if from.1 > j {
                                    assert(groups@[j as int].0 < groups@[from.1].0);
                                }
                            }
                        }
                    } else {
                        if hit {
                            if a < i {
                                assert(groups@[a].0 < groups@[i as int].0);
                            } else {
                                assert(groups@[b].0 < groups@[j as int].0);
                            }
                            assert(pair != (left_id, right_id));
                            if before.contains(pair) {
                                let k = choose|k: int| 0 <= k < before.len() && before[k] == pair;
                                assert(pairs@[k] == pair);
                            }
                            if pairs@.contains(pair) {
                                let k = choose|k: int| 0 <= k < pairs@.len() && pairs@[k] == pair;
                                assert(before[k] == pair);
                            }
                            assert(pairs@.contains(pair) == before.contains(pair));
                        }
                    }
                }
            }
            j += 1;
        }
        i += 1;
    }
    proof {
        assert forall|k: int| 0 <= k < pairs@.len() implies among(groups@, #[trigger] pairs@[k]) by {
            let from = sources[k];
            assert(0 <= from.0 < from.1 < groups@.len() && pair_at(groups@, from.0, from.1)
                == pairs@[k]);
        }
    }
    pairs
}

/// Collision symmetry. One entity collides with another exactly when the
/// other collides with it, and no entity collides with itself.
pub proof fn law_collision_symmetry(pairs: Seq<(EntityId, EntityId)>, a: EntityId, b: EntityId)
    requires
        pairs_increasing(pairs),
    ensures
        collides_with(pairs, a, b) == collides_with(pairs, b, a),
        !collides_with(pairs, a, a),
{
    if pairs.contains((a, a)) {
        let k = choose|k: int| 0 <= k < pairs.len() && pairs[k] == (a, a);
        assert(pairs[k].0 < pairs[k].1);
    }
}

/// The entity that a pair names beside `entity_id`.
pub open spec fn peer(pair: (EntityId, EntityId), entity_id: EntityId) -> EntityId {
    if pair.0 == entity_id {
        pair.1
    } else {
        pair.0
    }
}

/// `collisions` lists, in the order of their ids and each once, the entities
/// that collide with `entity_id`.
pub open spec fn peers_of(
    pairs: Seq<(EntityId, EntityId)>,
    entity_id: EntityId,
    collisions: Seq<Collision>,
) -> bool {
    &&& forall|x: int, y: int|
        0 <= x < y < collisions.len() ==> (#[trigger] collisions[x]).0 < (#[trigger] collisions[y]).0
    &&& forall|other: EntityId| #[trigger]
        collisions.contains(Collision(other)) <==> collides_with(pairs, entity_id, other)
}

/// Lists the entities that collide with `entity_id`
#[verifier::rlimit(50)]
pub fn peers(pairs: &Vec<(EntityId, EntityId)>, entity_id: EntityId) -> (collisions: Vec<Collision>)
    requires
        pairs_increasing(pairs@),
    ensures
        peers_of(pairs@, entity_id, collisions@),
{
    let mut collisions: Vec<Collision> = Vec::new();
    let ghost mut sources: Seq<int> = Seq::empty();
    let mut at: usize = 0;
    while at < pairs.len()
        invariant
            at <= pairs@.len(),
            pairs_increasing(pairs@),
            sources.len() == collisions@.len(),
            forall|k: int|
                0 <= k < collisions@.len() ==> {
                    &&& 0 <= (#[trigger] sources[k]) < at
                    &&& (pairs@[sources[k]].0 == entity_id || pairs@[sources[k]].1 == entity_id)
                    &&& collisions@[k] == Collision(peer(pairs@[sources[k]], entity_id))
                },
            forall|x: int, y: int|
                0 <= x < y < collisions@.len() ==> (#[trigger] sources[x]) < (#[trigger] sources[y]),
            forall|t: int|
                0 <= t < at && ((#[trigger] pairs@[t]).0 == entity_id || pairs@[t].1 == entity_id)
                    ==> collisions@.contains(Collision(peer(pairs@[t], entity_id))),
        decreases pairs@.len() - at,
    {
        let pair = pairs[at];
        let ghost before = collisions@;
        if pair.0 == entity_id || pair.1 == entity_id {
            let other = if pair.0 == entity_id {
                pair.1
            } else {
                pair.0
            };
            collisions.push(Collision(other));
            proof {
                sources = sources.push(at as int);
                assert(collisions@[collisions@.len() - 1] == Collision(other));
                assert forall|t: int|
                    0 <= t < at + 1 && ((#[trigger] pairs@[t]).0 == entity_id || pairs@[t].1
                        == entity_id) implies collisions@.contains(
                    Collision(peer(pairs@[t], entity_id)),
                ) by {
                    if t < at {
                        let k = choose|k: int|
                            0 <= k < before.len() && before[k] == Collision(
                                peer(pairs@[t], entity_id),
                            );
                        assert(collisions@[k] == before[k]);
                    }
                }
            }
        }
        at += 1;
    }
    proof {
        assert forall|x: int, y: int| 0 <= x < y < collisions@.len() implies (
        #[trigger] collisions@[x]).0 < (#[trigger] collisions@[y]).0 by {
            let first = pairs@[sources[x]];
            let second = pairs@[sources[y]];
            assert(pair_less(first, second));
            assert(first.0 < first.1 && second.0 < second.1);
        }
        assert forall|other: EntityId| #[trigger]
            collisions@.contains(Collision(other)) <==> collides_with(
                pairs@,
                entity_id,
                other,
            ) by {
            if collisions@.contains(Collision(other)) {
                let k = choose|k: int|
                    0 <= k < collisions@.len() && collisions@[k] == Collision(other);
                let from = pairs@[sources[k]];
                assert(from.0 < from.1);
                assert(from == (entity_id, other) || from == (other, entity_id));
            }
            if pairs@.contains((entity_id, other)) {
                let t = choose|t: int| 0 <= t < pairs@.len() && pairs@[t] == (entity_id, other);
                assert(pairs@[t].0 == entity_id);
            }
            if pairs@.contains((other, entity_id)) {
                let t = choose|t: int| 0 <= t < pairs@.len() && pairs@[t] == (other, entity_id);
                assert(pairs@[t].0 < pairs@[t].1);
                assert(pairs@[t].1 == entity_id);
            }
        }
    }
    collisions
}

/// `collisions` holds, for every entity that collides with another and for
/// no other, the entities it collides with.
pub open spec fn grouped(
    pairs: Seq<(EntityId, EntityId)>,
    collisions: Seq<(EntityId, Vec<Collision>)>,
) -> bool {
    &&& increasing(collisions)
    &&& forall|k: int|
        0 <= k < collisions.len() ==> (#[trigger] collisions[k]).1@.len() > 0 && peers_of(
            pairs,
            collisions[k].0,
            collisions[k].1@,
        )
    &&& forall|a: EntityId, b: EntityId| #[trigger]
        collides_with(pairs, a, b) ==> has_key(collisions, a)
}

/// Collision symmetry of what the engine hands out: one entity is listed for
/// another exactly when the other is listed for it.
pub proof fn law_grouped_symmetry(
    pairs: Seq<(EntityId, EntityId)>,
    collisions: Seq<(EntityId, Vec<Collision>)>,
    a: EntityId,
    b: EntityId,
)
    requires
        pairs_increasing(pairs),
        grouped(pairs, collisions),
    ensures
        listed(collisions, a, b) == listed(collisions, b, a),
        listed(collisions, a, b) == collides_with(pairs, a, b),
{
    law_collision_symmetry(pairs, a, b);
    lemma_listed(pairs, collisions, a, b);
    lemma_listed(pairs, collisions, b, a);
}

/// `other` is in the list of `entity_id`.
pub open spec fn listed(
    collisions: Seq<(EntityId, Vec<Collision>)>,
    entity_id: EntityId,
    other: EntityId,
) -> bool {
    match value_of(collisions, entity_id) {
        Some(list) => list@.contains(Collision(other)),
        None => false,
    }
}

/// An entity is listed for another exactly when the two collide.
pub proof fn lemma_listed(
    pairs: Seq<(EntityId, EntityId)>,
    collisions: Seq<(EntityId, Vec<Collision>)>,
    a: EntityId,
    b: EntityId,
)
    requires
        grouped(pairs, collisions),
    ensures
        listed(collisions, a, b) == collides_with(pairs, a, b),
{
    lemma_has_key(collisions, a);
    if value_of(collisions, a) is Some {
        let at = choose|at: int| 0 <= at < collisions.len() && (#[trigger] collisions[at]).0 == a;
        crate::table::lemma_key_index(collisions, a, at);
        assert(peers_of(pairs, collisions[at].0, collisions[at].1@));
        assert(collisions[at].1@.contains(Collision(b)) <==> collides_with(pairs, a, b));
    } else {
        if collides_with(pairs, a, b) {
            assert(has_key(collisions, a));
        }
    }
}

/// Turns the colliding pairs into one list per entity
#[verifier::rlimit(50)]
pub fn group_collisions<G>(groups: &Table<G>, pairs: &Vec<(EntityId, EntityId)>) -> (collisions:
    Table<Vec<Collision>>)
    requires
        groups.wf(),
        pairs_increasing(pairs@),
        forall|k: int| 0 <= k < pairs@.len() ==> among(groups@, #[trigger] pairs@[k]),
    ensures
        collisions.wf(),
        grouped(pairs@, collisions@),
{
    let mut collisions: Table<Vec<Collision>> = Table::new();
    let mut at: usize = 0;
    while at < groups.len()
        invariant
            at <= groups@.len(),
            groups.wf(),
            pairs_increasing(pairs@),
            collisions.wf(),
            forall|k: int|
                0 <= k < collisions@.len() ==> {
                    &&& (#[trigger] collisions@[k]).1@.len() > 0
                    &&& peers_of(pairs@, collisions@[k].0, collisions@[k].1@)
                    &&& exists|g: int| 0 <= g < at && (#[trigger] groups@[g]).0 == collisions@[k].0
                },
            forall|g: int, b: EntityId|
                0 <= g < at && #[trigger] collides_with(pairs@, (#[trigger] groups@[g]).0, b)
                    ==> has_key(collisions@, groups@[g].0),
        decreases groups@.len() - at,
    {
        let (entity_id, _) = groups.entry(at);
        let list = peers(pairs, entity_id);
        let ghost before = collisions@;
        if list.len() > 0 {
            proof {
                assert forall|k: int| 0 <= k < collisions@.len() implies (
                #[trigger] collisions@[k]).0 < entity_id by {
                    let g = choose|g: int|
                        0 <= g < at && (#[trigger] groups@[g]).0 == collisions@[k].0;
                    assert(groups@[g].0 < groups@[at as int].0);
                }
            }
            collisions.append(entity_id, list);
            proof {
                assert forall|k: int| 0 <= k < collisions@.len() implies {
                    &&& (#[trigger] collisions@[k]).1@.len() > 0
                    &&& peers_of(pairs@, collisions@[k].0, collisions@[k].1@)
                    &&& exists|g: int|
                        0 <= g < at + 1 && (#[trigger] groups@[g]).0 == collisions@[k].0
                } by {
                    if k < before.len() {
                        assert(collisions@[k] == before[k]);
                        let g = choose|g: int|
                            0 <= g < at && (#[trigger] groups@[g]).0 == before[k].0;
                        assert(groups@[g].0 == collisions@[k].0);
                    } else {
                        assert(groups@[at as int].0 == collisions@[k].0);
                    }
                }
                assert(collisions@[before.len() as int].0 == entity_id);
            }
        }
        proof {
            assert forall|g: int, b: EntityId|
                0 <= g < at + 1 && #[trigger] collides_with(
                    pairs@,
                    (#[trigger] groups@[g]).0,
                    b,
                ) implies has_key(collisions@, groups@[g].0) by {
                if g < at {
                    assert(has_key(before, groups@[g].0));
                    let k = choose|k: int|
                        0 <= k < before.len() && (#[trigger] before[k]).0 == groups@[g].0;
                    assert(collisions@[k] == before[k]);
                } else {
                    assert(list@.contains(Collision(b)));
                    assert(collisions@[before.len() as int].0 == entity_id);
                }
            }
        }
        at += 1;
    }
    proof {
        assert forall|a: EntityId, b: EntityId| #[trigger]
            collides_with(pairs@, a, b) implies has_key(collisions@, a) by {
            let pair = if pairs@.contains((a, b)) {
                (a, b)
            } else {
                (b, a)
            };
            let k = choose|k: int| 0 <= k < pairs@.len() && pairs@[k] == pair;
            assert(among(groups@, pairs@[k]));
            let (i, j) = choose|i: int, j: int|
                0 <= i < j < groups@.len() && #[trigger] pair_at(groups@, i, j) == pair;
            let g = if pair.0 == a {
                i
            } else {
                j
            };
            assert(groups@[g].0 == a);
        }
    }
    collisions
}

/// Collects all occurred collisions: for every entity that collides, the
/// entities it collides with
pub fn collect_collisions<B, C, P: Fn(&B, &B) -> bool, N: Fn(&C, &C) -> bool>(
    groups: &Table<ColliderGroup<B, C>>,
    broad: &P,
    narrow: &N,
) -> (collisions: Table<Vec<Collision>>)
    requires
        groups.wf(),
        all_askable(groups@, *broad, *narrow),
    ensures
        collisions.wf(),
        exists|pairs: Seq<(EntityId, EntityId)>| #[trigger]
            detected(groups@, *broad, *narrow, pairs) && grouped(pairs, collisions@),
{
    let pairs = detect(groups, broad, narrow);
    let collisions = group_collisions(groups, &pairs);
    assert(detected(groups@, *broad, *narrow, pairs@) && grouped(pairs@, collisions@));
    collisions
}

/// `groups` is an outcome of the collect phase: it holds, in the order of
/// their ids, every entity for which `transform` answered with colliders, and
/// what it answered.
pub open spec fn collected<E, B, C, F: Fn(EntityId, &E) -> Option<ColliderGroup<B, C>>>(
    entities: Seq<Option<E>>,
    transform: F,
    groups: Seq<(EntityId, ColliderGroup<B, C>)>,
) -> bool {
    &&& increasing(groups)
    &&& forall|k: int|
        0 <= k < groups.len() ==> {
            &&& occupied(entities, (#[trigger] groups[k]).0 as int)
            &&& call_ensures(
                transform,
                (groups[k].0, &entities[groups[k].0 as int].unwrap()),
                Some(groups[k].1),
            )
        }
    &&& forall|entity_id: EntityId|
        occupied(entities, entity_id as int) && !#[trigger] has_key(groups, entity_id)
            ==> call_ensures(transform, (entity_id, &entities[entity_id as int].unwrap()), None)
}

/// `transform` can be asked about every entity.
pub open spec fn transformable<E, B, C, F: Fn(EntityId, &E) -> Option<ColliderGroup<B, C>>>(
    entities: Seq<Option<E>>,
    transform: F,
) -> bool {
    forall|entity_id: EntityId| #[trigger]
        occupied(entities, entity_id as int) ==> call_requires(
            transform,
            (entity_id, &entities[entity_id as int].unwrap()),
        )
}

/// Collect phase: asks `transform` for the colliders of every entity, in
/// world space, and keeps what it answers
#[verifier::rlimit(50)]
pub fn collect_colliders<E, S, B, C, F: Fn(EntityId, &E) -> Option<ColliderGroup<B, C>>>(
    ecs: &ECS<E, S>,
    transform: &F,
) -> (groups: Table<ColliderGroup<B, C>>)
    requires
        transformable(ecs.entities(), *transform),
    ensures
        groups.wf(),
        collected(ecs.entities(), *transform, groups@),
{
    let mut groups: Table<ColliderGroup<B, C>> = Table::new();
    let count = ecs.len();
    let mut entity_id: usize = 0;
    while entity_id < count
        invariant
            count == ecs.entities().len(),
            entity_id <= count,
            transformable(ecs.entities(), *transform),
            groups.wf(),
            forall|k: int|
                0 <= k < groups@.len() ==> {
                    &&& (#[trigger] groups@[k]).0 < entity_id
                    &&& occupied(ecs.entities(), groups@[k].0 as int)
                    &&& call_ensures(
                        *transform,
                        (groups@[k].0, &ecs.entities()[groups@[k].0 as int].unwrap()),
                        Some(groups@[k].1),
                    )
                },
            forall|other: EntityId|
                other < entity_id && occupied(ecs.entities(), other as int) && !#[trigger] has_key(
                    groups@,
                    other,
                ) ==> call_ensures(
                    *transform,
                    (other, &ecs.entities()[other as int].unwrap()),
                    None,
                ),
        decreases count - entity_id,
    {
        let ghost before = groups@;
        match ecs.get_entity(entity_id) {
            Some(entity) => {
                assert(occupied(ecs.entities(), entity_id as int));
                match transform(entity_id, entity) {
                    Some(group) => {
                        groups.append(entity_id, group);
                        assert(groups@[before.len() as int].0 == entity_id);
                    },
                    None => {},
                }
            },
            None => {},
        }
        proof {
            assert forall|k: int| 0 <= k < groups@.len() implies {
                &&& (#[trigger] groups@[k]).0 < entity_id + 1
                &&& occupied(ecs.entities(), groups@[k].0 as int)
                &&& call_ensures(
                    *transform,
                    (groups@[k].0, &ecs.entities()[groups@[k].0 as int].unwrap()),
                    Some(groups@[k].1),
                )
            } by {
                if k < before.len() {
                    assert(groups@[k] == before[k]);
                }
            }
            assert forall|other: EntityId|
                other < entity_id + 1 && occupied(ecs.entities(), other as int)
                    && !#[trigger] has_key(groups@, other) implies call_ensures(
                *transform,
                (other, &ecs.entities()[other as int].unwrap()),
                None,
            ) by {
                if other < entity_id {
                    if has_key(before, other) {
                        let k = choose|k: int|
                            0 <= k < before.len() && (#[trigger] before[k]).0 == other;
                        assert(groups@[k] == before[k]);
                    }
                }
            }
        }
        entity_id += 1;
    }
    groups
}

/// `after` is an outcome of the publish phase: every entity that is there
/// and has a list of collisions is what `write` made of it and of its list;
/// every other slot is as it was.
pub open spec fn stored<E, W: Fn(E, &Vec<Collision>) -> E>(
    before: Seq<Option<E>>,
    collisions: Seq<(EntityId, Vec<Collision>)>,
    write: W,
    after: Seq<Option<E>>,
) -> bool {
    &&& after.len() == before.len()
    &&& forall|entity_id: EntityId|
        0 <= entity_id < before.len() ==> if occupied(before, entity_id as int) && has_key(
            collisions,
            entity_id,
        ) {
            &&& occupied(after, entity_id as int)
            &&& call_ensures(
                write,
                (before[entity_id as int].unwrap(), &value_of(collisions, entity_id).unwrap()),
                after[entity_id as int].unwrap(),
            )
        } else {
            #[trigger] after[entity_id as int] == before[entity_id as int]
        }
}

/// Publish phase: writes the collisions of every entity onto the entity. A
/// list for an entity that is no longer there is dropped
#[verifier::rlimit(50)]
pub fn store_collisions<E, S, W: Fn(E, &Vec<Collision>) -> E>(
    ecs: &mut ECS<E, S>,
    collisions: &Table<Vec<Collision>>,
    write: &W,
)
    requires
        collisions.wf(),
        forall|entity: E, list: Vec<Collision>| call_requires(*write, (entity, &list)),
    ensures
        stored(old(ecs).entities(), collisions@, *write, final(ecs).entities()),
        final(ecs).outbox() == old(ecs).outbox(),
        final(ecs).systems() == old(ecs).systems(),
        final(ecs).wf() == old(ecs).wf(),
{
    let mut at: usize = 0;
    while at < collisions.len()
        invariant
            at <= collisions@.len(),
            collisions.wf(),
            forall|entity: E, list: Vec<Collision>| call_requires(*write, (entity, &list)),
            ecs.entities().len() == old(ecs).entities().len(),
            forall|entity_id: EntityId|
                0 <= entity_id < old(ecs).entities().len() ==> if occupied(
                    old(ecs).entities(),
                    entity_id as int,
                ) && exists|k: int| 0 <= k < at && (#[trigger] collisions@[k]).0 == entity_id {
                    &&& occupied(ecs.entities(), entity_id as int)
                    &&& call_ensures(
                        *write,
                        (
                            old(ecs).entities()[entity_id as int].unwrap(),
                            &value_of(collisions@, entity_id).unwrap(),
                        ),
                        ecs.entities()[entity_id as int].unwrap(),
                    )
                } else {
                    #[trigger] ecs.entities()[entity_id as int] == old(ecs).entities()[entity_id as int]
                },
            ecs.outbox() == old(ecs).outbox(),
            ecs.systems() == old(ecs).systems(),
            ecs.wf() == old(ecs).wf(),
        decreases collisions@.len() - at,
    {
        let (entity_id, list) = collisions.entry(at);
        let ghost before = ecs.entities();
        proof {
            crate::table::lemma_key_index(collisions@, entity_id, at as int);
            assert(value_of(collisions@, entity_id) == Some(*list));
            if entity_id < before.len() {
                if exists|k: int| 0 <= k < at && (#[trigger] collisions@[k]).0 == entity_id {
                    let k = choose|k: int| 0 <= k < at && (#[trigger] collisions@[k]).0 == entity_id;
                    assert(collisions@[k].0 < collisions@[at as int].0);
                }
                assert(before[entity_id as int] == old(ecs).entities()[entity_id as int]);
            }
        }
        let func = |entity: E| -> (out: (E, ()))
            requires
                call_requires(*write, (entity, list)),
            ensures
                call_ensures(*write, (entity, list), out.0),
            { (write(entity, list), ()) };
        let _ = ecs.visit_entity_mut(entity_id, func);
        proof {
            assert forall|other: EntityId| 0 <= other < old(ecs).entities().len() implies if occupied(
                old(ecs).entities(),
                other as int,
            ) && exists|k: int| 0 <= k < at + 1 && (#[trigger] collisions@[k]).0 == other {
                &&& occupied(ecs.entities(), other as int)
                &&& call_ensures(
                    *write,
                    (
                        old(ecs).entities()[other as int].unwrap(),
                        &value_of(collisions@, other).unwrap(),
                    ),
                    ecs.entities()[other as int].unwrap(),
                )
            } else {
                #[trigger] ecs.entities()[other as int] == old(ecs).entities()[other as int]
            } by {
                if other == entity_id {
                    assert(collisions@[at as int].0 == other);
                } else {
                    assert(ecs.entities()[other as int] == before[other as int]);
                    if exists|k: int| 0 <= k < at + 1 && (#[trigger] collisions@[k]).0 == other {
                        let k = choose|k: int|
                            0 <= k < at + 1 && (#[trigger] collisions@[k]).0 == other;
                        assert(k < at);
                    }
                }
            }
        }
        at += 1;
    }
    proof {
        assert forall|entity_id: EntityId| 0 <= entity_id < old(ecs).entities().len() implies (
        has_key(collisions@, entity_id) <==> exists|k: int|
            0 <= k < at && (#[trigger] collisions@[k]).0 == entity_id) by {}
    }
}

/// Physics worker thread function: one tick of collision detection. The
/// colliders of all entities are collected, every pair of entities is tested,
/// and the collisions of every entity are written onto it
pub fn worker_func<
    E,
    S,
    B,
    C,
    F: Fn(EntityId, &E) -> Option<ColliderGroup<B, C>>,
    P: Fn(&B, &B) -> bool,
    N: Fn(&C, &C) -> bool,
    W: Fn(E, &Vec<Collision>) -> E,
>(ecs: &mut ECS<E, S>, transform: &F, broad: &P, narrow: &N, write: &W)
    requires
        transformable(old(ecs).entities(), *transform),
        forall|left: B, right: B| call_requires(*broad, (&left, &right)),
        forall|left: C, right: C| call_requires(*narrow, (&left, &right)),
        forall|entity: E, list: Vec<Collision>| call_requires(*write, (entity, &list)),
    ensures
        exists|
            groups: Seq<(EntityId, ColliderGroup<B, C>)>,
            pairs: Seq<(EntityId, EntityId)>,
            collisions: Seq<(EntityId, Vec<Collision>)>,
        |
            {
                &&& collected(old(ecs).entities(), *transform, groups)
                &&& #[trigger] detected(groups, *broad, *narrow, pairs)
                &&& grouped(pairs, collisions)
                &&& #[trigger] stored(old(ecs).entities(), collisions, *write, final(ecs).entities())
            },
        final(ecs).outbox() == old(ecs).outbox(),
        final(ecs).systems() == old(ecs).systems(),
        final(ecs).wf() == old(ecs).wf(),
{
    let groups = collect_colliders(ecs, transform);
    let pairs = detect(&groups, broad, narrow);
    let collisions = group_collisions(&groups, &pairs);
    store_collisions(ecs, &collisions, write);
    assert(detected(groups@, *broad, *narrow, pairs@) && stored(
        old(ecs).entities(),
        collisions@,
        *write,
        ecs.entities(),
    ));
}

/// The pairs of `left` that are not among `right`, in the order of `left`.
pub open spec fn only_in(
    left: Seq<(EntityId, EntityId)>,
    right: Seq<(EntityId, EntityId)>,
) -> Seq<(EntityId, EntityId)>
    decreases left.len(),
{
    if left.len() == 0 {
        seq![]
    } else if right.contains(left.last()) {
        only_in(left.drop_last(), right)
    } else {
        only_in(left.drop_last(), right).push(left.last())
    }
}

/// Whether `pair` is among `pairs`
pub fn contains_pair(pairs: &Vec<(EntityId, EntityId)>, pair: (EntityId, EntityId)) -> (found: bool)
    ensures
        found == pairs@.contains(pair),
{
    let mut at: usize = 0;
    while at < pairs.len()
        invariant
            at <= pairs@.len(),
            forall|k: int| 0 <= k < at ==> pairs@[k] != pair,
        decreases pairs@.len() - at,
    {
        let candidate = pairs[at];
        if candidate.0 == pair.0 && candidate.1 == pair.1 {
            return true;
        }
        at += 1;
    }
    false
}

/// The pairs of `left` that are not among `right`
pub fn difference(left: &Vec<(EntityId, EntityId)>, right: &Vec<(EntityId, EntityId)>) -> (only:
    Vec<(EntityId, EntityId)>)
    ensures
        only@ == only_in(left@, right@),
{
    let mut only: Vec<(EntityId, EntityId)> = Vec::new();
    let mut at: usize = 0;
    while at < left.len()
        invariant
            at <= left@.len(),
            only@ == only_in(left@.take(at as int), right@),
        decreases left@.len() - at,
    {
        let pair = left[at];
        proof {
            assert(left@.take(at + 1).drop_last() =~= left@.take(at as int));
            assert(left@.take(at + 1).last() == pair);
        }
        if !contains_pair(right, pair) {
            only.push(pair);
        }
        at += 1;
    }
    proof {
        assert(left@.take(left@.len() as int) =~= left@);
    }
    only
}

/// A collision is reported as started exactly when it is among the pairs of
/// this tick and not among those of the tick before, and as finished exactly
/// when it is the other way round: `only_in` holds the pairs of `left` that
/// are not among `right`, and no others.
pub proof fn law_difference(
    left: Seq<(EntityId, EntityId)>,
    right: Seq<(EntityId, EntityId)>,
    pair: (EntityId, EntityId),
)
    ensures
        only_in(left, right).contains(pair) <==> left.contains(pair) && !right.contains(pair),
    decreases left.len(),
{
    if left.len() > 0 {
        let rest = left.drop_last();
        law_difference(rest, right, pair);
        if left.contains(pair) {
            let k = choose|k: int| 0 <= k < left.len() && left[k] == pair;
            if k < left.len() - 1 {
                assert(rest[k] == pair);
            }
        }
        if rest.contains(pair) {
            let k = choose|k: int| 0 <= k < rest.len() && rest[k] == pair;
            assert(left[k] == pair);
        }
        assert(left[left.len() - 1] == left.last());
        let kept = only_in(rest, right);
        if !right.contains(left.last()) {
            let all = kept.push(left.last());
            assert(all[all.len() - 1] == left.last());
            if kept.contains(pair) {
                let k = choose|k: int| 0 <= k < kept.len() && kept[k] == pair;
                assert(all[k] == pair);
            }
            if all.contains(pair) {
                let k = choose|k: int| 0 <= k < all.len() && all[k] == pair;
                if k < kept.len() {
                    assert(kept[k] == pair);
                }
            }
        }
    }
}

/// The notifications that a change of the colliding pairs owes: one for every
/// pair that collides now and did not before, then one for every pair that
/// collided before and does not now, each in the order of pairs.
pub open spec fn transition_events(
    previous: Seq<(EntityId, EntityId)>,
    current: Seq<(EntityId, EntityId)>,
) -> Seq<Event> {
    let started = only_in(current, previous);
    let finished = only_in(previous, current);
    Seq::new(
        started.len() + finished.len(),
        |k: int|
            if k < started.len() {
                Event::CollisionStarted([started[k].0, started[k].1])
            } else {
                Event::CollisionFinished(
                    [finished[k - started.len()].0, finished[k - started.len()].1],
                )
            },
    )
}

/// Compares the colliding pairs of this tick with those of the tick before
/// and lists the notifications that the change owes
pub fn transitions(previous: &Vec<(EntityId, EntityId)>, current: &Vec<(EntityId, EntityId)>) -> (events:
    Vec<Event>)
    ensures
        events@ == transition_events(previous@, current@),
{
    let started = difference(current, previous);
    let finished = difference(previous, current);
    let mut events: Vec<Event> = Vec::new();
    let mut at: usize = 0;
    while at < started.len()
        invariant
            at <= started@.len(),
            events@.len() == at,
            forall|k: int|
                0 <= k < at ==> events@[k] == Event::CollisionStarted(
                    [started@[k].0, started@[k].1],
                ),
        decreases started@.len() - at,
    {
        let pair = started[at];
        events.push(Event::CollisionStarted([pair.0, pair.1]));
        at += 1;
    }
    let mut at: usize = 0;
    while at < finished.len()
        invariant
            at <= finished@.len(),
            events@.len() == started@.len() + at,
            forall|k: int|
                0 <= k < started@.len() ==> events@[k] == Event::CollisionStarted(
                    [started@[k].0, started@[k].1],
                ),
            forall|k: int|
                0 <= k < at ==> events@[started@.len() + k] == Event::CollisionFinished(
                    [finished@[k].0, finished@[k].1],
                ),
        decreases finished@.len() - at,
    {
        let pair = finished[at];
        events.push(Event::CollisionFinished([pair.0, pair.1]));
        at += 1;
    }
    assert(events@ =~= transition_events(previous@, current@));
    events
}

/// Physics infrastructure that remembers the colliding pairs of the tick
/// before and reports how they change
pub struct Physics<B, C> {
    colliders: Table<ColliderGroup<B, C>>,
    collisions: Vec<(EntityId, EntityId)>,
}

impl<B, C> Physics<B, C> {
    /// The entities that take part in collision detection, with their
    /// colliders, in the order of their ids.
    pub closed spec fn colliders(&self) -> Seq<(EntityId, ColliderGroup<B, C>)> {
        self.colliders@
    }

    /// The pairs that collided at the last tick.
    pub closed spec fn collisions(&self) -> Seq<(EntityId, EntityId)> {
        self.collisions@
    }

    /// The colliders are kept in the order of the entity ids.
    pub closed spec fn wf(&self) -> bool {
        self.colliders.wf()
    }

    /// What `wf` says of the colliders.
    pub proof fn lemma_wf(&self)
        requires
            self.wf(),
        ensures
            increasing(self.colliders()),
    {
    }

    /// Creates new instance of [Physics], which knows no entity and no
    /// collision
    pub fn new() -> (physics: Self)
        ensures
            physics.wf(),
            physics.colliders().len() == 0,
            physics.collisions().len() == 0,
    {
        Physics { colliders: Table::new(), collisions: Vec::new() }
    }

    /// Takes note of an event of the entity store. For a created entity
    /// `transform` is asked for its colliders, which are kept if it has any;
    /// a destroyed entity is forgotten; any other event changes nothing
    pub fn handle_event<E, S, F: Fn(EntityId, &E) -> Option<ColliderGroup<B, C>>>(
        &mut self,
        event: &Event,
        ecs: &ECS<E, S>,
        transform: &F,
    )
        requires
            old(self).wf(),
            transformable(ecs.entities(), *transform),
        ensures
            final(self).wf(),
            final(self).collisions() == old(self).collisions(),
            match *event {
                Event::EntityCreated(entity_id) => if occupied(
                    ecs.entities(),
                    entity_id as int,
                ) {
                    let entity = ecs.entities()[entity_id as int].unwrap();
                    ||| {
                        &&& call_ensures(*transform, (entity_id, &entity), None)
                        &&& final(self).colliders() == old(self).colliders()
                    }
                    ||| {
                        &&& value_of(final(self).colliders(), entity_id) matches Some(group)
                        &&& call_ensures(*transform, (entity_id, &entity), Some(group))
                        &&& final(self).colliders() == put(
                            old(self).colliders(),
                            entity_id,
                            group,
                        )
                    }
                } else {
                    final(self).colliders() == old(self).colliders()
                },
                Event::EntityDestroyed(entity_id) => final(self).colliders() == without(
                    old(self).colliders(),
                    entity_id,
                ),
                _ => final(self).colliders() == old(self).colliders(),
            },
    {
        match event {
            Event::EntityCreated(entity_id) => {
                match ecs.get_entity(*entity_id) {
                    Some(entity) => {
                        match transform(*entity_id, entity) {
                            Some(group) => {
                                proof {
                                    lemma_put(self.colliders@, *entity_id, group, *entity_id);
                                }
                                let _ = self.colliders.insert(*entity_id, group);
                            },
                            None => {},
                        }
                    },
                    None => {},
                }
            },
            Event::EntityDestroyed(entity_id) => {
                let _ = self.colliders.remove(*entity_id);
            },
            _ => {},
        }
    }

    /// Brings the colliders up to date: every entity that is still there has
    /// its colliders refreshed by `refresh`, every other keeps what it had
    #[verifier::rlimit(50)]
    pub fn update<E, S, F: Fn(&E, ColliderGroup<B, C>) -> ColliderGroup<B, C>>(
        &mut self,
        ecs: &ECS<E, S>,
        refresh: &F,
    )
        requires
            old(self).wf(),
            forall|entity: E, group: ColliderGroup<B, C>| call_requires(*refresh, (&entity, group)),
        ensures
            final(self).wf(),
            final(self).collisions() == old(self).collisions(),
            final(self).colliders().len() == old(self).colliders().len(),
            forall|k: int|
                0 <= k < old(self).colliders().len() ==> {
                    let before = (#[trigger] old(self).colliders()[k]);
                    let after = final(self).colliders()[k];
                    &&& after.0 == before.0
                    &&& if occupied(ecs.entities(), before.0 as int) {
                        call_ensures(
                            *refresh,
                            (&ecs.entities()[before.0 as int].unwrap(), before.1),
                            after.1,
                        )
                    } else {
                        after.1 == before.1
                    }
                },
    {
        let mut colliders: Table<ColliderGroup<B, C>> = Table::new();
        std::mem::swap(&mut colliders, &mut self.colliders);
        let entries = colliders.into_entries();
        let ghost all = entries@;
        for entry in it: entries
            invariant
                it.seq() == all,
                all == old(self).colliders@,
                increasing(all),
                forall|entity: E, group: ColliderGroup<B, C>|
                    call_requires(*refresh, (&entity, group)),
                self.colliders.wf(),
                self.collisions == old(self).collisions,
                self.colliders@.len() == it.index(),
                forall|k: int|
                    0 <= k < it.index() ==> {
                        let before = (#[trigger] all[k]);
                        let after = self.colliders@[k];
                        &&& after.0 == before.0
                        &&& if occupied(ecs.entities(), before.0 as int) {
                            call_ensures(
                                *refresh,
                                (&ecs.entities()[before.0 as int].unwrap(), before.1),
                                after.1,
                            )
                        } else {
                            after.1 == before.1
                        }
                    },
        {
            let ghost done = self.colliders@;
            let (entity_id, group) = entry;
            let group = match ecs.get_entity(entity_id) {
                Some(entity) => refresh(entity, group),
                None => group,
            };
            proof {
                assert forall|k: int| 0 <= k < done.len() implies (#[trigger] done[k]).0
                    < entity_id by {
                    assert(done[k].0 == all[k].0);
                    assert(all[k].0 < all[it.index() as int].0);
                }
            }
            self.colliders.append(entity_id, group);
            proof {
                assert forall|k: int| 0 <= k < it.index() + 1 implies {
                    let before = (#[trigger] all[k]);
                    let after = self.colliders@[k];
                    &&& after.0 == before.0
                    &&& if occupied(ecs.entities(), before.0 as int) {
                        call_ensures(
                            *refresh,
                            (&ecs.entities()[before.0 as int].unwrap(), before.1),
                            after.1,
                        )
                    } else {
                        after.1 == before.1
                    }
                } by {
                    if k < it.index() {
                        assert(self.colliders@[k] == done[k]);
                    }
                }
            }
        }
    }

    /// Finds the pairs that collide now, lists the notifications that the
    /// change since the last tick owes, and remembers the pairs for the next
    pub fn resolve<P: Fn(&B, &B) -> bool, N: Fn(&C, &C) -> bool>(
        &mut self,
        broad: &P,
        narrow: &N,
    ) -> (events: Vec<Event>)
        requires
            old(self).wf(),
            all_askable(old(self).colliders(), *broad, *narrow),
        ensures
            final(self).wf(),
            final(self).colliders() == old(self).colliders(),
            detected(old(self).colliders(), *broad, *narrow, final(self).collisions()),
            events@ == transition_events(old(self).collisions(), final(self).collisions()),
    {
        let current = detect(&self.colliders, broad, narrow);
        let events = transitions(&self.collisions, &current);
        self.collisions = current;
        events
    }
}

} // verus!
