use asteroids::dispatch::Event;
use asteroids::ecs::{Action, EntityId, StatelessSystem, SystemArgs, ECS};
use asteroids::physics::{
    barycentric_triangle_point_test, collect_colliders, collect_collisions, contains_pair, detect,
    difference, group_collisions, groups_collide, peers, store_collisions, transitions,
    triangle_point_collision_test, triangle_triangle_collision_test, Collider, ColliderGroup,
    Collision, Physics, Sign,
};
use asteroids::table::Table;

type Vector = (f32, f32);

#[derive(Clone, Copy, Debug, PartialEq)]
struct Point {
    center: Vector,
    radius: f32,
}

#[derive(Clone, Copy, Debug, PartialEq)]
struct Triangle {
    center: Vector,
    vertices: [Vector; 3],
    radius: f32,
}

type Shape = Collider<Point, Triangle>;

#[derive(Clone, Copy, Debug, PartialEq)]
struct Placement {
    position: Vector,
    rotation: f32,
}

#[derive(Clone, Copy, Debug, PartialEq)]
struct Bounds {
    origin: Vector,
    radius: f32,
}

struct Body {
    placement: Placement,
    radius: f32,
    colliders: Vec<Shape>,
    collisions: Vec<Collision>,
}

type Entity = Option<Body>;
type Mutation = Box<dyn FnOnce(Entity) -> Entity>;
type Delegate = Box<dyn for<'a> Fn(SystemArgs<'a, Entity, f32>) -> Option<Action<Mutation>>>;
type Store = ECS<Entity, StatelessSystem<Delegate>>;

fn distance(a: Vector, b: Vector) -> f32 {
    ((a.0 - b.0) * (a.0 - b.0) + (a.1 - b.1) * (a.1 - b.1)).sqrt()
}

fn sign(value: f32) -> Sign {
    if value < 0.0 {
        Sign::Negative
    } else if value > 0.0 {
        Sign::Positive
    } else {
        Sign::Zero
    }
}

fn determinant(point: Vector, v1: Vector, v2: Vector) -> f32 {
    (point.0 - v2.0) * (v1.1 - v2.1) - (point.1 - v2.1) * (v1.0 - v2.0)
}

fn determinants(point: Vector, triangle: &[Vector; 3]) -> [Sign; 3] {
    [
        sign(determinant(point, triangle[0], triangle[1])),
        sign(determinant(point, triangle[1], triangle[2])),
        sign(determinant(point, triangle[2], triangle[0])),
    ]
}

fn point_point(left: &Point, right: &Point) -> bool {
    distance(left.center, right.center) <= left.radius + right.radius
}

fn triangle_point(left: &Triangle, right: &Point) -> bool {
    triangle_point_collision_test(
        distance(left.center, right.center) <= left.radius + right.radius,
        determinants(right.center, &left.vertices),
    )
}

fn triangle_triangle(left: &Triangle, right: &Triangle) -> bool {
    let one_way = |from: &Triangle, to: &Triangle| {
        [
            determinants(from.vertices[0], &to.vertices),
            determinants(from.vertices[1], &to.vertices),
            determinants(from.vertices[2], &to.vertices),
        ]
    };
    triangle_triangle_collision_test(
        distance(left.center, right.center) <= left.radius + right.radius,
        one_way(left, right),
        one_way(right, left),
    )
}

fn narrow(left: &Shape, right: &Shape) -> bool {
    left.collision_test(right, &point_point, &triangle_point, &triangle_triangle)
}

fn broad(left: &Bounds, right: &Bounds) -> bool {
    distance(left.origin, right.origin) <= left.radius + right.radius
}

fn rotate(vector: Vector, rotation: f32) -> Vector {
    let (sin, cos) = rotation.sin_cos();
    (vector.0 * cos - vector.1 * sin, vector.0 * sin + vector.1 * cos)
}

fn move_point(point: &Point, placement: &Placement) -> Point {
    Point {
        center: (placement.position.0 + point.center.0, placement.position.1 + point.center.1),
        radius: point.radius,
    }
}

fn move_triangle(triangle: &Triangle, placement: &Placement) -> Triangle {
    let place = |vertex: Vector| {
        let turned = rotate(vertex, placement.rotation);
        (placement.position.0 + turned.0, placement.position.1 + turned.1)
    };
    Triangle {
        center: (
            placement.position.0 + triangle.center.0,
            placement.position.1 + triangle.center.1,
        ),
        vertices: [place(triangle.vertices[0]), place(triangle.vertices[1]), place(triangle.vertices[2])],
        radius: triangle.radius,
    }
}

fn transform(_: EntityId, entity: &Entity) -> Option<ColliderGroup<Bounds, Shape>> {
    let body = entity.as_ref()?;
    if body.colliders.is_empty() {
        return None;
    }
    Some(ColliderGroup {
        bounds: Bounds { origin: body.placement.position, radius: body.radius },
        colliders: body
            .colliders
            .iter()
            .map(|collider| collider.transform(&body.placement, &move_point, &move_triangle))
            .collect(),
    })
}

fn write(entity: Entity, collisions: &Vec<Collision>) -> Entity {
    entity.map(|mut body| {
        body.collisions = collisions.clone();
        body
    })
}

fn point_body(position: Vector, radius: f32) -> Entity {
    Some(Body {
        placement: Placement { position, rotation: 0.0 },
        radius,
        colliders: vec![Collider::Point(Point { center: (0.0, 0.0), radius })],
        collisions: Vec::new(),
    })
}

fn unit_triangle() -> Triangle {
    Triangle {
        center: (0.0, 0.0),
        vertices: [(0.0, 1.0), (1.0, -1.0), (-1.0, -1.0)],
        radius: 2.0f32.sqrt(),
    }
}

fn collisions_of(ecs: &Store, entity_id: EntityId) -> Vec<Collision> {
    ecs.get_entity(entity_id).unwrap().as_ref().unwrap().collisions.clone()
}

fn entries<V: Clone>(table: &Table<V>) -> Vec<(usize, V)> {
    (0..table.len()).map(|at| { let (key, value) = table.entry(at); (key, value.clone()) }).collect()
}

fn physics_tick(ecs: &mut Store) {
    let mut at = 0;
    while at < ecs.len() {
        ecs.visit_entity_mut(at, |entity: Entity| (write(entity, &Vec::new()), ()));
        at += 1;
    }
    let groups = collect_colliders(ecs, &transform);
    let collisions = collect_collisions(&groups, &broad, &narrow);
    store_collisions(ecs, &collisions, &write);
}

#[test]
fn two_points_within_the_sum_of_their_radii_collide() {
    let left = Point { center: (0.0, 0.0), radius: 0.6 };
    let right = Point { center: (1.0, 0.0), radius: 0.6 };
    assert!(narrow(&Collider::Point(left), &Collider::Point(right)));
    assert!(narrow(&Collider::Point(right), &Collider::Point(left)));
}

#[test]
fn two_points_beyond_the_sum_of_their_radii_do_not_collide() {
    let left = Point { center: (0.0, 0.0), radius: 0.4 };
    let right = Point { center: (1.0, 0.0), radius: 0.4 };
    assert!(!narrow(&Collider::Point(left), &Collider::Point(right)));
    assert!(!narrow(&Collider::Point(right), &Collider::Point(left)));
}

#[test]
fn a_point_inside_a_triangle_collides_with_it() {
    let triangle = Collider::Triangle(unit_triangle());
    let point = Collider::Point(Point { center: (0.0, 0.0), radius: 0.01 });
    assert!(narrow(&triangle, &point));
    assert!(narrow(&point, &triangle));
}

#[test]
fn a_point_far_outside_a_triangle_does_not_collide_with_it() {
    let triangle = Collider::Triangle(unit_triangle());
    let point = Collider::Point(Point { center: (0.0, -5.0), radius: 0.01 });
    assert!(!narrow(&triangle, &point));
    assert!(!narrow(&point, &triangle));
}

#[test]
fn a_point_on_an_edge_is_inside() {
    assert_eq!(determinants((0.0, -1.0), &unit_triangle().vertices).iter().filter(|s| **s == Sign::Zero).count(), 1);
    assert!(barycentric_triangle_point_test(determinants((0.0, -1.0), &unit_triangle().vertices)));
    assert!(barycentric_triangle_point_test(determinants((1.0, -1.0), &unit_triangle().vertices)));
    assert!(!barycentric_triangle_point_test(determinants((0.0, -1.001), &unit_triangle().vertices)));
}

#[test]
#[allow(non_snake_case)]
fn the_sign_test_rejects_only_mixed_signs() {
    let (N, P, Z) = (Sign::Negative, Sign::Positive, Sign::Zero);
    for signs in [[N, N, N], [P, P, P], [Z, Z, Z], [N, Z, N], [Z, P, P], [Z, Z, N], [P, Z, Z]] {
        assert!(barycentric_triangle_point_test(signs), "{:?}", signs);
    }
    for signs in [[N, P, P], [P, N, P], [P, P, N], [N, N, P], [N, Z, P], [P, Z, N], [Z, N, P]] {
        assert!(!barycentric_triangle_point_test(signs), "{:?}", signs);
    }
}

#[test]
#[allow(non_snake_case)]
fn the_radius_only_rejects() {
    let (N, P) = (Sign::Negative, Sign::Positive);
    assert!(!triangle_point_collision_test(false, [P, P, P]));
    assert!(triangle_point_collision_test(true, [P, P, P]));
    assert!(!triangle_point_collision_test(true, [N, P, P]));
    assert!(!triangle_triangle_collision_test(false, [[P, P, P]; 3], [[P, P, P]; 3]));
    assert!(!triangle_triangle_collision_test(true, [[N, P, P]; 3], [[P, N, P]; 3]));
    assert!(triangle_triangle_collision_test(true, [[N, P, P], [N, P, P], [P, P, P]], [[P, N, P]; 3]));
    assert!(triangle_triangle_collision_test(true, [[N, P, P]; 3], [[P, N, P], [N, N, N], [P, N, P]]));
}

#[test]
fn a_triangle_inside_another_collides_with_it() {
    let big = Triangle {
        center: (0.0, 0.0),
        vertices: [(0.0, 10.0), (10.0, -10.0), (-10.0, -10.0)],
        radius: 15.0,
    };
    let small = unit_triangle();
    assert!(triangle_triangle(&big, &small));
    assert!(triangle_triangle(&small, &big));
    let away = move_triangle(&small, &Placement { position: (40.0, 0.0), rotation: 0.0 });
    assert!(!triangle_triangle(&big, &away));
}

#[test]
fn a_point_is_moved_and_a_triangle_is_turned_and_moved() {
    let placement = Placement { position: (2.0, 3.0), rotation: std::f32::consts::FRAC_PI_2 };
    let point: Shape = Collider::Point(Point { center: (1.0, 0.0), radius: 0.5 });
    match point.transform(&placement, &move_point, &move_triangle) {
        Collider::Point(moved) => assert_eq!(moved, Point { center: (3.0, 3.0), radius: 0.5 }),
        Collider::Triangle(_) => panic!("a point stays a point"),
    }
    let triangle: Shape = Collider::Triangle(unit_triangle());
    match triangle.transform(&placement, &move_point, &move_triangle) {
        Collider::Triangle(moved) => {
            assert_eq!(moved.center, (2.0, 3.0));
            assert!(distance(moved.vertices[0], (1.0, 3.0)) < 1e-5);
            assert!(distance(moved.vertices[1], (3.0, 4.0)) < 1e-5);
            assert!(distance(moved.vertices[2], (3.0, 2.0)) < 1e-5);
        },
        Collider::Point(_) => panic!("a triangle stays a triangle"),
    }
}

#[test]
fn two_entities_collide_until_one_moves_away() {
    let mut ecs: Store = ECS::new();
    let a = ecs.create_entity(point_body((0.0, 0.0), 1.0));
    let b = ecs.create_entity(point_body((1.5, 0.0), 1.0));

    physics_tick(&mut ecs);
    assert_eq!(collisions_of(&ecs, a), vec![Collision(b)]);
    assert_eq!(collisions_of(&ecs, b), vec![Collision(a)]);

    ecs.visit_entity_mut(b, |entity: Entity| {
        let mut body = entity.unwrap();
        body.placement.position = (3.0, 0.0);
        (Some(body), ())
    });

    physics_tick(&mut ecs);
    assert_eq!(collisions_of(&ecs, a), vec![]);
    assert_eq!(collisions_of(&ecs, b), vec![]);
}

#[test]
fn collision_transitions_are_reported_once() {
    let mut ecs: Store = ECS::new();
    let a = ecs.create_entity(point_body((0.0, 0.0), 1.0));
    let b = ecs.create_entity(point_body((1.5, 0.0), 1.0));
    let mut physics: Physics<Bounds, Shape> = Physics::new();
    physics.handle_event(&Event::EntityCreated(a), &ecs, &transform);
    physics.handle_event(&Event::EntityCreated(b), &ecs, &transform);
    physics.handle_event(&Event::WindowResized([1, 1]), &ecs, &transform);
    physics.handle_event(&Event::EntityCreated(9), &ecs, &transform);

    let refresh = |entity: &Entity, group: ColliderGroup<Bounds, Shape>| transform(0, entity).unwrap_or(group);

    assert_eq!(physics.resolve(&broad, &narrow), vec![Event::CollisionStarted([a, b])]);
    assert_eq!(physics.resolve(&broad, &narrow), vec![]);

    ecs.visit_entity_mut(b, |entity: Entity| {
        let mut body = entity.unwrap();
        body.placement.position = (3.0, 0.0);
        (Some(body), ())
    });
    assert_eq!(physics.resolve(&broad, &narrow), vec![]);
    physics.update(&ecs, &refresh);
    assert_eq!(physics.resolve(&broad, &narrow), vec![Event::CollisionFinished([a, b])]);
    assert_eq!(physics.resolve(&broad, &narrow), vec![]);
}

#[test]
fn a_destroyed_entity_ends_its_collisions() {
    let mut ecs: Store = ECS::new();
    let a = ecs.create_entity(point_body((0.0, 0.0), 1.0));
    let b = ecs.create_entity(point_body((0.5, 0.0), 1.0));
    let c = ecs.create_entity(point_body((1.0, 0.0), 1.0));
    let mut physics: Physics<Bounds, Shape> = Physics::new();
    for entity_id in [c, a, b] {
        physics.handle_event(&Event::EntityCreated(entity_id), &ecs, &transform);
    }
    assert_eq!(
        physics.resolve(&broad, &narrow),
        vec![
            Event::CollisionStarted([a, b]),
            Event::CollisionStarted([a, c]),
            Event::CollisionStarted([b, c]),
        ]
    );

    ecs.destroy_entity(b);
    physics.handle_event(&Event::EntityDestroyed(b), &ecs, &transform);
    assert_eq!(
        physics.resolve(&broad, &narrow),
        vec![Event::CollisionFinished([a, b]), Event::CollisionFinished([b, c])]
    );
}

#[test]
fn collisions_are_symmetric() {
    let mut ecs: Store = ECS::new();
    let spots = [(0.0, 0.0), (1.5, 0.0), (3.0, 0.0), (10.0, 10.0), (1.5, 1.5), (10.5, 10.0), (-7.0, 2.0)];
    for spot in spots {
        ecs.create_entity(point_body(spot, 1.0));
    }
    ecs.destroy_entity(2);
    ecs.create_entity(Some(Body {
        placement: Placement { position: (1.0, 1.0), rotation: 0.3 },
        radius: 2.0,
        colliders: vec![Collider::Triangle(unit_triangle()), Collider::Point(Point { center: (0.0, 0.0), radius: 0.2 })],
        collisions: Vec::new(),
    }));
    ecs.create_entity(None);

    physics_tick(&mut ecs);

    let mut total = 0;
    for entity_id in 0..ecs.len() {
        let Some(Some(body)) = ecs.get_entity(entity_id) else { continue };
        let mut previous = None;
        for Collision(other) in body.collisions.iter() {
            total += 1;
            assert_ne!(*other, entity_id);
            assert!(previous < Some(*other));
            previous = Some(*other);
            assert!(collisions_of(&ecs, *other).contains(&Collision(entity_id)));
        }
    }
    assert!(total >= 6);
    assert_eq!(collisions_of(&ecs, 6), vec![]);
    assert_eq!(collisions_of(&ecs, 3), vec![Collision(5)]);
}

#[test]
fn the_collect_phase_keeps_only_entities_with_colliders() {
    let mut ecs: Store = ECS::new();
    ecs.create_entity(point_body((0.0, 0.0), 1.0));
    ecs.create_entity(None);
    ecs.create_entity(point_body((4.0, 0.0), 2.0));
    ecs.create_entity(point_body((9.0, 0.0), 1.0));
    ecs.destroy_entity(3);

    let groups = collect_colliders(&ecs, &transform);
    assert_eq!(groups.len(), 2);
    assert_eq!(groups.entry(0).0, 0);
    assert_eq!(groups.entry(1).0, 2);
    assert_eq!(groups.entry(1).1.bounds, Bounds { origin: (4.0, 0.0), radius: 2.0 });
    assert!(matches!(groups.entry(1).1.colliders[0], Collider::Point(Point { center: (4.0, 0.0), .. })));
}

#[test]
fn the_broad_phase_rejects_before_the_narrow_phase_is_asked() {
    let asked = std::cell::Cell::new(0u32);
    let count = |left: &Shape, right: &Shape| {
        asked.set(asked.get() + 1);
        narrow(left, right)
    };
    let group = |origin: Vector| ColliderGroup {
        bounds: Bounds { origin, radius: 1.0 },
        colliders: vec![
            Collider::Point(Point { center: origin, radius: 0.1 }),
            Collider::Point(Point { center: (origin.0 + 0.5, origin.1), radius: 0.1 }),
        ],
    };
    assert!(!groups_collide(&group((0.0, 0.0)), &group((5.0, 0.0)), &broad, &count));
    assert_eq!(asked.get(), 0);
    assert!(!groups_collide(&group((0.0, 0.0)), &group((1.5, 0.0)), &broad, &count));
    assert_eq!(asked.get(), 4);
    asked.set(0);
    assert!(groups_collide(&group((0.0, 0.0)), &group((0.5, 0.0)), &broad, &count));
    assert_eq!(asked.get(), 3);
}

#[test]
fn every_pair_is_tested_once_and_listed_lower_id_first() {
    let asked = std::cell::RefCell::new(Vec::new());
    let always = |left: &Bounds, right: &Bounds| {
        asked.borrow_mut().push((left.origin.0 as usize, right.origin.0 as usize));
        true
    };
    let mut groups: Table<ColliderGroup<Bounds, Shape>> = Table::new();
    for entity_id in [7usize, 2, 5] {
        groups.insert(
            entity_id,
            ColliderGroup {
                bounds: Bounds { origin: (entity_id as f32, 0.0), radius: 1.0 },
                colliders: vec![Collider::Point(Point { center: (0.0, 0.0), radius: 1.0 })],
            },
        );
    }
    let pairs = detect(&groups, &always, &narrow);
    assert_eq!(pairs, vec![(2, 5), (2, 7), (5, 7)]);
    assert_eq!(*asked.borrow(), vec![(2, 5), (2, 7), (5, 7)]);
}

#[test]
fn pairs_are_grouped_by_entity() {
    let pairs = vec![(1usize, 2usize), (1, 4), (2, 4), (3, 9)];
    assert_eq!(peers(&pairs, 1), vec![Collision(2), Collision(4)]);
    assert_eq!(peers(&pairs, 4), vec![Collision(1), Collision(2)]);
    assert_eq!(peers(&pairs, 2), vec![Collision(1), Collision(4)]);
    assert_eq!(peers(&pairs, 5), vec![]);

    let mut groups: Table<()> = Table::new();
    for entity_id in [1usize, 2, 3, 4, 5, 9] {
        groups.insert(entity_id, ());
    }
    let grouped = group_collisions(&groups, &pairs);
    assert_eq!(
        entries(&grouped),
        vec![
            (1, vec![Collision(2), Collision(4)]),
            (2, vec![Collision(1), Collision(4)]),
            (3, vec![Collision(9)]),
            (4, vec![Collision(1), Collision(2)]),
            (9, vec![Collision(3)]),
        ]
    );
}

#[test]
fn transitions_list_what_started_and_then_what_finished() {
    let previous = vec![(1usize, 2usize), (2, 3), (4, 5)];
    let current = vec![(1usize, 3usize), (2, 3), (4, 6)];
    assert_eq!(difference(&current, &previous), vec![(1, 3), (4, 6)]);
    assert_eq!(difference(&previous, &current), vec![(1, 2), (4, 5)]);
    assert_eq!(difference(&previous, &previous), vec![]);
    assert!(contains_pair(&previous, (2, 3)));
    assert!(!contains_pair(&previous, (3, 2)));
    assert_eq!(
        transitions(&previous, &current),
        vec![
            Event::CollisionStarted([1, 3]),
            Event::CollisionStarted([4, 6]),
            Event::CollisionFinished([1, 2]),
            Event::CollisionFinished([4, 5]),
        ]
    );
    assert_eq!(transitions(&current, &current), vec![]);
}

#[test]
fn collisions_of_an_entity_that_is_gone_are_dropped() {
    let mut ecs: Store = ECS::new();
    let a = ecs.create_entity(point_body((0.0, 0.0), 1.0));
    let b = ecs.create_entity(point_body((0.5, 0.0), 1.0));
    let groups = collect_colliders(&ecs, &transform);
    let collisions = collect_collisions(&groups, &broad, &narrow);
    ecs.destroy_entity(b);
    ecs.take_events();

    store_collisions(&mut ecs, &collisions, &write);

    assert_eq!(collisions_of(&ecs, a), vec![Collision(b)]);
    assert!(ecs.get_entity(b).is_none());
    assert_eq!(ecs.take_events(), vec![]);
}
