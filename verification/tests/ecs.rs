use std::cell::RefCell;
use std::rc::Rc;

use asteroids::ecs::{Action, EntityId, StatefulSystem, StatelessSystem, System, SystemArgs, ECS};
use asteroids::events::Event;

type Mutation = Box<dyn FnOnce(i64) -> i64>;
type Delegate = Box<dyn for<'a> Fn(SystemArgs<'a, i64, f32>) -> Option<Action<Mutation>>>;
type Store = ECS<i64, StatelessSystem<Delegate>>;

fn system(delegate: impl for<'a> Fn(SystemArgs<'a, i64, f32>) -> Option<Action<Mutation>> + 'static) -> StatelessSystem<Delegate> {
    StatelessSystem::new(Box::new(delegate))
}

fn ids(ecs: &Store) -> Vec<(EntityId, i64)> {
    let mut found = Vec::new();
    let mut iter = ecs.iter_entities();
    while let Some((entity_id, entity)) = iter.next() {
        found.push((entity_id, *entity));
    }
    found
}

#[test]
fn created_entities_get_consecutive_ids() {
    let mut ecs: Store = ECS::new();
    assert_eq!(ecs.create_entity(10), 0);
    assert_eq!(ecs.create_entity(11), 1);
    assert_eq!(ecs.create_entity(12), 2);
    assert_eq!(ecs.len(), 3);
    assert_eq!(ids(&ecs), vec![(0, 10), (1, 11), (2, 12)]);
}

#[test]
fn created_entity_takes_the_lowest_empty_slot() {
    let mut ecs: Store = ECS::new();
    for value in 0..5 {
        ecs.create_entity(value);
    }
    ecs.destroy_entity(3);
    ecs.destroy_entity(1);

    assert_eq!(ecs.create_entity(100), 1);
    assert_eq!(ecs.create_entity(101), 3);
    assert_eq!(ecs.create_entity(102), 5);
    assert_eq!(ids(&ecs), vec![(0, 0), (1, 100), (2, 2), (3, 101), (4, 4), (5, 102)]);
}

#[test]
fn created_entity_never_takes_an_occupied_id() {
    let mut ecs: Store = ECS::new();
    let mut live: Vec<EntityId> = Vec::new();
    for round in 0..40usize {
        if round % 3 == 2 {
            let victim = live.remove((round * 7) % live.len());
            ecs.destroy_entity(victim);
        } else {
            let lowest = (0..=ecs.len()).find(|id| !live.contains(id)).unwrap();
            let entity_id = ecs.create_entity(round as i64);
            assert!(!live.contains(&entity_id));
            assert_eq!(entity_id, lowest);
            live.push(entity_id);
        }
    }
}

#[test]
fn the_store_never_shrinks() {
    let mut ecs: Store = ECS::new();
    ecs.create_entity(1);
    ecs.create_entity(2);
    ecs.destroy_entity(1);
    ecs.destroy_entity(0);
    assert_eq!(ecs.len(), 2);
    assert_eq!(ids(&ecs), vec![]);
}

#[test]
fn create_and_destroy_owe_notifications() {
    let mut ecs: Store = ECS::new();
    let a = ecs.create_entity(1);
    let b = ecs.create_entity(2);
    ecs.destroy_entity(a);
    assert_eq!(
        ecs.take_events(),
        vec![Event::EntityCreated(a), Event::EntityCreated(b), Event::EntityDestroyed(a)]
    );
    assert_eq!(ecs.take_events(), vec![]);
}

#[test]
fn destroying_twice_changes_nothing_and_notifies_once() {
    let mut ecs: Store = ECS::new();
    ecs.create_entity(1);
    let b = ecs.create_entity(2);
    ecs.take_events();

    ecs.destroy_entity(b);
    assert_eq!(ecs.take_events(), vec![Event::EntityDestroyed(b)]);
    let after_first = ids(&ecs);

    ecs.destroy_entity(b);
    assert_eq!(ecs.take_events(), vec![]);
    assert_eq!(ids(&ecs), after_first);
    assert_eq!(ecs.len(), 2);
}

#[test]
fn destroying_an_id_that_was_never_created_changes_nothing() {
    let mut ecs: Store = ECS::new();
    ecs.create_entity(1);
    ecs.take_events();

    ecs.destroy_entity(7);
    ecs.destroy_entity(usize::MAX);

    assert_eq!(ecs.take_events(), vec![]);
    assert_eq!(ids(&ecs), vec![(0, 1)]);
    assert_eq!(ecs.len(), 1);
}

#[test]
fn get_and_visit_answer_absence_for_empty_slots() {
    let mut ecs: Store = ECS::new();
    let a = ecs.create_entity(5);
    let b = ecs.create_entity(6);
    ecs.destroy_entity(a);

    assert_eq!(ecs.get_entity(a), None);
    assert_eq!(ecs.get_entity(b), Some(&6));
    assert_eq!(ecs.get_entity(9), None);
    assert_eq!(ecs.visit_entity(b, |entity: &i64| *entity * 2), Some(12));
    assert_eq!(ecs.visit_entity(a, |entity: &i64| *entity * 2), None);
    assert_eq!(ecs.visit_entity_mut(b, |entity: i64| (entity + 1, entity)), Some(6));
    assert_eq!(ecs.get_entity(b), Some(&7));
    assert_eq!(ecs.visit_entity_mut(a, |entity: i64| (entity + 1, entity)), None);
    assert_eq!(ecs.visit_entity_mut(9, |entity: i64| (entity + 1, entity)), None);
    assert_eq!(ecs.take_events().len(), 3);
}

#[test]
fn iteration_skips_empty_slots_and_restarts() {
    let mut ecs: Store = ECS::new();
    for value in 0..4 {
        ecs.create_entity(value);
    }
    ecs.destroy_entity(0);
    ecs.destroy_entity(2);

    let mut iter = ecs.iter_entities();
    assert_eq!(iter.next(), Some((1, &1)));
    assert_eq!(iter.next(), Some((3, &3)));
    assert_eq!(iter.next(), None);
    assert_eq!(iter.next(), None);
    assert_eq!(ids(&ecs), vec![(1, 1), (3, 3)]);
}

#[test]
fn a_modification_is_not_seen_within_the_tick_and_is_seen_at_the_next() {
    let seen: Rc<RefCell<Vec<(String, EntityId, i64)>>> = Rc::new(RefCell::new(Vec::new()));
    let mut ecs: Store = ECS::new();
    let entity_id = ecs.create_entity(1);

    let log = seen.clone();
    ecs.add_system(
        "a_doubles",
        system(move |args| {
            log.borrow_mut().push(("a".to_string(), args.entity_id, *args.entity));
            Some(args.modify(Box::new(|entity: i64| entity * 2)))
        }),
    );
    let log = seen.clone();
    ecs.add_system(
        "b_reads",
        system(move |args| {
            let current = *args.get_entity(args.entity_id).unwrap();
            log.borrow_mut().push(("b".to_string(), args.entity_id, current));
            None
        }),
    );

    ecs.tick(0.5f32);
    assert_eq!(
        *seen.borrow(),
        vec![("a".to_string(), entity_id, 1), ("b".to_string(), entity_id, 1)]
    );
    assert_eq!(ecs.get_entity(entity_id), Some(&2));

    seen.borrow_mut().clear();
    ecs.tick(0.5f32);
    assert_eq!(
        *seen.borrow(),
        vec![("a".to_string(), entity_id, 2), ("b".to_string(), entity_id, 2)]
    );
    assert_eq!(ecs.get_entity(entity_id), Some(&4));
}

#[test]
fn systems_run_in_the_order_of_their_names_for_every_entity() {
    let seen: Rc<RefCell<Vec<(char, EntityId)>>> = Rc::new(RefCell::new(Vec::new()));
    let mut ecs: Store = ECS::new();
    ecs.create_entity(0);
    ecs.create_entity(0);
    ecs.create_entity(0);
    ecs.destroy_entity(1);

    for name in ["m", "z", "a"] {
        let log = seen.clone();
        let tag = name.chars().next().unwrap();
        ecs.add_system(
            name,
            system(move |args| {
                log.borrow_mut().push((tag, args.entity_id));
                None
            }),
        );
    }

    ecs.tick(0.0f32);
    assert_eq!(
        *seen.borrow(),
        vec![('a', 0), ('m', 0), ('z', 0), ('a', 2), ('m', 2), ('z', 2)]
    );
}

#[test]
fn a_system_added_twice_under_one_name_runs_once_and_can_be_removed() {
    let calls = Rc::new(RefCell::new(Vec::new()));
    let mut ecs: Store = ECS::new();
    ecs.create_entity(0);

    let log = calls.clone();
    ecs.add_system("only", system(move |_| { log.borrow_mut().push(1); None }));
    let log = calls.clone();
    ecs.add_system("only", system(move |_| { log.borrow_mut().push(2); None }));

    ecs.tick(0.0f32);
    assert_eq!(*calls.borrow(), vec![2]);

    ecs.remove_system("missing");
    ecs.remove_system("only");
    ecs.tick(0.0f32);
    assert_eq!(*calls.borrow(), vec![2]);
}

#[test]
fn actions_are_applied_in_the_order_in_which_they_were_enqueued() {
    let mut ecs: Store = ECS::new();
    let a = ecs.create_entity(1);
    let b = ecs.create_entity(10);
    ecs.take_events();

    ecs.add_system("1_add", system(|args| Some(args.modify(Box::new(|entity: i64| entity + 1)))));
    ecs.add_system("2_triple", system(|args| Some(args.modify(Box::new(|entity: i64| entity * 3)))));
    ecs.add_system(
        "3_destroy_big",
        system(|args| if *args.entity >= 10 { Some(args.destroy()) } else { None }),
    );
    ecs.add_system("4_negate", system(|args| Some(args.modify(Box::new(|entity: i64| -entity)))));

    ecs.tick(1.0f32);

    assert_eq!(ecs.get_entity(a), Some(&-6));
    assert_eq!(ecs.get_entity(b), None);
    assert_eq!(ecs.take_events(), vec![Event::EntityDestroyed(b)]);
    assert_eq!(ecs.len(), 2);
}

#[test]
fn an_action_on_an_entity_that_is_gone_is_dropped() {
    let mut ecs: Store = ECS::new();
    let a = ecs.create_entity(1);
    ecs.take_events();

    ecs.apply_actions(vec![
        Action::Destroy(a),
        Action::Modify(a, Box::new(|entity: i64| entity + 1) as Mutation),
        Action::Destroy(a),
        Action::Destroy(17),
        Action::Modify(17, Box::new(|entity: i64| entity + 1) as Mutation),
    ]);

    assert_eq!(ecs.get_entity(a), None);
    assert_eq!(ecs.take_events(), vec![Event::EntityDestroyed(a)]);
    assert_eq!(ecs.len(), 1);
}

#[test]
fn a_scan_changes_nothing() {
    let mut ecs: Store = ECS::new();
    ecs.create_entity(4);
    ecs.add_system("grow", system(|args| Some(args.modify(Box::new(|entity: i64| entity + 1)))));
    ecs.take_events();

    let actions: Vec<Action<Mutation>> = ecs.collect_actions(0.1f32);

    assert_eq!(actions.len(), 1);
    assert!(matches!(actions[0], Action::Modify(0, _)));
    assert_eq!(ecs.get_entity(0), Some(&4));
    assert_eq!(ecs.take_events(), vec![]);
}

#[test]
fn systems_get_the_elapsed_time_and_the_other_entities() {
    let seen = Rc::new(RefCell::new(Vec::new()));
    let mut ecs: Store = ECS::new();
    ecs.create_entity(7);
    ecs.create_entity(8);

    let log = seen.clone();
    ecs.add_system(
        "peek",
        system(move |args| {
            let other = if args.entity_id == 0 { 1 } else { 0 };
            log.borrow_mut().push((args.delta, args.get_entity(other).copied(), args.get_entity(5).copied()));
            None
        }),
    );
    ecs.tick(0.25f32);

    assert_eq!(*seen.borrow(), vec![(0.25f32, Some(8), None), (0.25f32, Some(7), None)]);
}

#[test]
fn a_stateful_system_hands_its_state_to_its_function() {
    type Stateful = StatefulSystem<i64, Box<dyn for<'a, 'b> Fn(SystemArgs<'a, i64, f32>, &'b i64) -> Option<Action<Mutation>>>>;
    let mut ecs: ECS<i64, Stateful> = ECS::new();
    ecs.create_entity(1);
    ecs.add_system(
        "add_state",
        StatefulSystem::new(
            40,
            Box::new(|args: SystemArgs<'_, i64, f32>, state: &i64| {
                let amount = *state;
                Some(args.modify(Box::new(move |entity: i64| entity + amount) as Mutation))
            }),
        ),
    );
    ecs.tick(0.0f32);
    assert_eq!(ecs.get_entity(0), Some(&41));
}

struct Countdown;

impl System<i64, f32, Mutation> for Countdown {
    fn invoke<'a>(&self, args: SystemArgs<'a, i64, f32>) -> Option<Action<Mutation>> {
        if *args.entity <= 0 {
            Some(args.destroy())
        } else {
            Some(args.modify(Box::new(|entity: i64| entity - 1)))
        }
    }
}

#[test]
fn a_system_of_the_callers_own_type_drives_the_tick() {
    let mut ecs: ECS<i64, Countdown> = ECS::new();
    let a = ecs.create_entity(1);
    let b = ecs.create_entity(0);
    ecs.add_system("countdown", Countdown);
    ecs.take_events();

    ecs.tick(0.0f32);
    assert_eq!(ecs.get_entity(a), Some(&0));
    assert_eq!(ecs.get_entity(b), None);
    ecs.tick(0.0f32);
    assert_eq!(ecs.get_entity(a), None);
    assert_eq!(ecs.take_events(), vec![Event::EntityDestroyed(b), Event::EntityDestroyed(a)]);
}

#[test]
fn slots_taken_out_and_put_back_keep_every_id() {
    let mut ecs: Store = ECS::new();
    for value in 0..6 {
        ecs.create_entity(value * 10);
    }
    ecs.destroy_entity(1);
    ecs.destroy_entity(4);
    let before = ids(&ecs);

    let slots = ecs.into_slots();
    assert_eq!(slots, vec![Some(0), None, Some(20), Some(30), None, Some(50)]);

    let mut restored: Store = ECS::from_slots(slots);
    assert_eq!(ids(&restored), before);
    assert_eq!(restored.len(), 6);
    assert_eq!(restored.create_entity(7), 1);
    assert_eq!(restored.take_events(), vec![Event::EntityCreated(1)]);
}
