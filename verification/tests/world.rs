use std::cell::RefCell;
use std::rc::Rc;

use asteroids::assets::{AssetRef, Assets};
use asteroids::ecs::{Action, EntityId, StatelessSystem, SystemArgs, ECS};
use asteroids::events::Event;
use asteroids::game_loop::{worker_func as run_loop, GameLogic, Loop, StatefulGameLogic};
use asteroids::physics::{worker_func as physics_tick, ColliderGroup, Collision};
use asteroids::rendering::physical_device::{
    find_queue_family, select_queue_families, PhysicalDevice, QueueFamilyType,
};
use asteroids::scene::{Scene, SceneEntity};
use asteroids::table::Table;

type Logic = StatefulGameLogic<u32, Box<dyn Fn(f32, &u32)>>;

fn logic(state: u32, log: &Rc<RefCell<Vec<(u32, f32)>>>) -> Logic {
    let log = log.clone();
    StatefulGameLogic::new(state, Box::new(move |elapsed: f32, state: &u32| log.borrow_mut().push((*state, elapsed))))
}

#[test]
fn game_logics_run_in_the_order_of_their_names() {
    let log = Rc::new(RefCell::new(Vec::new()));
    let mut game_loop: Loop<Logic> = Loop::default();
    game_loop.add_logic("players_respawn_game_logic", logic(3, &log));
    game_loop.add_logic("init_game_logic", logic(2, &log));
    game_loop.add_logic("asteroids_respawn_game_logic", logic(1, &log));
    game_loop.add_logic("init_game_logic", logic(4, &log));

    run_loop(&game_loop, 0.5f32);
    assert_eq!(*log.borrow(), vec![(1, 0.5), (4, 0.5), (3, 0.5)]);

    game_loop.remove_logic("init_game_logic");
    game_loop.remove_logic("unknown");
    log.borrow_mut().clear();
    run_loop(&game_loop, 0.25f32);
    assert_eq!(*log.borrow(), vec![(1, 0.25), (3, 0.25)]);
}

struct Ticks(RefCell<u32>);

impl GameLogic<u64> for Ticks {
    fn invoke(&self, elapsed: u64) {
        *self.0.borrow_mut() += elapsed as u32;
    }
}

#[test]
fn a_game_logic_of_the_callers_own_type_runs() {
    let mut game_loop: Loop<Ticks> = Loop::new();
    game_loop.add_logic("ticks", Ticks(RefCell::new(0)));
    run_loop(&game_loop, 3u64);
    run_loop(&game_loop, 4u64);
    let mut game_loop = game_loop;
    game_loop.add_logic("other", Ticks(RefCell::new(100)));
    run_loop(&game_loop, 1u64);
    run_loop(&Loop::<Ticks>::new(), 1u64);
}

#[test]
fn assets_are_kept_under_their_references() {
    let mut assets: Assets<u32> = Assets::new();
    assets.load(AssetRef::new("meshes/bullet"), 1);
    assets.load(AssetRef::new("meshes/asteroids/17"), 2);
    assets.load(AssetRef::new("meshes/bullet"), 3);

    assert_eq!(assets.get(&AssetRef::new("meshes/bullet")), Some(&3));
    assert_eq!(assets.get(&AssetRef::new("meshes/asteroids/17")), Some(&2));
    assert_eq!(assets.get(&AssetRef::new("meshes/asteroids/1")), None);

    assets.unload(&AssetRef::new("meshes/bullet"));
    assets.unload(&AssetRef::new("meshes/bullet"));
    assert_eq!(assets.get(&AssetRef::new("meshes/bullet")), None);
    assert_eq!(assets.get(&AssetRef::new("meshes/asteroids/17")), Some(&2));
}

#[test]
fn a_scene_shows_the_last_dispatch_of_every_entity() {
    let mut scene: Scene<&str, u32> = Scene::new();
    scene.dispatch(4, SceneEntity::Model(40));
    scene.dispatch(0, SceneEntity::View("camera"));
    scene.dispatch(4, SceneEntity::Model(41));
    scene.dispatch(2, SceneEntity::Model(20));

    assert_eq!(scene.len(), 3);
    assert_eq!(scene.entry(0).0, 0);
    assert_eq!(scene.entry(1).0, 2);
    assert_eq!(scene.entry(2).0, 4);
    assert_eq!(scene.get(0).and_then(|entity| entity.as_view()), Some(&"camera"));
    assert_eq!(scene.get(0).and_then(|entity| entity.as_model()), None);
    assert_eq!(scene.get(4).and_then(|entity| entity.as_model()), Some(&41));
    assert_eq!(scene.get(4).and_then(|entity| entity.as_view()), None);
    assert!(scene.get(3).is_none());

    scene.handle_event(&Event::EntityCreated(2));
    assert_eq!(scene.len(), 3);
    scene.handle_event(&Event::EntityDestroyed(2));
    scene.handle_event(&Event::EntityDestroyed(2));
    scene.handle_event(&Event::EntityDestroyed(9));
    assert_eq!(scene.len(), 2);
    assert!(scene.get(2).is_none());
    assert_eq!(scene.entry(1).0, 4);
}

#[test]
fn the_first_capable_queue_family_is_picked_for_every_type() {
    let families = vec![(false, false), (false, true), (true, true), (true, false)];
    assert_eq!(find_queue_family(&families, QueueFamilyType::Graphics), Some(2));
    assert_eq!(find_queue_family(&families, QueueFamilyType::Present), Some(1));
    let selected = select_queue_families(&families).unwrap();
    assert_eq!(selected.into_entries(), vec![(0, 2), (1, 1)]);

    assert!(select_queue_families(&vec![(true, false), (true, false)]).is_none());
    assert!(select_queue_families(&vec![(false, true)]).is_none());
    assert!(select_queue_families(&vec![]).is_none());
    assert_eq!(select_queue_families(&vec![(true, true)]).unwrap().into_entries(), vec![(0, 0), (1, 0)]);
}

fn device(queue_families: Table<u32>) -> PhysicalDevice<&'static str> {
    PhysicalDevice {
        handle: "device",
        device_type: asteroids::rendering::physical_device::DeviceKind::Cpu,
        queue_families,
        surface_format: vulkano::format::Format::R8G8B8A8_SRGB,
        surface_color_space: vulkano::swapchain::ColorSpace::SrgbNonLinear,
        surface_image_count: 3,
    }
}

#[test]
fn a_queue_family_index_names_the_first_type_that_has_it() {
    let split = device(select_queue_families(&vec![(false, true), (true, false)]).unwrap());
    assert_eq!(split.get_queue_family_type(1), Some(QueueFamilyType::Graphics));
    assert_eq!(split.get_queue_family_type(0), Some(QueueFamilyType::Present));
    assert_eq!(split.get_queue_family_type(2), None);

    let shared = device(select_queue_families(&vec![(true, true)]).unwrap());
    assert_eq!(shared.get_queue_family_type(0), Some(QueueFamilyType::Graphics));
    assert_eq!(shared.get_queue_family_type(1), None);
    assert_eq!(device(Table::new()).get_queue_family_type(0), None);
}

type Entity = (i32, Vec<Collision>);
type Mutation = Box<dyn FnOnce(Entity) -> Entity>;
type Delegate = Box<dyn for<'a> Fn(SystemArgs<'a, Entity, f32>) -> Option<Action<Mutation>>>;

#[test]
fn one_physics_tick_collects_detects_and_publishes() {
    let mut ecs: ECS<Entity, StatelessSystem<Delegate>> = ECS::new();
    for position in [0, 1, 5, 6, 20] {
        ecs.create_entity((position, Vec::new()));
    }
    ecs.destroy_entity(1);
    ecs.take_events();

    let transform = |_: EntityId, entity: &Entity| {
        Some(ColliderGroup { bounds: entity.0, colliders: vec![entity.0, entity.0 + 1] })
    };
    let broad = |left: &i32, right: &i32| (left - right).abs() <= 10;
    let narrow = |left: &i32, right: &i32| left == right;
    let write = |entity: Entity, collisions: &Vec<Collision>| (entity.0, collisions.clone());

    physics_tick(&mut ecs, &transform, &broad, &narrow, &write);

    assert_eq!(ecs.get_entity(0), Some(&(0, vec![])));
    assert_eq!(ecs.get_entity(1), None);
    assert_eq!(ecs.get_entity(2), Some(&(5, vec![Collision(3)])));
    assert_eq!(ecs.get_entity(3), Some(&(6, vec![Collision(2)])));
    assert_eq!(ecs.get_entity(4), Some(&(20, vec![])));
    assert_eq!(ecs.take_events(), vec![]);
}

#[test]
fn the_first_device_of_the_best_kind_is_picked() {
    let kinds = asteroids::rendering::physical_device::DeviceKind::Cpu;
    let discrete = asteroids::rendering::physical_device::DeviceKind::DiscreteGpu;
    let integrated = asteroids::rendering::physical_device::DeviceKind::IntegratedGpu;
    let virtual_gpu = asteroids::rendering::physical_device::DeviceKind::VirtualGpu;
    let other = asteroids::rendering::physical_device::DeviceKind::Other;
    let select = asteroids::rendering::physical_device::select_device;

    assert_eq!(select(&vec![]), None);
    assert_eq!(select(&vec![other]), Some(0));
    assert_eq!(select(&vec![kinds, integrated, other]), Some(1));
    assert_eq!(select(&vec![integrated, discrete, virtual_gpu, discrete]), Some(1));
    assert_eq!(select(&vec![virtual_gpu, kinds, virtual_gpu]), Some(0));
    assert_eq!(
        [discrete.rank(), virtual_gpu.rank(), integrated.rank(), kinds.rank(), other.rank()],
        [0, 1, 2, 3, 99]
    );
}

#[test]
fn a_device_knows_its_kind() {
    let mut device = device(Table::new());
    assert_eq!(device.kind(), asteroids::rendering::physical_device::DeviceKind::Cpu);
    for kind in [
        asteroids::rendering::physical_device::DeviceKind::DiscreteGpu,
        asteroids::rendering::physical_device::DeviceKind::VirtualGpu,
        asteroids::rendering::physical_device::DeviceKind::IntegratedGpu,
        asteroids::rendering::physical_device::DeviceKind::Cpu,
        asteroids::rendering::physical_device::DeviceKind::Other,
    ] {
        device.device_type = kind;
        assert_eq!(device.kind(), kind);
    }
}

#[test]
fn a_logical_device_is_created_with_every_queue_family_once() {
    let indices = asteroids::rendering::physical_device::queue_family_indices;
    assert_eq!(indices(&select_queue_families(&vec![(true, true)]).unwrap()), vec![0]);
    assert_eq!(indices(&select_queue_families(&vec![(false, true), (true, false)]).unwrap()), vec![0, 1]);
    assert_eq!(indices(&select_queue_families(&vec![(true, false), (false, false), (false, true)]).unwrap()), vec![0, 2]);
    assert_eq!(indices(&Table::new()), Vec::<u32>::new());
    let mut many: Table<u32> = Table::new();
    for (key, index) in [(0usize, 7u32), (1, 3), (2, 7), (3, 1), (4, 3)] {
        many.insert(key, index);
    }
    assert_eq!(indices(&many), vec![1, 3, 7]);
}
