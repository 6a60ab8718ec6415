use asteroids::assets::AssetRef;
use asteroids::game::controller::{
    CameraZoomDirection, SpacecraftAccelerationDirection, SpacecraftInclineDirection,
};
use asteroids::game::entities::{asteroid_indices, BulletComponent, RenderComponent};
use asteroids::game_common::{GamePlayer, GamePlayers};
use asteroids::registry::Registry;
use asteroids::rendering::buffer::{BufferData, BufferUsage};
use asteroids::rendering::commands::CommandListUsage;
use asteroids::rendering::image::{ImageFormat, ImageUsage};
use asteroids::rendering::physical_device::{surface_image_count, QueueFamilyType};
use asteroids::rendering::pipeline::{InputDataAttribute, InputDataBinding, InputDataFormat, InputDataRate};
use asteroids::rendering::render_graph::{
    Arg, Attachment, AttachmentLoadOp, AttachmentStoreOp, Attachments, ClearValue, Operation,
    OperationContext, PassBuilder, RenderGraphBuilder, StatefulOperation, Target,
};
use asteroids::rendering::renderer::Renderer;

#[test]
fn an_asset_reference_is_the_name_of_the_asset() {
    let mesh = AssetRef::new("meshes/bullet");
    assert_eq!(mesh.as_str(), "meshes/bullet");
    assert_eq!(mesh, AssetRef::from("meshes/bullet".to_string()));
    assert!(mesh.same(&AssetRef::new("meshes/bullet")));
    assert!(!mesh.same(&AssetRef::new("meshes/bulle")));
    assert!(AssetRef::new("a") < AssetRef::new("b"));
}

#[test]
fn entities_are_rendered_with_the_entity_pipeline() {
    assert_eq!(RenderComponent::spacecraft().mesh.as_str(), "meshes/spacecraft");
    assert_eq!(RenderComponent::spacecraft().pipeline.as_str(), "pipelines/entity");
    assert_eq!(RenderComponent::bullet().mesh.as_str(), "meshes/bullet");
    assert_eq!(RenderComponent::bullet().pipeline.as_str(), "pipelines/entity");
    assert_eq!(BulletComponent::default().owner, usize::MAX);
}

#[test]
fn an_asteroid_mesh_is_a_fan_around_its_centre() {
    assert_eq!(
        asteroid_indices(8),
        vec![0, 1, 2, 0, 2, 3, 0, 3, 4, 0, 4, 5, 0, 5, 6, 0, 6, 7, 0, 7, 8, 0, 8, 1]
    );
    assert_eq!(asteroid_indices(3), vec![0, 1, 2, 0, 2, 3, 0, 3, 1]);
    assert_eq!(asteroid_indices(1), vec![0, 1, 1]);
    assert_eq!(asteroid_indices(0), Vec::<u32>::new());
}

#[test]
fn a_player_loses_the_spacecraft_that_is_destroyed() {
    let mut players = GamePlayers::new();
    let first = players.new_player();
    let second = players.new_player();
    let third = players.new_player();
    assert_eq!((first, second, third), (0, 1, 2));
    assert_eq!(players.get_player(first), Some(GamePlayer { spacecraft_id: None, score: 0 }));

    assert!(players.set_spacecraft(first, Some(10)));
    assert!(players.set_spacecraft(second, Some(11)));
    assert!(players.set_spacecraft(third, Some(11)));
    assert!(!players.set_spacecraft(9, Some(12)));

    players.handle_entity_destroy(11);
    assert_eq!(players.get_player(first).unwrap().spacecraft_id, Some(10));
    assert_eq!(players.get_player(second).unwrap().spacecraft_id, None);
    assert_eq!(players.get_player(third).unwrap().spacecraft_id, Some(11));

    players.handle_entity_destroy(99);
    assert_eq!(players.get_player(first).unwrap().spacecraft_id, Some(10));

    players.kick_player(second);
    players.kick_player(second);
    assert_eq!(players.get_player(second), None);
    assert_eq!(players.new_player(), 3);
}

#[test]
fn directions_are_told_apart() {
    assert_ne!(CameraZoomDirection::In, CameraZoomDirection::Out);
    assert_ne!(SpacecraftAccelerationDirection::Forward, SpacecraftAccelerationDirection::Backward);
    assert_ne!(SpacecraftInclineDirection::Left, SpacecraftInclineDirection::Right);
    assert_ne!(BufferUsage::Vertex, BufferUsage::Index);
    assert_ne!(BufferUsage::Index, BufferUsage::Uniform);
    assert_ne!(CommandListUsage::Once, CommandListUsage::Multiple);
    assert_ne!(InputDataRate::PerVertex, InputDataRate::PerInstance);
    assert_ne!(AttachmentStoreOp::Ignore, AttachmentStoreOp::Store);
}

#[test]
fn buffer_data_knows_its_length() {
    assert_eq!(BufferData::Value(7u32).len(), 1);
    assert_eq!(BufferData::<u32>::EmptySlice(12).len(), 12);
    assert_eq!(BufferData::Slice(&[1u8, 2, 3]).len(), 3);
    assert_eq!(BufferData::<u8>::Slice(&[]).len(), 0);
}

#[test]
fn image_formats_and_usages() {
    assert_eq!(ImageFormat::Y.channels(), 1);
    assert_eq!(ImageFormat::YA.channels(), 2);
    assert_eq!(ImageFormat::RGB.channels(), 3);
    assert_eq!(ImageFormat::RGBA.channels(), 4);

    let color = ImageUsage { color_attachment: true, depth_attachment: false };
    let depth = ImageUsage { color_attachment: false, depth_attachment: true };
    assert_eq!(ImageUsage::empty().bits(), 0);
    assert_eq!(color.bits(), 1);
    assert_eq!(depth.bits(), 2);
    assert_eq!(color.union(depth).bits(), 3);
    assert!(color.union(depth).contains(color));
    assert!(color.contains(ImageUsage::empty()));
    assert!(!color.contains(depth));
}

#[test]
fn a_binding_is_consistent_when_its_attributes_fit_its_stride() {
    let attribute = |offset| InputDataAttribute { offset, format: InputDataFormat::Vec2 };
    let binding = |stride, attributes| InputDataBinding { stride, rate: InputDataRate::PerVertex, attributes };
    assert_eq!(InputDataFormat::Vec2.size(), 8);
    assert!(binding(8, vec![attribute(0)]).is_consistent());
    assert!(binding(16, vec![attribute(0), attribute(8)]).is_consistent());
    assert!(!binding(16, vec![attribute(0), attribute(9)]).is_consistent());
    assert!(!binding(7, vec![attribute(0)]).is_consistent());
    assert!(!binding(8, vec![attribute(usize::MAX)]).is_consistent());
    assert!(binding(0, vec![]).is_consistent());
}

#[test]
fn a_swapchain_asks_for_one_image_more_than_the_least() {
    assert_eq!(surface_image_count(2, None), 3);
    assert_eq!(surface_image_count(2, Some(8)), 3);
    assert_eq!(surface_image_count(2, Some(3)), 3);
    assert_eq!(surface_image_count(2, Some(2)), 2);
    assert_eq!(surface_image_count(0, Some(0)), 0);
    assert_eq!(QueueFamilyType::from_ordinal(QueueFamilyType::Present.ordinal()), Some(QueueFamilyType::Present));
    assert_eq!(QueueFamilyType::from_ordinal(QueueFamilyType::Graphics.ordinal()), Some(QueueFamilyType::Graphics));
    assert_eq!(QueueFamilyType::from_ordinal(2), None);
}

type Recorded = Vec<String>;
type Draw = Box<dyn for<'a, 'b> Fn(&'b u32, OperationContext<'a, Recorded, u8>)>;

fn draw() -> StatefulOperation<u32, Draw> {
    StatefulOperation::new(
        7,
        Box::new(|state: &u32, context: OperationContext<'_, Recorded, u8>| {
            let view = match context.args.get("view_entity_id") {
                Some(Arg::EntityId(entity_id)) => *entity_id,
                None => usize::MAX,
            };
            context.command_list.push(format!(
                "draw {} of {} onto {:?}/{:?}",
                state, view, context.attachments.color, context.attachments.depth
            ));
        }),
    )
}

fn attachment(target: &str) -> Attachment {
    Attachment {
        target: target.to_string(),
        load_op: AttachmentLoadOp::Clear(ClearValue::Float([0, 0, 0, 1.0f32.to_bits()])),
        store_op: AttachmentStoreOp::Store,
    }
}

#[test]
fn an_operation_writes_into_the_command_list_of_its_context() {
    let mut recorded: Recorded = Vec::new();
    let mut args: Registry<Arg> = Registry::new();
    args.insert("view_entity_id".to_string(), Arg::EntityId(3));
    draw().invoke(OperationContext {
        command_list: &mut recorded,
        args: &args,
        attachments: Attachments { color: vec![1, 2], depth: None },
    });
    assert_eq!(recorded, vec!["draw 7 of 3 onto [1, 2]/None".to_string()]);
}

#[test]
fn a_pass_is_built_once_it_has_an_operation() {
    assert!(PassBuilder::<u8>::default().add_color(attachment("swapchain")).build().is_none());
    let pass = PassBuilder::new()
        .add_color(attachment("swapchain"))
        .add_color(attachment("other"))
        .set_depth(attachment("depth"))
        .set_operation(5u8)
        .set_operation(6u8)
        .build()
        .unwrap();
    assert_eq!(pass.color.len(), 2);
    assert_eq!(pass.color[1].target, "other");
    assert_eq!(pass.depth.unwrap().target, "depth");
    assert_eq!(pass.operation, 6);
    assert_eq!(pass.color[0].load_op.clear_value(), Some(ClearValue::Float([0, 0, 0, 0x3f80_0000])));
    assert_eq!(AttachmentLoadOp::Load.clear_value(), None);
    assert_eq!(AttachmentLoadOp::Ignore.clear_value(), None);
}

#[test]
fn a_graph_resolves_when_every_attachment_names_a_target() {
    let graph = RenderGraphBuilder::default()
        .add_target("swapchain", Target::Swapchain)
        .add_pass(|pass: PassBuilder<u8>| pass.add_color(attachment("swapchain")).set_operation(1))
        .add_pass(|pass: PassBuilder<u8>| pass.set_depth(attachment("swapchain")).set_operation(2))
        .build();
    assert_eq!(graph.passes.len(), 2);
    assert_eq!(graph.passes[1].operation, 2);
    assert_eq!(graph.targets.len(), 1);
    assert!(graph.is_resolved());

    let dangling = RenderGraphBuilder::new()
        .add_target("swapchain", Target::Swapchain)
        .add_pass(|pass: PassBuilder<u8>| pass.add_color(attachment("swapchain")).add_color(attachment("shadow")).set_operation(1))
        .build();
    assert!(!dangling.is_resolved());

    let deep = RenderGraphBuilder::new()
        .add_pass(|pass: PassBuilder<u8>| pass.set_depth(attachment("depth")).set_operation(1))
        .build();
    assert!(!deep.is_resolved());
    assert!(RenderGraphBuilder::<u8>::new().build().is_resolved());
}

#[test]
fn a_renderer_keeps_its_graphs_in_the_order_of_their_names() {
    let graph = |operation: u8| {
        RenderGraphBuilder::new()
            .add_target("swapchain", Target::Swapchain)
            .add_pass(move |pass: PassBuilder<u8>| pass.add_color(attachment("swapchain")).set_operation(operation))
            .build()
    };
    let mut renderer: Renderer<u8> = Renderer::new();
    renderer.add_graph("overlay", graph(1), vec![]);
    renderer.add_graph(
        "default",
        graph(2),
        vec![
            ("view_entity_id".to_string(), Arg::EntityId(1)),
            ("light".to_string(), Arg::EntityId(2)),
            ("view_entity_id".to_string(), Arg::EntityId(3)),
        ],
    );
    renderer.add_graph("overlay", graph(4), vec![("view_entity_id".to_string(), Arg::EntityId(9))]);

    assert_eq!(renderer.len(), 2);
    let (name, entry) = renderer.entry(0);
    assert_eq!(name, "default");
    assert_eq!(entry.graph.passes[0].operation, 2);
    assert_eq!(entry.args.len(), 2);
    assert_eq!(entry.args.get("view_entity_id"), Some(&Arg::EntityId(3)));
    assert_eq!(entry.args.get("light"), Some(&Arg::EntityId(2)));
    let (name, entry) = renderer.entry(1);
    assert_eq!(name, "overlay");
    assert_eq!(entry.graph.passes[0].operation, 4);
    assert_eq!(entry.args.get("view_entity_id"), Some(&Arg::EntityId(9)));
}

#[test]
fn an_asteroid_mesh_is_named_by_its_number() {
    assert_eq!(asteroids::game::entities::asteroid_mesh_ref(17).as_str(), "meshes/asteroids/17");
    assert_eq!(asteroids::game::entities::asteroid_mesh_ref(0).as_str(), "meshes/asteroids/0");
    assert_eq!(asteroids::game::entities::asteroid_mesh_ref(10).as_str(), "meshes/asteroids/10");
    assert_eq!(
        asteroids::game::entities::asteroid_mesh_ref(u32::MAX).as_str(),
        "meshes/asteroids/4294967295"
    );
}

#[test]
fn a_generated_asteroid_has_a_mesh_of_its_own_and_a_size_within_bounds() {
    for _ in 0..50 {
        let render = asteroids::game::entities::generate_render();
        let number = render.mesh.as_str().strip_prefix("meshes/asteroids/").unwrap();
        assert_eq!(number.parse::<u32>().unwrap().to_string(), number);
        assert_eq!(render.pipeline.as_str(), "pipelines/entity");

        let size = asteroids::game::entities::generate_size();
        assert!((1..=4).contains(&size));
    }
}

#[test]
fn one_of_the_candidates_is_picked() {
    assert_eq!(asteroids::game::entities::pick(&Vec::<u8>::new()), None);
    assert_eq!(asteroids::game::entities::pick(&vec![7u8]), Some(7));
    let candidates = vec![3u8, 5, 9];
    let mut seen = [false; 3];
    for _ in 0..200 {
        let picked = asteroids::game::entities::pick(&candidates).unwrap();
        let at = candidates.iter().position(|candidate| *candidate == picked).unwrap();
        seen[at] = true;
    }
    assert_eq!(seen, [true; 3]);
}
