//! The components of entities that hold no geometry.

use vstd::prelude::*;
use vstd::string::*;
use crate::assets::AssetRef;
use crate::ecs::EntityId;
use crate::random::{any_number, index_below, number_between};

verus! {

/// Reference to general entity pipeline asset
pub const ENTITY_PIPELINE_ASSET_REF: &'static str = "pipelines/entity";

/// Reference to spacecraft mesh asset
pub const SPACECRAFT_MESH_ASSET_REF: &'static str = "meshes/spacecraft";

/// Prefix of reference to asteroid mesh asset
pub const ASTEROID_MESH_ASSET_REF_PREFIX: &'static str = "meshes/asteroids/";

/// Reference to bullet mesh asset
pub const BULLET_MESH_ASSET_REF: &'static str = "meshes/bullet";

/// Count of segments in single asteroid
pub const ASTEROID_SEGMENTS_COUNT: usize = 8;

/// Component with bullet data
#[derive(Clone, Copy, Debug, PartialEq, Eq, Structural)]
pub struct BulletComponent {
    /// Identifier of entity that spawned bullet
    pub owner: EntityId,
}

impl Default for BulletComponent {
    /// A bullet that nobody has fired yet: no entity has the highest id
    fn default() -> (bullet: Self)
        ensures
            bullet.owner == EntityId::MAX,
    {
        BulletComponent { owner: EntityId::MAX }
    }
}

/// Component with data for the renderer
#[derive(Clone, Debug, PartialEq, Eq)]
pub struct RenderComponent {
    /// Reference to mesh asset
    pub mesh: AssetRef,
    /// Reference to pipeline asset
    pub pipeline: AssetRef,
}

impl RenderComponent {
    /// The render data of a spacecraft
    pub fn spacecraft() -> (render: RenderComponent)
        ensures
            render.mesh.name() == SPACECRAFT_MESH_ASSET_REF@,
            render.pipeline.name() == ENTITY_PIPELINE_ASSET_REF@,
    {
        RenderComponent {
            mesh: AssetRef::new(SPACECRAFT_MESH_ASSET_REF),
            pipeline: AssetRef::new(ENTITY_PIPELINE_ASSET_REF),
        }
    }

    /// The render data of a bullet
    pub fn bullet() -> (render: RenderComponent)
        ensures
            render.mesh.name() == BULLET_MESH_ASSET_REF@,
            render.pipeline.name() == ENTITY_PIPELINE_ASSET_REF@,
    {
        RenderComponent {
            mesh: AssetRef::new(BULLET_MESH_ASSET_REF),
            pipeline: AssetRef::new(ENTITY_PIPELINE_ASSET_REF),
        }
    }
}

/// The indices of an asteroid's mesh, whose vertex 0 is the centre and whose
/// vertices 1 to `segments` are the corners: one triangle per segment, from
/// the centre to a corner and on to the next corner, the last going back to
/// the first.
pub open spec fn fan_indices(segments: nat) -> Seq<u32> {
    Seq::new(
        3 * segments,
        |k: int|
            if k % 3 == 0 {
                0u32
            } else if k % 3 == 1 {
                (k / 3 + 1) as u32
            } else if k / 3 + 1 == segments {
                1u32
            } else {
                (k / 3 + 2) as u32
            },
    )
}

/// Lists the indices of an asteroid's mesh
pub fn asteroid_indices(segments: u32) -> (indices: Vec<u32>)
    requires
        3 * segments <= usize::MAX,
        segments < u32::MAX,
    ensures
        indices@ == fan_indices(segments as nat),
{
    let mut indices: Vec<u32> = Vec::new();
    let mut segment: u32 = 0;
    while segment < segments
        invariant
            segment <= segments,
            segments < u32::MAX,
            indices@.len() == 3 * segment,
            forall|k: int| 0 <= k < indices@.len() ==> indices@[k] == fan_indices(segments as nat)[k],
        decreases segments - segment,
    {
        let next: u32 = if segment + 1 == segments {
            1
        } else {
            segment + 2
        };
        indices.push(0);
        indices.push(segment + 1);
        indices.push(next);
        segment += 1;
    }
    assert(indices@ =~= fan_indices(segments as nat));
    indices
}

/// The character of a decimal digit.
pub open spec fn digit(value: nat) -> char {
    if value == 0 {
        '0'
    } else if value == 1 {
        '1'
    } else if value == 2 {
        '2'
    } else if value == 3 {
        '3'
    } else if value == 4 {
        '4'
    } else if value == 5 {
        '5'
    } else if value == 6 {
        '6'
    } else if value == 7 {
        '7'
    } else if value == 8 {
        '8'
    } else {
        '9'
    }
}

/// A number in decimal digits, the highest first and without leading zeros.
pub open spec fn decimal(number: nat) -> Seq<char>
    decreases number,
{
    if number < 10 {
        seq![digit(number)]
    } else {
        decimal(number / 10).push(digit(number % 10))
    }
}

/// Calls `ToString::to_string` of `u32`, which writes the number as `Display`
/// does: in decimal digits, the highest first and without leading zeros.
#[verifier::external_body]
fn number_text(number: u32) -> (text: String)
    ensures
        text@ == decimal(number as nat),
{
    number.to_string()
}

/// The reference to the mesh of the asteroid with the number given: the
/// prefix of asteroid meshes and the number in decimal digits
pub fn asteroid_mesh_ref(number: u32) -> (mesh: AssetRef)
    ensures
        mesh.name() == ASTEROID_MESH_ASSET_REF_PREFIX@ + decimal(number as nat),
{
    let mut name = ASTEROID_MESH_ASSET_REF_PREFIX.to_owned();
    let text = number_text(number);
    name.append(text.as_str());
    AssetRef(name)
}

/// The least size of an asteroid
pub const ASTEROID_SIZE_MIN: u32 = 1;

/// The greatest size of an asteroid
pub const ASTEROID_SIZE_MAX: u32 = 4;

/// Makes up the size of an asteroid
pub fn generate_size() -> (size: u32)
    ensures
        ASTEROID_SIZE_MIN <= size <= ASTEROID_SIZE_MAX,
{
    number_between(ASTEROID_SIZE_MIN, ASTEROID_SIZE_MAX)
}

/// Generates render component for asteroid: a mesh of its own, under a number
/// made up for it, and the pipeline of all entities
pub fn generate_render() -> (render: RenderComponent)
    ensures
        exists|number: u32|
            render.mesh.name() == ASTEROID_MESH_ASSET_REF_PREFIX@ + #[trigger] decimal(
                number as nat,
            ),
        render.pipeline.name() == ENTITY_PIPELINE_ASSET_REF@,
{
    let number = any_number();
    let mesh = asteroid_mesh_ref(number);
    RenderComponent { mesh, pipeline: AssetRef::new(ENTITY_PIPELINE_ASSET_REF) }
}

/// Picks one of the candidates by chance; there is nothing to pick where
/// there is no candidate
pub fn pick<T: Copy>(candidates: &Vec<T>) -> (picked: Option<T>)
    ensures
        match picked {
            Some(picked) => candidates@.contains(picked),
            None => candidates@.len() == 0,
        },
{
    match index_below(candidates.len()) {
        Some(index) => {
            let picked = candidates[index];
            assert(candidates@[index as int] == picked);
            Some(picked)
        },
        None => None,
    }
}

} // verus!
