//! The scene: what the renderer is shown of the entities.

use vstd::prelude::*;
use crate::ecs::EntityId;
use crate::events::Event;
use crate::table::{increasing, put, value_of, without, Table};

verus! {

/// Scene entity: the view of the world or a model in it, each with the data
/// that the renderer keeps of it
pub enum SceneEntity<V, M> {
    /// Variant with world view data
    View(V),
    /// Variant with model data
    Model(M),
}

impl<V, M> SceneEntity<V, M> {
    /// The view data, where the entity is a view
    pub fn as_view(&self) -> (view: Option<&V>)
        ensures
            match *self {
                SceneEntity::View(data) => view == Some(&data),
                SceneEntity::Model(_) => view is None,
            },
    {
        match self {
            SceneEntity::View(data) => Some(data),
            SceneEntity::Model(_) => None,
        }
    }

    /// The model data, where the entity is a model
    pub fn as_model(&self) -> (model: Option<&M>)
        ensures
            match *self {
                SceneEntity::View(_) => model is None,
                SceneEntity::Model(data) => model == Some(&data),
            },
    {
        match self {
            SceneEntity::View(_) => None,
            SceneEntity::Model(data) => Some(data),
        }
    }
}

/// A scene
pub struct Scene<V, M> {
    entities: Table<SceneEntity<V, M>>,
}

impl<V, M> Scene<V, M> {
    /// The scene entities under the ids of their entities, in the order of
    /// the ids.
    pub closed spec fn entities(&self) -> Seq<(EntityId, SceneEntity<V, M>)> {
        self.entities@
    }

    /// The scene entities stand in the order of the ids.
    pub open spec fn wf(&self) -> bool {
        increasing(self.entities())
    }

    /// Creates new instance of [Scene], which shows nothing
    pub fn new() -> (scene: Self)
        ensures
            scene.wf(),
            scene.entities().len() == 0,
    {
        Scene { entities: Table::new() }
    }

    /// Dispatches scene entity: it is what the scene shows of the entity from
    /// now on
    pub fn dispatch(&mut self, entity_id: EntityId, entity: SceneEntity<V, M>)
        requires
            old(self).wf(),
        ensures
            final(self).wf(),
            final(self).entities() == put(old(self).entities(), entity_id, entity),
    {
        let _ = self.entities.insert(entity_id, entity);
    }

    /// Gets what the scene shows of an entity
    pub fn get(&self, entity_id: EntityId) -> (entity: Option<&SceneEntity<V, M>>)
        requires
            self.wf(),
        ensures
            match entity {
                Some(entity) => value_of(self.entities(), entity_id) == Some(*entity),
                None => value_of(self.entities(), entity_id) is None,
            },
    {
        self.entities.get(entity_id)
    }

    /// Takes note of an event of the entity store: a destroyed entity is
    /// shown no more; any other event changes nothing
    pub fn handle_event(&mut self, event: &Event)
        requires
            old(self).wf(),
        ensures
            final(self).wf(),
            final(self).entities() == match *event {
                Event::EntityDestroyed(entity_id) => without(old(self).entities(), entity_id),
                _ => old(self).entities(),
            },
    {
        match event {
            Event::EntityDestroyed(entity_id) => {
                let _ = self.entities.remove(*entity_id);
            },
            _ => {},
        }
    }

    /// The number of scene entities
    pub fn len(&self) -> (len: usize)
        ensures
            len == self.entities().len(),
    {
        self.entities.len()
    }

    /// The id and the scene entity at a place in the order of ids
    pub fn entry(&self, at: usize) -> (entry: (EntityId, &SceneEntity<V, M>))
        requires
            at < self.entities().len(),
        ensures
            entry.0 == self.entities()[at as int].0,
            *entry.1 == self.entities()[at as int].1,
    {
        self.entities.entry(at)
    }
}

} // verus!
