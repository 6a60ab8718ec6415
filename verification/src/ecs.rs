//! The entity store, its systems and the tick that runs them.
//!
//! Entities live in slots addressed by index. A slot is occupied or empty; the
//! store only grows, a destroyed entity leaves its slot empty, and a created
//! one takes the lowest empty slot. Nothing here locks or sends: every
//! notification that an operation owes is appended to the store's outbox, from
//! which the caller takes it.

use vstd::prelude::*;
use crate::events::{Event, Sender};
use crate::registry::{inserted, removed, Registry};

verus! {

/// Identifier of entity: the index of its slot
pub type EntityId = usize;

/// The slot `id` exists and holds an entity.
pub open spec fn occupied<E>(slots: Seq<Option<E>>, id: int) -> bool {
    0 <= id < slots.len() && slots[id] is Some
}

/// `id` is the lowest index that holds no entity: an empty slot with only
/// occupied slots before it, or the index just past the last slot.
pub open spec fn lowest_free<E>(slots: Seq<Option<E>>, id: int) -> bool {
    &&& 0 <= id <= slots.len()
    &&& !occupied(slots, id)
    &&& forall|k: int| 0 <= k < id ==> occupied(slots, k)
}

/// The slots after `entity` was put at `id`.
pub open spec fn placed<E>(slots: Seq<Option<E>>, id: int, entity: E) -> Seq<Option<E>> {
    if id < slots.len() {
        slots.update(id, Some(entity))
    } else {
        slots.push(Some(entity))
    }
}

/// The slots after the entity at `id` was destroyed.
pub open spec fn cleared<E>(slots: Seq<Option<E>>, id: int) -> Seq<Option<E>> {
    if occupied(slots, id) {
        slots.update(id, None)
    } else {
        slots
    }
}

/// The notifications that destroying `id` owes.
pub open spec fn cleared_events<E>(slots: Seq<Option<E>>, id: EntityId) -> Seq<Event> {
    if occupied(slots, id as int) {
        seq![Event::EntityDestroyed(id)]
    } else {
        seq![]
    }
}

/// The occupied slot that `next` yields from position `from`: the first
/// occupied index at or behind it.
pub open spec fn next_occupied<E>(slots: Seq<Option<E>>, from: int) -> Option<int>
    decreases slots.len() - from,
{
    if from < 0 || from >= slots.len() {
        None
    } else if slots[from] is Some {
        Some(from)
    } else {
        next_occupied(slots, from + 1)
    }
}

/// Action over entity which the tick should perform, enqueued by a system
pub enum Action<M> {
    /// Modify entity
    Modify(EntityId, M),
    /// Destroy entity
    Destroy(EntityId),
}

impl<M> Action<M> {
    /// The entity that the action is about.
    pub open spec fn target(self) -> EntityId {
        match self {
            Action::Modify(entity_id, _) => entity_id,
            Action::Destroy(entity_id) => entity_id,
        }
    }

    /// A modification can be applied to whatever entity it meets.
    pub open spec fn total<E>(self) -> bool where M: FnOnce(E) -> E {
        match self {
            Action::Modify(_, func) => forall|entity: E| call_requires(func, (entity,)),
            Action::Destroy(_) => true,
        }
    }
}

/// System invocation arguments
pub struct SystemArgs<'a, E, D> {
    /// Time that passed since the previous tick
    pub delta: D,
    /// Current ID of entity
    pub entity_id: EntityId,
    /// Current entity
    pub entity: &'a E,
    /// All slots, as they were when the tick began
    pub entities: &'a Vec<Option<E>>,
}

impl<'a, E, D> SystemArgs<'a, E, D> {
    /// The current entity is the one in the slot `entity_id`.
    pub open spec fn wf(&self) -> bool {
        &&& occupied(self.entities@, self.entity_id as int)
        &&& self.entities@[self.entity_id as int] == Some(*self.entity)
    }

    /// These are the arguments for the entity `entity_id` of `entities` at a
    /// tick of `delta`.
    pub open spec fn stands_for(&self, delta: D, entity_id: EntityId, entities: Seq<Option<E>>) -> bool {
        &&& self.wf()
        &&& self.delta == delta
        &&& self.entity_id == entity_id
        &&& self.entities@ == entities
    }

    /// Gets entity by its ID
    pub fn get_entity(&self, entity_id: EntityId) -> (entity: Option<&'a E>)
        ensures
            match entity {
                Some(entity) => occupied(self.entities@, entity_id as int)
                    && self.entities@[entity_id as int] == Some(*entity),
                None => !occupied(self.entities@, entity_id as int),
            },
    {
        if entity_id < self.entities.len() {
            self.entities[entity_id].as_ref()
        } else {
            None
        }
    }

    /// Asks for a modification of the current entity
    pub fn modify<M>(self, func: M) -> (action: Action<M>)
        ensures
            action == Action::Modify(self.entity_id, func),
    {
        Action::Modify(self.entity_id, func)
    }

    /// Asks for the destruction of the current entity
    pub fn destroy<M>(self) -> (action: Action<M>)
        ensures
            action == Action::<M>::Destroy(self.entity_id),
    {
        Action::Destroy(self.entity_id)
    }
}

/// Trait of a system, which handles changes of single entity
///
/// A system reads the current entity and the others as they were when the tick
/// began, and answers with at most one action, which the tick performs after
/// every system has seen every entity.
pub trait System<E, D, M: FnOnce(E) -> E> {
    /// The system can be invoked for the entity `entity_id` of `entities`.
    /// A system that does not say otherwise can be invoked for every entity.
    open spec fn accepts(&self, delta: D, entity_id: EntityId, entities: Seq<Option<E>>) -> bool {
        true
    }

    /// `action` is an answer that the system may give for that entity. Of a
    /// system that does not say otherwise every answer is to be expected.
    open spec fn enqueues(
        &self,
        delta: D,
        entity_id: EntityId,
        entities: Seq<Option<E>>,
        action: Option<Action<M>>,
    ) -> bool {
        true
    }

    /// Invoke system
    fn invoke<'a>(&self, args: SystemArgs<'a, E, D>) -> (action: Option<Action<M>>)
        requires
            args.wf(),
            self.accepts(args.delta, args.entity_id, args.entities@),
        ensures
            self.enqueues(args.delta, args.entity_id, args.entities@, action),
            action matches Some(action) ==> action.total() && action.target() == args.entity_id,
    ;
}

/// Stateless [System] implementation
pub struct StatelessSystem<F> {
    delegate: F,
}

impl<F> StatelessSystem<F> {
    /// The function that the system calls.
    pub closed spec fn delegate(&self) -> F {
        self.delegate
    }

    /// Creates new instance of [StatelessSystem]
    pub fn new(delegate: F) -> (system: Self)
        ensures
            system.delegate() == delegate,
    {
        StatelessSystem { delegate }
    }
}

impl<E, D, M: FnOnce(E) -> E, F: for <'a>Fn(SystemArgs<'a, E, D>) -> Option<Action<M>>> System<
    E,
    D,
    M,
> for StatelessSystem<F> {
    open spec fn accepts(&self, delta: D, entity_id: EntityId, entities: Seq<Option<E>>) -> bool {
        forall|args: SystemArgs<E, D>| #[trigger]
            args.stands_for(delta, entity_id, entities) ==> {
                &&& call_requires(self.delegate(), (args,))
                &&& forall|action: Action<M>| #[trigger]
                    call_ensures(self.delegate(), (args,), Some(action)) ==> action.total()
                        && action.target() == entity_id
            }
    }

    open spec fn enqueues(
        &self,
        delta: D,
        entity_id: EntityId,
        entities: Seq<Option<E>>,
        action: Option<Action<M>>,
    ) -> bool {
        exists|args: SystemArgs<E, D>| #[trigger]
            args.stands_for(delta, entity_id, entities) && call_ensures(
                self.delegate(),
                (args,),
                action,
            )
    }

    fn invoke<'a>(&self, args: SystemArgs<'a, E, D>) -> (action: Option<Action<M>>) {
        assert(args.stands_for(args.delta, args.entity_id, args.entities@));
        (self.delegate)(args)
    }
}

/// Stateful [System] implementation
pub struct StatefulSystem<T, F> {
    state: T,
    delegate: F,
}

impl<T, F> StatefulSystem<T, F> {
    /// The state that the system hands to its function.
    pub closed spec fn state(&self) -> T {
        self.state
    }

    /// The function that the system calls.
    pub closed spec fn delegate(&self) -> F {
        self.delegate
    }

    /// Creates new instance of [StatefulSystem] with some predefined state
    pub fn new(state: T, delegate: F) -> (system: Self)
        ensures
            system.state() == state,
            system.delegate() == delegate,
    {
        StatefulSystem { state, delegate }
    }
}

impl<E, D, M: FnOnce(E) -> E, T, F: for <'a, 'b>Fn(SystemArgs<'a, E, D>, &'b T) -> Option<
    Action<M>,
>> System<E, D, M> for StatefulSystem<T, F> {
    open spec fn accepts(&self, delta: D, entity_id: EntityId, entities: Seq<Option<E>>) -> bool {
        forall|args: SystemArgs<E, D>| #[trigger]
            args.stands_for(delta, entity_id, entities) ==> {
                &&& call_requires(self.delegate(), (args, &self.state()))
                &&& forall|action: Action<M>| #[trigger]
                    call_ensures(self.delegate(), (args, &self.state()), Some(action))
                        ==> action.total() && action.target() == entity_id
            }
    }

    open spec fn enqueues(
        &self,
        delta: D,
        entity_id: EntityId,
        entities: Seq<Option<E>>,
        action: Option<Action<M>>,
    ) -> bool {
        exists|args: SystemArgs<E, D>| #[trigger]
            args.stands_for(delta, entity_id, entities) && call_ensures(
                self.delegate(),
                (args, &self.state()),
                action,
            )
    }

    fn invoke<'a>(&self, args: SystemArgs<'a, E, D>) -> (action: Option<Action<M>>) {
        assert(args.stands_for(args.delta, args.entity_id, args.entities@));
        (self.delegate)(args, &self.state)
    }
}

/// `actions` is what the first `upto` systems may answer for one entity, in
/// the order of the systems. Every answer is about that entity.
pub open spec fn entity_scanned<E, D, M: FnOnce(E) -> E, S: System<E, D, M>>(
    systems: Seq<(Seq<char>, S)>,
    upto: int,
    delta: D,
    entity_id: EntityId,
    entities: Seq<Option<E>>,
    actions: Seq<Action<M>>,
) -> bool
    decreases upto,
{
    if upto <= 0 {
        actions.len() == 0
    } else {
        ||| {
            &&& systems[upto - 1].1.enqueues(delta, entity_id, entities, None)
            &&& entity_scanned(systems, upto - 1, delta, entity_id, entities, actions)
        }
        ||| {
            &&& actions.len() > 0
            &&& actions.last().target() == entity_id
            &&& systems[upto - 1].1.enqueues(delta, entity_id, entities, Some(actions.last()))
            &&& entity_scanned(systems, upto - 1, delta, entity_id, entities, actions.drop_last())
        }
    }
}

/// `actions` is what a scan of the first `upto` slots may enqueue: for every
/// occupied slot in turn, what every system in turn answers for it. Each
/// system sees `entities`, the slots as they are when the scan begins.
pub open spec fn scanned<E, D, M: FnOnce(E) -> E, S: System<E, D, M>>(
    entities: Seq<Option<E>>,
    systems: Seq<(Seq<char>, S)>,
    delta: D,
    upto: int,
    actions: Seq<Action<M>>,
) -> bool
    decreases upto,
{
    if upto <= 0 {
        actions.len() == 0
    } else if !occupied(entities, upto - 1) {
        scanned(entities, systems, delta, upto - 1, actions)
    } else {
        exists|cut: int|
            {
                &&& 0 <= cut <= actions.len()
                &&& scanned(entities, systems, delta, upto - 1, actions.take(cut))
                &&& #[trigger] entity_scanned(
                    systems,
                    systems.len() as int,
                    delta,
                    (upto - 1) as EntityId,
                    entities,
                    actions.skip(cut),
                )
            }
    }
}

/// A scan of one more occupied slot enqueues what the scan before it did and
/// then what the systems answer for that slot.
pub proof fn lemma_scanned_next<E, D, M: FnOnce(E) -> E, S: System<E, D, M>>(
    entities: Seq<Option<E>>,
    systems: Seq<(Seq<char>, S)>,
    delta: D,
    upto: int,
    actions: Seq<Action<M>>,
    cut: int,
)
    requires
        upto >= 1,
        occupied(entities, upto - 1),
        0 <= cut <= actions.len(),
        scanned(entities, systems, delta, upto - 1, actions.take(cut)),
        entity_scanned(
            systems,
            systems.len() as int,
            delta,
            (upto - 1) as EntityId,
            entities,
            actions.skip(cut),
        ),
    ensures
        scanned(entities, systems, delta, upto, actions),
{
}

/// `after` is what one action may leave of `before`. A modification replaces
/// the entity by what its function makes of it; a destruction empties the
/// slot. An action on a slot that is empty or does not exist changes nothing.
pub open spec fn action_applied<E, M: FnOnce(E) -> E>(
    before: Seq<Option<E>>,
    action: Action<M>,
    after: Seq<Option<E>>,
) -> bool {
    match action {
        Action::Modify(entity_id, func) => if occupied(before, entity_id as int) {
            &&& occupied(after, entity_id as int)
            &&& call_ensures(func, (before[entity_id as int].unwrap(),), after[entity_id as int].unwrap())
            &&& after == before.update(entity_id as int, after[entity_id as int])
        } else {
            after == before
        },
        Action::Destroy(entity_id) => after == cleared(before, entity_id as int),
    }
}

/// The notifications that one action owes.
pub open spec fn action_events<E, M>(before: Seq<Option<E>>, action: Action<M>) -> Seq<Event> {
    match action {
        Action::Modify(_, _) => seq![],
        Action::Destroy(entity_id) => cleared_events(before, entity_id),
    }
}

/// `after` is what the actions, performed one after the other, may leave of
/// `before`, and `events` are the notifications that they owe, in that order.
pub open spec fn actions_applied<E, M: FnOnce(E) -> E>(
    before: Seq<Option<E>>,
    actions: Seq<Action<M>>,
    after: Seq<Option<E>>,
    events: Seq<Event>,
) -> bool
    decreases actions.len(),
{
    if actions.len() == 0 {
        after == before && events.len() == 0
    } else {
        exists|mid: Seq<Option<E>>|
            {
                let owed = action_events(mid, actions.last());
                &&& owed.len() <= events.len()
                &&& actions_applied(
                    before,
                    actions.drop_last(),
                    mid,
                    events.take(events.len() - owed.len()),
                )
                &&& #[trigger] action_applied(mid, actions.last(), after)
                &&& events.skip(events.len() - owed.len()) == owed
            }
    }
}

/// Iterator over entities in [ECS]: the occupied slots in the order of their ids
pub struct EntityIter<'a, E> {
    entities: &'a Vec<Option<E>>,
    entity_id: EntityId,
}

impl<'a, E> EntityIter<'a, E> {
    /// The slots that the iterator walks.
    pub closed spec fn slots(&self) -> Seq<Option<E>> {
        self.entities@
    }

    /// The id at which the search for the next entity begins.
    pub closed spec fn position(&self) -> int {
        self.entity_id as int
    }

    /// The position lies within the slots or just behind them.
    pub open spec fn wf(&self) -> bool {
        0 <= self.position() <= self.slots().len()
    }

    /// Yields the next entity with its id: the first occupied slot at or
    /// behind the position, behind which the search then goes on
    pub fn next(&mut self) -> (item: Option<(EntityId, &'a E)>)
        requires
            old(self).wf(),
        ensures
            final(self).wf(),
            final(self).slots() == old(self).slots(),
            match next_occupied(old(self).slots(), old(self).position()) {
                Some(entity_id) => {
                    &&& occupied(old(self).slots(), entity_id)
                    &&& item matches Some(found)
                    &&& found.0 == entity_id
                    &&& old(self).slots()[entity_id] == Some(*found.1)
                    &&& final(self).position() == entity_id + 1
                },
                None => item is None && final(self).position() == old(self).slots().len(),
            },
    {
        while self.entity_id < self.entities.len()
            invariant
                self.entities == old(self).entities,
                old(self).entity_id <= self.entity_id <= self.entities@.len(),
                next_occupied(self.entities@, self.entity_id as int) == next_occupied(
                    self.entities@,
                    old(self).entity_id as int,
                ),
            decreases self.entities@.len() - self.entity_id,
        {
            let entity_id = self.entity_id;
            self.entity_id += 1;
            match &self.entities[entity_id] {
                Some(entity) => {
                    return Some((entity_id, entity));
                },
                None => {},
            }
        }
        None
    }
}

/// Entity-Component-System infrastructure
pub struct ECS<E, S> {
    entities: Vec<Option<E>>,
    systems: Registry<S>,
    outbox: Vec<Event>,
}

impl<E, S> ECS<E, S> {
    /// The slots, by entity id.
    pub closed spec fn entities(&self) -> Seq<Option<E>> {
        self.entities@
    }

    /// The systems with their names, in the order in which a tick runs them.
    pub closed spec fn systems(&self) -> Seq<(Seq<char>, S)> {
        self.systems@
    }

    /// The notifications that are owed and not yet taken, oldest first.
    pub closed spec fn outbox(&self) -> Seq<Event> {
        self.outbox@
    }

    /// The systems are sorted by name, so each name occurs once.
    pub closed spec fn wf(&self) -> bool {
        self.systems.wf()
    }

    /// What `wf` says of the systems.
    pub proof fn lemma_wf(&self)
        requires
            self.wf(),
        ensures
            crate::registry::sorted(self.systems()),
    {
    }

    /// Creates new instance of [ECS], without entities and systems
    pub fn new() -> (ecs: Self)
        ensures
            ecs.wf(),
            ecs.entities().len() == 0,
            ecs.systems().len() == 0,
            ecs.outbox().len() == 0,
    {
        ECS { entities: Vec::new(), systems: Registry::new(), outbox: Vec::new() }
    }

    /// Adds system; one of the same name is replaced
    pub fn add_system(&mut self, name: &str, system: S)
        requires
            old(self).wf(),
        ensures
            final(self).wf(),
            final(self).systems() == inserted(old(self).systems(), name@, system),
            final(self).entities() == old(self).entities(),
            final(self).outbox() == old(self).outbox(),
    {
        let _ = self.systems.insert(name.to_owned(), system);
    }

    /// Removes system
    pub fn remove_system(&mut self, name: &str)
        requires
            old(self).wf(),
        ensures
            final(self).wf(),
            final(self).systems() == removed(old(self).systems(), name@),
            final(self).entities() == old(self).entities(),
            final(self).outbox() == old(self).outbox(),
    {
        let _ = self.systems.remove(name);
    }

    /// Creates new entity in the lowest empty slot, or in a new slot where
    /// none is empty, and owes a creation notification
    pub fn create_entity(&mut self, entity: E) -> (entity_id: EntityId)
        ensures
            lowest_free(old(self).entities(), entity_id as int),
            final(self).entities() == placed(old(self).entities(), entity_id as int, entity),
            final(self).outbox() == old(self).outbox().push(Event::EntityCreated(entity_id)),
            final(self).systems() == old(self).systems(),
            final(self).wf() == old(self).wf(),
    {
        let mut entity_id: usize = 0;
        while entity_id < self.entities.len() && self.entities[entity_id].is_some()
            invariant
                entity_id <= self.entities@.len(),
                forall|k: int| 0 <= k < entity_id ==> occupied(self.entities@, k),
            decreases self.entities@.len() - entity_id,
        {
            entity_id += 1;
        }
        if entity_id < self.entities.len() {
            self.entities[entity_id] = Some(entity);
        } else {
            self.entities.push(Some(entity));
        }
        self.outbox.push(Event::EntityCreated(entity_id));
        entity_id
    }

    /// Destroys entity: an occupied slot is emptied and a destruction
    /// notification is owed; any other id changes nothing
    pub fn destroy_entity(&mut self, entity_id: EntityId)
        ensures
            final(self).entities() == cleared(old(self).entities(), entity_id as int),
            final(self).outbox() == old(self).outbox() + cleared_events(
                old(self).entities(),
                entity_id,
            ),
            final(self).systems() == old(self).systems(),
            final(self).wf() == old(self).wf(),
    {
        if entity_id < self.entities.len() && self.entities[entity_id].is_some() {
            self.entities[entity_id] = None;
            self.outbox.push(Event::EntityDestroyed(entity_id));
            assert(self.outbox@ =~= old(self).outbox@ + seq![Event::EntityDestroyed(entity_id)]);
        } else {
            assert(self.outbox@ =~= old(self).outbox@ + Seq::<Event>::empty());
        }
    }

    /// Gets entity by its ID
    pub fn get_entity(&self, entity_id: EntityId) -> (entity: Option<&E>)
        ensures
            match entity {
                Some(entity) => occupied(self.entities(), entity_id as int)
                    && self.entities()[entity_id as int] == Some(*entity),
                None => !occupied(self.entities(), entity_id as int),
            },
    {
        if entity_id < self.entities.len() {
            self.entities[entity_id].as_ref()
        } else {
            None
        }
    }

    /// Every system can be invoked for every entity.
    pub open spec fn ready<D, M: FnOnce(E) -> E>(&self, delta: D) -> bool where S: System<E, D, M> {
        forall|at: int, entity_id: EntityId|
            0 <= at < self.systems().len() && occupied(self.entities(), entity_id as int)
                ==> #[trigger] self.systems()[at].1.accepts(delta, entity_id, self.entities())
    }

    /// Scans the store: invokes every system, in the order of their names,
    /// for every entity, in the order of their ids, and collects the answers.
    /// The store is not changed, so every system sees the same entities.
    #[verifier::rlimit(50)]
    pub fn collect_actions<D: Copy, M: FnOnce(E) -> E>(&self, delta: D) -> (actions: Vec<Action<M>>) where
        S: System<E, D, M>,

        requires
            self.wf(),
            self.ready::<D, M>(delta),
        ensures
            scanned(
                self.entities(),
                self.systems(),
                delta,
                self.entities().len() as int,
                actions@,
            ),
            forall|k: int| 0 <= k < actions.len() ==> (#[trigger] actions[k]).total(),
    {
        let mut actions: Vec<Action<M>> = Vec::new();
        let mut entity_id: usize = 0;
        while entity_id < self.entities.len()
            invariant
                entity_id <= self.entities@.len(),
                self.ready::<D, M>(delta),
                scanned(self.entities@, self.systems@, delta, entity_id as int, actions@),
                forall|k: int| 0 <= k < actions.len() ==> (#[trigger] actions[k]).total(),
            decreases self.entities@.len() - entity_id,
        {
            match &self.entities[entity_id] {
                Some(entity) => {
                    let ghost before = actions@;
                    let mut at: usize = 0;
                    while at < self.systems.len()
                        invariant
                            at <= self.systems@.len(),
                            entity_id < self.entities@.len(),
                            self.entities@[entity_id as int] == Some(*entity),
                            self.ready::<D, M>(delta),
                            before.len() <= actions@.len(),
                            actions@.take(before.len() as int) == before,
                            scanned(self.entities@, self.systems@, delta, entity_id as int, before),
                            entity_scanned(
                                self.systems@,
                                at as int,
                                delta,
                                entity_id,
                                self.entities@,
                                actions@.skip(before.len() as int),
                            ),
                            forall|k: int|
                                0 <= k < actions.len() ==> (#[trigger] actions[k]).total(),
                        decreases self.systems@.len() - at,
                    {
                        let (_, system) = self.systems.entry(at);
                        let args = SystemArgs { delta, entity_id, entity, entities: &self.entities };
                        assert(self.systems()[at as int].1.accepts(
                            delta,
                            entity_id,
                            self.entities(),
                        ));
                        let ghost mine = actions@.skip(before.len() as int);
                        match system.invoke(args) {
                            Some(action) => {
                                actions.push(action);
                                proof {
                                    let now = actions@.skip(before.len() as int);
                                    assert(now.drop_last() =~= mine);
                                    assert(now.last() == action);
                                    assert(actions@.take(before.len() as int) =~= before);
                                }
                            },
                            None => {},
                        }
                        at += 1;
                    }
                    proof {
                        lemma_scanned_next(
                            self.entities@,
                            self.systems@,
                            delta,
                            entity_id + 1,
                            actions@,
                            before.len() as int,
                        );
                    }
                },
                None => {},
            }
            entity_id += 1;
        }
        actions
    }

    /// Performs one action.
    pub fn apply_action<M: FnOnce(E) -> E>(&mut self, action: Action<M>)
        requires
            action.total(),
        ensures
            action_applied(old(self).entities(), action, final(self).entities()),
            final(self).entities().len() == old(self).entities().len(),
            final(self).outbox() == old(self).outbox() + action_events(
                old(self).entities(),
                action,
            ),
            final(self).systems() == old(self).systems(),
            final(self).wf() == old(self).wf(),
    {
        match action {
            Action::Modify(entity_id, func) => {
                if entity_id < self.entities.len() {
                    match self.entities[entity_id].take() {
                        Some(entity) => {
                            let modified = func(entity);
                            self.entities[entity_id] = Some(modified);
                            assert(self.entities@ =~= old(self).entities@.update(
                                entity_id as int,
                                Some(modified),
                            ));
                        },
                        None => {
                            assert(self.entities@ =~= old(self).entities@);
                        },
                    }
                }
                assert(self.outbox@ =~= old(self).outbox@ + Seq::<Event>::empty());
            },
            Action::Destroy(entity_id) => {
                self.destroy_entity(entity_id);
            },
        }
    }

    /// Performs the actions in the order in which they were enqueued.
    #[verifier::rlimit(50)]
    pub fn apply_actions<M: FnOnce(E) -> E>(&mut self, actions: Vec<Action<M>>)
        requires
            forall|k: int| 0 <= k < actions.len() ==> (#[trigger] actions[k]).total(),
        ensures
            old(self).outbox().len() <= final(self).outbox().len(),
            final(self).outbox().take(old(self).outbox().len() as int) == old(self).outbox(),
            actions_applied(
                old(self).entities(),
                actions@,
                final(self).entities(),
                final(self).outbox().skip(old(self).outbox().len() as int),
            ),
            final(self).entities().len() == old(self).entities().len(),
            final(self).systems() == old(self).systems(),
            final(self).wf() == old(self).wf(),
    {
        let ghost sent = old(self).outbox@.len() as int;
        let ghost all = actions@;
        for action in it: actions
            invariant
                it.seq() == all,
                forall|k: int| 0 <= k < all.len() ==> (#[trigger] all[k]).total(),
                0 <= sent <= self.outbox@.len(),
                self.outbox@.take(sent) == old(self).outbox@,
                actions_applied(
                    old(self).entities@,
                    all.take(it.index() as int),
                    self.entities@,
                    self.outbox@.skip(sent),
                ),
                self.entities@.len() == old(self).entities@.len(),
                self.systems@ == old(self).systems@,
                self.wf() == old(self).wf(),
        {
            let ghost mid = self.entities@;
            let ghost events = self.outbox@.skip(sent);
            let ghost done = it.index() as int;
            let ghost outbox = self.outbox@;
            assert(action == all[done]);
            self.apply_action(action);
            proof {
                let owed = action_events(mid, action);
                let now = self.outbox@.skip(sent);
                assert(self.outbox@ == outbox + owed);
                let prefix = all.take(done + 1);
                assert(prefix.last() == action);
                assert(prefix.drop_last() =~= all.take(done));
                assert(now =~= events + owed);
                assert(now.take(now.len() - owed.len()) =~= events);
                assert(now.skip(now.len() - owed.len()) =~= owed);
                assert(self.outbox@.take(sent) =~= old(self).outbox@);
            }
        }
        proof {
            assert(all.take(all.len() as int) =~= all);
        }
    }

    /// Runs one tick: scans the store, then performs what the systems asked
    /// for. No system sees a change of this tick; all of them are in the store
    /// when the tick ends.
    pub fn tick<D: Copy, M: FnOnce(E) -> E>(&mut self, delta: D) where S: System<E, D, M>
        requires
            old(self).wf(),
            old(self).ready::<D, M>(delta),
        ensures
            final(self).wf(),
            final(self).systems() == old(self).systems(),
            final(self).entities().len() == old(self).entities().len(),
            old(self).outbox().len() <= final(self).outbox().len(),
            final(self).outbox().take(old(self).outbox().len() as int) == old(self).outbox(),
            exists|actions: Seq<Action<M>>|
                {
                    &&& #[trigger] scanned(
                        old(self).entities(),
                        old(self).systems(),
                        delta,
                        old(self).entities().len() as int,
                        actions,
                    )
                    &&& actions_applied(
                        old(self).entities(),
                        actions,
                        final(self).entities(),
                        final(self).outbox().skip(old(self).outbox().len() as int),
                    )
                },
    {
        let actions = self.collect_actions::<D, M>(delta);
        self.apply_actions(actions);
    }

    /// Visits entity immutably
    pub fn visit_entity<R, V: FnOnce(&E) -> R>(&self, entity_id: EntityId, visitor: V) -> (result:
        Option<R>)
        requires
            occupied(self.entities(), entity_id as int) ==> call_requires(
                visitor,
                (&self.entities()[entity_id as int].unwrap(),),
            ),
        ensures
            match result {
                Some(result) => occupied(self.entities(), entity_id as int) && call_ensures(
                    visitor,
                    (&self.entities()[entity_id as int].unwrap(),),
                    result,
                ),
                None => !occupied(self.entities(), entity_id as int),
            },
    {
        match self.get_entity(entity_id) {
            Some(entity) => Some(visitor(entity)),
            None => None,
        }
    }

    /// Visits entity and allows its mutation: the visitor takes the entity and
    /// hands back what it made of it, together with its result
    pub fn visit_entity_mut<R, V: FnOnce(E) -> (E, R)>(
        &mut self,
        entity_id: EntityId,
        visitor: V,
    ) -> (result: Option<R>)
        requires
            occupied(old(self).entities(), entity_id as int) ==> call_requires(
                visitor,
                (old(self).entities()[entity_id as int].unwrap(),),
            ),
        ensures
            match result {
                Some(result) => {
                    &&& occupied(old(self).entities(), entity_id as int)
                    &&& occupied(final(self).entities(), entity_id as int)
                    &&& call_ensures(
                        visitor,
                        (old(self).entities()[entity_id as int].unwrap(),),
                        (final(self).entities()[entity_id as int].unwrap(), result),
                    )
                    &&& final(self).entities() == old(self).entities().update(
                        entity_id as int,
                        final(self).entities()[entity_id as int],
                    )
                },
                None => {
                    &&& !occupied(old(self).entities(), entity_id as int)
                    &&& final(self).entities() == old(self).entities()
                },
            },
            final(self).outbox() == old(self).outbox(),
            final(self).systems() == old(self).systems(),
            final(self).wf() == old(self).wf(),
    {
        if entity_id < self.entities.len() {
            match self.entities[entity_id].take() {
                Some(entity) => {
                    let (modified, result) = visitor(entity);
                    self.entities[entity_id] = Some(modified);
                    assert(self.entities@ =~= old(self).entities@.update(
                        entity_id as int,
                        Some(modified),
                    ));
                    Some(result)
                },
                None => {
                    assert(self.entities@ =~= old(self).entities@);
                    None
                },
            }
        } else {
            None
        }
    }

    /// Iterates over all available entities
    pub fn iter_entities(&self) -> (iter: EntityIter<'_, E>)
        ensures
            iter.wf(),
            iter.slots() == self.entities(),
            iter.position() == 0,
    {
        EntityIter { entities: &self.entities, entity_id: 0 }
    }

    /// The number of slots, occupied or empty
    pub fn len(&self) -> (len: usize)
        ensures
            len == self.entities().len(),
    {
        self.entities.len()
    }

    /// Takes the store apart and hands out its slots as they lie
    pub fn into_slots(self) -> (slots: Vec<Option<E>>)
        ensures
            slots@ == self.entities(),
    {
        self.entities
    }

    /// Builds a store around slots as they lie, without systems: every
    /// entity has the id of the slot it lies in
    pub fn from_slots(slots: Vec<Option<E>>) -> (ecs: Self)
        ensures
            ecs.wf(),
            ecs.entities() == slots@,
            ecs.systems().len() == 0,
            ecs.outbox().len() == 0,
    {
        ECS { entities: slots, systems: Registry::new(), outbox: Vec::new() }
    }

    /// Sends the notifications that are owed, oldest first, and owes none
    /// after that
    pub fn notify(&mut self, sender: &Sender)
        ensures
            final(self).outbox().len() == 0,
            final(self).entities() == old(self).entities(),
            final(self).systems() == old(self).systems(),
            final(self).wf() == old(self).wf(),
    {
        let events = self.take_events();
        sender.send_all(&events);
    }

    /// Takes the notifications that are owed, oldest first
    pub fn take_events(&mut self) -> (events: Vec<Event>)
        ensures
            events@ == old(self).outbox(),
            final(self).outbox().len() == 0,
            final(self).entities() == old(self).entities(),
            final(self).systems() == old(self).systems(),
            final(self).wf() == old(self).wf(),
    {
        let mut events: Vec<Event> = Vec::new();
        std::mem::swap(&mut events, &mut self.outbox);
        events
    }
}

/// Slot reuse. The id that a created entity gets is the lowest id that holds
/// no entity. There is one such id, no occupied slot has it, and putting the
/// entity there leaves every other slot as it was.
pub proof fn law_slot_reuse<E>(slots: Seq<Option<E>>, entity_id: int, other: int, entity: E)
    requires
        lowest_free(slots, entity_id),
    ensures
        !occupied(slots, entity_id),
        lowest_free(slots, other) ==> other == entity_id,
        0 <= other && !occupied(slots, other) ==> entity_id <= other,
        occupied(placed(slots, entity_id, entity), entity_id),
        placed(slots, entity_id, entity)[entity_id] == Some(entity),
        other != entity_id && 0 <= other < slots.len() ==> placed(slots, entity_id, entity)[other]
            == slots[other],
        occupied(slots, other) ==> placed(slots, entity_id, entity)[other] == slots[other],
{
    if 0 <= other && !occupied(slots, other) && other < entity_id {
        assert(occupied(slots, other));
    }
}

/// Destroy idempotence. Destroying an id a second time, or an id that holds no
/// entity, changes nothing and owes no notification.
pub proof fn law_destroy_idempotent<E>(slots: Seq<Option<E>>, entity_id: EntityId)
    ensures
        cleared(cleared(slots, entity_id as int), entity_id as int) == cleared(
            slots,
            entity_id as int,
        ),
        cleared_events(cleared(slots, entity_id as int), entity_id).len() == 0,
        !occupied(slots, entity_id as int) ==> cleared(slots, entity_id as int) == slots
            && cleared_events(slots, entity_id).len() == 0,
        !occupied(cleared(slots, entity_id as int), entity_id as int),
{
}

/// Round trip. A store built from the slots of another holds the same
/// entities under the same ids, and the next entity created gets the same id
/// in both.
pub proof fn law_round_trip<E, S>(before: ECS<E, S>, slots: Vec<Option<E>>, after: ECS<E, S>, entity_id: int)
    requires
        slots@ == before.entities(),
        after.entities() == slots@,
    ensures
        occupied(after.entities(), entity_id) == occupied(before.entities(), entity_id),
        occupied(before.entities(), entity_id) ==> after.entities()[entity_id]
            == before.entities()[entity_id],
        lowest_free(after.entities(), entity_id) == lowest_free(before.entities(), entity_id),
        next_occupied(after.entities(), entity_id) == next_occupied(before.entities(), entity_id),
{
}

/// Every action that the systems answer for one entity is the answer of one
/// of them for that entity.
pub proof fn lemma_entity_scanned_sources<E, D, M: FnOnce(E) -> E, S: System<E, D, M>>(
    systems: Seq<(Seq<char>, S)>,
    upto: int,
    delta: D,
    entity_id: EntityId,
    entities: Seq<Option<E>>,
    actions: Seq<Action<M>>,
    k: int,
)
    requires
        0 <= upto <= systems.len(),
        entity_scanned(systems, upto, delta, entity_id, entities, actions),
        0 <= k < actions.len(),
    ensures
        actions[k].target() == entity_id,
        exists|at: int|
            0 <= at < upto && #[trigger] systems[at].1.enqueues(
                delta,
                entity_id,
                entities,
                Some(actions[k]),
            ),
    decreases upto,
{
    if upto > 0 {
        if systems[upto - 1].1.enqueues(delta, entity_id, entities, None) && entity_scanned(
            systems,
            upto - 1,
            delta,
            entity_id,
            entities,
            actions,
        ) {
            lemma_entity_scanned_sources(systems, upto - 1, delta, entity_id, entities, actions, k);
        } else if k < actions.len() - 1 {
            lemma_entity_scanned_sources(
                systems,
                upto - 1,
                delta,
                entity_id,
                entities,
                actions.drop_last(),
                k,
            );
        } else {
            assert(systems[upto - 1].1.enqueues(delta, entity_id, entities, Some(actions[k])));
        }
    }
}

/// Tick isolation, first half. Every action that a scan enqueues is the
/// answer of a system for an entity of `entities`, the slots as they were
/// when the scan began, and is about that entity: no answer rests on a change
/// made during the tick, and no system reaches for an entity other than the
/// one it was invoked for.
pub proof fn law_scan_reads_snapshot<E, D, M: FnOnce(E) -> E, S: System<E, D, M>>(
    entities: Seq<Option<E>>,
    systems: Seq<(Seq<char>, S)>,
    delta: D,
    upto: int,
    actions: Seq<Action<M>>,
    k: int,
)
    requires
        0 <= upto <= entities.len(),
        entities.len() <= usize::MAX,
        scanned(entities, systems, delta, upto, actions),
        0 <= k < actions.len(),
    ensures
        exists|at: int, entity_id: EntityId|
            {
                &&& 0 <= at < systems.len()
                &&& entity_id < upto
                &&& occupied(entities, entity_id as int)
                &&& actions[k].target() == entity_id
                &&& #[trigger] systems[at].1.enqueues(
                    delta,
                    entity_id,
                    entities,
                    Some(actions[k]),
                )
            },
    decreases upto,
{
    if upto > 0 {
        if !occupied(entities, upto - 1) {
            law_scan_reads_snapshot(entities, systems, delta, upto - 1, actions, k);
        } else {
            let cut = choose|cut: int|
                {
                    &&& 0 <= cut <= actions.len()
                    &&& scanned(entities, systems, delta, upto - 1, actions.take(cut))
                    &&& #[trigger] entity_scanned(
                        systems,
                        systems.len() as int,
                        delta,
                        (upto - 1) as EntityId,
                        entities,
                        actions.skip(cut),
                    )
                };
            if k < cut {
                law_scan_reads_snapshot(entities, systems, delta, upto - 1, actions.take(cut), k);
                assert(actions.take(cut)[k] == actions[k]);
            } else {
                let entity_id = (upto - 1) as EntityId;
                lemma_entity_scanned_sources(
                    systems,
                    systems.len() as int,
                    delta,
                    entity_id,
                    entities,
                    actions.skip(cut),
                    k - cut,
                );
                assert(actions.skip(cut)[k - cut] == actions[k]);
                let at = choose|at: int|
                    0 <= at < systems.len() && #[trigger] systems[at].1.enqueues(
                        delta,
                        entity_id,
                        entities,
                        Some(actions[k]),
                    );
                assert(systems[at].1.enqueues(delta, entity_id, entities, Some(actions[k])));
            }
        }
    }
}

/// Actions neither add nor remove slots, and they leave alone every slot that
/// none of them is about.
pub proof fn lemma_actions_keep_others<E, M: FnOnce(E) -> E>(
    before: Seq<Option<E>>,
    actions: Seq<Action<M>>,
    after: Seq<Option<E>>,
    events: Seq<Event>,
    entity_id: int,
)
    requires
        actions_applied(before, actions, after, events),
    ensures
        after.len() == before.len(),
        (forall|k: int| 0 <= k < actions.len() ==> (#[trigger] actions[k]).target() != entity_id)
            && 0 <= entity_id < before.len() ==> after[entity_id] == before[entity_id],
        !occupied(before, entity_id) ==> !occupied(after, entity_id),
    decreases actions.len(),
{
    if actions.len() > 0 {
        let mid = choose|mid: Seq<Option<E>>|
            {
                let owed = action_events(mid, actions.last());
                &&& owed.len() <= events.len()
                &&& actions_applied(
                    before,
                    actions.drop_last(),
                    mid,
                    events.take(events.len() - owed.len()),
                )
                &&& #[trigger] action_applied(mid, actions.last(), after)
                &&& events.skip(events.len() - owed.len()) == owed
            };
        let owed = action_events(mid, actions.last());
        lemma_actions_keep_others(
            before,
            actions.drop_last(),
            mid,
            events.take(events.len() - owed.len()),
            entity_id,
        );
        if forall|k: int| 0 <= k < actions.len() ==> (#[trigger] actions[k]).target() != entity_id {
            assert forall|k: int| 0 <= k < actions.drop_last().len() implies (
            #[trigger] actions.drop_last()[k]).target() != entity_id by {
                assert(actions.drop_last()[k] == actions[k]);
            }
            assert(actions[actions.len() - 1].target() != entity_id);
        }
    }
}

/// Tick isolation, second half. Where one modification is the only action
/// about an entity, the store holds what its function made of the entity as
/// it was before the actions: the change is there when the next tick begins.
pub proof fn law_modify_visible<E, M: FnOnce(E) -> E>(
    before: Seq<Option<E>>,
    actions: Seq<Action<M>>,
    after: Seq<Option<E>>,
    events: Seq<Event>,
    k: int,
    entity_id: EntityId,
    func: M,
)
    requires
        actions_applied(before, actions, after, events),
        0 <= k < actions.len(),
        actions[k] == Action::Modify(entity_id, func),
        forall|j: int| 0 <= j < actions.len() && j != k ==> (#[trigger] actions[j]).target() != entity_id,
        occupied(before, entity_id as int),
    ensures
        occupied(after, entity_id as int),
        call_ensures(func, (before[entity_id as int].unwrap(),), after[entity_id as int].unwrap()),
    decreases actions.len(),
{
    let mid = choose|mid: Seq<Option<E>>|
        {
            let owed = action_events(mid, actions.last());
            &&& owed.len() <= events.len()
            &&& actions_applied(
                before,
                actions.drop_last(),
                mid,
                events.take(events.len() - owed.len()),
            )
            &&& #[trigger] action_applied(mid, actions.last(), after)
            &&& events.skip(events.len() - owed.len()) == owed
        };
    let owed = action_events(mid, actions.last());
    let earlier = actions.drop_last();
    let earlier_events = events.take(events.len() - owed.len());
    if k == actions.len() - 1 {
        assert forall|j: int| 0 <= j < earlier.len() implies (#[trigger] earlier[j]).target()
            != entity_id by {
            assert(earlier[j] == actions[j]);
        }
        lemma_actions_keep_others(before, earlier, mid, earlier_events, entity_id as int);
    } else {
        assert(earlier[k] == actions[k]);
        assert forall|j: int| 0 <= j < earlier.len() && j != k implies (#[trigger] earlier[j]).target()
            != entity_id by {
            assert(earlier[j] == actions[j]);
        }
        law_modify_visible(before, earlier, mid, earlier_events, k, entity_id, func);
        assert(actions[actions.len() - 1].target() != entity_id);
        lemma_actions_keep_others(before, earlier, mid, earlier_events, entity_id as int);
    }
}

} // verus!
