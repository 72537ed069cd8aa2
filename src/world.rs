use std::any::{Any, TypeId};
use std::collections::HashMap;
use vstd::prelude::*;

verus! {

/// The typed values attached to one entity, at most one per type.
///
/// The values are of arbitrary types and are told apart by their `TypeId`,
/// which Verus cannot look into; the store is therefore opaque and its
/// methods carry no claims about the values.
#[verifier::external_body]
pub struct Components {
    map: HashMap<TypeId, Box<dyn Any>>,
}

impl Components {
    /// Relies on `HashMap::new`: an empty map.
    #[verifier::external_body]
    fn empty() -> (r: Components) {
        Components { map: HashMap::new() }
    }

    /// Relies on `HashMap::insert`, keyed by `TypeId::of::<CT>()`: replaces the
    /// value of that type, if any.
    #[verifier::external_body]
    fn insert<CT: 'static>(&mut self, component: CT) {
        self.map.insert(TypeId::of::<CT>(), Box::new(component));
    }

    /// Relies on `HashMap::remove` and `Box::downcast`: the value stored under
    /// `TypeId::of::<CT>()` has type `CT`, so the downcast succeeds.
    #[verifier::external_body]
    fn take<CT: 'static>(&mut self) -> (r: Option<Box<CT>>) {
        self.map.remove(&TypeId::of::<CT>()).map(|val| val.downcast::<CT>().unwrap())
    }

    /// Relies on `HashMap::get` and `downcast_ref`, as `take` does.
    #[verifier::external_body]
    fn get<CT: 'static>(&self) -> (r: Option<&CT>) {
        self.map.get(&TypeId::of::<CT>()).map(|val| val.downcast_ref::<CT>().unwrap())
    }

    /// Relies on `HashMap::get_mut` and `downcast_mut`, as `take` does.
    #[verifier::external_body]
    fn get_mut<CT: 'static>(&mut self) -> (r: Option<&mut CT>) {
        self.map.get_mut(&TypeId::of::<CT>()).map(|val| val.downcast_mut::<CT>().unwrap())
    }
}

/// An entity: a positive id and the components attached to it.
pub struct Entity {
    id: usize,
    components: Components,
}

impl Entity {
    pub closed spec fn spec_id(&self) -> usize {
        self.id
    }

    /// The entity's id.
    pub fn id(&self) -> (r: usize)
        ensures
            r == self.spec_id(),
    {
        self.id
    }

    /// Attaches `component`, replacing a component of the same type.
    pub fn add_component<CT: 'static>(&mut self, component: CT)
        ensures
            final(self).spec_id() == old(self).spec_id(),
    {
        self.components.insert(component);
    }

    /// Detaches and returns the component of type `CT`, if there is one.
    pub fn remove_component<CT: 'static>(&mut self) -> (r: Option<Box<CT>>)
        ensures
            final(self).spec_id() == old(self).spec_id(),
    {
        self.components.take::<CT>()
    }

    /// The component of type `CT`, if there is one.
    pub fn get_component<CT: 'static>(&self) -> (r: Option<&CT>) {
        self.components.get::<CT>()
    }

    /// The component of type `CT`, if there is one, for changing in place.
    pub fn get_component_mut<CT: 'static>(&mut self) -> (r: Option<&mut CT>)
        ensures
            final(self).spec_id() == old(self).spec_id(),
    {
        self.components.get_mut::<CT>()
    }
}

/// The entities, in order of creation; entity `i` (from 0) has id `i + 1`.
pub struct World {
    entities: Vec<Entity>,
    entity_cnt: usize,
}

impl World {
    /// Ids are handed out in order, starting at 1; the next one is `entity_cnt`.
    pub closed spec fn wf(&self) -> bool {
        &&& self.entity_cnt == self.entities@.len() + 1
        &&& forall|i: int|
            0 <= i < self.entities@.len() ==> (#[trigger] self.entities@[i]).spec_id() == i + 1
    }

    /// The ids of the entities, in order of creation.
    pub closed spec fn ids(&self) -> Seq<usize> {
        self.entities@.map_values(|e: Entity| e.spec_id())
    }

    /// Creates an entity with the next id and no components, and returns it.
    pub fn new_entity(&mut self) -> (r: &mut Entity)
        requires
            old(self).wf(),
            old(self).ids().len() + 1 < usize::MAX,
        ensures
            r.spec_id() == old(self).ids().len() + 1,
            final(r).spec_id() == r.spec_id() ==> final(self).wf(),
            final(r).spec_id() == r.spec_id() ==> final(self).ids() == old(self).ids().push(
                r.spec_id(),
            ),
    {
        let id = self.entity_cnt;
        self.entity_cnt = id + 1;
        self.entities.push(Entity { id, components: Components::empty() });
        let last = self.entities.len() - 1;
        proof {
            assert(self.ids() =~= old(self).ids().push(id));
        }
        &mut self.entities[last]
    }
}

impl Default for World {
    fn default() -> (r: Self)
        ensures
            r.wf(),
            r.ids() == Seq::<usize>::empty(),
    {
        World { entities: Vec::new(), entity_cnt: 1 }
    }
}

/// Shared access to a component of type `T`.
pub struct Read<'a, T>(&'a T);

/// Exclusive access to a component of type `T`.
pub struct Write<'a, T>(&'a mut T);

/// A unit of work run on arguments fetched from a world.
pub trait System<Args> {
    fn run(&mut self, args: Args);
}

} // verus!
