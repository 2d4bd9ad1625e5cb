use vstd::prelude::*;

use crate::control::{Controllable, Keyboard};
use crate::entity::{Entity, EntityRegistry};
use crate::graphics::Sprite;
use crate::movement::{AngularMomentum, Position, Rotation, Velocity};
use crate::resources::ResourceTable;
use crate::storage::Storage;
use crate::DeltaTime;

verus! {

/// Names one component type, for registration.
#[derive(Clone, Copy, PartialEq, Eq, Structural, Debug)]
pub enum ComponentId {
    Position,
    Rotation,
    Velocity,
    AngularMomentum,
    Controllable,
    Sprite,
}

/// One component value, tagged with its type, as the entity builder
/// accumulates them.
#[derive(Clone, Copy, PartialEq, Eq, Structural, Debug)]
pub enum ComponentValue {
    Position(Position),
    Rotation(Rotation),
    Velocity(Velocity),
    AngularMomentum(AngularMomentum),
    Controllable(Controllable),
    Sprite(Sprite),
}

/// The mathematical state of a world: which storages are registered, what
/// each holds, the created entities, and the resource slots.
#[verifier::ext_equal]
pub ghost struct WorldModel {
    pub entities: Seq<Entity>,
    pub positions_reg: bool,
    pub positions: Map<Entity, Position>,
    pub rotations_reg: bool,
    pub rotations: Map<Entity, Rotation>,
    pub velocities_reg: bool,
    pub velocities: Map<Entity, Velocity>,
    pub angulars_reg: bool,
    pub angulars: Map<Entity, AngularMomentum>,
    pub controllables_reg: bool,
    pub controllables: Map<Entity, Controllable>,
    pub sprites_reg: bool,
    pub sprites: Map<Entity, Sprite>,
    pub delta: Option<DeltaTime>,
    pub keyboard: Option<Keyboard>,
}

/// Owns the entity registry, one storage per registered component type,
/// and the resource table.
pub struct World {
    pub registry: EntityRegistry,
    pub positions: Option<Storage<Position>>,
    pub rotations: Option<Storage<Rotation>>,
    pub velocities: Option<Storage<Velocity>>,
    pub angulars: Option<Storage<AngularMomentum>>,
    pub controllables: Option<Storage<Controllable>>,
    pub sprites: Option<Storage<Sprite>>,
    pub resources: ResourceTable,
}

impl View for World {
    type V = WorldModel;

    open spec fn view(&self) -> WorldModel {
        WorldModel {
            entities: self.registry@,
            positions_reg: self.positions is Some,
            positions: if self.positions is Some { self.positions->0@ } else { Map::empty() },
            rotations_reg: self.rotations is Some,
            rotations: if self.rotations is Some { self.rotations->0@ } else { Map::empty() },
            velocities_reg: self.velocities is Some,
            velocities: if self.velocities is Some { self.velocities->0@ } else { Map::empty() },
            angulars_reg: self.angulars is Some,
            angulars: if self.angulars is Some { self.angulars->0@ } else { Map::empty() },
            controllables_reg: self.controllables is Some,
            controllables: if self.controllables is Some { self.controllables->0@ } else { Map::empty() },
            sprites_reg: self.sprites is Some,
            sprites: if self.sprites is Some { self.sprites->0@ } else { Map::empty() },
            delta: self.resources.spec_delta(),
            keyboard: self.resources.spec_keyboard(),
        }
    }
}

/// What registering component `c` does: that storage becomes registered
/// (keeping its contents if it already was: registration is idempotent),
/// and nothing else moves.
pub open spec fn registered_after(w0: WorldModel, w1: WorldModel, c: ComponentId) -> bool {
    &&& w1 == (match c {
        ComponentId::Position => WorldModel {
            positions_reg: true,
            positions: w0.positions,
            ..w0
        },
        ComponentId::Rotation => WorldModel {
            rotations_reg: true,
            rotations: w0.rotations,
            ..w0
        },
        ComponentId::Velocity => WorldModel {
            velocities_reg: true,
            velocities: w0.velocities,
            ..w0
        },
        ComponentId::AngularMomentum => WorldModel {
            angulars_reg: true,
            angulars: w0.angulars,
            ..w0
        },
        ComponentId::Controllable => WorldModel {
            controllables_reg: true,
            controllables: w0.controllables,
            ..w0
        },
        ComponentId::Sprite => WorldModel {
            sprites_reg: true,
            sprites: w0.sprites,
            ..w0
        },
    })
}

/// Attaching one component value to `e`, on the model.
pub open spec fn apply_item(w: WorldModel, e: Entity, c: ComponentValue) -> WorldModel {
    match c {
        ComponentValue::Position(v) => WorldModel { positions: w.positions.insert(e, v), ..w },
        ComponentValue::Rotation(v) => WorldModel { rotations: w.rotations.insert(e, v), ..w },
        ComponentValue::Velocity(v) => WorldModel { velocities: w.velocities.insert(e, v), ..w },
        ComponentValue::AngularMomentum(v) => WorldModel { angulars: w.angulars.insert(e, v), ..w },
        ComponentValue::Controllable(v) => WorldModel { controllables: w.controllables.insert(e, v), ..w },
        ComponentValue::Sprite(v) => WorldModel { sprites: w.sprites.insert(e, v), ..w },
    }
}

/// Attaching a list of component values to `e`, in order.
pub open spec fn apply_items(w: WorldModel, e: Entity, items: Seq<ComponentValue>) -> WorldModel
    decreases items.len(),
{
    if items.len() == 0 {
        w
    } else {
        apply_item(apply_items(w, e, items.drop_last()), e, items.last())
    }
}

impl World {
    /// Every registered storage is well formed.
    pub open spec fn wf(&self) -> bool {
        &&& (self.positions is Some ==> self.positions->0.wf())
        &&& (self.rotations is Some ==> self.rotations->0.wf())
        &&& (self.velocities is Some ==> self.velocities->0.wf())
        &&& (self.angulars is Some ==> self.angulars->0.wf())
        &&& (self.controllables is Some ==> self.controllables->0.wf())
        &&& (self.sprites is Some ==> self.sprites->0.wf())
    }

    /// Whether the storage for component `c` has been registered.
    pub open spec fn spec_registered(&self, c: ComponentId) -> bool {
        match c {
            ComponentId::Position => self.positions is Some,
            ComponentId::Rotation => self.rotations is Some,
            ComponentId::Velocity => self.velocities is Some,
            ComponentId::AngularMomentum => self.angulars is Some,
            ComponentId::Controllable => self.controllables is Some,
            ComponentId::Sprite => self.sprites is Some,
        }
    }

    /// The component type a tagged value belongs to.
    pub open spec fn id_of(c: ComponentValue) -> ComponentId {
        match c {
            ComponentValue::Position(_) => ComponentId::Position,
            ComponentValue::Rotation(_) => ComponentId::Rotation,
            ComponentValue::Velocity(_) => ComponentId::Velocity,
            ComponentValue::AngularMomentum(_) => ComponentId::AngularMomentum,
            ComponentValue::Controllable(_) => ComponentId::Controllable,
            ComponentValue::Sprite(_) => ComponentId::Sprite,
        }
    }

    /// A world with no entity, no registered storage and no resource.
    pub fn new() -> (r: World)
        ensures
            r.wf(),
            r@.entities == Seq::<Entity>::empty(),
            !r@.positions_reg,
            !r@.rotations_reg,
            !r@.velocities_reg,
            !r@.angulars_reg,
            !r@.controllables_reg,
            !r@.sprites_reg,
            r@.delta is None,
            r@.keyboard is None,
    {
        World {
            registry: EntityRegistry::new(),
            positions: None,
            rotations: None,
            velocities: None,
            angulars: None,
            controllables: None,
            sprites: None,
            resources: ResourceTable::new(),
        }
    }

    /// Registers the storage for component `c`: idempotent, and required
    /// before that storage is accessed. Tag components get the sparse
    /// backing; the rest get the dense one.
    pub fn register_component(&mut self, c: ComponentId)
        requires
            old(self).wf(),
        ensures
            final(self).wf(),
            registered_after(old(self)@, final(self)@, c),
    {
        match c {
            ComponentId::Position => {
                if self.positions.is_none() {
                    self.positions = Some(Storage::new_dense());
                }
            },
            ComponentId::Rotation => {
                if self.rotations.is_none() {
                    self.rotations = Some(Storage::new_dense());
                }
            },
            ComponentId::Velocity => {
                if self.velocities.is_none() {
                    self.velocities = Some(Storage::new_dense());
                }
            },
            ComponentId::AngularMomentum => {
                if self.angulars.is_none() {
                    self.angulars = Some(Storage::new_dense());
                }
            },
            ComponentId::Controllable => {
                if self.controllables.is_none() {
                    self.controllables = Some(Storage::new_sparse());
                }
            },
            ComponentId::Sprite => {
                if self.sprites.is_none() {
                    self.sprites = Some(Storage::new_dense());
                }
            },
        }
        proof {
            assert(final(self)@ =~= (match c {
                ComponentId::Position => WorldModel {
                    positions_reg: true,
                    positions: old(self)@.positions,
                    ..old(self)@
                },
                ComponentId::Rotation => WorldModel {
                    rotations_reg: true,
                    rotations: old(self)@.rotations,
                    ..old(self)@
                },
                ComponentId::Velocity => WorldModel {
                    velocities_reg: true,
                    velocities: old(self)@.velocities,
                    ..old(self)@
                },
                ComponentId::AngularMomentum => WorldModel {
                    angulars_reg: true,
                    angulars: old(self)@.angulars,
                    ..old(self)@
                },
                ComponentId::Controllable => WorldModel {
                    controllables_reg: true,
                    controllables: old(self)@.controllables,
                    ..old(self)@
                },
                ComponentId::Sprite => WorldModel {
                    sprites_reg: true,
                    sprites: old(self)@.sprites,
                    ..old(self)@
                },
            }));
        }
    }

    /// Starts building one entity: component values accumulate on the
    /// builder and are attached together by `build`.
    pub fn create_entity(&self) -> (r: EntityBuilder)
        ensures
            r@ == Seq::<ComponentValue>::empty(),
    {
        EntityBuilder { items: Vec::new() }
    }
}

/// Accumulates the initial component values of one entity; `build`
/// allocates the identity and performs all the attachments.
pub struct EntityBuilder {
    items: Vec<ComponentValue>,
}

impl View for EntityBuilder {
    type V = Seq<ComponentValue>;

    closed spec fn view(&self) -> Seq<ComponentValue> {
        self.items@
    }
}

impl EntityBuilder {
    /// Adds one component value to the entity being built.
    pub fn with(self, c: ComponentValue) -> (r: EntityBuilder)
        ensures
            r@ == self@.push(c),
    {
        let mut items = self.items;
        items.push(c);
        EntityBuilder { items }
    }

    /// Allocates a fresh entity and attaches every accumulated component
    /// value to it, in order (a later value for the same component type
    /// overwrites an earlier one).
    pub fn build(self, world: &mut World) -> (e: Entity)
        requires
            old(world).wf(),
            old(world)@.entities.len() < usize::MAX,
            forall|i: int| 0 <= i < self@.len()
                ==> old(world).spec_registered(#[trigger] World::id_of(self@[i])),
        ensures
            final(world).wf(),
            e.id == old(world)@.entities.len(),
            forall|i: int| 0 <= i < old(world)@.entities.len()
                ==> old(world)@.entities[i] != e,
            final(world)@ == apply_items(
                WorldModel { entities: old(world)@.entities.push(e), ..old(world)@ },
                e,
                self@,
            ),
    {
        let e = world.registry.create();
        let ghost w1 = WorldModel { entities: old(world)@.entities.push(e), ..old(world)@ };
        let items = self.items;
        let mut i: usize = 0;
        while i < items.len()
            invariant
                i <= items@.len(),
                world.wf(),
                e.id < usize::MAX,
                forall|j: int| 0 <= j < items@.len()
                    ==> world.spec_registered(#[trigger] World::id_of(items@[j])),
                world@ == apply_items(w1, e, items@.take(i as int)),
            decreases items@.len() - i,
        {
            let ghost wprev = world@;
            let c = items[i];
            proof {
                assert(items@[i as int] == c);
                assert(world.spec_registered(World::id_of(items@[i as int])));
            }
            match c {
                ComponentValue::Position(v) => {
                    match &mut world.positions {
                        Some(s) => s.insert(e, v),
                        None => vstd::pervasive::unreached(),
                    }
                },
                ComponentValue::Rotation(v) => {
                    match &mut world.rotations {
                        Some(s) => s.insert(e, v),
                        None => vstd::pervasive::unreached(),
                    }
                },
                ComponentValue::Velocity(v) => {
                    match &mut world.velocities {
                        Some(s) => s.insert(e, v),
                        None => vstd::pervasive::unreached(),
                    }
                },
                ComponentValue::AngularMomentum(v) => {
                    match &mut world.angulars {
                        Some(s) => s.insert(e, v),
                        None => vstd::pervasive::unreached(),
                    }
                },
                ComponentValue::Controllable(v) => {
                    match &mut world.controllables {
                        Some(s) => s.insert(e, v),
                        None => vstd::pervasive::unreached(),
                    }
                },
                ComponentValue::Sprite(v) => {
                    match &mut world.sprites {
                        Some(s) => s.insert(e, v),
                        None => vstd::pervasive::unreached(),
                    }
                },
            }
            proof {
                assert(world@ =~= apply_item(wprev, e, c));
                assert(items@.take(i + 1).drop_last() =~= items@.take(i as int));
                assert(items@.take(i + 1).last() == c);
                assert(world@ == apply_items(w1, e, items@.take(i + 1)));
            }
            i = i + 1;
        }
        proof {
            assert(items@.take(items@.len() as int) =~= items@);
        }
        e
    }
}

} // verus!
