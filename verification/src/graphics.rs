use vstd::prelude::*;

use crate::dispatch::DispatcherBuilder;
use crate::entity::Entity;
use crate::movement::{Position, Rotation};
use crate::storage::join2;
use crate::world::{ComponentId, World};

verus! {

/// A renderable handle: an opaque token for an externally loaded image.
/// The core never interprets it; the host maps it back to the real asset.
#[derive(Clone, Copy, PartialEq, Eq, Structural, Debug, Hash)]
pub struct Sprite(pub u64);

/// Registers the sprite storage with the world; the dispatcher builder
/// passes through unchanged (drawing is the host's job, not a system's).
pub fn init_world(world: &mut World, dispatcher_builder: DispatcherBuilder) -> (r: DispatcherBuilder)
    requires
        old(world).wf(),
    ensures
        final(world).wf(),
        crate::world::registered_after(old(world)@, final(world)@, ComponentId::Sprite),
        r == dispatcher_builder,
{
    world.register_component(ComponentId::Sprite);
    dispatcher_builder
}

/// One row of the render query: an entity with its position, rotation
/// (zero if it has none) and sprite handle.
#[derive(Clone, Copy, PartialEq, Eq, Structural, Debug)]
pub struct RenderItem {
    pub entity: Entity,
    pub position: Position,
    pub rotation: Rotation,
    pub sprite: Sprite,
}

/// The render query the host runs after each tick: exactly the entities
/// that have both a position and a sprite, each once, with their rotation
/// defaulting to zero where absent. The core draws nothing itself.
pub fn render_items(world: &World) -> (r: Vec<RenderItem>)
    requires
        world.wf(),
        world@.positions_reg,
        world@.rotations_reg,
        world@.sprites_reg,
    ensures
        forall|e: Entity| (exists|i: int| 0 <= i < r@.len() && r@[i].entity == e)
            <==> (world@.positions.dom().contains(e) && world@.sprites.dom().contains(e)),
        forall|i: int, j: int| 0 <= i < j < r@.len() ==> r@[i].entity != r@[j].entity,
        forall|i: int| 0 <= i < r@.len() ==> {
            let e = #[trigger] r@[i].entity;
            &&& r@[i].position == world@.positions[e]
            &&& r@[i].sprite == world@.sprites[e]
            &&& r@[i].rotation == if world@.rotations.dom().contains(e) {
                world@.rotations[e]
            } else {
                Rotation(0)
            }
        },
{
    let positions = match &world.positions {
        Some(s) => s,
        None => vstd::pervasive::unreached(),
    };
    let rotations = match &world.rotations {
        Some(s) => s,
        None => vstd::pervasive::unreached(),
    };
    let sprites = match &world.sprites {
        Some(s) => s,
        None => vstd::pervasive::unreached(),
    };
    let keys = join2(positions, sprites);
    let mut r: Vec<RenderItem> = Vec::new();
    let mut i: usize = 0;
    while i < keys.len()
        invariant
            i <= keys@.len(),
            world.wf(),
            world@.positions_reg,
            world@.rotations_reg,
            world@.sprites_reg,
            positions == world.positions->0,
            rotations == world.rotations->0,
            sprites == world.sprites->0,
            forall|e: Entity| keys@.contains(e)
                <==> (world@.positions.dom().contains(e) && world@.sprites.dom().contains(e)),
            keys@.no_duplicates(),
            r@.len() == i,
            forall|j: int| 0 <= j < i ==> r@[j].entity == keys@[j],
            forall|j: int| 0 <= j < i ==> {
                let e = #[trigger] r@[j].entity;
                &&& r@[j].position == world@.positions[e]
                &&& r@[j].sprite == world@.sprites[e]
                &&& r@[j].rotation == if world@.rotations.dom().contains(e) {
                    world@.rotations[e]
                } else {
                    Rotation(0)
                }
            },
        decreases keys@.len() - i,
    {
        let e = keys[i];
        proof {
            assert(keys@[i as int] == e);
            assert(keys@.contains(e));
        }
        let p = match positions.get(e) {
            Some(p) => *p,
            None => vstd::pervasive::unreached(),
        };
        let s = match sprites.get(e) {
            Some(s) => *s,
            None => vstd::pervasive::unreached(),
        };
        let rot = match rotations.get(e) {
            Some(x) => *x,
            None => Rotation(0),
        };
        r.push(RenderItem { entity: e, position: p, rotation: rot, sprite: s });
        i = i + 1;
    }
    proof {
        assert forall|e: Entity|
            (world@.positions.dom().contains(e) && world@.sprites.dom().contains(e))
            implies (exists|i: int| 0 <= i < r@.len() && r@[i].entity == e) by {
            assert(keys@.contains(e));
            let j = choose|j: int| 0 <= j < keys@.len() && keys@[j] == e;
            assert(r@[j].entity == e);
        }
        assert forall|e: Entity|
            (exists|i: int| 0 <= i < r@.len() && r@[i].entity == e)
            implies (world@.positions.dom().contains(e) && world@.sprites.dom().contains(e)) by {
            let j = choose|j: int| 0 <= j < r@.len() && r@[j].entity == e;
            assert(keys@[j] == e);
            assert(keys@.contains(e));
        }
        assert forall|i2: int, j2: int| 0 <= i2 < j2 < r@.len()
            implies r@[i2].entity != r@[j2].entity by {
            assert(r@[i2].entity == keys@[i2]);
            assert(r@[j2].entity == keys@[j2]);
        }
    }
    r
}

} // verus!
