use vstd::prelude::*;

pub mod control;
pub mod dispatch;
pub mod entity;
pub mod graphics;
pub mod movement;
pub mod resources;
pub mod storage;
pub mod world;

verus! {

/// The wall-clock time one tick covers, in milliseconds.
///
/// Scalar quantities in this crate are fixed-point: a value of `n` stands
/// for `n` thousandths of the unit (here, `n` milliseconds of a second).
#[derive(Clone, Copy, PartialEq, Eq, Structural, Debug)]
pub struct DeltaTime(pub i64);

/// Seeds the elapsed-time resource with its starting value (50 ms); the
/// dispatcher builder passes through unchanged.
pub fn init_world(
    world: &mut world::World,
    dispatcher_builder: dispatch::DispatcherBuilder,
) -> (r: dispatch::DispatcherBuilder)
    requires
        old(world).wf(),
    ensures
        final(world).wf(),
        final(world)@ == (world::WorldModel { delta: Some(DeltaTime(50)), ..old(world)@ }),
        r == dispatcher_builder,
{
    world.resources.insert_delta(DeltaTime(50));
    proof {
        assert(final(world)@ =~= (world::WorldModel { delta: Some(DeltaTime(50)), ..old(world)@ }));
    }
    dispatcher_builder
}

} // verus!
