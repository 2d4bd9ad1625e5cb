use vstd::prelude::*;

use crate::dispatch::{DispatcherBuilder, SystemKind};
use crate::entity::Entity;
use crate::storage::{join2, Storage};
use crate::world::{ComponentId, World};
use crate::DeltaTime;

verus! {

/// The name the movement system is registered under.
pub const MOVE_NAME: u64 = 2;

/// The name the rotation system is registered under.
pub const ROTATE_NAME: u64 = 3;

/// Registers the four motion component storages and the movement and
/// rotation systems, neither with predecessors.
pub fn init_world(world: &mut World, dispatcher_builder: DispatcherBuilder) -> (r: DispatcherBuilder)
    requires
        old(world).wf(),
    ensures
        final(world).wf(),
        final(world)@.positions_reg && final(world)@.rotations_reg
            && final(world)@.velocities_reg && final(world)@.angulars_reg,
        final(world)@.positions == old(world)@.positions,
        final(world)@.rotations == old(world)@.rotations,
        final(world)@.velocities == old(world)@.velocities,
        final(world)@.angulars == old(world)@.angulars,
        final(world)@.controllables_reg == old(world)@.controllables_reg,
        final(world)@.controllables == old(world)@.controllables,
        final(world)@.sprites_reg == old(world)@.sprites_reg,
        final(world)@.sprites == old(world)@.sprites,
        final(world)@.entities == old(world)@.entities,
        final(world)@.delta == old(world)@.delta,
        final(world)@.keyboard == old(world)@.keyboard,
        r@.len() == dispatcher_builder@.len() + 2,
        forall|i: int| 0 <= i < dispatcher_builder@.len() ==> r@[i] == dispatcher_builder@[i],
        r@[r@.len() - 2].kind == SystemKind::Move,
        r@[r@.len() - 2].name == MOVE_NAME,
        r@[r@.len() - 2].deps@.len() == 0,
        r@.last().kind == SystemKind::Rotate,
        r@.last().name == ROTATE_NAME,
        r@.last().deps@.len() == 0,
{
    world.register_component(ComponentId::Position);
    world.register_component(ComponentId::Rotation);
    world.register_component(ComponentId::Velocity);
    world.register_component(ComponentId::AngularMomentum);
    let b = dispatcher_builder.add(SystemKind::Move, MOVE_NAME, Vec::new());
    b.add(SystemKind::Rotate, ROTATE_NAME, Vec::new())
}

/// A plane vector in fixed-point coordinates: a field holding `n` stands
/// for `n` thousandths of a unit.
#[derive(Clone, Copy, PartialEq, Eq, Structural, Debug)]
pub struct Vec2 {
    pub x: i64,
    pub y: i64,
}

/// Where an entity is, in thousandths of a unit per axis.
#[derive(Clone, Copy, PartialEq, Eq, Structural, Debug)]
pub struct Position(pub Vec2);

/// How an entity is turned, in thousandths of a radian.
#[derive(Clone, Copy, PartialEq, Eq, Structural, Debug)]
pub struct Rotation(pub i64);

/// How fast an entity moves, in thousandths of a unit per second.
#[derive(Clone, Copy, PartialEq, Eq, Structural, Debug)]
pub struct Velocity(pub Vec2);

/// How fast an entity turns, in thousandths of a radian per second.
#[derive(Clone, Copy, PartialEq, Eq, Structural, Debug)]
pub struct AngularMomentum(pub i64);

pub open spec fn abs_int(x: int) -> int {
    if x >= 0 {
        x
    } else {
        -x
    }
}

/// A rate `v` (thousandths per second) integrated over `dt` milliseconds,
/// in thousandths: the product scaled down by 1000, rounded toward zero.
pub open spec fn scaled(v: int, dt: int) -> int {
    let m = (abs_int(v) * abs_int(dt)) / 1000;
    if (v >= 0) == (dt >= 0) {
        m
    } else {
        -m
    }
}

/// Clamps to the range of the fixed-point scalars.
pub open spec fn sat_i64(x: int) -> int {
    if x > i64::MAX {
        i64::MAX as int
    } else if x < i64::MIN {
        i64::MIN as int
    } else {
        x
    }
}

/// One integration step of a scalar: `p` plus `v` over `dt`, saturating at
/// the end of the coordinate range.
pub open spec fn step_scalar(p: int, v: int, dt: int) -> int {
    sat_i64(p + sat_i64(scaled(v, dt)))
}

/// The integration step, executable: `p + v * dt / 1000` in fixed point.
pub fn integrate(p: i64, v: i64, dt: i64) -> (r: i64)
    ensures
        r as int == step_scalar(p as int, v as int, dt as int),
{
    let vm: u128 = if v >= 0 {
        v as u128
    } else {
        (-(v as i128)) as u128
    };
    let dm: u128 = if dt >= 0 {
        dt as u128
    } else {
        (-(dt as i128)) as u128
    };
    proof {
        assert(vm == abs_int(v as int));
        assert(dm == abs_int(dt as int));
        assert(vm * dm <= 0x8000_0000_0000_0000u128 * 0x8000_0000_0000_0000u128)
            by (nonlinear_arith)
            requires
                vm <= 0x8000_0000_0000_0000u128,
                dm <= 0x8000_0000_0000_0000u128,
        ;
    }
    let q: u128 = (vm * dm) / 1000;
    let s: i128 = if (v >= 0) == (dt >= 0) {
        if q > i64::MAX as u128 {
            i64::MAX as i128
        } else {
            q as i128
        }
    } else {
        if q > 0x8000_0000_0000_0000u128 {
            i64::MIN as i128
        } else {
            -(q as i128)
        }
    };
    proof {
        assert(s == sat_i64(scaled(v as int, dt as int)));
    }
    let sum: i128 = (p as i128) + s;
    if sum > i64::MAX as i128 {
        i64::MAX
    } else if sum < i64::MIN as i128 {
        i64::MIN
    } else {
        sum as i64
    }
}

/// The movement system: reads the elapsed time and the velocities, writes
/// the positions. `position += velocity * elapsed_time`, per entity
/// present in both storages.
pub struct Move;

impl Move {
    /// One movement tick over the whole position map.
    pub open spec fn spec_run(
        pos: Map<Entity, Position>,
        vel: Map<Entity, Velocity>,
        dt: int,
    ) -> Map<Entity, Position> {
        Map::new(
            |e: Entity| pos.dom().contains(e),
            |e: Entity| if vel.dom().contains(e) {
                Position(Vec2 {
                    x: step_scalar(pos[e].0.x as int, vel[e].0.x as int, dt) as i64,
                    y: step_scalar(pos[e].0.y as int, vel[e].0.y as int, dt) as i64,
                })
            } else {
                pos[e]
            },
        )
    }

    pub fn run(&self, delta: &DeltaTime, vel: &Storage<Velocity>, pos: &mut Storage<Position>)
        requires
            vel.wf(),
            old(pos).wf(),
        ensures
            final(pos).wf(),
            final(pos)@ == Self::spec_run(old(pos)@, vel@, delta.0 as int),
    {
        let keys = join2(vel, pos);
        let ghost pos0 = pos@;
        let mut i: usize = 0;
        while i < keys.len()
            invariant
                i <= keys@.len(),
                pos.wf(),
                vel.wf(),
                forall|e: Entity| keys@.contains(e)
                    <==> (vel@.dom().contains(e) && pos0.dom().contains(e)),
                keys@.no_duplicates(),
                pos@.dom() =~= pos0.dom(),
                forall|e: Entity| #[trigger] pos@.dom().contains(e)
                    ==> pos@[e] == if keys@.take(i as int).contains(e) {
                        Position(Vec2 {
                            x: step_scalar(pos0[e].0.x as int, vel@[e].0.x as int, delta.0 as int) as i64,
                            y: step_scalar(pos0[e].0.y as int, vel@[e].0.y as int, delta.0 as int) as i64,
                        })
                    } else {
                        pos0[e]
                    },
            decreases keys@.len() - i,
        {
            let e = keys[i];
            proof {
                assert(keys@[i as int] == e);
                assert(keys@.contains(e));
                if keys@.take(i as int).contains(e) {
                    let j = choose|j: int| 0 <= j < i && keys@.take(i as int)[j] == e;
                    assert(keys@[j] == keys@[i as int]);
                }
            }
            let v = match vel.get(e) {
                Some(v) => *v,
                None => vstd::pervasive::unreached(),
            };
            let pv = match pos.get(e) {
                Some(pv) => *pv,
                None => vstd::pervasive::unreached(),
            };
            let nx = integrate(pv.0.x, v.0.x, delta.0);
            let ny = integrate(pv.0.y, v.0.y, delta.0);
            pos.insert(e, Position(Vec2 { x: nx, y: ny }));
            proof {
                assert(keys@.take(i + 1) =~= keys@.take(i as int).push(e));
                assert forall|x: Entity| #[trigger] pos@.dom().contains(x)
                    implies pos@[x] == if keys@.take(i + 1).contains(x) {
                        Position(Vec2 {
                            x: step_scalar(pos0[x].0.x as int, vel@[x].0.x as int, delta.0 as int) as i64,
                            y: step_scalar(pos0[x].0.y as int, vel@[x].0.y as int, delta.0 as int) as i64,
                        })
                    } else {
                        pos0[x]
                    } by {
                    if keys@.take(i + 1).contains(x) {
                        let t = keys@.take(i + 1);
                        let j = choose|j: int| 0 <= j < t.len() && t[j] == x;
                        if j < i {
                            assert(keys@.take(i as int)[j] == x);
                            assert(keys@.take(i as int).contains(x));
                        }
                    } else {
                        if keys@.take(i as int).contains(x) {
                            let j = choose|j: int|
                                0 <= j < i && keys@.take(i as int)[j] == x;
                            assert(keys@.take(i + 1)[j] == x);
                        }
                        if x == e {
                            assert(keys@.take(i + 1)[i as int] == e);
                        }
                        assert(!keys@.take(i as int).contains(x) && x != e);
                    }
                }
                assert(pos@.dom() =~= pos0.dom());
            }
            i = i + 1;
        }
        proof {
            assert(keys@.take(keys@.len() as int) =~= keys@);
            assert(final(pos)@ =~= Self::spec_run(pos0, vel@, delta.0 as int));
        }
    }
}

/// The rotation system: reads the elapsed time and the angular momenta,
/// writes the rotations. `rotation += momentum * elapsed_time`, per entity
/// present in both storages.
pub struct Rotate;

impl Rotate {
    /// One rotation tick over the whole rotation map.
    pub open spec fn spec_run(
        rot: Map<Entity, Rotation>,
        amo: Map<Entity, AngularMomentum>,
        dt: int,
    ) -> Map<Entity, Rotation> {
        Map::new(
            |e: Entity| rot.dom().contains(e),
            |e: Entity| if amo.dom().contains(e) {
                Rotation(step_scalar(rot[e].0 as int, amo[e].0 as int, dt) as i64)
            } else {
                rot[e]
            },
        )
    }

    pub fn run(&self, delta: &DeltaTime, amo: &Storage<AngularMomentum>, rot: &mut Storage<Rotation>)
        requires
            amo.wf(),
            old(rot).wf(),
        ensures
            final(rot).wf(),
            final(rot)@ == Self::spec_run(old(rot)@, amo@, delta.0 as int),
    {
        let keys = join2(amo, rot);
        let ghost rot0 = rot@;
        let mut i: usize = 0;
        while i < keys.len()
            invariant
                i <= keys@.len(),
                rot.wf(),
                amo.wf(),
                forall|e: Entity| keys@.contains(e)
                    <==> (amo@.dom().contains(e) && rot0.dom().contains(e)),
                keys@.no_duplicates(),
                rot@.dom() =~= rot0.dom(),
                forall|e: Entity| #[trigger] rot@.dom().contains(e)
                    ==> rot@[e] == if keys@.take(i as int).contains(e) {
                        Rotation(step_scalar(rot0[e].0 as int, amo@[e].0 as int, delta.0 as int) as i64)
                    } else {
                        rot0[e]
                    },
            decreases keys@.len() - i,
        {
            let e = keys[i];
            proof {
                assert(keys@[i as int] == e);
                assert(keys@.contains(e));
                if keys@.take(i as int).contains(e) {
                    let j = choose|j: int| 0 <= j < i && keys@.take(i as int)[j] == e;
                    assert(keys@[j] == keys@[i as int]);
                }
            }
            let a = match amo.get(e) {
                Some(a) => *a,
                None => vstd::pervasive::unreached(),
            };
            let rv = match rot.get(e) {
                Some(rv) => *rv,
                None => vstd::pervasive::unreached(),
            };
            let nr = integrate(rv.0, a.0, delta.0);
            rot.insert(e, Rotation(nr));
            proof {
                assert(keys@.take(i + 1) =~= keys@.take(i as int).push(e));
                assert forall|x: Entity| #[trigger] rot@.dom().contains(x)
                    implies rot@[x] == if keys@.take(i + 1).contains(x) {
                        Rotation(step_scalar(rot0[x].0 as int, amo@[x].0 as int, delta.0 as int) as i64)
                    } else {
                        rot0[x]
                    } by {
                    if keys@.take(i + 1).contains(x) {
                        let t = keys@.take(i + 1);
                        let j = choose|j: int| 0 <= j < t.len() && t[j] == x;
                        if j < i {
                            assert(keys@.take(i as int)[j] == x);
                            assert(keys@.take(i as int).contains(x));
                        }
                    } else {
                        if keys@.take(i as int).contains(x) {
                            let j = choose|j: int|
                                0 <= j < i && keys@.take(i as int)[j] == x;
                            assert(keys@.take(i + 1)[j] == x);
                        }
                        if x == e {
                            assert(keys@.take(i + 1)[i as int] == e);
                        }
                        assert(!keys@.take(i as int).contains(x) && x != e);
                    }
                }
                assert(rot@.dom() =~= rot0.dom());
            }
            i = i + 1;
        }
        proof {
            assert(keys@.take(keys@.len() as int) =~= keys@);
            assert(final(rot)@ =~= Self::spec_run(rot0, amo@, delta.0 as int));
        }
    }
}

} // verus!
