use vstd::prelude::*;

use crate::dispatch::{DispatcherBuilder, SystemKind, SystemReg};
use crate::entity::Entity;
use crate::movement::{Vec2, Velocity};
use crate::storage::{join2, Storage};
use crate::world::{registered_after, ComponentId, World};

verus! {

/// The name the control system is registered under.
pub const CONTROL_NAME: u64 = 1;

/// Registers the controllable-tag storage, seeds the keyboard resource,
/// and registers the control system with no predecessors.
pub fn init_world(world: &mut World, dispatcher_builder: DispatcherBuilder) -> (r: DispatcherBuilder)
    requires
        old(world).wf(),
    ensures
        final(world).wf(),
        final(world)@.keyboard is Some,
        forall|k: Key| !(final(world)@.keyboard->0.spec_pressed(k)),
        registered_after(
            crate::world::WorldModel { keyboard: final(world)@.keyboard, ..old(world)@ },
            final(world)@,
            ComponentId::Controllable,
        ),
        r@.len() == dispatcher_builder@.len() + 1,
        forall|i: int| 0 <= i < dispatcher_builder@.len() ==> r@[i] == dispatcher_builder@[i],
        r@.last().kind == SystemKind::Control,
        r@.last().name == CONTROL_NAME,
        r@.last().deps@.len() == 0,
{
    world.resources.insert_keyboard(Keyboard::new());
    world.register_component(ComponentId::Controllable);
    dispatcher_builder.add(SystemKind::Control, CONTROL_NAME, Vec::new())
}

/// A key identity the core cares about: the four direction keys.
#[derive(Clone, Copy, PartialEq, Eq, Structural, Debug, Hash)]
pub enum Key {
    W,
    A,
    S,
    D,
}

/// The keyboard state resource: which keys are currently held down. The
/// host writes it through `set_pressed`; the core never polls a platform.
#[derive(Clone, Copy, PartialEq, Eq, Structural, Debug)]
pub struct Keyboard {
    w: bool,
    a: bool,
    s: bool,
    d: bool,
}

impl Keyboard {
    /// Whether `k` is currently held down.
    pub closed spec fn spec_pressed(self, k: Key) -> bool {
        match k {
            Key::W => self.w,
            Key::A => self.a,
            Key::S => self.s,
            Key::D => self.d,
        }
    }

    /// A keyboard with no key held down.
    pub fn new() -> (r: Keyboard)
        ensures
            forall|k: Key| !r.spec_pressed(k),
    {
        Keyboard { w: false, a: false, s: false, d: false }
    }

    pub fn is_pressed(&self, btn: Key) -> (r: bool)
        ensures
            r == self.spec_pressed(btn),
    {
        match btn {
            Key::W => self.w,
            Key::A => self.a,
            Key::S => self.s,
            Key::D => self.d,
        }
    }

    /// The host-facing write accessor: key-down and key-up events land
    /// here, and nowhere else.
    pub fn set_pressed(&mut self, key: Key, down: bool)
        ensures
            final(self).spec_pressed(key) == down,
            forall|k: Key| k != key
                ==> final(self).spec_pressed(k) == old(self).spec_pressed(k),
    {
        match key {
            Key::W => self.w = down,
            Key::A => self.a = down,
            Key::S => self.s = down,
            Key::D => self.d = down,
        }
    }
}

/// Marks an entity as player-controlled: a tag component with no payload,
/// held in a sparse storage since few entities carry it.
#[derive(Clone, Copy, PartialEq, Eq, Structural, Debug)]
pub struct Controllable;

/// The control system: reads the keyboard and the controllable tags,
/// writes velocities. Input is global, so every controllable entity that
/// has a velocity receives the same commanded vector.
pub struct Control;

impl Control {
    /// The velocity the keyboard commands: 300 units per second along each
    /// pressed axis, opposite keys cancelling (up is negative y).
    pub open spec fn spec_velocity(k: Keyboard) -> Vec2 {
        Vec2 {
            x: ((if k.spec_pressed(Key::D) { 300000int } else { 0int })
                - (if k.spec_pressed(Key::A) { 300000int } else { 0int })) as i64,
            y: ((if k.spec_pressed(Key::S) { 300000int } else { 0int })
                - (if k.spec_pressed(Key::W) { 300000int } else { 0int })) as i64,
        }
    }

    /// One control tick over the whole velocity map.
    pub open spec fn spec_run(
        vel: Map<Entity, Velocity>,
        ctl: Map<Entity, Controllable>,
        k: Keyboard,
    ) -> Map<Entity, Velocity> {
        Map::new(
            |e: Entity| vel.dom().contains(e),
            |e: Entity| if ctl.dom().contains(e) {
                Velocity(Self::spec_velocity(k))
            } else {
                vel[e]
            },
        )
    }

    pub fn run(&self, kbd: &Keyboard, ctl: &Storage<Controllable>, vel: &mut Storage<Velocity>)
        requires
            ctl.wf(),
            old(vel).wf(),
        ensures
            final(vel).wf(),
            final(vel)@ == Self::spec_run(old(vel)@, ctl@, *kbd),
    {
        let mut xvel: i64 = 0;
        let mut yvel: i64 = 0;

        if kbd.is_pressed(Key::W) {
            yvel = yvel - 300000;
        }
        if kbd.is_pressed(Key::S) {
            yvel = yvel + 300000;
        }
        if kbd.is_pressed(Key::A) {
            xvel = xvel - 300000;
        }
        if kbd.is_pressed(Key::D) {
            xvel = xvel + 300000;
        }
        let commanded = Velocity(Vec2 { x: xvel, y: yvel });
        proof {
            assert(commanded == Velocity(Self::spec_velocity(*kbd)));
        }

        let keys = join2(ctl, vel);
        let ghost vel0 = vel@;
        let mut i: usize = 0;
        while i < keys.len()
            invariant
                i <= keys@.len(),
                vel.wf(),
                forall|e: Entity| keys@.contains(e)
                    <==> (ctl@.dom().contains(e) && vel0.dom().contains(e)),
                keys@.no_duplicates(),
                vel@.dom() =~= vel0.dom(),
                forall|e: Entity| #[trigger] vel@.dom().contains(e)
                    ==> vel@[e] == if keys@.take(i as int).contains(e) {
                        commanded
                    } else {
                        vel0[e]
                    },
            decreases keys@.len() - i,
        {
            let e = keys[i];
            proof {
                assert(keys@[i as int] == e);
                assert(keys@.contains(e));
            }
            vel.insert(e, commanded);
            proof {
                assert(keys@.take(i + 1) =~= keys@.take(i as int).push(e));
                assert forall|x: Entity| #[trigger] vel@.dom().contains(x)
                    implies vel@[x] == if keys@.take(i + 1).contains(x) {
                        commanded
                    } else {
                        vel0[x]
                    } by {
                    if keys@.take(i + 1).contains(x) {
                        let t = keys@.take(i + 1);
                        let j = choose|j: int| 0 <= j < t.len() && t[j] == x;
                        if j < i {
                            assert(keys@.take(i as int)[j] == x);
                            assert(keys@.take(i as int).contains(x));
                        }
                    } else {
                        if keys@.take(i as int).contains(x) {
                            let j = choose|j: int|
                                0 <= j < i && keys@.take(i as int)[j] == x;
                            assert(keys@.take(i + 1)[j] == x);
                        }
                        if x == e {
                            assert(keys@.take(i + 1)[i as int] == e);
                        }
                        assert(!keys@.take(i as int).contains(x) && x != e);
                    }
                }
                assert(vel@.dom() =~= vel0.dom());
            }
            i = i + 1;
        }
        proof {
            assert(keys@.take(keys@.len() as int) =~= keys@);
            assert(final(vel)@ =~= Self::spec_run(vel0, ctl@, *kbd));
        }
    }
}

} // verus!
