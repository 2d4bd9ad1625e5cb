use vstd::prelude::*;

verus! {

/// An opaque, copyable identity that correlates component values across
/// storages. Two `Entity` values are equal iff they denote the same
/// registry slot. Identities are never recycled, so no generation counter
/// is carried; `id` stays the place where one would go.
#[derive(Clone, Copy, PartialEq, Eq, Structural, Debug, Hash)]
pub struct Entity {
    pub id: usize,
}

/// Allocates entity identities and tracks which are live.
///
/// Identities are handed out monotonically and never reused; the view is
/// the sequence of all created entities, in creation order.
pub struct EntityRegistry {
    next: usize,
}

impl View for EntityRegistry {
    type V = Seq<Entity>;

    closed spec fn view(&self) -> Seq<Entity> {
        Seq::new(self.next as nat, |i: int| Entity { id: i as usize })
    }
}

impl EntityRegistry {
    pub fn new() -> (r: EntityRegistry)
        ensures
            r@ === Seq::<Entity>::empty(),
    {
        EntityRegistry { next: 0 }
    }

    /// A fresh identity: distinct from every entity created before.
    pub fn create(&mut self) -> (e: Entity)
        requires
            old(self)@.len() < usize::MAX,
        ensures
            final(self)@ == old(self)@.push(e),
            e.id == old(self)@.len(),
            forall|i: int| 0 <= i < old(self)@.len() ==> old(self)@[i] != e,
    {
        let e = Entity { id: self.next };
        self.next = self.next + 1;
        proof {
            assert(final(self)@ =~= old(self)@.push(e));
        }
        e
    }

    /// Every live entity, in creation order.
    pub fn all(&self) -> (r: Vec<Entity>)
        ensures
            r@ == self@,
    {
        let mut r: Vec<Entity> = Vec::new();
        let mut i: usize = 0;
        while i < self.next
            invariant
                i <= self.next,
                r@ =~= self@.take(i as int),
            decreases self.next - i,
        {
            r.push(Entity { id: i });
            i = i + 1;
            proof {
                assert(r@ =~= self@.take(i as int));
            }
        }
        proof {
            assert(self@.take(self.next as int) =~= self@);
        }
        r
    }

    /// How many entities have been created.
    pub fn len(&self) -> (r: usize)
        ensures
            r == self@.len(),
    {
        self.next
    }
}

/// Entities handed out by one registry are pairwise distinct: the sequence
/// of created entities never repeats an identity.
pub proof fn lemma_entities_distinct(r: &EntityRegistry)
    ensures
        forall|i: int, j: int|
            0 <= i < r@.len() && 0 <= j < r@.len() && i != j ==> r@[i] != r@[j],
{
}

} // verus!
