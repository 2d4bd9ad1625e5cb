use vstd::prelude::*;

use crate::entity::Entity;

verus! {

/// Owns all live `(Entity, value)` pairs for one component type: at most
/// one value per entity. The two backings are interchangeable behind one
/// contract; which one a storage uses is a performance policy, never a
/// behavioural one. The view of a storage is the map from each entity that
/// has the component to its value.
pub enum Storage<T> {
    /// An index-addressed array: for components most entities have.
    Dense(Vec<Option<T>>),
    /// An association list keyed by entity: for components few entities have.
    Sparse(Vec<(Entity, T)>),
}

/// Whether some pair of `s` carries the key `e`.
pub open spec fn sparse_has<T>(s: Seq<(Entity, T)>, e: Entity) -> bool {
    exists|i: int| 0 <= i < s.len() && s[i].0 == e
}

/// The value the association list carries for `e` (with unique keys, the
/// only one).
pub open spec fn sparse_at<T>(s: Seq<(Entity, T)>, e: Entity) -> T {
    let i = choose|i: int| 0 <= i < s.len() && s[i].0 == e;
    s[i].1
}

/// No entity appears twice among the keys of `s`.
pub open spec fn sparse_unique<T>(s: Seq<(Entity, T)>) -> bool {
    forall|i: int, j: int| 0 <= i < j < s.len() ==> s[i].0 != s[j].0
}

impl<T> View for Storage<T> {
    type V = Map<Entity, T>;

    closed spec fn view(&self) -> Map<Entity, T> {
        match self {
            Storage::Dense(d) => Map::new(
                |e: Entity| e.id < d@.len() && d@[e.id as int] is Some,
                |e: Entity| d@[e.id as int]->0,
            ),
            Storage::Sparse(s) => Map::new(
                |e: Entity| sparse_has(s@, e),
                |e: Entity| sparse_at(s@, e),
            ),
        }
    }
}

fn sparse_find<T>(s: &Vec<(Entity, T)>, e: Entity) -> (r: Option<usize>)
    ensures
        match r {
            Some(i) => i < s@.len() && s@[i as int].0 == e,
            None => !sparse_has(s@, e),
        },
{
    let mut i: usize = 0;
    while i < s.len()
        invariant
            i <= s@.len(),
            forall|j: int| 0 <= j < i ==> s@[j].0 != e,
        decreases s@.len() - i,
    {
        if s[i].0 == e {
            return Some(i);
        }
        i = i + 1;
    }
    None
}

impl<T> Storage<T> {
    /// A sparse backing is well formed when no entity appears twice.
    pub closed spec fn wf(&self) -> bool {
        match self {
            Storage::Dense(_) => true,
            Storage::Sparse(s) => sparse_unique(s@),
        }
    }

    /// An empty storage with the dense, index-addressed backing.
    pub fn new_dense() -> (r: Storage<T>)
        ensures
            r@ =~= Map::<Entity, T>::empty(),
            r.wf(),
    {
        Storage::Dense(Vec::new())
    }

    /// An empty storage with the sparse, associative backing.
    pub fn new_sparse() -> (r: Storage<T>)
        ensures
            r@ =~= Map::<Entity, T>::empty(),
            r.wf(),
    {
        Storage::Sparse(Vec::new())
    }

    /// Whether `e` has this component.
    pub fn contains(&self, e: Entity) -> (r: bool)
        requires
            self.wf(),
        ensures
            r == self@.dom().contains(e),
    {
        match self {
            Storage::Dense(d) => e.id < d.len() && d[e.id].is_some(),
            Storage::Sparse(s) => sparse_find(s, e).is_some(),
        }
    }

    /// The component of `e`, if it has one. Absence is represented, not
    /// signalled as failure.
    pub fn get(&self, e: Entity) -> (r: Option<&T>)
        requires
            self.wf(),
        ensures
            match r {
                Some(v) => self@.dom().contains(e) && *v == self@[e],
                None => !self@.dom().contains(e),
            },
    {
        match self {
            Storage::Dense(d) => {
                if e.id < d.len() {
                    d[e.id].as_ref()
                } else {
                    None
                }
            },
            Storage::Sparse(s) => {
                match sparse_find(s, e) {
                    Some(i) => {
                        proof {
                            lemma_sparse_key_at(s@, e, i as int);
                        }
                        Some(&s[i].1)
                    },
                    None => None,
                }
            },
        }
    }

    /// Attaches `v` to `e`, overwriting any prior value for `e`.
    pub fn insert(&mut self, e: Entity, v: T)
        requires
            old(self).wf(),
            e.id < usize::MAX || old(self)@.dom().contains(e),
        ensures
            final(self).wf(),
            final(self)@ == old(self)@.insert(e, v),
    {
        match self {
            Storage::Dense(d) => {
                dense_put(d, e, v);
            },
            Storage::Sparse(s) => {
                sparse_put(s, e, v);
            },
        }
        proof {
            assert(final(self)@ =~= old(self)@.insert(e, v));
        }
    }

    /// The entities that have this component, each exactly once, in the
    /// backing's iteration order (stable between mutations).
    pub fn entities(&self) -> (r: Vec<Entity>)
        requires
            self.wf(),
        ensures
            forall|e: Entity| r@.contains(e) <==> self@.dom().contains(e),
            r@.no_duplicates(),
    {
        match self {
            Storage::Dense(d) => {
                let r = dense_keys(d);
                proof {
                    lemma_increasing_no_dup(r@);
                }
                r
            },
            Storage::Sparse(s) => {
                let r = sparse_keys(s);
                proof {
                    assert forall|e: Entity| r@.contains(e)
                        implies self@.dom().contains(e) by {
                        let j = choose|j: int| 0 <= j < r@.len() && r@[j] == e;
                        assert(s@[j].0 == e);
                    }
                    assert forall|e: Entity| self@.dom().contains(e)
                        implies r@.contains(e) by {
                        let j = choose|j: int| 0 <= j < s@.len() && s@[j].0 == e;
                        assert(r@[j] == e);
                    }
                    assert forall|j1: int, j2: int|
                        0 <= j1 < j2 < r@.len() implies r@[j1] != r@[j2] by {
                        assert(s@[j1].0 != s@[j2].0);
                    }
                    lemma_pairwise_no_dup(r@);
                }
                r
            },
        }
    }
}

fn dense_put<T>(d: &mut Vec<Option<T>>, e: Entity, v: T)
    requires
        old(d)@.len() <= e.id ==> e.id < usize::MAX,
    ensures
        final(d)@.len() == if old(d)@.len() <= e.id { e.id + 1 } else { old(d)@.len() as int },
        final(d)@[e.id as int] == Some(v),
        forall|i: int| 0 <= i < old(d)@.len() && i != e.id ==> final(d)@[i] == old(d)@[i],
        forall|i: int| old(d)@.len() <= i < final(d)@.len() && i != e.id
            ==> final(d)@[i] is None,
{
    while d.len() <= e.id
        invariant
            old(d)@.len() <= e.id ==> e.id < usize::MAX,
            old(d)@.len() <= d@.len(),
            old(d)@.len() <= e.id ==> d@.len() <= e.id + 1,
            old(d)@.len() > e.id ==> d@ == old(d)@,
            forall|i: int| 0 <= i < old(d)@.len() ==> d@[i] == old(d)@[i],
            forall|i: int| old(d)@.len() <= i < d@.len() ==> d@[i] is None,
        decreases e.id - d@.len() + 1,
    {
        d.push(None);
    }
    d[e.id] = Some(v);
}

fn sparse_put<T>(s: &mut Vec<(Entity, T)>, e: Entity, v: T)
    requires
        sparse_unique(old(s)@),
    ensures
        sparse_unique(final(s)@),
        forall|x: Entity| sparse_has(final(s)@, x) <==> (x == e || sparse_has(old(s)@, x)),
        forall|x: Entity| sparse_has(old(s)@, x) && x != e
            ==> sparse_at(final(s)@, x) == sparse_at(old(s)@, x),
        sparse_at(final(s)@, e) == v,
{
    match sparse_find(s, e) {
        Some(i) => {
            s[i] = (e, v);
            proof {
                lemma_sparse_update(old(s)@, e, v, i as int);
            }
        },
        None => {
            s.push((e, v));
            proof {
                lemma_sparse_push(old(s)@, e, v);
            }
        },
    }
}

fn dense_keys<T>(d: &Vec<Option<T>>) -> (r: Vec<Entity>)
    ensures
        forall|e: Entity| r@.contains(e)
            <==> (e.id < d@.len() && d@[e.id as int] is Some),
        forall|j1: int, j2: int| 0 <= j1 < j2 < r@.len() ==> r@[j1].id < r@[j2].id,
{
    let mut r: Vec<Entity> = Vec::new();
    let mut i: usize = 0;
    while i < d.len()
        invariant
            i <= d@.len(),
            forall|e: Entity| #[trigger] r@.contains(e)
                <==> (e.id < i && d@[e.id as int] is Some),
            forall|j: int| 0 <= j < r@.len() ==> r@[j].id < i,
            forall|j1: int, j2: int| 0 <= j1 < j2 < r@.len() ==> r@[j1].id < r@[j2].id,
        decreases d@.len() - i,
    {
        let ghost r0 = r@;
        let some_here = d[i].is_some();
        if some_here {
            r.push(Entity { id: i });
        }
        proof {
            if some_here {
                assert(r@ == r0.push(Entity { id: i as usize }));
                assert(r@[r@.len() - 1] == Entity { id: i as usize });
            }
            assert forall|e: Entity| #[trigger] r@.contains(e)
                implies (e.id < i + 1 && d@[e.id as int] is Some) by {
                let j = choose|j: int| 0 <= j < r@.len() && r@[j] == e;
                if j < r0.len() {
                    assert(r0[j] == e);
                    assert(r0.contains(e));
                } else {
                    assert(e == Entity { id: i as usize });
                }
            }
            assert forall|e: Entity| e.id < i + 1 && d@[e.id as int] is Some
                implies #[trigger] r@.contains(e) by {
                if e.id < i {
                    assert(r0.contains(e));
                    let j = choose|j: int| 0 <= j < r0.len() && r0[j] == e;
                    assert(r@[j] == e);
                } else {
                    assert(e == Entity { id: i as usize });
                    assert(r@[r@.len() - 1] == e);
                }
            }
            assert forall|j1: int, j2: int| 0 <= j1 < j2 < r@.len()
                implies r@[j1].id < r@[j2].id by {
                if j2 == r@.len() - 1 && some_here {
                    assert(r@[j1] == r0[j1]);
                }
            }
        }
        i = i + 1;
    }
    r
}

fn sparse_keys<T>(s: &Vec<(Entity, T)>) -> (r: Vec<Entity>)
    ensures
        r@.len() == s@.len(),
        forall|j: int| 0 <= j < s@.len() ==> r@[j] == s@[j].0,
{
    let mut r: Vec<Entity> = Vec::new();
    let mut i: usize = 0;
    while i < s.len()
        invariant
            i <= s@.len(),
            r@.len() == i,
            forall|j: int| 0 <= j < i ==> r@[j] == s@[j].0,
        decreases s@.len() - i,
    {
        r.push(s[i].0);
        i = i + 1;
    }
    r
}

proof fn lemma_sparse_key_at<T>(s: Seq<(Entity, T)>, e: Entity, i: int)
    requires
        sparse_unique(s),
        0 <= i < s.len(),
        s[i].0 == e,
    ensures
        sparse_has(s, e),
        sparse_at(s, e) == s[i].1,
{
    let j = choose|j: int| 0 <= j < s.len() && s[j].0 == e;
    if j != i {
        assert(s[j].0 != s[i].0 || s[i].0 != s[j].0);
    }
}

proof fn lemma_sparse_update<T>(s: Seq<(Entity, T)>, e: Entity, v: T, i: int)
    requires
        sparse_unique(s),
        0 <= i < s.len(),
        s[i].0 == e,
    ensures
        sparse_unique(s.update(i, (e, v))),
        forall|x: Entity| sparse_has(s.update(i, (e, v)), x) <==> (x == e || sparse_has(s, x)),
        forall|x: Entity| sparse_has(s, x) && x != e
            ==> sparse_at(s.update(i, (e, v)), x) == sparse_at(s, x),
        sparse_at(s.update(i, (e, v)), e) == v,
{
    let t = s.update(i, (e, v));
    assert forall|x: Entity| sparse_has(t, x) implies (x == e || sparse_has(s, x)) by {
        let j = choose|j: int| 0 <= j < t.len() && t[j].0 == x;
        if j != i {
            assert(s[j].0 == x);
        }
    }
    assert forall|x: Entity| x == e || sparse_has(s, x) implies sparse_has(t, x) by {
        if x == e {
            assert(t[i].0 == e);
        } else {
            let j = choose|j: int| 0 <= j < s.len() && s[j].0 == x;
            assert(j != i);
            assert(t[j].0 == x);
        }
    }
    assert forall|x: Entity| sparse_has(s, x) && x != e
        implies sparse_at(t, x) == sparse_at(s, x) by {
        let j = choose|j: int| 0 <= j < s.len() && s[j].0 == x;
        lemma_sparse_key_at(s, x, j);
        assert(j != i);
        lemma_sparse_key_at(t, x, j);
    }
    lemma_sparse_key_at(t, e, i);
}

proof fn lemma_sparse_push<T>(s: Seq<(Entity, T)>, e: Entity, v: T)
    requires
        sparse_unique(s),
        !sparse_has(s, e),
    ensures
        sparse_unique(s.push((e, v))),
        forall|x: Entity| sparse_has(s.push((e, v)), x) <==> (x == e || sparse_has(s, x)),
        forall|x: Entity| sparse_has(s, x) && x != e
            ==> sparse_at(s.push((e, v)), x) == sparse_at(s, x),
        sparse_at(s.push((e, v)), e) == v,
{
    let t = s.push((e, v));
    assert forall|j1: int, j2: int| 0 <= j1 < j2 < t.len()
        implies t[j1].0 != t[j2].0 by {
        if j2 == s.len() {
            assert(t[j1].0 == s[j1].0);
            if t[j1].0 == e {
                assert(sparse_has(s, e));
            }
        }
    }
    assert forall|x: Entity| sparse_has(t, x) implies (x == e || sparse_has(s, x)) by {
        let j = choose|j: int| 0 <= j < t.len() && t[j].0 == x;
        if j < s.len() {
            assert(s[j].0 == x);
        }
    }
    assert forall|x: Entity| x == e || sparse_has(s, x) implies sparse_has(t, x) by {
        if x == e {
            assert(t[s.len() as int].0 == e);
        } else {
            let j = choose|j: int| 0 <= j < s.len() && s[j].0 == x;
            assert(t[j].0 == x);
        }
    }
    assert forall|x: Entity| sparse_has(s, x) && x != e
        implies sparse_at(t, x) == sparse_at(s, x) by {
        let j = choose|j: int| 0 <= j < s.len() && s[j].0 == x;
        lemma_sparse_key_at(s, x, j);
        lemma_sparse_key_at(t, x, j);
    }
    lemma_sparse_key_at(t, e, s.len() as int);
}

proof fn lemma_increasing_no_dup(r: Seq<Entity>)
    requires
        forall|j1: int, j2: int| 0 <= j1 < j2 < r.len() ==> r[j1].id < r[j2].id,
    ensures
        r.no_duplicates(),
{
}

proof fn lemma_pairwise_no_dup(r: Seq<Entity>)
    requires
        forall|j1: int, j2: int| 0 <= j1 < j2 < r.len() ==> r[j1] != r[j2],
    ensures
        r.no_duplicates(),
{
}

/// The set-intersection query: the entities present in both storages,
/// each exactly once, in the first storage's iteration order.
pub fn join2<A, B>(a: &Storage<A>, b: &Storage<B>) -> (r: Vec<Entity>)
    requires
        a.wf(),
        b.wf(),
    ensures
        forall|e: Entity| r@.contains(e) <==> (a@.dom().contains(e) && b@.dom().contains(e)),
        r@.no_duplicates(),
{
    let ka = a.entities();
    let mut r: Vec<Entity> = Vec::new();
    let mut i: usize = 0;
    while i < ka.len()
        invariant
            i <= ka@.len(),
            b.wf(),
            forall|e: Entity| ka@.contains(e) <==> a@.dom().contains(e),
            ka@.no_duplicates(),
            forall|e: Entity| #[trigger] r@.contains(e)
                <==> (exists|j: int| 0 <= j < i && ka@[j] == e) && b@.dom().contains(e),
            r@.no_duplicates(),
        decreases ka@.len() - i,
    {
        let e = ka[i];
        let ghost r0 = r@;
        let hit = b.contains(e);
        if hit {
            proof {
                if r0.contains(e) {
                    let j = choose|j: int| 0 <= j < i && ka@[j] == e;
                    assert(ka@[j] == ka@[i as int]);
                }
            }
            r.push(e);
        }
        proof {
            if hit {
                assert(r@ == r0.push(e));
                assert(r@[r@.len() - 1] == e);
            }
            assert(ka@[i as int] == e);
            assert forall|x: Entity| #[trigger] r@.contains(x)
                implies (exists|j: int| 0 <= j < i + 1 && ka@[j] == x)
                    && b@.dom().contains(x) by {
                let j = choose|j: int| 0 <= j < r@.len() && r@[j] == x;
                if j < r0.len() {
                    assert(r0[j] == x);
                    assert(r0.contains(x));
                } else {
                    assert(x == e);
                    assert(ka@[i as int] == x);
                }
            }
            assert forall|x: Entity|
                (exists|j: int| 0 <= j < i + 1 && ka@[j] == x) && b@.dom().contains(x)
                implies #[trigger] r@.contains(x) by {
                let j = choose|j: int| 0 <= j < i + 1 && ka@[j] == x;
                if j < i {
                    assert(r0.contains(x));
                    let jj = choose|jj: int| 0 <= jj < r0.len() && r0[jj] == x;
                    assert(r@[jj] == x);
                } else {
                    assert(x == e);
                    assert(r@[r@.len() - 1] == e);
                }
            }
            assert forall|j1: int, j2: int| 0 <= j1 < j2 < r@.len()
                implies r@[j1] != r@[j2] by {
                if hit && j2 == r@.len() - 1 {
                    assert(r@[j1] == r0[j1]);
                    assert(r0.contains(r0[j1]));
                }
            }
        }
        i = i + 1;
    }
    proof {
        assert forall|e: Entity|
            (a@.dom().contains(e) && b@.dom().contains(e)) implies r@.contains(e) by {
            assert(ka@.contains(e));
            let j = choose|j: int| 0 <= j < ka@.len() && ka@[j] == e;
            assert(0 <= j < i && ka@[j] == e);
        }
        assert forall|e: Entity| #[trigger] r@.contains(e)
            implies (a@.dom().contains(e) && b@.dom().contains(e)) by {
            let j = choose|j: int| 0 <= j < i && ka@[j] == e;
            assert(ka@.contains(e));
        }
    }
    r
}

} // verus!
