use vstd::prelude::*;

use crate::control::Control;
use crate::movement::{Move, Rotate};
use crate::world::{World, WorldModel};

verus! {

/// One resource or storage a system may declare access to.
#[derive(Clone, Copy, PartialEq, Eq, Structural, Debug)]
pub enum AccessId {
    DeltaRes,
    KeyboardRes,
    PositionStore,
    RotationStore,
    VelocityStore,
    AngularMomentumStore,
    ControllableStore,
    SpriteStore,
}

/// The closed set of systems the dispatcher can run.
#[derive(Clone, Copy, PartialEq, Eq, Structural, Debug)]
pub enum SystemKind {
    Control,
    Move,
    Rotate,
}

/// The declared shared-read set of each system.
pub open spec fn reads_access(k: SystemKind, a: AccessId) -> bool {
    match k {
        SystemKind::Control => a == AccessId::KeyboardRes || a == AccessId::ControllableStore,
        SystemKind::Move => a == AccessId::DeltaRes || a == AccessId::VelocityStore,
        SystemKind::Rotate => a == AccessId::DeltaRes || a == AccessId::AngularMomentumStore,
    }
}

/// The declared exclusive-write set of each system.
pub open spec fn writes_access(k: SystemKind, a: AccessId) -> bool {
    match k {
        SystemKind::Control => a == AccessId::VelocityStore,
        SystemKind::Move => a == AccessId::PositionStore,
        SystemKind::Rotate => a == AccessId::RotationStore,
    }
}

/// Two systems conflict iff one writes something the other reads or
/// writes: such a pair must never share a parallel group.
pub open spec fn spec_conflicts(a: SystemKind, b: SystemKind) -> bool {
    exists|x: AccessId|
        (writes_access(a, x) && (reads_access(b, x) || writes_access(b, x)))
            || (writes_access(b, x) && (reads_access(a, x) || writes_access(a, x)))
}

proof fn lemma_conflicts_sym(a: SystemKind, b: SystemKind)
    ensures
        spec_conflicts(a, b) == spec_conflicts(b, a),
{
    if spec_conflicts(a, b) {
        let x = choose|x: AccessId|
            (writes_access(a, x) && (reads_access(b, x) || writes_access(b, x)))
                || (writes_access(b, x) && (reads_access(a, x) || writes_access(a, x)));
        assert((writes_access(b, x) && (reads_access(a, x) || writes_access(a, x)))
            || (writes_access(a, x) && (reads_access(b, x) || writes_access(b, x))));
    }
    if spec_conflicts(b, a) {
        let x = choose|x: AccessId|
            (writes_access(b, x) && (reads_access(a, x) || writes_access(a, x)))
                || (writes_access(a, x) && (reads_access(b, x) || writes_access(b, x)));
        assert((writes_access(a, x) && (reads_access(b, x) || writes_access(b, x)))
            || (writes_access(b, x) && (reads_access(a, x) || writes_access(a, x))));
    }
}

/// Decides the conflict relation.
pub fn conflicts(a: SystemKind, b: SystemKind) -> (r: bool)
    ensures
        r == spec_conflicts(a, b),
{
    let r = match (a, b) {
        (SystemKind::Control, SystemKind::Control) => true,
        (SystemKind::Move, SystemKind::Move) => true,
        (SystemKind::Rotate, SystemKind::Rotate) => true,
        (SystemKind::Control, SystemKind::Move) => true,
        (SystemKind::Move, SystemKind::Control) => true,
        (SystemKind::Control, SystemKind::Rotate) => false,
        (SystemKind::Rotate, SystemKind::Control) => false,
        (SystemKind::Move, SystemKind::Rotate) => false,
        (SystemKind::Rotate, SystemKind::Move) => false,
    };
    proof {
        if r {
            match (a, b) {
                (SystemKind::Control, SystemKind::Move) => {
                    assert(writes_access(a, AccessId::VelocityStore)
                        && reads_access(b, AccessId::VelocityStore));
                },
                (SystemKind::Move, SystemKind::Control) => {
                    assert(writes_access(b, AccessId::VelocityStore)
                        && reads_access(a, AccessId::VelocityStore));
                },
                _ => {
                    assert(a == b);
                    let w = match a {
                        SystemKind::Control => AccessId::VelocityStore,
                        SystemKind::Move => AccessId::PositionStore,
                        SystemKind::Rotate => AccessId::RotationStore,
                    };
                    assert(writes_access(a, w) && writes_access(b, w));
                },
            }
        } else {
            if spec_conflicts(a, b) {
                let x = choose|x: AccessId|
                    (writes_access(a, x) && (reads_access(b, x) || writes_access(b, x)))
                        || (writes_access(b, x) && (reads_access(a, x) || writes_access(a, x)));
                assert(false);
            }
        }
    }
    r
}

/// One system's registration record: its name, which system it is, and
/// the names it must run after. Immutable once the dispatcher is built.
#[derive(Debug)]
pub struct SystemReg {
    pub name: u64,
    pub kind: SystemKind,
    pub deps: Vec<u64>,
}

/// `u` must run before `v`: `v` names `u`'s name among its predecessors.
pub open spec fn dep_edge(regs: Seq<SystemReg>, u: int, v: int) -> bool {
    &&& 0 <= u < regs.len()
    &&& 0 <= v < regs.len()
    &&& regs[v].deps@.contains(regs[u].name)
}

/// Some registered system bears the name `n`.
pub open spec fn known_name(regs: Seq<SystemReg>, n: u64) -> bool {
    exists|u: int| 0 <= u < regs.len() && regs[u].name == n
}

/// The name `n` appears in some predecessor list.
pub open spec fn dep_mentioned(regs: Seq<SystemReg>, n: u64) -> bool {
    exists|v: int, k: int|
        0 <= v < regs.len() && 0 <= k < regs[v].deps@.len() && regs[v].deps@[k] == n
}

/// Every declared predecessor name names a registered system.
pub open spec fn deps_known(regs: Seq<SystemReg>) -> bool {
    forall|v: int, k: int|
        0 <= v < regs.len() && 0 <= k < regs[v].deps@.len()
            ==> known_name(regs, #[trigger] regs[v].deps@[k])
}

/// A position assignment witnessing that the predecessor constraints can
/// be linearised: predecessors strictly earlier, everything placed.
pub open spec fn is_sched(regs: Seq<SystemReg>, pos: Seq<int>) -> bool {
    &&& pos.len() == regs.len()
    &&& forall|u: int| 0 <= u < pos.len() ==> 0 <= #[trigger] pos[u] < regs.len()
    &&& forall|u: int, v: int| #[trigger] dep_edge(regs, u, v) ==> pos[u] < pos[v]
}

/// The predecessor constraints admit an execution order.
pub open spec fn schedulable(regs: Seq<SystemReg>) -> bool {
    exists|pos: Seq<int>| is_sched(regs, pos)
}

/// A cycle through the declared predecessor edges.
pub open spec fn is_dep_cycle(regs: Seq<SystemReg>, c: Seq<int>) -> bool {
    &&& c.len() >= 1
    &&& forall|i: int| 0 <= i < c.len() - 1 ==> dep_edge(regs, #[trigger] c[i], c[i + 1])
    &&& dep_edge(regs, c[c.len() - 1], c[0])
}

proof fn lemma_pos_increases(regs: Seq<SystemReg>, pos: Seq<int>, c: Seq<int>, i: int)
    requires
        is_sched(regs, pos),
        is_dep_cycle(regs, c),
        0 <= i < c.len(),
    ensures
        pos[c[0]] + i <= pos[c[i]],
    decreases i,
{
    if i > 0 {
        lemma_pos_increases(regs, pos, c, i - 1);
        assert(dep_edge(regs, c[i - 1], c[i]));
    }
}

/// With a cycle among the declared predecessors no execution order exists:
/// a dispatcher build can then never produce a plan.
pub proof fn lemma_cycle_unschedulable(regs: Seq<SystemReg>, c: Seq<int>)
    requires
        is_dep_cycle(regs, c),
    ensures
        !schedulable(regs),
{
    if schedulable(regs) {
        let pos = choose|pos: Seq<int>| is_sched(regs, pos);
        lemma_pos_increases(regs, pos, c, c.len() - 1);
        assert(dep_edge(regs, c[c.len() - 1], c[0]));
    }
}

#[verifier::rlimit(50)]
proof fn lemma_blocked_descend(
    regs: Seq<SystemReg>,
    done: Seq<bool>,
    pos: Seq<int>,
    v: int,
    fuel: nat,
)
    requires
        is_sched(regs, pos),
        done.len() == regs.len(),
        0 <= v < regs.len(),
        !done[v],
        forall|t: int| 0 <= t < regs.len() && !done[t]
            ==> exists|u: int| #[trigger] dep_edge(regs, u, t) && !done[u],
    ensures
        exists|u: int| 0 <= u < regs.len() && !done[u] && pos[u] <= pos[v] - fuel,
    decreases fuel,
{
    if fuel == 0 {
        assert(0 <= v < regs.len() && !done[v] && pos[v] <= pos[v] - 0);
    } else {
        let u = choose|u: int| #[trigger] dep_edge(regs, u, v) && !done[u];
        assert(pos[u] < pos[v]);
        lemma_blocked_descend(regs, done, pos, u, (fuel - 1) as nat);
        let w = choose|w: int|
            0 <= w < regs.len() && !done[w] && pos[w] <= pos[u] - ((fuel - 1) as nat);
        assert(pos[w] <= pos[v] - fuel);
    }
}

/// If every unscheduled system still waits on an unscheduled predecessor,
/// no execution order exists at all.
proof fn lemma_blocked_unschedulable(regs: Seq<SystemReg>, done: Seq<bool>, v: int)
    requires
        done.len() == regs.len(),
        0 <= v < regs.len(),
        !done[v],
        forall|t: int| 0 <= t < regs.len() && !done[t]
            ==> exists|u: int| #[trigger] dep_edge(regs, u, t) && !done[u],
    ensures
        !schedulable(regs),
{
    if schedulable(regs) {
        let pos = choose|pos: Seq<int>| is_sched(regs, pos);
        lemma_blocked_descend(regs, done, pos, v, (regs.len() + 1) as nat);
        let w = choose|w: int|
            0 <= w < regs.len() && !done[w]
                && pos[w] <= pos[v] - ((regs.len() + 1) as nat);
    }
}

/// A sequence of distinct values drawn from `0..n` has at most `n`
/// entries.
proof fn lemma_distinct_in_range_len(s: Seq<int>, n: int)
    requires
        n >= 0,
        forall|i: int| 0 <= i < s.len() ==> 0 <= #[trigger] s[i] < n,
        forall|i: int, j: int| 0 <= i < j < s.len() ==> s[i] != s[j],
    ensures
        s.len() <= n,
    decreases n,
{
    if n == 0 {
        if s.len() > 0 {
            assert(0 <= s[0] < n);
        }
    } else if exists|i: int| 0 <= i < s.len() && s[i] == n - 1 {
        let i = choose|i: int| 0 <= i < s.len() && s[i] == n - 1;
        let t = s.subrange(0, i).add(s.subrange(i + 1, s.len() as int));
        assert(t.len() == s.len() - 1);
        assert forall|j: int| 0 <= j < t.len() implies 0 <= #[trigger] t[j] < n - 1 by {
            if j < i {
                assert(t[j] == s[j]);
            } else {
                assert(t[j] == s[j + 1]);
            }
        }
        assert forall|j1: int, j2: int| 0 <= j1 < j2 < t.len()
            implies t[j1] != t[j2] by {
            assert(t[j1] == if j1 < i { s[j1] } else { s[j1 + 1] });
            assert(t[j2] == if j2 < i { s[j2] } else { s[j2 + 1] });
        }
        lemma_distinct_in_range_len(t, n - 1);
    } else {
        assert forall|j: int| 0 <= j < s.len() implies 0 <= #[trigger] s[j] < n - 1 by {
            assert(s[j] != n - 1);
        }
        lemma_distinct_in_range_len(s, n - 1);
    }
}

/// A sequence of `n` distinct values drawn from `0..n` hits every value.
proof fn lemma_distinct_covers(s: Seq<int>, n: int, x: int)
    requires
        s.len() == n,
        0 <= x < n,
        forall|i: int| 0 <= i < s.len() ==> 0 <= #[trigger] s[i] < n,
        forall|i: int, j: int| 0 <= i < j < s.len() ==> s[i] != s[j],
    ensures
        s.contains(x),
{
    if s.contains(x) {
        return;
    }
    let t = Seq::new(s.len(), |i: int| if s[i] < x { s[i] } else { s[i] - 1 });
    assert forall|i: int| 0 <= i < t.len() implies 0 <= #[trigger] t[i] < n - 1 by {
        if s[i] == x {
            assert(s.contains(x));
        }
    }
    assert forall|i: int, j: int| 0 <= i < j < t.len() implies t[i] != t[j] by {
        assert(s[i] != s[j]);
        if s[i] == x {
            assert(s.contains(x));
        }
        if s[j] == x {
            assert(s.contains(x));
        }
        assert(t[i] == if s[i] < x { s[i] } else { s[i] - 1 });
        assert(t[j] == if s[j] < x { s[j] } else { s[j] - 1 });
    }
    lemma_distinct_in_range_len(t, n - 1);
}

/// While the distinct plan is shorter than the system list, some system
/// is still unscheduled.
#[verifier::rlimit(100)]
proof fn lemma_some_unscheduled(regs: Seq<SystemReg>, done: Seq<bool>, plan: Seq<PlanEntry>)
    requires
        done.len() == regs.len(),
        plan.len() < regs.len(),
        forall|i: int| 0 <= i < plan.len() ==> (#[trigger] plan[i]).sys < regs.len(),
        forall|i: int, j: int| 0 <= i < j < plan.len() ==> plan[i].sys != plan[j].sys,
        forall|s: int| 0 <= s < regs.len() ==> (done[s] <==> #[trigger] appears(plan, s)),
    ensures
        exists|v: int| 0 <= v < regs.len() && !done[v],
{
    let n = regs.len() as int;
    if forall|t: int| 0 <= t < n ==> done[t] {
        let w = Seq::new(n as nat, |t: int|
            choose|i: int| 0 <= i < plan.len() && plan[i].sys == t);
        assert forall|t: int| 0 <= t < w.len()
            implies 0 <= #[trigger] w[t] < plan.len() by {
            assert(done[t]);
            assert(appears(plan, t));
            assert(plan[w[t]].sys == t);
        }
        assert forall|t1: int, t2: int| 0 <= t1 < t2 < w.len()
            implies w[t1] != w[t2] by {
            assert(done[t1] && done[t2]);
            assert(appears(plan, t1) && appears(plan, t2));
            assert(plan[w[t1]].sys == t1);
            assert(plan[w[t2]].sys == t2);
        }
        lemma_distinct_in_range_len(w, plan.len() as int);
        assert(false);
    }
}

/// When no system is ready and the distinct plan does not yet cover all
/// systems, some system is unscheduled and every unscheduled system waits
/// on an unscheduled predecessor: nothing can ever be ordered.
#[verifier::rlimit(100)]
proof fn lemma_stuck(regs: Seq<SystemReg>, done: Seq<bool>, ready: Seq<usize>)
    requires
        done.len() == regs.len(),
        exists|v: int| 0 <= v < regs.len() && !done[v],
        ready.len() == 0,
        forall|t: int| 0 <= t < regs.len() && !done[t]
            ==> (exists|j: int| 0 <= j < ready.len() && ready[j] == t)
                || (exists|u: int| #[trigger] dep_edge(regs, u, t) && !done[u]),
    ensures
        !schedulable(regs),
{
    let v = choose|v: int| 0 <= v < regs.len() && !done[v];
    assert forall|t: int| 0 <= t < regs.len() && !done[t]
        implies exists|u: int| #[trigger] dep_edge(regs, u, t) && !done[u] by {
        if exists|j: int| 0 <= j < ready.len() && ready[j] == t {
            let j = choose|j: int| 0 <= j < ready.len() && ready[j] == t;
        }
    }
    lemma_blocked_unschedulable(regs, done, v);
}

/// One slot of the execution plan: which registration runs, and in which
/// parallel group. Systems sharing a group never conflict; groups run in
/// ascending order.
#[derive(Clone, Copy, PartialEq, Eq, Structural, Debug)]
pub struct PlanEntry {
    pub sys: usize,
    pub group: usize,
}

/// What a correct execution plan is: every registered system exactly
/// once, groups ascending along the plan, every predecessor strictly in
/// an earlier group, and no two conflicting systems in one group.
pub open spec fn appears(p: Seq<PlanEntry>, s: int) -> bool {
    exists|i: int| 0 <= i < p.len() && (#[trigger] p[i]).sys == s
}

pub open spec fn plan_valid(regs: Seq<SystemReg>, p: Seq<PlanEntry>) -> bool {
    &&& forall|i: int| 0 <= i < p.len() ==> (#[trigger] p[i]).sys < regs.len()
    &&& forall|i: int, j: int| 0 <= i < j < p.len() ==> p[i].sys != p[j].sys
    &&& forall|s: int| 0 <= s < regs.len() ==> #[trigger] appears(p, s)
    &&& forall|i: int, j: int| 0 <= i < j < p.len() ==> p[i].group <= p[j].group
    &&& forall|i: int, j: int|
        0 <= i < p.len() && 0 <= j < p.len()
            && dep_edge(regs, (#[trigger] p[i]).sys as int, (#[trigger] p[j]).sys as int)
            ==> p[i].group < p[j].group
    &&& forall|i: int, j: int|
        0 <= i < p.len() && 0 <= j < p.len() && i != j
            && (#[trigger] p[i]).group == (#[trigger] p[j]).group
            ==> !spec_conflicts(regs[p[i].sys as int].kind, regs[p[j].sys as int].kind)
}

/// Why a dispatcher could not be built: a predecessor name that no system
/// bears, or predecessor constraints that cannot be ordered. Both are
/// configuration bugs, reported before any tick runs.
#[derive(Clone, Copy, PartialEq, Eq, Structural, Debug)]
pub enum BuildError {
    UnknownDependency(u64),
    CyclicDependency,
}

fn name_known(regs: &Vec<SystemReg>, nm: u64) -> (r: bool)
    ensures
        r == known_name(regs@, nm),
{
    let mut u: usize = 0;
    while u < regs.len()
        invariant
            u <= regs@.len(),
            forall|w: int| 0 <= w < u ==> regs@[w].name != nm,
        decreases regs@.len() - u,
    {
        if regs[u].name == nm {
            return true;
        }
        u = u + 1;
    }
    false
}

fn find_unknown(regs: &Vec<SystemReg>) -> (r: Option<u64>)
    ensures
        match r {
            Some(nm) => !known_name(regs@, nm) && dep_mentioned(regs@, nm),
            None => deps_known(regs@),
        },
{
    let mut v: usize = 0;
    while v < regs.len()
        invariant
            v <= regs@.len(),
            forall|w: int, k: int|
                0 <= w < v && 0 <= k < regs@[w].deps@.len()
                    ==> known_name(regs@, #[trigger] regs@[w].deps@[k]),
        decreases regs@.len() - v,
    {
        let nd = regs[v].deps.len();
        let mut k: usize = 0;
        while k < nd
            invariant
                v < regs@.len(),
                nd == regs@[v as int].deps@.len(),
                k <= nd,
                forall|w: int, kk: int|
                    0 <= w < v && 0 <= kk < regs@[w].deps@.len()
                        ==> known_name(regs@, #[trigger] regs@[w].deps@[kk]),
                forall|kk: int| 0 <= kk < k
                    ==> known_name(regs@, #[trigger] regs@[v as int].deps@[kk]),
            decreases nd - k,
        {
            let nm = regs[v].deps[k];
            if !name_known(regs, nm) {
                proof {
                    assert(regs@[v as int].deps@[k as int] == nm);
                }
                return Some(nm);
            }
            k = k + 1;
        }
        v = v + 1;
    }
    None
}

fn has_edge(regs: &Vec<SystemReg>, u: usize, v: usize) -> (r: bool)
    requires
        u < regs@.len(),
        v < regs@.len(),
    ensures
        r == dep_edge(regs@, u as int, v as int),
{
    let nm = regs[u].name;
    let nd = regs[v].deps.len();
    let mut k: usize = 0;
    while k < nd
        invariant
            u < regs@.len(),
            v < regs@.len(),
            nm == regs@[u as int].name,
            nd == regs@[v as int].deps@.len(),
            k <= nd,
            forall|kk: int| 0 <= kk < k ==> regs@[v as int].deps@[kk] != nm,
        decreases nd - k,
    {
        if regs[v].deps[k] == nm {
            proof {
                assert(regs@[v as int].deps@[k as int] == nm);
            }
            return true;
        }
        k = k + 1;
    }
    proof {
        if regs@[v as int].deps@.contains(nm) {
            let k = choose|k: int|
                0 <= k < regs@[v as int].deps@.len() && regs@[v as int].deps@[k] == nm;
        }
    }
    false
}

fn preds_done(regs: &Vec<SystemReg>, done: &Vec<bool>, t: usize) -> (r: bool)
    requires
        done@.len() == regs@.len(),
        t < regs@.len(),
    ensures
        r == (forall|u: int| #[trigger] dep_edge(regs@, u, t as int) ==> done@[u]),
{
    let mut u: usize = 0;
    while u < regs.len()
        invariant
            done@.len() == regs@.len(),
            t < regs@.len(),
            u <= regs@.len(),
            forall|w: int| 0 <= w < u && #[trigger] dep_edge(regs@, w, t as int) ==> done@[w],
        decreases regs@.len() - u,
    {
        if has_edge(regs, u, t) && !done[u] {
            return false;
        }
        u = u + 1;
    }
    true
}

fn gather_ready(regs: &Vec<SystemReg>, done: &Vec<bool>) -> (ready: Vec<usize>)
    requires
        done@.len() == regs@.len(),
    ensures
        forall|j: int| 0 <= j < ready@.len() ==> (#[trigger] ready@[j]) < regs@.len(),
        forall|j: int| 0 <= j < ready@.len() ==> !done@[(#[trigger] ready@[j]) as int],
        forall|j: int, u: int|
            0 <= j < ready@.len() && #[trigger] dep_edge(regs@, u, ready@[j] as int)
                ==> done@[u],
        forall|j1: int, j2: int| 0 <= j1 < j2 < ready@.len() ==> ready@[j1] < ready@[j2],
        forall|t: int| 0 <= t < regs@.len() && !done@[t]
            ==> (exists|j: int| 0 <= j < ready@.len() && ready@[j] == t)
                || (exists|u: int| #[trigger] dep_edge(regs@, u, t) && !done@[u]),
{
    let mut ready: Vec<usize> = Vec::new();
    let mut s: usize = 0;
    while s < regs.len()
        invariant
            done@.len() == regs@.len(),
            s <= regs@.len(),
            forall|j: int| 0 <= j < ready@.len() ==> (#[trigger] ready@[j]) < s,
            forall|j: int| 0 <= j < ready@.len() ==> !done@[(#[trigger] ready@[j]) as int],
            forall|j: int, u: int|
                0 <= j < ready@.len() && #[trigger] dep_edge(regs@, u, ready@[j] as int)
                    ==> done@[u],
            forall|j1: int, j2: int| 0 <= j1 < j2 < ready@.len() ==> ready@[j1] < ready@[j2],
            forall|t: int| 0 <= t < s && !done@[t]
                ==> (exists|j: int| 0 <= j < ready@.len() && ready@[j] == t)
                    || (exists|u: int| #[trigger] dep_edge(regs@, u, t) && !done@[u]),
        decreases regs@.len() - s,
    {
        let ghost ready0 = ready@;
        if !done[s] {
            if preds_done(regs, done, s) {
                ready.push(s);
                proof {
                    assert(ready@[ready@.len() - 1] == s);
                }
            } else {
                proof {
                    let u = choose|u: int| #[trigger] dep_edge(regs@, u, s as int) && !done@[u];
                }
            }
        }
        proof {
            assert forall|t: int| 0 <= t < s + 1 && !done@[t]
                implies (exists|j: int| 0 <= j < ready@.len() && ready@[j] == t)
                    || (exists|u: int| #[trigger] dep_edge(regs@, u, t) && !done@[u]) by {
                if t < s {
                    if exists|j: int| 0 <= j < ready0.len() && ready0[j] == t {
                        let j = choose|j: int| 0 <= j < ready0.len() && ready0[j] == t;
                        assert(ready@[j] == t);
                    }
                }
            }
        }
        s = s + 1;
    }
    ready
}

fn conflicts_with_tail(
    regs: &Vec<SystemReg>,
    plan: &Vec<PlanEntry>,
    from: usize,
    k: SystemKind,
) -> (r: bool)
    requires
        from <= plan@.len(),
        forall|i: int| 0 <= i < plan@.len() ==> (#[trigger] plan@[i]).sys < regs@.len(),
    ensures
        r == exists|i: int|
            from <= i < plan@.len()
                && spec_conflicts(regs@[(#[trigger] plan@[i]).sys as int].kind, k),
{
    let mut ci = from;
    while ci < plan.len()
        invariant
            from <= ci <= plan@.len(),
            forall|i: int| 0 <= i < plan@.len() ==> (#[trigger] plan@[i]).sys < regs@.len(),
            forall|i: int| from <= i < ci
                ==> !spec_conflicts(regs@[(#[trigger] plan@[i]).sys as int].kind, k),
        decreases plan@.len() - ci,
    {
        if conflicts(regs[plan[ci].sys].kind, k) {
            return true;
        }
        ci = ci + 1;
    }
    false
}

/// Collects system registrations; `build` freezes them into a dispatcher.
/// Rebuilding requires a new builder: a built plan is never unfrozen.
pub struct DispatcherBuilder {
    regs: Vec<SystemReg>,
}

impl View for DispatcherBuilder {
    type V = Seq<SystemReg>;

    closed spec fn view(&self) -> Seq<SystemReg> {
        self.regs@
    }
}

impl DispatcherBuilder {
    pub fn new() -> (r: DispatcherBuilder)
        ensures
            r@ == Seq::<SystemReg>::empty(),
    {
        DispatcherBuilder { regs: Vec::new() }
    }

    /// Registers a system under `name`, to run after every system that
    /// `deps` names.
    pub fn add(self, kind: SystemKind, name: u64, deps: Vec<u64>) -> (r: DispatcherBuilder)
        ensures
            r@.len() == self@.len() + 1,
            r@.last() == (SystemReg { name, kind, deps: deps }),
            forall|i: int| 0 <= i < self@.len() ==> r@[i] == self@[i],
    {
        let mut regs = self.regs;
        regs.push(SystemReg { name, kind, deps });
        DispatcherBuilder { regs }
    }

    /// Builds the execution plan: fails with `UnknownDependency` when a
    /// predecessor name exists nowhere, with `CyclicDependency` when the
    /// predecessor constraints admit no order, and otherwise succeeds
    /// with a valid plan. Success is owed exactly when the names are
    /// known and the constraints are orderable.
    #[verifier::rlimit(100)]
    pub fn build(self) -> (r: Result<Dispatcher, BuildError>)
        ensures
            match r {
                Ok(d) => {
                    &&& d.spec_regs() == self@
                    &&& plan_valid(self@, d.spec_plan())
                    &&& deps_known(self@)
                    &&& schedulable(self@)
                },
                Err(BuildError::UnknownDependency(nm)) => {
                    &&& !known_name(self@, nm)
                    &&& dep_mentioned(self@, nm)
                    &&& !deps_known(self@)
                },
                Err(BuildError::CyclicDependency) => {
                    &&& deps_known(self@)
                    &&& !schedulable(self@)
                },
            },
    {
        let regs = self.regs;
        match find_unknown(&regs) {
            Some(nm) => {
                proof {
                    let v = choose|v: int, k: int|
                        0 <= v < regs@.len() && 0 <= k < regs@[v].deps@.len()
                            && regs@[v].deps@[k] == nm;
                }
                return Err(BuildError::UnknownDependency(nm));
            },
            None => {},
        }

        let n = regs.len();
        let mut done: Vec<bool> = vec![false; n];
        let mut group_of: Vec<usize> = vec![0; n];
        let mut plan: Vec<PlanEntry> = Vec::new();
        let mut next_group: usize = 0;

        while plan.len() < n
            invariant
                n == regs@.len(),
                regs@ == self@,
                deps_known(regs@),
                done@.len() == n,
                group_of@.len() == n,
                next_group <= plan@.len(),
                plan@.len() <= n,
                forall|i: int| 0 <= i < plan@.len() ==> (#[trigger] plan@[i]).sys < n,
                forall|i: int, j: int| 0 <= i < j < plan@.len()
                    ==> plan@[i].sys != plan@[j].sys,
                forall|s: int| 0 <= s < n ==> (done@[s] <==> #[trigger] appears(plan@, s)),
                forall|i: int| 0 <= i < plan@.len()
                    ==> (#[trigger] plan@[i]).group == group_of@[plan@[i].sys as int],
                forall|i: int| 0 <= i < plan@.len() ==> (#[trigger] plan@[i]).group < next_group,
                forall|i: int| 0 <= i < plan@.len() ==> (#[trigger] plan@[i]).group <= i,
                forall|i: int, j: int| 0 <= i < j < plan@.len()
                    ==> plan@[i].group <= plan@[j].group,
                forall|u: int, v: int| #[trigger] dep_edge(regs@, u, v) && done@[v]
                    ==> done@[u] && group_of@[u] < group_of@[v],
                forall|i: int, j: int|
                    0 <= i < plan@.len() && 0 <= j < plan@.len() && i != j
                        && (#[trigger] plan@[i]).group == (#[trigger] plan@[j]).group
                        ==> !spec_conflicts(
                            regs@[plan@[i].sys as int].kind,
                            regs@[plan@[j].sys as int].kind,
                        ),
            decreases n - plan@.len(),
        {
            let ghost done0 = done@;
            let ghost plan0 = plan@;
            let ghost groupof0 = group_of@;
            let ghost g0 = next_group;
            let ready = gather_ready(&regs, &done);
            if ready.len() == 0 {
                proof {
                    lemma_some_unscheduled(regs@, done@, plan@);
                    lemma_stuck(regs@, done@, ready@);
                }
                return Err(BuildError::CyclicDependency);
            }

            let mut gi: usize = 0;
            let mut group_start: usize = plan.len();
            while gi < ready.len()
                invariant
                    n == regs@.len(),
                    done@.len() == n,
                    group_of@.len() == n,
                    gi <= ready@.len(),
                    // the ready set, against the round snapshot
                    done0.len() == n,
                    groupof0.len() == n,
                    forall|j: int| 0 <= j < ready@.len() ==> (#[trigger] ready@[j]) < n,
                    forall|j: int| 0 <= j < ready@.len()
                        ==> !done0[(#[trigger] ready@[j]) as int],
                    forall|j: int, u: int|
                        0 <= j < ready@.len() && #[trigger] dep_edge(regs@, u, ready@[j] as int)
                            ==> done0[u],
                    forall|j1: int, j2: int| 0 <= j1 < j2 < ready@.len()
                        ==> ready@[j1] < ready@[j2],
                    // the snapshot satisfied the outer invariants
                    forall|s: int| 0 <= s < n ==> (done0[s] <==> #[trigger] appears(plan0, s)),
                    forall|i: int| 0 <= i < plan0.len()
                        ==> (#[trigger] plan0[i]).group == groupof0[plan0[i].sys as int],
                    forall|i: int| 0 <= i < plan0.len() ==> (#[trigger] plan0[i]).group < g0,
                    // how this round extends the plan
                    plan0.len() <= n,
                    plan@.len() == plan0.len() + gi,
                    plan@.len() <= n,
                    forall|i: int| 0 <= i < plan0.len() ==> plan@[i] == plan0[i],
                    forall|j: int| 0 <= j < gi
                        ==> (#[trigger] plan@[plan0.len() + j]).sys == ready@[j],
                    forall|s: int| 0 <= s < n && done0[s]
                        ==> done@[s] && group_of@[s] == groupof0[s],
                    // groups
                    g0 <= next_group,
                    next_group <= group_start,
                    plan0.len() <= group_start,
                    group_start <= plan@.len(),
                    gi > 0 ==> group_start < plan@.len(),
                    forall|i: int| group_start <= i < plan@.len()
                        ==> (#[trigger] plan@[i]).group == next_group,
                    forall|i: int| plan0.len() <= i < group_start
                        ==> g0 <= (#[trigger] plan@[i]).group < next_group,
                    // the standing outer invariants
                    forall|i: int| 0 <= i < plan@.len() ==> (#[trigger] plan@[i]).sys < n,
                    forall|i: int, j: int| 0 <= i < j < plan@.len()
                        ==> plan@[i].sys != plan@[j].sys,
                    forall|s: int| 0 <= s < n ==> (done@[s] <==> #[trigger] appears(plan@, s)),
                    forall|i: int| 0 <= i < plan@.len()
                        ==> (#[trigger] plan@[i]).group == group_of@[plan@[i].sys as int],
                    forall|i: int| 0 <= i < plan@.len() ==> (#[trigger] plan@[i]).group <= i,
                    forall|i: int, j: int| 0 <= i < j < plan@.len()
                        ==> plan@[i].group <= plan@[j].group,
                    forall|u: int, v: int| #[trigger] dep_edge(regs@, u, v) && done@[v]
                        ==> done@[u] && group_of@[u] < group_of@[v],
                    forall|i: int, j: int|
                        0 <= i < plan@.len() && 0 <= j < plan@.len() && i != j
                            && (#[trigger] plan@[i]).group == (#[trigger] plan@[j]).group
                            ==> !spec_conflicts(
                                regs@[plan@[i].sys as int].kind,
                                regs@[plan@[j].sys as int].kind,
                            ),
                decreases ready@.len() - gi,
            {
                let t = ready[gi];
                proof {
                    assert(ready@[gi as int] == t);
                    if done@[t as int] {
                        assert(appears(plan@, t as int));
                        let i = choose|i: int| 0 <= i < plan@.len() && plan@[i].sys == t;
                        if i < plan0.len() {
                            assert(plan0[i].sys == t);
                            assert(appears(plan0, t as int));
                            assert(done0[t as int]);
                        } else {
                            let j = i - plan0.len();
                            assert(plan@[plan0.len() + j].sys == ready@[j]);
                            assert(ready@[j] == t);
                            assert(ready@[j] < ready@[gi as int]);
                        }
                    }
                    assert(!done@[t as int]);
                }
                let ghost ng0 = next_group;
                let ghost gs0 = group_start;
                let was_conf = conflicts_with_tail(&regs, &plan, group_start, regs[t].kind);
                if was_conf {
                    proof {
                        let i = choose|i: int|
                            group_start <= i < plan@.len()
                                && spec_conflicts(
                                    regs@[plan@[i].sys as int].kind,
                                    regs@[t as int].kind,
                                );
                        assert(group_start < plan@.len());
                        assert(plan@.len() <= n);
                    }
                    next_group = next_group + 1;
                    group_start = plan.len();
                }
                let ghost planp = plan@;
                let ghost donep = done@;
                plan.push(PlanEntry { sys: t, group: next_group });
                done[t] = true;
                group_of[t] = next_group;
                proof {
                    assert(plan@[plan@.len() - 1] == (PlanEntry { sys: t, group: next_group }));
                    assert(!donep[t as int]);
                    assert forall|i: int, j: int| 0 <= i < j < plan@.len()
                        implies plan@[i].sys != plan@[j].sys by {
                        if j == plan@.len() - 1 {
                            assert(plan@[i] == planp[i]);
                            if planp[i].sys == t {
                                assert(appears(planp, t as int));
                                assert(donep[t as int]);
                            }
                        }
                    }
                    let sysnow = Seq::new(plan@.len(), |i: int| plan@[i].sys as int);
                    assert forall|i: int| 0 <= i < sysnow.len()
                        implies 0 <= #[trigger] sysnow[i] < n by {
                        assert(plan@[i].sys < n);
                    }
                    assert forall|i: int, j: int| 0 <= i < j < sysnow.len()
                        implies sysnow[i] != sysnow[j] by {
                        assert(plan@[i].sys != plan@[j].sys);
                    }
                    lemma_distinct_in_range_len(sysnow, n as int);
                    assert(plan@.len() <= n);
                    assert forall|i: int| 0 <= i < plan@.len()
                        implies (#[trigger] plan@[i]).group
                            == group_of@[plan@[i].sys as int] by {
                        if i < planp.len() {
                            assert(plan@[i] == planp[i]);
                            if planp[i].sys == t {
                                assert(appears(planp, t as int));
                                assert(donep[t as int]);
                            }
                            assert(plan@[i].sys != t);
                        }
                    }
                    assert forall|s: int| 0 <= s < n
                        implies (done@[s] <==> #[trigger] appears(plan@, s)) by {
                        if s == t as int {
                            assert(plan@[plan@.len() - 1].sys == t);
                            assert(appears(plan@, s));
                        } else {
                            if appears(plan@, s) {
                                let i = choose|i: int|
                                    0 <= i < plan@.len() && plan@[i].sys == s;
                                assert(i < planp.len());
                                assert(planp[i].sys == s);
                                assert(appears(planp, s));
                            }
                            if appears(planp, s) {
                                let i = choose|i: int|
                                    0 <= i < planp.len() && planp[i].sys == s;
                                assert(plan@[i].sys == s);
                                assert(appears(plan@, s));
                            }
                        }
                    }
                    assert forall|i: int, j: int| 0 <= i < j < plan@.len()
                        implies plan@[i].group <= plan@[j].group by {
                        if j == plan@.len() - 1 {
                            assert(plan@[i] == planp[i]);
                            if i < plan0.len() {
                                assert(plan0[i].group < g0);
                            } else if i < gs0 {
                                assert(planp[i].group < ng0);
                            } else {
                                assert(planp[i].group == ng0);
                            }
                        }
                    }
                    assert forall|i: int, j: int|
                        0 <= i < plan@.len() && 0 <= j < plan@.len() && i != j
                            && (#[trigger] plan@[i]).group == (#[trigger] plan@[j]).group
                        implies !spec_conflicts(
                            regs@[plan@[i].sys as int].kind,
                            regs@[plan@[j].sys as int].kind,
                        ) by {
                        let last = plan@.len() - 1;
                        if i == last || j == last {
                            let o = if i == last { j } else { i };
                            if o < plan@.len() - 1 {
                                assert(plan@[o] == planp[o]);
                                if was_conf {
                                    // a fresh group: no older entry shares it
                                    if o < plan0.len() {
                                        assert(plan0[o].group < g0);
                                    } else if o < gs0 {
                                        assert(planp[o].group < ng0);
                                    } else {
                                        assert(planp[o].group == ng0);
                                    }
                                    assert(plan@[o].group != next_group);
                                } else {
                                    // o sits in the checked open subgroup
                                    if plan@[o].group == next_group {
                                        if o < plan0.len() {
                                            assert(plan0[o].group < g0);
                                        } else if o < gs0 {
                                            assert(planp[o].group < ng0);
                                        }
                                        assert(group_start <= o);
                                        assert(!spec_conflicts(
                                            regs@[planp[o].sys as int].kind,
                                            regs@[t as int].kind,
                                        ));
                                        lemma_conflicts_sym(
                                            regs@[planp[o].sys as int].kind,
                                            regs@[t as int].kind,
                                        );
                                    }
                                }
                            }
                        } else {
                            assert(plan@[i] == planp[i]);
                            assert(plan@[j] == planp[j]);
                        }
                    }
                    assert forall|u: int, v: int|
                        #[trigger] dep_edge(regs@, u, v) && done@[v]
                        implies done@[u] && group_of@[u] < group_of@[v] by {
                        if v == t as int {
                            assert(done0[u]);
                            assert(appears(plan0, u));
                            let i = choose|i: int|
                                0 <= i < plan0.len() && plan0[i].sys == u;
                            assert(plan0[i].group == groupof0[u]);
                            assert(groupof0[u] < g0);
                            assert(group_of@[u] == groupof0[u]);
                        } else {
                            assert(donep[v]);
                            if u == t as int {
                                assert(!donep[u]);
                                assert(done0[v]);
                                assert(dep_edge(regs@, u, v) && done@[v]);
                                assert(appears(plan0, v));
                                assert(false);
                            }
                        }
                    }
                }
                gi = gi + 1;
            }
            next_group = next_group + 1;
            proof {
                assert forall|i: int| 0 <= i < plan@.len()
                    implies (#[trigger] plan@[i]).group < next_group by {
                    if i < plan0.len() {
                        assert(plan@[i] == plan0[i]);
                        assert(plan0[i].group < g0);
                    }
                }
                assert(next_group <= plan@.len());
            }
        }

        proof {
            // the plan covers every system
            let ghost sysseq = Seq::new(plan@.len(), |i: int| plan@[i].sys as int);
            assert forall|s: int| 0 <= s < regs@.len() implies #[trigger] appears(plan@, s) by {
                if !appears(plan@, s) {
                    assert forall|i: int| 0 <= i < sysseq.len()
                        implies 0 <= #[trigger] sysseq[i] < n by {
                        assert(plan@[i].sys < n);
                    }
                    assert forall|i: int, j: int| 0 <= i < j < sysseq.len()
                        implies sysseq[i] != sysseq[j] by {
                        assert(plan@[i].sys != plan@[j].sys);
                    }
                    assert(!sysseq.contains(s)) by {
                        if sysseq.contains(s) {
                            let i = choose|i: int|
                                0 <= i < sysseq.len() && sysseq[i] == s;
                            assert(plan@[i].sys == s);
                            assert(appears(plan@, s));
                        }
                    }
                    lemma_distinct_covers(sysseq, n as int, s);
                }
            }
            assert forall|i: int, j: int|
                0 <= i < plan@.len() && 0 <= j < plan@.len()
                    && dep_edge(regs@, (#[trigger] plan@[i]).sys as int, (#[trigger] plan@[j]).sys as int)
                implies plan@[i].group < plan@[j].group by {
                assert(appears(plan@, plan@[j].sys as int));
                assert(done@[plan@[j].sys as int]);
                assert(group_of@[plan@[i].sys as int] < group_of@[plan@[j].sys as int]);
            }
            assert(plan_valid(regs@, plan@));
            // an order exists: the group numbers witness it
            let pos = Seq::new(n as nat, |u: int| group_of@[u] as int);
            assert forall|u: int| 0 <= u < pos.len()
                implies 0 <= #[trigger] pos[u] < regs@.len() by {
                assert(appears(plan@, u));
                let i = choose|i: int| 0 <= i < plan@.len() && plan@[i].sys == u;
                assert(plan@[i].group == group_of@[u]);
                assert(plan@[i].group <= i);
            }
            assert forall|u: int, v: int| #[trigger] dep_edge(regs@, u, v)
                implies pos[u] < pos[v] by {
                assert(appears(plan@, v));
                assert(done@[v]);
            }
            assert(is_sched(regs@, pos));
        }
        Ok(Dispatcher { regs, plan })
    }
}

/// Runs the registered systems once per `dispatch` call, in the frozen
/// plan order. Within one group the systems are mutually conflict-free,
/// so a pool of workers could run each group in parallel; execution here
/// is in plan order, which refines every such schedule.
pub struct Dispatcher {
    regs: Vec<SystemReg>,
    plan: Vec<PlanEntry>,
}

impl Dispatcher {
    /// The frozen registration list.
    pub closed spec fn spec_regs(&self) -> Seq<SystemReg> {
        self.regs@
    }

    /// The frozen execution plan.
    pub closed spec fn spec_plan(&self) -> Seq<PlanEntry> {
        self.plan@
    }

    pub open spec fn wf(&self) -> bool {
        plan_valid(self.spec_regs(), self.spec_plan())
    }

    /// The execution plan, for inspection: each entry names a
    /// registration and its parallel group.
    pub fn plan(&self) -> (r: &Vec<PlanEntry>)
        ensures
            r@ == self.spec_plan(),
    {
        &self.plan
    }

    /// The registration a plan entry refers to.
    pub fn reg_at(&self, i: usize) -> (r: &SystemReg)
        requires
            i < self.spec_regs().len(),
        ensures
            *r == self.spec_regs()[i as int],
    {
        &self.regs[i]
    }

    /// How many systems are registered.
    pub fn len(&self) -> (r: usize)
        ensures
            r == self.spec_regs().len(),
    {
        self.regs.len()
    }
}

/// What one system's tick does to the world model.
pub open spec fn sys_step(k: SystemKind, m: WorldModel) -> WorldModel {
    match k {
        SystemKind::Control => WorldModel {
            velocities: Control::spec_run(m.velocities, m.controllables, m.keyboard->0),
            ..m
        },
        SystemKind::Move => WorldModel {
            positions: Move::spec_run(m.positions, m.velocities, (m.delta->0).0 as int),
            ..m
        },
        SystemKind::Rotate => WorldModel {
            rotations: Rotate::spec_run(m.rotations, m.angulars, (m.delta->0).0 as int),
            ..m
        },
    }
}

/// The resources and storages a system's declared access set requires of
/// the world.
pub open spec fn needs_ok(k: SystemKind, m: WorldModel) -> bool {
    match k {
        SystemKind::Control => m.keyboard is Some && m.controllables_reg && m.velocities_reg,
        SystemKind::Move => m.delta is Some && m.velocities_reg && m.positions_reg,
        SystemKind::Rotate => m.delta is Some && m.angulars_reg && m.rotations_reg,
    }
}

/// Running a list of systems in order, on the model.
pub open spec fn run_seq(m: WorldModel, ks: Seq<SystemKind>) -> WorldModel
    decreases ks.len(),
{
    if ks.len() == 0 {
        m
    } else {
        run_seq(sys_step(ks[0], m), ks.drop_first())
    }
}

/// The kinds a plan runs, in plan order.
pub open spec fn plan_kinds(regs: Seq<SystemReg>, p: Seq<PlanEntry>) -> Seq<SystemKind> {
    Seq::new(p.len(), |i: int| regs[p[i].sys as int].kind)
}

proof fn lemma_run_seq_snoc(m: WorldModel, ks: Seq<SystemKind>, k: SystemKind)
    ensures
        run_seq(m, ks.push(k)) == sys_step(k, run_seq(m, ks)),
    decreases ks.len(),
{
    if ks.len() == 0 {
        assert(ks.push(k)[0] == k);
        assert(ks.push(k).drop_first() =~= Seq::<SystemKind>::empty());
        assert(run_seq(m, ks.push(k)) == sys_step(k, m));
    } else {
        assert(ks.push(k)[0] == ks[0]);
        assert(ks.push(k).drop_first() =~= ks.drop_first().push(k));
        lemma_run_seq_snoc(sys_step(ks[0], m), ks.drop_first(), k);
        assert(run_seq(m, ks.push(k))
            == run_seq(sys_step(ks[0], m), ks.drop_first().push(k)));
        assert(run_seq(m, ks) == run_seq(sys_step(ks[0], m), ks.drop_first()));
    }
}

impl Dispatcher {
    /// One tick: every registered system runs exactly once, in plan
    /// order. The world afterwards is the fold of the systems' steps over
    /// the world before.
    pub fn dispatch(&self, world: &mut World)
        requires
            self.wf(),
            old(world).wf(),
            forall|i: int| 0 <= i < self.spec_plan().len()
                ==> needs_ok(
                    self.spec_regs()[(#[trigger] self.spec_plan()[i]).sys as int].kind,
                    old(world)@,
                ),
        ensures
            final(world).wf(),
            final(world)@ == run_seq(old(world)@, plan_kinds(self.spec_regs(), self.spec_plan())),
    {
        let ghost ks = plan_kinds(self.spec_regs(), self.spec_plan());
        let mut i: usize = 0;
        while i < self.plan.len()
            invariant
                self.wf(),
                world.wf(),
                i <= self.spec_plan().len(),
                ks == plan_kinds(self.spec_regs(), self.spec_plan()),
                forall|j: int| 0 <= j < self.spec_plan().len()
                    ==> needs_ok(
                        self.spec_regs()[(#[trigger] self.spec_plan()[j]).sys as int].kind,
                        old(world)@,
                    ),
                world@ == run_seq(old(world)@, ks.take(i as int)),
                world@.positions_reg == old(world)@.positions_reg,
                world@.rotations_reg == old(world)@.rotations_reg,
                world@.velocities_reg == old(world)@.velocities_reg,
                world@.angulars_reg == old(world)@.angulars_reg,
                world@.controllables_reg == old(world)@.controllables_reg,
                world@.sprites_reg == old(world)@.sprites_reg,
                world@.delta == old(world)@.delta,
                world@.keyboard == old(world)@.keyboard,
            decreases self.spec_plan().len() - i,
        {
            let ghost wprev = world@;
            let entry = self.plan[i];
            let kind = self.regs[entry.sys].kind;
            proof {
                assert(self.spec_plan()[i as int] == entry);
                assert(ks[i as int] == kind);
                assert(needs_ok(kind, old(world)@));
            }
            match kind {
                SystemKind::Control => {
                    let kbd = world.resources.read_keyboard();
                    match &mut world.velocities {
                        Some(vel) => match &world.controllables {
                            Some(ctl) => Control.run(&kbd, ctl, vel),
                            None => vstd::pervasive::unreached(),
                        },
                        None => vstd::pervasive::unreached(),
                    }
                },
                SystemKind::Move => {
                    let d = world.resources.read_delta();
                    match &mut world.positions {
                        Some(pos) => match &world.velocities {
                            Some(vel) => Move.run(&d, vel, pos),
                            None => vstd::pervasive::unreached(),
                        },
                        None => vstd::pervasive::unreached(),
                    }
                },
                SystemKind::Rotate => {
                    let d = world.resources.read_delta();
                    match &mut world.rotations {
                        Some(rot) => match &world.angulars {
                            Some(amo) => Rotate.run(&d, amo, rot),
                            None => vstd::pervasive::unreached(),
                        },
                        None => vstd::pervasive::unreached(),
                    }
                },
            }
            proof {
                assert(world@ =~= sys_step(kind, wprev));
                assert(ks.take(i + 1) =~= ks.take(i as int).push(kind));
                lemma_run_seq_snoc(old(world)@, ks.take(i as int), kind);
            }
            i = i + 1;
        }
        proof {
            assert(ks.take(ks.len() as int) =~= ks);
        }
    }
}

} // verus!
