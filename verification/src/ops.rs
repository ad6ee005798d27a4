//! Suspended operations: work of the type checker that has to wait until
//! an inference variable is resolved.
//!
//! An operation is a value, not a closure: it says what is to be done, and
//! the checker does it when the operation is released. The arena owns the
//! operations; the per-variable lists hold indices only. An operation may
//! wait on several variables; it is released by the first of them that is
//! resolved, and the indices left behind in the other lists find nothing
//! when their turn comes.
//!
//! The lists are the values of an index map of the `indexmap` crate, keyed
//! by the number of the variable. What its methods do to the lists is
//! taken on trust, in the contracts of the small functions that call them.

use crate::arena::{arena_generation, arena_insert, arena_items, arena_new, arena_remove};
use crate::ty::{InferVar, Node, Ty};
use crate::unify::UnificationTable;
use generational_arena::Arena;
use indexmap::IndexMap;
use rustc_hash::FxHasher;
use std::hash::BuildHasherDefault;
use vstd::prelude::*;

verus! {

/// A deferred piece of type checking.
#[derive(Clone, Copy, Debug, PartialEq, Eq, Structural)]
pub enum Op {
    /// Once the type skeleton of `owner` is known: give `target` the type
    /// of the field `name` of `owner`; `cause` is the field expression.
    FieldAccess { owner: Ty, name: u32, target: Ty, cause: Node },
}

/// The stable index of a suspended operation.
#[derive(Clone, Copy, Debug, PartialEq, Eq, Structural, Hash)]
pub struct OpIndex {
    pub index: usize,
    pub generation: u64,
}

/// The record of one release: which operation, and through which variable.
pub struct Firing {
    pub op: OpIndex,
    pub var: InferVar,
}

/// The operations that are waiting, and who waits for what.
pub struct Scheduler {
    /// The suspended operations.
    arena: Arena<Op>,
    /// For each variable, by its index, the operations registered against
    /// it, in the order of registration.
    blocked: IndexMap<u32, Vec<OpIndex>, BuildHasherDefault<FxHasher>>,
    /// The number of operations released so far.
    released: u64,
    /// The number of operations suspended so far.
    issued: u64,
    /// For every operation ever suspended, the variables it was registered
    /// against.
    waits: Ghost<Map<OpIndex, Set<InferVar>>>,
    /// Every operation ever suspended, under its index.
    ever: Ghost<Map<OpIndex, Op>>,
    /// Every release so far, oldest first.
    fired: Ghost<Seq<Firing>>,
}

/// What an index map of lists holds: each key of its entries, with the
/// list that is stored under it.
pub uninterp spec fn blocked_lists(
    map: IndexMap<u32, Vec<OpIndex>, BuildHasherDefault<FxHasher>>,
) -> Map<u32, Seq<OpIndex>>;

/// `IndexMap::default`: the map that comes back has no entries.
#[verifier::external_body]
fn blocked_new() -> (map: IndexMap<u32, Vec<OpIndex>, BuildHasherDefault<FxHasher>>)
    ensures
        forall|key: u32| !(#[trigger] blocked_lists(map).contains_key(key)),
{
    IndexMap::default()
}

/// `IndexMap::get`: the list stored under `key`, or nothing where the map
/// has no such key.
#[verifier::external_body]
fn blocked_get(map: &IndexMap<u32, Vec<OpIndex>, BuildHasherDefault<FxHasher>>, key: u32) -> (found:
    Option<&Vec<OpIndex>>)
    ensures
        found matches Some(list) ==> blocked_lists(*map).contains_key(key) && list@
            == blocked_lists(*map)[key],
        found is None ==> !blocked_lists(*map).contains_key(key),
{
    map.get(&key)
}

/// `IndexMap::swap_remove`: the entry of `key` leaves the map and its list
/// comes back, or nothing where the map has no such key. The other
/// entries keep their lists.
#[verifier::external_body]
fn blocked_take(
    map: &mut IndexMap<u32, Vec<OpIndex>, BuildHasherDefault<FxHasher>>,
    key: u32,
) -> (found: Option<Vec<OpIndex>>)
    ensures
        blocked_lists(*final(map)) == blocked_lists(*old(map)).remove(key),
        found matches Some(list) ==> blocked_lists(*old(map)).contains_key(key) && list@
            == blocked_lists(*old(map))[key],
        found is None ==> !blocked_lists(*old(map)).contains_key(key),
{
    map.swap_remove(&key)
}

/// `IndexMap::insert`: `list` is stored under `key`, in the place of what
/// was stored under it. The other entries keep their lists.
#[verifier::external_body]
fn blocked_put(
    map: &mut IndexMap<u32, Vec<OpIndex>, BuildHasherDefault<FxHasher>>,
    key: u32,
    list: Vec<OpIndex>,
)
    ensures
        blocked_lists(*final(map)) == blocked_lists(*old(map)).insert(key, list@),
{
    map.insert(key, list);
}

/// The entries among the first `n` of `list` that `pending` holds and that
/// did not occur in `list` before, each with its operation: what a walk
/// through the list releases.
pub open spec fn released_by(list: Seq<OpIndex>, pending: Map<OpIndex, Op>, n: nat) -> Seq<
    (OpIndex, Op),
>
    decreases n,
{
    if n == 0 {
        Seq::empty()
    } else {
        let before = released_by(list, pending, (n - 1) as nat);
        let at = list[n - 1];
        if pending.contains_key(at) && !list.take(n - 1).contains(at) {
            before.push((at, pending[at]))
        } else {
            before
        }
    }
}

/// The variables of `vars` that `table` does not resolve.
pub open spec fn unresolved_among(table: UnificationTable, vars: Seq<InferVar>) -> Set<InferVar> {
    Set::new(|v: InferVar| vars.contains(v) && table.value_of(v) is None)
}

impl Scheduler {
    /// The operations that are suspended now.
    pub closed spec fn pending(&self) -> Map<OpIndex, Op> {
        arena_items(self.arena)
    }

    /// For every operation ever suspended, the variables it waits or
    /// waited on.
    pub closed spec fn waits(&self) -> Map<OpIndex, Set<InferVar>> {
        self.waits@
    }

    /// Every release so far, oldest first.
    pub closed spec fn fired(&self) -> Seq<Firing> {
        self.fired@
    }

    /// Every operation ever suspended, under its index.
    pub closed spec fn ever(&self) -> Map<OpIndex, Op> {
        self.ever@
    }

    /// The operations that were released so far, in the order of their
    /// release.
    pub open spec fn fired_ops(&self) -> Seq<Op> {
        self.fired().map_values(|f: Firing| self.ever()[f.op])
    }

    /// The number of releases so far.
    pub closed spec fn released_count(&self) -> nat {
        self.released as nat
    }

    /// The number of operations suspended so far.
    pub closed spec fn issued_count(&self) -> nat {
        self.issued as nat
    }

    /// The list that is stored under the number `v`, if any.
    closed spec fn list_of(&self, v: u32) -> Seq<OpIndex> {
        if blocked_lists(self.blocked).contains_key(v) {
            blocked_lists(self.blocked)[v]
        } else {
            Seq::empty()
        }
    }

    /// The operations registered against `v`, in the order of registration.
    pub closed spec fn blocked_on(&self, v: InferVar) -> Seq<OpIndex> {
        self.list_of(v.index)
    }

    /// The bookkeeping is consistent, apart from the promise that a pending
    /// operation stands in the list of every variable it waits on.
    pub closed spec fn core_wf(&self) -> bool {
        &&& arena_generation(self.arena) == self.released
        &&& self.pending().dom().finite()
        &&& self.released + self.pending().dom().len() == self.issued
        &&& forall|at: OpIndex| #[trigger]
            self.pending().contains_key(at) ==> self.waits@.contains_key(at)
        &&& forall|at: OpIndex| #[trigger]
            self.pending().contains_key(at) ==> self.ever@.contains_key(at) && self.ever@[at]
                == self.pending()[at]
        &&& forall|at: OpIndex| #[trigger]
            self.ever@.contains_key(at) ==> self.waits@.contains_key(at)
        &&& forall|at: OpIndex| #[trigger]
            self.waits@.contains_key(at) ==> at.generation <= self.released && (
            self.pending().contains_key(at) || exists|k: int|
                0 <= k < self.fired@.len() && (#[trigger] self.fired@[k]).op == at)
        &&& forall|k: int|
            0 <= k < self.fired@.len() ==> {
                let f = #[trigger] self.fired@[k];
                &&& self.waits@.contains_key(f.op)
                &&& f.op.generation < self.released
                &&& !self.pending().contains_key(f.op)
                &&& self.waits@[f.op].contains(f.var)
            }
        &&& forall|i: int, j: int|
            0 <= i < j < self.fired@.len() ==> (#[trigger] self.fired@[i]).op != (
            #[trigger] self.fired@[j]).op
        &&& forall|v: u32, e: int|
            0 <= e < self.list_of(v).len() ==> {
                let at = #[trigger] self.list_of(v)[e];
                self.waits@.contains_key(at) && self.waits@[at].contains(InferVar { index: v })
            }
    }

    /// The pending operation `at` stands in the list of every variable it
    /// waits on.
    pub closed spec fn registered(&self, at: OpIndex) -> bool {
        forall|v: InferVar| #[trigger]
            self.waits@[at].contains(v) ==> self.list_of(v.index).contains(at)
    }

    /// The bookkeeping is consistent.
    pub closed spec fn wf(&self) -> bool {
        &&& self.core_wf()
        &&& forall|at: OpIndex| #[trigger] self.pending().contains_key(at) ==> self.registered(at)
    }

    /// Every release went through a variable that `table` resolves.
    pub open spec fn fired_resolved(&self, table: UnificationTable) -> bool {
        forall|k: int|
            0 <= k < self.fired().len() ==> table.value_of((#[trigger] self.fired()[k]).var)
                is Some
    }

    /// No pending operation waits on a variable that `table` resolves.
    pub open spec fn quiescent(&self, table: UnificationTable) -> bool {
        forall|at: OpIndex, v: InferVar|
            self.pending().contains_key(at) && #[trigger] self.waits()[at].contains(v)
                ==> table.value_of(v) is None
    }

    /// The lists may change as long as every entry stays justified.
    proof fn lemma_core_frame(before: Scheduler, after: Scheduler)
        requires
            before.core_wf(),
            after.pending() == before.pending(),
            arena_generation(after.arena) == arena_generation(before.arena),
            after.released == before.released,
            after.issued == before.issued,
            after.ever@ == before.ever@,
            after.waits@ == before.waits@,
            after.fired@ == before.fired@,
            forall|v: u32, e: int|
                0 <= e < after.list_of(v).len() ==> {
                    let at = #[trigger] after.list_of(v)[e];
                    after.waits@.contains_key(at) && after.waits@[at].contains(
                        InferVar { index: v },
                    )
                },
        ensures
            after.core_wf(),
    {
        assert forall|at: OpIndex| #[trigger] after.waits@.contains_key(at) implies at.generation
            <= after.released && (after.pending().contains_key(at) || exists|k: int|
            0 <= k < after.fired@.len() && (#[trigger] after.fired@[k]).op == at) by {
            assert(before.waits@.contains_key(at));
            if !before.pending().contains_key(at) {
                let k = choose|k: int|
                    0 <= k < before.fired@.len() && (#[trigger] before.fired@[k]).op == at;
                assert(after.fired@[k].op == at);
            }
        }
        assert forall|k: int| 0 <= k < after.fired@.len() implies {
            let f = #[trigger] after.fired@[k];
            &&& after.waits@.contains_key(f.op)
            &&& f.op.generation < after.released
            &&& !after.pending().contains_key(f.op)
            &&& after.waits@[f.op].contains(f.var)
        } by {
            let f = before.fired@[k];
            assert(before.waits@.contains_key(f.op));
        }
    }

    /// A scheduler with nothing suspended and nothing released.
    pub fn new() -> (s: Scheduler)
        ensures
            s.wf(),
            s.pending() == Map::<OpIndex, Op>::empty(),
            s.waits() == Map::<OpIndex, Set<InferVar>>::empty(),
            s.fired() == Seq::<Firing>::empty(),
            s.released_count() == 0,
            s.issued_count() == 0,
            s.ever() == Map::<OpIndex, Op>::empty(),
            forall|v: InferVar| #[trigger] s.blocked_on(v) == Seq::<OpIndex>::empty(),
    {
        let s = Scheduler {
            arena: arena_new(),
            blocked: blocked_new(),
            released: 0,
            issued: 0,
            waits: Ghost(Map::empty()),
            ever: Ghost(Map::empty()),
            fired: Ghost(Seq::empty()),
        };
        proof {
            assert(s.pending() =~= Map::<OpIndex, Op>::empty());
        }
        s
    }

    /// The number of releases so far.
    pub fn released(&self) -> (n: u64)
        ensures
            n == self.released_count(),
    {
        self.released
    }

    /// The number of operations suspended so far.
    pub fn issued(&self) -> (n: u64)
        ensures
            n == self.issued_count(),
    {
        self.issued
    }

    /// The number of operations registered against `v`.
    pub fn blocked_count(&self, v: InferVar) -> (n: usize)
        ensures
            n == self.blocked_on(v).len(),
    {
        match blocked_get(&self.blocked, v.index) {
            Some(list) => list.len(),
            None => 0,
        }
    }

    /// How often `v` occurs among the first `n` of `vars`.
    pub open spec fn occurrences(vars: Seq<InferVar>, v: InferVar, n: nat) -> nat
        decreases n,
    {
        if n == 0 {
            0
        } else {
            Self::occurrences(vars, v, (n - 1) as nat) + (if vars[n - 1] == v {
                1nat
            } else {
                0nat
            })
        }
    }

    /// Stores `op` and registers it against every variable of `vars` that
    /// `table` does not resolve yet; at least one must be unresolved. The
    /// operation is released when the first of them is resolved.
    ///
    /// The scheduler counts the operations it has taken; when the counter
    /// is exhausted it takes no more, and the call changes nothing.
    pub fn suspend(&mut self, table: &UnificationTable, vars: &Vec<InferVar>, op: Op) -> (slot:
        Option<OpIndex>)
        requires
            old(self).wf(),
            table.wf(),
            forall|i: int| 0 <= i < vars@.len() ==> table.has(#[trigger] vars@[i]),
            exists|i: int| 0 <= i < vars@.len() && table.value_of(#[trigger] vars@[i]) is None,
        ensures
            final(self).wf(),
            slot is Some <==> old(self).issued_count() < u64::MAX,
            slot is None ==> *final(self) == *old(self),
            slot matches Some(at) ==> {
                &&& !old(self).waits().contains_key(at)
                &&& !old(self).pending().contains_key(at)
                &&& final(self).pending() == old(self).pending().insert(at, op)
                &&& final(self).waits() == old(self).waits().insert(
                    at,
                    unresolved_among(*table, vars@),
                )
                &&& final(self).issued_count() == old(self).issued_count() + 1
                &&& final(self).ever() == old(self).ever().insert(at, op)
                &&& !old(self).ever().contains_key(at)
                &&& forall|v: InferVar|
                    #![trigger final(self).blocked_on(v)]
                    final(self).blocked_on(v) == old(self).blocked_on(v) + Seq::new(
                        if table.value_of(v) is None {
                            Self::occurrences(vars@, v, vars@.len())
                        } else {
                            0
                        },
                        |k: int| at,
                    )
            },
            final(self).fired() == old(self).fired(),
            final(self).released_count() == old(self).released_count(),
    {
        if self.issued == u64::MAX {
            return None;
        }
        let ghost waiting = unresolved_among(*table, vars@);
        let at = arena_insert(&mut self.arena, op);
        let ghost arena_after = self.arena;
        proof {
            assert(!self.waits@.contains_key(at)) by {
                if self.waits@.contains_key(at) {
                    if old(self).pending().contains_key(at) {
                        assert(at.index == at.index);
                    } else {
                        let k = choose|k: int|
                            0 <= k < self.fired@.len() && (#[trigger] self.fired@[k]).op == at;
                        assert(self.fired@[k].op.generation < self.released);
                    }
                }
            }
        }
        self.waits = Ghost(self.waits@.insert(at, waiting));
        self.ever = Ghost(self.ever@.insert(at, op));
        self.issued = self.issued + 1;
        proof {
            assert(self.core_wf()) by {
                assert forall|x: OpIndex| #[trigger] self.waits@.contains_key(x) implies x.generation
                    <= self.released && (self.pending().contains_key(x) || exists|k: int|
                    0 <= k < self.fired@.len() && (#[trigger] self.fired@[k]).op == x) by {
                    if x != at {
                        assert(old(self).waits@.contains_key(x));
                        if !old(self).pending().contains_key(x) {
                            let k = choose|k: int|
                                0 <= k < old(self).fired@.len()
                                    && (#[trigger] old(self).fired@[k]).op == x;
                            assert(self.fired@[k].op == x);
                        }
                    }
                }
                assert forall|k: int| 0 <= k < self.fired@.len() implies {
                    let f = #[trigger] self.fired@[k];
                    &&& self.waits@.contains_key(f.op)
                    &&& f.op.generation < self.released
                    &&& !self.pending().contains_key(f.op)
                    &&& self.waits@[f.op].contains(f.var)
                } by {
                    let f = old(self).fired@[k];
                    assert(old(self).waits@.contains_key(f.op));
                }
                assert forall|v: u32, e: int| 0 <= e < self.list_of(v).len() implies {
                    let x = #[trigger] self.list_of(v)[e];
                    self.waits@.contains_key(x) && self.waits@[x].contains(InferVar { index: v })
                } by {
                    let x = old(self).list_of(v)[e];
                    assert(old(self).waits@.contains_key(x));
                }
                assert(self.pending().dom() =~= old(self).pending().dom().insert(at));
            }
        }
        let mut i: usize = 0;
        while i < vars.len()
            invariant
                i <= vars.len(),
                table.wf(),
                forall|k: int| 0 <= k < vars@.len() ==> table.has(#[trigger] vars@[k]),
                waiting == unresolved_among(*table, vars@),
                self.core_wf(),
                self.arena == arena_after,
                self.released == old(self).released,
                self.issued == old(self).issued + 1,
                self.ever@ == old(self).ever@.insert(at, op),
                self.fired == old(self).fired,
                self.waits@ == old(self).waits@.insert(at, waiting),
                !old(self).waits@.contains_key(at),
                forall|x: OpIndex|
                    x != at && #[trigger] self.pending().contains_key(x) ==> self.registered(x),
                forall|k: int|
                    0 <= k < i && table.value_of(#[trigger] vars@[k]) is None ==> self.list_of(
                        vars@[k].index,
                    ).contains(at),
                forall|v: InferVar|
                    #![trigger self.blocked_on(v)]
                    self.blocked_on(v) == old(self).blocked_on(v) + Seq::new(
                        if table.value_of(v) is None {
                            Self::occurrences(vars@, v, i as nat)
                        } else {
                            0
                        },
                        |k: int| at,
                    ),
            decreases vars.len() - i,
        {
            let v: InferVar = vars[i];
let ghost snapshot = *self;
            if table.resolve(v).is_none() {
                let mut list = match blocked_take(&mut self.blocked, v.index) {
                    Some(list) => list,
                    None => Vec::new(),
                };
                list.push(at);
                blocked_put(&mut self.blocked, v.index, list);
                proof {
                    let prior = snapshot.list_of(v.index);
                    assert(self.list_of(v.index) =~= prior.push(at));
                    assert(self.list_of(v.index)[prior.len() as int] == at);
                    assert(self.list_of(v.index).contains(at));
                    assert forall|w: u32| w != v.index implies #[trigger] self.list_of(w)
                        == snapshot.list_of(w) by {
                    }
                    assert(waiting.contains(v)) by {
                        assert(vars@.contains(vars@[i as int]));
                    }
                    assert forall|w: u32, e: int| 0 <= e < self.list_of(w).len() implies {
                        let x = #[trigger] self.list_of(w)[e];
                        self.waits@.contains_key(x) && self.waits@[x].contains(
                            InferVar { index: w },
                        )
                    } by {
                        if w == v.index {
                            if e == prior.len() {
                                assert(InferVar { index: w } == v);
                            } else {
                                let x = snapshot.list_of(w)[e];
                                assert(snapshot.waits@.contains_key(x));
                            }
                        } else {
                            assert(self.list_of(w) == snapshot.list_of(w));
                            let x = snapshot.list_of(w)[e];
                            assert(snapshot.waits@.contains_key(x));
                        }
                    }
                    Self::lemma_core_frame(snapshot, *self);
                    assert forall|x: OpIndex|
                        x != at && #[trigger] self.pending().contains_key(x) implies self.registered(
                        x,
                    ) by {
                        assert(snapshot.registered(x));
                        assert forall|w: InferVar| #[trigger]
                            self.waits@[x].contains(w) implies self.list_of(w.index).contains(
                            x,
                        ) by {
                            assert(snapshot.waits@[x].contains(w));
                            let e = choose|e: int|
                                0 <= e < snapshot.list_of(w.index).len() && snapshot.list_of(
                                    w.index,
                                )[e] == x;
                            if w.index == v.index {
                                assert(self.list_of(w.index)[e] == x);
                            } else {
                                assert(self.list_of(w.index) == snapshot.list_of(w.index));
                            }
                        }
                    }
                    assert forall|k: int|
                        0 <= k < i + 1 && table.value_of(
                            #[trigger] vars@[k],
                        ) is None implies self.list_of(vars@[k].index).contains(at) by {
                        if k < i {
                            let w = vars@[k].index;
                            let e = choose|e: int|
                                0 <= e < snapshot.list_of(w).len() && snapshot.list_of(w)[e] == at;
                            if w == v.index {
                                assert(self.list_of(w)[e] == at);
                            } else {
                                assert(self.list_of(w) == snapshot.list_of(w));
                            }
                        }
                    }
                    assert forall|w: InferVar|
                        #![trigger self.blocked_on(w)]
                        self.blocked_on(w) == old(self).blocked_on(w) + Seq::new(
                            if table.value_of(w) is None {
                                Self::occurrences(vars@, w, (i + 1) as nat)
                            } else {
                                0
                            },
                            |k: int| at,
                        ) by {
                        let before = snapshot.blocked_on(w);
                        if w == v {
                            assert(self.blocked_on(w) =~= before.push(at));
                            assert(before.push(at) =~= old(self).blocked_on(w) + Seq::new(
                                Self::occurrences(vars@, w, (i + 1) as nat),
                                |k: int| at,
                            ));
                        } else {
                            assert(w.index != v.index);
                            assert(self.blocked_on(w) =~= before);
                        }
                    }
                }
            }
            i = i + 1;
        }
        proof {
            assert(self.registered(at)) by {
                assert forall|w: InferVar| #[trigger]
                    self.waits@[at].contains(w) implies self.list_of(w.index).contains(at) by {
                    assert(waiting.contains(w));
                    let k = choose|k: int| 0 <= k < vars@.len() && vars@[k] == w;
                    assert(table.value_of(vars@[k]) is None);
                }
            }
            assert forall|x: OpIndex| #[trigger] self.pending().contains_key(x) implies self.registered(
                x,
            ) by {
            }
        }
        Some(at)
    }

    /// The firings that `var` causes for the released operations `ready`.
    pub open spec fn firings(ready: Seq<(OpIndex, Op)>, var: InferVar) -> Seq<Firing> {
        ready.map_values(|r: (OpIndex, Op)| Firing { op: r.0, var })
    }

    /// Releases what waits on the resolved variable `var`.
    ///
    /// The list of `var` is walked in the order of registration. An entry
    /// whose operation is still suspended releases it; an entry whose
    /// operation was released before, through another variable or earlier
    /// in this list, is passed over. The released operations come back in
    /// that order, each with its index, and are suspended no more. The
    /// list of `var` is empty afterwards.
    pub fn trigger(&mut self, table: &UnificationTable, var: InferVar) -> (ready: Vec<(OpIndex,
        Op)>)
        requires
            old(self).wf(),
            table.value_of(var) is Some,
        ensures
            final(self).wf(),
            ready@ == released_by(
                old(self).blocked_on(var),
                old(self).pending(),
                old(self).blocked_on(var).len(),
            ),
            final(self).pending() == old(self).pending().remove_keys(
                old(self).blocked_on(var).to_set(),
            ),
            final(self).waits() == old(self).waits(),
            final(self).fired() == old(self).fired() + Self::firings(ready@, var),
            final(self).released_count() == old(self).released_count() + ready@.len(),
            final(self).issued_count() == old(self).issued_count(),
            final(self).ever() == old(self).ever(),
            forall|k: int|
                0 <= k < ready@.len() ==> old(self).ever().contains_key((#[trigger] ready@[k]).0)
                    && old(self).ever()[ready@[k].0] == ready@[k].1,
            final(self).fired_ops() == old(self).fired_ops() + ready@.map_values(
                |r: (OpIndex, Op)| r.1,
            ),
            final(self).pending().dom().finite(),
            final(self).pending().dom().len() + ready@.len() == old(self).pending().dom().len(),
            final(self).blocked_on(var) == Seq::<OpIndex>::empty(),
            forall|k: int|
                0 <= k < ready@.len() ==> old(self).pending().contains_key((#[trigger] ready@[k]).0)
                    && old(self).pending()[ready@[k].0] == ready@[k].1,
            forall|v: InferVar|
                v != var ==> #[trigger] final(self).blocked_on(v) == old(self).blocked_on(v),
            forall|at: OpIndex| #[trigger]
                final(self).pending().contains_key(at) ==> !final(self).waits()[at].contains(var),
            old(self).fired_resolved(*table) ==> final(self).fired_resolved(*table),
    {
        let ghost pending0 = self.pending();
        let ghost fired0 = self.fired@;
        let ghost snapshot = *self;
        let list = match blocked_take(&mut self.blocked, var.index) {
            Some(list) => list,
            None => Vec::new(),
        };
        let ghost taken = *self;
        proof {
            assert(list@ =~= old(self).blocked_on(var));
            assert(self.list_of(var.index) =~= Seq::<OpIndex>::empty());
            assert forall|v: u32| v != var.index implies #[trigger] self.list_of(v)
                == snapshot.list_of(v) by {
            }
            assert forall|v: u32, e: int| 0 <= e < self.list_of(v).len() implies {
                let at = #[trigger] self.list_of(v)[e];
                self.waits@.contains_key(at) && self.waits@[at].contains(InferVar { index: v })
            } by {
                assert(self.list_of(v) == snapshot.list_of(v));
                let at = snapshot.list_of(v)[e];
                assert(snapshot.waits@.contains_key(at));
            }
            Self::lemma_core_frame(snapshot, *self);
            assert forall|e: int| 0 <= e < list@.len() implies self.waits@.contains_key(
                #[trigger] list@[e],
            ) && self.waits@[list@[e]].contains(var) by {
                let at = snapshot.list_of(var.index)[e];
                assert(snapshot.waits@.contains_key(at));
                assert(InferVar { index: var.index } == var);
            }
            assert(pending0.remove_keys(list@.take(0).to_set()) =~= pending0);
            assert(fired0 + Self::firings(Seq::<(OpIndex, Op)>::empty(), var) =~= fired0);
        }
        let mut ready: Vec<(OpIndex, Op)> = Vec::new();
        let mut i: usize = 0;
        while i < list.len()
            invariant
                i <= list.len(),
                list@ == old(self).blocked_on(var),
                pending0 == old(self).pending(),
                fired0 == old(self).fired@,
                table.value_of(var) is Some,
                old(self).wf(),
                self.issued == old(self).issued,
                self.ever == old(self).ever,
                self.pending().dom().len() + ready@.len() == pending0.dom().len(),
                self.blocked == taken.blocked,
                taken.list_of(var.index) == Seq::<OpIndex>::empty(),
                forall|v: u32| v != var.index ==> #[trigger] taken.list_of(v) == old(self).list_of(v),
                self.core_wf(),
                self.waits@ == old(self).waits@,
                forall|e: int|
                    0 <= e < list@.len() ==> self.waits@.contains_key(#[trigger] list@[e])
                        && self.waits@[list@[e]].contains(var),
                self.pending() == pending0.remove_keys(list@.take(i as int).to_set()),
                ready@ == released_by(list@, pending0, i as nat),
                ready@.len() <= i,
                forall|k: int|
                    0 <= k < ready@.len() ==> pending0.contains_key((#[trigger] ready@[k]).0)
                        && pending0[ready@[k].0] == ready@[k].1,
                self.fired@ == fired0 + Self::firings(ready@, var),
                self.released == old(self).released + ready@.len(),
            decreases list.len() - i,
        {
            let at: OpIndex = list[i];
            let ghost before = *self;
            let ghost ready_before = ready@;
            proof {
                assert(list@.take(i as int + 1) =~= list@.take(i as int).push(at));
                list@.take(i as int).lemma_push_to_set_commute(at);
                assert(self.pending().contains_key(at) <==> pending0.contains_key(at)
                    && !list@.take(i as int).contains(at));
            }
            match arena_remove(&mut self.arena, at) {
                Some(op) => {
                    self.released = self.released + 1;
                    self.fired = Ghost(self.fired@.push(Firing { op: at, var }));
                    ready.push((at, op));
                    proof {
                        assert(self.pending() =~= pending0.remove_keys(
                            list@.take(i as int + 1).to_set(),
                        ));
                        assert(Self::firings(ready@, var) =~= Self::firings(ready_before, var).push(
                            Firing { op: at, var },
                        ));
                        assert(self.fired@ =~= fired0 + Self::firings(ready@, var));
                        let n = before.fired@.len() as int;
                        assert(self.fired@[n] == Firing { op: at, var });
                        assert forall|x: OpIndex| #[trigger]
                            self.waits@.contains_key(x) implies x.generation <= self.released && (
                        self.pending().contains_key(x) || exists|k: int|
                            0 <= k < self.fired@.len() && (#[trigger] self.fired@[k]).op == x) by {
                            assert(before.waits@.contains_key(x));
                            if x == at {
                                assert(self.fired@[n].op == x);
                            } else if !before.pending().contains_key(x) {
                                let k = choose|k: int|
                                    0 <= k < before.fired@.len() && (#[trigger] before.fired@[k]).op
                                        == x;
                                assert(self.fired@[k].op == x);
                            }
                        }
                        assert forall|k: int| 0 <= k < self.fired@.len() implies {
                            let f = #[trigger] self.fired@[k];
                            &&& self.waits@.contains_key(f.op)
                            &&& f.op.generation < self.released
                            &&& !self.pending().contains_key(f.op)
                            &&& self.waits@[f.op].contains(f.var)
                        } by {
                            if k < n {
                                let f = before.fired@[k];
                                assert(before.waits@.contains_key(f.op));
                            } else {
                                assert(before.pending().contains_key(at));
                                assert(before.waits@.contains_key(at));
                                assert(list@[i as int] == at);
                            }
                        }
                        assert forall|a: int, b: int|
                            0 <= a < b < self.fired@.len() implies (#[trigger] self.fired@[a]).op != (
                        #[trigger] self.fired@[b]).op by {
                            if b == n {
                                let f = before.fired@[a];
                                assert(!before.pending().contains_key(f.op));
                            } else {
                                assert(before.fired@[a].op != before.fired@[b].op);
                            }
                        }
                        assert forall|v: u32, e: int| 0 <= e < self.list_of(v).len() implies {
                            let x = #[trigger] self.list_of(v)[e];
                            self.waits@.contains_key(x) && self.waits@[x].contains(
                                InferVar { index: v },
                            )
                        } by {
                            let x = before.list_of(v)[e];
                            assert(before.waits@.contains_key(x));
                        }
                        assert(self.pending().dom() =~= before.pending().dom().remove(at));
                        assert(self.core_wf());
                        reveal_with_fuel(released_by, 2);
                    }
                },
                None => {
                    proof {
                        assert(self.pending() =~= pending0.remove_keys(
                            list@.take(i as int + 1).to_set(),
                        ));
                        assert forall|v: u32, e: int| 0 <= e < self.list_of(v).len() implies {
                            let x = #[trigger] self.list_of(v)[e];
                            self.waits@.contains_key(x) && self.waits@[x].contains(
                                InferVar { index: v },
                            )
                        } by {
                            let x = before.list_of(v)[e];
                            assert(before.waits@.contains_key(x));
                        }
                        Self::lemma_core_frame(before, *self);
                        reveal_with_fuel(released_by, 2);
                    }
                },
            }
            i = i + 1;
        }
        proof {
            assert(list@.take(list@.len() as int) =~= list@);
            assert(self.blocked_on(var) =~= Seq::<OpIndex>::empty());
            assert forall|v: InferVar| v != var implies #[trigger] self.blocked_on(v)
                == old(self).blocked_on(v) by {
                assert(v.index != var.index);
                assert(self.list_of(v.index) == taken.list_of(v.index));
            }
            assert forall|at: OpIndex| #[trigger]
                self.pending().contains_key(at) implies !self.waits()[at].contains(var)
                && self.registered(at) by {
                assert(old(self).pending().contains_key(at));
                assert(old(self).registered(at));
                if self.waits@[at].contains(var) {
                    assert(list@.contains(at));
                    assert(list@.to_set().contains(at));
                }
                assert forall|w: InferVar| #[trigger]
                    self.waits@[at].contains(w) implies self.list_of(w.index).contains(at) by {
                    assert(w != var);
                    assert(w.index != var.index);
                    assert(self.list_of(w.index) == taken.list_of(w.index));
                }
            }
            if old(self).fired_resolved(*table) {
                assert forall|k: int| 0 <= k < self.fired().len() implies table.value_of(
                    (#[trigger] self.fired()[k]).var,
                ) is Some by {
                    if k < fired0.len() {
                        assert(self.fired()[k] == old(self).fired()[k]);
                    } else {
                        assert(self.fired()[k] == Self::firings(ready@, var)[k - fired0.len()]);
                    }
                }
            }
        }
        ready
    }

    /// No operation is released twice, a released operation is suspended
    /// no more, and every release went through a variable that the
    /// operation was registered against.
    pub proof fn lemma_released_once(&self)
        requires
            self.wf(),
        ensures
            forall|i: int, j: int|
                0 <= i < j < self.fired().len() ==> (#[trigger] self.fired()[i]).op != (
                #[trigger] self.fired()[j]).op,
            forall|k: int|
                0 <= k < self.fired().len() ==> {
                    let f = #[trigger] self.fired()[k];
                    &&& self.waits().contains_key(f.op)
                    &&& self.waits()[f.op].contains(f.var)
                    &&& !self.pending().contains_key(f.op)
                },
            forall|at: OpIndex| #[trigger]
                self.pending().contains_key(at) ==> self.waits().contains_key(at),
    {
    }

    /// An operation that was ever suspended is suspended still, or has
    /// been released.
    pub proof fn lemma_suspended_or_released(&self, at: OpIndex)
        requires
            self.wf(),
            self.waits().contains_key(at),
        ensures
            self.pending().contains_key(at) || exists|k: int|
                0 <= k < self.fired().len() && (#[trigger] self.fired()[k]).op == at,
    {
        if !self.pending().contains_key(at) {
            let k = choose|k: int| 0 <= k < self.fired@.len() && (#[trigger] self.fired@[k]).op
                == at;
            assert(self.fired()[k].op == at);
        }
    }

    /// An operation that was suspended on `v` has been released exactly
    /// once as soon as `v` is resolved and the scheduler is quiescent; and
    /// it was not released through `v` while `v` was unresolved.
    pub proof fn lemma_resolution_triggers_once(
        &self,
        table: UnificationTable,
        at: OpIndex,
        v: InferVar,
    )
        requires
            self.wf(),
            self.fired_resolved(table),
            self.quiescent(table),
            self.waits().contains_key(at),
            self.waits()[at].contains(v),
        ensures
            table.value_of(v) is Some ==> exists|k: int|
                0 <= k < self.fired().len() && (#[trigger] self.fired()[k]).op == at
                    && table.value_of(self.fired()[k].var) is Some && forall|j: int|
                    0 <= j < self.fired().len() && j != k ==> (#[trigger] self.fired()[j]).op != at,
            table.value_of(v) is None ==> forall|k: int|
                0 <= k < self.fired().len() ==> (#[trigger] self.fired()[k]).var != v,
    {
        if table.value_of(v) is Some {
            assert(!self.pending().contains_key(at));
            let k = choose|k: int| 0 <= k < self.fired@.len() && (#[trigger] self.fired@[k]).op
                == at;
            assert(self.fired()[k].op == at);
            assert forall|j: int| 0 <= j < self.fired().len() && j != k implies (
            #[trigger] self.fired()[j]).op != at by {
                if j < k {
                    assert(self.fired@[j].op != self.fired@[k].op);
                } else {
                    assert(self.fired@[k].op != self.fired@[j].op);
                }
            }
        }
    }
}

} // verus!
