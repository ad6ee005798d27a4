//! The unification table: a union-find over inference variables in which
//! every class may carry the type skeleton that it has been resolved to.
//!
//! The table is the sole owner of its slots; a variable is an index into
//! them. A class is resolved once its representative carries a value, and
//! stays resolved. Every variable that becomes resolved is reported once,
//! as an event, so that whoever waits for it can go on.

use crate::ty::{Base, InferVar};
use vstd::prelude::*;

verus! {

/// Two known type skeletons that were required to be the same and are not.
#[derive(Clone, Copy, Debug, PartialEq, Eq, Structural)]
pub struct TypeMismatch {
    pub left: Base,
    pub right: Base,
}

/// Every link stays inside the table and leads to a slot of higher rank.
pub open spec fn links_ok(parent: Seq<u32>, rank: Seq<nat>, bound: nat) -> bool {
    &&& rank.len() == parent.len()
    &&& forall|i: int| 0 <= i < parent.len() ==> (#[trigger] parent[i]) < parent.len()
    &&& forall|i: int| 0 <= i < parent.len() ==> #[trigger] rank[i] <= bound
    &&& forall|i: int|
        0 <= i < parent.len() && (#[trigger] parent[i]) != i ==> rank[i] < rank[parent[i] as int]
}

/// The slot at the end of the chain of links that starts at `i`.
pub open spec fn root_from(parent: Seq<u32>, rank: Seq<nat>, bound: nat, i: int) -> int
    decreases bound - rank[i],
    when links_ok(parent, rank, bound) && 0 <= i < parent.len()
{
    if parent[i] == i {
        i
    } else {
        root_from(parent, rank, bound, parent[i] as int)
    }
}

pub proof fn lemma_root(parent: Seq<u32>, rank: Seq<nat>, bound: nat, i: int)
    requires
        links_ok(parent, rank, bound),
        0 <= i < parent.len(),
    ensures
        0 <= root_from(parent, rank, bound, i) < parent.len(),
        parent[root_from(parent, rank, bound, i)] == root_from(parent, rank, bound, i),
        rank[i] <= rank[root_from(parent, rank, bound, i)],
        root_from(parent, rank, bound, parent[i] as int) == root_from(parent, rank, bound, i),
        root_from(parent, rank, bound, root_from(parent, rank, bound, i)) == root_from(
            parent,
            rank,
            bound,
            i,
        ),
    decreases bound - rank[i],
{
    if parent[i] != i {
        lemma_root(parent, rank, bound, parent[i] as int);
    }
}

/// Whether the chain of links that starts at `from` passes the slot `to`.
pub open spec fn leads_to(parent: Seq<u32>, rank: Seq<nat>, bound: nat, from: int, to: int) -> bool
    decreases bound - rank[from],
    when links_ok(parent, rank, bound) && 0 <= from < parent.len()
{
    from == to || (parent[from] != from && leads_to(parent, rank, bound, parent[from] as int, to))
}

/// A chain passes slots of the table only, in the order of their ranks,
/// and goes on from every slot that it passes.
proof fn lemma_leads(parent: Seq<u32>, rank: Seq<nat>, bound: nat, from: int, mid: int, to: int)
    requires
        links_ok(parent, rank, bound),
        0 <= from < parent.len(),
        leads_to(parent, rank, bound, from, mid),
    ensures
        0 <= mid < parent.len(),
        rank[from] <= rank[mid],
        leads_to(parent, rank, bound, mid, to) ==> leads_to(parent, rank, bound, from, to),
    decreases bound - rank[from],
{
    if from != mid {
        lemma_leads(parent, rank, bound, parent[from] as int, mid, to);
    }
}

/// Pointing `x` at a slot further up its own chain moves no root.
proof fn lemma_shortcut(parent: Seq<u32>, rank: Seq<nat>, bound: nat, x: int, y: int, i: int)
    requires
        links_ok(parent, rank, bound),
        0 <= x < parent.len(),
        0 <= y < parent.len(),
        0 <= i < parent.len(),
        parent.len() <= u32::MAX,
        rank[x] < rank[y],
        root_from(parent, rank, bound, y) == root_from(parent, rank, bound, x),
    ensures
        links_ok(parent.update(x, y as u32), rank, bound),
        root_from(parent.update(x, y as u32), rank, bound, i) == root_from(parent, rank, bound, i),
    decreases bound - rank[i],
{
    let after = parent.update(x, y as u32);
    assert(links_ok(after, rank, bound)) by {
        assert forall|k: int| 0 <= k < after.len() && (#[trigger] after[k]) != k implies rank[k]
            < rank[after[k] as int] by {
            if k != x {
                assert(after[k] == parent[k]);
            }
        }
        assert forall|k: int| 0 <= k < after.len() implies (#[trigger] after[k]) < after.len() by {
            if k != x {
                assert(after[k] == parent[k]);
            }
        }
    }
    if i == x {
        lemma_shortcut(parent, rank, bound, x, y, y);
    } else if parent[i] != i {
        assert(after[i] == parent[i]);
        lemma_shortcut(parent, rank, bound, x, y, parent[i] as int);
    } else {
        assert(after[i] == parent[i]);
    }
}

/// The rank that the surviving root needs after a union.
pub open spec fn joined_rank(rank: Seq<nat>, ra: int, rb: int) -> nat {
    if rank[rb] > rank[ra] {
        rank[rb]
    } else {
        rank[ra] + 1
    }
}

/// Linking the root `ra` below the root `rb` moves the class of `ra` to
/// `rb` and leaves every other root alone.
proof fn lemma_link(parent: Seq<u32>, rank: Seq<nat>, bound: nat, ra: int, rb: int, i: int)
    requires
        links_ok(parent, rank, bound),
        0 <= ra < parent.len(),
        0 <= rb < parent.len(),
        0 <= i < parent.len(),
        parent.len() <= u32::MAX,
        parent[ra] == ra,
        parent[rb] == rb,
        ra != rb,
    ensures
        links_ok(parent.update(ra, rb as u32), rank.update(rb, joined_rank(rank, ra, rb)), bound
            + 1),
        root_from(
            parent.update(ra, rb as u32),
            rank.update(rb, joined_rank(rank, ra, rb)),
            bound + 1,
            i,
        ) == (if root_from(parent, rank, bound, i) == ra {
            rb
        } else {
            root_from(parent, rank, bound, i)
        }),
    decreases bound - rank[i],
{
    let parent2 = parent.update(ra, rb as u32);
    let rank2 = rank.update(rb, joined_rank(rank, ra, rb));
    assert(links_ok(parent2, rank2, bound + 1)) by {
        assert forall|k: int| 0 <= k < parent2.len() implies (#[trigger] parent2[k])
            < parent2.len() by {
            if k != ra {
                assert(parent2[k] == parent[k]);
            }
        }
        assert forall|k: int| 0 <= k < parent2.len() implies #[trigger] rank2[k] <= bound + 1 by {
            assert(rank[k] <= bound);
            assert(rank[ra] <= bound);
        }
        assert forall|k: int| 0 <= k < parent2.len()
            && (#[trigger] parent2[k]) != k implies rank2[k]
            < rank2[parent2[k] as int] by {
            if k != ra {
                assert(parent2[k] == parent[k]);
                assert(rank[k] < rank[parent[k] as int]);
            }
        }
    }
    if parent[i] == i {
        if i == ra {
            assert(parent2[rb] == rb);
            assert(root_from(parent2, rank2, bound + 1, rb) == rb);
            assert(parent2[ra] == rb);
            assert(root_from(parent2, rank2, bound + 1, ra) == root_from(
                parent2,
                rank2,
                bound + 1,
                rb,
            ));
        } else {
            assert(parent2[i] == i);
        }
    } else {
        assert(parent2[i] == parent[i]);
        lemma_link(parent, rank, bound, ra, rb, parent[i] as int);
    }
}

/// A new slot that points at itself moves no root.
proof fn lemma_grow(parent: Seq<u32>, rank: Seq<nat>, bound: nat, i: int)
    requires
        links_ok(parent, rank, bound),
        parent.len() < u32::MAX,
        0 <= i <= parent.len(),
    ensures
        links_ok(parent.push(parent.len() as u32), rank.push(0), bound),
        root_from(parent.push(parent.len() as u32), rank.push(0), bound, i) == (if i
            < parent.len() {
            root_from(parent, rank, bound, i)
        } else {
            i
        }),
    decreases bound - rank.push(0)[i],
{
    let parent2 = parent.push(parent.len() as u32);
    let rank2 = rank.push(0);
    assert(links_ok(parent2, rank2, bound)) by {
        assert forall|k: int| 0 <= k < parent2.len() implies (#[trigger] parent2[k])
            < parent2.len() by {
            if k < parent.len() {
                assert(parent2[k] == parent[k]);
            }
        }
        assert forall|k: int| 0 <= k < parent2.len() implies #[trigger] rank2[k] <= bound by {
            if k < parent.len() {
                assert(rank2[k] == rank[k]);
            }
        }
        assert forall|k: int| 0 <= k < parent2.len()
            && (#[trigger] parent2[k]) != k implies rank2[k]
            < rank2[parent2[k] as int] by {
            assert(parent2[k] == parent[k]);
            assert(rank[k] < rank[parent[k] as int]);
        }
    }
    if i < parent.len() {
        assert(parent2[i] == parent[i]);
        if parent[i] != i {
            lemma_grow(parent, rank, bound, parent[i] as int);
        }
    }
}

/// The unification table.
pub struct UnificationTable {
    /// The link of each slot; a representative links to itself.
    parent: Vec<u32>,
    /// What each class is resolved to, kept at its representative.
    value: Vec<Option<Base>>,
    /// The variables that became resolved and were not yet taken out.
    events: Vec<InferVar>,
    /// A height for each slot that grows along every link.
    rank: Ghost<Seq<nat>>,
    /// A limit above every rank.
    bound: Ghost<nat>,
}

impl UnificationTable {
    /// The number of variables.
    pub closed spec fn len(&self) -> nat {
        self.parent@.len()
    }

    /// The slots are linked without a cycle and inside the table.
    pub closed spec fn wf(&self) -> bool {
        &&& links_ok(self.parent@, self.rank@, self.bound@)
        &&& self.value@.len() == self.parent@.len()
        &&& self.parent@.len() <= u32::MAX
        &&& forall|k: int|
            0 <= k < self.events@.len() ==> (#[trigger] self.events@[k]).index
                < self.parent@.len() && self.value@[root_from(
                self.parent@,
                self.rank@,
                self.bound@,
                self.events@[k].index as int,
            )] is Some
    }

    /// Whether `v` is a variable of this table.
    pub open spec fn has(&self, v: InferVar) -> bool {
        v.index < self.len()
    }

    /// The representative of the class of `v`.
    pub closed spec fn rep(&self, v: InferVar) -> InferVar {
        InferVar { index: root_from(self.parent@, self.rank@, self.bound@, v.index as int) as u32 }
    }

    /// What the class of `v` is resolved to, if it is.
    pub closed spec fn value_of(&self, v: InferVar) -> Option<Base> {
        self.value@[root_from(self.parent@, self.rank@, self.bound@, v.index as int)]
    }

    /// The variables that became resolved and were not yet taken out,
    /// oldest first.
    pub closed spec fn events(&self) -> Seq<InferVar> {
        self.events@
    }

    /// Whether `a` and `b` are in one class.
    pub open spec fn same_class(&self, a: InferVar, b: InferVar) -> bool {
        self.rep(a) == self.rep(b)
    }

    /// The variables among the first `n` that `before` does not resolve
    /// and `after` does, in ascending order.
    pub open spec fn resolved_since(before: UnificationTable, after: UnificationTable,
        n: nat) -> Seq<
        InferVar,
    >
        decreases n,
    {
        if n == 0 {
            Seq::empty()
        } else {
            let rest = Self::resolved_since(before, after, (n - 1) as nat);
            let v = InferVar { index: (n - 1) as u32 };
            if before.value_of(v) is None && after.value_of(v) is Some {
                rest.push(v)
            } else {
                rest
            }
        }
    }

    /// A representative is a variable of the table, represents itself, and
    /// carries the value of everything it represents.
    pub proof fn lemma_rep(&self, v: InferVar)
        requires
            self.wf(),
            self.has(v),
        ensures
            self.has(self.rep(v)),
            self.rep(self.rep(v)) == self.rep(v),
            self.value_of(self.rep(v)) == self.value_of(v),
    {
        lemma_root(self.parent@, self.rank@, self.bound@, v.index as int);
    }

    /// Every pending event names a variable of the table that is resolved.
    pub proof fn lemma_events_resolved(&self)
        requires
            self.wf(),
        ensures
            self.len() <= u32::MAX,
            forall|k: int|
                0 <= k < self.events().len() ==> self.has(#[trigger] self.events()[k])
                    && self.value_of(self.events()[k]) is Some,
    {
    }

    /// Variables of one class resolve alike.
    pub proof fn lemma_same_class_same_value(&self, a: InferVar, b: InferVar)
        requires
            self.wf(),
            self.has(a),
            self.has(b),
            self.same_class(a, b),
        ensures
            self.value_of(a) == self.value_of(b),
    {
        lemma_root(self.parent@, self.rank@, self.bound@, a.index as int);
        lemma_root(self.parent@, self.rank@, self.bound@, b.index as int);
    }

    /// A table without variables.
    pub fn new() -> (table: UnificationTable)
        ensures
            table.wf(),
            table.len() == 0,
            table.events() == Seq::<InferVar>::empty(),
    {
        UnificationTable {
            parent: Vec::new(),
            value: Vec::new(),
            events: Vec::new(),
            rank: Ghost(Seq::empty()),
            bound: Ghost(0),
        }
    }

    /// The number of variables.
    pub fn count(&self) -> (n: usize)
        ensures
            n == self.len(),
    {
        self.parent.len()
    }

    /// Allocates a fresh variable: unresolved, and alone in its class.
    pub fn new_variable(&mut self) -> (v: InferVar)
        requires
            old(self).wf(),
            old(self).len() < u32::MAX,
        ensures
            final(self).wf(),
            final(self).len() == old(self).len() + 1,
            v.index == old(self).len(),
            final(self).rep(v) == v,
            final(self).value_of(v) is None,
            forall|w: InferVar|
                old(self).has(w) ==> #[trigger] final(self).rep(w) == old(self).rep(w)
                    && final(self).value_of(w) == old(self).value_of(w),
            final(self).events() == old(self).events(),
    {
        let n: usize = self.parent.len();
        proof {
            assert forall|i: int| 0 <= i <= n implies root_from(
                self.parent@.push(n as u32),
                self.rank@.push(0),
                self.bound@,
                i,
            ) == (if i < n {
                root_from(self.parent@, self.rank@, self.bound@, i)
            } else {
                i
            }) && links_ok(self.parent@.push(n as u32), self.rank@.push(0), self.bound@) by {
                lemma_grow(self.parent@, self.rank@, self.bound@, i);
            }
            assert forall|i: int| 0 <= i < n implies 0 <= #[trigger] root_from(
                self.parent@,
                self.rank@,
                self.bound@,
                i,
            ) < n by {
                lemma_root(self.parent@, self.rank@, self.bound@, i);
            }
        }
        self.parent.push(n as u32);
        self.value.push(None);
        self.rank = Ghost(self.rank@.push(0));
        let v = InferVar { index: n as u32 };
        proof {
            assert(root_from(self.parent@, self.rank@, self.bound@, n as int) == n);
            assert forall|w: InferVar| old(self).has(w) implies #[trigger] self.rep(w)
                == old(self).rep(w) && self.value_of(w) == old(self).value_of(w) by {
                let i = w.index as int;
                assert(root_from(self.parent@, self.rank@, self.bound@, i) == root_from(
                    old(self).parent@,
                    old(self).rank@,
                    old(self).bound@,
                    i,
                ));
            }
        }
        v
    }

    /// The representative of `v`, found without changing the table.
    fn root_of(&self, v: InferVar) -> (r: u32)
        requires
            self.wf(),
            self.has(v),
        ensures
            r == self.rep(v).index,
            r < self.len(),
            r == root_from(self.parent@, self.rank@, self.bound@, v.index as int),
            self.parent@[r as int] == r,
    {
        let mut cur: u32 = v.index;
        proof {
            lemma_root(self.parent@, self.rank@, self.bound@, v.index as int);
        }
        while self.parent[cur as usize] != cur
            invariant
                self.wf(),
                cur < self.parent@.len(),
                root_from(self.parent@, self.rank@, self.bound@, cur as int) == root_from(
                    self.parent@,
                    self.rank@,
                    self.bound@,
                    v.index as int,
                ),
            decreases self.bound@ - self.rank@[cur as int],
        {
            proof {
                lemma_root(self.parent@, self.rank@, self.bound@, cur as int);
            }
            cur = self.parent[cur as usize];
        }
        cur
    }

    /// Points every slot on the way from `v` to its representative `r`
    /// straight at `r`. Every other link stays; no class, no value and no
    /// event changes.
    fn compress(&mut self, v: InferVar, r: u32)
        requires
            old(self).wf(),
            old(self).has(v),
            r == old(self).rep(v).index,
        ensures
            final(self).wf(),
            final(self).len() == old(self).len(),
            final(self).value@ == old(self).value@,
            final(self).events@ == old(self).events@,
            final(self).rank@ == old(self).rank@,
            final(self).bound@ == old(self).bound@,
            forall|i: int|
                0 <= i < old(self).len() ==> #[trigger] final(self).parent@[i] == (if leads_to(
                    old(self).parent@,
                    old(self).rank@,
                    old(self).bound@,
                    v.index as int,
                    i,
                ) {
                    r
                } else {
                    old(self).parent@[i]
                }),
            forall|i: int|
                0 <= i < old(self).len() ==> #[trigger] root_from(
                    final(self).parent@,
                    final(self).rank@,
                    final(self).bound@,
                    i,
                ) == root_from(old(self).parent@, old(self).rank@, old(self).bound@, i),
    {
        let mut cur: u32 = v.index;
        let ghost parent0 = self.parent@;
        let ghost rank0 = self.rank@;
        let ghost bound0 = self.bound@;
        proof {
            lemma_root(self.parent@, self.rank@, self.bound@, v.index as int);
        }
        while self.parent[cur as usize] != cur
            invariant
                self.wf(),
                old(self).wf(),
                old(self).has(v),
                parent0 == old(self).parent@,
                rank0 == old(self).rank@,
                bound0 == old(self).bound@,
                cur < self.parent@.len(),
                self.parent@.len() == old(self).parent@.len(),
                self.value@ == old(self).value@,
                self.events@ == old(self).events@,
                self.rank@ == old(self).rank@,
                self.bound@ == old(self).bound@,
                r == root_from(self.parent@, self.rank@, self.bound@, cur as int),
                leads_to(parent0, rank0, bound0, v.index as int, cur as int),
                forall|i: int|
                    0 <= i < parent0.len() ==> #[trigger] self.parent@[i] == (if leads_to(
                        parent0,
                        rank0,
                        bound0,
                        v.index as int,
                        i,
                    ) && !leads_to(parent0, rank0, bound0, cur as int, i) {
                        r
                    } else {
                        parent0[i]
                    }),
                forall|i: int|
                    0 <= i < old(self).len() ==> #[trigger] root_from(
                        self.parent@,
                        self.rank@,
                        self.bound@,
                        i,
                    ) == root_from(old(self).parent@, old(self).rank@, old(self).bound@, i),
            decreases self.bound@ - self.rank@[cur as int],
        {
            let next: u32 = self.parent[cur as usize];
            let ghost before = self.parent@;
            proof {
                let parent = self.parent@;
                let rank = self.rank@;
                let bound = self.bound@;
                lemma_root(parent, rank, bound, cur as int);
                lemma_root(parent, rank, bound, next as int);
                lemma_root(parent, rank, bound, r as int);
                assert(rank[cur as int] < rank[r as int]);
                assert forall|i: int| 0 <= i < parent.len() implies links_ok(
                    parent.update(cur as int, r),
                    rank,
                    bound,
                ) && #[trigger] root_from(parent.update(cur as int, r), rank, bound, i)
                    == root_from(parent, rank, bound, i) by {
                    lemma_shortcut(parent, rank, bound, cur as int, r as int, i);
                }
                lemma_shortcut(parent, rank, bound, cur as int, r as int, next as int);
                // The slot at hand has its old link still, so the next
                // slot is the next of the old chain.
                assert(leads_to(parent0, rank0, bound0, cur as int, cur as int));
                assert(parent[cur as int] == parent0[cur as int]);
                assert(leads_to(parent0, rank0, bound0, cur as int, next as int)) by {
                    assert(leads_to(parent0, rank0, bound0, next as int, next as int));
                }
                lemma_leads(parent0, rank0, bound0, v.index as int, cur as int, next as int);
                assert forall|i: int| 0 <= i < parent0.len() implies #[trigger] parent.update(
                    cur as int,
                    r,
                )[i] == (if leads_to(parent0, rank0, bound0, v.index as int, i) && !leads_to(
                    parent0,
                    rank0,
                    bound0,
                    next as int,
                    i,
                ) {
                    r
                } else {
                    parent0[i]
                }) by {
                    if i == cur {
                        if leads_to(parent0, rank0, bound0, next as int, cur as int) {
                            lemma_leads(parent0, rank0, bound0, next as int, cur as int, cur as int);
                        }
                    } else {
                        assert(parent.update(cur as int, r)[i] == parent[i]);
                        if leads_to(parent0, rank0, bound0, next as int, i) {
                            assert(leads_to(parent0, rank0, bound0, cur as int, i));
                        }
                    }
                }
            }
            self.parent.set(cur as usize, r);
            cur = next;
        }
        proof {
            assert(leads_to(parent0, rank0, bound0, cur as int, cur as int));
            assert(parent0[cur as int] == cur);
            assert(cur == r);
            assert forall|i: int| 0 <= i < parent0.len() implies #[trigger] self.parent@[i] == (
            if leads_to(parent0, rank0, bound0, v.index as int, i) {
                r
            } else {
                parent0[i]
            }) by {
                if i != cur {
                    assert(!leads_to(parent0, rank0, bound0, cur as int, i));
                }
            }
        }
    }

    /// What the class of `v` is resolved to, or `None` while it is not.
    pub fn resolve(&self, v: InferVar) -> (value: Option<Base>)
        requires
            self.wf(),
            self.has(v),
        ensures
            value == self.value_of(v),
    {
        let r: u32 = self.root_of(v);
        self.value[r as usize]
    }

    /// The representative of the class of `v`. The paths that it walks are
    /// shortened; no class and no value changes.
    pub fn find(&mut self, v: InferVar) -> (r: InferVar)
        requires
            old(self).wf(),
            old(self).has(v),
        ensures
            final(self).wf(),
            final(self).len() == old(self).len(),
            r == old(self).rep(v),
            final(self).events() == old(self).events(),
            forall|w: InferVar|
                old(self).has(w) ==> #[trigger] final(self).rep(w) == old(self).rep(w)
                    && final(self).value_of(w) == old(self).value_of(w),
    {
        let r: u32 = self.root_of(v);
        self.compress(v, r);
        proof {
            assert forall|w: InferVar| old(self).has(w) implies #[trigger] self.rep(w)
                == old(self).rep(w) && self.value_of(w) == old(self).value_of(w) by {
                let i = w.index as int;
                assert(root_from(self.parent@, self.rank@, self.bound@, i) == root_from(
                    old(self).parent@,
                    old(self).rank@,
                    old(self).bound@,
                    i,
                ));
            }
        }
        InferVar { index: r }
    }

    /// The variables of the class of the representative `r`, ascending.
    pub open spec fn members(&self, r: InferVar, n: nat) -> Seq<InferVar>
        decreases n,
    {
        if n == 0 {
            Seq::empty()
        } else {
            let rest = self.members(r, (n - 1) as nat);
            let v = InferVar { index: (n - 1) as u32 };
            if self.rep(v) == r {
                rest.push(v)
            } else {
                rest
            }
        }
    }

    fn collect_members(&self, r: u32) -> (found: Vec<InferVar>)
        requires
            self.wf(),
            r < self.len(),
        ensures
            found@ == self.members(InferVar { index: r }, self.len()),
            forall|k: int|
                0 <= k < found@.len() ==> (#[trigger] found@[k]).index < self.len() && root_from(
                    self.parent@,
                    self.rank@,
                    self.bound@,
                    found@[k].index as int,
                ) == r,
    {
        let mut found: Vec<InferVar> = Vec::new();
        let n: usize = self.parent.len();
        let mut i: usize = 0;
        while i < n
            invariant
                self.wf(),
                n == self.parent@.len(),
                i <= n,
                found@ == self.members(InferVar { index: r }, i as nat),
                forall|k: int|
                    0 <= k < found@.len() ==> (#[trigger] found@[k]).index < n && root_from(
                        self.parent@,
                        self.rank@,
                        self.bound@,
                        found@[k].index as int,
                    ) == r,
            decreases n - i,
        {
            let v = InferVar { index: i as u32 };
            let root: u32 = self.root_of(v);
            if root == r {
                found.push(v);
            }
            i = i + 1;
        }
        found
    }

    /// Takes the pending events out, oldest first.
    pub fn drain_events(&mut self) -> (taken: Vec<InferVar>)
        requires
            old(self).wf(),
        ensures
            final(self).wf(),
            final(self).len() == old(self).len(),
            taken@ == old(self).events(),
            final(self).events() == Seq::<InferVar>::empty(),
            forall|k: int| 0 <= k < taken@.len() ==> final(self).has(#[trigger] taken@[k]),
            forall|w: InferVar|
                #![trigger final(self).rep(w)]
                #![trigger final(self).value_of(w)]
                final(self).rep(w) == old(self).rep(w) && final(self).value_of(w)
                    == old(self).value_of(w),
    {
        let mut taken: Vec<InferVar> = Vec::new();
        std::mem::swap(&mut self.events, &mut taken);
        taken
    }

    /// The class that `r` represents is exactly what got resolved between
    /// `before` and `after`.
    proof fn lemma_resolved_are_members(
        before: UnificationTable,
        mid: UnificationTable,
        after: UnificationTable,
        r: InferVar,
        n: nat,
    )
        requires
            forall|v: InferVar|
                v.index < n ==> ((before.value_of(v) is None && after.value_of(v) is Some) <==> (
                #[trigger] mid.rep(v)) == r),
            n <= u32::MAX,
        ensures
            Self::resolved_since(before, after, n) == mid.members(r, n),
        decreases n,
    {
        if n > 0 {
            Self::lemma_resolved_are_members(before, mid, after, r, (n - 1) as nat);
            let v = InferVar { index: (n - 1) as u32 };
            assert(v.index < n);
            assert((before.value_of(v) is None && after.value_of(v) is Some) <==> mid.rep(v) == r);
        }
    }

    /// Nothing got resolved where no variable went from unresolved to
    /// resolved.
    proof fn lemma_resolved_none(before: UnificationTable, after: UnificationTable, n: nat)
        requires
            forall|v: InferVar|
                v.index < n ==> !(before.value_of(v) is None && (#[trigger] after.value_of(v))
                    is Some),
            n <= u32::MAX,
        ensures
            Self::resolved_since(before, after, n) == Seq::<InferVar>::empty(),
        decreases n,
    {
        if n > 0 {
            Self::lemma_resolved_none(before, after, (n - 1) as nat);
            let v = InferVar { index: (n - 1) as u32 };
            assert(v.index < n);
            assert(!(before.value_of(v) is None && after.value_of(v) is Some));
        }
    }

    /// Nothing gets resolved between a table and itself.
    pub proof fn lemma_resolved_since_same(table: UnificationTable, n: nat)
        requires
            n <= u32::MAX,
        ensures
            Self::resolved_since(table, table, n) == Seq::<InferVar>::empty(),
    {
        Self::lemma_resolved_none(table, table, n);
    }

    /// A variable that `before` does not resolve and `after` does is among
    /// what got resolved between them.
    pub proof fn lemma_resolved_since_contains(
        before: UnificationTable,
        after: UnificationTable,
        n: nat,
        v: InferVar,
    )
        requires
            v.index < n,
            n <= u32::MAX + 1,
            before.value_of(v) is None,
            after.value_of(v) is Some,
        ensures
            Self::resolved_since(before, after, n).contains(v),
        decreases n,
    {
        if v.index == n - 1 {
            let rest = Self::resolved_since(before, after, (n - 1) as nat);
            assert(Self::resolved_since(before, after, n) == rest.push(v));
            assert(rest.push(v)[rest.len() as int] == v);
        } else {
            Self::lemma_resolved_since_contains(before, after, (n - 1) as nat, v);
            let rest = Self::resolved_since(before, after, (n - 1) as nat);
            let k = choose|k: int| 0 <= k < rest.len() && rest[k] == v;
            assert(Self::resolved_since(before, after, n)[k] == v);
        }
    }

    /// Appends `newly` to the pending events.
    fn push_events(&mut self, newly: Vec<InferVar>)
        requires
            old(self).wf(),
            forall|k: int|
                0 <= k < newly@.len() ==> (#[trigger] newly@[k]).index < old(self).len()
                    && old(self).value_of(newly@[k]) is Some,
        ensures
            final(self).wf(),
            final(self).parent == old(self).parent,
            final(self).value == old(self).value,
            final(self).rank == old(self).rank,
            final(self).bound == old(self).bound,
            final(self).events@ == old(self).events@ + newly@,
    {
        let mut i: usize = 0;
        while i < newly.len()
            invariant
                i <= newly.len(),
                self.wf(),
                self.parent == old(self).parent,
                self.value == old(self).value,
                self.rank == old(self).rank,
                self.bound == old(self).bound,
                forall|k: int|
                    0 <= k < newly@.len() ==> (#[trigger] newly@[k]).index < old(self).len()
                        && old(self).value_of(newly@[k]) is Some,
                self.events@ == old(self).events@ + newly@.take(i as int),
            decreases newly.len() - i,
        {
            self.events.push(newly[i]);
            proof {
                assert(newly@.take(i as int + 1) =~= newly@.take(i as int).push(newly@[i as int]));
                assert(self.events@ =~= old(self).events@ + newly@.take(i as int + 1));
            }
            i = i + 1;
        }
        proof {
            assert(newly@.take(newly@.len() as int) =~= newly@);
        }
    }

    /// Requires the classes of `a` and `b` to be one.
    ///
    /// Where both are resolved to different values the call fails and the
    /// table stays exactly as it was. Otherwise the class of `a` joins the
    /// class of `b`, whose representative now stands for both; a value that
    /// one of the two had is the value of the joined class; and every
    /// variable that is resolved now and was not before is added to the
    /// events, in ascending order.
    pub fn unify(&mut self, a: InferVar, b: InferVar) -> (r: Result<(), TypeMismatch>)
        requires
            old(self).wf(),
            old(self).has(a),
            old(self).has(b),
        ensures
            final(self).wf(),
            final(self).len() == old(self).len(),
            r is Err <==> old(self).value_of(a) is Some && old(self).value_of(b) is Some
                && old(self).value_of(a) != old(self).value_of(b),
            r matches Err(e) ==> e.left == old(self).value_of(a)->0 && e.right
                == old(self).value_of(b)->0 && *final(self) == *old(self),
            r is Ok ==> final(self).value_of(a) == final(self).value_of(b)
                && final(self).same_class(a, b),
            r is Ok ==> forall|w: InferVar|
                old(self).has(w) ==> #[trigger] final(self).rep(w) == (if old(self).same_class(
                    w,
                    a,
                ) {
                    old(self).rep(b)
                } else {
                    old(self).rep(w)
                }),
            r is Ok ==> forall|w: InferVar|
                old(self).has(w) ==> #[trigger] final(self).value_of(w)
                    == (if old(self).same_class(w, a) || old(self).same_class(w, b) {
                    if old(self).value_of(b) is Some {
                        old(self).value_of(b)
                    } else {
                        old(self).value_of(a)
                    }
                } else {
                    old(self).value_of(w)
                }),
            r is Ok ==> final(self).events() == old(self).events() + Self::resolved_since(
                *old(self),
                *final(self),
                old(self).len(),
            ),
    {
        let ghost n = self.len();
        let ra: u32 = self.root_of(a);
        let rb: u32 = self.root_of(b);
        proof {
            assert forall|i: int| 0 <= i < n implies 0 <= #[trigger] root_from(
                self.parent@,
                self.rank@,
                self.bound@,
                i,
            ) < n by {
                lemma_root(self.parent@, self.rank@, self.bound@, i);
            }
        }
        if ra == rb {
            proof {
                Self::lemma_resolved_none(*self, *self, n);
                assert(self.events@ + Seq::<InferVar>::empty() =~= self.events@);
            }
            return Ok(());
        }
        let va: Option<Base> = self.value[ra as usize];
        let vb: Option<Base> = self.value[rb as usize];
        match (va, vb) {
            (Some(x), Some(y)) => {
                if x != y {
                    return Err(TypeMismatch { left: x, right: y });
                }
            },
            _ => {},
        }
        self.compress(a, ra);
        self.compress(b, rb);
        let newly: Vec<InferVar> = if va.is_none() && vb.is_some() {
            self.collect_members(ra)
        } else if va.is_some() && vb.is_none() {
            self.collect_members(rb)
        } else {
            Vec::new()
        };
        let ghost mid = *self;
        proof {
            lemma_root(self.parent@, self.rank@, self.bound@, a.index as int);
            lemma_root(self.parent@, self.rank@, self.bound@, b.index as int);
            assert forall|i: int| 0 <= i < n implies links_ok(
                self.parent@.update(ra as int, rb),
                self.rank@.update(rb as int, joined_rank(self.rank@, ra as int, rb as int)),
                self.bound@ + 1,
            ) && #[trigger] root_from(
                self.parent@.update(ra as int, rb),
                self.rank@.update(rb as int, joined_rank(self.rank@, ra as int, rb as int)),
                self.bound@ + 1,
                i,
            ) == (if root_from(self.parent@, self.rank@, self.bound@, i) == ra {
                rb as int
            } else {
                root_from(self.parent@, self.rank@, self.bound@, i)
            }) by {
                lemma_link(self.parent@, self.rank@, self.bound@, ra as int, rb as int, i);
            }
        }
        self.parent.set(ra as usize, rb);
        if vb.is_none() {
            self.value.set(rb as usize, va);
        }
        self.rank = Ghost(self.rank@.update(rb as int, joined_rank(self.rank@, ra as int,
            rb as int)));
        self.bound = Ghost(self.bound@ + 1);
        self.push_events(newly);
        proof {
            let joined = if vb is Some {
                vb
            } else {
                va
            };
            assert forall|w: InferVar| old(self).has(w) implies #[trigger] self.rep(w)
                == (if old(self).same_class(w, a) {
                old(self).rep(b)
            } else {
                old(self).rep(w)
            }) && #[trigger] self.value_of(w) == (if old(self).same_class(w, a)
                || old(self).same_class(w, b) {
                joined
            } else {
                old(self).value_of(w)
            }) by {
                let i = w.index as int;
                assert(root_from(mid.parent@, mid.rank@, mid.bound@, i) == root_from(
                    old(self).parent@,
                    old(self).rank@,
                    old(self).bound@,
                    i,
                ));
                assert(root_from(self.parent@, self.rank@, self.bound@, i) == (if root_from(
                    mid.parent@,
                    mid.rank@,
                    mid.bound@,
                    i,
                ) == ra {
                    rb as int
                } else {
                    root_from(mid.parent@, mid.rank@, mid.bound@, i)
                }));
            }
            if va is None && vb is Some {
                assert forall|v: InferVar| v.index < n implies ((old(self).value_of(v) is None
                    && self.value_of(v) is Some) <==> (#[trigger] mid.rep(v)) == (InferVar {
                    index: ra,
                })) by {
                    assert(old(self).has(v));
                    let i = v.index as int;
                    assert(root_from(mid.parent@, mid.rank@, mid.bound@, i) == root_from(
                        old(self).parent@,
                        old(self).rank@,
                        old(self).bound@,
                        i,
                    ));
                    assert(self.value_of(v) == (if old(self).same_class(v, a)
                        || old(self).same_class(v, b) {
                        joined
                    } else {
                        old(self).value_of(v)
                    }));
                }
                Self::lemma_resolved_are_members(*old(self), mid, *self, InferVar { index: ra }, n);
            } else if va is Some && vb is None {
                assert forall|v: InferVar| v.index < n implies ((old(self).value_of(v) is None
                    && self.value_of(v) is Some) <==> (#[trigger] mid.rep(v)) == (InferVar {
                    index: rb,
                })) by {
                    assert(old(self).has(v));
                    let i = v.index as int;
                    assert(root_from(mid.parent@, mid.rank@, mid.bound@, i) == root_from(
                        old(self).parent@,
                        old(self).rank@,
                        old(self).bound@,
                        i,
                    ));
                    assert(self.value_of(v) == (if old(self).same_class(v, a)
                        || old(self).same_class(v, b) {
                        joined
                    } else {
                        old(self).value_of(v)
                    }));
                }
                Self::lemma_resolved_are_members(*old(self), mid, *self, InferVar { index: rb }, n);
            } else {
                assert forall|v: InferVar| v.index < n implies !(old(self).value_of(v) is None && (
                #[trigger] self.value_of(v)) is Some) by {
                    assert(old(self).has(v));
                    assert(self.value_of(v) == (if old(self).same_class(v, a)
                        || old(self).same_class(v, b) {
                        joined
                    } else {
                        old(self).value_of(v)
                    }));
                }
                Self::lemma_resolved_none(*old(self), *self, n);
                assert(old(self).events@ + Seq::<InferVar>::empty() =~= old(self).events@);
            }
        }
        Ok(())
    }

    /// Requires the class of `v` to be resolved to `value`.
    ///
    /// Where the class is resolved to another value the call fails and the
    /// table stays exactly as it was. Where it is unresolved, it is now
    /// resolved to `value`, and every variable of the class is added to the
    /// events, in ascending order.
    pub fn assign(&mut self, v: InferVar, value: Base) -> (r: Result<(), TypeMismatch>)
        requires
            old(self).wf(),
            old(self).has(v),
        ensures
            final(self).wf(),
            final(self).len() == old(self).len(),
            r is Err <==> old(self).value_of(v) is Some && old(self).value_of(v) != Some(value),
            r matches Err(e) ==> e.left == old(self).value_of(v)->0 && e.right == value
                && *final(self) == *old(self),
            r is Ok ==> final(self).value_of(v) == Some(value),
            r is Ok ==> forall|w: InferVar|
                old(self).has(w) ==> #[trigger] final(self).rep(w) == old(self).rep(w),
            r is Ok ==> forall|w: InferVar|
                old(self).has(w) ==> #[trigger] final(self).value_of(w)
                    == (if old(self).same_class(w, v) {
                    Some(value)
                } else {
                    old(self).value_of(w)
                }),
            r is Ok ==> final(self).events() == old(self).events() + Self::resolved_since(
                *old(self),
                *final(self),
                old(self).len(),
            ),
    {
        let ghost n = self.len();
        let root: u32 = self.root_of(v);
        proof {
            assert forall|i: int| 0 <= i < n implies 0 <= #[trigger] root_from(
                self.parent@,
                self.rank@,
                self.bound@,
                i,
            ) < n by {
                lemma_root(self.parent@, self.rank@, self.bound@, i);
            }
        }
        match self.value[root as usize] {
            Some(x) => {
                if x == value {
                    proof {
                        Self::lemma_resolved_none(*self, *self, n);
                        assert(self.events@ + Seq::<InferVar>::empty() =~= self.events@);
                    }
                    Ok(())
                } else {
                    Err(TypeMismatch { left: x, right: value })
                }
            },
            None => {
                self.compress(v, root);
                let newly = self.collect_members(root);
                let ghost mid = *self;
                self.value.set(root as usize, Some(value));
                self.push_events(newly);
                proof {
                    assert forall|w: InferVar| old(self).has(w) implies #[trigger] self.rep(w)
                        == old(self).rep(w) && #[trigger] self.value_of(w)
                            == (if old(self).same_class(w, v) {
                        Some(value)
                    } else {
                        old(self).value_of(w)
                    }) by {
                        let i = w.index as int;
                        assert(root_from(mid.parent@, mid.rank@, mid.bound@, i) == root_from(
                            old(self).parent@,
                            old(self).rank@,
                            old(self).bound@,
                            i,
                        ));
                    }
                    assert forall|w: InferVar| w.index < n implies ((old(self).value_of(w) is None
                        && self.value_of(w) is Some) <==> (#[trigger] mid.rep(w)) == (InferVar {
                        index: root,
                    })) by {
                        assert(old(self).has(w));
                        let i = w.index as int;
                        assert(root_from(mid.parent@, mid.rank@, mid.bound@, i) == root_from(
                            old(self).parent@,
                            old(self).rank@,
                            old(self).bound@,
                            i,
                        ));
                        assert(self.value_of(w) == (if old(self).same_class(w, v) {
                            Some(value)
                        } else {
                            old(self).value_of(w)
                        }));
                    }
                    Self::lemma_resolved_are_members(
                        *old(self),
                        mid,
                        *self,
                        InferVar { index: root },
                        n,
                    );
                }
                Ok(())
            },
        }
    }
}

} // verus!
